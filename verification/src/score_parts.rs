//! A score taken apart. Combinations of different kinds never replace one
//! another, nor do rank matches of different ranks: a score falls into parts
//! that a tally treats each for itself, so that each part of a tally is the
//! tally of the parts.

use crate::cards::{Card, Rank};
use crate::scoring::{
    spec_absorbed, spec_absorbs, spec_add, spec_found, spec_is_fifteen, spec_is_flush,
    spec_is_rank_match, spec_is_run, spec_kept, spec_score, spec_stays, spec_tally,
    spec_tally_all, spec_total, CombinationKind, CombinationView,
};
use vstd::prelude::*;

verus! {

/// Whether two combinations can matter to one another in a tally: they are
/// of one kind and, as rank matches, of one rank.
pub open spec fn spec_touch(a: CombinationView, b: CombinationView) -> bool {
    a.kind == b.kind && (a.kind == CombinationKind::RankMatch ==> a.rank_info == b.rank_info)
}

/// Whether `part` is a part of scores that a tally treats for itself: it
/// holds both or neither of any two combinations that can matter to one
/// another.
pub open spec fn spec_is_part(part: spec_fn(CombinationView) -> bool) -> bool {
    forall|a: CombinationView, b: CombinationView|
        #![trigger part(a), part(b)]
        spec_touch(a, b) ==> part(a) == part(b)
}

/// The part of the combinations of one kind.
pub open spec fn part_of_kind(kind: CombinationKind) -> spec_fn(CombinationView) -> bool {
    |c: CombinationView| c.kind == kind
}

/// The part of all combinations but the flushes.
pub open spec fn part_without_flushes() -> spec_fn(CombinationView) -> bool {
    |c: CombinationView| c.kind != CombinationKind::SuitMatch
}

/// The part of the rank matches of one rank.
pub open spec fn part_of_rank(rank: Rank) -> spec_fn(CombinationView) -> bool {
    |c: CombinationView| c.kind == CombinationKind::RankMatch && c.rank_info == rank
}

/// The combinations of `list` that belong to the part, in order.
pub open spec fn spec_part(list: Seq<CombinationView>, part: spec_fn(CombinationView) -> bool) -> Seq<
    CombinationView,
>
    decreases list.len(),
{
    if list.len() == 0 {
        Seq::empty()
    } else if part(list.last()) {
        spec_part(list.drop_last(), part).push(list.last())
    } else {
        spec_part(list.drop_last(), part)
    }
}

/// The part of a list with one more combination.
pub proof fn lemma_part_push(
    list: Seq<CombinationView>,
    c: CombinationView,
    part: spec_fn(CombinationView) -> bool,
)
    ensures
        spec_part(list.push(c), part) == if part(c) {
            spec_part(list, part).push(c)
        } else {
            spec_part(list, part)
        },
{
    assert(list.push(c).drop_last() =~= list);
    assert(list.push(c).last() == c);
}

/// A part holds the combinations of the list that belong to it, and no
/// others.
pub proof fn lemma_part_members(list: Seq<CombinationView>, part: spec_fn(CombinationView) -> bool)
    ensures
        forall|i: int|
            0 <= i < spec_part(list, part).len() ==> part(#[trigger] spec_part(list, part)[i])
                && list.contains(spec_part(list, part)[i]),
        forall|j: int|
            0 <= j < list.len() && part(#[trigger] list[j]) ==> spec_part(list, part).contains(
                list[j],
            ),
    decreases list.len(),
{
    if list.len() > 0 {
        let before = list.drop_last();
        let now = spec_part(list, part);
        let part_before = spec_part(before, part);
        lemma_part_members(before, part);
        assert forall|i: int| 0 <= i < now.len() implies part(#[trigger] now[i]) && list.contains(
            now[i],
        ) by {
            if i < part_before.len() {
                assert(now[i] == part_before[i]);
                let j = choose|j: int| 0 <= j < before.len() && before[j] == part_before[i];
                assert(list[j] == now[i]);
            } else {
                assert(now[i] == list[list.len() - 1]);
            }
        }
        assert forall|j: int| 0 <= j < list.len() && part(#[trigger] list[j]) implies now.contains(
            list[j],
        ) by {
            if j < before.len() {
                assert(before[j] == list[j]);
                let i = choose|i: int| 0 <= i < part_before.len() && part_before[i] == before[j];
                assert(now[i] == list[j]);
            } else {
                assert(now[now.len() - 1] == list[j]);
            }
        }
    }
}

/// The part of what stays is what stays of the part, and all of the part
/// where the arriving combination does not belong to it.
pub proof fn lemma_part_kept(
    held: Seq<CombinationView>,
    added: CombinationView,
    part: spec_fn(CombinationView) -> bool,
)
    requires
        spec_is_part(part),
    ensures
        spec_part(spec_kept(held, added), part) == if part(added) {
            spec_kept(spec_part(held, part), added)
        } else {
            spec_part(held, part)
        },
    decreases held.len(),
{
    if held.len() > 0 {
        let before = held.drop_last();
        let last = held.last();
        lemma_part_kept(before, added, part);
        if spec_stays(last, added) {
            lemma_part_push(spec_kept(before, added), last, part);
        }
        if part(last) {
            let part_before = spec_part(before, part);
            assert(part_before.push(last).drop_last() =~= part_before);
            assert(part_before.push(last).last() == last);
            if !part(added) {
                assert(spec_touch(last, added) ==> part(last) == part(added));
                assert(spec_stays(last, added));
            }
        }
    }
}

/// An arriving combination is made redundant by the list just when it is
/// made redundant by its own part of the list.
pub proof fn lemma_part_absorbed(
    held: Seq<CombinationView>,
    added: CombinationView,
    part: spec_fn(CombinationView) -> bool,
)
    requires
        spec_is_part(part),
        part(added),
    ensures
        spec_absorbed(held, added) <==> spec_absorbed(spec_part(held, part), added),
{
    lemma_part_members(held, part);
    let own = spec_part(held, part);
    if spec_absorbed(held, added) {
        let j = choose|j: int| 0 <= j < held.len() && spec_absorbs(#[trigger] held[j], added);
        assert(spec_touch(held[j], added) ==> part(held[j]) == part(added));
        assert(part(held[j]));
        let i = choose|i: int| 0 <= i < own.len() && own[i] == held[j];
        assert(spec_absorbs(own[i], added));
    }
    if spec_absorbed(own, added) {
        let i = choose|i: int| 0 <= i < own.len() && spec_absorbs(#[trigger] own[i], added);
        let j = choose|j: int| 0 <= j < held.len() && held[j] == own[i];
        assert(spec_absorbs(held[j], added));
    }
}

/// The part of a score after a combination has arrived: the part with the
/// combination added, or the part as it was where the combination does not
/// belong to it.
pub proof fn lemma_part_add(
    held: Seq<CombinationView>,
    added: CombinationView,
    part: spec_fn(CombinationView) -> bool,
)
    requires
        spec_is_part(part),
    ensures
        spec_part(spec_add(held, added), part) == if part(added) {
            spec_add(spec_part(held, part), added)
        } else {
            spec_part(held, part)
        },
{
    lemma_part_kept(held, added, part);
    if part(added) {
        lemma_part_absorbed(held, added, part);
    }
    if !spec_absorbed(held, added) {
        lemma_part_push(spec_kept(held, added), added, part);
    }
}

/// The part of a tally is the tally of the parts.
pub proof fn lemma_part_tally(
    held: Seq<CombinationView>,
    added: Seq<CombinationView>,
    part: spec_fn(CombinationView) -> bool,
)
    requires
        spec_is_part(part),
    ensures
        spec_part(spec_tally(held, added), part) == spec_tally(
            spec_part(held, part),
            spec_part(added, part),
        ),
    decreases added.len(),
{
    if added.len() > 0 {
        let before = added.drop_last();
        let last = added.last();
        lemma_part_tally(held, before, part);
        lemma_part_add(spec_tally(held, before), last, part);
        if part(last) {
            let part_before = spec_part(before, part);
            assert(part_before.push(last).drop_last() =~= part_before);
            assert(part_before.push(last).last() == last);
        }
    }
}

/// Where each combination belongs to one of two parts and not to the other,
/// the total of a score is the sum of the totals of its two parts.
pub proof fn lemma_total_of_parts(
    list: Seq<CombinationView>,
    one: spec_fn(CombinationView) -> bool,
    other: spec_fn(CombinationView) -> bool,
)
    requires
        forall|c: CombinationView| #![trigger one(c)] one(c) != other(c),
    ensures
        spec_total(list) == spec_total(spec_part(list, one)) + spec_total(spec_part(list, other)),
    decreases list.len(),
{
    if list.len() > 0 {
        let before = list.drop_last();
        let last = list.last();
        lemma_total_of_parts(before, one, other);
        assert(one(last) != other(last));
        let own = if one(last) {
            spec_part(before, one)
        } else {
            spec_part(before, other)
        };
        assert(own.push(last).drop_last() =~= own);
        assert(own.push(last).last() == last);
    }
}

/// A list whose combinations all belong to a part is that part.
pub proof fn lemma_part_all(list: Seq<CombinationView>, part: spec_fn(CombinationView) -> bool)
    requires
        forall|i: int| 0 <= i < list.len() ==> part(#[trigger] list[i]),
    ensures
        spec_part(list, part) == list,
    decreases list.len(),
{
    if list.len() > 0 {
        let before = list.drop_last();
        assert forall|i: int| 0 <= i < before.len() implies part(#[trigger] before[i]) by {
            assert(before[i] == list[i]);
        }
        lemma_part_all(before, part);
        assert(part(list[list.len() - 1]));
        assert(before.push(list.last()) =~= list);
    } else {
        assert(spec_part(list, part) =~= list);
    }
}

/// A list none of whose combinations belongs to a part has nothing of that
/// part.
pub proof fn lemma_part_none(list: Seq<CombinationView>, part: spec_fn(CombinationView) -> bool)
    requires
        forall|i: int| 0 <= i < list.len() ==> !part(#[trigger] list[i]),
    ensures
        spec_part(list, part) == Seq::<CombinationView>::empty(),
    decreases list.len(),
{
    if list.len() > 0 {
        let before = list.drop_last();
        assert forall|i: int| 0 <= i < before.len() implies !part(#[trigger] before[i]) by {
            assert(before[i] == list[i]);
        }
        lemma_part_none(before, part);
        assert(!part(list[list.len() - 1]));
    } else {
        assert(spec_part(list, part) =~= Seq::<CombinationView>::empty());
    }
}

/// The score after the part of what each of `subsets` makes has arrived.
pub open spec fn spec_tally_part(
    held: Seq<CombinationView>,
    subsets: Seq<Seq<Card>>,
    is_crib: bool,
    part: spec_fn(CombinationView) -> bool,
) -> Seq<CombinationView>
    decreases subsets.len(),
{
    if subsets.len() == 0 {
        held
    } else {
        spec_tally(
            spec_tally_part(held, subsets.drop_last(), is_crib, part),
            spec_part(spec_score(subsets.last(), is_crib), part),
        )
    }
}

/// A part of the score of all subsets is tallied from the part of what the
/// subsets make, starting from the part of the score before.
pub proof fn lemma_part_tally_all(
    held: Seq<CombinationView>,
    subsets: Seq<Seq<Card>>,
    is_crib: bool,
    part: spec_fn(CombinationView) -> bool,
)
    requires
        spec_is_part(part),
    ensures
        spec_part(spec_tally_all(held, subsets, is_crib), part) == spec_tally_part(
            spec_part(held, part),
            subsets,
            is_crib,
            part,
        ),
    decreases subsets.len(),
{
    if subsets.len() > 0 {
        let before = spec_tally_all(held, subsets.drop_last(), is_crib);
        lemma_part_tally_all(held, subsets.drop_last(), is_crib, part);
        lemma_part_tally(before, spec_score(subsets.last(), is_crib), part);
    }
}

/// What cards make apart from a flush: a fifteen, a rank match, a run.
pub open spec fn spec_score_plain(cards: Seq<Card>) -> Seq<CombinationView> {
    spec_found(spec_is_fifteen(cards), CombinationKind::Fifteen, cards) + spec_found(
        spec_is_rank_match(cards),
        CombinationKind::RankMatch,
        cards,
    ) + spec_found(spec_is_run(cards), CombinationKind::Run, cards)
}

/// The flush that cards make, if they make one.
pub open spec fn spec_score_flush(cards: Seq<Card>, is_crib: bool) -> Seq<CombinationView> {
    spec_found(spec_is_flush(cards, is_crib), CombinationKind::SuitMatch, cards)
}

/// What cards make is what they make apart from a flush, and the flush.
pub proof fn lemma_score_parts(cards: Seq<Card>, is_crib: bool)
    ensures
        spec_score(cards, is_crib) == spec_score_plain(cards) + spec_score_flush(cards, is_crib),
        spec_part(spec_score(cards, is_crib), part_without_flushes()) == spec_score_plain(cards),
        spec_part(spec_score(cards, is_crib), part_of_kind(CombinationKind::SuitMatch))
            == spec_score_flush(cards, is_crib),
{
    let plain = spec_score_plain(cards);
    let flush = spec_score_flush(cards, is_crib);
    let flushes = part_of_kind(CombinationKind::SuitMatch);
    let others = part_without_flushes();
    assert forall|i: int| 0 <= i < plain.len() implies others(#[trigger] plain[i]) && !flushes(
        plain[i],
    ) by {}
    lemma_part_all(plain, others);
    lemma_part_none(plain, flushes);
    if flush.len() > 0 {
        assert(plain + flush =~= plain.push(flush[0]));
        lemma_part_push(plain, flush[0], flushes);
        lemma_part_push(plain, flush[0], others);
        assert(Seq::<CombinationView>::empty().push(flush[0]) =~= flush);
    } else {
        assert(plain + flush =~= plain);
    }
}

/// The score after what each of `subsets` makes apart from a flush has
/// arrived.
pub open spec fn spec_tally_plain(held: Seq<CombinationView>, subsets: Seq<Seq<Card>>) -> Seq<
    CombinationView,
>
    decreases subsets.len(),
{
    if subsets.len() == 0 {
        held
    } else {
        spec_tally(spec_tally_plain(held, subsets.drop_last()), spec_score_plain(subsets.last()))
    }
}

/// The score after the flush of each of `subsets` that makes one has
/// arrived.
pub open spec fn spec_tally_flush(
    held: Seq<CombinationView>,
    subsets: Seq<Seq<Card>>,
    is_crib: bool,
) -> Seq<CombinationView>
    decreases subsets.len(),
{
    if subsets.len() == 0 {
        held
    } else {
        spec_tally(
            spec_tally_flush(held, subsets.drop_last(), is_crib),
            spec_score_flush(subsets.last(), is_crib),
        )
    }
}

/// The flushes of a score and its other combinations are two parts.
pub proof fn lemma_flush_parts()
    ensures
        spec_is_part(part_of_kind(CombinationKind::SuitMatch)),
        spec_is_part(part_without_flushes()),
        forall|c: CombinationView|
            #![trigger part_of_kind(CombinationKind::SuitMatch)(c)]
            part_of_kind(CombinationKind::SuitMatch)(c) != part_without_flushes()(c),
{
}

/// The two parts of the score of all subsets: the flushes are tallied among
/// themselves, and so are the other combinations.
pub proof fn lemma_flushes_apart(held: Seq<CombinationView>, subsets: Seq<Seq<Card>>, is_crib: bool)
    ensures
        spec_part(spec_tally_all(held, subsets, is_crib), part_without_flushes())
            == spec_tally_plain(spec_part(held, part_without_flushes()), subsets),
        spec_part(spec_tally_all(held, subsets, is_crib), part_of_kind(CombinationKind::SuitMatch))
            == spec_tally_flush(
            spec_part(held, part_of_kind(CombinationKind::SuitMatch)),
            subsets,
            is_crib,
        ),
        spec_total(spec_tally_all(held, subsets, is_crib)) == spec_total(
            spec_tally_plain(spec_part(held, part_without_flushes()), subsets),
        ) + spec_total(
            spec_tally_flush(
                spec_part(held, part_of_kind(CombinationKind::SuitMatch)),
                subsets,
                is_crib,
            ),
        ),
{
    let flushes = part_of_kind(CombinationKind::SuitMatch);
    let others = part_without_flushes();
    lemma_flush_parts();
    lemma_part_tally_all(held, subsets, is_crib, flushes);
    lemma_part_tally_all(held, subsets, is_crib, others);
    lemma_tally_part_is_plain(spec_part(held, others), subsets, is_crib);
    lemma_tally_part_is_flush(spec_part(held, flushes), subsets, is_crib);
    lemma_total_of_parts(spec_tally_all(held, subsets, is_crib), flushes, others);
}

/// The tally of the part without flushes is the tally of what the subsets
/// make apart from a flush.
pub proof fn lemma_tally_part_is_plain(
    held: Seq<CombinationView>,
    subsets: Seq<Seq<Card>>,
    is_crib: bool,
)
    ensures
        spec_tally_part(held, subsets, is_crib, part_without_flushes()) == spec_tally_plain(
            held,
            subsets,
        ),
    decreases subsets.len(),
{
    if subsets.len() > 0 {
        lemma_tally_part_is_plain(held, subsets.drop_last(), is_crib);
        lemma_score_parts(subsets.last(), is_crib);
    }
}

/// The tally of the part of the flushes is the tally of the flushes that the
/// subsets make.
pub proof fn lemma_tally_part_is_flush(
    held: Seq<CombinationView>,
    subsets: Seq<Seq<Card>>,
    is_crib: bool,
)
    ensures
        spec_tally_part(held, subsets, is_crib, part_of_kind(CombinationKind::SuitMatch))
            == spec_tally_flush(held, subsets, is_crib),
    decreases subsets.len(),
{
    if subsets.len() > 0 {
        lemma_tally_part_is_flush(held, subsets.drop_last(), is_crib);
        lemma_score_parts(subsets.last(), is_crib);
    }
}

} // verus!
