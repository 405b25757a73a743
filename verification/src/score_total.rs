//! What the score of a hand comes to, said without the order in which the
//! combinations are found: one for his nobs, two for each fifteen, for each
//! rank the largest rank match, every run of the greatest length, and the
//! best flush.

use crate::cards::{Card, Rank};
use crate::combinator::spec_combinations;
use crate::flush_value::{lemma_tally_flush, spec_best_flush};
use crate::score_parts::{
    lemma_part_all, lemma_part_none, lemma_part_tally_all, lemma_tally_part_is_flush,
    part_of_kind, part_of_rank, spec_is_part, spec_part, spec_tally_part,
};
use crate::scoring::{
    spec_absorbed, spec_absorbs, spec_add, spec_found, spec_is_fifteen, spec_is_rank_match,
    spec_is_run, spec_kept, spec_name, spec_nob, spec_points, spec_score, spec_score_hand,
    spec_stays, spec_tally, spec_tally_all, spec_total, spec_working_set, CombinationKind,
    CombinationView,
};
use crate::subsumption::lemma_kept_all;
use vstd::prelude::*;

verus! {

/// What his nobs scores: one where the hand holds a Jack of the starter's
/// suit.
pub open spec fn spec_nob_points(hand: Seq<Card>, starter: Option<Card>) -> nat {
    match starter {
        Some(card) => if exists|i: int|
            0 <= i < hand.len() && (#[trigger] hand[i]).rank == Rank::Jack && hand[i].suit
                == card.suit {
            1
        } else {
            0
        },
        None => 0,
    }
}

/// How many of `subsets` count fifteen.
pub open spec fn spec_fifteens(subsets: Seq<Seq<Card>>) -> nat
    decreases subsets.len(),
{
    if subsets.len() == 0 {
        0
    } else if spec_is_fifteen(subsets.last()) {
        spec_fifteens(subsets.drop_last()) + 1
    } else {
        spec_fifteens(subsets.drop_last())
    }
}

/// What `cards` score as a rank match of the rank `rank`, if they are one.
pub open spec fn spec_rank_match_points(cards: Seq<Card>, rank: Rank) -> nat {
    if spec_is_rank_match(cards) && cards[0].rank == rank {
        spec_points(spec_name(CombinationKind::RankMatch, cards.len()))
    } else {
        0
    }
}

/// The most that a rank match of the rank `rank` among `subsets` scores.
pub open spec fn spec_best_rank_match(subsets: Seq<Seq<Card>>, rank: Rank) -> nat
    decreases subsets.len(),
{
    if subsets.len() == 0 {
        0
    } else if spec_rank_match_points(subsets.last(), rank) > spec_best_rank_match(
        subsets.drop_last(),
        rank,
    ) {
        spec_rank_match_points(subsets.last(), rank)
    } else {
        spec_best_rank_match(subsets.drop_last(), rank)
    }
}

/// What the rank matches among `subsets` come to: for each rank the best.
pub open spec fn spec_rank_matches(subsets: Seq<Seq<Card>>) -> nat {
    spec_best_rank_match(subsets, Rank::Ace) + spec_best_rank_match(subsets, Rank::Two)
        + spec_best_rank_match(subsets, Rank::Three) + spec_best_rank_match(subsets, Rank::Four)
        + spec_best_rank_match(subsets, Rank::Five) + spec_best_rank_match(subsets, Rank::Six)
        + spec_best_rank_match(subsets, Rank::Seven) + spec_best_rank_match(subsets, Rank::Eight)
        + spec_best_rank_match(subsets, Rank::Nine) + spec_best_rank_match(subsets, Rank::Ten)
        + spec_best_rank_match(subsets, Rank::Jack) + spec_best_rank_match(subsets, Rank::Queen)
        + spec_best_rank_match(subsets, Rank::King) + spec_best_rank_match(
        subsets,
        Rank::Unknown,
    )
}

/// What `cards` score as a run, if they are one.
pub open spec fn spec_run_points(cards: Seq<Card>) -> nat {
    if spec_is_run(cards) {
        spec_points(spec_name(CombinationKind::Run, cards.len()))
    } else {
        0
    }
}

/// The most that a run among `subsets` scores.
pub open spec fn spec_best_run(subsets: Seq<Seq<Card>>) -> nat
    decreases subsets.len(),
{
    if subsets.len() == 0 {
        0
    } else if spec_run_points(subsets.last()) > spec_best_run(subsets.drop_last()) {
        spec_run_points(subsets.last())
    } else {
        spec_best_run(subsets.drop_last())
    }
}

/// How many of `subsets` are runs that score `points`.
pub open spec fn spec_runs_worth(subsets: Seq<Seq<Card>>, points: nat) -> nat
    decreases subsets.len(),
{
    if subsets.len() == 0 {
        0
    } else if spec_is_run(subsets.last()) && spec_run_points(subsets.last()) == points {
        spec_runs_worth(subsets.drop_last(), points) + 1
    } else {
        spec_runs_worth(subsets.drop_last(), points)
    }
}

/// What the runs among `subsets` come to: each run of the greatest length
/// scores, and no shorter one.
pub open spec fn spec_runs(subsets: Seq<Seq<Card>>) -> nat {
    spec_best_run(subsets) * spec_runs_worth(subsets, spec_best_run(subsets))
}

/// What a hand comes to: his nobs, two for each subset of the working set
/// that counts fifteen, the best rank match of each rank, the longest runs,
/// and the best flush.
pub open spec fn spec_hand_total(hand: Seq<Card>, starter: Option<Card>, is_crib: bool) -> nat {
    let cards = spec_working_set(hand, starter);
    let subsets = spec_combinations(cards, 2, cards.len());
    spec_nob_points(hand, starter) + 2 * spec_fifteens(subsets) + spec_rank_matches(subsets)
        + spec_runs(subsets) + spec_best_flush(subsets, is_crib)
}

/// The total of the part `part` of a score.
pub open spec fn spec_part_total(
    list: Seq<CombinationView>,
    part: spec_fn(CombinationView) -> bool,
) -> nat {
    spec_total(spec_part(list, part))
}

/// The last combination of a score adds its points to the total of its part
/// and to no other.
pub proof fn lemma_part_total_last(list: Seq<CombinationView>, part: spec_fn(CombinationView) -> bool)
    requires
        list.len() > 0,
    ensures
        spec_part_total(list, part) == spec_part_total(list.drop_last(), part) + if part(
            list.last(),
        ) {
            list.last().points
        } else {
            0
        },
{
    let before = spec_part(list.drop_last(), part);
    if part(list.last()) {
        assert(before.push(list.last()).drop_last() =~= before);
        assert(before.push(list.last()).last() == list.last());
    }
}

/// The total of the rank matches of a score, rank by rank.
pub open spec fn spec_rank_parts_total(list: Seq<CombinationView>) -> nat {
    spec_part_total(list, part_of_rank(Rank::Ace)) + spec_part_total(
        list,
        part_of_rank(Rank::Two),
    ) + spec_part_total(list, part_of_rank(Rank::Three)) + spec_part_total(
        list,
        part_of_rank(Rank::Four),
    ) + spec_part_total(list, part_of_rank(Rank::Five)) + spec_part_total(
        list,
        part_of_rank(Rank::Six),
    ) + spec_part_total(list, part_of_rank(Rank::Seven)) + spec_part_total(
        list,
        part_of_rank(Rank::Eight),
    ) + spec_part_total(list, part_of_rank(Rank::Nine)) + spec_part_total(
        list,
        part_of_rank(Rank::Ten),
    ) + spec_part_total(list, part_of_rank(Rank::Jack)) + spec_part_total(
        list,
        part_of_rank(Rank::Queen),
    ) + spec_part_total(list, part_of_rank(Rank::King)) + spec_part_total(
        list,
        part_of_rank(Rank::Unknown),
    )
}

/// The total of a score is the sum of the totals of its parts: the
/// combinations of each kind, the rank matches rank by rank.
pub proof fn lemma_total_by_parts(list: Seq<CombinationView>)
    ensures
        spec_total(list) == spec_part_total(list, part_of_kind(CombinationKind::Nob))
            + spec_part_total(list, part_of_kind(CombinationKind::Fifteen))
            + spec_rank_parts_total(list) + spec_part_total(
            list,
            part_of_kind(CombinationKind::Run),
        ) + spec_part_total(list, part_of_kind(CombinationKind::SuitMatch)) + spec_part_total(
            list,
            part_of_kind(CombinationKind::ThirtyOne),
        ),
    decreases list.len(),
{
    if list.len() > 0 {
        lemma_total_by_parts(list.drop_last());
        lemma_part_total_last(list, part_of_kind(CombinationKind::Nob));
        lemma_part_total_last(list, part_of_kind(CombinationKind::Fifteen));
        lemma_part_total_last(list, part_of_kind(CombinationKind::Run));
        lemma_part_total_last(list, part_of_kind(CombinationKind::SuitMatch));
        lemma_part_total_last(list, part_of_kind(CombinationKind::ThirtyOne));
        lemma_part_total_last(list, part_of_rank(Rank::Ace));
        lemma_part_total_last(list, part_of_rank(Rank::Two));
        lemma_part_total_last(list, part_of_rank(Rank::Three));
        lemma_part_total_last(list, part_of_rank(Rank::Four));
        lemma_part_total_last(list, part_of_rank(Rank::Five));
        lemma_part_total_last(list, part_of_rank(Rank::Six));
        lemma_part_total_last(list, part_of_rank(Rank::Seven));
        lemma_part_total_last(list, part_of_rank(Rank::Eight));
        lemma_part_total_last(list, part_of_rank(Rank::Nine));
        lemma_part_total_last(list, part_of_rank(Rank::Ten));
        lemma_part_total_last(list, part_of_rank(Rank::Jack));
        lemma_part_total_last(list, part_of_rank(Rank::Queen));
        lemma_part_total_last(list, part_of_rank(Rank::King));
        lemma_part_total_last(list, part_of_rank(Rank::Unknown));
    }
}

/// The part of what cards make, kind by kind and, for the rank matches, rank
/// by rank.
pub proof fn lemma_score_by_parts(cards: Seq<Card>, is_crib: bool, rank: Rank)
    ensures
        spec_part(spec_score(cards, is_crib), part_of_kind(CombinationKind::Nob)) == Seq::<
            CombinationView,
        >::empty(),
        spec_part(spec_score(cards, is_crib), part_of_kind(CombinationKind::ThirtyOne)) == Seq::<
            CombinationView,
        >::empty(),
        spec_part(spec_score(cards, is_crib), part_of_kind(CombinationKind::Fifteen))
            == spec_found(spec_is_fifteen(cards), CombinationKind::Fifteen, cards),
        spec_part(spec_score(cards, is_crib), part_of_kind(CombinationKind::Run)) == spec_found(
            spec_is_run(cards),
            CombinationKind::Run,
            cards,
        ),
        spec_part(spec_score(cards, is_crib), part_of_rank(rank)) == spec_found(
            spec_is_rank_match(cards) && cards[0].rank == rank,
            CombinationKind::RankMatch,
            cards,
        ),
{
    let none = Seq::<CombinationView>::empty();
    let fifteen = spec_found(spec_is_fifteen(cards), CombinationKind::Fifteen, cards);
    let rank_match = spec_found(spec_is_rank_match(cards), CombinationKind::RankMatch, cards);
    let run = spec_found(spec_is_run(cards), CombinationKind::Run, cards);
    let flush = spec_found(
        crate::scoring::spec_is_flush(cards, is_crib),
        CombinationKind::SuitMatch,
        cards,
    );
    assert(spec_score(cards, is_crib) == fifteen + rank_match + run + flush);
    lemma_part_of_each(fifteen, rank_match, run, flush, part_of_kind(CombinationKind::Nob));
    lemma_part_of_each(fifteen, rank_match, run, flush, part_of_kind(CombinationKind::ThirtyOne));
    lemma_part_of_each(fifteen, rank_match, run, flush, part_of_kind(CombinationKind::Fifteen));
    lemma_part_of_each(fifteen, rank_match, run, flush, part_of_kind(CombinationKind::Run));
    lemma_part_of_each(fifteen, rank_match, run, flush, part_of_rank(rank));
    lemma_part_of_four(fifteen, rank_match, run, flush, part_of_kind(CombinationKind::Nob));
    lemma_part_of_four(fifteen, rank_match, run, flush, part_of_kind(CombinationKind::ThirtyOne));
    lemma_part_of_four(fifteen, rank_match, run, flush, part_of_kind(CombinationKind::Fifteen));
    lemma_part_of_four(fifteen, rank_match, run, flush, part_of_kind(CombinationKind::Run));
    lemma_part_of_four(fifteen, rank_match, run, flush, part_of_rank(rank));
    assert(none + none =~= none);
    assert(fifteen + none =~= fifteen);
    assert(none + fifteen =~= fifteen);
    assert(run + none =~= run);
    assert(none + run =~= run);
    assert(rank_match + none =~= rank_match);
    assert(none + rank_match =~= rank_match);
}

/// The part of a list of at most one combination.
pub proof fn lemma_part_of_one(one: Seq<CombinationView>, part: spec_fn(CombinationView) -> bool)
    requires
        one.len() <= 1,
    ensures
        spec_part(one, part) == if one.len() == 1 && part(one[0]) {
            one
        } else {
            Seq::<CombinationView>::empty()
        },
{
    let none = Seq::<CombinationView>::empty();
    assert(spec_part(none, part) =~= none);
    if one.len() == 1 {
        assert(one.drop_last() =~= none);
        assert(one.last() == one[0]);
        assert(none.push(one[0]) =~= one);
    } else {
        assert(one =~= none);
    }
}

/// The parts of four lists of at most one combination each.
pub proof fn lemma_part_of_each(
    a: Seq<CombinationView>,
    b: Seq<CombinationView>,
    c: Seq<CombinationView>,
    d: Seq<CombinationView>,
    part: spec_fn(CombinationView) -> bool,
)
    requires
        a.len() <= 1,
        b.len() <= 1,
        c.len() <= 1,
        d.len() <= 1,
    ensures
        spec_part(a, part) == if a.len() == 1 && part(a[0]) {
            a
        } else {
            Seq::<CombinationView>::empty()
        },
        spec_part(b, part) == if b.len() == 1 && part(b[0]) {
            b
        } else {
            Seq::<CombinationView>::empty()
        },
        spec_part(c, part) == if c.len() == 1 && part(c[0]) {
            c
        } else {
            Seq::<CombinationView>::empty()
        },
        spec_part(d, part) == if d.len() == 1 && part(d[0]) {
            d
        } else {
            Seq::<CombinationView>::empty()
        },
{
    lemma_part_of_one(a, part);
    lemma_part_of_one(b, part);
    lemma_part_of_one(c, part);
    lemma_part_of_one(d, part);
}

/// The part of two lists, one after the other, is the part of the first and
/// then the part of the second.
pub proof fn lemma_part_of_two(
    a: Seq<CombinationView>,
    b: Seq<CombinationView>,
    part: spec_fn(CombinationView) -> bool,
)
    ensures
        spec_part(a + b, part) == spec_part(a, part) + spec_part(b, part),
    decreases b.len(),
{
    if b.len() == 0 {
        assert(a + b =~= a);
        assert(spec_part(a, part) + Seq::<CombinationView>::empty() =~= spec_part(a, part));
    } else {
        lemma_part_of_two(a, b.drop_last(), part);
        assert((a + b).drop_last() =~= a + b.drop_last());
        assert((a + b).last() == b.last());
        if part(b.last()) {
            assert((spec_part(a, part) + spec_part(b.drop_last(), part)).push(b.last()) =~= spec_part(
                a,
                part,
            ) + spec_part(b.drop_last(), part).push(b.last()));
        }
    }
}

/// The part of four lists of at most one combination each, one after the
/// other.
pub proof fn lemma_part_of_four(
    a: Seq<CombinationView>,
    b: Seq<CombinationView>,
    c: Seq<CombinationView>,
    d: Seq<CombinationView>,
    part: spec_fn(CombinationView) -> bool,
)
    ensures
        spec_part(a + b + c + d, part) == spec_part(a, part) + spec_part(b, part) + spec_part(
            c,
            part,
        ) + spec_part(d, part),
{
    lemma_part_of_two(a + b + c, d, part);
    lemma_part_of_two(a + b, c, part);
    lemma_part_of_two(a, b, part);
}

/// A tally of one combination adds that combination.
pub proof fn lemma_tally_one(held: Seq<CombinationView>, found: Seq<CombinationView>)
    requires
        found.len() <= 1,
    ensures
        spec_tally(held, found) == if found.len() == 1 {
            spec_add(held, found[0])
        } else {
            held
        },
{
    if found.len() == 1 {
        assert(found.drop_last().len() == 0);
        assert(spec_tally(held, found.drop_last()) == held);
        assert(found.last() == found[0]);
    }
}

/// A score none of whose combinations stays is left with none.
pub proof fn lemma_kept_none(held: Seq<CombinationView>, added: CombinationView)
    requires
        forall|i: int| 0 <= i < held.len() ==> !spec_stays(#[trigger] held[i], added),
    ensures
        spec_kept(held, added) == Seq::<CombinationView>::empty(),
    decreases held.len(),
{
    if held.len() > 0 {
        let before = held.drop_last();
        assert forall|i: int| 0 <= i < before.len() implies !spec_stays(
            #[trigger] before[i],
            added,
        ) by {
            assert(before[i] == held[i]);
        }
        lemma_kept_none(before, added);
        assert(!spec_stays(held[held.len() - 1], added));
    } else {
        assert(spec_kept(held, added) =~= Seq::<CombinationView>::empty());
    }
}

/// Where the subsets make nothing of a part, the part stays as it was.
pub proof fn lemma_tally_nothing(
    held: Seq<CombinationView>,
    subsets: Seq<Seq<Card>>,
    is_crib: bool,
    part: spec_fn(CombinationView) -> bool,
)
    requires
        forall|k: int|
            0 <= k < subsets.len() ==> spec_part(
                spec_score(#[trigger] subsets[k], is_crib),
                part,
            ).len() == 0,
    ensures
        spec_tally_part(held, subsets, is_crib, part) == held,
    decreases subsets.len(),
{
    if subsets.len() > 0 {
        let before = subsets.drop_last();
        assert forall|k: int| 0 <= k < before.len() implies spec_part(
            spec_score(#[trigger] before[k], is_crib),
            part,
        ).len() == 0 by {
            assert(before[k] == subsets[k]);
        }
        lemma_tally_nothing(held, before, is_crib, part);
        assert(subsets[subsets.len() - 1] == subsets.last());
        lemma_tally_one(held, spec_part(spec_score(subsets.last(), is_crib), part));
    }
}

/// The fifteens of the subsets all count: two points each.
pub proof fn lemma_tally_fifteens(subsets: Seq<Seq<Card>>, is_crib: bool)
    ensures
        spec_total(
            spec_tally_part(
                Seq::empty(),
                subsets,
                is_crib,
                part_of_kind(CombinationKind::Fifteen),
            ),
        ) == 2 * spec_fifteens(subsets),
    decreases subsets.len(),
{
    let none = Seq::<CombinationView>::empty();
    let part = part_of_kind(CombinationKind::Fifteen);
    assert(spec_total(none) == 0);
    if subsets.len() > 0 {
        let before = subsets.drop_last();
        lemma_tally_fifteens(before, is_crib);
        let held = spec_tally_part(none, before, is_crib, part);
        lemma_score_by_parts(subsets.last(), is_crib, Rank::Ace);
        let found = spec_part(spec_score(subsets.last(), is_crib), part);
        lemma_tally_one(held, found);
        if found.len() == 1 {
            let fifteen = found[0];
            assert forall|i: int| 0 <= i < held.len() implies spec_stays(
                #[trigger] held[i],
                fifteen,
            ) by {}
            lemma_kept_all(held, fifteen);
            assert(!spec_absorbed(held, fifteen));
            let now = held.push(fifteen);
            assert(now.drop_last() =~= held);
            assert(now.last() == fifteen);
        }
    }
}

/// The rank matches of one rank among the subsets leave at most one rank
/// match in the score: the best.
pub proof fn lemma_tally_rank(subsets: Seq<Seq<Card>>, is_crib: bool, rank: Rank)
    ensures
        spec_tally_part(Seq::empty(), subsets, is_crib, part_of_rank(rank)).len() <= 1,
        spec_total(spec_tally_part(Seq::empty(), subsets, is_crib, part_of_rank(rank)))
            == spec_best_rank_match(subsets, rank),
        spec_tally_part(Seq::empty(), subsets, is_crib, part_of_rank(rank)).len() == 1 ==> {
            &&& part_of_rank(rank)(
                spec_tally_part(Seq::empty(), subsets, is_crib, part_of_rank(rank))[0],
            )
            &&& spec_tally_part(Seq::empty(), subsets, is_crib, part_of_rank(rank))[0].points
                == spec_best_rank_match(subsets, rank)
        },
    decreases subsets.len(),
{
    let none = Seq::<CombinationView>::empty();
    let part = part_of_rank(rank);
    assert(spec_total(none) == 0);
    if subsets.len() > 0 {
        let before = subsets.drop_last();
        lemma_tally_rank(before, is_crib, rank);
        let held = spec_tally_part(none, before, is_crib, part);
        lemma_score_by_parts(subsets.last(), is_crib, rank);
        let found = spec_part(spec_score(subsets.last(), is_crib), part);
        lemma_tally_one(held, found);
        if found.len() == 1 {
            let pair = found[0];
            assert(pair.points == spec_rank_match_points(subsets.last(), rank));
            assert(pair.rank_info == rank);
            if held.len() == 0 {
                assert(spec_kept(held, pair) =~= none);
                assert(!spec_absorbed(held, pair));
                let now = spec_add(held, pair);
                assert(now =~= seq![pair]);
                assert(now.drop_last() =~= none);
                assert(spec_total(now) == pair.points);
            } else {
                let one = held[0];
                assert(held.drop_last() =~= none);
                assert(held.last() == one);
                assert(spec_kept(held.drop_last(), pair) =~= none);
                assert(spec_total(held) == one.points);
                if one.points >= pair.points {
                    assert(spec_kept(held, pair) =~= held);
                    assert(spec_absorbs(held[0], pair));
                    assert(spec_add(held, pair) == held);
                } else {
                    assert(spec_kept(held, pair) =~= none);
                    assert(!spec_absorbed(held, pair));
                    let now = spec_add(held, pair);
                    assert(now =~= seq![pair]);
                    assert(now.drop_last() =~= none);
                    assert(spec_total(now) == pair.points);
                }
            }
        }
    }
}

/// No run among the subsets scores more than the best.
pub proof fn lemma_runs_worth_more(subsets: Seq<Seq<Card>>, points: nat)
    requires
        points > spec_best_run(subsets),
    ensures
        spec_runs_worth(subsets, points) == 0,
    decreases subsets.len(),
{
    if subsets.len() > 0 {
        lemma_runs_worth_more(subsets.drop_last(), points);
    }
}

/// A score of combinations that all score the same totals that often their
/// points.
pub proof fn lemma_total_of_equals(list: Seq<CombinationView>, points: nat)
    requires
        forall|i: int| 0 <= i < list.len() ==> (#[trigger] list[i]).points == points,
    ensures
        spec_total(list) == points * list.len(),
    decreases list.len(),
{
    if list.len() > 0 {
        let before = list.drop_last();
        assert forall|i: int| 0 <= i < before.len() implies (#[trigger] before[i]).points
            == points by {
            assert(before[i] == list[i]);
        }
        lemma_total_of_equals(before, points);
        assert(list[list.len() - 1].points == points);
        assert(points * (before.len() + 1) == points * before.len() + points) by (nonlinear_arith);
    } else {
        assert(points * 0 == 0);
    }
}

/// The runs among the subsets leave the longest runs in the score, all of
/// them and no others.
pub proof fn lemma_tally_runs(subsets: Seq<Seq<Card>>, is_crib: bool)
    ensures
        forall|i: int|
            0 <= i < spec_tally_part(
                Seq::empty(),
                subsets,
                is_crib,
                part_of_kind(CombinationKind::Run),
            ).len() ==> {
                &&& (#[trigger] spec_tally_part(
                    Seq::empty(),
                    subsets,
                    is_crib,
                    part_of_kind(CombinationKind::Run),
                )[i]).kind == CombinationKind::Run
                &&& spec_tally_part(
                    Seq::empty(),
                    subsets,
                    is_crib,
                    part_of_kind(CombinationKind::Run),
                )[i].points == spec_best_run(subsets)
            },
        spec_tally_part(Seq::empty(), subsets, is_crib, part_of_kind(CombinationKind::Run)).len()
            == spec_runs_worth(subsets, spec_best_run(subsets)),
        spec_total(
            spec_tally_part(Seq::empty(), subsets, is_crib, part_of_kind(CombinationKind::Run)),
        ) == spec_runs(subsets),
    decreases subsets.len(),
{
    let none = Seq::<CombinationView>::empty();
    let part = part_of_kind(CombinationKind::Run);
    let now = spec_tally_part(none, subsets, is_crib, part);
    assert(spec_total(none) == 0);
    if subsets.len() == 0 {
        assert(spec_best_run(subsets) * 0 == 0);
    } else {
        let before = subsets.drop_last();
        lemma_tally_runs(before, is_crib);
        let held = spec_tally_part(none, before, is_crib, part);
        let best = spec_best_run(before);
        lemma_score_by_parts(subsets.last(), is_crib, Rank::Ace);
        let found = spec_part(spec_score(subsets.last(), is_crib), part);
        lemma_tally_one(held, found);
        if found.len() == 1 {
            let run = found[0];
            assert(run.points == spec_run_points(subsets.last()));
            assert(run.points >= 3);
            if best >= run.points {
                assert forall|i: int| 0 <= i < held.len() implies spec_stays(
                    #[trigger] held[i],
                    run,
                ) by {}
                lemma_kept_all(held, run);
                if best > run.points {
                    assert(held.len() > 0) by {
                        if held.len() == 0 {
                            lemma_runs_nonempty(before);
                        }
                    }
                    assert(spec_absorbs(held[0], run));
                    assert(now == held);
                } else {
                    assert(!spec_absorbed(held, run));
                    assert(now == held.push(run));
                }
            } else {
                assert forall|i: int| 0 <= i < held.len() implies !spec_stays(
                    #[trigger] held[i],
                    run,
                ) by {}
                lemma_kept_none(held, run);
                assert(!spec_absorbed(held, run));
                assert(now =~= seq![run]);
                lemma_runs_worth_more(before, run.points);
            }
        }
        lemma_total_of_equals(now, spec_best_run(subsets));
    }
}

/// Where a run among the subsets scores, some run scores the best.
pub proof fn lemma_runs_nonempty(subsets: Seq<Seq<Card>>)
    ensures
        spec_best_run(subsets) > 0 ==> spec_runs_worth(subsets, spec_best_run(subsets)) > 0,
    decreases subsets.len(),
{
    if subsets.len() > 0 {
        let before = subsets.drop_last();
        lemma_runs_nonempty(before);
        if spec_run_points(subsets.last()) > spec_best_run(before) {
            lemma_runs_worth_more(before, spec_run_points(subsets.last()));
        }
    }
}

/// His nobs scores one where the hand holds a Jack of the starter's suit,
/// and is a combination of its own kind.
pub proof fn lemma_nob_points(hand: Seq<Card>, starter: Card)
    ensures
        spec_total(spec_nob(hand, starter)) == spec_nob_points(hand, Some(starter)),
        forall|i: int|
            0 <= i < spec_nob(hand, starter).len() ==> (#[trigger] spec_nob(hand, starter)[i]).kind
                == CombinationKind::Nob,
    decreases hand.len(),
{
    let none = Seq::<CombinationView>::empty();
    assert(spec_total(none) == 0);
    if hand.len() > 0 {
        let rest = hand.drop_first();
        lemma_nob_points(rest, starter);
        if hand[0].rank == Rank::Jack && hand[0].suit == starter.suit {
            let nob = spec_nob(hand, starter);
            assert(nob.drop_last() =~= none);
            assert(spec_total(nob) == 1);
        } else {
            if spec_nob_points(rest, Some(starter)) == 1 {
                let i = choose|i: int|
                    0 <= i < rest.len() && (#[trigger] rest[i]).rank == Rank::Jack && rest[i].suit
                        == starter.suit;
                assert(hand[i + 1].rank == Rank::Jack && hand[i + 1].suit == starter.suit);
            }
            if spec_nob_points(hand, Some(starter)) == 1 {
                let i = choose|i: int|
                    0 <= i < hand.len() && (#[trigger] hand[i]).rank == Rank::Jack && hand[i].suit
                        == starter.suit;
                assert(rest[i - 1].rank == Rank::Jack && rest[i - 1].suit == starter.suit);
            }
        }
    }
}

/// The parts of a score that holds his nobs and nothing else.
pub proof fn lemma_parts_of_nob(nob: Seq<CombinationView>, rank: Rank)
    requires
        forall|i: int| 0 <= i < nob.len() ==> (#[trigger] nob[i]).kind == CombinationKind::Nob,
    ensures
        spec_part(nob, part_of_kind(CombinationKind::Nob)) == nob,
        spec_part(nob, part_of_kind(CombinationKind::Fifteen)).len() == 0,
        spec_part(nob, part_of_kind(CombinationKind::Run)).len() == 0,
        spec_part(nob, part_of_kind(CombinationKind::SuitMatch)).len() == 0,
        spec_part(nob, part_of_kind(CombinationKind::ThirtyOne)).len() == 0,
        spec_part(nob, part_of_rank(rank)).len() == 0,
{
    let own = part_of_kind(CombinationKind::Nob);
    assert forall|i: int| 0 <= i < nob.len() implies own(#[trigger] nob[i]) by {}
    lemma_part_all(nob, own);
    let fifteens = part_of_kind(CombinationKind::Fifteen);
    assert forall|i: int| 0 <= i < nob.len() implies !fifteens(#[trigger] nob[i]) by {}
    lemma_part_none(nob, fifteens);
    let runs = part_of_kind(CombinationKind::Run);
    assert forall|i: int| 0 <= i < nob.len() implies !runs(#[trigger] nob[i]) by {}
    lemma_part_none(nob, runs);
    let flushes = part_of_kind(CombinationKind::SuitMatch);
    assert forall|i: int| 0 <= i < nob.len() implies !flushes(#[trigger] nob[i]) by {}
    lemma_part_none(nob, flushes);
    let counts = part_of_kind(CombinationKind::ThirtyOne);
    assert forall|i: int| 0 <= i < nob.len() implies !counts(#[trigger] nob[i]) by {}
    lemma_part_none(nob, counts);
    let ranks = part_of_rank(rank);
    assert forall|i: int| 0 <= i < nob.len() implies !ranks(#[trigger] nob[i]) by {}
    lemma_part_none(nob, ranks);
}

/// What the part of the rank matches of one rank comes to in the score of
/// the subsets, tallied onto his nobs.
pub proof fn lemma_rank_part_total(
    nob: Seq<CombinationView>,
    subsets: Seq<Seq<Card>>,
    is_crib: bool,
    rank: Rank,
)
    requires
        forall|i: int| 0 <= i < nob.len() ==> (#[trigger] nob[i]).kind == CombinationKind::Nob,
    ensures
        spec_part_total(spec_tally_all(nob, subsets, is_crib), part_of_rank(rank))
            == spec_best_rank_match(subsets, rank),
{
    let part = part_of_rank(rank);
    assert(spec_is_part(part));
    lemma_part_tally_all(nob, subsets, is_crib, part);
    lemma_parts_of_nob(nob, rank);
    assert(spec_part(nob, part) =~= Seq::<CombinationView>::empty());
    lemma_tally_rank(subsets, is_crib, rank);
}

/// The total of the score of the subsets, tallied onto his nobs: the points
/// of his nobs, two for each fifteen, the best rank match of each rank, the
/// longest runs and the best flush.
pub proof fn lemma_total_of_subsets(nob: Seq<CombinationView>, subsets: Seq<Seq<Card>>, is_crib: bool)
    requires
        forall|i: int| 0 <= i < nob.len() ==> (#[trigger] nob[i]).kind == CombinationKind::Nob,
    ensures
        spec_total(spec_tally_all(nob, subsets, is_crib)) == spec_total(nob) + 2 * spec_fifteens(
            subsets,
        ) + spec_rank_matches(subsets) + spec_runs(subsets) + spec_best_flush(subsets, is_crib),
{
    let none = Seq::<CombinationView>::empty();
    let score = spec_tally_all(nob, subsets, is_crib);
    lemma_total_by_parts(score);
    lemma_parts_of_nob(nob, Rank::Ace);

    // his nobs and the thirty-ones: nothing arrives
    let nobs = part_of_kind(CombinationKind::Nob);
    let counts = part_of_kind(CombinationKind::ThirtyOne);
    assert(spec_is_part(nobs) && spec_is_part(counts));
    assert forall|k: int| 0 <= k < subsets.len() implies spec_part(
        spec_score(#[trigger] subsets[k], is_crib),
        nobs,
    ).len() == 0 && spec_part(spec_score(subsets[k], is_crib), counts).len() == 0 by {
        lemma_score_by_parts(subsets[k], is_crib, Rank::Ace);
    }
    lemma_part_tally_all(nob, subsets, is_crib, nobs);
    lemma_tally_nothing(nob, subsets, is_crib, nobs);
    lemma_part_tally_all(nob, subsets, is_crib, counts);
    assert(spec_part(nob, counts) =~= none);
    lemma_tally_nothing(none, subsets, is_crib, counts);
    assert(spec_total(none) == 0);

    // fifteens
    let fifteens = part_of_kind(CombinationKind::Fifteen);
    assert(spec_is_part(fifteens));
    lemma_part_tally_all(nob, subsets, is_crib, fifteens);
    assert(spec_part(nob, fifteens) =~= none);
    lemma_tally_fifteens(subsets, is_crib);

    // runs
    let runs = part_of_kind(CombinationKind::Run);
    assert(spec_is_part(runs));
    lemma_part_tally_all(nob, subsets, is_crib, runs);
    assert(spec_part(nob, runs) =~= none);
    lemma_tally_runs(subsets, is_crib);

    // flushes
    let flushes = part_of_kind(CombinationKind::SuitMatch);
    assert(spec_is_part(flushes));
    lemma_part_tally_all(nob, subsets, is_crib, flushes);
    assert(spec_part(nob, flushes) =~= none);
    lemma_tally_part_is_flush(none, subsets, is_crib);
    lemma_tally_flush(subsets, is_crib);

    // rank matches, rank by rank
    lemma_rank_part_total(nob, subsets, is_crib, Rank::Ace);
    lemma_rank_part_total(nob, subsets, is_crib, Rank::Two);
    lemma_rank_part_total(nob, subsets, is_crib, Rank::Three);
    lemma_rank_part_total(nob, subsets, is_crib, Rank::Four);
    lemma_rank_part_total(nob, subsets, is_crib, Rank::Five);
    lemma_rank_part_total(nob, subsets, is_crib, Rank::Six);
    lemma_rank_part_total(nob, subsets, is_crib, Rank::Seven);
    lemma_rank_part_total(nob, subsets, is_crib, Rank::Eight);
    lemma_rank_part_total(nob, subsets, is_crib, Rank::Nine);
    lemma_rank_part_total(nob, subsets, is_crib, Rank::Ten);
    lemma_rank_part_total(nob, subsets, is_crib, Rank::Jack);
    lemma_rank_part_total(nob, subsets, is_crib, Rank::Queen);
    lemma_rank_part_total(nob, subsets, is_crib, Rank::King);
    lemma_rank_part_total(nob, subsets, is_crib, Rank::Unknown);
}

/// The total score of a hand is what the hand comes to, whatever the order
/// in which its combinations are found.
pub proof fn lemma_total_of_hand(hand: Seq<Card>, starter: Option<Card>, is_crib: bool)
    ensures
        spec_total(spec_score_hand(hand, starter, is_crib)) == spec_hand_total(
            hand,
            starter,
            is_crib,
        ),
{
    let cards = spec_working_set(hand, starter);
    let subsets = spec_combinations(cards, 2, cards.len());
    let none = Seq::<CombinationView>::empty();
    assert(spec_total(none) == 0);
    match starter {
        Some(card) => {
            lemma_nob_points(hand, card);
            lemma_total_of_subsets(spec_nob(hand, card), subsets, is_crib);
        },
        None => {
            lemma_total_of_subsets(none, subsets, is_crib);
        },
    }
}

} // verus!
