//! Fifteens, rank matches and runs go by the ranks of the cards alone: two
//! hands with the same ranks, card by card, score the same in these.

use crate::cards::Card;
use crate::combinator::{spec_combinations_upto, spec_pick};
use crate::score_parts::{spec_score_plain, spec_tally_plain};
use crate::scoring::{
    spec_absorbed, spec_absorbs, spec_kept, spec_stays, spec_tally, spec_total,
    CombinationView,
};
use crate::sorting::spec_count;
use vstd::prelude::*;

verus! {

/// Whether two combinations are of one kind, score the same and, as rank
/// matches, are of one rank: nothing else of a combination matters to a
/// tally.
pub open spec fn spec_alike(a: CombinationView, b: CombinationView) -> bool {
    a.kind == b.kind && a.points == b.points && a.rank_info == b.rank_info
}

/// Whether two lists of combinations are alike, one by one.
pub open spec fn spec_all_alike(a: Seq<CombinationView>, b: Seq<CombinationView>) -> bool {
    a.len() == b.len() && forall|i: int| 0 <= i < a.len() ==> spec_alike(#[trigger] a[i], b[i])
}

/// Whether two lists of cards have the same ranks, card by card.
pub open spec fn spec_same_ranks(a: Seq<Card>, b: Seq<Card>) -> bool {
    a.len() == b.len() && forall|i: int| 0 <= i < a.len() ==> (#[trigger] a[i]).rank == b[i].rank
}

/// Of lists that are alike the same combinations stay, and an arriving
/// combination is redundant in both or in neither.
pub proof fn lemma_alike_kept(
    a: Seq<CombinationView>,
    b: Seq<CombinationView>,
    c: CombinationView,
    d: CombinationView,
)
    requires
        spec_all_alike(a, b),
        spec_alike(c, d),
    ensures
        spec_all_alike(spec_kept(a, c), spec_kept(b, d)),
        spec_absorbed(a, c) == spec_absorbed(b, d),
    decreases a.len(),
{
    if a.len() > 0 {
        let a0 = a.drop_last();
        let b0 = b.drop_last();
        assert forall|i: int| 0 <= i < a0.len() implies spec_alike(#[trigger] a0[i], b0[i]) by {
            assert(spec_alike(a[i], b[i]));
        }
        lemma_alike_kept(a0, b0, c, d);
        assert(spec_alike(a[a.len() - 1], b[a.len() - 1]));
        assert(spec_stays(a.last(), c) == spec_stays(b.last(), d));
    }
    if spec_absorbed(a, c) {
        let i = choose|i: int| 0 <= i < a.len() && spec_absorbs(#[trigger] a[i], c);
        assert(spec_alike(a[i], b[i]));
        assert(spec_absorbs(b[i], d));
    }
    if spec_absorbed(b, d) {
        let i = choose|i: int| 0 <= i < b.len() && spec_absorbs(#[trigger] b[i], d);
        assert(spec_alike(a[i], b[i]));
        assert(spec_absorbs(a[i], c));
    }
}

/// Scores that are alike stay alike when combinations that are alike arrive.
pub proof fn lemma_alike_tally(
    a: Seq<CombinationView>,
    b: Seq<CombinationView>,
    c: Seq<CombinationView>,
    d: Seq<CombinationView>,
)
    requires
        spec_all_alike(a, b),
        spec_all_alike(c, d),
    ensures
        spec_all_alike(spec_tally(a, c), spec_tally(b, d)),
    decreases c.len(),
{
    if c.len() > 0 {
        let c0 = c.drop_last();
        let d0 = d.drop_last();
        assert forall|i: int| 0 <= i < c0.len() implies spec_alike(#[trigger] c0[i], d0[i]) by {
            assert(spec_alike(c[i], d[i]));
        }
        lemma_alike_tally(a, b, c0, d0);
        assert(spec_alike(c[c.len() - 1], d[c.len() - 1]));
        lemma_alike_kept(spec_tally(a, c0), spec_tally(b, d0), c.last(), d.last());
    }
}

/// Scores that are alike have the same total.
pub proof fn lemma_alike_total(a: Seq<CombinationView>, b: Seq<CombinationView>)
    requires
        spec_all_alike(a, b),
    ensures
        spec_total(a) == spec_total(b),
    decreases a.len(),
{
    if a.len() > 0 {
        let a0 = a.drop_last();
        let b0 = b.drop_last();
        assert forall|i: int| 0 <= i < a0.len() implies spec_alike(#[trigger] a0[i], b0[i]) by {
            assert(spec_alike(a[i], b[i]));
        }
        lemma_alike_total(a0, b0);
        assert(spec_alike(a[a.len() - 1], b[a.len() - 1]));
    }
}

/// Cards of the same ranks count the same.
pub proof fn lemma_count_same_ranks(a: Seq<Card>, b: Seq<Card>)
    requires
        spec_same_ranks(a, b),
    ensures
        spec_count(a) == spec_count(b),
    decreases a.len(),
{
    if a.len() > 0 {
        let a0 = a.drop_last();
        let b0 = b.drop_last();
        assert forall|i: int| 0 <= i < a0.len() implies (#[trigger] a0[i]).rank == b0[i].rank by {
            assert(a[i].rank == b[i].rank);
        }
        lemma_count_same_ranks(a0, b0);
        assert(a[a.len() - 1].rank == b[a.len() - 1].rank);
    }
}

/// Cards of the same ranks make fifteens, rank matches and runs that are
/// alike.
pub proof fn lemma_alike_score_plain(a: Seq<Card>, b: Seq<Card>)
    requires
        spec_same_ranks(a, b),
    ensures
        spec_all_alike(spec_score_plain(a), spec_score_plain(b)),
{
    lemma_count_same_ranks(a, b);
    let rank_match = crate::scoring::spec_is_rank_match(a);
    let run = crate::scoring::spec_is_run(a);
    assert(rank_match == crate::scoring::spec_is_rank_match(b)) by {
        if a.len() >= 2 {
            assert(a[0].rank == b[0].rank);
            if crate::scoring::spec_is_rank_match(a) {
                assert forall|i: int| 0 <= i < b.len() implies (#[trigger] b[i]).rank
                    == b[0].rank by {
                    assert(a[i].rank == b[i].rank);
                }
            }
            if crate::scoring::spec_is_rank_match(b) {
                assert forall|i: int| 0 <= i < a.len() implies (#[trigger] a[i]).rank
                    == a[0].rank by {
                    assert(a[i].rank == b[i].rank);
                    assert(b[i].rank == b[0].rank);
                }
            }
        }
    }
    assert(run == crate::scoring::spec_is_run(b)) by {
        if a.len() >= 3 {
            assert(a[0].rank == b[0].rank);
            if crate::scoring::spec_is_run(a) {
                assert forall|i: int| 0 <= i < b.len() implies (#[trigger] b[i]).rank
                    != crate::cards::Rank::Unknown && b[i].rank.spec_ordinal()
                    == b[0].rank.spec_ordinal() + i by {
                    assert(a[i].rank == b[i].rank);
                }
            }
            if crate::scoring::spec_is_run(b) {
                assert forall|i: int| 0 <= i < a.len() implies (#[trigger] a[i]).rank
                    != crate::cards::Rank::Unknown && a[i].rank.spec_ordinal()
                    == a[0].rank.spec_ordinal() + i by {
                    assert(a[i].rank == b[i].rank);
                    assert(b[i].rank.spec_ordinal() == b[0].rank.spec_ordinal() + i);
                }
            }
        }
    }
    if a.len() > 0 {
        assert(a[0].rank == b[0].rank);
    }
    let pa = spec_score_plain(a);
    let pb = spec_score_plain(b);
    assert(pa.len() == pb.len());
    assert forall|i: int| 0 <= i < pa.len() implies spec_alike(#[trigger] pa[i], pb[i]) by {}
}

/// A mask picks cards of the same ranks from lists of the same ranks.
pub proof fn lemma_pick_same_ranks(a: Seq<Card>, b: Seq<Card>, mask: nat)
    requires
        spec_same_ranks(a, b),
    ensures
        spec_same_ranks(spec_pick(a, mask), spec_pick(b, mask)),
    decreases a.len(),
{
    if a.len() > 0 {
        let a0 = a.drop_first();
        let b0 = b.drop_first();
        assert forall|i: int| 0 <= i < a0.len() implies (#[trigger] a0[i]).rank == b0[i].rank by {
            assert(a[i + 1].rank == b[i + 1].rank);
        }
        lemma_pick_same_ranks(a0, b0, mask / 2);
        assert(a[0].rank == b[0].rank);
        let pa = spec_pick(a, mask);
        let pb = spec_pick(b, mask);
        let pa0 = spec_pick(a0, mask / 2);
        let pb0 = spec_pick(b0, mask / 2);
        assert forall|i: int| 0 <= i < pa.len() implies (#[trigger] pa[i]).rank == pb[i].rank by {
            if mask % 2 == 1 {
                if i > 0 {
                    assert(pa[i] == pa0[i - 1]);
                    assert(pb[i] == pb0[i - 1]);
                    assert(pa0[i - 1].rank == pb0[i - 1].rank);
                }
            } else {
                assert(pa0[i].rank == pb0[i].rank);
            }
        }
    }
}

/// The combinations of two lists of the same ranks are as many, and have the
/// same ranks one by one.
pub proof fn lemma_combinations_same_ranks(
    a: Seq<Card>,
    b: Seq<Card>,
    min: nat,
    max: nat,
    last: nat,
)
    requires
        spec_same_ranks(a, b),
    ensures
        spec_combinations_upto(a, min, max, last).len() == spec_combinations_upto(
            b,
            min,
            max,
            last,
        ).len(),
        forall|k: int|
            0 <= k < spec_combinations_upto(a, min, max, last).len() ==> spec_same_ranks(
                #[trigger] spec_combinations_upto(a, min, max, last)[k],
                spec_combinations_upto(b, min, max, last)[k],
            ),
    decreases last,
{
    if last > 0 {
        lemma_combinations_same_ranks(a, b, min, max, (last - 1) as nat);
        lemma_pick_same_ranks(a, b, last);
    }
}

/// Scores that are alike stay alike when what subsets of the same ranks make
/// apart from flushes arrives.
pub proof fn lemma_alike_tally_plain(
    held1: Seq<CombinationView>,
    held2: Seq<CombinationView>,
    subsets1: Seq<Seq<Card>>,
    subsets2: Seq<Seq<Card>>,
)
    requires
        spec_all_alike(held1, held2),
        subsets1.len() == subsets2.len(),
        forall|k: int|
            0 <= k < subsets1.len() ==> spec_same_ranks(#[trigger] subsets1[k], subsets2[k]),
    ensures
        spec_all_alike(spec_tally_plain(held1, subsets1), spec_tally_plain(held2, subsets2)),
    decreases subsets1.len(),
{
    if subsets1.len() > 0 {
        let before1 = subsets1.drop_last();
        let before2 = subsets2.drop_last();
        assert forall|k: int| 0 <= k < before1.len() implies spec_same_ranks(
            #[trigger] before1[k],
            before2[k],
        ) by {
            assert(spec_same_ranks(subsets1[k], subsets2[k]));
        }
        lemma_alike_tally_plain(held1, held2, before1, before2);
        assert(spec_same_ranks(subsets1[subsets1.len() - 1], subsets2[subsets1.len() - 1]));
        lemma_alike_score_plain(subsets1.last(), subsets2.last());
        lemma_alike_tally(
            spec_tally_plain(held1, before1),
            spec_tally_plain(held2, before2),
            spec_score_plain(subsets1.last()),
            spec_score_plain(subsets2.last()),
        );
    }
}

} // verus!
