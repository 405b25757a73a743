//! What holds of a score when combinations arrive: which of them are in the
//! score afterwards, and that a rank match or a flush that arrives twice
//! counts once.

use crate::scoring::{
    spec_absorbed, spec_absorbs, spec_add, spec_kept, spec_stays, spec_tally, spec_total,
    CombinationKind, CombinationView,
};
use vstd::prelude::*;

verus! {

/// What stays of a score are the combinations that stay, and no others.
pub proof fn lemma_kept_members(held: Seq<CombinationView>, added: CombinationView)
    ensures
        forall|i: int|
            0 <= i < spec_kept(held, added).len() ==> spec_stays(
                #[trigger] spec_kept(held, added)[i],
                added,
            ) && held.contains(spec_kept(held, added)[i]),
        forall|j: int|
            0 <= j < held.len() && spec_stays(#[trigger] held[j], added) ==> spec_kept(
                held,
                added,
            ).contains(held[j]),
    decreases held.len(),
{
    if held.len() > 0 {
        let before = held.drop_last();
        let kept = spec_kept(held, added);
        let kept_before = spec_kept(before, added);
        lemma_kept_members(before, added);
        assert forall|i: int| 0 <= i < kept.len() implies spec_stays(#[trigger] kept[i], added)
            && held.contains(kept[i]) by {
            if i < kept_before.len() {
                assert(kept[i] == kept_before[i]);
                let j = choose|j: int| 0 <= j < before.len() && before[j] == kept_before[i];
                assert(held[j] == kept[i]);
            } else {
                assert(kept[i] == held[held.len() - 1]);
            }
        }
        assert forall|j: int| 0 <= j < held.len() && spec_stays(
            #[trigger] held[j],
            added,
        ) implies kept.contains(held[j]) by {
            if j < before.len() {
                assert(before[j] == held[j]);
                let i = choose|i: int| 0 <= i < kept_before.len() && kept_before[i] == before[j];
                assert(kept[i] == held[j]);
            } else {
                assert(kept[kept.len() - 1] == held[j]);
            }
        }
    }
}

/// A score whose combinations all stay is left as it is.
pub proof fn lemma_kept_all(held: Seq<CombinationView>, added: CombinationView)
    requires
        forall|i: int| 0 <= i < held.len() ==> spec_stays(#[trigger] held[i], added),
    ensures
        spec_kept(held, added) == held,
    decreases held.len(),
{
    if held.len() > 0 {
        let before = held.drop_last();
        assert forall|i: int| 0 <= i < before.len() implies spec_stays(
            #[trigger] before[i],
            added,
        ) by {
            assert(before[i] == held[i]);
        }
        lemma_kept_all(before, added);
        assert(spec_stays(held[held.len() - 1], added));
        assert(before.push(held.last()) =~= held);
    } else {
        assert(spec_kept(held, added) =~= held);
    }
}

/// A rank match or a flush that arrives a second time changes nothing: it is
/// made redundant by itself, or by what made it redundant the first time.
pub proof fn lemma_add_twice(held: Seq<CombinationView>, added: CombinationView)
    requires
        added.kind == CombinationKind::RankMatch || added.kind == CombinationKind::SuitMatch,
    ensures
        spec_add(spec_add(held, added), added) == spec_add(held, added),
{
    let kept = spec_kept(held, added);
    lemma_kept_members(held, added);
    lemma_kept_all(kept, added);
    if spec_absorbed(held, added) {
        let j = choose|j: int| 0 <= j < held.len() && spec_absorbs(#[trigger] held[j], added);
        assert(spec_stays(held[j], added));
        let i = choose|i: int| 0 <= i < kept.len() && kept[i] == held[j];
        assert(spec_absorbs(kept[i], added));
    } else {
        let once = kept.push(added);
        assert(once.drop_last() =~= kept);
        assert(once.last() == added);
        if added.kind == CombinationKind::RankMatch {
            assert(spec_stays(added, added));
            assert(spec_absorbs(once[once.len() - 1], added));
            assert(spec_kept(once, added) == once);
        } else {
            assert(!spec_stays(added, added));
            assert(spec_kept(once, added) == kept);
            if spec_absorbed(once, added) {
                let i = choose|i: int| 0 <= i < once.len() && spec_absorbs(#[trigger] once[i], added);
                assert(i < kept.len());
                assert(once[i] == kept[i]);
                let j = choose|j: int| 0 <= j < held.len() && held[j] == kept[i];
                assert(spec_absorbs(held[j], added));
            }
        }
    }
}

/// Tallying the same rank match or flush twice never counts its points
/// twice: the second tally leaves the combinations, and so the total, as the
/// first one made them.
pub proof fn lemma_tally_twice(held: Seq<CombinationView>, added: CombinationView)
    requires
        added.kind == CombinationKind::RankMatch || added.kind == CombinationKind::SuitMatch,
    ensures
        spec_tally(spec_tally(held, seq![added]), seq![added]) == spec_tally(held, seq![added]),
        spec_total(spec_tally(spec_tally(held, seq![added]), seq![added])) == spec_total(
            spec_tally(held, seq![added]),
        ),
{
    let one = seq![added];
    assert(one.drop_last() =~= Seq::<CombinationView>::empty());
    assert(one.last() == added);
    assert(spec_tally(held, one.drop_last()) == held);
    assert(spec_tally(held, one) == spec_add(held, added));
    let once = spec_add(held, added);
    assert(spec_tally(once, one.drop_last()) == once);
    assert(spec_tally(once, one) == spec_add(once, added));
    lemma_add_twice(held, added);
}

} // verus!
