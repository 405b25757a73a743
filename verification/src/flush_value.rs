//! What the flushes of a hand of five come to: five points where all five
//! cards are of one suit, four where four of them are and the hand is no
//! crib, and nothing else. This is said here by how many cards are not of a
//! suit, which no reordering of the hand changes.

use crate::cards::{Card, Suit};
use crate::combinator::{
    lemma_combinations, lemma_pick_full, lemma_pick_len, lemma_pick_len_bound, spec_combinations,
    spec_combinations_upto, spec_ones, spec_pick,
};
use crate::score_parts::{spec_score_flush, spec_tally_flush};
use crate::scoring::{
    spec_absorbed, spec_is_flush, spec_kept, spec_tally, spec_total, CombinationKind,
    CombinationView,
};
use crate::sorting::lemma_same_cards_contains;
use vstd::arithmetic::power2::{lemma_pow2_unfold, pow2};
use vstd::prelude::*;
use vstd::seq_lib::to_multiset_remove;

verus! {

/// How many of `cards` are not of the suit `suit`.
pub open spec fn spec_others(cards: Seq<Card>, suit: Suit) -> nat
    decreases cards.len(),
{
    if cards.len() == 0 {
        0
    } else if cards[0].suit != suit {
        1 + spec_others(cards.drop_first(), suit)
    } else {
        spec_others(cards.drop_first(), suit)
    }
}

/// What the flushes of a hand of five cards come to.
pub open spec fn spec_flush_value(cards: Seq<Card>, is_crib: bool) -> nat {
    if exists|suit: Suit| spec_others(cards, suit) == 0 {
        5
    } else if !is_crib && exists|suit: Suit| spec_others(cards, suit) <= 1 {
        4
    } else {
        0
    }
}

/// What the flush of `cards` scores, if they are one.
pub open spec fn spec_flush_points(cards: Seq<Card>, is_crib: bool) -> nat {
    if !spec_is_flush(cards, is_crib) {
        0
    } else if cards.len() == 4 {
        4
    } else {
        5
    }
}

/// The most that a flush among `subsets` scores.
pub open spec fn spec_best_flush(subsets: Seq<Seq<Card>>, is_crib: bool) -> nat
    decreases subsets.len(),
{
    if subsets.len() == 0 {
        0
    } else if spec_flush_points(subsets.last(), is_crib) > spec_best_flush(
        subsets.drop_last(),
        is_crib,
    ) {
        spec_flush_points(subsets.last(), is_crib)
    } else {
        spec_best_flush(subsets.drop_last(), is_crib)
    }
}

/// Not more cards are off a suit than there are cards.
pub proof fn lemma_others_bound(cards: Seq<Card>, suit: Suit)
    ensures
        spec_others(cards, suit) <= cards.len(),
    decreases cards.len(),
{
    if cards.len() > 0 {
        lemma_others_bound(cards.drop_first(), suit);
    }
}

/// No card is off a suit just when all cards are of it; all are off it just
/// when none is of it.
pub proof fn lemma_others_all(cards: Seq<Card>, suit: Suit)
    ensures
        spec_others(cards, suit) == 0 <==> forall|i: int|
            0 <= i < cards.len() ==> (#[trigger] cards[i]).suit == suit,
        spec_others(cards, suit) == cards.len() <==> forall|i: int|
            0 <= i < cards.len() ==> (#[trigger] cards[i]).suit != suit,
    decreases cards.len(),
{
    if cards.len() > 0 {
        let rest = cards.drop_first();
        lemma_others_all(rest, suit);
        lemma_others_bound(rest, suit);
        if forall|i: int| 0 <= i < cards.len() ==> (#[trigger] cards[i]).suit == suit {
            assert forall|i: int| 0 <= i < rest.len() implies (#[trigger] rest[i]).suit == suit by {
                assert(cards[i + 1].suit == suit);
            }
            assert(cards[0].suit == suit);
        }
        if forall|i: int| 0 <= i < cards.len() ==> (#[trigger] cards[i]).suit != suit {
            assert forall|i: int| 0 <= i < rest.len() implies (#[trigger] rest[i]).suit != suit by {
                assert(cards[i + 1].suit != suit);
            }
            assert(cards[0].suit != suit);
        }
        if spec_others(cards, suit) == 0 {
            assert forall|i: int| 0 <= i < cards.len() implies (#[trigger] cards[i]).suit
                == suit by {
                if i > 0 {
                    assert(rest[i - 1].suit == suit);
                }
            }
        }
        if spec_others(cards, suit) == cards.len() {
            assert forall|i: int| 0 <= i < cards.len() implies (#[trigger] cards[i]).suit
                != suit by {
                if i > 0 {
                    assert(rest[i - 1].suit != suit);
                }
            }
        }
    }
}

/// Taking a card out of a list takes it out of the cards off a suit, if it
/// is one of them.
pub proof fn lemma_others_remove(cards: Seq<Card>, suit: Suit, i: int)
    requires
        0 <= i < cards.len(),
    ensures
        spec_others(cards, suit) == spec_others(cards.remove(i), suit) + if cards[i].suit
            != suit {
            1nat
        } else {
            0nat
        },
    decreases cards.len(),
{
    if i == 0 {
        assert(cards.remove(0) =~= cards.drop_first());
    } else {
        lemma_others_remove(cards.drop_first(), suit, i - 1);
        assert(cards.remove(i).drop_first() =~= cards.drop_first().remove(i - 1));
        assert(cards.remove(i)[0] == cards[0]);
    }
}

/// Two lists that hold the same cards have as many cards off a suit.
pub proof fn lemma_others_same_cards(a: Seq<Card>, b: Seq<Card>, suit: Suit)
    requires
        a.to_multiset() == b.to_multiset(),
    ensures
        spec_others(a, suit) == spec_others(b, suit),
    decreases a.len(),
{
    vstd::seq_lib::to_multiset_len(a);
    vstd::seq_lib::to_multiset_len(b);
    if a.len() > 0 {
        let x = a[0];
        assert(a.contains(x));
        lemma_same_cards_contains(a, b, x);
        let j = choose|j: int| 0 <= j < b.len() && b[j] == x;
        to_multiset_remove(a, 0);
        to_multiset_remove(b, j);
        assert(a.remove(0) =~= a.drop_first());
        lemma_others_same_cards(a.drop_first(), b.remove(j), suit);
        lemma_others_remove(b, suit, j);
    }
}

/// What the flushes come to does not depend on the order of the cards.
pub proof fn lemma_flush_value_same_cards(a: Seq<Card>, b: Seq<Card>, is_crib: bool)
    requires
        a.to_multiset() == b.to_multiset(),
    ensures
        spec_flush_value(a, is_crib) == spec_flush_value(b, is_crib),
{
    assert forall|suit: Suit| spec_others(a, suit) == spec_others(b, suit) by {
        lemma_others_same_cards(a, b, suit);
    }
}

/// Of a list and a pick from it: the cards off a suit in the list are those
/// in the pick and, at most, the cards that were not picked.
pub proof fn lemma_others_pick(cards: Seq<Card>, mask: nat, suit: Suit)
    ensures
        spec_others(cards, suit) <= spec_others(spec_pick(cards, mask), suit) + cards.len()
            - spec_pick(cards, mask).len(),
    decreases cards.len(),
{
    if cards.len() > 0 {
        let rest = cards.drop_first();
        lemma_others_pick(rest, mask / 2, suit);
        lemma_pick_len_bound(rest, mask / 2);
        if mask % 2 == 1 {
            let picked = spec_pick(cards, mask);
            assert(picked[0] == cards[0]);
            assert(picked.drop_first() =~= spec_pick(rest, mask / 2));
        }
    }
}

/// The mask that picks the cards of the suit `suit`.
pub open spec fn spec_suit_mask(cards: Seq<Card>, suit: Suit) -> nat
    decreases cards.len(),
{
    if cards.len() == 0 {
        0
    } else if cards[0].suit == suit {
        1 + 2 * spec_suit_mask(cards.drop_first(), suit)
    } else {
        2 * spec_suit_mask(cards.drop_first(), suit)
    }
}

/// The mask of a suit picks the cards of the suit, all of them.
pub proof fn lemma_suit_mask(cards: Seq<Card>, suit: Suit)
    ensures
        spec_suit_mask(cards, suit) < pow2(cards.len()),
        spec_pick(cards, spec_suit_mask(cards, suit)).len() + spec_others(cards, suit)
            == cards.len(),
        forall|i: int|
            0 <= i < spec_pick(cards, spec_suit_mask(cards, suit)).len() ==> (#[trigger] spec_pick(
                cards,
                spec_suit_mask(cards, suit),
            )[i]).suit == suit,
    decreases cards.len(),
{
    if cards.len() == 0 {
        vstd::arithmetic::power2::lemma2_to64();
    } else {
        let rest = cards.drop_first();
        let mask = spec_suit_mask(cards, suit);
        let mask_rest = spec_suit_mask(rest, suit);
        lemma_suit_mask(rest, suit);
        lemma_pow2_unfold(cards.len());
        assert(mask / 2 == mask_rest);
        let picked = spec_pick(cards, mask);
        let picked_rest = spec_pick(rest, mask_rest);
        assert forall|i: int| 0 <= i < picked.len() implies (#[trigger] picked[i]).suit == suit by {
            if cards[0].suit == suit {
                assert(mask % 2 == 1);
                if i > 0 {
                    assert(picked[i] == picked_rest[i - 1]);
                }
            } else {
                assert(mask % 2 == 0);
                assert(picked[i] == picked_rest[i]);
            }
        }
    }
}

/// Every mask from 1 to `last` whose number of one bits is in range has its
/// pick among the combinations.
pub proof fn lemma_mask_is_there<T>(items: Seq<T>, min: nat, max: nat, last: nat, mask: nat)
    requires
        1 <= mask <= last,
        min <= spec_ones(mask) <= max,
    ensures
        spec_combinations_upto(items, min, max, last).contains(spec_pick(items, mask)),
    decreases last,
{
    let now = spec_combinations_upto(items, min, max, last);
    if mask == last {
        assert(now[now.len() - 1] == spec_pick(items, mask));
    } else {
        let before = spec_combinations_upto(items, min, max, (last - 1) as nat);
        lemma_mask_is_there(items, min, max, (last - 1) as nat, mask);
        let k = choose|k: int| 0 <= k < before.len() && before[k] == spec_pick(items, mask);
        assert(now[k] == spec_pick(items, mask));
    }
}

/// The best flush scores as much as any flush among the subsets, and is one
/// of them unless it is nothing.
pub proof fn lemma_best_flush(subsets: Seq<Seq<Card>>, is_crib: bool)
    ensures
        forall|k: int|
            0 <= k < subsets.len() ==> spec_flush_points(#[trigger] subsets[k], is_crib)
                <= spec_best_flush(subsets, is_crib),
        spec_best_flush(subsets, is_crib) == 0 || exists|k: int|
            0 <= k < subsets.len() && spec_flush_points(#[trigger] subsets[k], is_crib)
                == spec_best_flush(subsets, is_crib),
    decreases subsets.len(),
{
    if subsets.len() > 0 {
        let before = subsets.drop_last();
        lemma_best_flush(before, is_crib);
        let best = spec_best_flush(subsets, is_crib);
        assert forall|k: int| 0 <= k < subsets.len() implies spec_flush_points(
            #[trigger] subsets[k],
            is_crib,
        ) <= best by {
            if k < before.len() {
                assert(before[k] == subsets[k]);
            }
        }
        if best != 0 {
            if best == spec_flush_points(subsets.last(), is_crib) {
                assert(spec_flush_points(subsets[subsets.len() - 1], is_crib) == best);
            } else {
                let k = choose|k: int|
                    0 <= k < before.len() && spec_flush_points(#[trigger] before[k], is_crib)
                        == spec_best_flush(before, is_crib);
                assert(before[k] == subsets[k]);
            }
        }
    }
}

/// The flushes of the subsets, tallied among themselves, leave at most one
/// flush: the best.
pub proof fn lemma_tally_flush(subsets: Seq<Seq<Card>>, is_crib: bool)
    ensures
        spec_tally_flush(Seq::empty(), subsets, is_crib).len() <= 1,
        spec_total(spec_tally_flush(Seq::empty(), subsets, is_crib)) == spec_best_flush(
            subsets,
            is_crib,
        ),
        spec_tally_flush(Seq::empty(), subsets, is_crib).len() == 1 ==> {
            &&& spec_tally_flush(Seq::empty(), subsets, is_crib)[0].kind
                == CombinationKind::SuitMatch
            &&& spec_tally_flush(Seq::empty(), subsets, is_crib)[0].points == spec_best_flush(
                subsets,
                is_crib,
            )
        },
    decreases subsets.len(),
{
    let none = Seq::<CombinationView>::empty();
    assert(spec_total(none) == 0);
    if subsets.len() > 0 {
        let before = subsets.drop_last();
        lemma_tally_flush(before, is_crib);
        let held = spec_tally_flush(none, before, is_crib);
        let found = spec_score_flush(subsets.last(), is_crib);
        if found.len() == 0 {
            assert(spec_tally(held, found) == held);
        } else {
            let flush = found[0];
            assert(found.drop_last() =~= none);
            assert(found.last() == flush);
            assert(spec_tally(held, found.drop_last()) == held);
            assert(flush.points == spec_flush_points(subsets.last(), is_crib));
            if held.len() == 0 {
                assert(spec_kept(held, flush) =~= none);
                assert(!spec_absorbed(held, flush));
                let now = spec_tally(held, found);
                assert(now =~= seq![flush]);
                assert(now.drop_last() =~= none);
                assert(spec_total(now) == flush.points);
            } else {
                let one = held[0];
                assert(held.drop_last() =~= none);
                assert(held.last() == one);
                assert(spec_kept(held.drop_last(), flush) =~= none);
                assert(spec_total(held) == one.points);
                if one.points > flush.points {
                    assert(spec_kept(held, flush) =~= held);
                    assert(crate::scoring::spec_absorbs(held[0], flush));
                    assert(spec_tally(held, found) == held);
                } else {
                    assert(spec_kept(held, flush) =~= none);
                    assert(!spec_absorbed(held, flush));
                    let now = spec_tally(held, found);
                    assert(now =~= seq![flush]);
                    assert(now.drop_last() =~= none);
                    assert(spec_total(now) == flush.points);
                }
            }
        }
    }
}

/// The best flush among the subsets of two or more of five cards scores what
/// the flushes of the five cards come to.
pub proof fn lemma_best_flush_of_five(cards: Seq<Card>, is_crib: bool)
    requires
        cards.len() == 5,
    ensures
        spec_best_flush(spec_combinations(cards, 2, 5), is_crib) == spec_flush_value(
            cards,
            is_crib,
        ),
{
    let subsets = spec_combinations(cards, 2, 5);
    let best = spec_best_flush(subsets, is_crib);
    lemma_best_flush(subsets, is_crib);
    vstd::arithmetic::power2::lemma2_to64();
    assert(pow2(5) == 32);
    // every flush among the subsets bounds the cards off its suit
    assert forall|k: int|
        0 <= k < subsets.len() && spec_flush_points(
            #[trigger] subsets[k],
            is_crib,
        ) > 0 implies spec_others(cards, subsets[k][0].suit) <= 5 - subsets[k].len()
        && 4 <= subsets[k].len() <= 5 && !(subsets[k].len() == 4 && is_crib) by {
        lemma_combinations(cards, 2, 5, k);
        let subset = subsets[k];
        let m = choose|m: nat| #[trigger] spec_pick(cards, m) == subset;
        lemma_others_pick(cards, m, subset[0].suit);
        lemma_others_all(subset, subset[0].suit);
    }
    if exists|suit: Suit| spec_others(cards, suit) == 0 {
        let suit = choose|suit: Suit| spec_others(cards, suit) == 0;
        lemma_others_all(cards, suit);
        assert(cards[0].suit == suit);
        assert(spec_is_flush(cards, is_crib));
        reveal_with_fuel(spec_ones, 7);
        assert(spec_ones(31) == 5);
        lemma_pick_len(cards, 31);
        lemma_pick_full(cards, 31);
        lemma_mask_is_there(cards, 2, 5, 31, 31);
        let k = choose|k: int| 0 <= k < subsets.len() && subsets[k] == cards;
        assert(spec_flush_points(subsets[k], is_crib) == 5);
        if best != 5 {
            let j = choose|j: int|
                0 <= j < subsets.len() && spec_flush_points(#[trigger] subsets[j], is_crib)
                    == best;
        }
    } else {
        // no flush of five
        assert forall|k: int| 0 <= k < subsets.len() implies spec_flush_points(
            #[trigger] subsets[k],
            is_crib,
        ) <= 4 by {
            if spec_flush_points(subsets[k], is_crib) > 0 {
                assert(spec_others(cards, subsets[k][0].suit) <= 5 - subsets[k].len());
            }
        }
        if !is_crib && exists|suit: Suit| spec_others(cards, suit) <= 1 {
            let suit = choose|suit: Suit| spec_others(cards, suit) <= 1;
            assert(spec_others(cards, suit) == 1);
            lemma_suit_mask(cards, suit);
            let m = spec_suit_mask(cards, suit);
            let picked = spec_pick(cards, m);
            lemma_pick_len(cards, m);
            assert(picked.len() == 4);
            assert(m >= 1) by {
                if m == 0 {
                    assert(spec_ones(0) == 0);
                }
            }
            lemma_mask_is_there(cards, 2, 5, 31, m);
            let k = choose|k: int| 0 <= k < subsets.len() && subsets[k] == picked;
            assert(spec_is_flush(picked, is_crib)) by {
                assert forall|i: int| 0 <= i < picked.len() implies (#[trigger] picked[i]).suit
                    == picked[0].suit by {
                    assert(picked[i].suit == suit);
                    assert(picked[0].suit == suit);
                }
            }
            assert(spec_flush_points(subsets[k], is_crib) == 4);
            if best != 4 {
                let j = choose|j: int|
                    0 <= j < subsets.len() && spec_flush_points(#[trigger] subsets[j], is_crib)
                        == best;
            }
        } else {
            if best != 0 {
                let j = choose|j: int|
                    0 <= j < subsets.len() && spec_flush_points(#[trigger] subsets[j], is_crib)
                        == best;
                assert(spec_others(cards, subsets[j][0].suit) <= 5 - subsets[j].len());
            }
        }
    }
}

} // verus!
