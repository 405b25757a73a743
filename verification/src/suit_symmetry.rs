//! The score of a hand does not depend on what the suits are called: two
//! hands with the same ranks, card by card, whose cards share suits in the
//! same places, score the same total.

use crate::cards::{Card, Suit};
use crate::combinator::spec_combinations;
use crate::flush_value::{
    lemma_best_flush_of_five, lemma_flush_value_same_cards, lemma_others_all, lemma_tally_flush,
    spec_flush_value, spec_others,
};
use crate::rank_pattern::{
    lemma_alike_tally_plain, lemma_alike_total, lemma_combinations_same_ranks, spec_all_alike,
    spec_same_ranks,
};
use crate::score_parts::{
    lemma_flushes_apart, lemma_part_all, lemma_part_none, part_of_kind, part_without_flushes,
    spec_tally_plain,
};
use crate::scoring::{spec_nob, spec_score_hand, spec_tally_all, spec_total, CombinationKind};
use crate::sorting::{card_order, lemma_same_cards_contains, lemma_sort_ensures, spec_sort};
use vstd::prelude::*;
use vstd::relations::{sorted_by, total_ordering};
use vstd::seq_lib::{
    lemma_sorted_unique, to_multiset_build, to_multiset_insert, to_multiset_remove,
};

verus! {

/// Whether two lists of cards have the same shape: the same ranks, card by
/// card, and the same suit in two places of the one just where the other has
/// the same suit in these two places.
pub open spec fn spec_same_shape(a: Seq<Card>, b: Seq<Card>) -> bool {
    &&& spec_same_ranks(a, b)
    &&& forall|i: int, j: int|
        0 <= i < a.len() && 0 <= j < a.len() ==> ((#[trigger] a[i]).suit == (#[trigger] a[j]).suit
            <==> b[i].suit == b[j].suit)
}

/// The ranks of cards as numbers, card by card.
pub open spec fn spec_ranks(cards: Seq<Card>) -> Seq<int> {
    Seq::new(cards.len(), |i: int| cards[i].rank.spec_ordinal())
}

/// The order of numbers, as a relation.
pub open spec fn number_order() -> spec_fn(int, int) -> bool {
    |a: int, b: int| a <= b
}

/// Two lists that hold the same cards hold the same ranks, each as often.
pub proof fn lemma_ranks_same_cards(a: Seq<Card>, b: Seq<Card>)
    requires
        a.to_multiset() == b.to_multiset(),
    ensures
        spec_ranks(a).to_multiset() == spec_ranks(b).to_multiset(),
    decreases a.len(),
{
    vstd::seq_lib::to_multiset_len(a);
    vstd::seq_lib::to_multiset_len(b);
    if a.len() == 0 {
        assert(spec_ranks(a) =~= spec_ranks(b));
    } else {
        let x = a.last();
        assert(a.contains(x));
        lemma_same_cards_contains(a, b, x);
        let j = choose|j: int| 0 <= j < b.len() && b[j] == x;
        let a0 = a.drop_last();
        let b0 = b.remove(j);
        to_multiset_remove(a, a.len() - 1);
        to_multiset_remove(b, j);
        assert(a.remove(a.len() - 1) =~= a0);
        lemma_ranks_same_cards(a0, b0);
        let r = x.rank.spec_ordinal();
        assert(spec_ranks(a) =~= spec_ranks(a0).push(r));
        assert(spec_ranks(b) =~= spec_ranks(b0).insert(j, r));
        to_multiset_build(spec_ranks(a0), r);
        to_multiset_insert(spec_ranks(b0), j, r);
    }
}

/// Two hands with the same ranks have the same ranks when they are sorted.
pub proof fn lemma_sorted_same_ranks(a: Seq<Card>, b: Seq<Card>)
    requires
        spec_same_ranks(a, b),
    ensures
        spec_same_ranks(spec_sort(a), spec_sort(b)),
{
    let sa = spec_sort(a);
    let sb = spec_sort(b);
    lemma_sort_ensures(a);
    lemma_sort_ensures(b);
    lemma_ranks_same_cards(sa, a);
    lemma_ranks_same_cards(sb, b);
    assert(spec_ranks(a) =~= spec_ranks(b)) by {
        assert forall|i: int| 0 <= i < a.len() implies spec_ranks(a)[i] == spec_ranks(b)[i] by {
            assert(a[i].rank == b[i].rank);
        }
    }
    let order = number_order();
    assert(total_ordering(order));
    assert(sorted_by(spec_ranks(sa), order)) by {
        assert forall|i: int, j: int| 0 <= i < j < spec_ranks(sa).len() implies #[trigger] order(
            spec_ranks(sa)[i],
            spec_ranks(sa)[j],
        ) by {
            assert(card_order()(sa[i], sa[j]));
        }
    }
    assert(sorted_by(spec_ranks(sb), order)) by {
        assert forall|i: int, j: int| 0 <= i < j < spec_ranks(sb).len() implies #[trigger] order(
            spec_ranks(sb)[i],
            spec_ranks(sb)[j],
        ) by {
            assert(card_order()(sb[i], sb[j]));
        }
    }
    lemma_sorted_unique(spec_ranks(sa), spec_ranks(sb), order);
    assert forall|i: int| 0 <= i < sa.len() implies (#[trigger] sa[i]).rank == sb[i].rank by {
        assert(spec_ranks(sa)[i] == spec_ranks(sb)[i]);
    }
}

/// In two hands of the same shape as many cards are off the suit of the
/// card in one place.
pub proof fn lemma_others_same_shape(a: Seq<Card>, b: Seq<Card>, from: int, place: int)
    requires
        spec_same_shape(a, b),
        0 <= place < a.len(),
        0 <= from <= a.len(),
    ensures
        spec_others(a.subrange(from, a.len() as int), a[place].suit) == spec_others(
            b.subrange(from, b.len() as int),
            b[place].suit,
        ),
    decreases a.len() - from,
{
    let ta = a.subrange(from, a.len() as int);
    let tb = b.subrange(from, b.len() as int);
    if from < a.len() {
        lemma_others_same_shape(a, b, from + 1, place);
        assert(ta.drop_first() =~= a.subrange(from + 1, a.len() as int));
        assert(tb.drop_first() =~= b.subrange(from + 1, b.len() as int));
        assert(ta[0] == a[from] && tb[0] == b[from]);
        assert(a[from].suit == a[place].suit <==> b[from].suit == b[place].suit);
    }
}

/// Where all but a few cards of a hand are of one suit, the same holds of a
/// hand of the same shape.
pub proof fn lemma_nearly_one_suit_same_shape(a: Seq<Card>, b: Seq<Card>, most: nat)
    requires
        spec_same_shape(a, b),
        most < a.len(),
        exists|suit: Suit| spec_others(a, suit) <= most,
    ensures
        exists|suit: Suit| spec_others(b, suit) <= most,
{
    let suit = choose|suit: Suit| spec_others(a, suit) <= most;
    lemma_others_all(a, suit);
    let place = choose|place: int| 0 <= place < a.len() && a[place].suit == suit;
    lemma_others_same_shape(a, b, 0, place);
    assert(a.subrange(0, a.len() as int) =~= a);
    assert(b.subrange(0, b.len() as int) =~= b);
    assert(spec_others(b, b[place].suit) <= most);
}

/// The flushes of two hands of five of the same shape come to the same.
pub proof fn lemma_flush_value_same_shape(a: Seq<Card>, b: Seq<Card>, is_crib: bool)
    requires
        spec_same_shape(a, b),
        a.len() == 5,
    ensures
        spec_flush_value(a, is_crib) == spec_flush_value(b, is_crib),
{
    assert(spec_same_shape(b, a));
    if exists|suit: Suit| spec_others(a, suit) == 0 {
        let suit = choose|suit: Suit| spec_others(a, suit) == 0;
        assert(spec_others(a, suit) <= 0);
        lemma_nearly_one_suit_same_shape(a, b, 0);
        let other = choose|other: Suit| spec_others(b, other) <= 0;
        assert(spec_others(b, other) == 0);
    }
    if exists|suit: Suit| spec_others(b, suit) == 0 {
        let suit = choose|suit: Suit| spec_others(b, suit) == 0;
        assert(spec_others(b, suit) <= 0);
        lemma_nearly_one_suit_same_shape(b, a, 0);
        let other = choose|other: Suit| spec_others(a, other) <= 0;
        assert(spec_others(a, other) == 0);
    }
    if exists|suit: Suit| spec_others(a, suit) <= 1 {
        lemma_nearly_one_suit_same_shape(a, b, 1);
    }
    if exists|suit: Suit| spec_others(b, suit) <= 1 {
        lemma_nearly_one_suit_same_shape(b, a, 1);
    }
}

/// His nobs in two hands of the same shape is alike.
pub proof fn lemma_nob_same_shape(
    hand1: Seq<Card>,
    starter1: Card,
    hand2: Seq<Card>,
    starter2: Card,
)
    requires
        spec_same_ranks(hand1, hand2),
        forall|i: int|
            0 <= i < hand1.len() ==> ((#[trigger] hand1[i]).suit == starter1.suit <==> hand2[i].suit
                == starter2.suit),
    ensures
        spec_all_alike(spec_nob(hand1, starter1), spec_nob(hand2, starter2)),
        forall|i: int|
            0 <= i < spec_nob(hand1, starter1).len() ==> (#[trigger] spec_nob(
                hand1,
                starter1,
            )[i]).kind == CombinationKind::Nob,
        forall|i: int|
            0 <= i < spec_nob(hand2, starter2).len() ==> (#[trigger] spec_nob(
                hand2,
                starter2,
            )[i]).kind == CombinationKind::Nob,
    decreases hand1.len(),
{
    if hand1.len() > 0 {
        let rest1 = hand1.drop_first();
        let rest2 = hand2.drop_first();
        assert forall|i: int| 0 <= i < rest1.len() implies (#[trigger] rest1[i]).rank
            == rest2[i].rank by {
            assert(hand1[i + 1].rank == hand2[i + 1].rank);
        }
        assert forall|i: int| 0 <= i < rest1.len() implies ((#[trigger] rest1[i]).suit
            == starter1.suit <==> rest2[i].suit == starter2.suit) by {
            assert(hand1[i + 1].suit == starter1.suit <==> hand2[i + 1].suit == starter2.suit);
        }
        lemma_nob_same_shape(rest1, starter1, rest2, starter2);
        assert(hand1[0].rank == hand2[0].rank);
        assert(hand1[0].suit == starter1.suit <==> hand2[0].suit == starter2.suit);
    }
}

/// The total score of a hand of four with its starter does not depend on
/// what the suits are called: a second hand and starter with the same ranks,
/// card by card, whose cards share suits in the same places, score the same
/// total, as a hand and as a crib.
pub proof fn lemma_score_ignores_suit_names(
    hand1: Seq<Card>,
    starter1: Card,
    hand2: Seq<Card>,
    starter2: Card,
    is_crib: bool,
)
    requires
        hand1.len() == 4,
        spec_same_shape(hand1.push(starter1), hand2.push(starter2)),
    ensures
        spec_total(spec_score_hand(hand1, Some(starter1), is_crib)) == spec_total(
            spec_score_hand(hand2, Some(starter2), is_crib),
        ),
{
    let all1 = hand1.push(starter1);
    let all2 = hand2.push(starter2);
    let cards1 = spec_sort(all1);
    let cards2 = spec_sort(all2);
    let nob1 = spec_nob(hand1, starter1);
    let nob2 = spec_nob(hand2, starter2);
    let subsets1 = spec_combinations(cards1, 2, cards1.len());
    let subsets2 = spec_combinations(cards2, 2, cards2.len());
    let score1 = spec_tally_all(nob1, subsets1, is_crib);
    let score2 = spec_tally_all(nob2, subsets2, is_crib);
    assert(score1 == spec_score_hand(hand1, Some(starter1), is_crib));
    assert(score2 == spec_score_hand(hand2, Some(starter2), is_crib));
    lemma_sort_ensures(all1);
    lemma_sort_ensures(all2);

    // his nobs
    assert(spec_same_ranks(hand1, hand2)) by {
        assert forall|i: int| 0 <= i < hand1.len() implies (#[trigger] hand1[i]).rank
            == hand2[i].rank by {
            assert(all1[i].rank == all2[i].rank);
        }
    }
    assert forall|i: int| 0 <= i < hand1.len() implies ((#[trigger] hand1[i]).suit
        == starter1.suit <==> hand2[i].suit == starter2.suit) by {
        assert(all1[i].suit == all1[4].suit <==> all2[i].suit == all2[4].suit);
    }
    lemma_nob_same_shape(hand1, starter1, hand2, starter2);
    let flushes = part_of_kind(CombinationKind::SuitMatch);
    let others = part_without_flushes();
    assert forall|i: int| 0 <= i < nob1.len() implies others(#[trigger] nob1[i]) && !flushes(
        nob1[i],
    ) by {}
    assert forall|i: int| 0 <= i < nob2.len() implies others(#[trigger] nob2[i]) && !flushes(
        nob2[i],
    ) by {}
    lemma_part_all(nob1, others);
    lemma_part_all(nob2, others);
    lemma_part_none(nob1, flushes);
    lemma_part_none(nob2, flushes);

    // the parts of the two scores
    lemma_flushes_apart(nob1, subsets1, is_crib);
    lemma_flushes_apart(nob2, subsets2, is_crib);

    // fifteens, rank matches and runs
    lemma_sorted_same_ranks(all1, all2);
    lemma_combinations_same_ranks(
        cards1,
        cards2,
        2,
        5,
        (vstd::arithmetic::power2::pow2(5) - 1) as nat,
    );
    lemma_alike_tally_plain(nob1, nob2, subsets1, subsets2);
    lemma_alike_total(spec_tally_plain(nob1, subsets1), spec_tally_plain(nob2, subsets2));

    // flushes
    lemma_tally_flush(subsets1, is_crib);
    lemma_tally_flush(subsets2, is_crib);
    lemma_best_flush_of_five(cards1, is_crib);
    lemma_best_flush_of_five(cards2, is_crib);
    lemma_flush_value_same_cards(cards1, all1, is_crib);
    lemma_flush_value_same_cards(cards2, all2, is_crib);
    lemma_flush_value_same_shape(all1, all2, is_crib);
}

} // verus!
