//! The order of cards in a sorted hand: by rank, and among cards of one rank
//! by suit. Also the count of a list of cards, which no reordering changes.

use crate::cards::Card;
use vstd::prelude::*;
use vstd::relations::{sorted_by, total_ordering};
use vstd::seq_lib::{lemma_sorted_unique, to_multiset_build, to_multiset_insert, to_multiset_remove};

verus! {

/// Whether `a` may stand before `b` in a sorted hand.
pub open spec fn spec_card_leq(a: Card, b: Card) -> bool {
    a.rank.spec_ordinal() < b.rank.spec_ordinal() || (a.rank.spec_ordinal()
        == b.rank.spec_ordinal() && a.suit.spec_ordinal() <= b.suit.spec_ordinal())
}

/// The order of cards as a relation.
pub open spec fn card_order() -> spec_fn(Card, Card) -> bool {
    |a: Card, b: Card| spec_card_leq(a, b)
}

/// `cards` in ascending order.
pub open spec fn spec_sort(cards: Seq<Card>) -> Seq<Card> {
    cards.sort_by(card_order())
}

/// The sum of the count values of `cards`.
pub open spec fn spec_count(cards: Seq<Card>) -> int
    decreases cards.len(),
{
    if cards.len() == 0 {
        0
    } else {
        spec_count(cards.drop_last()) + cards.last().spec_value()
    }
}

/// The order of cards is total: any two cards compare, and only equal cards
/// compare both ways.
pub proof fn lemma_card_order_total()
    ensures
        total_ordering(card_order()),
{
    let r = card_order();
    assert forall|x: Card, y: Card| #[trigger] r(x, y) && #[trigger] r(y, x) implies x == y by {
        assert(x.rank == y.rank);
        assert(x.suit == y.suit);
    }
}

/// The sorted hand holds the cards of the hand, each as often, in order.
pub proof fn lemma_sort_ensures(cards: Seq<Card>)
    ensures
        spec_sort(cards).to_multiset() == cards.to_multiset(),
        sorted_by(spec_sort(cards), card_order()),
        spec_sort(cards).len() == cards.len(),
{
    lemma_card_order_total();
    cards.lemma_sort_by_ensures(card_order());
    vstd::seq_lib::to_multiset_len(cards);
    vstd::seq_lib::to_multiset_len(spec_sort(cards));
}

/// A card of one list is a card of every list that holds the same cards.
pub proof fn lemma_same_cards_contains(a: Seq<Card>, b: Seq<Card>, card: Card)
    requires
        a.to_multiset() == b.to_multiset(),
        a.contains(card),
    ensures
        b.contains(card),
{
    vstd::seq_lib::to_multiset_contains(a, card);
    vstd::seq_lib::to_multiset_contains(b, card);
}

/// Taking one card out of a list takes its value out of the count.
pub proof fn lemma_count_remove(cards: Seq<Card>, i: int)
    requires
        0 <= i < cards.len(),
    ensures
        spec_count(cards) == spec_count(cards.remove(i)) + cards[i].spec_value(),
    decreases cards.len(),
{
    if i == cards.len() - 1 {
        assert(cards.remove(i) =~= cards.drop_last());
    } else {
        lemma_count_remove(cards.drop_last(), i);
        assert(cards.remove(i).drop_last() =~= cards.drop_last().remove(i));
        assert(cards.remove(i).last() == cards.last());
    }
}

/// Two lists that hold the same cards have the same count.
pub proof fn lemma_count_same_cards(a: Seq<Card>, b: Seq<Card>)
    requires
        a.to_multiset() == b.to_multiset(),
    ensures
        spec_count(a) == spec_count(b),
    decreases a.len(),
{
    vstd::seq_lib::to_multiset_len(a);
    vstd::seq_lib::to_multiset_len(b);
    if a.len() > 0 {
        let x = a.last();
        assert(a.contains(x));
        lemma_same_cards_contains(a, b, x);
        let j = choose|j: int| 0 <= j < b.len() && b[j] == x;
        to_multiset_remove(a, a.len() - 1);
        to_multiset_remove(b, j);
        assert(a.remove(a.len() - 1) =~= a.drop_last());
        lemma_count_same_cards(a.drop_last(), b.remove(j));
        lemma_count_remove(b, j);
    }
}

/// Sorting does not change the count.
pub proof fn lemma_count_sorted(cards: Seq<Card>)
    ensures
        spec_count(spec_sort(cards)) == spec_count(cards),
{
    lemma_sort_ensures(cards);
    lemma_count_same_cards(spec_sort(cards), cards);
}

/// The count of a list is at least the count of any of its tails, and none
/// is negative.
pub proof fn lemma_count_tail(cards: Seq<Card>, from: int)
    requires
        0 <= from <= cards.len(),
    ensures
        0 <= spec_count(cards.subrange(from, cards.len() as int)) <= spec_count(cards),
    decreases cards.len(),
{
    let tail = cards.subrange(from, cards.len() as int);
    if from == cards.len() {
        assert(tail.len() == 0);
        lemma_count_nonnegative(cards);
    } else {
        lemma_count_tail(cards.drop_last(), from);
        assert(tail.drop_last() =~= cards.drop_last().subrange(from, cards.len() - 1));
        assert(tail.last() == cards.last());
    }
}

/// No count is negative, and `n` cards count at most `10 * n`.
pub proof fn lemma_count_nonnegative(cards: Seq<Card>)
    ensures
        0 <= spec_count(cards) <= 10 * cards.len(),
    decreases cards.len(),
{
    if cards.len() > 0 {
        lemma_count_nonnegative(cards.drop_last());
    }
}

/// The count of a list is at least the count of any of its beginnings.
pub proof fn lemma_count_prefix(cards: Seq<Card>, n: int)
    requires
        0 <= n <= cards.len(),
    ensures
        0 <= spec_count(cards.take(n)) <= spec_count(cards),
    decreases cards.len(),
{
    lemma_count_nonnegative(cards.take(n));
    if n == cards.len() {
        assert(cards.take(n) =~= cards);
    } else {
        lemma_count_prefix(cards.drop_last(), n);
        assert(cards.drop_last().take(n) =~= cards.take(n));
    }
}

/// The count of `cards` as far as it is of interest: the sum of their values
/// if that is at most `limit`, and `limit + 1` if it is more.
pub fn count_up_to(cards: &[Card], limit: i32) -> (count: i32)
    requires
        0 <= limit <= i32::MAX - 10,
    ensures
        count == if spec_count(cards@) <= limit {
            spec_count(cards@)
        } else {
            limit + 1
        },
{
    let n = cards.len();
    let mut count: i32 = 0;
    let mut i: usize = 0;
    proof {
        assert(cards@.take(0) =~= Seq::<Card>::empty());
    }
    while i < n
        invariant
            i <= n,
            n == cards@.len(),
            0 <= limit <= i32::MAX - 10,
            count == spec_count(cards@.take(i as int)),
            count <= limit,
        decreases n - i,
    {
        proof {
            assert(cards@.take(i + 1).drop_last() =~= cards@.take(i as int));
            lemma_count_prefix(cards@, i + 1);
            lemma_count_prefix(cards@, i as int);
        }
        count = count + cards[i].value();
        if count > limit {
            return limit + 1;
        }
        i += 1;
    }
    proof {
        assert(cards@.take(n as int) =~= cards@);
    }
    count
}

/// Whether `a` may stand before `b` in a sorted hand.
pub fn card_leq(a: &Card, b: &Card) -> (leq: bool)
    ensures
        leq == spec_card_leq(*a, *b),
{
    let ra = a.rank.ordinal();
    let rb = b.rank.ordinal();
    ra < rb || (ra == rb && a.suit.ordinal() <= b.suit.ordinal())
}

/// Sorts `cards` in place: ascending by rank, cards of one rank by suit.
pub fn sort_cards(cards: &mut Vec<Card>)
    ensures
        final(cards)@ == spec_sort(old(cards)@),
{
    let n = cards.len();
    let mut sorted: Vec<Card> = Vec::new();
    let mut i: usize = 0;
    proof {
        lemma_card_order_total();
        assert(cards@.take(0) =~= Seq::<Card>::empty());
    }
    while i < n
        invariant
            i <= n,
            n == cards@.len(),
            cards@ == old(cards)@,
            total_ordering(card_order()),
            sorted_by(sorted@, card_order()),
            sorted@.to_multiset() == cards@.take(i as int).to_multiset(),
            sorted@.len() == i,
        decreases n - i,
    {
        let card = cards[i];
        let mut at: usize = 0;
        while at < sorted.len() && card_leq(&sorted[at], &card)
            invariant
                at <= sorted@.len(),
                forall|k: int| 0 <= k < at ==> spec_card_leq(#[trigger] sorted@[k], card),
            decreases sorted@.len() - at,
        {
            at += 1;
        }
        proof {
            let before = sorted@;
            let after = before.insert(at as int, card);
            to_multiset_insert(before, at as int, card);
            assert(cards@.take(i + 1) =~= cards@.take(i as int).push(card));
            to_multiset_build(cards@.take(i as int), card);
            let r = card_order();
            assert forall|p: int, q: int| 0 <= p < q < after.len() implies #[trigger] r(
                after[p],
                after[q],
            ) by {
                if q == at {
                    assert(spec_card_leq(before[p], card));
                } else if p == at {
                    assert(!spec_card_leq(before[at as int], card));
                    assert(r(card, before[at as int]) || r(before[at as int], card));
                    if q - 1 > at {
                        assert(r(before[at as int], before[q - 1]));
                        assert(r(card, before[at as int]) && r(before[at as int], before[q - 1]));
                    }
                } else {
                    let from = if p < at {
                        p
                    } else {
                        p - 1
                    };
                    let to = if q < at {
                        q
                    } else {
                        q - 1
                    };
                    assert(r(before[from], before[to]));
                }
            }
        }
        sorted.insert(at, card);
        i += 1;
    }
    proof {
        assert(cards@.take(n as int) =~= cards@);
        lemma_sort_ensures(cards@);
        lemma_sorted_unique(sorted@, spec_sort(cards@), card_order());
    }
    *cards = sorted;
}

} // verus!
