//! The two choices a player makes: which two of six cards to give to the
//! crib, and which card to play next in the counting phase.

use crate::cards::{Card, Rank, Suit};
use crate::combinator::{
    all_combinations_of_size, lemma_combinations, lemma_has_combination_of_four,
    lemma_pick_elements, spec_combinations, spec_pick,
};
use crate::counting::{score_counting_cards_played, spec_count_with, spec_counting_score};
use crate::crib_values::{
    card_value_to_my_crib, card_value_to_your_crib, spec_value_to_my_crib,
    spec_value_to_your_crib,
};
use crate::cribbage_errors::{decimal, spec_decimal, CribbageError, CribbageErrorKind};
use crate::scoring::{score_hand, spec_score_hand, spec_total};
use crate::sorting::{count_up_to, lemma_count_nonnegative, sort_cards, spec_count, spec_sort};
use vstd::prelude::*;
use vstd::slice::slice_to_vec;
use vstd::string::*;

verus! {

/// The cards of `full` that are not among `kept`, in the order of `full`.
pub open spec fn spec_crib_cards(full: Seq<Card>, kept: Seq<Card>) -> Seq<Card>
    decreases full.len(),
{
    if full.len() == 0 {
        Seq::empty()
    } else if kept.contains(full[0]) {
        spec_crib_cards(full.drop_first(), kept)
    } else {
        seq![full[0]] + spec_crib_cards(full.drop_first(), kept)
    }
}

/// Whether `card` is among `cards`.
pub fn contains_card(cards: &Vec<Card>, card: &Card) -> (found: bool)
    ensures
        found == cards@.contains(*card),
{
    let n = cards.len();
    let mut i: usize = 0;
    while i < n
        invariant
            i <= n,
            n == cards@.len(),
            forall|j: int| 0 <= j < i ==> cards@[j] != *card,
        decreases n - i,
    {
        if cards[i] == *card {
            return true;
        }
        i += 1;
    }
    false
}

/// The cards that go to the crib: those of the full hand that are not among
/// the cards kept.
pub fn get_crib_cards(full_hand_of_six: &Vec<Card>, kept_cards: &Vec<Card>) -> (send_to_crib: Vec<
    Card,
>)
    ensures
        send_to_crib@ == spec_crib_cards(full_hand_of_six@, kept_cards@),
{
    let n = full_hand_of_six.len();
    let mut send_to_crib: Vec<Card> = Vec::new();
    let mut i: usize = 0;
    let ghost full = full_hand_of_six@;
    assert(full.subrange(0, n as int) =~= full);
    while i < n
        invariant
            i <= n,
            n == full.len(),
            full == full_hand_of_six@,
            send_to_crib@ + spec_crib_cards(full.subrange(i as int, n as int), kept_cards@)
                == spec_crib_cards(full, kept_cards@),
        decreases n - i,
    {
        let card = full_hand_of_six[i];
        proof {
            let tail = full.subrange(i as int, n as int);
            assert(tail[0] == card);
            assert(tail.drop_first() =~= full.subrange(i + 1, n as int));
            if !kept_cards@.contains(card) {
                assert(send_to_crib@.push(card) + spec_crib_cards(tail.drop_first(), kept_cards@)
                    =~= send_to_crib@ + spec_crib_cards(tail, kept_cards@));
            }
        }
        if !contains_card(kept_cards, &card) {
            send_to_crib.push(card);
        }
        i += 1;
    }
    assert(send_to_crib@ + Seq::<Card>::empty() =~= send_to_crib@);
    send_to_crib
}

/// What the two discards are expected to be worth to the crib they go to, in
/// hundredths of a point: the table's value for their two ranks, and one
/// hundredth more where they are of one suit.
pub open spec fn spec_crib_value(crib: Seq<Card>, my_crib: bool) -> int
    recommends
        crib.len() == 2,
        crib[0].rank != Rank::Unknown,
        crib[1].rank != Rank::Unknown,
{
    let rank1 = crib[0].rank.spec_ordinal() - 1;
    let rank2 = crib[1].rank.spec_ordinal() - 1;
    let same_suit: int = if crib[0].suit == crib[1].suit {
        1
    } else {
        0
    };
    if my_crib {
        spec_value_to_my_crib(rank1, rank2) + same_suit
    } else {
        spec_value_to_your_crib(rank1, rank2) + same_suit
    }
}

/// What keeping `kept` of the six cards is expected to be worth, in
/// hundredths of a point: the score of the kept hand without a starter, plus
/// the value of the discards to my crib, or minus their value to yours.
pub open spec fn spec_hand_value(six: Seq<Card>, kept: Seq<Card>, my_crib: bool) -> int {
    let in_hand = 100 * spec_total(spec_score_hand(kept, None, false));
    let in_crib = spec_crib_value(spec_crib_cards(six, kept), my_crib);
    if my_crib {
        in_hand + in_crib
    } else {
        in_hand - in_crib
    }
}

/// The place of the hand to keep among `hands`: the first one of the
/// greatest value.
pub open spec fn spec_best_hand(six: Seq<Card>, hands: Seq<Seq<Card>>, my_crib: bool) -> int
    decreases hands.len(),
{
    if hands.len() <= 1 {
        0
    } else {
        let best = spec_best_hand(six, hands.drop_last(), my_crib);
        if spec_hand_value(six, hands.last(), my_crib) > spec_hand_value(
            six,
            hands[best],
            my_crib,
        ) {
            hands.len() - 1
        } else {
            best
        }
    }
}

/// The four cards to keep of six: of all ways to keep four, in the order of
/// the inclusion masks, the first one of the greatest value.
pub open spec fn spec_kept_cards(six: Seq<Card>, my_crib: bool) -> Seq<Card> {
    let hands = spec_combinations(six, 4, 4);
    hands[spec_best_hand(six, hands, my_crib)]
}

/// The two cards to give to the crib: those that are not kept.
pub open spec fn spec_select_crib_cards(six: Seq<Card>, my_crib: bool) -> Seq<Card> {
    spec_crib_cards(six, spec_kept_cards(six, my_crib))
}

/// The message for a hand that does not hold six cards.
pub open spec fn spec_bad_hand_message(len: nat) -> Seq<char> {
    "a hand should have 6 cards to select a crib.  you passed in "@ + spec_decimal(len)
}

/// The best hand is one of the hands, none is worth more, and none before it
/// is worth as much.
pub proof fn lemma_best_hand(six: Seq<Card>, hands: Seq<Seq<Card>>, my_crib: bool)
    requires
        hands.len() >= 1,
    ensures
        0 <= spec_best_hand(six, hands, my_crib) < hands.len(),
        forall|k: int|
            0 <= k < hands.len() ==> spec_hand_value(six, #[trigger] hands[k], my_crib)
                <= spec_hand_value(six, hands[spec_best_hand(six, hands, my_crib)], my_crib),
        forall|k: int|
            0 <= k < spec_best_hand(six, hands, my_crib) ==> spec_hand_value(
                six,
                #[trigger] hands[k],
                my_crib,
            ) < spec_hand_value(six, hands[spec_best_hand(six, hands, my_crib)], my_crib),
    decreases hands.len(),
{
    if hands.len() > 1 {
        let before = hands.drop_last();
        lemma_best_hand(six, before, my_crib);
        let best = spec_best_hand(six, before, my_crib);
        assert(before[best] == hands[best]);
        assert forall|k: int| 0 <= k < hands.len() implies spec_hand_value(
            six,
            #[trigger] hands[k],
            my_crib,
        ) <= spec_hand_value(six, hands[spec_best_hand(six, hands, my_crib)], my_crib) by {
            if k < before.len() {
                assert(before[k] == hands[k]);
            }
        }
        assert forall|k: int| 0 <= k < spec_best_hand(six, hands, my_crib) implies spec_hand_value(
            six,
            #[trigger] hands[k],
            my_crib,
        ) < spec_hand_value(six, hands[spec_best_hand(six, hands, my_crib)], my_crib) by {
            assert(before[k] == hands[k]);
        }
    }
}

/// The discards do not depend on which cards are kept beyond the cards of
/// the full hand.
pub proof fn lemma_crib_cards_same_kept(full: Seq<Card>, kept1: Seq<Card>, kept2: Seq<Card>)
    requires
        forall|i: int|
            0 <= i < full.len() ==> (kept1.contains(#[trigger] full[i]) <==> kept2.contains(
                full[i],
            )),
    ensures
        spec_crib_cards(full, kept1) == spec_crib_cards(full, kept2),
    decreases full.len(),
{
    if full.len() > 0 {
        let rest = full.drop_first();
        assert forall|i: int| 0 <= i < rest.len() implies (kept1.contains(#[trigger] rest[i])
            <==> kept2.contains(rest[i])) by {
            assert(rest[i] == full[i + 1]);
        }
        lemma_crib_cards_same_kept(rest, kept1, kept2);
        assert(kept1.contains(full[0]) <==> kept2.contains(full[0]));
    }
}

/// Of cards that are all different, each is either kept or discarded: the
/// discards and the kept cards together are as many as the full hand.
pub proof fn lemma_crib_cards_len(full: Seq<Card>, mask: nat)
    requires
        full.no_duplicates(),
    ensures
        spec_crib_cards(full, spec_pick(full, mask)).len() + spec_pick(full, mask).len()
            == full.len(),
    decreases full.len(),
{
    if full.len() > 0 {
        let rest = full.drop_first();
        let kept = spec_pick(full, mask);
        let kept_rest = spec_pick(rest, mask / 2);
        assert(rest.no_duplicates()) by {
            assert forall|i: int, j: int|
                0 <= i < rest.len() && 0 <= j < rest.len() && i != j implies rest[i] != rest[j] by {
                assert(rest[i] == full[i + 1] && rest[j] == full[j + 1]);
            }
        }
        lemma_crib_cards_len(rest, mask / 2);
        assert(!kept_rest.contains(full[0])) by {
            if kept_rest.contains(full[0]) {
                let k = choose|k: int| 0 <= k < kept_rest.len() && kept_rest[k] == full[0];
                lemma_pick_elements(rest, mask / 2, k);
                let j = choose|j: int| 0 <= j < rest.len() && rest[j] == full[0];
                assert(full[j + 1] == full[0]);
            }
        }
        assert forall|i: int| 0 <= i < rest.len() implies (kept.contains(#[trigger] rest[i])
            <==> kept_rest.contains(rest[i])) by {
            assert(rest[i] == full[i + 1]);
            if mask % 2 == 1 {
                if kept.contains(rest[i]) {
                    let k = choose|k: int| 0 <= k < kept.len() && kept[k] == rest[i];
                    assert(k > 0);
                    assert(kept_rest[k - 1] == rest[i]);
                }
                if kept_rest.contains(rest[i]) {
                    let k = choose|k: int| 0 <= k < kept_rest.len() && kept_rest[k] == rest[i];
                    assert(kept[k + 1] == rest[i]);
                }
            }
        }
        lemma_crib_cards_same_kept(rest, kept, kept_rest);
        if mask % 2 == 1 {
            assert(kept[0] == full[0]);
            assert(kept.contains(full[0]));
        }
    }
}

/// No discard is kept, every discard is a card of the full hand, and every
/// card of the full hand is kept or discarded.
pub proof fn lemma_crib_cards_partition(full: Seq<Card>, kept: Seq<Card>)
    ensures
        forall|i: int|
            0 <= i < spec_crib_cards(full, kept).len() ==> !kept.contains(
                #[trigger] spec_crib_cards(full, kept)[i],
            ) && full.contains(spec_crib_cards(full, kept)[i]),
        forall|i: int|
            0 <= i < full.len() ==> kept.contains(#[trigger] full[i]) || spec_crib_cards(
                full,
                kept,
            ).contains(full[i]),
    decreases full.len(),
{
    if full.len() > 0 {
        let rest = full.drop_first();
        let crib = spec_crib_cards(full, kept);
        let crib_rest = spec_crib_cards(rest, kept);
        lemma_crib_cards_partition(rest, kept);
        let shift: int = if kept.contains(full[0]) {
            0
        } else {
            1
        };
        assert forall|i: int| 0 <= i < crib.len() implies !kept.contains(#[trigger] crib[i])
            && full.contains(crib[i]) by {
            if shift == 1 && i == 0 {
                assert(crib[0] == full[0]);
            } else {
                assert(crib[i] == crib_rest[i - shift]);
                let j = choose|j: int| 0 <= j < rest.len() && rest[j] == crib_rest[i - shift];
                assert(full[j + 1] == crib[i]);
            }
        }
        assert forall|i: int| 0 <= i < full.len() implies kept.contains(#[trigger] full[i])
            || crib.contains(full[i]) by {
            if i == 0 {
                if shift == 1 {
                    assert(crib[0] == full[0]);
                }
            } else {
                assert(rest[i - 1] == full[i]);
                if !kept.contains(full[i]) {
                    let k = choose|k: int| 0 <= k < crib_rest.len() && crib_rest[k] == full[i];
                    assert(crib[k + shift] == full[i]);
                }
            }
        }
    }
}

/// Whichever four of six different cards are kept, two are discarded.
pub proof fn lemma_hand_of_four(six: Seq<Card>, k: int)
    requires
        six.len() == 6,
        six.no_duplicates(),
        0 <= k < spec_combinations(six, 4, 4).len(),
    ensures
        spec_combinations(six, 4, 4)[k].len() == 4,
        spec_crib_cards(six, spec_combinations(six, 4, 4)[k]).len() == 2,
{
    lemma_combinations(six, 4, 4, k);
    let hand = spec_combinations(six, 4, 4)[k];
    let m = choose|m: nat| #[trigger] spec_pick(six, m) == hand;
    lemma_crib_cards_len(six, m);
}

/// The discard that is chosen for six different cards is two cards; together
/// with the four that are kept they are the six, and none is both kept and
/// discarded.
pub proof fn lemma_discard_partition(six: Seq<Card>, my_crib: bool)
    requires
        six.len() == 6,
        six.no_duplicates(),
    ensures
        spec_select_crib_cards(six, my_crib).len() == 2,
        spec_kept_cards(six, my_crib).len() == 4,
        spec_select_crib_cards(six, my_crib).no_duplicates(),
        forall|card: Card|
            spec_select_crib_cards(six, my_crib).contains(card) ==> !spec_kept_cards(
                six,
                my_crib,
            ).contains(card),
        forall|card: Card|
            six.contains(card) <==> spec_kept_cards(six, my_crib).contains(card)
                || spec_select_crib_cards(six, my_crib).contains(card),
{
    let hands = spec_combinations(six, 4, 4);
    lemma_has_combination_of_four(six);
    lemma_best_hand(six, hands, my_crib);
    let best = spec_best_hand(six, hands, my_crib);
    let kept = hands[best];
    let crib = spec_crib_cards(six, kept);
    lemma_hand_of_four(six, best);
    lemma_combinations(six, 4, 4, best);
    lemma_crib_cards_partition(six, kept);
    assert forall|card: Card| crib.contains(card) implies !kept.contains(card) by {
        let i = choose|i: int| 0 <= i < crib.len() && crib[i] == card;
        assert(!kept.contains(crib[i]));
    }
    assert forall|card: Card| six.contains(card) <==> kept.contains(card) || crib.contains(
        card,
    ) by {
        if six.contains(card) {
            let i = choose|i: int| 0 <= i < six.len() && six[i] == card;
            assert(kept.contains(six[i]) || crib.contains(six[i]));
        }
        if kept.contains(card) {
            let i = choose|i: int| 0 <= i < kept.len() && kept[i] == card;
            assert(six.contains(kept[i]));
        }
        if crib.contains(card) {
            let i = choose|i: int| 0 <= i < crib.len() && crib[i] == card;
            assert(six.contains(crib[i]));
        }
    }
    assert(crib.no_duplicates()) by {
        lemma_crib_cards_distinct(six, kept);
    }
}

/// The discards of cards that are all different are all different.
pub proof fn lemma_crib_cards_distinct(full: Seq<Card>, kept: Seq<Card>)
    requires
        full.no_duplicates(),
    ensures
        spec_crib_cards(full, kept).no_duplicates(),
    decreases full.len(),
{
    if full.len() > 0 {
        let rest = full.drop_first();
        let crib = spec_crib_cards(full, kept);
        let crib_rest = spec_crib_cards(rest, kept);
        assert(rest.no_duplicates()) by {
            assert forall|i: int, j: int|
                0 <= i < rest.len() && 0 <= j < rest.len() && i != j implies rest[i] != rest[j] by {
                assert(rest[i] == full[i + 1] && rest[j] == full[j + 1]);
            }
        }
        lemma_crib_cards_distinct(rest, kept);
        lemma_crib_cards_partition(rest, kept);
        if !kept.contains(full[0]) {
            assert forall|i: int, j: int|
                0 <= i < crib.len() && 0 <= j < crib.len() && i != j implies crib[i] != crib[j] by {
                if i == 0 || j == 0 {
                    let other = if i == 0 {
                        j
                    } else {
                        i
                    };
                    assert(crib[other] == crib_rest[other - 1]);
                    assert(rest.contains(crib_rest[other - 1]));
                    let p = choose|p: int| 0 <= p < rest.len() && rest[p] == crib_rest[other - 1];
                    assert(full[p + 1] == crib[other]);
                    assert(crib[0] == full[0]);
                } else {
                    assert(crib[i] == crib_rest[i - 1] && crib[j] == crib_rest[j - 1]);
                }
            }
        }
    }
}

/// What the two discards are expected to be worth to the crib they go to, in
/// hundredths of a point.
pub fn crib_value(crib: &Vec<Card>, my_crib: bool) -> (value: i64)
    requires
        crib@.len() == 2,
        crib@[0].rank != Rank::Unknown,
        crib@[1].rank != Rank::Unknown,
    ensures
        value == spec_crib_value(crib@, my_crib),
        0 <= value <= 1000,
{
    let rank1 = (crib[0].rank.ordinal() - 1) as usize;
    let rank2 = (crib[1].rank.ordinal() - 1) as usize;
    let table: u32 = if my_crib {
        card_value_to_my_crib(rank1, rank2)
    } else {
        card_value_to_your_crib(rank1, rank2)
    };
    if crib[0].suit == crib[1].suit {
        table as i64 + 1
    } else {
        table as i64
    }
}

/// The message for a hand of `len` cards where six are needed.
pub fn bad_hand_message(len: usize) -> (message: String)
    ensures
        message@ == spec_bad_hand_message(len as nat),
{
    let count = decimal(len);
    String::from_str("a hand should have 6 cards to select a crib.  you passed in ").concat(
        count.as_str(),
    )
}

/// Goes through each way to keep four of the six cards, looking for the hand
/// that is worth most: the score of the four kept, plus the value of the two
/// discards to my crib or minus their value to yours. Returns the two cards
/// to discard.
///
/// The six cards must be six different cards with a rank.
pub fn select_crib_cards(six_card_hand: &[Card], my_crib: bool) -> (result: Result<
    Vec<Card>,
    CribbageError,
>)
    requires
        six_card_hand@.len() == 6 ==> six_card_hand@.no_duplicates() && forall|i: int|
            0 <= i < 6 ==> (#[trigger] six_card_hand@[i]).rank != Rank::Unknown,
    ensures
        match result {
            Ok(crib) => {
                &&& six_card_hand@.len() == 6
                &&& crib@ == spec_select_crib_cards(six_card_hand@, my_crib)
                &&& crib@.len() == 2
            },
            Err(e) => {
                &&& six_card_hand@.len() != 6
                &&& e.error_kind == CribbageErrorKind::BadHand
                &&& e.message@ == spec_bad_hand_message(six_card_hand@.len())
            },
        },
{
    if six_card_hand.len() != 6 {
        return Err(
            CribbageError::new(
                CribbageErrorKind::BadHand,
                bad_hand_message(six_card_hand.len()),
            ),
        );
    }
    let six = slice_to_vec(six_card_hand);
    let ghost cards = six_card_hand@;
    let ghost all = spec_combinations(cards, 4, 4);
    let potential_hands = all_combinations_of_size(slice_to_vec(six_card_hand), 4, 4);
    let n = potential_hands.len();
    let mut max_crib: Vec<Card> = Vec::new();
    let mut max_score: i64 = -100000;
    let mut i: usize = 0;
    proof {
        lemma_has_combination_of_four(cards);
    }
    while i < n
        invariant
            i <= n,
            n >= 1,
            n == potential_hands@.len(),
            n == all.len(),
            all == spec_combinations(cards, 4, 4),
            forall|k: int| 0 <= k < n ==> (#[trigger] potential_hands@[k])@ == all[k],
            six@ == cards,
            cards == six_card_hand@,
            cards.len() == 6,
            cards.no_duplicates(),
            forall|j: int| 0 <= j < 6 ==> (#[trigger] cards[j]).rank != Rank::Unknown,
            i == 0 ==> max_score == -100000,
            i > 0 ==> max_crib@ == spec_crib_cards(
                cards,
                all[spec_best_hand(cards, all.take(i as int), my_crib)],
            ),
            i > 0 ==> max_score == spec_hand_value(
                cards,
                all[spec_best_hand(cards, all.take(i as int), my_crib)],
                my_crib,
            ),
            i > 0 ==> 0 <= spec_best_hand(cards, all.take(i as int), my_crib) < i,
        decreases n - i,
    {
        let hand_to_try = potential_hands[i].clone();
        proof {
            lemma_hand_of_four(cards, i as int);
            assert(hand_to_try@ == all[i as int]);
            assert(all.take(i + 1).drop_last() =~= all.take(i as int));
            assert(all.take(i + 1).last() == all[i as int]);
            if i > 0 {
                let best = spec_best_hand(cards, all.take(i as int), my_crib);
                assert(all.take(i as int)[best] == all[best]);
                assert(all.take(i + 1)[best] == all[best]);
            }
        }
        let crib = get_crib_cards(&six, &hand_to_try);
        proof {
            crate::select_cards::lemma_crib_cards_partition(cards, hand_to_try@);
            assert(cards.contains(crib@[0]) && cards.contains(crib@[1]));
        }
        let total = score_hand(hand_to_try, None, false).total_score;
        let expected_value = crib_value(&crib, my_crib);
        let score: i64 = if my_crib {
            (total as i64) * 100 + expected_value
        } else {
            (total as i64) * 100 - expected_value
        };
        if score > max_score {
            max_score = score;
            max_crib = crib;
        }
        i += 1;
    }
    proof {
        assert(all.take(n as int) =~= all);
        lemma_hand_of_four(cards, spec_best_hand(cards, all, my_crib));
    }
    Ok(max_crib)
}

/// The points that `card` scores when it is played after `played`.
pub open spec fn spec_play_points(played: Seq<Card>, card: Card) -> nat {
    spec_total(spec_counting_score(played, card))
}

/// The cards of `cards` that may be played after `played`, in order: those
/// that do not bring the count above 31.
pub open spec fn spec_playable(played: Seq<Card>, cards: Seq<Card>) -> Seq<Card>
    decreases cards.len(),
{
    if cards.len() == 0 {
        Seq::empty()
    } else if spec_count_with(played, cards.last()) <= 31 {
        spec_playable(played, cards.drop_last()).push(cards.last())
    } else {
        spec_playable(played, cards.drop_last())
    }
}

/// The place in `cards` of the first card that scores most when played after
/// `played`.
pub open spec fn spec_best_play(played: Seq<Card>, cards: Seq<Card>) -> int
    decreases cards.len(),
{
    if cards.len() <= 1 {
        0
    } else {
        let best = spec_best_play(played, cards.drop_last());
        if spec_play_points(played, cards.last()) > spec_play_points(played, cards[best]) {
            cards.len() - 1
        } else {
            best
        }
    }
}

/// How far apart two ranks are.
pub open spec fn spec_apart(low: Card, high: Card) -> int {
    if low.rank.spec_ordinal() <= high.rank.spec_ordinal() {
        high.rank.spec_ordinal() - low.rank.spec_ordinal()
    } else {
        low.rank.spec_ordinal() - high.rank.spec_ordinal()
    }
}

/// Holds one pair of cards of the hand, the lower first, against the three
/// plans, given the `weight` and the `card` chosen so far and the count.
/// A plan takes over only from a choice of less weight.
///
/// - Weight 10, a pair to play into: the two are of one rank that is not
///   worth five, and three of them keep the count at or below 31. Play the
///   second.
/// - Weight 5, the start of a run: the two are one rank apart, and the lower
///   twice, the higher and one less keep the count at or below 31: play the
///   higher. Or they are two ranks apart and the lower twice, the higher and
///   one are at most 31: play the higher, or the lower if the higher is a
///   Five.
/// - Weight 8, a fifteen or a twenty-one to come: the two and a card worth
///   ten count 15 or 21. Play the higher.
pub open spec fn spec_weigh_pair(weight: int, card: Card, pair: Seq<Card>, count: int) -> (
    int,
    Card,
)
    recommends
        pair.len() == 2,
{
    let low = pair[0];
    let high = pair[1];
    let (weight1, card1) = if low.rank == high.rank && count + 3 * low.spec_value() <= 31
        && weight < 10 && high.spec_value() != 5 {
        (10int, high)
    } else {
        (weight, card)
    };
    let (weight2, card2) = if spec_apart(low, high) == 1 {
        if low.spec_value() - 1 + low.spec_value() + high.spec_value() + count <= 31 && weight1
            < 5 {
            (5int, high)
        } else {
            (weight1, card1)
        }
    } else if spec_apart(low, high) == 2 {
        if low.spec_value() + high.spec_value() + low.spec_value() + 1 <= 31 && weight1 < 5 {
            (
                5int,
                if high.rank != Rank::Five {
                    high
                } else {
                    low
                },
            )
        } else {
            (weight1, card1)
        }
    } else {
        (weight1, card1)
    };
    let with_ten = low.spec_value() + high.spec_value() + 10;
    if (with_ten == 15 || with_ten == 21) && weight2 < 8 {
        (8int, high)
    } else {
        (weight2, card2)
    }
}

/// The weight and the card that are chosen once every pair of `pairs` has
/// been held against the plans, each pair sorted first. Without a pair
/// nothing is chosen: the weight is 0.
pub open spec fn spec_weigh_pairs(pairs: Seq<Seq<Card>>, count: int) -> (int, Card)
    decreases pairs.len(),
{
    if pairs.len() == 0 {
        (0int, Card { rank: Rank::Unknown, suit: Suit::Unknown })
    } else {
        let (weight, card) = spec_weigh_pairs(pairs.drop_last(), count);
        spec_weigh_pair(weight, card, spec_sort(pairs.last()), count)
    }
}

/// The card to play after `played` from the hand `available`, or `None` for a
/// Go.
///
/// A single card is played if it may be. Else the hand is sorted; of the
/// cards that may be played the only one is played, or the first one that
/// scores most if any scores; else the card that the plans choose from the
/// pairs of playable cards; else the last playable card, or the one before it
/// where the last is worth five.
pub open spec fn spec_next_counted_card(played: Seq<Card>, available: Seq<Card>) -> Option<
    Card,
> {
    let count = spec_count(played);
    if available.len() == 1 {
        if count + available[0].spec_value() <= 31 {
            Some(available[0])
        } else {
            None
        }
    } else {
        let playable = spec_playable(played, spec_sort(available));
        if playable.len() == 0 {
            None
        } else if playable.len() == 1 {
            Some(playable[0])
        } else {
            let best = playable[spec_best_play(played, playable)];
            let chosen = spec_weigh_pairs(spec_combinations(playable, 2, 2), count);
            if spec_play_points(played, best) > 0 {
                Some(best)
            } else if chosen.0 > 0 {
                Some(chosen.1)
            } else if playable.last().spec_value() != 5 {
                Some(playable.last())
            } else {
                Some(playable[playable.len() - 2])
            }
        }
    }
}

/// No more cards are playable than there are cards.
pub proof fn lemma_playable_len(played: Seq<Card>, cards: Seq<Card>)
    ensures
        spec_playable(played, cards).len() <= cards.len(),
    decreases cards.len(),
{
    if cards.len() > 0 {
        lemma_playable_len(played, cards.drop_last());
    }
}

/// Holds a sorted pair of cards with a rank against the three plans.
pub fn weigh_pair(weight: i32, card: Card, pair: &Vec<Card>, count: i32) -> (chosen: (i32, Card))
    requires
        pair@.len() == 2,
        pair@[0].rank != Rank::Unknown,
        pair@[1].rank != Rank::Unknown,
        0 <= count <= 31,
        0 <= weight <= 10,
    ensures
        (chosen.0 as int, chosen.1) == spec_weigh_pair(weight as int, card, pair@, count as int),
        0 <= chosen.0 <= 10,
{
    let low = pair[0];
    let high = pair[1];
    let mut weight = weight;
    let mut card = card;
    if low.rank == high.rank && count + 3 * low.value() <= 31 && weight < 10 && high.value() != 5 {
        card = high;
        weight = 10;
    }
    let low_rank = low.rank();
    let high_rank = high.rank();
    let apart = if low_rank <= high_rank {
        high_rank - low_rank
    } else {
        low_rank - high_rank
    };
    if apart == 1 {
        if low.value() - 1 + low.value() + high.value() + count <= 31 && weight < 5 {
            card = high;
            weight = 5;
        }
    } else if apart == 2 {
        if low.value() + high.value() + low.value() + 1 <= 31 && weight < 5 {
            if high.rank != Rank::Five {
                card = high;
            } else {
                card = low;
            }
            weight = 5;
        }
    }
    let with_ten = low.value() + high.value() + 10;
    if (with_ten == 15 || with_ten == 21) && weight < 8 {
        card = high;
        weight = 8;
    }
    (weight, card)
}

/// Called during the counting phase: looks at the cards that have been
/// played and at the cards that could be played, and picks the card to play,
/// or `None` where no card may be played (a Go).
///
/// Points are taken where there are any. Without points, the hand is
/// searched for a pair of cards to build on; failing that, the highest card
/// goes, but a five is held back.
///
/// The cards of the hand must have a rank, and there must be fewer than 64.
pub fn get_next_counted_card(played_cards: Vec<Card>, available_cards: Vec<Card>) -> (result:
    Result<Option<Card>, CribbageError>)
    requires
        available_cards@.len() < 64,
        forall|i: int|
            0 <= i < available_cards@.len() ==> (#[trigger] available_cards@[i]).rank
                != Rank::Unknown,
    ensures
        result matches Ok(card) && card == spec_next_counted_card(
            played_cards@,
            available_cards@,
        ),
{
    let mut available_cards = available_cards;
    let ghost played = played_cards@;
    let ghost available = available_cards@;
    proof {
        lemma_count_nonnegative(played);
    }
    let current_count: i32 = count_up_to(played_cards.as_slice(), 31);
    if available_cards.len() == 1 {
        if current_count + available_cards[0].value() <= 31 {
            return Ok(Some(available_cards[0]));
        } else {
            return Ok(None);
        }
    }
    sort_cards(&mut available_cards);
    let ghost sorted = available_cards@;
    proof {
        crate::sorting::lemma_sort_ensures(available);
    }
    let n = available_cards.len();
    let mut max: i64 = -1;
    let mut card_to_play = Card::new(Rank::Unknown, Suit::Unknown);
    let mut playable_cards: Vec<Card> = Vec::new();
    let ghost mut best: int = 0;
    let mut i: usize = 0;
    proof {
        assert(sorted.take(0) =~= Seq::<Card>::empty());
    }
    while i < n
        invariant
            i <= n,
            n == sorted.len(),
            sorted == available_cards@,
            played == played_cards@,
            playable_cards@ == spec_playable(played, sorted.take(i as int)),
            playable_cards@.len() <= i,
            playable_cards@.len() == 0 ==> max == -1,
            playable_cards@.len() > 0 ==> {
                &&& best == spec_best_play(played, playable_cards@)
                &&& 0 <= best < playable_cards@.len()
                &&& card_to_play == playable_cards@[best]
                &&& max == spec_play_points(played, card_to_play)
            },
        decreases n - i,
    {
        let potential_card = available_cards[i];
        proof {
            assert(sorted.take(i + 1).drop_last() =~= sorted.take(i as int));
            assert(sorted.take(i + 1).last() == potential_card);
        }
        match score_counting_cards_played(played_cards.as_slice(), potential_card) {
            Ok(s) => {
                let ghost before = playable_cards@;
                proof {
                    assert(before.push(potential_card).drop_last() =~= before);
                    if before.len() > 0 {
                        assert(before.push(potential_card)[best] == before[best]);
                    }
                }
                if max < s.total_score as i64 {
                    max = s.total_score as i64;
                    card_to_play = potential_card;
                    proof {
                        best = before.len() as int;
                    }
                }
                playable_cards.push(potential_card);
            },
            Err(_) => {},
        }
        i += 1;
    }
    proof {
        assert(sorted.take(n as int) =~= sorted);
    }
    if playable_cards.len() == 0 {
        return Ok(None);
    }
    if playable_cards.len() == 1 {
        return Ok(Some(playable_cards[0]));
    }
    if max > 0 {
        return Ok(Some(card_to_play));
    }
    let ghost playable = playable_cards@;
    let ghost pairs = spec_combinations(playable, 2, 2);
    proof {
        // a card is playable, so the count so far is no more than 31
        let last = playable.len() - 1;
        lemma_playable_count(played, sorted, last);
        assert(spec_count(played) <= 31);
        // the playable cards are cards of the hand, which have a rank
        assert forall|j: int| 0 <= j < playable.len() implies (#[trigger] playable[j]).rank
            != Rank::Unknown by {
            lemma_playable_count(played, sorted, j);
            crate::sorting::lemma_same_cards_contains(sorted, available, playable[j]);
            let place = choose|place: int|
                0 <= place < available.len() && available[place] == playable[j];
            assert(available[place].rank != Rank::Unknown);
        }
    }
    let two_card_combi = all_combinations_of_size(playable_cards.clone(), 2, 2);
    let m = two_card_combi.len();
    let mut strategic_weight: i32 = 0;
    let mut card_to_play = Card::new(Rank::Unknown, Suit::Unknown);
    let mut k: usize = 0;
    proof {
        assert(pairs.take(0) =~= Seq::<Seq<Card>>::empty());
    }
    while k < m
        invariant
            k <= m,
            m == two_card_combi@.len(),
            m == pairs.len(),
            pairs == spec_combinations(playable, 2, 2),
            forall|j: int| 0 <= j < m ==> (#[trigger] two_card_combi@[j])@ == pairs[j],
            0 <= current_count <= 31,
            current_count == spec_count(played),
            0 <= strategic_weight <= 10,
            (strategic_weight as int, card_to_play) == spec_weigh_pairs(
                pairs.take(k as int),
                current_count as int,
            ),
            forall|j: int| 0 <= j < playable.len() ==> (#[trigger] playable[j]).rank != Rank::Unknown,
        decreases m - k,
    {
        let mut cards = two_card_combi[k].clone();
        let ghost pair = cards@;
        proof {
            lemma_combinations(playable, 2, 2, k as int);
            assert(pairs.take(k + 1).drop_last() =~= pairs.take(k as int));
            assert(pairs.take(k + 1).last() == cards@);
            crate::sorting::lemma_sort_ensures(cards@);
        }
        sort_cards(&mut cards);
        proof {
            assert forall|j: int| 0 <= j < 2 implies (#[trigger] cards@[j]).rank
                != Rank::Unknown by {
                assert(cards@.contains(cards@[j]));
                crate::sorting::lemma_same_cards_contains(cards@, pair, cards@[j]);
                let at = choose|at: int| 0 <= at < pair.len() && pair[at] == cards@[j];
                assert(playable.contains(pair[at]));
                let place = choose|place: int|
                    0 <= place < playable.len() && playable[place] == pair[at];
                assert(playable[place].rank != Rank::Unknown);
            }
        }
        let chosen = weigh_pair(strategic_weight, card_to_play, &cards, current_count);
        strategic_weight = chosen.0;
        card_to_play = chosen.1;
        k += 1;
    }
    proof {
        assert(pairs.take(m as int) =~= pairs);
    }
    if strategic_weight > 0 {
        return Ok(Some(card_to_play));
    }
    if playable_cards[playable_cards.len() - 1].value() != 5 {
        return Ok(Some(playable_cards[playable_cards.len() - 1]));
    }
    Ok(Some(playable_cards[playable_cards.len() - 2]))
}

/// Each playable card is one of the cards and keeps the count at or below
/// 31.
pub proof fn lemma_playable_count(played: Seq<Card>, cards: Seq<Card>, k: int)
    requires
        0 <= k < spec_playable(played, cards).len(),
    ensures
        spec_count_with(played, spec_playable(played, cards)[k]) <= 31,
        cards.contains(spec_playable(played, cards)[k]),
    decreases cards.len(),
{
    if cards.len() > 0 {
        let before = spec_playable(played, cards.drop_last());
        if k < before.len() {
            lemma_playable_count(played, cards.drop_last(), k);
            let j = choose|j: int|
                0 <= j < cards.drop_last().len() && cards.drop_last()[j] == before[k];
            assert(cards[j] == before[k]);
        } else {
            assert(cards[cards.len() - 1] == cards.last());
        }
    }
}

} // verus!
