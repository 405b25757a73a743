//! What a game needs around the engine: reading a hand from text, cutting
//! for the deal, dealing a hand, and playing the next card with its score.

use crate::cards::{lemma_from_index_injective, to_chars, Card};
use crate::chance::shuffle;
use crate::counting::score_counting_cards_played;
use crate::cribbage_errors::{CribbageError, CribbageErrorKind};
use crate::legal_play::lemma_next_card_is_legal;
use crate::scoring::{spec_total, CombinationView, Score};
use crate::select_cards::{
    get_next_counted_card, select_crib_cards, spec_next_counted_card, spec_select_crib_cards,
};
use crate::counting::spec_counting_score;
use vstd::prelude::*;
use vstd::string::*;

verus! {

/// A hand that was read from text.
#[derive(Debug)]
pub struct ParsedHand {
    pub hand: Vec<Card>,
}

/// Where the first token of `text` ends: the place of its first comma, or
/// its length where it has none.
pub open spec fn spec_token_end(text: Seq<char>) -> int
    decreases text.len(),
{
    if text.len() == 0 || text[0] == ',' {
        0
    } else {
        1 + spec_token_end(text.drop_first())
    }
}

/// The hand that `text` names: card names with a comma between one and the
/// next, read from left to right. The first name that is none gives its
/// error, as a message.
pub open spec fn spec_parse_hand(text: Seq<char>) -> Result<Seq<Card>, Seq<char>>
    decreases text.len(),
{
    let end = spec_token_end(text);
    let token = text.take(end);
    match Card::spec_from_string(token) {
        None => Err(Card::spec_parse_error(token)),
        Some(card) => if !(0 <= end < text.len()) {
            Ok(seq![card])
        } else {
            match spec_parse_hand(text.skip(end + 1)) {
                Ok(rest) => Ok(seq![card] + rest),
                Err(message) => Err(message),
            }
        },
    }
}

/// The cards read so far, before what the rest of the text gives.
pub open spec fn spec_read_on(cards: Seq<Card>, rest: Result<Seq<Card>, Seq<char>>) -> Result<
    Seq<Card>,
    Seq<char>,
> {
    match rest {
        Ok(more) => Ok(cards + more),
        Err(message) => Err(message),
    }
}

/// The first token ends at the first comma.
pub proof fn lemma_token_end(text: Seq<char>, end: int)
    requires
        0 <= end <= text.len(),
        forall|j: int| 0 <= j < end ==> text[j] != ',',
        end == text.len() || text[end] == ',',
    ensures
        spec_token_end(text) == end,
    decreases text.len(),
{
    if end > 0 {
        let rest = text.drop_first();
        assert forall|j: int| 0 <= j < end - 1 implies rest[j] != ',' by {
            assert(rest[j] == text[j + 1]);
        }
        lemma_token_end(rest, end - 1);
    }
}

impl ParsedHand {
    /// Reads a hand from card names with commas between them.
    pub fn from_string(csv: String) -> (result: Result<ParsedHand, CribbageError>)
        ensures
            match result {
                Ok(parsed) => spec_parse_hand(csv@) == Ok::<Seq<Card>, Seq<char>>(parsed.hand@),
                Err(e) => e.error_kind == CribbageErrorKind::ParseError && spec_parse_hand(csv@)
                    == Err::<Seq<Card>, Seq<char>>(e.message@),
            },
    {
        let text = csv.as_str();
        let chars = to_chars(text);
        let n = chars.len();
        let mut hand: Vec<Card> = Vec::new();
        let mut start: usize = 0;
        proof {
            assert(text@.skip(0) =~= text@);
            assert(Seq::<Card>::empty() + Seq::<Card>::empty() =~= Seq::<Card>::empty());
            match spec_parse_hand(text@) {
                Ok(more) => {
                    assert(Seq::<Card>::empty() + more =~= more);
                },
                Err(_) => {},
            }
        }
        loop
            invariant
                start <= n,
                n == chars@.len(),
                chars@ == text@,
                text@ == csv@,
                spec_parse_hand(text@) == spec_read_on(hand@, spec_parse_hand(text@.skip(start as int))),
            decreases n - start,
        {
            let mut end = start;
            while end < n && chars[end] != ','
                invariant
                    start <= end <= n,
                    n == chars@.len(),
                    forall|j: int| start <= j < end ==> chars@[j] != ',',
                decreases n - end,
            {
                end += 1;
            }
            let ghost rest = text@.skip(start as int);
            proof {
                assert forall|j: int| 0 <= j < end - start implies rest[j] != ',' by {
                    assert(rest[j] == chars@[start + j]);
                }
                lemma_token_end(rest, end - start);
                assert(rest.take(end - start) =~= text@.subrange(start as int, end as int));
            }
            let token = text.substring_char(start, end);
            match Card::from_string(token) {
                Err(e) => {
                    return Err(e);
                },
                Ok(card) => {
                    proof {
                        if end < n {
                            assert(rest.skip(end - start + 1) =~= text@.skip(end + 1));
                            match spec_parse_hand(text@.skip(end + 1)) {
                                Ok(more) => {
                                    assert(hand@ + (seq![card] + more) =~= hand@.push(card) + more);
                                },
                                Err(_) => {},
                            }
                        } else {
                            assert(hand@ + seq![card] =~= hand@.push(card));
                        }
                    }
                    hand.push(card);
                    if end == n {
                        return Ok(ParsedHand { hand });
                    }
                    start = end + 1;
                },
            }
        }
    }
}

/// The two cards that were cut to see who deals.
#[derive(Debug, Clone, Copy, PartialEq, Eq, Structural)]
pub struct CutCards {
    pub player: Card,
    pub computer: Card,
}

impl CutCards {
    /// The cards at the two places of the deck that were cut. A place
    /// beyond the deck is an error.
    pub fn new(p_index: usize, c_index: usize) -> (result: Result<CutCards, CribbageError>)
        ensures
            match result {
                Ok(cut) => {
                    &&& p_index <= 51
                    &&& c_index <= 51
                    &&& cut.player == Card::spec_from_index(p_index as int)
                    &&& cut.computer == Card::spec_from_index(c_index as int)
                },
                Err(e) => {
                    &&& p_index > 51 || c_index > 51
                    &&& e.error_kind == CribbageErrorKind::BadCard
                    &&& e.message@ == "card index can't be > 51"@
                },
            },
    {
        if p_index > 51 || c_index > 51 {
            return Err(
                CribbageError::new(
                    CribbageErrorKind::BadCard,
                    String::from_str("card index can't be > 51"),
                ),
            );
        }
        Ok(CutCards { player: Card::from_index(p_index), computer: Card::from_index(c_index) })
    }

    /// Whether two places of the deck hold cards of one rank: such a cut
    /// decides nothing and is made again.
    pub fn is_tie(first: usize, second: usize) -> (tie: bool)
        ensures
            tie == (first % 13 == second % 13),
            first < 52 && second < 52 ==> tie == (Card::spec_from_index(first as int).rank
                == Card::spec_from_index(second as int).rank),
    {
        first % 13 == second % 13
    }
}

/// Who a card of a deal belongs to.
#[derive(Debug, Clone, Copy, PartialEq, Eq, Structural)]
pub enum Owner {
    Player,
    Computer,
    Shared,
}

/// A card of a deal and who it belongs to.
#[derive(Debug, Clone, Copy, PartialEq, Eq, Structural)]
pub struct DealtCard {
    pub card: Card,
    pub owner: Owner,
}

/// A deal: the starter and the twelve cards dealt, each with its owner; the
/// starter again; and the two cards that the computer gives to its crib.
#[derive(Debug)]
pub struct RandomHand {
    pub random_cards: Vec<DealtCard>,
    pub computer_crib_cards: Vec<Card>,
    pub shared_card: Card,
}

/// Who gets card `i` of a deal. The cards go to the two players in turn, and
/// the one who does not have the crib gets the first.
pub open spec fn spec_owner(i: int, is_computer_crib: bool) -> Owner {
    if (i % 2 == 0) == is_computer_crib {
        Owner::Player
    } else {
        Owner::Computer
    }
}

/// The cards that the computer gets of the first `upto` cards dealt from
/// the places `indices` of the deck.
pub open spec fn spec_computer_hand(indices: Seq<usize>, is_computer_crib: bool, upto: int) -> Seq<
    Card,
>
    decreases upto,
{
    if upto <= 0 {
        Seq::empty()
    } else if spec_owner(upto - 1, is_computer_crib) == Owner::Computer {
        spec_computer_hand(indices, is_computer_crib, upto - 1).push(
            Card::spec_from_index(indices[upto - 1] as int),
        )
    } else {
        spec_computer_hand(indices, is_computer_crib, upto - 1)
    }
}

/// Whether a deal can be made from the places `indices` of the deck: the
/// first thirteen are places of the deck, and no two of those that go to the
/// computer are the same.
pub open spec fn spec_can_deal(indices: Seq<usize>, is_computer_crib: bool) -> bool {
    &&& forall|i: int| 0 <= i < 13 ==> #[trigger] indices[i] < 52
    &&& forall|i: int, j: int|
        0 <= i < j < 12 && spec_owner(i, is_computer_crib) == Owner::Computer && spec_owner(
            j,
            is_computer_crib,
        ) == Owner::Computer ==> indices[i] != indices[j]
}

/// Whether `dealt` is the deal from the places `indices` of the deck.
pub open spec fn spec_is_deal(dealt: RandomHand, indices: Seq<usize>, is_computer_crib: bool) -> bool {
    &&& dealt.random_cards@.len() == 13
    &&& dealt.shared_card == Card::spec_from_index(indices[12] as int)
    &&& dealt.random_cards@[0] == (DealtCard { card: dealt.shared_card, owner: Owner::Shared })
    &&& forall|i: int|
        0 <= i < 12 ==> #[trigger] dealt.random_cards@[i + 1] == (DealtCard {
            card: Card::spec_from_index(indices[i] as int),
            owner: spec_owner(i, is_computer_crib),
        })
    &&& dealt.computer_crib_cards@ == spec_select_crib_cards(
        spec_computer_hand(indices, is_computer_crib, 12),
        true,
    )
    &&& dealt.computer_crib_cards@.len() == 2
}

/// Deals a hand from the places `cards` of the deck: twelve cards to the two
/// players in turn, and the thirteenth as the starter. The computer's six
/// cards give two to its crib. Fewer than thirteen places give no deal.
pub fn deal_hand(is_computer_crib: bool, cards: &Vec<usize>) -> (result: Option<RandomHand>)
    requires
        cards@.len() >= 13 ==> spec_can_deal(cards@, is_computer_crib),
    ensures
        match result {
            Some(dealt) => cards@.len() >= 13 && spec_is_deal(dealt, cards@, is_computer_crib),
            None => cards@.len() < 13,
        },
{
    if cards.len() < 13 {
        return None;
    }
    let shared_card = Card::from_index(cards[12]);
    let mut random_cards: Vec<DealtCard> = Vec::new();
    random_cards.push(DealtCard { card: shared_card, owner: Owner::Shared });
    let mut computer_hand: Vec<Card> = Vec::new();
    let mut to_computer = !is_computer_crib;
    let ghost mut places: Seq<int> = Seq::empty();
    let mut i: usize = 0;
    while i < 12
        invariant
            i <= 12,
            cards@.len() >= 13,
            spec_can_deal(cards@, is_computer_crib),
            to_computer == (spec_owner(i as int, is_computer_crib) == Owner::Computer),
            random_cards@.len() == i + 1,
            random_cards@[0] == (DealtCard { card: shared_card, owner: Owner::Shared }),
            forall|k: int|
                0 <= k < i ==> #[trigger] random_cards@[k + 1] == (DealtCard {
                    card: Card::spec_from_index(cards@[k] as int),
                    owner: spec_owner(k, is_computer_crib),
                }),
            computer_hand@ == spec_computer_hand(cards@, is_computer_crib, i as int),
            places.len() == computer_hand@.len(),
            computer_hand@.len() == if is_computer_crib {
                i as int / 2
            } else {
                (i as int + 1) / 2
            },
            forall|k: int|
                0 <= k < places.len() ==> 0 <= #[trigger] places[k] < i && spec_owner(
                    places[k],
                    is_computer_crib,
                ) == Owner::Computer && computer_hand@[k] == Card::spec_from_index(
                    cards@[places[k]] as int,
                ),
            forall|k: int, l: int| 0 <= k < l < places.len() ==> places[k] < places[l],
            forall|k: int|
                0 <= k < computer_hand@.len() ==> (#[trigger] computer_hand@[k]).in_deck(),
        decreases 12 - i,
    {
        let index = cards[i];
        let card = Card::from_index(index);
        if to_computer {
            computer_hand.push(card);
            proof {
                places = places.push(i as int);
            }
        }
        random_cards.push(
            DealtCard {
                card,
                owner: if to_computer {
                    Owner::Computer
                } else {
                    Owner::Player
                },
            },
        );
        to_computer = !to_computer;
        i += 1;
    }
    proof {
        assert forall|k: int, l: int|
            0 <= k < computer_hand@.len() && 0 <= l < computer_hand@.len() && k != l implies computer_hand@[k]
            != computer_hand@[l] by {
            assert(places[k] != places[l]);
            let p = places[k];
            let q = places[l];
            assert(cards@[p] != cards@[q]);
            lemma_from_index_injective(cards@[p] as int, cards@[q] as int);
        }
        assert forall|k: int| 0 <= k < 6 implies (#[trigger] computer_hand@[k]).rank
            != crate::cards::Rank::Unknown by {
            assert(computer_hand@[k].in_deck());
        }
    }
    let computer_crib_cards = select_crib_cards(computer_hand.as_slice(), true).unwrap();
    Some(RandomHand { random_cards, computer_crib_cards, shared_card })
}

/// Whether the places `deck` are those of a new deck that was shuffled: the
/// places from 0 up to, not including, 51, each once.
pub open spec fn spec_is_shuffled(deck: Seq<usize>) -> bool {
    &&& deck.len() == 51
    &&& deck.no_duplicates()
    &&& forall|i: int| 0 <= i < deck.len() ==> #[trigger] deck[i] < 51
}

/// The places from 0 up to, not including, 51 in an order that chance
/// decides.
pub fn shuffled_deck() -> (deck: Vec<usize>)
    ensures
        spec_is_shuffled(deck@),
{
    let mut deck: Vec<usize> = Vec::new();
    let mut i: usize = 0;
    while i < 51
        invariant
            i <= 51,
            deck@.len() == i,
            forall|k: int| 0 <= k < i ==> #[trigger] deck@[k] == k,
        decreases 51 - i,
    {
        deck.push(i);
        i += 1;
    }
    let ghost ordered = deck@;
    shuffle(&mut deck);
    proof {
        let shuffled = deck@;
        vstd::seq_lib::to_multiset_len(ordered);
        vstd::seq_lib::to_multiset_len(shuffled);
        assert(ordered.no_duplicates());
        ordered.lemma_multiset_has_no_duplicates();
        shuffled.lemma_multiset_has_no_duplicates_conv();
        assert forall|k: int| 0 <= k < shuffled.len() implies #[trigger] shuffled[k] < 51 by {
            assert(shuffled.contains(shuffled[k]));
            vstd::seq_lib::to_multiset_contains(shuffled, shuffled[k]);
            vstd::seq_lib::to_multiset_contains(ordered, shuffled[k]);
            let j = choose|j: int| 0 <= j < ordered.len() && ordered[j] == shuffled[k];
            assert(ordered[j] == j);
        }
    }
    deck
}

/// Deals a hand from a deck that chance has shuffled.
pub fn random_hand(is_computer_crib: bool) -> (dealt: (RandomHand, Vec<usize>))
    ensures
        spec_is_shuffled(dealt.1@),
        spec_is_deal(dealt.0, dealt.1@, is_computer_crib),
{
    let deck = shuffled_deck();
    let dealt = deal_hand(is_computer_crib, &deck).unwrap();
    (dealt, deck)
}

/// Picks the card to play after `played_cards` from the hand
/// `available_cards`, and scores it. A Go comes with the empty score.
pub fn play_next_card(played_cards: Vec<Card>, available_cards: Vec<Card>) -> (play: (
    Option<Card>,
    Score,
))
    requires
        available_cards@.len() < 64,
        forall|i: int|
            0 <= i < available_cards@.len() ==> (#[trigger] available_cards@[i]).rank
                != crate::cards::Rank::Unknown,
    ensures
        play.0 == spec_next_counted_card(played_cards@, available_cards@),
        play.1@ == match play.0 {
            Some(card) => spec_counting_score(played_cards@, card),
            None => Seq::<CombinationView>::empty(),
        },
        play.1.total_score == spec_total(play.1@),
{
    proof {
        lemma_next_card_is_legal(played_cards@, available_cards@);
        assert(spec_total(Seq::<CombinationView>::empty()) == 0);
    }
    let played = played_cards.clone();
    match get_next_counted_card(played_cards, available_cards).unwrap() {
        Some(card) => {
            let score = score_counting_cards_played(played.as_slice(), card).unwrap();
            (Some(card), score)
        },
        None => (None, Score::new()),
    }
}

} // verus!
