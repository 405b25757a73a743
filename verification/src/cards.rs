//! Standard playing cards, as far as cribbage needs them: rank, suit, the
//! count value of a card, its canonical name and its place in the deck.

use crate::chance::random_below;
use crate::cribbage_errors::{CribbageError, CribbageErrorKind};
use vstd::prelude::*;
use vstd::string::*;

verus! {

/// The four suits, and `Unknown` for a card that has not been given one.
#[derive(Copy, Clone, Debug, PartialEq, Eq, PartialOrd, Ord, Structural)]
pub enum Suit {
    Clubs,
    Diamonds,
    Hearts,
    Spades,
    Unknown,
}

/// The thirteen ranks, and `Unknown` for a card that has not been given one.
#[derive(Copy, Clone, Debug, PartialEq, Eq, PartialOrd, Ord, Structural)]
pub enum Rank {
    Ace,
    Two,
    Three,
    Four,
    Five,
    Six,
    Seven,
    Eight,
    Nine,
    Ten,
    Jack,
    Queen,
    King,
    Unknown,
}

impl Suit {
    /// Clubs 1, Diamonds 2, Hearts 3, Spades 4; `Unknown` comes last with 5.
    pub open spec fn spec_ordinal(self) -> int {
        match self {
            Suit::Clubs => 1,
            Suit::Diamonds => 2,
            Suit::Hearts => 3,
            Suit::Spades => 4,
            Suit::Unknown => 5,
        }
    }

    /// The suit's number.
    pub fn ordinal(self) -> (n: u8)
        ensures
            n == self.spec_ordinal(),
    {
        match self {
            Suit::Clubs => 1,
            Suit::Diamonds => 2,
            Suit::Hearts => 3,
            Suit::Spades => 4,
            Suit::Unknown => 5,
        }
    }

    /// The suit in place `k` of the deck order (Clubs first), if `k < 4`.
    pub open spec fn spec_nth(k: int) -> Option<Suit> {
        if k == 0 {
            Some(Suit::Clubs)
        } else if k == 1 {
            Some(Suit::Diamonds)
        } else if k == 2 {
            Some(Suit::Hearts)
        } else if k == 3 {
            Some(Suit::Spades)
        } else {
            None
        }
    }

    /// The suit in place `k` of the deck order, if there is one.
    pub fn nth(k: usize) -> (s: Option<Suit>)
        ensures
            s == Suit::spec_nth(k as int),
            s matches Some(x) ==> x.spec_ordinal() == k + 1,
    {
        if k == 0 {
            Some(Suit::Clubs)
        } else if k == 1 {
            Some(Suit::Diamonds)
        } else if k == 2 {
            Some(Suit::Hearts)
        } else if k == 3 {
            Some(Suit::Spades)
        } else {
            None
        }
    }

    /// The suit's name, as it is written in a card's name.
    pub open spec fn spec_name(self) -> Seq<char> {
        match self {
            Suit::Clubs => "Clubs"@,
            Suit::Diamonds => "Diamonds"@,
            Suit::Hearts => "Hearts"@,
            Suit::Spades => "Spades"@,
            Suit::Unknown => "Unknown"@,
        }
    }

    /// The suit's name.
    pub fn name(self) -> (s: &'static str)
        ensures
            s@ == self.spec_name(),
    {
        match self {
            Suit::Clubs => "Clubs",
            Suit::Diamonds => "Diamonds",
            Suit::Hearts => "Hearts",
            Suit::Spades => "Spades",
            Suit::Unknown => "Unknown",
        }
    }

    /// The suit that `text` names, letter for letter.
    pub open spec fn spec_from_name(text: Seq<char>) -> Option<Suit> {
        if text == "Clubs"@ {
            Some(Suit::Clubs)
        } else if text == "Diamonds"@ {
            Some(Suit::Diamonds)
        } else if text == "Hearts"@ {
            Some(Suit::Hearts)
        } else if text == "Spades"@ {
            Some(Suit::Spades)
        } else if text == "Unknown"@ {
            Some(Suit::Unknown)
        } else {
            None
        }
    }

    /// Reads a suit from its name.
    pub fn from_name(text: &str) -> (s: Option<Suit>)
        ensures
            s == Suit::spec_from_name(text@),
    {
        let chars = to_chars(text);
        if same_text(&chars, "Clubs") {
            Some(Suit::Clubs)
        } else if same_text(&chars, "Diamonds") {
            Some(Suit::Diamonds)
        } else if same_text(&chars, "Hearts") {
            Some(Suit::Hearts)
        } else if same_text(&chars, "Spades") {
            Some(Suit::Spades)
        } else if same_text(&chars, "Unknown") {
            Some(Suit::Unknown)
        } else {
            None
        }
    }
}

impl Rank {
    /// Ace 1 up to King 13; `Unknown` comes last with 14.
    pub open spec fn spec_ordinal(self) -> int {
        match self {
            Rank::Ace => 1,
            Rank::Two => 2,
            Rank::Three => 3,
            Rank::Four => 4,
            Rank::Five => 5,
            Rank::Six => 6,
            Rank::Seven => 7,
            Rank::Eight => 8,
            Rank::Nine => 9,
            Rank::Ten => 10,
            Rank::Jack => 11,
            Rank::Queen => 12,
            Rank::King => 13,
            Rank::Unknown => 14,
        }
    }

    /// The rank's number.
    pub fn ordinal(self) -> (n: u8)
        ensures
            n == self.spec_ordinal(),
    {
        match self {
            Rank::Ace => 1,
            Rank::Two => 2,
            Rank::Three => 3,
            Rank::Four => 4,
            Rank::Five => 5,
            Rank::Six => 6,
            Rank::Seven => 7,
            Rank::Eight => 8,
            Rank::Nine => 9,
            Rank::Ten => 10,
            Rank::Jack => 11,
            Rank::Queen => 12,
            Rank::King => 13,
            Rank::Unknown => 14,
        }
    }

    /// What a card of this rank adds to the count: its ordinal, but 10 for
    /// the face cards and 0 for `Unknown`.
    pub open spec fn spec_value(self) -> int {
        if self == Rank::Unknown {
            0
        } else if self.spec_ordinal() > 10 {
            10
        } else {
            self.spec_ordinal()
        }
    }

    /// What a card of this rank adds to the count.
    pub fn value(self) -> (v: i32)
        ensures
            v == self.spec_value(),
    {
        match self {
            Rank::Unknown => 0,
            Rank::Ace => 1,
            Rank::Two => 2,
            Rank::Three => 3,
            Rank::Four => 4,
            Rank::Five => 5,
            Rank::Six => 6,
            Rank::Seven => 7,
            Rank::Eight => 8,
            Rank::Nine => 9,
            Rank::Ten | Rank::Jack | Rank::Queen | Rank::King => 10,
        }
    }

    /// The rank in place `k` of the deck order (Ace first), if `k < 13`.
    pub open spec fn spec_nth(k: int) -> Option<Rank> {
        if k == 0 {
            Some(Rank::Ace)
        } else if k == 1 {
            Some(Rank::Two)
        } else if k == 2 {
            Some(Rank::Three)
        } else if k == 3 {
            Some(Rank::Four)
        } else if k == 4 {
            Some(Rank::Five)
        } else if k == 5 {
            Some(Rank::Six)
        } else if k == 6 {
            Some(Rank::Seven)
        } else if k == 7 {
            Some(Rank::Eight)
        } else if k == 8 {
            Some(Rank::Nine)
        } else if k == 9 {
            Some(Rank::Ten)
        } else if k == 10 {
            Some(Rank::Jack)
        } else if k == 11 {
            Some(Rank::Queen)
        } else if k == 12 {
            Some(Rank::King)
        } else {
            None
        }
    }

    /// The rank in place `k` of the deck order, if there is one.
    pub fn nth(k: usize) -> (r: Option<Rank>)
        ensures
            r == Rank::spec_nth(k as int),
            r matches Some(x) ==> x.spec_ordinal() == k + 1,
    {
        if k == 0 {
            Some(Rank::Ace)
        } else if k == 1 {
            Some(Rank::Two)
        } else if k == 2 {
            Some(Rank::Three)
        } else if k == 3 {
            Some(Rank::Four)
        } else if k == 4 {
            Some(Rank::Five)
        } else if k == 5 {
            Some(Rank::Six)
        } else if k == 6 {
            Some(Rank::Seven)
        } else if k == 7 {
            Some(Rank::Eight)
        } else if k == 8 {
            Some(Rank::Nine)
        } else if k == 9 {
            Some(Rank::Ten)
        } else if k == 10 {
            Some(Rank::Jack)
        } else if k == 11 {
            Some(Rank::Queen)
        } else if k == 12 {
            Some(Rank::King)
        } else {
            None
        }
    }

    /// The rank's name, as it is written in a card's name.
    pub open spec fn spec_name(self) -> Seq<char> {
        match self {
            Rank::Ace => "Ace"@,
            Rank::Two => "Two"@,
            Rank::Three => "Three"@,
            Rank::Four => "Four"@,
            Rank::Five => "Five"@,
            Rank::Six => "Six"@,
            Rank::Seven => "Seven"@,
            Rank::Eight => "Eight"@,
            Rank::Nine => "Nine"@,
            Rank::Ten => "Ten"@,
            Rank::Jack => "Jack"@,
            Rank::Queen => "Queen"@,
            Rank::King => "King"@,
            Rank::Unknown => "Unknown"@,
        }
    }

    /// The rank's name.
    pub fn name(self) -> (s: &'static str)
        ensures
            s@ == self.spec_name(),
    {
        match self {
            Rank::Ace => "Ace",
            Rank::Two => "Two",
            Rank::Three => "Three",
            Rank::Four => "Four",
            Rank::Five => "Five",
            Rank::Six => "Six",
            Rank::Seven => "Seven",
            Rank::Eight => "Eight",
            Rank::Nine => "Nine",
            Rank::Ten => "Ten",
            Rank::Jack => "Jack",
            Rank::Queen => "Queen",
            Rank::King => "King",
            Rank::Unknown => "Unknown",
        }
    }

    /// The rank that `text` names, letter for letter.
    pub open spec fn spec_from_name(text: Seq<char>) -> Option<Rank> {
        if text == "Ace"@ {
            Some(Rank::Ace)
        } else if text == "Two"@ {
            Some(Rank::Two)
        } else if text == "Three"@ {
            Some(Rank::Three)
        } else if text == "Four"@ {
            Some(Rank::Four)
        } else if text == "Five"@ {
            Some(Rank::Five)
        } else if text == "Six"@ {
            Some(Rank::Six)
        } else if text == "Seven"@ {
            Some(Rank::Seven)
        } else if text == "Eight"@ {
            Some(Rank::Eight)
        } else if text == "Nine"@ {
            Some(Rank::Nine)
        } else if text == "Ten"@ {
            Some(Rank::Ten)
        } else if text == "Jack"@ {
            Some(Rank::Jack)
        } else if text == "Queen"@ {
            Some(Rank::Queen)
        } else if text == "King"@ {
            Some(Rank::King)
        } else if text == "Unknown"@ {
            Some(Rank::Unknown)
        } else {
            None
        }
    }

    /// Reads a rank from its name.
    pub fn from_name(text: &str) -> (r: Option<Rank>)
        ensures
            r == Rank::spec_from_name(text@),
    {
        let chars = to_chars(text);
        if same_text(&chars, "Ace") {
            Some(Rank::Ace)
        } else if same_text(&chars, "Two") {
            Some(Rank::Two)
        } else if same_text(&chars, "Three") {
            Some(Rank::Three)
        } else if same_text(&chars, "Four") {
            Some(Rank::Four)
        } else if same_text(&chars, "Five") {
            Some(Rank::Five)
        } else if same_text(&chars, "Six") {
            Some(Rank::Six)
        } else if same_text(&chars, "Seven") {
            Some(Rank::Seven)
        } else if same_text(&chars, "Eight") {
            Some(Rank::Eight)
        } else if same_text(&chars, "Nine") {
            Some(Rank::Nine)
        } else if same_text(&chars, "Ten") {
            Some(Rank::Ten)
        } else if same_text(&chars, "Jack") {
            Some(Rank::Jack)
        } else if same_text(&chars, "Queen") {
            Some(Rank::Queen)
        } else if same_text(&chars, "King") {
            Some(Rank::King)
        } else if same_text(&chars, "Unknown") {
            Some(Rank::Unknown)
        } else {
            None
        }
    }
}

/// The characters of `text`, in order.
pub fn to_chars(text: &str) -> (chars: Vec<char>)
    ensures
        chars@ == text@,
{
    let mut chars: Vec<char> = Vec::new();
    for c in it: text.chars()
        invariant
            chars@ == it.seq().take(it.index() as int),
            it.seq() == text@,
    {
        chars.push(c);
    }
    chars
}

/// Whether `chars` spells `text`.
pub fn same_text(chars: &Vec<char>, text: &str) -> (same: bool)
    ensures
        same == (chars@ == text@),
{
    let n = text.unicode_len();
    if chars.len() != n {
        return false;
    }
    let mut i: usize = 0;
    while i < n
        invariant
            i <= n,
            n == chars@.len(),
            n == text@.len(),
            forall|j: int| 0 <= j < i ==> chars@[j] == text@[j],
        decreases n - i,
    {
        if chars[i] != text.get_char(i) {
            return false;
        }
        i += 1;
    }
    assert(chars@ =~= text@);
    true
}

/// A deck of cards.
pub type Deck = Vec<Card>;

/// The cards in a player's hand.
pub type Hand = Vec<Card>;

/// A playing card. Two cards are equal when rank and suit are; the count
/// value follows from the rank.
#[derive(Copy, Clone, Debug, PartialEq, Eq, PartialOrd, Ord, Structural)]
pub struct Card {
    pub rank: Rank,
    pub suit: Suit,
}

impl Card {
    /// The card of this rank and suit.
    pub fn new(rank: Rank, suit: Suit) -> (card: Card)
        ensures
            card == (Card { rank, suit }),
    {
        Card { rank, suit }
    }

    /// The placeholder card: no rank, no suit, count value 0.
    pub fn default() -> (card: Card)
        ensures
            card == (Card { rank: Rank::Unknown, suit: Suit::Unknown }),
    {
        Card { rank: Rank::Unknown, suit: Suit::Unknown }
    }

    /// What the card adds to the count: 1 for an Ace up to 10 for a Ten or a
    /// face card.
    pub open spec fn spec_value(self) -> int {
        self.rank.spec_value()
    }

    /// What the card adds to the count.
    pub fn value(&self) -> (v: i32)
        ensures
            v == self.spec_value(),
            0 <= v <= 10,
    {
        self.rank.value()
    }

    /// The card's rank as a number, 1 for an Ace up to 13 for a King.
    pub fn rank(&self) -> (n: i32)
        ensures
            n == self.rank.spec_ordinal(),
    {
        let n: u8 = self.rank.ordinal();
        n as i32
    }

    /// The card's rank.
    pub fn ordinal(&self) -> (rank: Rank)
        ensures
            rank == self.rank,
    {
        self.rank
    }

    /// The card's suit.
    pub fn suit(&self) -> (suit: Suit)
        ensures
            suit == self.suit,
    {
        self.suit
    }

    /// Whether the card is one of the 52 of a deck.
    pub open spec fn in_deck(self) -> bool {
        self.rank != Rank::Unknown && self.suit != Suit::Unknown
    }

    /// The card at place `index` of a new deck: the suits follow one another,
    /// Clubs first, each from Ace to King.
    pub open spec fn spec_from_index(index: int) -> Card {
        Card { rank: Rank::spec_nth(index % 13).unwrap(), suit: Suit::spec_nth(index / 13).unwrap() }
    }

    /// The place of a deck card in a new deck.
    pub open spec fn spec_index(self) -> int {
        (self.suit.spec_ordinal() - 1) * 13 + self.rank.spec_ordinal() - 1
    }

    /// The card at place `index` of a new deck, for a place from 0 to 51.
    pub fn from_index(index: usize) -> (card: Card)
        requires
            index < 52,
        ensures
            card == Card::spec_from_index(index as int),
            card.in_deck(),
            card.spec_index() == index,
    {
        let suit = Suit::nth(index / 13);
        let rank = Rank::nth(index % 13);
        Card { rank: rank.unwrap(), suit: suit.unwrap() }
    }

    /// Whether chance may pick the card: the ranks from Ace to Queen and the
    /// suits Clubs, Diamonds and Hearts are drawn from.
    pub open spec fn spec_may_be_drawn(self) -> bool {
        1 <= self.rank.spec_ordinal() <= 12 && 1 <= self.suit.spec_ordinal() <= 3
    }

    /// The name of a card picked by chance.
    pub fn random_card() -> (name: String)
        ensures
            exists|card: Card| card.spec_may_be_drawn() && name@ == #[trigger] card.spec_name(),
    {
        let suit = random_below(3);
        let rank = random_below(12);
        let card = Card::from_index(suit * 13 + rank);
        let name = card.name();
        assert(card.spec_may_be_drawn() && name@ == card.spec_name());
        name
    }

    /// The canonical name: the rank's name, `Of`, the suit's name.
    pub open spec fn spec_name(self) -> Seq<char> {
        self.rank.spec_name() + "Of"@ + self.suit.spec_name()
    }

    /// The card's canonical name, such as `FiveOfHearts`.
    pub fn name(&self) -> (name: String)
        ensures
            name@ == self.spec_name(),
    {
        String::from_str(self.rank.name()).concat("Of").concat(self.suit.name())
    }
}

/// Whether the separator `Of` stands at place `i` of `text`.
pub open spec fn is_of_at(text: Seq<char>, i: int) -> bool {
    0 <= i && i + 1 < text.len() && text[i] == 'O' && text[i + 1] == 'f'
}

/// Whether `text` holds the separator `Of` at place `i` and nowhere else.
pub open spec fn splits_once_at(text: Seq<char>, i: int) -> bool {
    is_of_at(text, i) && forall|j: int| is_of_at(text, j) ==> j == i
}

/// Where `text` splits into a rank token and a suit token: the place of its
/// separator, if it has exactly one.
pub open spec fn spec_split(text: Seq<char>) -> Option<int> {
    if exists|i: int| splits_once_at(text, i) {
        Some(choose|i: int| splits_once_at(text, i))
    } else {
        None
    }
}

/// The place of the separator of `chars`, if there is exactly one.
pub fn find_split(chars: &Vec<char>) -> (at: Option<usize>)
    ensures
        match at {
            Some(i) => spec_split(chars@) == Some(i as int) && i + 2 <= chars@.len(),
            None => spec_split(chars@) is None,
        },
{
    let n = chars.len();
    let mut first: Option<usize> = None;
    let mut more = false;
    let ghost mut other: int = 0;
    let mut i: usize = 0;
    while i < n
        invariant
            i <= n,
            n == chars@.len(),
            first matches Some(f) ==> f < i && is_of_at(chars@, f as int),
            more ==> first is Some && first != Some(other as usize) && is_of_at(chars@, other),
            !more ==> forall|j: int| 0 <= j < i && is_of_at(chars@, j) ==> first == Some(j as usize),
        decreases n - i,
    {
        if chars[i] == 'O' && i + 1 < n && chars[i + 1] == 'f' {
            if first.is_none() {
                first = Some(i);
            } else if !more {
                more = true;
                proof {
                    other = i as int;
                }
            }
        }
        i += 1;
    }
    if more {
        assert forall|k: int| !splits_once_at(chars@, k) by {
            if is_of_at(chars@, k) {
                assert(is_of_at(chars@, other));
                assert(is_of_at(chars@, first.unwrap() as int));
            }
        }
        None
    } else {
        match first {
            Some(f) => {
                assert(splits_once_at(chars@, f as int));
                Some(f)
            },
            None => None,
        }
    }
}

/// The text that `{:?}` formatting writes for a string: the string in quotes,
/// with the characters that need it escaped.
pub uninterp spec fn spec_debug_text(text: Seq<char>) -> Seq<char>;

/// `format!("{:?}", text)` on a `&str`. The result depends on the characters
/// of `text` alone; `spec_debug_text` is the name for it.
#[verifier::external_body]
fn debug_text(text: &str) -> (quoted: String)
    ensures
        quoted@ == spec_debug_text(text@),
{
    format!("{:?}", text)
}

/// The message for a string that does not split into two tokens, given the
/// string in quotes.
pub open spec fn spec_split_failure_message(quoted_card: Seq<char>) -> Seq<char> {
    quoted_card + " is an invalid Card because it couldn't be split by 'Of'"@
}

/// The message for a rank token that names no rank, given the whole string
/// and the token in quotes.
pub open spec fn spec_rank_failure_message(quoted_card: Seq<char>, quoted_token: Seq<char>) -> Seq<
    char,
> {
    "Error Parsing ordinal in: "@ + quoted_card + ". "@ + quoted_token + " is invalid"@
}

/// The message for a suit token that names no suit, given the whole string
/// and the token in quotes.
pub open spec fn spec_suit_failure_message(quoted_card: Seq<char>, quoted_token: Seq<char>) -> Seq<
    char,
> {
    "Error Parsing suit in: "@ + quoted_card + ". "@ + quoted_token + " is invalid"@
}

/// The message for a string that does not split into two tokens.
pub fn split_failure_message(quoted_card: &str) -> (message: String)
    ensures
        message@ == spec_split_failure_message(quoted_card@),
{
    String::from_str(quoted_card).concat(" is an invalid Card because it couldn't be split by 'Of'")
}

/// The message for a rank token that names no rank.
pub fn rank_failure_message(quoted_card: &str, quoted_token: &str) -> (message: String)
    ensures
        message@ == spec_rank_failure_message(quoted_card@, quoted_token@),
{
    String::from_str("Error Parsing ordinal in: ").concat(quoted_card).concat(". ").concat(
        quoted_token,
    ).concat(" is invalid")
}

/// The message for a suit token that names no suit.
pub fn suit_failure_message(quoted_card: &str, quoted_token: &str) -> (message: String)
    ensures
        message@ == spec_suit_failure_message(quoted_card@, quoted_token@),
{
    String::from_str("Error Parsing suit in: ").concat(quoted_card).concat(". ").concat(
        quoted_token,
    ).concat(" is invalid")
}

impl Card {
    /// The card that `text` names: `text` must hold the separator `Of` exactly
    /// once, a rank's name before it and a suit's name behind it.
    pub open spec fn spec_from_string(text: Seq<char>) -> Option<Card> {
        match spec_split(text) {
            None => None,
            Some(i) => match (
                Rank::spec_from_name(text.subrange(0, i)),
                Suit::spec_from_name(text.subrange(i + 2, text.len() as int)),
            ) {
                (Some(rank), Some(suit)) => Some(Card { rank, suit }),
                _ => None,
            },
        }
    }

    /// What is wrong with a `text` that names no card. The first fault found
    /// is reported: the split, then the rank token, then the suit token.
    pub open spec fn spec_parse_error(text: Seq<char>) -> Seq<char> {
        match spec_split(text) {
            None => spec_split_failure_message(spec_debug_text(text)),
            Some(i) => if Rank::spec_from_name(text.subrange(0, i)) is None {
                spec_rank_failure_message(
                    spec_debug_text(text),
                    spec_debug_text(text.subrange(0, i)),
                )
            } else {
                spec_suit_failure_message(
                    spec_debug_text(text),
                    spec_debug_text(text.subrange(i + 2, text.len() as int)),
                )
            },
        }
    }

    /// Reads a card from its canonical name, such as `FiveOfHearts`.
    pub fn from_string(card_as_string: &str) -> (r: Result<Card, CribbageError>)
        ensures
            match r {
                Ok(card) => Card::spec_from_string(card_as_string@) == Some(card),
                Err(e) => {
                    &&& Card::spec_from_string(card_as_string@) is None
                    &&& e.error_kind == CribbageErrorKind::ParseError
                    &&& e.message@ == Card::spec_parse_error(card_as_string@)
                },
            },
    {
        let chars = to_chars(card_as_string);
        let len = chars.len();
        let at = match find_split(&chars) {
            Some(at) => at,
            None => {
                let quoted = debug_text(card_as_string);
                return Err(
                    CribbageError::new(
                        CribbageErrorKind::ParseError,
                        split_failure_message(quoted.as_str()),
                    ),
                );
            },
        };
        let rank_text = card_as_string.substring_char(0, at);
        let suit_text = card_as_string.substring_char(at + 2, len);
        let rank = match Rank::from_name(rank_text) {
            Some(rank) => rank,
            None => {
                let quoted = debug_text(card_as_string);
                let quoted_token = debug_text(rank_text);
                return Err(
                    CribbageError::new(
                        CribbageErrorKind::ParseError,
                        rank_failure_message(quoted.as_str(), quoted_token.as_str()),
                    ),
                );
            },
        };
        let suit = match Suit::from_name(suit_text) {
            Some(suit) => suit,
            None => {
                let quoted = debug_text(card_as_string);
                let quoted_token = debug_text(suit_text);
                return Err(
                    CribbageError::new(
                        CribbageErrorKind::ParseError,
                        suit_failure_message(quoted.as_str(), quoted_token.as_str()),
                    ),
                );
            },
        };
        Ok(Card::new(rank, suit))
    }
}

/// A rank's name names that rank and no other, and holds no capital `O`.
pub proof fn lemma_rank_names(rank: Rank)
    ensures
        Rank::spec_from_name(rank.spec_name()) == Some(rank),
        forall|j: int| 0 <= j < rank.spec_name().len() ==> rank.spec_name()[j] != 'O',
{
    reveal_strlit("Ace");
    reveal_strlit("Two");
    reveal_strlit("Three");
    reveal_strlit("Four");
    reveal_strlit("Five");
    reveal_strlit("Six");
    reveal_strlit("Seven");
    reveal_strlit("Eight");
    reveal_strlit("Nine");
    reveal_strlit("Ten");
    reveal_strlit("Jack");
    reveal_strlit("Queen");
    reveal_strlit("King");
    reveal_strlit("Unknown");
    assert("Ace"@[0] == 'A' && "Two"@[0] == 'T' && "Three"@[0] == 'T' && "Four"@[0] == 'F'
        && "Five"@[0] == 'F' && "Six"@[0] == 'S' && "Seven"@[0] == 'S' && "Eight"@[0] == 'E'
        && "Nine"@[0] == 'N' && "Ten"@[0] == 'T' && "Jack"@[0] == 'J' && "Queen"@[0] == 'Q'
        && "King"@[0] == 'K' && "Unknown"@[0] == 'U');
    assert("Two"@[1] == 'w' && "Three"@[1] == 'h' && "Ten"@[1] == 'e' && "Four"@[1] == 'o'
        && "Five"@[1] == 'i' && "Six"@[1] == 'i' && "Seven"@[1] == 'e');
}

/// A suit's name names that suit and no other, and holds no capital `O`.
pub proof fn lemma_suit_names(suit: Suit)
    ensures
        Suit::spec_from_name(suit.spec_name()) == Some(suit),
        forall|j: int| 0 <= j < suit.spec_name().len() ==> suit.spec_name()[j] != 'O',
{
    reveal_strlit("Clubs");
    reveal_strlit("Diamonds");
    reveal_strlit("Hearts");
    reveal_strlit("Spades");
    reveal_strlit("Unknown");
    assert("Clubs"@[0] == 'C' && "Diamonds"@[0] == 'D' && "Hearts"@[0] == 'H' && "Spades"@[0]
        == 'S' && "Unknown"@[0] == 'U');
}

/// Reading a card's name gives the card back: for every card that can be
/// built, `from_string` of its `name` is that card.
pub proof fn lemma_name_round_trip(card: Card)
    ensures
        Card::spec_from_string(card.spec_name()) == Some(card),
{
    reveal_strlit("Of");
    lemma_rank_names(card.rank);
    lemma_suit_names(card.suit);
    let rank_name = card.rank.spec_name();
    let suit_name = card.suit.spec_name();
    let name = card.spec_name();
    let at = rank_name.len() as int;
    assert(name.len() == rank_name.len() + 2 + suit_name.len());
    assert(name[at] == 'O' && name[at + 1] == 'f');
    assert forall|j: int| is_of_at(name, j) implies j == at by {
        if j < at {
            assert(name[j] == rank_name[j]);
        } else if j == at + 1 {
        } else if j > at + 1 {
            assert(name[j] == suit_name[j - at - 2]);
        }
    }
    assert(splits_once_at(name, at));
    assert(name.subrange(0, at) =~= rank_name);
    assert(name.subrange(at + 2, name.len() as int) =~= suit_name);
}

/// Only a card's own name reads as that card.
pub proof fn lemma_from_string_is_name(text: Seq<char>, card: Card)
    requires
        Card::spec_from_string(text) == Some(card),
    ensures
        text == card.spec_name(),
{
    reveal_strlit("Of");
    let at = spec_split(text).unwrap();
    assert(splits_once_at(text, at));
    let rank_text = text.subrange(0, at);
    let suit_text = text.subrange(at + 2, text.len() as int);
    assert(rank_text == card.rank.spec_name());
    assert(suit_text == card.suit.spec_name());
    assert(text =~= rank_text + "Of"@ + suit_text);
}

/// Every place of the deck holds a deck card, and no two places hold the same
/// one.
pub proof fn lemma_from_index_injective(i: int, j: int)
    requires
        0 <= i < 52,
        0 <= j < 52,
    ensures
        Card::spec_from_index(i).in_deck(),
        Card::spec_from_index(i).spec_index() == i,
        Card::spec_from_index(i) == Card::spec_from_index(j) ==> i == j,
{
}

/// Every deck card has its place in the deck: the places 0 to 51 and the 52
/// deck cards correspond one to one.
pub proof fn lemma_from_index_surjective(card: Card)
    requires
        card.in_deck(),
    ensures
        0 <= card.spec_index() < 52,
        Card::spec_from_index(card.spec_index()) == card,
{
}

} // verus!
