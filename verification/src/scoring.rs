//! Scoring of a cribbage hand: the combinations that score, how a larger
//! combination replaces the smaller ones it contains, and the total.

use crate::cards::{Card, Rank, Suit};
use crate::combinator::{all_combinations_of_min_size, spec_combinations};
use crate::sorting::{count_up_to, sort_cards, spec_count, spec_sort};
use vstd::prelude::*;

verus! {

/// The ways in which cards score.
#[derive(Copy, Clone, Debug, Eq, PartialEq, PartialOrd, Ord, Structural)]
pub enum CombinationKind {
    Nob,
    Fifteen,
    RankMatch,
    Run,
    SuitMatch,
    ThirtyOne,
}

/// The names of the scoring combinations; for some kinds the name depends on
/// how many cards take part.
#[derive(Copy, Clone, Debug, Eq, PartialEq, PartialOrd, Ord, Structural)]
pub enum CombinationName {
    Nob,
    Fifteen,
    Pair,
    RunOfThree,
    RunOfFour,
    FlushOfFour,
    RunOfFive,
    FlushOfFive,
    RoyalPair,
    DoubleRoyalPair,
    RunOfSix,
    RunOfSeven,
    ThirtyOne,
}

/// One scoring combination of cards.
#[derive(Debug)]
pub struct Combination {
    pub kind: CombinationKind,
    pub name: CombinationName,
    pub cards: Vec<Card>,
    /// The rank that the cards of a `RankMatch` share, else `Unknown`.
    pub rank_info: Rank,
    /// The suit that the cards of a `SuitMatch` share, else `Unknown`.
    pub suit_info: Suit,
    pub points: u32,
}

/// A combination as a mathematical value.
pub struct CombinationView {
    pub kind: CombinationKind,
    pub name: CombinationName,
    pub cards: Seq<Card>,
    pub rank_info: Rank,
    pub suit_info: Suit,
    pub points: nat,
}

impl View for Combination {
    type V = CombinationView;

    open spec fn view(&self) -> CombinationView {
        CombinationView {
            kind: self.kind,
            name: self.name,
            cards: self.cards@,
            rank_info: self.rank_info,
            suit_info: self.suit_info,
            points: self.points as nat,
        }
    }
}

/// The scoring combinations found so far, in the order in which they were
/// found, and the sum of their points.
#[derive(Debug)]
pub struct Score {
    pub combinations: Vec<Combination>,
    pub total_score: u32,
}

impl View for Score {
    type V = Seq<CombinationView>;

    /// The combinations, as mathematical values.
    open spec fn view(&self) -> Seq<CombinationView> {
        self.combinations@.map_values(|c: Combination| c@)
    }
}

/// Whether a combination of this kind can hold `count` cards.
pub open spec fn spec_valid_count(kind: CombinationKind, count: nat) -> bool {
    match kind {
        CombinationKind::RankMatch => 2 <= count <= 4,
        CombinationKind::Run => 3 <= count <= 7,
        CombinationKind::SuitMatch => 4 <= count <= 5,
        _ => true,
    }
}

/// The name of a combination of `count` cards of this kind.
pub open spec fn spec_name(kind: CombinationKind, count: nat) -> CombinationName
    recommends
        spec_valid_count(kind, count),
{
    match kind {
        CombinationKind::Nob => CombinationName::Nob,
        CombinationKind::Fifteen => CombinationName::Fifteen,
        CombinationKind::ThirtyOne => CombinationName::ThirtyOne,
        CombinationKind::RankMatch => if count == 2 {
            CombinationName::Pair
        } else if count == 3 {
            CombinationName::RoyalPair
        } else {
            CombinationName::DoubleRoyalPair
        },
        CombinationKind::Run => if count == 3 {
            CombinationName::RunOfThree
        } else if count == 4 {
            CombinationName::RunOfFour
        } else if count == 5 {
            CombinationName::RunOfFive
        } else if count == 6 {
            CombinationName::RunOfSix
        } else {
            CombinationName::RunOfSeven
        },
        CombinationKind::SuitMatch => if count == 4 {
            CombinationName::FlushOfFour
        } else {
            CombinationName::FlushOfFive
        },
    }
}

/// The points that a combination of this name scores.
pub open spec fn spec_points(name: CombinationName) -> nat {
    match name {
        CombinationName::Nob => 1,
        CombinationName::Fifteen => 2,
        CombinationName::Pair => 2,
        CombinationName::RunOfThree => 3,
        CombinationName::RunOfFour => 4,
        CombinationName::FlushOfFour => 4,
        CombinationName::RunOfFive => 5,
        CombinationName::FlushOfFive => 5,
        CombinationName::RoyalPair => 6,
        CombinationName::DoubleRoyalPair => 12,
        CombinationName::RunOfSix => 6,
        CombinationName::RunOfSeven => 7,
        CombinationName::ThirtyOne => 2,
    }
}

/// The combination of the given kind that `cards` make.
pub open spec fn spec_new(kind: CombinationKind, cards: Seq<Card>) -> CombinationView
    recommends
        spec_valid_count(kind, cards.len()),
{
    CombinationView {
        kind,
        name: spec_name(kind, cards.len()),
        cards,
        rank_info: if kind == CombinationKind::RankMatch {
            cards[0].rank
        } else {
            Rank::Unknown
        },
        suit_info: if kind == CombinationKind::SuitMatch {
            cards[0].suit
        } else {
            Suit::Unknown
        },
        points: spec_points(spec_name(kind, cards.len())),
    }
}

impl Combination {
    /// The combination of the given kind that `cards` make. The kind decides
    /// how many cards there may be: two to four of one rank, three to seven
    /// in a run, four or five of one suit.
    pub fn new(kind: CombinationKind, cards: Vec<Card>) -> (combination: Combination)
        requires
            spec_valid_count(kind, cards@.len()),
        ensures
            combination@ == spec_new(kind, cards@),
    {
        let name = Combination::name(kind, cards.len());
        let points = Combination::points(name);
        let rank = match kind {
            CombinationKind::RankMatch => cards[0].rank,
            _ => Rank::Unknown,
        };
        let suit = match kind {
            CombinationKind::SuitMatch => cards[0].suit,
            _ => Suit::Unknown,
        };
        Combination { kind, name, cards, rank_info: rank, suit_info: suit, points }
    }

    /// The one place where kinds and card counts are mapped to names.
    pub fn name(kind: CombinationKind, count: usize) -> (name: CombinationName)
        requires
            spec_valid_count(kind, count as nat),
        ensures
            name == spec_name(kind, count as nat),
    {
        match kind {
            CombinationKind::Nob => CombinationName::Nob,
            CombinationKind::Fifteen => CombinationName::Fifteen,
            CombinationKind::RankMatch => if count == 2 {
                CombinationName::Pair
            } else if count == 3 {
                CombinationName::RoyalPair
            } else {
                CombinationName::DoubleRoyalPair
            },
            CombinationKind::Run => if count == 3 {
                CombinationName::RunOfThree
            } else if count == 4 {
                CombinationName::RunOfFour
            } else if count == 5 {
                CombinationName::RunOfFive
            } else if count == 6 {
                CombinationName::RunOfSix
            } else {
                CombinationName::RunOfSeven
            },
            CombinationKind::SuitMatch => if count == 4 {
                CombinationName::FlushOfFour
            } else {
                CombinationName::FlushOfFive
            },
            CombinationKind::ThirtyOne => CombinationName::ThirtyOne,
        }
    }

    /// The one place where names are mapped to points.
    pub fn points(name: CombinationName) -> (points: u32)
        ensures
            points == spec_points(name),
            1 <= points <= 12,
    {
        match name {
            CombinationName::Nob => 1,
            CombinationName::Fifteen => 2,
            CombinationName::Pair => 2,
            CombinationName::RunOfThree => 3,
            CombinationName::RunOfFour => 4,
            CombinationName::FlushOfFour => 4,
            CombinationName::RunOfFive => 5,
            CombinationName::FlushOfFive => 5,
            CombinationName::RoyalPair => 6,
            CombinationName::DoubleRoyalPair => 12,
            CombinationName::RunOfSix => 6,
            CombinationName::RunOfSeven => 7,
            CombinationName::ThirtyOne => 2,
        }
    }
}

impl Clone for Combination {
    fn clone(&self) -> (copy: Combination)
        ensures
            copy@ == self@,
    {
        Combination {
            kind: self.kind,
            name: self.name,
            cards: self.cards.clone(),
            rank_info: self.rank_info,
            suit_info: self.suit_info,
            points: self.points,
        }
    }
}

/// Whether a combination `held` in a score stays when `added` arrives.
/// Combinations of another kind always stay. Of the same kind: a rank match
/// of the same rank stays if it scores at least as much; a run stays if it
/// scores at least as much; a flush stays only if it scores more.
pub open spec fn spec_stays(held: CombinationView, added: CombinationView) -> bool {
    held.kind != added.kind || match added.kind {
        CombinationKind::RankMatch => held.rank_info != added.rank_info || held.points
            >= added.points,
        CombinationKind::Run => held.points >= added.points,
        CombinationKind::SuitMatch => held.points > added.points,
        _ => true,
    }
}

/// Whether a combination `held` in a score makes `added` redundant: it is of
/// the same kind and, for a rank match, of the same rank and scores at least
/// as much; for a run or a flush, scores more.
pub open spec fn spec_absorbs(held: CombinationView, added: CombinationView) -> bool {
    held.kind == added.kind && match added.kind {
        CombinationKind::RankMatch => held.rank_info == added.rank_info && held.points
            >= added.points,
        CombinationKind::Run => held.points > added.points,
        CombinationKind::SuitMatch => held.points > added.points,
        _ => false,
    }
}

/// The combinations of `held` that stay when `added` arrives, in order.
pub open spec fn spec_kept(held: Seq<CombinationView>, added: CombinationView) -> Seq<
    CombinationView,
>
    decreases held.len(),
{
    if held.len() == 0 {
        Seq::empty()
    } else if spec_stays(held.last(), added) {
        spec_kept(held.drop_last(), added).push(held.last())
    } else {
        spec_kept(held.drop_last(), added)
    }
}

/// Whether some combination of `held` makes `added` redundant.
pub open spec fn spec_absorbed(held: Seq<CombinationView>, added: CombinationView) -> bool {
    exists|i: int| 0 <= i < held.len() && spec_absorbs(#[trigger] held[i], added)
}

/// The score after `added` has arrived: the combinations that stay, and
/// `added` at the end unless one of them made it redundant.
pub open spec fn spec_add(held: Seq<CombinationView>, added: CombinationView) -> Seq<
    CombinationView,
> {
    if spec_absorbed(held, added) {
        spec_kept(held, added)
    } else {
        spec_kept(held, added).push(added)
    }
}

/// The score after all of `added` have arrived, one after the other.
pub open spec fn spec_tally(held: Seq<CombinationView>, added: Seq<CombinationView>) -> Seq<
    CombinationView,
>
    decreases added.len(),
{
    if added.len() == 0 {
        held
    } else {
        spec_add(spec_tally(held, added.drop_last()), added.last())
    }
}

/// The sum of the points of `combinations`.
pub open spec fn spec_total(combinations: Seq<CombinationView>) -> nat
    decreases combinations.len(),
{
    if combinations.len() == 0 {
        0
    } else {
        spec_total(combinations.drop_last()) + combinations.last().points
    }
}

/// The views of a list of combinations.
pub open spec fn spec_views(combinations: Seq<Combination>) -> Seq<CombinationView> {
    combinations.map_values(|c: Combination| c@)
}

/// The sum of the points of `combinations`, where it fits.
pub fn total_points(combinations: &Vec<Combination>) -> (total: u32)
    requires
        spec_total(spec_views(combinations@)) <= u32::MAX,
    ensures
        total == spec_total(spec_views(combinations@)),
{
    let n = combinations.len();
    let mut total: u32 = 0;
    let mut i: usize = 0;
    let ghost views = spec_views(combinations@);
    proof {
        assert(views.take(0) =~= Seq::<CombinationView>::empty());
        lemma_total_prefix(views, n as int);
    }
    while i < n
        invariant
            i <= n,
            n == combinations@.len(),
            views == spec_views(combinations@),
            total == spec_total(views.take(i as int)),
            spec_total(views) <= u32::MAX,
        decreases n - i,
    {
        proof {
            assert(views.take(i + 1).drop_last() =~= views.take(i as int));
            assert(views.take(i + 1).last() == combinations@[i as int]@);
            lemma_total_prefix(views, i + 1);
        }
        total = total + combinations[i].points;
        i += 1;
    }
    proof {
        assert(views.take(n as int) =~= views);
    }
    total
}

/// The points of the first `n` combinations are part of the total.
pub proof fn lemma_total_prefix(combinations: Seq<CombinationView>, n: int)
    requires
        0 <= n <= combinations.len(),
    ensures
        spec_total(combinations.take(n)) <= spec_total(combinations),
    decreases combinations.len(),
{
    if n == combinations.len() {
        assert(combinations.take(n) =~= combinations);
    } else {
        lemma_total_prefix(combinations.drop_last(), n);
        assert(combinations.drop_last().take(n) =~= combinations.take(n));
    }
}

impl Score {
    /// The empty score.
    pub fn new() -> (score: Score)
        ensures
            score@ == Seq::<CombinationView>::empty(),
            score.total_score == 0,
    {
        let score = Score { combinations: Vec::new(), total_score: 0 };
        assert(score@ =~= Seq::<CombinationView>::empty());
        score
    }

    /// The sum of the points of the combinations.
    pub fn points(self) -> (points: u32)
        requires
            spec_total(self@) <= u32::MAX,
        ensures
            points == spec_total(self@),
    {
        total_points(&self.combinations)
    }

    /// Adds `combi` to the score, unless a combination that is already there
    /// makes it redundant; combinations that `combi` outdoes leave.
    /// `total_score` is left as it was.
    pub fn add_combination(&mut self, combi: Combination)
        ensures
            final(self)@ == spec_add(old(self)@, combi@),
            final(self).total_score == old(self).total_score,
    {
        let mut held: Vec<Combination> = Vec::new();
        core::mem::swap(&mut self.combinations, &mut held);
        let ghost before = spec_views(held@);
        let n = held.len();
        let mut kept: Vec<Combination> = Vec::new();
        let mut absorbed = false;
        let mut i: usize = 0;
        proof {
            assert(before.take(0) =~= Seq::<CombinationView>::empty());
        }
        while i < n
            invariant
                i <= n,
                n == held@.len(),
                before == spec_views(held@),
                spec_views(kept@) == spec_kept(before.take(i as int), combi@),
                absorbed == spec_absorbed(before.take(i as int), combi@),
            decreases n - i,
        {
            proof {
                let soon = before.take(i + 1);
                assert(soon.drop_last() =~= before.take(i as int));
                assert(soon.last() == held@[i as int]@);
                if spec_absorbed(before.take(i as int), combi@) {
                    let k = choose|k: int|
                        0 <= k < i && spec_absorbs(#[trigger] before.take(i as int)[k], combi@);
                    assert(spec_absorbs(soon[k], combi@));
                }
                if spec_absorbed(soon, combi@) && !spec_absorbs(soon.last(), combi@) {
                    let k = choose|k: int| 0 <= k < i + 1 && spec_absorbs(#[trigger] soon[k], combi@);
                    assert(spec_absorbs(before.take(i as int)[k], combi@));
                }
            }
            let c = &held[i];
            let same_kind = c.kind == combi.kind;
            let stays = !same_kind || match combi.kind {
                CombinationKind::RankMatch => c.rank_info != combi.rank_info || c.points
                    >= combi.points,
                CombinationKind::Run => c.points >= combi.points,
                CombinationKind::SuitMatch => c.points > combi.points,
                _ => true,
            };
            let absorbs = same_kind && match combi.kind {
                CombinationKind::RankMatch => c.rank_info == combi.rank_info && c.points
                    >= combi.points,
                CombinationKind::Run => c.points > combi.points,
                CombinationKind::SuitMatch => c.points > combi.points,
                _ => false,
            };
            if absorbs {
                absorbed = true;
            }
            if stays {
                let copy = c.clone();
                proof {
                    assert(spec_views(kept@.push(copy)) =~= spec_views(kept@).push(copy@));
                }
                kept.push(copy);
            }
            i += 1;
        }
        proof {
            assert(before.take(n as int) =~= before);
        }
        if !absorbed {
            proof {
                assert(spec_views(kept@.push(combi)) =~= spec_views(kept@).push(combi@));
            }
            kept.push(combi);
        }
        self.combinations = kept;
    }

    /// Adds the combinations of `combis` to the score one at a time, so that
    /// each may replace, or be made redundant by, what is already there, and
    /// brings `total_score` up to date.
    pub fn tally(&mut self, combis: Vec<Combination>) -> (score: &mut Self)
        requires
            spec_total(spec_tally(old(self)@, spec_views(combis@))) <= u32::MAX,
        ensures
            score@ == spec_tally(old(self)@, spec_views(combis@)),
            score.total_score == spec_total(score@),
            *final(self) == *final(score),
    {
        let n = combis.len();
        let ghost added = spec_views(combis@);
        let mut i: usize = 0;
        proof {
            assert(added.take(0) =~= Seq::<CombinationView>::empty());
        }
        while i < n
            invariant
                i <= n,
                n == combis@.len(),
                added == spec_views(combis@),
                self@ == spec_tally(old(self)@, added.take(i as int)),
            decreases n - i,
        {
            proof {
                assert(added.take(i + 1).drop_last() =~= added.take(i as int));
                assert(added.take(i + 1).last() == combis@[i as int]@);
            }
            let c = combis[i].clone();
            self.add_combination(c);
            i += 1;
        }
        proof {
            assert(added.take(n as int) =~= added);
        }
        self.total_score = total_points(&self.combinations);
        self
    }
}

/// Whether the count values of `cards` sum to 15.
pub open spec fn spec_is_fifteen(cards: Seq<Card>) -> bool {
    spec_count(cards) == 15
}

/// Whether `cards` are two or more cards of one rank.
pub open spec fn spec_is_rank_match(cards: Seq<Card>) -> bool {
    cards.len() >= 2 && forall|i: int| 0 <= i < cards.len() ==> (#[trigger] cards[i]).rank == cards[0].rank
}

/// Whether `cards` are three or more cards whose ranks follow one another,
/// each one above the card before. A card without a rank is part of no run.
pub open spec fn spec_is_run(cards: Seq<Card>) -> bool {
    cards.len() >= 3 && forall|i: int|
        0 <= i < cards.len() ==> (#[trigger] cards[i]).rank != Rank::Unknown
            && cards[i].rank.spec_ordinal() == cards[0].rank.spec_ordinal() + i
}

/// Whether `cards` are a flush: four or more cards of one suit, and in a crib
/// more than four.
pub open spec fn spec_is_flush(cards: Seq<Card>, is_crib: bool) -> bool {
    cards.len() >= 4 && !(cards.len() == 4 && is_crib) && forall|i: int|
        0 <= i < cards.len() ==> (#[trigger] cards[i]).suit == cards[0].suit
}

/// The combination of the given kind that `cards` make, if `found`.
pub open spec fn spec_found(found: bool, kind: CombinationKind, cards: Seq<Card>) -> Seq<
    CombinationView,
> {
    if found {
        seq![spec_new(kind, cards)]
    } else {
        Seq::empty()
    }
}

/// The combinations that `cards`, taken all together, make: a fifteen, a rank
/// match, a run, a flush, in this order, as far as they are there.
pub open spec fn spec_score(cards: Seq<Card>, is_crib: bool) -> Seq<CombinationView> {
    spec_found(spec_is_fifteen(cards), CombinationKind::Fifteen, cards) + spec_found(
        spec_is_rank_match(cards),
        CombinationKind::RankMatch,
        cards,
    ) + spec_found(spec_is_run(cards), CombinationKind::Run, cards) + spec_found(
        spec_is_flush(cards, is_crib),
        CombinationKind::SuitMatch,
        cards,
    )
}

/// Whether every combination that `cards` make has a name: at most four
/// cards of one rank, seven in a run, five in a flush, and at least one card.
pub open spec fn spec_scorable(cards: Seq<Card>, is_crib: bool) -> bool {
    &&& cards.len() > 0
    &&& spec_is_rank_match(cards) ==> cards.len() <= 4
    &&& spec_is_run(cards) ==> cards.len() <= 7
    &&& spec_is_flush(cards, is_crib) ==> cards.len() <= 5
}

/// A `Fifteen`, if the count values of `cards` sum to 15.
pub fn score_fifteen(cards: Vec<Card>) -> (found: Option<Combination>)
    ensures
        found is Some <==> spec_is_fifteen(cards@),
        found matches Some(c) ==> c@ == spec_new(CombinationKind::Fifteen, cards@),
{
    if count_up_to(cards.as_slice(), 15) == 15 {
        Some(Combination::new(CombinationKind::Fifteen, cards))
    } else {
        None
    }
}

/// A `RankMatch`, if `cards` are two or more cards of one rank.
pub fn score_pair(cards: Vec<Card>) -> (found: Option<Combination>)
    requires
        spec_is_rank_match(cards@) ==> cards@.len() <= 4,
    ensures
        found is Some <==> spec_is_rank_match(cards@),
        found matches Some(c) ==> c@ == spec_new(CombinationKind::RankMatch, cards@),
{
    let len = cards.len();
    if len < 2 {
        return None;
    }
    let rank = cards[0].rank;
    let mut i: usize = 0;
    while i < len
        invariant
            i <= len,
            len == cards@.len(),
            rank == cards@[0].rank,
            forall|j: int| 0 <= j < i ==> (#[trigger] cards@[j]).rank == rank,
        decreases len - i,
    {
        if cards[i].rank != rank {
            return None;
        }
        i += 1;
    }
    Some(Combination::new(CombinationKind::RankMatch, cards))
}

/// A `Run`, if `cards` are three or more cards whose ranks follow one
/// another in the order given.
pub fn score_run(cards: Vec<Card>) -> (found: Option<Combination>)
    requires
        spec_is_run(cards@) ==> cards@.len() <= 7,
    ensures
        found is Some <==> spec_is_run(cards@),
        found matches Some(c) ==> c@ == spec_new(CombinationKind::Run, cards@),
{
    let len = cards.len();
    if len < 3 {
        return None;
    }
    let first: usize = cards[0].rank.ordinal() as usize;
    let mut i: usize = 0;
    while i < len
        invariant
            i <= len,
            len == cards@.len(),
            first == cards@[0].rank.spec_ordinal(),
            forall|j: int|
                0 <= j < i ==> (#[trigger] cards@[j]).rank != Rank::Unknown
                    && cards@[j].rank.spec_ordinal() == first + j,
        decreases len - i,
    {
        proof {
            if i > 0 {
                assert(cards@[i - 1].rank.spec_ordinal() == first + i - 1);
            }
        }
        if cards[i].rank == Rank::Unknown || cards[i].rank.ordinal() as usize != first + i {
            return None;
        }
        i += 1;
    }
    Some(Combination::new(CombinationKind::Run, cards))
}

/// A `SuitMatch`, if `cards` are four or more cards of one suit; in a crib
/// four are not enough.
pub fn score_flush(cards: Vec<Card>, is_crib: bool) -> (found: Option<Combination>)
    requires
        cards@.len() > 0,
        spec_is_flush(cards@, is_crib) ==> cards@.len() <= 5,
    ensures
        found is Some <==> spec_is_flush(cards@, is_crib),
        found matches Some(c) ==> c@ == spec_new(CombinationKind::SuitMatch, cards@),
{
    let len = cards.len();
    if len <= 3 || (len == 4 && is_crib) {
        return None;
    }
    let suit = cards[0].suit;
    let mut i: usize = 0;
    while i < len
        invariant
            i <= len,
            len == cards@.len(),
            suit == cards@[0].suit,
            forall|j: int| 0 <= j < i ==> (#[trigger] cards@[j]).suit == suit,
        decreases len - i,
    {
        if cards[i].suit != suit {
            return None;
        }
        i += 1;
    }
    Some(Combination::new(CombinationKind::SuitMatch, cards))
}

/// Holds `cards` against each of the hand scoring combinations and returns
/// all that they make, or `None` where they make none.
pub fn score(cards: Vec<Card>, is_crib: bool) -> (found: Option<Vec<Combination>>)
    requires
        spec_scorable(cards@, is_crib),
    ensures
        match found {
            Some(combis) => combis@.len() > 0 && spec_views(combis@) == spec_score(
                cards@,
                is_crib,
            ),
            None => spec_score(cards@, is_crib).len() == 0,
        },
{
    let mut combis: Vec<Combination> = Vec::new();
    let ghost empty = Seq::<CombinationView>::empty();
    assert(spec_views(combis@) =~= empty);
    if let Some(c) = score_fifteen(cards.clone()) {
        proof {
            assert(spec_views(combis@.push(c)) =~= spec_views(combis@).push(c@));
        }
        combis.push(c);
    }
    assert(spec_views(combis@) =~= spec_found(
        spec_is_fifteen(cards@),
        CombinationKind::Fifteen,
        cards@,
    ));
    let ghost one = spec_views(combis@);
    if let Some(c) = score_pair(cards.clone()) {
        proof {
            assert(spec_views(combis@.push(c)) =~= spec_views(combis@).push(c@));
        }
        combis.push(c);
    }
    assert(spec_views(combis@) =~= one + spec_found(
        spec_is_rank_match(cards@),
        CombinationKind::RankMatch,
        cards@,
    ));
    let ghost two = spec_views(combis@);
    if let Some(c) = score_run(cards.clone()) {
        proof {
            assert(spec_views(combis@.push(c)) =~= spec_views(combis@).push(c@));
        }
        combis.push(c);
    }
    assert(spec_views(combis@) =~= two + spec_found(
        spec_is_run(cards@),
        CombinationKind::Run,
        cards@,
    ));
    let ghost three = spec_views(combis@);
    if let Some(c) = score_flush(cards, is_crib) {
        proof {
            assert(spec_views(combis@.push(c)) =~= spec_views(combis@).push(c@));
        }
        combis.push(c);
    }
    assert(spec_views(combis@) =~= three + spec_found(
        spec_is_flush(cards@, is_crib),
        CombinationKind::SuitMatch,
        cards@,
    ));
    if combis.len() == 0 {
        None
    } else {
        Some(combis)
    }
}

/// His nobs: the first Jack of `hand` that has the suit of `starter`, with
/// the starter, as a combination; nothing where there is no such Jack.
pub open spec fn spec_nob(hand: Seq<Card>, starter: Card) -> Seq<CombinationView>
    decreases hand.len(),
{
    if hand.len() == 0 {
        Seq::empty()
    } else if hand[0].rank == Rank::Jack && hand[0].suit == starter.suit {
        seq![spec_new(CombinationKind::Nob, seq![hand[0], starter])]
    } else {
        spec_nob(hand.drop_first(), starter)
    }
}

/// A Nob is scored if a Jack in the `hand` has the suit of the `starter`.
/// The result is the empty score, or a score of the one `Nob`.
pub fn nob_score(hand: Vec<Card>, starter: Card) -> (score: Score)
    ensures
        score@ == spec_nob(hand@, starter),
        score.total_score == spec_total(score@),
{
    let mut score = Score::new();
    let n = hand.len();
    let mut i: usize = 0;
    assert(hand@.subrange(0, n as int) =~= hand@);
    assert(spec_total(Seq::<CombinationView>::empty()) == 0);
    while i < n
        invariant
            i <= n,
            n == hand@.len(),
            score@ == Seq::<CombinationView>::empty(),
            score.total_score == 0,
            spec_nob(hand@, starter) == spec_nob(hand@.subrange(i as int, n as int), starter),
        decreases n - i,
    {
        let c = hand[i];
        proof {
            let tail = hand@.subrange(i as int, n as int);
            assert(tail[0] == c);
            assert(tail.drop_first() =~= hand@.subrange(i + 1, n as int));
        }
        if c.rank == Rank::Jack && c.suit == starter.suit {
            let mut pair: Vec<Card> = Vec::new();
            pair.push(c);
            pair.push(starter);
            assert(pair@ =~= seq![c, starter]);
            let nob = Combination::new(CombinationKind::Nob, pair);
            let mut nobs: Vec<Combination> = Vec::new();
            nobs.push(nob);
            proof {
                let found = seq![nob@];
                assert(spec_views(nobs@) =~= found);
                assert(found.drop_last() =~= Seq::<CombinationView>::empty());
                assert(spec_tally(score@, found.drop_last()) == score@);
                assert(!spec_absorbed(score@, nob@));
                assert(spec_kept(score@, nob@) =~= score@);
                assert(spec_tally(score@, found) =~= found);
                assert(spec_total(found.drop_last()) == 0);
                assert(spec_total(found) == 1);
            }
            score.tally(nobs);
            return score;
        }
        i += 1;
    }
    score
}

/// The score after the combinations of each of `subsets` have arrived, one
/// subset after the other.
pub open spec fn spec_tally_all(
    held: Seq<CombinationView>,
    subsets: Seq<Seq<Card>>,
    is_crib: bool,
) -> Seq<CombinationView>
    decreases subsets.len(),
{
    if subsets.len() == 0 {
        held
    } else {
        spec_tally(
            spec_tally_all(held, subsets.drop_last(), is_crib),
            spec_score(subsets.last(), is_crib),
        )
    }
}

/// The cards that are scored together: the hand and the starter, if there is
/// one, sorted.
pub open spec fn spec_working_set(hand: Seq<Card>, starter: Option<Card>) -> Seq<Card> {
    match starter {
        Some(card) => spec_sort(hand.push(card)),
        None => spec_sort(hand),
    }
}

/// The combinations that a hand scores: his nobs first, then what each
/// subset of two or more cards of the sorted working set makes, tallied
/// subset by subset in the order of the inclusion masks.
pub open spec fn spec_score_hand(hand: Seq<Card>, starter: Option<Card>, is_crib: bool) -> Seq<
    CombinationView,
> {
    let cards = spec_working_set(hand, starter);
    spec_tally_all(
        match starter {
            Some(card) => spec_nob(hand, card),
            None => Seq::empty(),
        },
        spec_combinations(cards, 2, cards.len()),
        is_crib,
    )
}

/// Whether no combination of the list scores more than twelve points.
pub open spec fn spec_bounded(combinations: Seq<CombinationView>) -> bool {
    forall|i: int| 0 <= i < combinations.len() ==> (#[trigger] combinations[i]).points <= 12
}

/// What stays of a list is no longer than the list and scores no more per
/// combination.
pub proof fn lemma_kept_bounds(held: Seq<CombinationView>, added: CombinationView)
    ensures
        spec_kept(held, added).len() <= held.len(),
        spec_bounded(held) ==> spec_bounded(spec_kept(held, added)),
    decreases held.len(),
{
    if held.len() > 0 {
        lemma_kept_bounds(held.drop_last(), added);
        if spec_bounded(held) {
            assert forall|i: int| 0 <= i < held.drop_last().len() implies (
            #[trigger] held.drop_last()[i]).points <= 12 by {
                assert(held[i].points <= 12);
            }
            assert(held.last().points <= 12);
        }
    }
}

/// A tally adds at most one combination for each that arrives, and none that
/// scores more than twelve where none did before.
pub proof fn lemma_tally_bounds(held: Seq<CombinationView>, added: Seq<CombinationView>)
    ensures
        spec_tally(held, added).len() <= held.len() + added.len(),
        spec_bounded(held) && spec_bounded(added) ==> spec_bounded(spec_tally(held, added)),
    decreases added.len(),
{
    if added.len() > 0 {
        lemma_tally_bounds(held, added.drop_last());
        lemma_kept_bounds(spec_tally(held, added.drop_last()), added.last());
        if spec_bounded(held) && spec_bounded(added) {
            assert forall|i: int| 0 <= i < added.drop_last().len() implies (
            #[trigger] added.drop_last()[i]).points <= 12 by {
                assert(added[i].points <= 12);
            }
            assert(added.last().points <= 12);
        }
    }
}

/// A list of combinations of at most twelve points each totals at most
/// twelve times its length.
pub proof fn lemma_total_bound(combinations: Seq<CombinationView>)
    requires
        spec_bounded(combinations),
    ensures
        spec_total(combinations) <= 12 * combinations.len(),
    decreases combinations.len(),
{
    if combinations.len() > 0 {
        assert forall|i: int| 0 <= i < combinations.drop_last().len() implies (
        #[trigger] combinations.drop_last()[i]).points <= 12 by {
            assert(combinations[i].points <= 12);
        }
        lemma_total_bound(combinations.drop_last());
        assert(combinations.last().points <= 12);
    }
}

/// What a list of cards makes scores at most twelve points per combination,
/// in at most four combinations.
pub proof fn lemma_score_bounds(cards: Seq<Card>, is_crib: bool)
    ensures
        spec_score(cards, is_crib).len() <= 4,
        spec_bounded(spec_score(cards, is_crib)),
{
}

/// Calculates the score for a `hand` of four cards and the `starter`, or for
/// the hand alone where no starter is given: the combinations in the order
/// in which they are found, and the total, which does not depend on that
/// order.
///
/// With a starter, the five cards must not all be of one rank (no deck holds
/// five such cards).
pub fn score_hand(hand: Vec<Card>, starter: Option<Card>, is_crib: bool) -> (score: Score)
    requires
        hand@.len() == 4,
        starter matches Some(card) ==> !spec_is_rank_match(hand@.push(card)),
    ensures
        score@ == spec_score_hand(hand@, starter, is_crib),
        score.total_score == spec_total(score@),
        score.total_score == crate::score_total::spec_hand_total(hand@, starter, is_crib),
{
    let mut vector = hand.clone();
    let mut s = Score::new();
    if let Some(starter) = starter {
        vector.push(starter);
        s = nob_score(hand, starter);
    }
    let ghost unsorted = vector@;
    sort_cards(&mut vector);
    let ghost cards = vector@;
    let ghost all = spec_combinations(cards, 2, cards.len());
    let ghost nobs = s@;
    proof {
        crate::sorting::lemma_sort_ensures(unsorted);
        vstd::arithmetic::power2::lemma2_to64();
        assert(spec_total(Seq::<CombinationView>::empty()) == 0);
        assert(all.take(0) =~= Seq::<Seq<Card>>::empty());
        if all.len() > 0 {
            crate::combinator::lemma_combinations(cards, 2, cards.len(), 0);
        }
        assert(all.len() < 32);
        if cards.len() == 5 && spec_is_rank_match(cards) {
            lemma_rank_match_same_cards(cards, unsorted);
        }
        assert(nobs.len() <= 1 && spec_bounded(nobs)) by {
            if starter is Some {
                lemma_nob_bounds(hand@, starter.unwrap());
            }
        }
    }
    let subsets = all_combinations_of_min_size(vector, 2);
    let n = subsets.len();
    let mut i: usize = 0;
    while i < n
        invariant
            i <= n,
            n == subsets@.len(),
            n < 32,
            n == all.len(),
            all == spec_combinations(cards, 2, cards.len()),
            forall|k: int| 0 <= k < n ==> (#[trigger] subsets@[k])@ == all[k],
            cards.len() <= 5,
            cards.len() == 5 ==> !spec_is_rank_match(cards),
            s@ == spec_tally_all(nobs, all.take(i as int), is_crib),
            s.total_score == spec_total(s@),
            s@.len() <= 1 + 4 * i,
            spec_bounded(s@),
        decreases n - i,
    {
        let subset = subsets[i].clone();
        proof {
            assert(subset@ == all[i as int]);
            assert(all.take(i + 1).drop_last() =~= all.take(i as int));
            assert(all.take(i + 1).last() == subset@);
            crate::combinator::lemma_combinations(cards, 2, cards.len(), i as int);
            if subset@.len() == 5 {
                let m = choose|m: nat| #[trigger] crate::combinator::spec_pick(cards, m) == subset@;
                crate::combinator::lemma_pick_full(cards, m);
            }
            lemma_score_bounds(subset@, is_crib);
            lemma_tally_bounds(s@, spec_score(subset@, is_crib));
            lemma_total_bound(spec_tally(s@, spec_score(subset@, is_crib)));
        }
        match score(subset, is_crib) {
            Some(combis) => {
                s.tally(combis);
            },
            None => {
                proof {
                    assert(spec_score(subset@, is_crib) =~= Seq::<CombinationView>::empty());
                }
            },
        }
        i += 1;
    }
    proof {
        assert(all.take(n as int) =~= all);
        crate::score_total::lemma_total_of_hand(hand@, starter, is_crib);
    }
    s
}

/// Whether cards are all of one rank does not depend on their order.
pub proof fn lemma_rank_match_same_cards(a: Seq<Card>, b: Seq<Card>)
    requires
        a.to_multiset() == b.to_multiset(),
        spec_is_rank_match(a),
    ensures
        spec_is_rank_match(b),
{
    vstd::seq_lib::to_multiset_len(a);
    vstd::seq_lib::to_multiset_len(b);
    assert forall|i: int| 0 <= i < b.len() implies (#[trigger] b[i]).rank == a[0].rank by {
        assert(b.contains(b[i]));
        crate::sorting::lemma_same_cards_contains(b, a, b[i]);
    }
    assert(b[0].rank == a[0].rank);
}

/// His nobs is at most one combination, of one point.
pub proof fn lemma_nob_bounds(hand: Seq<Card>, starter: Card)
    ensures
        spec_nob(hand, starter).len() <= 1,
        spec_bounded(spec_nob(hand, starter)),
    decreases hand.len(),
{
    if hand.len() > 0 {
        lemma_nob_bounds(hand.drop_first(), starter);
    }
}

impl Default for Score {
    /// The empty score.
    fn default() -> (score: Score)
        ensures
            score@ == Seq::<CombinationView>::empty(),
            score.total_score == 0,
    {
        Score::new()
    }
}

impl Clone for Score {
    fn clone(&self) -> (copy: Score)
        ensures
            copy@ == self@,
            copy.total_score == self.total_score,
    {
        let n = self.combinations.len();
        let mut combinations: Vec<Combination> = Vec::new();
        let mut i: usize = 0;
        while i < n
            invariant
                i <= n,
                n == self.combinations@.len(),
                spec_views(combinations@) == self@.take(i as int),
            decreases n - i,
        {
            let c = self.combinations[i].clone();
            proof {
                assert(self@[i as int] == self.combinations@[i as int]@);
                assert(spec_views(combinations@.push(c)) =~= spec_views(combinations@).push(c@));
                assert(self@.take(i as int).push(c@) =~= self@.take(i + 1));
            }
            combinations.push(c);
            i += 1;
        }
        proof {
            assert(self@.take(n as int) =~= self@);
        }
        Score { combinations, total_score: self.total_score }
    }
}

} // verus!
