//! Cards, five-card hands and their ranking.

pub mod groups;

use crate::game::ranking::{
    all_same_suit, consecutive, deck_card, distinct_cards, full_house_points_below,
    full_house_score, hand_score, is_full_deck, is_hand, is_royal, is_seven, is_straight, kickers,
    lemma_rank_leq_total, lemma_sorted_ranks, matched_count, matched_count_prefix, matched_sum,
    matched_sum_prefix, multiplicity, multiplicity_prefix, multiplicity_score, multiplicity_type,
    rank_leq, ranks_of, small_ranks, sorted_ranks, straight_ranks, suit_at, unmatched,
    valid_cards, valid_rank, weighted_prefix, weighted_sum, wheel_ranks,
};
use crate::game::selection::{
    best_of_seven, lemma_pick_distinct, pick, pick_cards, picks, selections,
};
use crate::utils::{decimal, decimal_text};
use std::cmp::Ordering;
use vstd::prelude::*;
use vstd::relations::sorted_by;
use vstd::seq_lib::lemma_sorted_unique;
use vstd::std_specs::cmp::PartialOrdSpecImpl;

verus! {

/// The four suits of a standard deck.
#[derive(Clone, Copy, Debug, PartialEq, Eq, Structural, Hash, PartialOrd, Ord)]
pub enum Suit {
    Hearts,
    Diamonds,
    Clubs,
    Spades,
}

/// A playing card. The rank runs from 2 to 14: 11 is the jack, 12 the queen,
/// 13 the king and 14 the ace.
#[derive(Clone, Copy, Debug, PartialEq, Eq, Structural, Hash, PartialOrd, Ord)]
pub struct Card {
    pub suit: Suit,
    pub value: i32,
}

/// The ten categories of a five-card hand, declared from the weakest to the
/// strongest.
#[derive(Clone, Copy, Debug, PartialEq, Eq, Structural, Hash, Ord)]
pub enum HandType {
    HighCard,
    Pair,
    TwoPair,
    ThreeOfAKind,
    Straight,
    Flush,
    FullHouse,
    FourOfAKind,
    StraightFlush,
    RoyalFlush,
}

/// What a five-card hand is worth: its category, and a score that orders the
/// hands of one category.
#[derive(Clone, Copy, Debug, PartialEq, Eq, Structural, Hash, Ord)]
pub struct HandScore {
    pub hand_type: HandType,
    pub score: i32,
}

impl Suit {
    /// The name of the suit.
    pub open spec fn text(self) -> Seq<char> {
        match self {
            Suit::Hearts => "Hearts"@,
            Suit::Diamonds => "Diamonds"@,
            Suit::Clubs => "Clubs"@,
            Suit::Spades => "Spades"@,
        }
    }

    /// The name of the suit.
    pub fn to_string(&self) -> (name: String)
        ensures
            name@ == self.text(),
    {
        match self {
            Suit::Hearts => String::from_str("Hearts"),
            Suit::Diamonds => String::from_str("Diamonds"),
            Suit::Clubs => String::from_str("Clubs"),
            Suit::Spades => String::from_str("Spades"),
        }
    }
}

/// How a rank is written: the number up to ten, then the name of the face;
/// nothing for what is no rank.
pub open spec fn rank_text(value: i32) -> Seq<char> {
    if value == 2 {
        "2"@
    } else if value == 3 {
        "3"@
    } else if value == 4 {
        "4"@
    } else if value == 5 {
        "5"@
    } else if value == 6 {
        "6"@
    } else if value == 7 {
        "7"@
    } else if value == 8 {
        "8"@
    } else if value == 9 {
        "9"@
    } else if value == 10 {
        "10"@
    } else if value == 11 {
        "Jack"@
    } else if value == 12 {
        "Queen"@
    } else if value == 13 {
        "King"@
    } else if value == 14 {
        "Ace"@
    } else {
        ""@
    }
}

/// How a rank is written.
fn rank_name(value: i32) -> (name: &'static str)
    ensures
        name@ == rank_text(value),
{
    if value == 2 {
        "2"
    } else if value == 3 {
        "3"
    } else if value == 4 {
        "4"
    } else if value == 5 {
        "5"
    } else if value == 6 {
        "6"
    } else if value == 7 {
        "7"
    } else if value == 8 {
        "8"
    } else if value == 9 {
        "9"
    } else if value == 10 {
        "10"
    } else if value == 11 {
        "Jack"
    } else if value == 12 {
        "Queen"
    } else if value == 13 {
        "King"
    } else if value == 14 {
        "Ace"
    } else {
        ""
    }
}

impl Card {
    /// The card of the given suit and rank.
    pub fn new(suit: Suit, value: i32) -> (card: Card)
        ensures
            card == (Card { suit, value }),
    {
        Card { suit, value }
    }

    /// The card in words: its rank, " of ", and its suit.
    pub open spec fn text(self) -> Seq<char> {
        rank_text(self.value) + " of "@ + self.suit.text()
    }

    /// The card in words, as in "Queen of Hearts" or "7 of Clubs".
    pub fn to_string(&self) -> (line: String)
        ensures
            line@ == self.text(),
    {
        let mut line = String::from_str(rank_name(self.value));
        line.append(" of ");
        let suit = self.suit.to_string();
        line.append(suit.as_str());
        line
    }

    /// The 52 cards of a deck: hearts, diamonds, clubs and spades, each from
    /// the two up to the ace.
    pub fn new_full_deck() -> (deck: Vec<Card>)
        ensures
            is_full_deck(deck@),
    {
        let mut deck: Vec<Card> = Vec::new();
        let mut s: usize = 0;
        while s < 4
            invariant
                s <= 4,
                deck.len() == 13 * s,
                forall|i: int| 0 <= i < deck.len() ==> #[trigger] deck[i] == deck_card(i),
            decreases 4 - s,
        {
            let suit = if s == 0 {
                Suit::Hearts
            } else if s == 1 {
                Suit::Diamonds
            } else if s == 2 {
                Suit::Clubs
            } else {
                Suit::Spades
            };
            let mut value: i32 = 2;
            while value <= 14
                invariant
                    s < 4,
                    suit == suit_at(s as int),
                    2 <= value <= 15,
                    deck.len() == 13 * s + (value - 2),
                    forall|i: int| 0 <= i < deck.len() ==> #[trigger] deck[i] == deck_card(i),
                decreases 15 - value,
            {
                let ghost at = deck.len() as int;
                assert(at / 13 == s && at % 13 == value - 2);
                deck.push(Card::new(suit, value));
                value += 1;
            }
            s += 1;
        }
        deck
    }
}

impl HandType {
    /// The position of the category in the ranking, 0 for the weakest.
    pub open spec fn rank(self) -> int {
        match self {
            HandType::HighCard => 0,
            HandType::Pair => 1,
            HandType::TwoPair => 2,
            HandType::ThreeOfAKind => 3,
            HandType::Straight => 4,
            HandType::Flush => 5,
            HandType::FullHouse => 6,
            HandType::FourOfAKind => 7,
            HandType::StraightFlush => 8,
            HandType::RoyalFlush => 9,
        }
    }

    /// The position of the category in the ranking, in constant time.
    pub fn rank_index(&self) -> (r: u8)
        ensures
            r == self.rank(),
    {
        match self {
            HandType::HighCard => 0,
            HandType::Pair => 1,
            HandType::TwoPair => 2,
            HandType::ThreeOfAKind => 3,
            HandType::Straight => 4,
            HandType::Flush => 5,
            HandType::FullHouse => 6,
            HandType::FourOfAKind => 7,
            HandType::StraightFlush => 8,
            HandType::RoyalFlush => 9,
        }
    }

    /// Whether this category ranks strictly below `other`.
    pub open spec fn below(self, other: HandType) -> bool {
        self.rank() < other.rank()
    }

    /// The name of the category.
    pub open spec fn text(self) -> Seq<char> {
        match self {
            HandType::HighCard => "High Card"@,
            HandType::Pair => "Pair"@,
            HandType::TwoPair => "Two Pair"@,
            HandType::ThreeOfAKind => "Three of a Kind"@,
            HandType::Straight => "Straight"@,
            HandType::Flush => "Flush"@,
            HandType::FullHouse => "Full House"@,
            HandType::FourOfAKind => "Four of a Kind"@,
            HandType::StraightFlush => "Straight Flush"@,
            HandType::RoyalFlush => "Royal Flush"@,
        }
    }

    /// The name of the category.
    pub fn to_string(&self) -> (name: String)
        ensures
            name@ == self.text(),
    {
        match self {
            HandType::HighCard => String::from_str("High Card"),
            HandType::Pair => String::from_str("Pair"),
            HandType::TwoPair => String::from_str("Two Pair"),
            HandType::ThreeOfAKind => String::from_str("Three of a Kind"),
            HandType::Straight => String::from_str("Straight"),
            HandType::Flush => String::from_str("Flush"),
            HandType::FullHouse => String::from_str("Full House"),
            HandType::FourOfAKind => String::from_str("Four of a Kind"),
            HandType::StraightFlush => String::from_str("Straight Flush"),
            HandType::RoyalFlush => String::from_str("Royal Flush"),
        }
    }
}

impl PartialOrd for HandType {
    fn partial_cmp(&self, other: &Self) -> (r: Option<Ordering>) {
        let a = self.rank_index();
        let b = other.rank_index();
        if a < b {
            Some(Ordering::Less)
        } else if a > b {
            Some(Ordering::Greater)
        } else {
            Some(Ordering::Equal)
        }
    }
}

impl PartialOrdSpecImpl for HandType {
    open spec fn obeys_partial_cmp_spec() -> bool {
        true
    }

    open spec fn partial_cmp_spec(&self, other: &Self) -> Option<Ordering> {
        if self.below(*other) {
            Some(Ordering::Less)
        } else if other.below(*self) {
            Some(Ordering::Greater)
        } else {
            Some(Ordering::Equal)
        }
    }
}

impl HandScore {
    pub fn get_hand_type(&self) -> (t: HandType)
        ensures
            t == self.hand_type,
    {
        self.hand_type
    }

    pub fn get_score(&self) -> (s: i32)
        ensures
            s == self.score,
    {
        self.score
    }

    /// Whether this score ranks strictly below `other`: by category first, by
    /// the score only between hands of one category.
    pub open spec fn below(self, other: HandScore) -> bool {
        self.hand_type.below(other.hand_type) || (self.hand_type == other.hand_type && self.score
            < other.score)
    }

    /// The score in words: the category, " with a score of ", and the score.
    pub open spec fn text(self) -> Seq<char> {
        self.hand_type.text() + " with a score of "@ + decimal_text(self.score as int)
    }

    /// The score in words, as in "Flush with a score of 1652".
    pub fn to_string(&self) -> (line: String)
        ensures
            line@ == self.text(),
    {
        let mut line = self.hand_type.to_string();
        line.append(" with a score of ");
        let number = decimal(self.score);
        line.append(number.as_str());
        line
    }

    /// Whether this score ranks strictly below `other`.
    pub fn is_below(&self, other: &HandScore) -> (r: bool)
        ensures
            r == self.below(*other),
    {
        let a = self.hand_type.rank_index();
        let b = other.hand_type.rank_index();
        a < b || (a == b && self.score < other.score)
    }
}

impl PartialOrd for HandScore {
    fn partial_cmp(&self, other: &Self) -> (r: Option<Ordering>) {
        if self.is_below(other) {
            Some(Ordering::Less)
        } else if other.is_below(self) {
            Some(Ordering::Greater)
        } else {
            Some(Ordering::Equal)
        }
    }
}

impl PartialOrdSpecImpl for HandScore {
    open spec fn obeys_partial_cmp_spec() -> bool {
        true
    }

    open spec fn partial_cmp_spec(&self, other: &Self) -> Option<Ordering> {
        if self.below(*other) {
            Some(Ordering::Less)
        } else if other.below(*self) {
            Some(Ordering::Greater)
        } else {
            Some(Ordering::Equal)
        }
    }
}

/// Of two scores exactly one holds: the first ranks below the second, they are
/// equal in category and score, or the second ranks below the first.
pub proof fn lemma_hand_score_trichotomy(a: HandScore, b: HandScore)
    ensures
        a.below(b) || a == b || b.below(a),
        !(a.below(b) && a == b),
        !(a.below(b) && b.below(a)),
        !(a == b && b.below(a)),
{
}

/// Ranking below is transitive, so the scores are totally ordered.
pub proof fn lemma_hand_score_transitive(a: HandScore, b: HandScore, c: HandScore)
    requires
        a.below(b),
        b.below(c),
    ensures
        a.below(c),
{
}

/// Five cards held for evaluation.
pub struct Hand {
    cards: Vec<Card>,
}

impl View for Hand {
    type V = Seq<Card>;

    closed spec fn view(&self) -> Seq<Card> {
        self.cards@
    }
}

/// Whether `card` is among `cards`.
fn holds_card(cards: &Vec<Card>, card: Card) -> (found: bool)
    ensures
        found == cards@.contains(card),
{
    let mut i: usize = 0;
    while i < cards.len()
        invariant
            i <= cards.len(),
            forall|j: int| 0 <= j < i ==> cards[j] != card,
        decreases cards.len() - i,
    {
        if cards[i] == card {
            return true;
        }
        i += 1;
    }
    false
}

/// Whether no card occurs twice and every rank is from 2 to 14.
fn distinct_and_valid(cards: &Vec<Card>) -> (ok: bool)
    ensures
        ok == (distinct_cards(cards@) && valid_cards(cards@)),
{
    let mut j: usize = 0;
    while j < cards.len()
        invariant
            j <= cards.len(),
            distinct_cards(cards@.take(j as int)),
            valid_cards(cards@.take(j as int)),
        decreases cards.len() - j,
    {
        let c = cards[j];
        if c.value < 2 || c.value > 14 {
            assert(!valid_rank(cards@[j as int].value as int));
            return false;
        }
        let mut i: usize = 0;
        while i < j
            invariant
                i <= j < cards.len(),
                c == cards[j as int],
                forall|k: int| 0 <= k < i ==> cards[k] != c,
            decreases j - i,
        {
            if cards[i] == c {
                return false;
            }
            i += 1;
        }
        assert(distinct_cards(cards@.take(j + 1))) by {
            let t = cards@.take(j as int);
            let u = cards@.take(j + 1);
            assert forall|a: int, b: int| 0 <= a < b < u.len() implies u[a] != u[b] by {
                if b < j {
                    assert(t[a] == u[a] && t[b] == u[b]);
                }
            }
        }
        assert(valid_cards(cards@.take(j + 1))) by {
            let t = cards@.take(j as int);
            let u = cards@.take(j + 1);
            assert forall|a: int| 0 <= a < u.len() implies valid_rank(
                (#[trigger] u[a]).value as int,
            ) by {
                if a < j {
                    assert(t[a] == u[a]);
                }
            }
        }
        j += 1;
    }
    assert(cards@.take(cards.len() as int) == cards@);
    true
}

/// The values in ascending order.
fn sort_values(values: &Vec<i32>) -> (v: Vec<i32>)
    ensures
        v@ == values@.sort_by(rank_leq()),
{
    let mut v: Vec<i32> = Vec::new();
    let mut k: usize = 0;
    assert(values@.take(0) == Seq::<i32>::empty());
    while k < values.len()
        invariant
            k <= values.len(),
            v.len() == k,
            v@.to_multiset() == values@.take(k as int).to_multiset(),
            sorted_by(v@, rank_leq()),
        decreases values.len() - k,
    {
        let x = values[k];
        let mut p: usize = 0;
        while p < v.len() && v[p] <= x
            invariant
                p <= v.len(),
                forall|j: int| 0 <= j < p ==> v[j] <= x,
            decreases v.len() - p,
        {
            p += 1;
        }
        let ghost before = v@;
        v.insert(p, x);
        proof {
            assert(v@ == before.insert(p as int, x));
            assert(values@.take(k + 1) == values@.take(k as int).push(x));
            vstd::seq_lib::to_multiset_insert(before, p as int, x);
            vstd::seq_lib::to_multiset_build(values@.take(k as int), x);
            assert(sorted_by(v@, rank_leq())) by {
                assert forall|i: int, j: int| 0 <= i < j < v@.len() implies v@[i] <= v@[j] by {
                    if j < p {
                        assert(rank_leq()(before[i], before[j]));
                    } else if j == p {
                    } else if i < p {
                        assert(rank_leq()(before[i], before[j - 1]));
                    } else if i == p {
                        assert(p < before.len());
                        assert(rank_leq()(before[p as int], before[j - 1]) || p == j - 1);
                    } else {
                        assert(rank_leq()(before[i - 1], before[j - 1]));
                    }
                }
            }
        }
        k += 1;
    }
    proof {
        assert(values@.take(values.len() as int) == values@);
        lemma_rank_leq_total();
        values@.lemma_sort_by_ensures(rank_leq());
        lemma_sorted_unique(v@, values@.sort_by(rank_leq()), rank_leq());
    }
    v
}


/// How often `v` occurs among the ranks.
fn count_value(r: &Vec<i32>, v: i32) -> (c: usize)
    ensures
        c == multiplicity(r@, v),
        c <= r.len(),
{
    let mut c: usize = 0;
    let mut i: usize = 0;
    while i < r.len()
        invariant
            i <= r.len(),
            c <= i,
            c == multiplicity_prefix(r@, v, i as int),
        decreases r.len() - i,
    {
        if r[i] == v {
            c += 1;
        }
        i += 1;
    }
    c
}

/// How many ranks occur exactly `n` times.
fn count_matched(r: &Vec<i32>, n: usize) -> (c: usize)
    ensures
        c == matched_count(r@, n as nat),
        c <= r.len(),
{
    let mut c: usize = 0;
    let mut i: usize = 0;
    while i < r.len()
        invariant
            i <= r.len(),
            c <= i,
            c == matched_count_prefix(r@, n as nat, i as int),
        decreases r.len() - i,
    {
        if count_value(r, r[i]) == n {
            c += 1;
        }
        i += 1;
    }
    c
}

/// The sum of the ranks that occur exactly `n` times.
fn sum_matched(r: &Vec<i32>, n: usize) -> (s: i32)
    requires
        small_ranks(r@),
    ensures
        s == matched_sum(r@, n as nat),
        0 <= s <= 70,
{
    let mut s: i32 = 0;
    let mut i: usize = 0;
    while i < r.len()
        invariant
            small_ranks(r@),
            i <= r.len(),
            0 <= s <= 14 * i,
            s == matched_sum_prefix(r@, n as nat, i as int),
        decreases r.len() - i,
    {
        if count_value(r, r[i]) == n {
            s += r[i];
        }
        i += 1;
    }
    s
}

/// The ranks that do not occur exactly `n` times, in their order.
fn select_kickers(r: &Vec<i32>, n: usize) -> (k: Vec<i32>)
    requires
        small_ranks(r@),
    ensures
        k@ == kickers(r@, n as nat),
        small_ranks(k@),
{
    let mut k: Vec<i32> = Vec::new();
    let mut i: usize = 0;
    proof {
        reveal(Seq::filter);
        assert(r@.take(0).filter(unmatched(r@, n as nat)) == Seq::<i32>::empty());
    }
    while i < r.len()
        invariant
            small_ranks(r@),
            i <= r.len(),
            k.len() <= i,
            k@ == r@.take(i as int).filter(unmatched(r@, n as nat)),
            forall|j: int| 0 <= j < k.len() ==> 1 <= #[trigger] k[j] <= 14,
        decreases r.len() - i,
    {
        proof {
            reveal(Seq::filter);
            assert(r@.take(i + 1).drop_last() == r@.take(i as int));
            assert(r@.take(i + 1).last() == r@[i as int]);
        }
        if count_value(r, r[i]) != n {
            k.push(r[i]);
        }
        i += 1;
    }
    assert(r@.take(r.len() as int) == r@);
    k
}

/// The sum of the ranks, the rank at position `i` weighted by `(i + 1) * 14`.
fn weighted(r: &Vec<i32>) -> (s: i32)
    requires
        small_ranks(r@),
    ensures
        s == weighted_sum(r@),
        0 <= s <= 4900,
{
    let mut s: i32 = 0;
    let mut i: usize = 0;
    while i < r.len()
        invariant
            small_ranks(r@),
            i <= r.len(),
            0 <= s <= 980 * i,
            s == weighted_prefix(r@, i as int),
        decreases r.len() - i,
    {
        let position: i32 = (i + 1) as i32;
        assert(0 <= r[i as int] * position <= 70) by (nonlinear_arith)
            requires
                1 <= r[i as int] <= 14,
                1 <= position <= 5,
        ;
        s += r[i] * position * 14;
        i += 1;
    }
    s
}

/// The score of a full house: fourteen times the rank of the three, and the
/// rank of the two.
fn full_house_points_sum(r: &Vec<i32>) -> (s: i32)
    ensures
        s == full_house_score(r@),
        0 <= s <= 2940,
{
    let mut s: i32 = 0;
    let mut v: i32 = 2;
    while v < 15
        invariant
            2 <= v <= 15,
            0 <= s <= 196 * (v - 2),
            s == full_house_points_below(r@, v as int),
        decreases 15 - v,
    {
        let c = count_value(r, v);
        if c == 3 {
            s += v * 14;
        } else if c > 0 {
            s += v;
        }
        v += 1;
    }
    s
}

/// Whether the five values are exactly `a` to `e`, in this order.
fn equals_five(v: &Vec<i32>, a: i32, b: i32, c: i32, d: i32, e: i32) -> (same: bool)
    ensures
        same == (v@ == seq![a, b, c, d, e]),
{
    if v.len() != 5 {
        assert(seq![a, b, c, d, e].len() == 5);
        return false;
    }
    let same = v[0] == a && v[1] == b && v[2] == c && v[3] == d && v[4] == e;
    proof {
        let w = seq![a, b, c, d, e];
        if same {
            assert(v@ =~= w);
        } else {
            assert(w[0] == a && w[1] == b && w[2] == c && w[3] == d && w[4] == e);
        }
    }
    same
}

/// The category and score of a hand that is neither a flush nor a straight,
/// from its ranks in ascending order.
fn multiplicity_hand(r: &Vec<i32>) -> (res: HandScore)
    requires
        small_ranks(r@),
    ensures
        res.hand_type == multiplicity_type(r@),
        res.score == multiplicity_score(r@),
{
    let fours = count_matched(r, 4);
    let threes = count_matched(r, 3);
    let twos = count_matched(r, 2);
    if fours > 0 {
        let rest = select_kickers(r, 4);
        HandScore {
            hand_type: HandType::FourOfAKind,
            score: sum_matched(r, 4) * 10764 + weighted(&rest),
        }
    } else if threes > 0 && twos > 0 {
        HandScore { hand_type: HandType::FullHouse, score: full_house_points_sum(r) }
    } else if threes > 0 {
        let rest = select_kickers(r, 3);
        HandScore {
            hand_type: HandType::ThreeOfAKind,
            score: sum_matched(r, 3) * 624 + weighted(&rest),
        }
    } else if twos >= 4 {
        let rest = select_kickers(r, 2);
        HandScore { hand_type: HandType::TwoPair, score: sum_matched(r, 2) * 3848
            + weighted(&rest) }
    } else if twos > 0 {
        let rest = select_kickers(r, 2);
        HandScore {
            hand_type: HandType::Pair,
            score: (sum_matched(r, 2) / 2) * 6188 + weighted(&rest),
        }
    } else {
        HandScore { hand_type: HandType::HighCard, score: weighted(r) }
    }
}

/// A copy of the cards.
pub fn copy_cards(cards: &Vec<Card>) -> (copy: Vec<Card>)
    ensures
        copy@ == cards@,
{
    let mut copy: Vec<Card> = Vec::new();
    let mut i: usize = 0;
    while i < cards.len()
        invariant
            i <= cards.len(),
            copy@ == cards@.take(i as int),
        decreases cards.len() - i,
    {
        copy.push(cards[i]);
        i += 1;
    }
    assert(cards@.take(cards.len() as int) == cards@);
    copy
}

/// The two runs of cards, one after the other.
pub fn join_cards(first: &Vec<Card>, second: &Vec<Card>) -> (joined: Vec<Card>)
    ensures
        joined@ == first@ + second@,
{
    let mut joined = copy_cards(first);
    let mut i: usize = 0;
    while i < second.len()
        invariant
            i <= second.len(),
            joined@ == first@ + second@.take(i as int),
        decreases second.len() - i,
    {
        joined.push(second[i]);
        assert(second@.take(i + 1) == second@.take(i as int).push(second@[i as int]));
        i += 1;
    }
    assert(second@.take(second.len() as int) == second@);
    joined
}

impl Hand {
    /// Five distinct cards with ranks from 2 to 14: what the evaluation asks
    /// for.
    pub open spec fn wf(&self) -> bool {
        is_hand(self@)
    }

    /// Whether `cards` can make a hand: five distinct cards with ranks from 2
    /// to 14.
    pub fn is_valid(cards: &Vec<Card>) -> (ok: bool)
        ensures
            ok == is_hand(cards@),
    {
        cards.len() == 5 && distinct_and_valid(cards)
    }

    /// A hand of the given five cards.
    pub fn new(input_cards: Vec<Card>) -> (hand: Hand)
        requires
            is_hand(input_cards@),
        ensures
            hand@ == input_cards@,
            hand.wf(),
    {
        Hand { cards: input_cards }
    }

    /// Adds a card that the hand does not hold yet; a card that it holds is
    /// not added again.
    pub fn add_card(&mut self, card: Card)
        ensures
            old(self)@.contains(card) ==> final(self)@ == old(self)@,
            !old(self)@.contains(card) ==> final(self)@ == old(self)@.push(card),
    {
        if !holds_card(&self.cards, card) {
            self.cards.push(card);
        }
    }

    /// The cards of the hand.
    pub fn get_cards(&self) -> (cards: &Vec<Card>)
        ensures
            cards@ == self@,
    {
        &self.cards
    }

    /// The ranks of the cards in ascending order.
    pub fn sorted_values(&self) -> (v: Vec<i32>)
        ensures
            v@ == sorted_ranks(self@),
    {
        let mut values: Vec<i32> = Vec::new();
        let mut i: usize = 0;
        while i < self.cards.len()
            invariant
                i <= self.cards.len(),
                values@ == ranks_of(self.cards@).take(i as int),
            decreases self.cards.len() - i,
        {
            values.push(self.cards[i].value);
            i += 1;
        }
        assert(values@ == ranks_of(self.cards@));
        sort_values(&values)
    }

    /// Whether all cards share one suit.
    pub fn check_flush(&self) -> (flush: bool)
        ensures
            flush == (self@.len() > 0 && all_same_suit(self@)),
    {
        if self.cards.len() == 0 {
            return false;
        }
        let first = self.cards[0].suit;
        let mut i: usize = 1;
        while i < self.cards.len()
            invariant
                1 <= i <= self.cards.len(),
                first == self.cards[0].suit,
                forall|j: int| 0 <= j < i ==> (#[trigger] self.cards[j]).suit == first,
            decreases self.cards.len() - i,
        {
            if self.cards[i].suit != first {
                return false;
            }
            i += 1;
        }
        true
    }

    /// Whether the ranks are ten, jack, queen, king and ace.
    pub fn check_royal(&self) -> (royal: bool)
        ensures
            royal == is_royal(self@),
    {
        let values = self.sorted_values();
        equals_five(&values, 10, 11, 12, 13, 14)
    }

    /// Whether the ranks are five in a row, or the wheel.
    pub fn check_straight(&self) -> (straight: bool)
        requires
            self.wf(),
        ensures
            straight == is_straight(self@),
    {
        let values = self.sorted_values();
        proof {
            lemma_sorted_ranks(self@);
        }
        if equals_five(&values, 2, 3, 4, 5, 14) {
            return true;
        }
        let mut i: usize = 0;
        while i < values.len() - 1
            invariant
                values.len() == 5,
                values@ == sorted_ranks(self@),
                values@ != wheel_ranks(),
                i <= values.len() - 1,
                forall|j: int| 0 <= j < values.len() ==> valid_rank(#[trigger] values[j] as int),
                forall|j: int| 0 <= j < i ==> values[j + 1] - #[trigger] values[j] == 1,
            decreases values.len() - 1 - i,
        {
            if values[i + 1] - values[i] != 1 {
                assert(!consecutive(values@)) by {
                    assert(values@[i + 1] - values@[i as int] != 1);
                }
                return false;
            }
            i += 1;
        }
        true
    }

    /// Whether the hand is both a straight and a flush.
    pub fn check_straight_flush(&self) -> (both: bool)
        requires
            self.wf(),
        ensures
            both == (is_straight(self@) && all_same_suit(self@)),
    {
        self.check_straight() && self.check_flush()
    }

    /// Whether the hand is both royal and a flush.
    pub fn check_royal_flush(&self) -> (both: bool)
        ensures
            both == (is_royal(self@) && self@.len() > 0 && all_same_suit(self@)),
    {
        self.check_royal() && self.check_flush()
    }

    /// The weighted sum of the ranks in ascending order.
    fn calculate_score_for_boolean(&self) -> (score: i32)
        requires
            self.wf(),
        ensures
            score == weighted_sum(sorted_ranks(self@)),
    {
        let values = self.sorted_values();
        proof {
            lemma_sorted_ranks(self@);
        }
        weighted(&values)
    }

    /// The weighted sum of the ranks in ascending order, the wheel counted as
    /// one to five.
    fn calculate_score_for_straight(&self) -> (score: i32)
        requires
            self.wf(),
        ensures
            score == weighted_sum(straight_ranks(sorted_ranks(self@))),
    {
        let mut values = self.sorted_values();
        proof {
            lemma_sorted_ranks(self@);
        }
        if equals_five(&values, 2, 3, 4, 5, 14) {
            values = vec![1, 2, 3, 4, 5];
            assert(values@ == seq![1i32, 2i32, 3i32, 4i32, 5i32]);
        }
        weighted(&values)
    }

    /// What the hand is worth: its category and its score within the
    /// category.
    pub fn check_hand(&self) -> (res: HandScore)
        requires
            self.wf(),
        ensures
            res == hand_score(self@),
    {
        let is_flush = self.check_flush();
        let is_royal = self.check_royal();
        let is_straight = self.check_straight();
        if is_flush {
            if is_royal {
                HandScore {
                    hand_type: HandType::RoyalFlush,
                    score: self.calculate_score_for_boolean(),
                }
            } else if is_straight {
                HandScore {
                    hand_type: HandType::StraightFlush,
                    score: self.calculate_score_for_straight(),
                }
            } else {
                HandScore { hand_type: HandType::Flush, score: self.calculate_score_for_boolean() }
            }
        } else if is_straight {
            HandScore { hand_type: HandType::Straight, score: self.calculate_score_for_straight() }
        } else {
            let values = self.sorted_values();
            proof {
                lemma_sorted_ranks(self@);
            }
            multiplicity_hand(&values)
        }
    }
}

/// The seven cards that a player can build a hand from: the two of the player
/// and the five of the table.
pub struct OnePlayerAllPossibleCards {
    cards: Vec<Card>,
}

impl View for OnePlayerAllPossibleCards {
    type V = Seq<Card>;

    closed spec fn view(&self) -> Seq<Card> {
        self.cards@
    }
}

impl OnePlayerAllPossibleCards {
    /// Seven distinct cards with ranks from 2 to 14: what the evaluation asks
    /// for.
    pub open spec fn wf(&self) -> bool {
        is_seven(self@)
    }

    /// Whether `cards` are seven distinct cards with ranks from 2 to 14.
    pub fn is_valid(cards: &Vec<Card>) -> (ok: bool)
        ensures
            ok == is_seven(cards@),
    {
        cards.len() == 7 && distinct_and_valid(cards)
    }

    /// The seven cards of a player.
    pub fn new(all_cards: Vec<Card>) -> (seven: OnePlayerAllPossibleCards)
        requires
            all_cards@.len() == 7,
            distinct_cards(all_cards@),
        ensures
            seven@ == all_cards@,
    {
        OnePlayerAllPossibleCards { cards: all_cards }
    }

    /// Adds a card at the end.
    pub fn add_card(&mut self, card: Card)
        ensures
            final(self)@ == old(self)@.push(card),
    {
        self.cards.push(card);
    }

    /// The cards.
    pub fn get_cards(&self) -> (cards: &Vec<Card>)
        ensures
            cards@ == self@,
    {
        &self.cards
    }

    /// The best that five of the seven cards are worth: the score of one
    /// choice of five, and no choice of five ranks above it.
    pub fn get_highest_hand_score(&self) -> (best: HandScore)
        requires
            self.wf(),
        ensures
            best_of_seven(best, self@),
    {
        let all = selections(self.cards.len(), 5);
        let ghost cards = self@;
        proof {
            let first: Seq<usize> = seq![0usize, 1usize, 2usize, 3usize, 4usize];
            assert(picks(first, 7, 5));
        }
        let mut highest = HandScore { hand_type: HandType::HighCard, score: 0 };
        let mut c: usize = 0;
        while c < all.len()
            invariant
                c <= all.len(),
                all.len() > 0,
                cards == self.cards@,
                is_seven(cards),
                forall|d: int| 0 <= d < all.len() ==> picks(#[trigger] all[d]@, 7, 5),
                c > 0 ==> exists|d: int|
                    0 <= d < c && highest == hand_score(pick(cards, #[trigger] all[d]@)),
                forall|d: int|
                    0 <= d < c ==> !highest.below(hand_score(pick(cards, #[trigger] all[d]@))),
            decreases all.len() - c,
        {
            assert(picks(all[c as int]@, 7, 5));
            let picked = pick_cards(&self.cards, &all[c]);
            proof {
                let s = all[c as int]@;
                lemma_pick_distinct(cards, s);
                assert forall|i: int| 0 <= i < picked@.len() implies valid_rank(
                    (#[trigger] picked@[i]).value as int,
                ) by {
                    assert(picked@[i] == cards[s[i] as int]);
                }
            }
            let hand = Hand::new(picked);
            let score = hand.check_hand();
            let ghost before = highest;
            if c == 0 || highest.is_below(&score) {
                highest = score;
                proof {
                    assert forall|d: int| 0 <= d < c + 1 implies !highest.below(
                        hand_score(pick(cards, #[trigger] all[d]@)),
                    ) by {
                        if d < c {
                            assert(!before.below(hand_score(pick(cards, all[d]@))));
                        }
                    }
                    assert(highest == hand_score(pick(cards, all[c as int]@)));
                }
            } else {
                proof {
                    let d = choose|d: int|
                        0 <= d < c && highest == hand_score(pick(cards, #[trigger] all[d]@));
                    assert(0 <= d < c + 1);
                }
            }
            c += 1;
        }
        proof {
            let d = choose|d: int|
                0 <= d < c && highest == hand_score(pick(cards, #[trigger] all[d]@));
            assert(picks(all[d]@, 7, 5));
            assert forall|s: Seq<usize>| #[trigger] picks(s, 7, 5) implies !highest.below(
                hand_score(pick(self@, s)),
            ) by {
                let e = choose|e: int| 0 <= e < all.len() && #[trigger] all[e]@ == s;
                assert(all[e]@ == s);
            }
        }
        highest
    }
}

} // verus!
