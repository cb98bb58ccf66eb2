//! What a five-card hand is worth, stated over sequences of cards and ranks.
//!
//! A hand is ranked from its ranks in ascending order and from whether its
//! cards share a suit. Nothing here runs: these are the definitions that the
//! evaluator in `hand` is proved against.

use crate::game::hand::{Card, HandScore, HandType, Suit};
use vstd::prelude::*;
use vstd::relations::{sorted_by, total_ordering};

verus! {

/// Ranks run from the two to the ace.
pub open spec fn valid_rank(v: int) -> bool {
    2 <= v <= 14
}

/// No card occurs twice.
pub open spec fn distinct_cards(cards: Seq<Card>) -> bool {
    forall|i: int, j: int| 0 <= i < j < cards.len() ==> cards[i] != cards[j]
}

/// Every card has a rank from 2 to 14.
pub open spec fn valid_cards(cards: Seq<Card>) -> bool {
    forall|i: int| 0 <= i < cards.len() ==> valid_rank((#[trigger] cards[i]).value as int)
}

/// Five distinct cards with ranks from 2 to 14.
pub open spec fn is_hand(cards: Seq<Card>) -> bool {
    &&& cards.len() == 5
    &&& distinct_cards(cards)
    &&& valid_cards(cards)
}

/// Seven distinct cards with ranks from 2 to 14: the two of a player and the
/// five of the table.
pub open spec fn is_seven(cards: Seq<Card>) -> bool {
    &&& cards.len() == 7
    &&& distinct_cards(cards)
    &&& valid_cards(cards)
}

/// The ranks of the cards, in the order of the cards.
pub open spec fn ranks_of(cards: Seq<Card>) -> Seq<i32> {
    cards.map_values(|c: Card| c.value)
}

/// The order in which ranks are sorted.
pub open spec fn rank_leq() -> spec_fn(i32, i32) -> bool {
    |a: i32, b: i32| a <= b
}

/// The ranks of the cards in ascending order.
pub open spec fn sorted_ranks(cards: Seq<Card>) -> Seq<i32> {
    ranks_of(cards).sort_by(rank_leq())
}

/// The sum of the first `n` ranks, the rank at position `i` weighted by
/// `(i + 1) * 14`.
pub open spec fn weighted_prefix(r: Seq<i32>, n: int) -> int
    decreases n,
{
    if n <= 0 {
        0
    } else {
        weighted_prefix(r, n - 1) + r[n - 1] * n * 14
    }
}

/// The sum of all ranks, the rank at position `i` weighted by `(i + 1) * 14`.
pub open spec fn weighted_sum(r: Seq<i32>) -> int {
    weighted_prefix(r, r.len() as int)
}

/// Whether all cards have the suit of the first.
pub open spec fn all_same_suit(cards: Seq<Card>) -> bool {
    forall|i: int| 0 <= i < cards.len() ==> (#[trigger] cards[i]).suit == cards[0].suit
}

/// Ten, jack, queen, king, ace.
pub open spec fn royal_ranks() -> Seq<i32> {
    seq![10i32, 11i32, 12i32, 13i32, 14i32]
}

/// The wheel: two to five with the ace, which then counts as one.
pub open spec fn wheel_ranks() -> Seq<i32> {
    seq![2i32, 3i32, 4i32, 5i32, 14i32]
}

/// Each rank is one above the rank before it.
pub open spec fn consecutive(r: Seq<i32>) -> bool {
    forall|i: int| 0 <= i < r.len() - 1 ==> r[i + 1] - #[trigger] r[i] == 1
}

/// Whether the sorted ranks are those of a royal hand.
pub open spec fn is_royal(cards: Seq<Card>) -> bool {
    sorted_ranks(cards) == royal_ranks()
}

/// Whether the sorted ranks are five in a row, or the wheel.
pub open spec fn is_straight(cards: Seq<Card>) -> bool {
    sorted_ranks(cards) == wheel_ranks() || consecutive(sorted_ranks(cards))
}

/// The ranks that a straight is scored by: the wheel counts as one to five.
pub open spec fn straight_ranks(r: Seq<i32>) -> Seq<i32> {
    if r == wheel_ranks() {
        seq![1i32, 2i32, 3i32, 4i32, 5i32]
    } else {
        r
    }
}

/// How many of the first `n` ranks equal `v`.
pub open spec fn multiplicity_prefix(r: Seq<i32>, v: i32, n: int) -> nat
    decreases n,
{
    if n <= 0 {
        0
    } else {
        multiplicity_prefix(r, v, n - 1) + if r[n - 1] == v {
            1nat
        } else {
            0nat
        }
    }
}

/// How many of the ranks equal `v`.
pub open spec fn multiplicity(r: Seq<i32>, v: i32) -> nat {
    multiplicity_prefix(r, v, r.len() as int)
}

/// Whether the rank at position `i` occurs exactly `n` times.
pub open spec fn matched(r: Seq<i32>, n: nat, i: int) -> bool {
    multiplicity(r, r[i]) == n
}

/// How many of the first `k` positions hold a rank that occurs exactly `n`
/// times.
pub open spec fn matched_count_prefix(r: Seq<i32>, n: nat, k: int) -> nat
    decreases k,
{
    if k <= 0 {
        0
    } else {
        matched_count_prefix(r, n, k - 1) + if matched(r, n, k - 1) {
            1nat
        } else {
            0nat
        }
    }
}

/// How many cards have a rank that occurs exactly `n` times.
pub open spec fn matched_count(r: Seq<i32>, n: nat) -> nat {
    matched_count_prefix(r, n, r.len() as int)
}

/// The sum of the ranks, among the first `k`, that occur exactly `n` times.
pub open spec fn matched_sum_prefix(r: Seq<i32>, n: nat, k: int) -> int
    decreases k,
{
    if k <= 0 {
        0
    } else {
        matched_sum_prefix(r, n, k - 1) + if matched(r, n, k - 1) {
            r[k - 1] as int
        } else {
            0
        }
    }
}

/// The sum of the ranks of the cards whose rank occurs exactly `n` times.
pub open spec fn matched_sum(r: Seq<i32>, n: nat) -> int {
    matched_sum_prefix(r, n, r.len() as int)
}

/// Picks the ranks that do not occur exactly `n` times among `r`.
pub open spec fn unmatched(r: Seq<i32>, n: nat) -> spec_fn(i32) -> bool {
    |v: i32| multiplicity(r, v) != n
}

/// The ranks that do not occur exactly `n` times, in their order.
pub open spec fn kickers(r: Seq<i32>, n: nat) -> Seq<i32> {
    r.filter(unmatched(r, n))
}

/// At most five ranks, each from 1 (the ace of a wheel) to 14: what the
/// scores are computed from without overflow.
pub open spec fn small_ranks(r: Seq<i32>) -> bool {
    &&& r.len() <= 5
    &&& forall|i: int| 0 <= i < r.len() ==> 1 <= #[trigger] r[i] <= 14
}

/// What one rank adds to the score of a full house: fourteen times the rank of
/// the three, once the rank of the two.
pub open spec fn full_house_points(r: Seq<i32>, v: i32) -> int {
    if multiplicity(r, v) == 3 {
        v * 14
    } else if multiplicity(r, v) > 0 {
        v as int
    } else {
        0
    }
}

/// The points of the ranks from 2 up to, not including, `hi`.
pub open spec fn full_house_points_below(r: Seq<i32>, hi: int) -> int
    decreases hi,
{
    if hi <= 2 {
        0
    } else {
        full_house_points_below(r, hi - 1) + full_house_points(r, (hi - 1) as i32)
    }
}

/// The score of a full house: each distinct rank counted once.
pub open spec fn full_house_score(r: Seq<i32>) -> int {
    full_house_points_below(r, 15)
}

pub open spec fn pair_multiplier() -> int {
    6188
}

pub open spec fn two_pair_multiplier() -> int {
    3848
}

pub open spec fn three_of_a_kind_multiplier() -> int {
    624
}

pub open spec fn four_of_a_kind_multiplier() -> int {
    10764
}

/// The category of a hand that is neither a flush nor a straight, from how
/// often its ranks occur.
pub open spec fn multiplicity_type(r: Seq<i32>) -> HandType {
    if matched_count(r, 4) > 0 {
        HandType::FourOfAKind
    } else if matched_count(r, 3) > 0 && matched_count(r, 2) > 0 {
        HandType::FullHouse
    } else if matched_count(r, 3) > 0 {
        HandType::ThreeOfAKind
    } else if matched_count(r, 2) >= 4 {
        HandType::TwoPair
    } else if matched_count(r, 2) > 0 {
        HandType::Pair
    } else {
        HandType::HighCard
    }
}

/// The score of a hand that is neither a flush nor a straight. The matched
/// cards count by their multiplier, the others by their weighted sum.
pub open spec fn multiplicity_score(r: Seq<i32>) -> int {
    match multiplicity_type(r) {
        HandType::FourOfAKind => matched_sum(r, 4) * four_of_a_kind_multiplier() + weighted_sum(
            kickers(r, 4),
        ),
        HandType::FullHouse => full_house_score(r),
        HandType::ThreeOfAKind => matched_sum(r, 3) * three_of_a_kind_multiplier() + weighted_sum(
            kickers(r, 3),
        ),
        HandType::TwoPair => matched_sum(r, 2) * two_pair_multiplier() + weighted_sum(
            kickers(r, 2),
        ),
        HandType::Pair => (matched_sum(r, 2) / 2) * pair_multiplier() + weighted_sum(
            kickers(r, 2),
        ),
        _ => weighted_sum(r),
    }
}

/// The category of five cards. A flush is looked for first, then a straight,
/// then the multiplicities.
pub open spec fn hand_type_of(cards: Seq<Card>) -> HandType {
    if all_same_suit(cards) {
        if is_royal(cards) {
            HandType::RoyalFlush
        } else if is_straight(cards) {
            HandType::StraightFlush
        } else {
            HandType::Flush
        }
    } else if is_straight(cards) {
        HandType::Straight
    } else {
        multiplicity_type(sorted_ranks(cards))
    }
}

/// The score of five cards within their category.
pub open spec fn score_of(cards: Seq<Card>) -> int {
    match hand_type_of(cards) {
        HandType::RoyalFlush | HandType::Flush => weighted_sum(sorted_ranks(cards)),
        HandType::StraightFlush | HandType::Straight => weighted_sum(
            straight_ranks(sorted_ranks(cards)),
        ),
        _ => multiplicity_score(sorted_ranks(cards)),
    }
}

/// What five cards are worth.
pub open spec fn hand_score(cards: Seq<Card>) -> HandScore {
    HandScore { hand_type: hand_type_of(cards), score: score_of(cards) as i32 }
}

/// The suits in the order in which a full deck holds them.
pub open spec fn suit_at(i: int) -> Suit {
    if i == 0 {
        Suit::Hearts
    } else if i == 1 {
        Suit::Diamonds
    } else if i == 2 {
        Suit::Clubs
    } else {
        Suit::Spades
    }
}

/// The card at position `i` of a full deck: the suits one after the other,
/// each from the two up to the ace.
pub open spec fn deck_card(i: int) -> Card {
    Card { suit: suit_at(i / 13), value: (2 + i % 13) as i32 }
}

/// The 52 cards, in the order of a new deck.
pub open spec fn is_full_deck(deck: Seq<Card>) -> bool {
    &&& deck.len() == 52
    &&& forall|i: int| 0 <= i < 52 ==> #[trigger] deck[i] == deck_card(i)
}

/// A full deck holds every card of every suit with a rank from 2 to 14, and
/// none of them twice.
pub proof fn lemma_full_deck(deck: Seq<Card>)
    requires
        is_full_deck(deck),
    ensures
        distinct_cards(deck),
        valid_cards(deck),
        forall|card: Card| valid_rank(card.value as int) ==> #[trigger] deck.contains(card),
{
    assert forall|i: int, j: int| 0 <= i < j < deck.len() implies deck[i] != deck[j] by {
        assert(deck[i] == deck_card(i) && deck[j] == deck_card(j));
        if i / 13 == j / 13 {
            assert(i % 13 != j % 13);
        }
    }
    assert forall|i: int| 0 <= i < deck.len() implies valid_rank(
        (#[trigger] deck[i]).value as int,
    ) by {
        assert(deck[i] == deck_card(i));
    }
    assert forall|card: Card| valid_rank(card.value as int) implies #[trigger] deck.contains(
        card,
    ) by {
        let value = card.value;
        let s: int = match card.suit {
            Suit::Hearts => 0,
            Suit::Diamonds => 1,
            Suit::Clubs => 2,
            Suit::Spades => 3,
        };
        let i = s * 13 + (value - 2);
        assert(i / 13 == s && i % 13 == value - 2);
        assert(deck[i] == deck_card(i));
    }
}

/// Whatever a royal flush is scored with, it ranks above every hand of
/// another category.
pub proof fn lemma_royal_flush_outranks(royal: Seq<Card>, other: Seq<Card>)
    requires
        hand_type_of(royal) == HandType::RoyalFlush,
        hand_type_of(other) != HandType::RoyalFlush,
    ensures
        hand_score(other).below(hand_score(royal)),
{
}

/// Of two hands exactly one holds: the first ranks below the second, the two
/// are worth the same, or the second ranks below the first.
pub proof fn lemma_hands_are_comparable(a: Seq<Card>, b: Seq<Card>)
    ensures
        hand_score(a).below(hand_score(b)) || hand_score(a) == hand_score(b) || hand_score(
            b,
        ).below(hand_score(a)),
        !(hand_score(a).below(hand_score(b)) && hand_score(a) == hand_score(b)),
        !(hand_score(a).below(hand_score(b)) && hand_score(b).below(hand_score(a))),
        !(hand_score(a) == hand_score(b) && hand_score(b).below(hand_score(a))),
{
}

/// Ranks are totally ordered.
pub proof fn lemma_rank_leq_total()
    ensures
        total_ordering(rank_leq()),
{
}

/// Sorting keeps the ranks as they are, their number included, and puts them
/// in ascending order.
pub proof fn lemma_sorted_ranks(cards: Seq<Card>)
    ensures
        sorted_ranks(cards).len() == cards.len(),
        sorted_ranks(cards).to_multiset() == ranks_of(cards).to_multiset(),
        sorted_by(sorted_ranks(cards), rank_leq()),
        valid_cards(cards) ==> forall|i: int|
            0 <= i < cards.len() ==> valid_rank(#[trigger] sorted_ranks(cards)[i] as int),
{
    broadcast use vstd::seq_lib::group_to_multiset_ensures;

    let r = ranks_of(cards);
    let s = sorted_ranks(cards);
    r.lemma_sort_by_ensures(rank_leq());
    assert(s.len() == r.len()) by {
        assert(s.to_multiset().len() == r.to_multiset().len());
    }
    if valid_cards(cards) {
        assert forall|i: int| 0 <= i < cards.len() implies valid_rank(#[trigger] s[i] as int) by {
            assert(s.contains(s[i]));
            assert(r.contains(s[i]));
            let j = choose|j: int| 0 <= j < r.len() && r[j] == s[i];
            assert(r[j] == cards[j].value);
        }
    }
}

} // verus!
