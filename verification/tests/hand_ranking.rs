use holdem::game::hand::{Card, Hand, HandScore, HandType, OnePlayerAllPossibleCards, Suit};

fn cards_of(cards: &[(Suit, i32)]) -> Vec<Card> {
    let mut out = Vec::new();
    for (suit, value) in cards {
        out.push(Card::new(*suit, *value));
    }
    out
}

fn hand_of(cards: &[(Suit, i32)]) -> Hand {
    let cards = cards_of(cards);
    assert!(Hand::is_valid(&cards));
    Hand::new(cards)
}

fn score_of(cards: &[(Suit, i32)]) -> HandScore {
    hand_of(cards).check_hand()
}

const H: Suit = Suit::Hearts;
const D: Suit = Suit::Diamonds;
const C: Suit = Suit::Clubs;
const S: Suit = Suit::Spades;

#[test]
fn royal_flush_is_recognised() {
    let score = score_of(&[(S, 10), (S, 11), (S, 12), (S, 13), (S, 14)]);
    assert_eq!(score.get_hand_type(), HandType::RoyalFlush);
    assert_eq!(score.get_score(), 2660);
}

#[test]
fn royal_flush_outranks_other_hands() {
    let royal = score_of(&[(S, 10), (S, 11), (S, 12), (S, 13), (S, 14)]);
    let others = [
        score_of(&[(H, 9), (H, 10), (H, 11), (H, 12), (H, 13)]),
        score_of(&[(H, 14), (D, 14), (C, 14), (S, 14), (H, 13)]),
        score_of(&[(H, 14), (D, 14), (C, 14), (S, 13), (H, 13)]),
        score_of(&[(H, 2), (H, 9), (H, 11), (H, 12), (H, 14)]),
        score_of(&[(H, 2), (D, 9), (C, 11), (S, 12), (H, 14)]),
    ];
    for other in others.iter() {
        assert!(*other < royal);
        assert!(royal > *other);
        assert!(other.get_hand_type() < HandType::RoyalFlush);
    }
}

#[test]
fn wheel_is_the_lowest_straight() {
    let wheel = score_of(&[(C, 2), (D, 3), (H, 4), (S, 5), (C, 14)]);
    let seven_high = score_of(&[(C, 3), (D, 4), (H, 5), (S, 6), (C, 7)]);
    let six_high = score_of(&[(C, 2), (D, 3), (H, 4), (S, 5), (C, 6)]);
    assert_eq!(wheel.get_hand_type(), HandType::Straight);
    assert_eq!(seven_high.get_hand_type(), HandType::Straight);
    assert_eq!(wheel.get_score(), 14 * (1 + 2 * 2 + 3 * 3 + 4 * 4 + 5 * 5));
    assert_eq!(seven_high.get_score(), 14 * (3 + 4 * 2 + 5 * 3 + 6 * 4 + 7 * 5));
    assert!(wheel < seven_high);
    assert!(wheel < six_high);
}

#[test]
fn wheel_checks() {
    let wheel = hand_of(&[(C, 2), (D, 3), (H, 4), (S, 5), (C, 14)]);
    assert!(wheel.check_straight());
    assert!(!wheel.check_flush());
    assert!(!wheel.check_royal());
    assert!(!wheel.check_straight_flush());
    assert!(!wheel.check_royal_flush());
}

#[test]
fn steel_wheel_is_a_straight_flush() {
    let score = score_of(&[(C, 2), (C, 3), (C, 4), (C, 5), (C, 14)]);
    assert_eq!(score.get_hand_type(), HandType::StraightFlush);
    assert_eq!(score.get_score(), 770);
}

#[test]
fn straight_flush_score() {
    let hand = hand_of(&[(H, 9), (H, 10), (H, 11), (H, 12), (H, 13)]);
    assert!(hand.check_straight_flush());
    assert!(!hand.check_royal_flush());
    let score = hand.check_hand();
    assert_eq!(score.get_hand_type(), HandType::StraightFlush);
    assert_eq!(score.get_score(), 14 * (9 + 10 * 2 + 11 * 3 + 12 * 4 + 13 * 5));
}

#[test]
fn flush_score_is_the_weighted_sum() {
    let hand = hand_of(&[(H, 12), (H, 2), (H, 14), (H, 9), (H, 11)]);
    assert!(hand.check_flush());
    let score = hand.check_hand();
    assert_eq!(score.get_hand_type(), HandType::Flush);
    assert_eq!(score.get_score(), 14 * (2 + 9 * 2 + 11 * 3 + 12 * 4 + 14 * 5));
}

#[test]
fn high_card_score_is_the_weighted_sum() {
    let score = score_of(&[(H, 2), (D, 9), (C, 11), (S, 12), (H, 14)]);
    assert_eq!(score.get_hand_type(), HandType::HighCard);
    assert_eq!(score.get_score(), 14 * (2 + 9 * 2 + 11 * 3 + 12 * 4 + 14 * 5));
}

#[test]
fn pair_score() {
    let score = score_of(&[(H, 9), (D, 9), (C, 4), (S, 12), (H, 14)]);
    assert_eq!(score.get_hand_type(), HandType::Pair);
    assert_eq!(score.get_score(), 9 * 6188 + 14 * (4 + 12 * 2 + 14 * 3));
}

#[test]
fn two_pair_score() {
    let score = score_of(&[(H, 9), (D, 9), (C, 4), (S, 4), (H, 14)]);
    assert_eq!(score.get_hand_type(), HandType::TwoPair);
    assert_eq!(score.get_score(), (9 + 9 + 4 + 4) * 3848 + 14 * 14);
}

#[test]
fn three_of_a_kind_score() {
    let score = score_of(&[(H, 9), (D, 9), (C, 9), (S, 4), (H, 14)]);
    assert_eq!(score.get_hand_type(), HandType::ThreeOfAKind);
    assert_eq!(score.get_score(), 27 * 624 + 14 * (4 + 14 * 2));
}

#[test]
fn full_house_score() {
    let threes_over_twos = score_of(&[(C, 3), (D, 3), (H, 3), (C, 2), (D, 2)]);
    assert_eq!(threes_over_twos.get_hand_type(), HandType::FullHouse);
    assert_eq!(threes_over_twos.get_score(), 3 * 14 + 2);
    let twos_over_aces = score_of(&[(C, 2), (D, 2), (H, 2), (C, 14), (D, 14)]);
    assert_eq!(twos_over_aces.get_hand_type(), HandType::FullHouse);
    assert_eq!(twos_over_aces.get_score(), 2 * 14 + 14);
    assert!(twos_over_aces < threes_over_twos);
}

#[test]
fn four_of_a_kind_score() {
    let score = score_of(&[(H, 9), (D, 9), (C, 9), (S, 9), (H, 14)]);
    assert_eq!(score.get_hand_type(), HandType::FourOfAKind);
    assert_eq!(score.get_score(), 36 * 10764 + 14 * 14);
}

#[test]
fn categories_are_ranked_in_order() {
    let ranked = [
        score_of(&[(H, 2), (D, 9), (C, 11), (S, 12), (H, 14)]),
        score_of(&[(H, 9), (D, 9), (C, 4), (S, 12), (H, 14)]),
        score_of(&[(H, 9), (D, 9), (C, 4), (S, 4), (H, 14)]),
        score_of(&[(H, 9), (D, 9), (C, 9), (S, 4), (H, 14)]),
        score_of(&[(C, 3), (D, 4), (H, 5), (S, 6), (C, 7)]),
        score_of(&[(H, 12), (H, 2), (H, 14), (H, 9), (H, 11)]),
        score_of(&[(C, 3), (D, 3), (H, 3), (C, 2), (D, 2)]),
        score_of(&[(H, 9), (D, 9), (C, 9), (S, 9), (H, 14)]),
        score_of(&[(H, 9), (H, 10), (H, 11), (H, 12), (H, 13)]),
        score_of(&[(S, 10), (S, 11), (S, 12), (S, 13), (S, 14)]),
    ];
    let kinds = [
        HandType::HighCard,
        HandType::Pair,
        HandType::TwoPair,
        HandType::ThreeOfAKind,
        HandType::Straight,
        HandType::Flush,
        HandType::FullHouse,
        HandType::FourOfAKind,
        HandType::StraightFlush,
        HandType::RoyalFlush,
    ];
    for i in 0..ranked.len() {
        assert_eq!(ranked[i].get_hand_type(), kinds[i]);
        assert_eq!(kinds[i].rank_index() as usize, i);
        for j in 0..ranked.len() {
            assert_eq!(ranked[i] < ranked[j], i < j);
            assert_eq!(ranked[i] > ranked[j], i > j);
            assert_eq!(ranked[i] == ranked[j], i == j);
            assert_eq!(ranked[i].is_below(&ranked[j]), i < j);
            assert_eq!(kinds[i] < kinds[j], i < j);
        }
    }
}

#[test]
fn exactly_one_of_less_equal_greater() {
    let scores = [
        score_of(&[(H, 9), (D, 9), (C, 4), (S, 12), (H, 14)]),
        score_of(&[(S, 9), (C, 9), (D, 4), (H, 12), (D, 14)]),
        score_of(&[(H, 9), (D, 9), (C, 5), (S, 12), (H, 14)]),
        score_of(&[(H, 10), (D, 10), (C, 4), (S, 12), (H, 14)]),
        score_of(&[(C, 3), (D, 4), (H, 5), (S, 6), (C, 7)]),
    ];
    for a in scores.iter() {
        for b in scores.iter() {
            let holds = [a < b, a == b, a > b];
            assert_eq!(holds.iter().filter(|h| **h).count(), 1);
        }
    }
    assert!(scores[0] == scores[1]);
    assert!(scores[0] < scores[2]);
    assert!(scores[2] < scores[3]);
}

#[test]
fn category_decides_before_score() {
    let strong_pair = score_of(&[(H, 14), (D, 14), (C, 13), (S, 12), (H, 11)]);
    let weak_two_pair = score_of(&[(H, 2), (D, 2), (C, 3), (S, 3), (H, 4)]);
    assert!(strong_pair.get_score() > weak_two_pair.get_score());
    assert!(strong_pair < weak_two_pair);
}

#[test]
fn hand_validity() {
    assert!(Hand::is_valid(&cards_of(&[(H, 2), (D, 9), (C, 11), (S, 12), (H, 14)])));
    assert!(!Hand::is_valid(&cards_of(&[(H, 2), (D, 9), (C, 11), (S, 12)])));
    assert!(!Hand::is_valid(&cards_of(&[(H, 2), (D, 9), (C, 11), (S, 12), (H, 14), (H, 3)])));
    assert!(!Hand::is_valid(&cards_of(&[(H, 2), (D, 9), (C, 11), (S, 12), (H, 2)])));
    assert!(!Hand::is_valid(&cards_of(&[(H, 1), (D, 9), (C, 11), (S, 12), (H, 14)])));
    assert!(!Hand::is_valid(&cards_of(&[(H, 2), (D, 9), (C, 11), (S, 12), (H, 15)])));
}

#[test]
fn hand_keeps_its_cards() {
    let cards = cards_of(&[(H, 2), (D, 9), (C, 11), (S, 12), (H, 14)]);
    let mut hand = Hand::new(cards.clone());
    assert_eq!(*hand.get_cards(), cards);
    assert_eq!(hand.sorted_values(), vec![2, 9, 11, 12, 14]);
    hand.add_card(Card::new(H, 2));
    assert_eq!(hand.get_cards().len(), 5);
    hand.add_card(Card::new(S, 2));
    assert_eq!(hand.get_cards().len(), 6);
    assert_eq!(hand.get_cards()[5], Card::new(S, 2));
}

#[test]
fn pairs_are_found() {
    let hand = hand_of(&[(H, 9), (D, 9), (C, 4), (S, 12), (H, 14)]);
    let (groups, value, best) = hand.check_pair().unwrap();
    assert_eq!(groups, vec![cards_of(&[(H, 9), (D, 9)])]);
    assert_eq!(value, 9);
    assert_eq!(best, cards_of(&[(H, 9), (D, 9)]));
    assert!(hand.check_two_pair().is_none());
    assert!(hand.check_three_of_a_kind().is_none());
    assert!(hand.check_four_of_a_kind().is_none());
    assert!(hand.check_full_house().is_none());
    let none = hand_of(&[(H, 2), (D, 9), (C, 11), (S, 12), (H, 14)]);
    assert!(none.check_pair().is_none());
}

#[test]
fn three_cards_of_a_rank_make_three_pairs() {
    let hand = hand_of(&[(H, 9), (D, 9), (C, 9), (S, 4), (H, 14)]);
    let (groups, value, best) = hand.check_pair().unwrap();
    assert_eq!(groups.len(), 3);
    assert!(groups.contains(&cards_of(&[(H, 9), (D, 9)])));
    assert!(groups.contains(&cards_of(&[(H, 9), (C, 9)])));
    assert!(groups.contains(&cards_of(&[(D, 9), (C, 9)])));
    assert_eq!(value, 9);
    assert!(groups.contains(&best));
    let (threes, sum, top) = hand.check_three_of_a_kind().unwrap();
    assert_eq!(threes, vec![cards_of(&[(H, 9), (D, 9), (C, 9)])]);
    assert_eq!(sum, 27);
    assert_eq!(top, cards_of(&[(H, 9), (D, 9), (C, 9)]));
}

#[test]
fn two_pairs_are_found_in_both_orders() {
    let hand = hand_of(&[(H, 9), (D, 9), (C, 4), (S, 4), (H, 14)]);
    let (groups, value, best) = hand.check_two_pair().unwrap();
    assert_eq!(groups.len(), 2);
    assert!(groups.contains(&cards_of(&[(H, 9), (D, 9), (C, 4), (S, 4)])));
    assert!(groups.contains(&cards_of(&[(C, 4), (S, 4), (H, 9), (D, 9)])));
    assert_eq!(value, 26);
    assert!(groups.contains(&best));
    let (pairs, rank, top) = hand.check_pair().unwrap();
    assert_eq!(pairs.len(), 2);
    assert_eq!(rank, 9);
    assert_eq!(top, cards_of(&[(H, 9), (D, 9)]));
}

#[test]
fn four_of_a_kind_is_found() {
    let hand = hand_of(&[(H, 9), (D, 9), (C, 9), (S, 9), (H, 14)]);
    let (groups, value, best) = hand.check_four_of_a_kind().unwrap();
    assert_eq!(groups, vec![cards_of(&[(H, 9), (D, 9), (C, 9), (S, 9)])]);
    assert_eq!(value, 36);
    assert_eq!(best, groups[0]);
    let (threes, _, _) = hand.check_three_of_a_kind().unwrap();
    assert_eq!(threes.len(), 4);
    let (pairs, _, _) = hand.check_pair().unwrap();
    assert_eq!(pairs.len(), 6);
}

#[test]
fn full_house_is_found() {
    let hand = hand_of(&[(C, 3), (D, 2), (D, 3), (C, 2), (H, 3)]);
    let (groups, value, best) = hand.check_full_house().unwrap();
    assert_eq!(groups, vec![cards_of(&[(C, 3), (D, 3), (H, 3), (D, 2), (C, 2)])]);
    assert_eq!(value, 13);
    assert_eq!(best, groups[0]);
    let trips = hand_of(&[(H, 9), (D, 9), (C, 9), (S, 4), (H, 14)]);
    assert!(trips.check_full_house().is_none());
}

#[test]
fn high_card_is_found() {
    let hand = hand_of(&[(H, 2), (D, 9), (C, 14), (S, 12), (H, 11)]);
    let (groups, value, best) = hand.check_high_card().unwrap();
    assert_eq!(groups.len(), 5);
    assert_eq!(groups[2], cards_of(&[(C, 14)]));
    assert_eq!(value, 14);
    assert_eq!(best, cards_of(&[(C, 14)]));
}

#[test]
fn best_of_seven_finds_the_only_flush() {
    let cards = cards_of(&[(H, 2), (H, 9), (H, 11), (D, 12), (H, 14), (S, 9), (H, 5)]);
    assert!(OnePlayerAllPossibleCards::is_valid(&cards));
    let seven = OnePlayerAllPossibleCards::new(cards);
    let best = seven.get_highest_hand_score();
    let flush = score_of(&[(H, 2), (H, 5), (H, 9), (H, 11), (H, 14)]);
    assert_eq!(flush.get_hand_type(), HandType::Flush);
    assert!(best == flush);
    assert_eq!(best.get_score(), 14 * (2 + 5 * 2 + 9 * 3 + 11 * 4 + 14 * 5));
}

#[test]
fn best_of_seven_prefers_a_stronger_hand() {
    let cards = cards_of(&[(S, 3), (D, 3), (C, 3), (D, 2), (S, 2), (H, 11), (H, 3)]);
    let seven = OnePlayerAllPossibleCards::new(cards);
    let best = seven.get_highest_hand_score();
    assert_eq!(best.get_hand_type(), HandType::FourOfAKind);
    assert_eq!(best.get_score(), 12 * 10764 + 11 * 14);
}

#[test]
fn best_of_seven_is_at_least_every_choice_of_five() {
    let cards = cards_of(&[(S, 3), (D, 8), (C, 3), (D, 2), (S, 13), (H, 11), (H, 8)]);
    let seven = OnePlayerAllPossibleCards::new(cards.clone());
    let best = seven.get_highest_hand_score();
    let mut reached = false;
    for a in 0..7 {
        for b in (a + 1)..7 {
            let mut five = Vec::new();
            for i in 0..7 {
                if i != a && i != b {
                    five.push(cards[i]);
                }
            }
            let score = Hand::new(five).check_hand();
            assert!(!(best < score));
            if score == best {
                reached = true;
            }
        }
    }
    assert!(reached);
    assert_eq!(best.get_hand_type(), HandType::TwoPair);
}

#[test]
fn seven_cards_validity() {
    let cards = cards_of(&[(S, 3), (D, 8), (C, 3), (D, 2), (S, 13), (H, 11), (H, 8)]);
    assert!(OnePlayerAllPossibleCards::is_valid(&cards));
    assert!(!OnePlayerAllPossibleCards::is_valid(&cards[..6].to_vec()));
    let mut twice = cards.clone();
    twice[6] = twice[0];
    assert!(!OnePlayerAllPossibleCards::is_valid(&twice));
    let mut seven = OnePlayerAllPossibleCards::new(cards.clone());
    assert_eq!(*seven.get_cards(), cards);
    seven.add_card(Card::new(H, 4));
    assert_eq!(seven.get_cards().len(), 8);
}

#[test]
fn full_deck_holds_every_card_once() {
    let deck = Card::new_full_deck();
    assert_eq!(deck.len(), 52);
    for suit in [H, D, C, S] {
        for value in 2..=14 {
            let card = Card::new(suit, value);
            assert_eq!(deck.iter().filter(|c| **c == card).count(), 1);
        }
    }
    assert_eq!(deck[0], Card::new(H, 2));
    assert_eq!(deck[51], Card::new(S, 14));
}

#[test]
fn cards_in_words() {
    assert_eq!(Card::new(H, 12).to_string(), "Queen of Hearts");
    assert_eq!(Card::new(C, 7).to_string(), "7 of Clubs");
    assert_eq!(Card::new(D, 10).to_string(), "10 of Diamonds");
    assert_eq!(Card::new(S, 14).to_string(), "Ace of Spades");
    assert_eq!(Card::new(S, 11).to_string(), "Jack of Spades");
    assert_eq!(Card::new(S, 13).to_string(), "King of Spades");
    assert_eq!(Card::new(S, 1).to_string(), " of Spades");
    assert_eq!(Suit::Diamonds.to_string(), "Diamonds");
    assert_eq!(HandType::ThreeOfAKind.to_string(), "Three of a Kind");
    assert_eq!(HandType::HighCard.to_string(), "High Card");
}

#[test]
fn scores_in_words() {
    let flush = score_of(&[(H, 12), (H, 2), (H, 14), (H, 9), (H, 11)]);
    assert_eq!(flush.to_string(), "Flush with a score of 2394");
    let made = HandScore { hand_type: HandType::Pair, score: -40 };
    assert_eq!(made.to_string(), "Pair with a score of -40");
}

fn assert_all_selections(n: usize, k: usize, count: usize) {
    let all = holdem::game::selection::selections(n, k);
    assert_eq!(all.len(), count);
    for picked in all.iter() {
        assert_eq!(picked.len(), k);
        for i in 0..k {
            assert!(picked[i] < n);
            if i > 0 {
                assert!(picked[i - 1] < picked[i]);
            }
        }
    }
    for a in 0..all.len() {
        for b in (a + 1)..all.len() {
            assert_ne!(all[a], all[b]);
        }
    }
}

#[test]
fn every_selection_comes_once() {
    assert_all_selections(7, 5, 21);
    assert_all_selections(5, 2, 10);
    assert_all_selections(5, 3, 10);
    assert_all_selections(5, 4, 5);
    assert_all_selections(2, 1, 2);
    assert_eq!(
        holdem::game::selection::selections(4, 2),
        vec![vec![0, 1], vec![0, 2], vec![0, 3], vec![1, 2], vec![1, 3], vec![2, 3]]
    );
}

#[test]
fn cards_are_picked_by_position() {
    let cards = cards_of(&[(H, 2), (D, 9), (C, 11), (S, 12), (H, 14)]);
    let picked = holdem::game::selection::pick_cards(&cards, &vec![1, 3, 4]);
    assert_eq!(picked, cards_of(&[(D, 9), (S, 12), (H, 14)]));
}
