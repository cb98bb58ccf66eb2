use holdem::game::hand::{Card, HandScore, HandType, Suit};
use holdem::game::player::Player;
use holdem::game::table::{Decision, RoundOutcome};
use holdem::game::{draw_card, draw_cards, Game, GameError, HandProgress, HandResult};

const H: Suit = Suit::Hearts;
const D: Suit = Suit::Diamonds;
const C: Suit = Suit::Clubs;
const S: Suit = Suit::Spades;

fn table(big_blind: i32, stacks: &[i32]) -> Game {
    let mut game = Game::new(77, big_blind, 1000);
    for (i, stack) in stacks.iter().enumerate() {
        let id = 10 + i as i32;
        game.add_player(Player::new(id, format!("Player#{}", id), *stack));
    }
    game
}

fn two(first: (Suit, i32), second: (Suit, i32)) -> Vec<Card> {
    vec![Card::new(first.0, first.1), Card::new(second.0, second.1)]
}

fn plain_hole(seats: usize) -> Vec<Vec<Card>> {
    let ranks = [(2, 7), (3, 8), (4, 9), (5, 10), (6, 11)];
    let mut hole = Vec::new();
    for seat in 0..seats {
        hole.push(two((H, ranks[seat].0), (D, ranks[seat].1)));
    }
    hole
}

fn stacks(game: &Game, seats: usize) -> Vec<i32> {
    (0..seats).map(|seat| game.get_stack(seat).unwrap()).collect()
}

fn chips(game: &Game, seats: usize) -> i32 {
    stacks(game, seats).iter().sum::<i32>() + game.get_pot_size()
}

#[test]
fn new_table_is_empty() {
    let game = Game::new(5, 20, 1000);
    assert_eq!(game.get_game_id(), 5);
    assert_eq!(game.get_big_blind(), 20);
    assert_eq!(game.get_num_players(), 0);
    assert_eq!(game.get_current_bet(), 20);
    assert!(game.get_community_cards().is_empty());
    assert_eq!(game.get_stack(0), None);
    assert!(!game.is_ready());
}

#[test]
fn rounds_are_played_while_players_are_seated() {
    let game = table(10, &[100, 200, 300]);
    assert!(game.plays_round(1));
    assert!(game.plays_round(4));
    assert!(!game.plays_round(5));
    assert_eq!(holdem::game::MAX_ROUND, 5);
    let alone = table(10, &[100]);
    assert!(!alone.plays_round(1));
}

#[test]
fn players_are_seated_in_order() {
    let game = table(10, &[100, 200, 300]);
    assert_eq!(game.get_num_players(), 3);
    assert_eq!(stacks(&game, 3), vec![100, 200, 300]);
    let second = game.get_player(1).unwrap();
    assert_eq!(second.get_player_id(), 11);
    assert_eq!(second.get_name(), "Player#11");
    assert_eq!(second.get_money(), 200);
    assert!(second.get_hole_cards().is_empty());
    assert!(game.get_player(3).is_none());
    assert!(game.is_ready());
}

#[test]
fn blinds_keep_the_chips() {
    let mut game = table(10, &[1000, 1000, 1000]);
    let outcome = game.begin_hand(plain_hole(3)).unwrap();
    assert_eq!(outcome, RoundOutcome::AwaitingAction(12));
    assert_eq!(stacks(&game, 3), vec![995, 990, 1000]);
    assert_eq!(stacks(&game, 3).iter().sum::<i32>(), 2985);
    assert_eq!(game.get_pot_size(), 15);
    assert_eq!(chips(&game, 3), 3000);
    assert_eq!(game.get_current_bet(), 10);
    assert_eq!(game.get_contribution(0), Some(5));
    assert_eq!(game.get_contribution(1), Some(10));
    assert_eq!(game.get_street_contribution(1), Some(10));
    assert_eq!(game.get_turn_queue(), vec![12, 10, 11]);
    assert_eq!(game.get_turn_seats(), vec![2, 0, 1]);
    assert_eq!(game.get_pot_levels(), vec![5, 10]);
    assert_eq!(game.get_pot_seats(0), vec![0, 1]);
    assert_eq!(game.get_pot_seats(1), vec![1]);
}

#[test]
fn chips_are_kept_through_a_hand() {
    let mut game = table(10, &[1000, 1000, 1000]);
    let mut deck = Card::new_full_deck();
    let mut outcome = game.deal_hole_cards(&mut deck).unwrap();
    assert_eq!(deck.len(), 46);
    assert_eq!(chips(&game, 3), 3000);
    let plan = [
        Decision::RaiseTo(40),
        Decision::CheckOrCall,
        Decision::CheckOrCall,
        Decision::CheckOrCall,
        Decision::RaiseTo(100),
        Decision::Fold,
        Decision::CheckOrCall,
        Decision::CheckOrCall,
        Decision::AllIn,
        Decision::CheckOrCall,
    ];
    let mut next = 0;
    let mut steps = 0;
    loop {
        steps += 1;
        assert!(steps < 100);
        match outcome {
            RoundOutcome::AwaitingAction(player) => {
                assert_eq!(game.next_actor(), Some(player));
                let decision = if next < plan.len() { plan[next] } else { Decision::CheckOrCall };
                next += 1;
                assert!(game.is_well_formed());
                outcome = game.apply_decision(player, decision).unwrap();
                assert_eq!(chips(&game, 3), 3000);
                assert!(game.has_sound_funds());
            }
            _ => {
                assert_eq!(game.next_actor(), None);
                assert!(game.is_well_formed());
                match game.advance_hand(&mut deck).unwrap() {
                    HandProgress::Street(then) => {
                        outcome = then;
                        assert_eq!(chips(&game, 3), 3000);
                    }
                    HandProgress::Finished(result) => {
                        assert_eq!(result.deltas.iter().sum::<i32>(), 0);
                        assert_eq!(result.deltas.len(), 3);
                        for seat in 0..3 {
                            assert_eq!(game.get_stack(seat), Some(1000 + result.deltas[seat]));
                        }
                        break;
                    }
                }
            }
        }
    }
    assert_eq!(game.get_pot_size(), 0);
    assert_eq!(stacks(&game, 3).iter().sum::<i32>(), 3000);
    assert!(game.get_community_cards().is_empty());
    assert!(game.get_pot_levels().is_empty());
}

#[test]
fn round_closes_when_all_have_answered_the_raise() {
    let mut game = table(10, &[1000, 1000, 1000, 1000]);
    assert_eq!(game.begin_hand(plain_hole(4)), Ok(RoundOutcome::AwaitingAction(12)));
    assert_eq!(
        game.apply_decision(12, Decision::RaiseTo(30)),
        Ok(RoundOutcome::AwaitingAction(13))
    );
    assert_eq!(game.get_current_bet(), 30);
    assert_eq!(game.apply_decision(13, Decision::CheckOrCall),
        Ok(RoundOutcome::AwaitingAction(10)));
    assert_eq!(game.apply_decision(10, Decision::CheckOrCall),
        Ok(RoundOutcome::AwaitingAction(11)));
    assert_eq!(game.round_outcome(), RoundOutcome::AwaitingAction(11));
    assert_eq!(game.apply_decision(11, Decision::CheckOrCall), Ok(RoundOutcome::RoundComplete));
    assert_eq!(game.next_actor(), None);
    assert_eq!(stacks(&game, 4), vec![970, 970, 970, 970]);
    assert_eq!(game.get_pot_size(), 120);
    assert_eq!(
        game.apply_decision(12, Decision::CheckOrCall),
        Err(GameError::NoActionPending)
    );
}

#[test]
fn round_closes_when_the_others_match_or_fold() {
    let mut game = table(10, &[1000, 1000, 1000, 1000]);
    game.begin_hand(plain_hole(4)).unwrap();
    game.apply_decision(12, Decision::RaiseTo(30)).unwrap();
    assert_eq!(game.apply_decision(13, Decision::Fold), Ok(RoundOutcome::AwaitingAction(10)));
    assert_eq!(game.apply_decision(10, Decision::CheckOrCall),
        Ok(RoundOutcome::AwaitingAction(11)));
    assert_eq!(game.apply_decision(11, Decision::Fold), Ok(RoundOutcome::RoundComplete));
    assert_eq!(game.get_turn_queue(), vec![12, 10]);
    assert!(!game.is_in_round(3));
    assert!(game.is_in_round(0));
}

#[test]
fn a_second_raise_opens_the_round_again() {
    let mut game = table(10, &[1000, 1000, 1000, 1000]);
    game.begin_hand(plain_hole(4)).unwrap();
    game.apply_decision(12, Decision::RaiseTo(30)).unwrap();
    game.apply_decision(13, Decision::CheckOrCall).unwrap();
    assert_eq!(game.apply_decision(10, Decision::RaiseTo(90)),
        Ok(RoundOutcome::AwaitingAction(11)));
    assert_eq!(game.apply_decision(11, Decision::CheckOrCall),
        Ok(RoundOutcome::AwaitingAction(12)));
    assert_eq!(game.apply_decision(12, Decision::CheckOrCall),
        Ok(RoundOutcome::AwaitingAction(13)));
    assert_eq!(game.apply_decision(13, Decision::CheckOrCall), Ok(RoundOutcome::RoundComplete));
    assert_eq!(stacks(&game, 4), vec![910, 910, 910, 910]);
}

#[test]
fn big_blind_may_act_after_the_calls() {
    let mut game = table(10, &[1000, 1000, 1000]);
    game.begin_hand(plain_hole(3)).unwrap();
    assert_eq!(game.apply_decision(12, Decision::CheckOrCall),
        Ok(RoundOutcome::AwaitingAction(10)));
    assert_eq!(game.apply_decision(10, Decision::CheckOrCall),
        Ok(RoundOutcome::AwaitingAction(11)));
    assert_eq!(game.apply_decision(11, Decision::CheckOrCall), Ok(RoundOutcome::RoundComplete));
    assert_eq!(stacks(&game, 3), vec![990, 990, 990]);
}

#[test]
fn checking_around_closes_the_round_after_one_pass() {
    let mut game = table(10, &[1000, 1000, 1000]);
    game.begin_hand(plain_hole(3)).unwrap();
    game.apply_decision(12, Decision::CheckOrCall).unwrap();
    game.apply_decision(10, Decision::CheckOrCall).unwrap();
    game.apply_decision(11, Decision::CheckOrCall).unwrap();
    let flop = vec![Card::new(S, 2), Card::new(S, 9), Card::new(C, 13)];
    assert_eq!(game.open_street(flop.clone()), RoundOutcome::AwaitingAction(10));
    assert_eq!(*game.get_community_cards(), flop);
    assert_eq!(game.get_current_bet(), 0);
    assert_eq!(game.get_street_contribution(0), Some(0));
    assert_eq!(game.get_contribution(0), Some(10));
    assert_eq!(game.apply_decision(10, Decision::CheckOrCall),
        Ok(RoundOutcome::AwaitingAction(11)));
    assert_eq!(game.apply_decision(11, Decision::CheckOrCall),
        Ok(RoundOutcome::AwaitingAction(12)));
    assert_eq!(game.apply_decision(12, Decision::CheckOrCall), Ok(RoundOutcome::RoundComplete));
    assert_eq!(game.get_pot_size(), 30);
    assert_eq!(stacks(&game, 3), vec![990, 990, 990]);
}

#[test]
fn fold_to_one_ends_the_hand() {
    let mut game = table(10, &[1000, 1000, 1000, 1000]);
    game.begin_hand(plain_hole(4)).unwrap();
    assert_eq!(game.apply_decision(12, Decision::Fold), Ok(RoundOutcome::AwaitingAction(13)));
    assert_eq!(game.apply_decision(13, Decision::Fold), Ok(RoundOutcome::AwaitingAction(10)));
    assert_eq!(game.apply_decision(10, Decision::Fold), Ok(RoundOutcome::HandComplete(11)));
    assert_eq!(game.next_actor(), None);
    assert_eq!(game.apply_decision(11, Decision::CheckOrCall), Err(GameError::NoActionPending));
    let mut deck = Card::new_full_deck();
    assert_eq!(
        game.advance_hand(&mut deck),
        Ok(HandProgress::Finished(HandResult { deltas: vec![-5, 5, 0, 0], winning_hand: None }))
    );
    assert_eq!(deck.len(), 52);
    assert_eq!(stacks(&game, 4), vec![995, 1005, 1000, 1000]);
    assert_eq!(game.get_pot_size(), 0);
}

#[test]
fn fold_to_one_needs_no_hand_to_show() {
    let mut game = table(10, &[1000, 1000, 1000]);
    let same = vec![two((H, 2), (H, 2)), two((H, 2), (H, 2)), two((H, 2), (H, 2))];
    game.begin_hand(same).unwrap();
    game.apply_decision(12, Decision::RaiseTo(50)).unwrap();
    game.apply_decision(10, Decision::Fold).unwrap();
    assert_eq!(game.apply_decision(11, Decision::Fold), Ok(RoundOutcome::HandComplete(12)));
    assert_eq!(
        game.determine_winner(),
        Ok(HandResult { deltas: vec![-5, -10, 15], winning_hand: None })
    );
    assert_eq!(stacks(&game, 3), vec![995, 990, 1015]);
}

#[test]
fn refused_decisions_change_nothing() {
    let mut game = table(10, &[1000, 1000, 1000]);
    game.begin_hand(plain_hole(3)).unwrap();
    assert_eq!(game.apply_decision(10, Decision::CheckOrCall), Err(GameError::NotPlayersTurn));
    assert_eq!(game.apply_decision(12, Decision::RaiseTo(9)), Err(GameError::InvalidRaise));
    assert_eq!(game.apply_decision(12, Decision::RaiseTo(1001)), Err(GameError::InvalidRaise));
    assert_eq!(game.apply_decision(12, Decision::RaiseTo(-5)), Err(GameError::InvalidRaise));
    assert_eq!(stacks(&game, 3), vec![995, 990, 1000]);
    assert_eq!(game.get_turn_queue(), vec![12, 10, 11]);
    assert_eq!(game.next_actor(), Some(12));
    let mut deck = Card::new_full_deck();
    assert_eq!(game.advance_hand(&mut deck), Err(GameError::RoundNotComplete));
    assert_eq!(
        game.apply_decision(12, Decision::RaiseTo(10)),
        Ok(RoundOutcome::AwaitingAction(10))
    );
}

#[test]
fn a_raise_of_the_whole_stack_is_an_all_in() {
    let mut game = table(10, &[1000, 1000, 1000]);
    game.begin_hand(plain_hole(3)).unwrap();
    assert_eq!(
        game.apply_decision(12, Decision::RaiseTo(1000)),
        Ok(RoundOutcome::AwaitingAction(10))
    );
    assert_eq!(game.get_stack(2), Some(0));
    assert_eq!(game.get_turn_queue(), vec![10, 11]);
    assert_eq!(game.get_current_bet(), 1000);
}

#[test]
fn a_hand_needs_two_players_with_chips() {
    let mut game = table(10, &[1000, 0, 0]);
    assert!(!game.is_ready());
    assert_eq!(game.begin_hand(plain_hole(3)), Err(GameError::TableNotReady));
    let mut deck = Card::new_full_deck();
    assert_eq!(game.deal_hole_cards(&mut deck), Err(GameError::TableNotReady));
    assert_eq!(deck.len(), 52);
    let mut negative = table(10, &[1000, -5, 100]);
    assert_eq!(negative.begin_hand(plain_hole(3)), Err(GameError::TableNotReady));
    let mut too_rich = table(10, &[i32::MAX, 1, 1]);
    assert_eq!(too_rich.begin_hand(plain_hole(3)), Err(GameError::TableNotReady));
    let mut blind = table(-2, &[100, 100]);
    assert_eq!(blind.begin_hand(plain_hole(2)), Err(GameError::TableNotReady));
    let mut fine = table(10, &[1000, 1000, 0]);
    assert_eq!(fine.begin_hand(plain_hole(2)), Err(GameError::InvalidCards));
    let one_card = vec![two((H, 2), (D, 7)), vec![Card::new(S, 4)], Vec::new()];
    assert_eq!(fine.begin_hand(one_card), Err(GameError::InvalidCards));
    let none_for_the_broke = vec![two((H, 3), (D, 8)), two((H, 4), (D, 9)), Vec::new()];
    assert!(table(10, &[1000, 1000, 0]).begin_hand(none_for_the_broke).is_ok());
    assert_eq!(fine.begin_hand(plain_hole(3)), Ok(RoundOutcome::AwaitingAction(10)));
    assert!(!fine.is_in_round(2));
    assert!(fine.get_player(2).unwrap().get_hole_cards().is_empty());
    assert_eq!(fine.get_player(0).unwrap().get_hole_cards(), two((H, 2), (D, 7)));
}

#[test]
fn short_blinds_are_all_in() {
    let mut game = table(10, &[3, 7, 1000]);
    assert_eq!(game.begin_hand(plain_hole(3)), Ok(RoundOutcome::AwaitingAction(12)));
    assert_eq!(stacks(&game, 3), vec![0, 0, 1000]);
    assert_eq!(game.get_current_bet(), 10);
    assert_eq!(game.get_turn_queue(), vec![12]);
    assert_eq!(game.get_pot_levels(), vec![3, 7]);
    assert_eq!(game.apply_decision(12, Decision::CheckOrCall), Ok(RoundOutcome::RoundComplete));
    assert_eq!(game.get_pot_levels(), vec![3, 7, 10]);
    assert_eq!(game.get_pot_seats(0), vec![0, 1, 2]);
    assert_eq!(game.get_pot_seats(1), vec![1, 2]);
    assert_eq!(game.get_pot_seats(2), vec![2]);
    assert!(game.get_pot_seats(3).is_empty());
}

fn all_in_with(stacks_of: &[i32], hole: Vec<Vec<Card>>) -> Game {
    let mut game = table(0, stacks_of);
    assert_eq!(game.begin_hand(hole), Ok(RoundOutcome::AwaitingAction(12)));
    assert_eq!(game.apply_decision(12, Decision::AllIn), Ok(RoundOutcome::AwaitingAction(10)));
    assert_eq!(game.apply_decision(10, Decision::AllIn), Ok(RoundOutcome::AwaitingAction(11)));
    assert_eq!(game.apply_decision(11, Decision::AllIn), Ok(RoundOutcome::RoundComplete));
    game
}

fn board() -> Vec<Card> {
    vec![Card::new(C, 2), Card::new(D, 7), Card::new(H, 9), Card::new(C, 11), Card::new(D, 3)]
}

#[test]
fn side_pots_are_tiered_by_contribution() {
    let hole = vec![two((S, 14), (H, 14)), two((S, 13), (H, 13)), two((S, 12), (H, 12))];
    let game = all_in_with(&[50, 150, 300], hole);
    assert_eq!(game.get_pot_levels(), vec![50, 150, 300]);
    assert_eq!(game.get_pot_seats(0), vec![0, 1, 2]);
    assert_eq!(game.get_pot_seats(1), vec![1, 2]);
    assert_eq!(game.get_pot_seats(2), vec![2]);
    assert_eq!(game.get_pot_size(), 500);
    assert_eq!(stacks(&game, 3), vec![0, 0, 0]);
}

#[test]
fn short_stack_wins_only_the_main_pot() {
    let hole = vec![two((S, 14), (H, 14)), two((S, 13), (H, 13)), two((S, 12), (H, 12))];
    let mut game = all_in_with(&[50, 150, 300], hole);
    assert_eq!(game.open_street(board()), RoundOutcome::RoundComplete);
    let result = game.determine_winner().unwrap();
    assert_eq!(result.deltas, vec![100, 50, -150]);
    let aces = result.winning_hand.unwrap();
    assert_eq!(aces.get_hand_type(), HandType::Pair);
    assert_eq!(aces.get_score(), 14 * 6188 + 14 * (7 + 9 * 2 + 11 * 3));
    assert_eq!(stacks(&game, 3), vec![150, 200, 150]);
    assert_eq!(stacks(&game, 3).iter().sum::<i32>(), 500);
    assert_eq!(game.get_pot_size(), 0);
}

#[test]
fn deep_stack_with_the_best_hand_wins_everything() {
    let hole = vec![two((S, 12), (H, 12)), two((S, 13), (H, 13)), two((S, 14), (H, 14))];
    let mut game = all_in_with(&[50, 150, 300], hole);
    game.open_street(board());
    assert_eq!(game.determine_winner().unwrap().deltas, vec![-50, -150, 200]);
    assert_eq!(stacks(&game, 3), vec![0, 0, 500]);
}

#[test]
fn middle_stack_with_the_best_hand() {
    let hole = vec![two((S, 12), (H, 12)), two((S, 14), (H, 14)), two((S, 13), (H, 13))];
    let mut game = all_in_with(&[50, 150, 300], hole);
    game.open_street(board());
    assert_eq!(game.determine_winner().unwrap().deltas, vec![-50, 200, -150]);
    assert_eq!(stacks(&game, 3), vec![0, 350, 150]);
}

#[test]
fn equal_hands_go_to_the_first_seat() {
    let hole = vec![two((S, 14), (H, 13)), two((C, 14), (D, 13)), two((S, 4), (H, 5))];
    let mut game = all_in_with(&[100, 100, 100], hole);
    game.open_street(board());
    assert_eq!(game.determine_winner().unwrap().deltas, vec![200, -100, -100]);
    assert_eq!(stacks(&game, 3), vec![300, 0, 0]);
}

#[test]
fn settling_with_given_scores() {
    let hole = vec![two((S, 14), (H, 14)), two((S, 13), (H, 13)), two((S, 12), (H, 12))];
    let mut game = all_in_with(&[50, 150, 300], hole);
    let scores = vec![
        HandScore { hand_type: HandType::Pair, score: 10 },
        HandScore { hand_type: HandType::Flush, score: 1 },
        HandScore { hand_type: HandType::Pair, score: 90 },
    ];
    game.settle(&scores);
    assert_eq!(stacks(&game, 3), vec![0, 350, 150]);
    assert_eq!(game.get_pot_size(), 0);
    assert!(game.get_pot_levels().is_empty());
}

#[test]
fn a_side_pot_that_nobody_contends_for_goes_back() {
    let mut game = table(0, &[500, 200, 300]);
    game.begin_hand(vec![two((S, 2), (H, 3)), two((S, 14), (H, 14)), two((S, 13), (H, 13))])
        .unwrap();
    assert_eq!(game.apply_decision(12, Decision::AllIn), Ok(RoundOutcome::AwaitingAction(10)));
    assert_eq!(
        game.apply_decision(10, Decision::RaiseTo(400)),
        Ok(RoundOutcome::AwaitingAction(11))
    );
    assert_eq!(game.apply_decision(11, Decision::AllIn), Ok(RoundOutcome::RoundComplete));
    assert_eq!(game.open_street(board()), RoundOutcome::AwaitingAction(10));
    assert_eq!(game.apply_decision(10, Decision::Fold), Ok(RoundOutcome::RoundComplete));
    assert_eq!(game.get_pot_levels(), vec![200, 300, 400]);
    assert_eq!(game.determine_winner().unwrap().deltas, vec![-300, 400, -100]);
    assert_eq!(stacks(&game, 3), vec![200, 600, 200]);
    assert_eq!(stacks(&game, 3).iter().sum::<i32>(), 1000);
}

#[test]
fn showdown_needs_seven_cards() {
    let hole = vec![two((S, 14), (H, 14)), two((S, 13), (H, 13)), two((S, 12), (H, 12))];
    let mut game = all_in_with(&[50, 150, 300], hole);
    game.open_street(vec![Card::new(C, 2), Card::new(D, 7), Card::new(H, 9)]);
    assert_eq!(game.determine_winner(), Err(GameError::InvalidCards));
    assert_eq!(game.get_pot_size(), 500);
    assert_eq!(stacks(&game, 3), vec![0, 0, 0]);
    let twice = vec![two((S, 14), (H, 14)), two((S, 14), (H, 13)), two((S, 12), (H, 12))];
    let mut same_card = all_in_with(&[50, 150, 300], twice);
    same_card.open_street(vec![
        Card::new(C, 2),
        Card::new(D, 7),
        Card::new(H, 9),
        Card::new(C, 11),
        Card::new(H, 14),
    ]);
    assert_eq!(same_card.determine_winner(), Err(GameError::InvalidCards));
}

#[test]
fn streets_are_dealt_in_turn() {
    let mut game = table(10, &[1000, 1000]);
    let mut deck = Card::new_full_deck();
    assert_eq!(game.deal_hole_cards(&mut deck), Ok(RoundOutcome::AwaitingAction(10)));
    assert_eq!(deck.len(), 48);
    for seat in 0..2 {
        let cards = game.get_player(seat).unwrap().get_hole_cards();
        assert_eq!(cards.len(), 2);
        assert!(!deck.contains(&cards[0]) && !deck.contains(&cards[1]));
    }
    assert_eq!(game.apply_decision(10, Decision::CheckOrCall),
        Ok(RoundOutcome::AwaitingAction(11)));
    assert_eq!(game.apply_decision(11, Decision::CheckOrCall), Ok(RoundOutcome::RoundComplete));
    let sizes = [(3, 45), (4, 44), (5, 43)];
    for (on_table, in_deck) in sizes {
        assert_eq!(
            game.advance_hand(&mut deck),
            Ok(HandProgress::Street(RoundOutcome::AwaitingAction(10)))
        );
        assert_eq!(game.get_community_cards().len(), on_table);
        assert_eq!(deck.len(), in_deck);
        for card in game.get_community_cards() {
            assert!(!deck.contains(card));
        }
        game.apply_decision(10, Decision::CheckOrCall).unwrap();
        assert_eq!(game.apply_decision(11, Decision::CheckOrCall), Ok(RoundOutcome::RoundComplete));
    }
    let ended = game.advance_hand(&mut deck).unwrap();
    assert!(matches!(ended, HandProgress::Finished(_)));
    assert_eq!(deck.len(), 43);
    assert_eq!(stacks(&game, 2).iter().sum::<i32>(), 2000);
    assert_eq!(game.get_current_bet(), 0);
}

#[test]
fn dealing_from_a_short_deck() {
    let mut game = table(10, &[1000, 1000]);
    let mut three = vec![Card::new(H, 2), Card::new(H, 3), Card::new(H, 4)];
    assert_eq!(game.deal_hole_cards(&mut three), Err(GameError::DeckExhausted));
    assert_eq!(stacks(&game, 2), vec![1000, 1000]);
    let mut deck = Card::new_full_deck();
    game.deal_hole_cards(&mut deck).unwrap();
    game.apply_decision(10, Decision::CheckOrCall).unwrap();
    game.apply_decision(11, Decision::CheckOrCall).unwrap();
    let mut short = vec![Card::new(H, 2), Card::new(H, 3)];
    assert_eq!(game.deal_flop(&mut short), Err(GameError::DeckExhausted));
    assert_eq!(short.len(), 2);
    let mut empty: Vec<Card> = Vec::new();
    assert_eq!(game.deal_single_card(&mut empty), Err(GameError::DeckExhausted));
    assert_eq!(game.advance_hand(&mut short), Err(GameError::DeckExhausted));
    assert!(game.get_community_cards().is_empty());
}

#[test]
fn a_card_is_drawn_from_the_deck() {
    let mut deck = Card::new_full_deck();
    let before = deck.clone();
    let card = draw_card(&mut deck).unwrap();
    assert_eq!(deck.len(), 51);
    assert!(before.contains(&card));
    assert!(!deck.contains(&card));
    for left in deck.iter() {
        assert!(before.contains(left));
    }
    let mut empty: Vec<Card> = Vec::new();
    assert_eq!(draw_card(&mut empty), None);
}

#[test]
fn cards_are_drawn_without_replacement() {
    let mut deck = Card::new_full_deck();
    let drawn = draw_cards(&mut deck, 52).unwrap();
    assert!(deck.is_empty());
    let full = Card::new_full_deck();
    for card in full.iter() {
        assert_eq!(drawn.iter().filter(|c| *c == card).count(), 1);
    }
    let mut few = vec![Card::new(H, 2)];
    assert_eq!(draw_cards(&mut few, 2), None);
    assert_eq!(few.len(), 1);
    assert_eq!(draw_cards(&mut few, 0), Some(Vec::new()));
}

#[test]
fn the_table_stays_well_formed() {
    let mut game = table(10, &[40, 1000, 25, 1000]);
    assert!(!game.is_well_formed() || game.get_big_blind() >= 0);
    game.begin_hand(plain_hole(4)).unwrap();
    let decisions = [
        (12, Decision::AllIn),
        (13, Decision::RaiseTo(200)),
        (10, Decision::CheckOrCall),
        (11, Decision::CheckOrCall),
    ];
    for (player, decision) in decisions {
        assert!(game.is_well_formed());
        assert_eq!(game.get_call_amount().is_some(), game.next_actor().is_some());
        game.apply_decision(player, decision).unwrap();
        assert!(game.is_well_formed());
        assert!(game.has_sound_funds());
        assert_eq!(chips(&game, 4), 2065);
    }
    assert_eq!(game.round_outcome(), RoundOutcome::RoundComplete);
    assert_eq!(game.get_pot_levels(), vec![5, 10, 25, 40, 200]);
    assert_eq!(game.get_pot_seats(3), vec![0, 1, 3]);
    assert_eq!(game.get_pot_seats(4), vec![1, 3]);
    assert_eq!(game.get_total_player_money(), 1600);
    assert_eq!(game.get_call_amount(), None);
    game.open_street(vec![Card::new(S, 2), Card::new(S, 9), Card::new(C, 13)]);
    assert!(game.is_well_formed());
    assert_eq!(game.get_call_amount(), Some(0));
    assert_eq!(game.get_turn_queue(), vec![11, 13]);
    game.clear_round_data();
    assert!(game.is_well_formed());
}

#[test]
fn tables_out_of_order_are_told() {
    let negative = table(10, &[1000, -5, 100]);
    assert!(!negative.has_sound_funds());
    assert!(!negative.is_well_formed());
    let too_rich = table(10, &[i32::MAX, 1, 1]);
    assert!(!too_rich.has_sound_funds());
    let blind = table(-2, &[100, 100]);
    assert!(blind.has_sound_funds());
    assert!(!blind.is_well_formed());
    let fine = table(10, &[100, 100]);
    assert!(fine.has_sound_funds());
    assert!(fine.is_well_formed());
}

#[test]
fn what_is_owed_by_the_player_to_act() {
    let mut game = table(10, &[1000, 1000, 1000]);
    game.begin_hand(plain_hole(3)).unwrap();
    assert_eq!(game.get_call_amount(), Some(10));
    game.apply_decision(12, Decision::RaiseTo(60)).unwrap();
    assert_eq!(game.get_call_amount(), Some(55));
    game.apply_decision(10, Decision::CheckOrCall).unwrap();
    assert_eq!(game.get_call_amount(), Some(50));
}

#[test]
fn community_cards_in_words() {
    let mut game = table(10, &[1000, 1000]);
    let none: Vec<String> = game.format_community_cards().into_iter().collect();
    assert_eq!(none, vec!["Community cards have not been dealt."]);
    game.begin_hand(plain_hole(2)).unwrap();
    game.apply_decision(10, Decision::CheckOrCall).unwrap();
    game.apply_decision(11, Decision::CheckOrCall).unwrap();
    game.open_street(vec![Card::new(S, 2), Card::new(S, 9), Card::new(C, 13)]);
    let lines: Vec<String> = game.format_community_cards().into_iter().collect();
    assert_eq!(lines, vec!["2 of Spades", "9 of Spades", "King of Clubs"]);
}

#[test]
fn the_dealer_moves_on() {
    let mut game = table(10, &[100, 200, 300]);
    game.begin_hand(plain_hole(3)).unwrap();
    game.rotate_dealer();
    assert_eq!(stacks(&game, 3), vec![190, 300, 95]);
    assert_eq!(game.get_player(2).unwrap().get_player_id(), 10);
    assert_eq!(game.get_pot_size(), 0);
    assert!(game.get_turn_queue().is_empty());
    assert!(game.get_player(0).unwrap().get_hole_cards().is_empty());
    let mut empty = Game::new(1, 2, 3);
    empty.rotate_dealer();
    assert_eq!(empty.get_num_players(), 0);
}

#[test]
fn players_hold_what_they_are_given() {
    let mut player = Player::new(3, String::from("Bea"), 40);
    assert_eq!(player.get_player_id(), 3);
    assert_eq!(player.get_name(), "Bea");
    assert_eq!(player.get_money(), 40);
    player.set_money(55);
    player.increment_money(-15);
    assert_eq!(player.get_money(), 40);
    player.set_hole_cards(two((H, 12), (C, 7)));
    assert_eq!(player.get_hole_cards(), two((H, 12), (C, 7)));
    let lines: Vec<String> = player.format_hole_cards().into_iter().collect();
    assert_eq!(lines, vec!["Queen of Hearts", "7 of Clubs"]);
    let copy = player.clone();
    assert_eq!(copy.get_name(), "Bea");
    assert_eq!(copy.get_hole_cards(), player.get_hole_cards());
}

#[test]
fn turn_state_in_text() {
    let mut game = table(10, &[1000, 1000, 1000]);
    assert_eq!(game.format_turn_state(), "");
    game.begin_hand(plain_hole(3)).unwrap();
    let mut expected = String::from("\n");
    expected += &format!("{} Turn State {}\n", "-".repeat(20), "-".repeat(20));
    let rows = [
        ["         |", "", ""],
        ["         |", "", ""],
        ["         v", "", ""],
        ["Player: 12", "Player: 10", "Player: 11"],
        ["Contribution: 0", "Contribution: 5", "Contribution: 10"],
        ["Money: 1000", "Money: 995", "Money: 990"],
    ];
    for row in rows {
        expected += &format!("{:<15} | {:<15} | {:<16}\n", row[0], row[1], row[2]);
    }
    expected += "\n";
    assert_eq!(game.format_turn_state(), expected);
}

#[test]
fn cards_in_text() {
    let mut game = table(10, &[1000, 1000]);
    game.begin_hand(vec![two((H, 12), (C, 7)), two((S, 2), (S, 3))]).unwrap();
    let before = [
        ["Your Cards", "Community Cards:"],
        ["---------------", "------------------------------------"],
        ["Queen of Hearts", "Community cards have not been dealt."],
        ["7 of Clubs", ""],
    ];
    let mut expected = String::new();
    for row in before {
        expected += &format!("{:<15} | {:<36}\n", row[0], row[1]);
    }
    expected += "\n\n";
    assert_eq!(game.format_cards(0), expected);
    game.apply_decision(10, Decision::CheckOrCall).unwrap();
    game.apply_decision(11, Decision::CheckOrCall).unwrap();
    game.open_street(vec![Card::new(S, 10), Card::new(D, 9), Card::new(C, 13)]);
    let after = [
        ["Your Cards", "Community Cards:"],
        ["-----------", "-------------"],
        ["2 of Spades", "10 of Spades"],
        ["3 of Spades", "9 of Diamonds"],
        ["", "King of Clubs"],
    ];
    let mut expected = String::new();
    for row in after {
        expected += &format!("{:<11} | {:<16}\n", row[0], row[1]);
    }
    expected += "\n\n";
    assert_eq!(game.format_cards(1), expected);
}

#[test]
fn pot_state_in_text() {
    let mut game = table(10, &[1000, 1000, 1000]);
    game.begin_hand(plain_hole(3)).unwrap();
    let rows = [
        [
            "Table's Current Bet",
            "Your Contribution to the Pot",
            "Your Current Contribution to the Bet",
            "Your Money",
        ],
        [
            "------------------",
            "-----------------------------",
            "-------------------------------------",
            "---------------",
        ],
        ["10", "5", "5", "995"],
    ];
    let mut expected = String::new();
    for row in rows {
        expected += &format!("{:<19} | {:<29} | {:<37} | {:<15}\n", row[0], row[1], row[2], row[3]);
    }
    expected += "\n\n";
    assert_eq!(game.format_pot_state(0), expected);
}
