//! A poker table: players, betting streets, side pots and showdown.
//!
//! `Game` holds the table and changes it by the rules of `table`; every
//! function says which rule it applies. The caller asks the players: the
//! game says who is to act, takes the decision, and says where the round
//! stands.

pub mod checks;
pub mod dealing;
pub mod display;
pub mod hand;
pub mod laws;
pub mod player;
pub mod ranking;
pub mod selection;
pub mod showdown;
pub mod table;

pub use crate::game::dealing::{draw_card, draw_cards};
use crate::game::hand::{Card, HandScore};
use crate::game::laws::{
    lemma_bets_nonnegative, lemma_first_live, lemma_paid, lemma_paid_keeps_queue, lemma_slot,
    lemma_step,
    lemma_total_bounds, lemma_total_member, lemma_total_nonnegative,
};
use crate::game::player::{Player, PlayerId};
use crate::game::table::{
    ascending_levels, count_below, first_live_prefix, has_at_least, levels_of, live_prefix,
    recorded, seat_numbers, seats_at_least, tiers_for, total, total_prefix, with_level, Decision,
    RoundOutcome, Table, Tier,
};
use std::collections::VecDeque;
use vstd::prelude::*;

verus! {

/// Why the game did not do what it was asked.
#[derive(Clone, Copy, Debug, PartialEq, Eq, Structural)]
pub enum GameError {
    /// The raise does not reach the bet, or the stack does not cover it. The
    /// player is to be asked again.
    InvalidRaise,
    /// The decision came from a player who is not the one to act.
    NotPlayersTurn,
    /// The round does not wait for a decision.
    NoActionPending,
    /// The table cannot begin a hand.
    TableNotReady,
    /// The cards are not what they have to be: two for every player who is
    /// dealt in, seven distinct cards with ranks from 2 to 14 for every
    /// player who shows a hand.
    InvalidCards,
    /// The deck ran out of cards.
    DeckExhausted,
    /// The betting round is not complete yet.
    RoundNotComplete,
}

/// How a hand ended: for each seat what the player has won or lost in the
/// hand, and the best hand that was shown, if hands were shown.
#[derive(Debug, PartialEq, Eq)]
pub struct HandResult {
    pub deltas: Vec<i32>,
    pub winning_hand: Option<HandScore>,
}

/// What follows a betting round: the next street, or the end of the hand.
#[derive(Debug, PartialEq, Eq)]
pub enum HandProgress {
    Street(RoundOutcome),
    Finished(HandResult),
}

/// What the game keeps for a seat.
#[derive(Debug)]
struct Seat {
    player: Player,
    in_round: bool,
    street_bet: i32,
    bet: i32,
}

/// A side pot: the contribution that it is capped at, and the seats that are
/// eligible for it.
#[derive(Debug)]
struct Pot {
    tier: i32,
    eligible: Vec<usize>,
}

/// A game of Texas Hold'em at one table.
#[derive(Debug)]
pub struct Game {
    game_id: u128,
    num_players: i32,
    seats: Vec<Seat>,
    big_blind: i32,
    initial_money: i32,
    dealer_location: i16,
    community_cards: Vec<Card>,
    turn_queue: VecDeque<usize>,
    pending: usize,
    curr_bet: i32,
    last_player_to_raise: Option<PlayerId>,
    has_raised: bool,
    pots: Vec<Pot>,
}

/// A game ends before the round of this number is played.
pub const MAX_ROUND: i32 = 5;

/// Seat numbers as mathematical integers.
pub open spec fn seats_of(s: Seq<usize>) -> Seq<int> {
    Seq::new(s.len(), |j: int| s[j] as int)
}

/// Amounts as mathematical integers.
pub open spec fn amounts_of(s: Seq<i32>) -> Seq<int> {
    Seq::new(s.len(), |j: int| s[j] as int)
}

/// The side pots as mathematical values.
spec fn tiers_of(pots: Seq<Pot>) -> Seq<Tier> {
    Seq::new(
        pots.len(),
        |k: int| Tier { level: pots[k].tier as int, eligible: seats_of(pots[k].eligible@) },
    )
}

impl View for Game {
    type V = Table;

    closed spec fn view(&self) -> Table {
        Table {
            game_id: self.game_id,
            num_players: self.num_players as int,
            big_blind: self.big_blind as int,
            initial_money: self.initial_money as int,
            dealer_location: self.dealer_location as int,
            ids: Seq::new(self.seats.len() as nat, |s: int| self.seats[s].player.player_id),
            names: Seq::new(self.seats.len() as nat, |s: int| self.seats[s].player.name@),
            stacks: Seq::new(self.seats.len() as nat, |s: int| self.seats[s].player.money as int),
            hole_cards: Seq::new(
                self.seats.len() as nat,
                |s: int| self.seats[s].player.hole_cards@,
            ),
            community: self.community_cards@,
            in_round: Seq::new(self.seats.len() as nat, |s: int| self.seats[s].in_round),
            street_bets: Seq::new(
                self.seats.len() as nat,
                |s: int| self.seats[s].street_bet as int,
            ),
            bets: Seq::new(self.seats.len() as nat, |s: int| self.seats[s].bet as int),
            queue: seats_of(self.turn_queue@),
            pending: self.pending as int,
            curr_bet: self.curr_bet as int,
            last_raiser: self.last_player_to_raise,
            has_raised: self.has_raised,
            tiers: tiers_of(self.pots@),
        }
    }
}

impl Game {
    /// Something is kept for every seat of every game.
    pub proof fn lemma_shaped(&self)
        ensures
            self@.shaped(),
    {
    }

    /// A table without players. The bet stands at the big blind.
    pub open spec fn new_table(game_id: u128, big_blind: int, initial_money: int) -> Table {
        Table {
            game_id,
            num_players: 0,
            big_blind,
            initial_money,
            dealer_location: 0,
            ids: Seq::empty(),
            names: Seq::empty(),
            stacks: Seq::empty(),
            hole_cards: Seq::empty(),
            community: Seq::empty(),
            in_round: Seq::empty(),
            street_bets: Seq::empty(),
            bets: Seq::empty(),
            queue: Seq::empty(),
            pending: 0,
            curr_bet: big_blind,
            last_raiser: None,
            has_raised: false,
            tiers: Seq::empty(),
        }
    }

    /// A table without players. The bet stands at the big blind.
    pub fn new(game_id: u128, big_blind: i32, initial_money: i32) -> (game: Game)
        ensures
            game@ == Game::new_table(game_id, big_blind as int, initial_money as int),
    {
        let game = Game {
            game_id,
            num_players: 0,
            seats: Vec::new(),
            big_blind,
            initial_money,
            dealer_location: 0,
            community_cards: Vec::new(),
            turn_queue: VecDeque::new(),
            pending: 0,
            curr_bet: big_blind,
            last_player_to_raise: None,
            has_raised: false,
            pots: Vec::new(),
        };
        assert(game@ =~~= Game::new_table(game_id, big_blind as int, initial_money as int));
        game
    }

    /// Seats the player behind those who are seated. The player is in no hand
    /// yet and has put in nothing.
    pub fn add_player(&mut self, player: Player)
        requires
            old(self)@.num_players < i32::MAX,
        ensures
            final(self)@ == (Table {
                num_players: old(self)@.num_players + 1,
                ids: old(self)@.ids.push(player.player_id),
                names: old(self)@.names.push(player.name@),
                stacks: old(self)@.stacks.push(player.money as int),
                hole_cards: old(self)@.hole_cards.push(player.hole_cards@),
                in_round: old(self)@.in_round.push(false),
                street_bets: old(self)@.street_bets.push(0),
                bets: old(self)@.bets.push(0),
                ..old(self)@
            }),
    {
        let ghost before = self@;
        self.seats.push(Seat { player, in_round: false, street_bet: 0, bet: 0 });
        self.num_players = self.num_players + 1;
        assert(self@ =~~= (Table {
            num_players: before.num_players + 1,
            ids: before.ids.push(player.player_id),
            names: before.names.push(player.name@),
            stacks: before.stacks.push(player.money as int),
            hole_cards: before.hole_cards.push(player.hole_cards@),
            in_round: before.in_round.push(false),
            street_bets: before.street_bets.push(0),
            bets: before.bets.push(0),
            ..before
        }));
    }

    /// Whether the round of the given number is played: while more than one
    /// player is seated, and before the last round.
    pub fn plays_round(&self, round: i32) -> (plays: bool)
        ensures
            plays == (self@.ids.len() > 1 && round < MAX_ROUND),
    {
        self.seats.len() > 1 && round < MAX_ROUND
    }

    pub fn get_num_players(&self) -> (n: i32)
        ensures
            n == self@.num_players,
    {
        self.num_players
    }

    pub fn get_game_id(&self) -> (id: u128)
        ensures
            id == self@.game_id,
    {
        self.game_id
    }

    pub fn get_big_blind(&self) -> (blind: i32)
        ensures
            blind == self@.big_blind,
    {
        self.big_blind
    }

    /// The bet of the street.
    pub fn get_current_bet(&self) -> (bet: i32)
        ensures
            bet == self@.curr_bet,
    {
        self.curr_bet
    }

    /// The cards on the table.
    pub fn get_community_cards(&self) -> (cards: &Vec<Card>)
        ensures
            cards@ == self@.community,
    {
        &self.community_cards
    }

    /// What the player at `seat` has left to bet.
    pub fn get_stack(&self, seat: usize) -> (stack: Option<i32>)
        ensures
            seat < self@.seats() ==> stack == Some(self@.stacks[seat as int] as i32),
            seat >= self@.seats() ==> stack is None,
    {
        if seat < self.seats.len() {
            Some(self.seats[seat].player.money)
        } else {
            None
        }
    }

    /// The cards on the table, each as a line of text; one line that says so
    /// where no card has been dealt.
    pub fn format_community_cards(&self) -> (lines: VecDeque<String>)
        ensures
            self@.community.len() == 0 ==> lines@.len() == 1 && lines@[0]@
                == "Community cards have not been dealt."@,
            self@.community.len() > 0 ==> lines@.len() == self@.community.len() && forall|i: int|
                0 <= i < lines@.len() ==> (#[trigger] lines@[i])@ == self@.community[i].text(),
    {
        let mut lines: VecDeque<String> = VecDeque::new();
        if self.community_cards.len() != 0 {
            let mut i: usize = 0;
            while i < self.community_cards.len()
                invariant
                    i <= self.community_cards.len(),
                    lines@.len() == i,
                    forall|j: int|
                        0 <= j < i ==> (#[trigger] lines@[j])@ == self.community_cards@[j].text(),
                decreases self.community_cards.len() - i,
            {
                lines.push_back(self.community_cards[i].to_string());
                i += 1;
            }
        } else {
            lines.push_back(String::from_str("Community cards have not been dealt."));
        }
        lines
    }

    /// The seats that have put in at least `level` during the hand, in
    /// ascending order.
    fn seats_with_at_least(&self, level: i32) -> (eligible: Vec<usize>)
        ensures
            seats_of(eligible@) == seats_at_least(self@.bets, level as int),
    {
        let mut eligible: Vec<usize> = Vec::new();
        let mut s: usize = 0;
        let ghost bets = self@.bets;
        let ghost all = seat_numbers(bets.len());
        proof {
            reveal(Seq::filter);
            assert(all.take(0).filter(has_at_least(bets, level as int)) == Seq::<int>::empty());
            assert(seats_of(eligible@) =~= Seq::<int>::empty());
        }
        while s < self.seats.len()
            invariant
                s <= self.seats.len(),
                bets == self@.bets,
                all == seat_numbers(bets.len()),
                seats_of(eligible@) == all.take(s as int).filter(has_at_least(bets, level as int)),
            decreases self.seats.len() - s,
        {
            proof {
                reveal(Seq::filter);
                assert(all.take(s + 1).drop_last() == all.take(s as int));
                assert(all.take(s + 1).last() == s);
            }
            let ghost before = eligible@;
            if self.seats[s].bet >= level {
                eligible.push(s);
                assert(seats_of(eligible@) =~= seats_of(before).push(s as int));
            }
            s += 1;
        }
        assert(all.take(self.seats.len() as int) == all);
        eligible
    }

    /// Puts the side pots in line with what the players have put in: a side
    /// pot stands at the level that the player at `seat` has reached, and
    /// each side pot holds every seat that has put in as much as its level.
    fn add_to_all_bets_up_to_highest(&mut self, seat: usize)
        requires
            seat < old(self)@.seats(),
            ascending_levels(levels_of(old(self)@.tiers)),
        ensures
            final(self)@ == (Table {
                tiers: recorded(old(self)@.tiers, old(self)@.bets, seat as int),
                ..old(self)@
            }),
    {
        let ghost before = self@;
        let ghost old_levels = levels_of(before.tiers);
        let highest_bet = self.seats[seat].bet;
        let mut levels = self.get_pot_levels();
        if highest_bet > 0 {
            let mut slot: usize = 0;
            while slot < levels.len() && levels[slot] < highest_bet
                invariant
                    slot <= levels.len(),
                    forall|j: int| 0 <= j < slot ==> levels[j] < highest_bet,
                decreases levels.len() - slot,
            {
                slot += 1;
            }
            proof {
                lemma_slot(old_levels, highest_bet as int, old_levels.len() as int);
                let place = count_below(old_levels, highest_bet as int, old_levels.len() as int);
                if slot < place {
                    assert(old_levels[slot as int] < highest_bet);
                    assert(amounts_of(levels@)[slot as int] == levels[slot as int]);
                } else if place < slot {
                    assert(old_levels[place] >= highest_bet);
                    assert(amounts_of(levels@)[place] == levels[place]);
                }
                assert(slot == place);
            }
            let ghost unchanged = levels@;
            if !(slot < levels.len() && levels[slot] == highest_bet) {
                levels.insert(slot, highest_bet);
                assert(amounts_of(levels@) =~= old_levels.insert(slot as int, highest_bet as int));
            } else {
                assert(amounts_of(unchanged)[slot as int] == unchanged[slot as int]);
            }
            assert(amounts_of(levels@) == with_level(old_levels, highest_bet as int));
        }
        let ghost new_levels = amounts_of(levels@);
        // Each side pot with the seats that have put in as much.
        let mut pots: Vec<Pot> = Vec::new();
        let mut k: usize = 0;
        while k < levels.len()
            invariant
                k <= levels.len(),
                self@ == before,
                new_levels == amounts_of(levels@),
                pots.len() == k,
                forall|j: int|
                    0 <= j < k ==> (#[trigger] pots[j]).tier == levels[j] && seats_of(
                        pots[j].eligible@,
                    ) == seats_at_least(before.bets, levels[j] as int),
            decreases levels.len() - k,
        {
            let eligible = self.seats_with_at_least(levels[k]);
            pots.push(Pot { tier: levels[k], eligible });
            k += 1;
        }
        self.pots = pots;
        proof {
            let expected = tiers_for(new_levels, before.bets);
            assert(self@.tiers.len() == expected.len());
            assert forall|j: int| 0 <= j < expected.len() implies self@.tiers[j] == expected[j] by {
                assert(self.pots[j].tier == levels[j]);
                assert(new_levels[j] == levels[j]);
            }
            assert(self@.tiers =~= expected);
            assert(self@ =~~= (Table {
                tiers: recorded(before.tiers, before.bets, seat as int),
                ..before
            }));
        }
    }

    /// Moves `amount` from the stack of the player at `seat` to the pot.
    fn make_player_bet(&mut self, seat: usize, amount: i32)
        requires
            old(self)@.funds_wf(),
            seat < old(self)@.seats(),
            0 <= amount <= old(self)@.stacks[seat as int],
        ensures
            final(self)@ == old(self)@.paid(seat as int, amount as int),
            final(self)@.funds_wf(),
            final(self)@.chips() == old(self)@.chips(),
    {
        let ghost before = self@;
        proof {
            lemma_paid(before, seat as int, amount as int);
            lemma_bets_nonnegative(before);
            lemma_total_member(before.bets, before.seats());
            lemma_total_member(before.stacks, before.seats());
            lemma_total_nonnegative(before.stacks, before.seats());
            assert(before.bets[seat as int] <= total(before.bets));
            assert(before.stacks[seat as int] <= total(before.stacks));
            assert(0 <= before.street_bets[seat as int] <= before.bets[seat as int]);
        }
        self.seats[seat].player.money = self.seats[seat].player.money - amount;
        self.seats[seat].street_bet = self.seats[seat].street_bet + amount;
        self.seats[seat].bet = self.seats[seat].bet + amount;
        let ghost moved = self@;
        proof {
            assert(moved =~~= (Table {
                stacks: before.stacks.update(seat as int, before.stacks[seat as int] - amount),
                street_bets: before.street_bets.update(
                    seat as int,
                    before.street_bets[seat as int] + amount,
                ),
                bets: before.bets.update(seat as int, before.bets[seat as int] + amount),
                ..before
            }));
        }
        self.add_to_all_bets_up_to_highest(seat);
        proof {
            assert(self@ =~~= before.paid(seat as int, amount as int));
        }
    }

    /// The player to act folds.
    fn fold_actor(&mut self)
        requires
            old(self)@.wf(),
            old(self)@.pending > 0,
        ensures
            final(self)@ == old(self)@.folded(),
    {
        let ghost before = self@;
        assert(0 <= before.queue[0] < before.seats());
        let seat = self.turn_queue.pop_front().unwrap();
        self.seats[seat].in_round = false;
        self.pending = self.pending - 1;
        assert(self@ =~~= before.folded());
    }

    /// The player to act checks, or calls with less than the whole stack.
    fn call_actor(&mut self)
        requires
            old(self)@.wf(),
            old(self)@.pending > 0,
            old(self)@.owed() < old(self)@.stacks[old(self)@.actor()],
        ensures
            final(self)@ == old(self)@.called(),
    {
        let ghost before = self@;
        assert(0 <= before.queue[0] < before.seats());
        let seat = self.turn_queue.pop_front().unwrap();
        assert(before.street_bets[seat as int] <= before.curr_bet);
        let owed = self.curr_bet - self.seats[seat].street_bet;
        let ghost rest = before.queue.drop_first();
        let ghost popped = self@;
        assert(popped =~~= (Table { queue: rest, ..before }));
        self.make_player_bet(seat, owed);
        let ghost paid = before.paid(seat as int, owed as int);
        proof {
            lemma_paid_keeps_queue(before, rest, seat as int, owed as int);
            assert(self@ == (Table { queue: rest, ..paid }));
        }
        self.turn_queue.push_back(seat);
        self.pending = self.pending - 1;
        assert(self@ =~~= (Table {
            queue: rest.push(seat as int),
            pending: before.pending - 1,
            ..paid
        }));
        assert(self@ == before.called());
    }

    /// The player to act raises the bet to `to` with less than the whole
    /// stack.
    fn raise_actor(&mut self, to: i32)
        requires
            old(self)@.wf(),
            old(self)@.pending > 0,
            old(self)@.curr_bet <= to,
            to - old(self)@.street_bets[old(self)@.actor()] < old(self)@.stacks[old(self)@.actor()],
        ensures
            final(self)@ == old(self)@.raised(to as int),
    {
        let ghost before = self@;
        assert(0 <= before.queue[0] < before.seats());
        let seat = self.turn_queue.pop_front().unwrap();
        assert(0 <= before.street_bets[seat as int] <= before.curr_bet);
        let amount = to - self.seats[seat].street_bet;
        let ghost rest = before.queue.drop_first();
        let ghost popped = self@;
        assert(popped =~~= (Table { queue: rest, ..before }));
        self.make_player_bet(seat, amount);
        let ghost paid = before.paid(seat as int, amount as int);
        proof {
            lemma_paid_keeps_queue(before, rest, seat as int, amount as int);
            assert(self@ == (Table { queue: rest, ..paid }));
        }
        let ghost with_bet = self@;
        self.curr_bet = to;
        self.last_player_to_raise = Some(self.seats[seat].player.player_id);
        self.has_raised = true;
        self.pending = self.turn_queue.len();
        self.turn_queue.push_back(seat);
        proof {
            assert(with_bet.ids[seat as int] == before.ids[seat as int]);
            assert(self@.last_raiser == Some(before.ids[seat as int]));
            assert(self@.queue =~= rest.push(seat as int));
            assert(self@.pending == before.queue.len() - 1);
            assert(self@.stacks == paid.stacks);
            assert(self@.street_bets == paid.street_bets);
            assert(self@.bets == paid.bets);
            assert(self@.tiers == paid.tiers);
        }
        assert(self@ =~~= (Table {
            curr_bet: to as int,
            last_raiser: Some(before.ids[seat as int]),
            has_raised: true,
            queue: rest.push(seat as int),
            pending: before.queue.len() - 1,
            ..paid
        }));
        assert(self@ == before.raised(to as int));
    }

    /// The player to act puts in the whole stack and leaves the queue. Where
    /// that brings the player above the bet, it is a raise.
    fn handle_all_in(&mut self)
        requires
            old(self)@.wf(),
            old(self)@.pending > 0,
        ensures
            final(self)@ == old(self)@.pushed(),
    {
        let ghost before = self@;
        assert(0 <= before.queue[0] < before.seats());
        let seat = self.turn_queue.pop_front().unwrap();
        proof {
            lemma_bets_nonnegative(before);
            lemma_total_member(before.bets, before.seats());
            lemma_total_member(before.stacks, before.seats());
            lemma_total_nonnegative(before.stacks, before.seats());
            assert(0 <= before.street_bets[seat as int] <= before.bets[seat as int]);
            assert(before.bets[seat as int] <= total(before.bets));
            assert(before.stacks[seat as int] <= total(before.stacks));
        }
        let stack = self.seats[seat].player.money;
        let reached = self.seats[seat].street_bet + stack;
        let ghost rest = before.queue.drop_first();
        let ghost popped = self@;
        assert(popped =~~= (Table { queue: rest, ..before }));
        self.make_player_bet(seat, stack);
        let ghost paid = before.paid(seat as int, stack as int);
        proof {
            lemma_paid_keeps_queue(before, rest, seat as int, stack as int);
            assert(self@ == (Table { queue: rest, ..paid }));
        }
        let ghost with_bet = self@;
        if reached > self.curr_bet {
            self.curr_bet = reached;
            self.last_player_to_raise = Some(self.seats[seat].player.player_id);
            self.has_raised = true;
            self.pending = self.turn_queue.len();
            proof {
                assert(with_bet.ids[seat as int] == before.ids[seat as int]);
                assert(self@.last_raiser == Some(before.ids[seat as int]));
                assert(self@.queue == rest);
                assert(self@.pending == before.queue.len() - 1);
                assert(self@.stacks == paid.stacks);
                assert(self@.street_bets == paid.street_bets);
                assert(self@.bets == paid.bets);
                assert(self@.tiers == paid.tiers);
            }
            assert(self@ =~~= (Table {
                curr_bet: reached as int,
                last_raiser: Some(before.ids[seat as int]),
                has_raised: true,
                queue: rest,
                pending: before.queue.len() - 1,
                ..paid
            }));
        } else {
            self.pending = self.pending - 1;
            assert(self@ =~~= (Table { queue: rest, pending: before.pending - 1, ..paid }));
        }
        assert(self@ == before.pushed());
    }

    /// Takes the decision of the player who is to act, and says where the
    /// round stands then. The decision is refused, and nothing changes, where
    /// the round does not wait for a decision, where `player_id` is not the
    /// one to act, or where a raise does not reach the bet or is not covered
    /// by the stack.
    pub fn apply_decision(&mut self, player_id: PlayerId, decision: Decision) -> (res: Result<
        RoundOutcome,
        GameError,
    >)
        requires
            old(self)@.wf(),
        ensures
            final(self)@.wf(),
            final(self)@.chips() == old(self)@.chips(),
            match res {
                Ok(outcome) => {
                    &&& old(self)@.awaiting()
                    &&& old(self)@.ids[old(self)@.actor()] == player_id
                    &&& old(self)@.accepts(decision)
                    &&& final(self)@ == old(self)@.step(decision)
                    &&& outcome == final(self)@.outcome()
                },
                Err(GameError::NoActionPending) => !old(self)@.awaiting()
                    && final(self)@ == old(self)@,
                Err(GameError::NotPlayersTurn) => old(self)@.awaiting()
                    && old(self)@.ids[old(self)@.actor()] != player_id
                    && final(self)@ == old(self)@,
                Err(GameError::InvalidRaise) => old(self)@.awaiting()
                    && old(self)@.ids[old(self)@.actor()] == player_id
                    && !old(self)@.accepts(decision) && final(self)@ == old(self)@,
                Err(_) => false,
            },
    {
        let ghost before = self@;
        if !(self.live_count() > 1 && self.pending > 0) {
            return Err(GameError::NoActionPending);
        }
        let seat = self.turn_queue[0];
        assert(before.queue[0] == seat);
        assert(0 <= before.queue[0] < before.seats());
        if self.seats[seat].player.player_id != player_id {
            return Err(GameError::NotPlayersTurn);
        }
        let street_bet = self.seats[seat].street_bet;
        let stack = self.seats[seat].player.money;
        assert(0 <= before.street_bets[seat as int] <= before.curr_bet);
        match decision {
            Decision::Fold => {
                self.fold_actor();
            },
            Decision::CheckOrCall => {
                if self.curr_bet - street_bet >= stack {
                    self.handle_all_in();
                } else {
                    self.call_actor();
                }
            },
            Decision::RaiseTo(to) => {
                if to < self.curr_bet || to - street_bet > stack {
                    return Err(GameError::InvalidRaise);
                }
                if to - street_bet >= stack {
                    self.handle_all_in();
                } else {
                    self.raise_actor(to);
                }
            },
            Decision::AllIn => {
                self.handle_all_in();
            },
        }
        proof {
            lemma_step(before, decision);
        }
        Ok(self.round_outcome())
    }

    /// What the player to act has to add to match the bet: nothing where the
    /// player may check. None where the round does not wait for a decision.
    pub fn get_call_amount(&self) -> (owed: Option<i32>)
        requires
            self@.wf(),
        ensures
            self@.awaiting() ==> owed == Some(self@.owed() as i32) && self@.owed() >= 0,
            !self@.awaiting() ==> owed is None,
    {
        if self.live_count() > 1 && self.pending > 0 {
            let seat = self.turn_queue[0];
            assert(self@.queue[0] == seat);
            assert(0 <= self@.queue[0] < self@.seats());
            assert(0 <= self@.street_bets[seat as int] <= self@.curr_bet);
            Some(self.curr_bet - self.seats[seat].street_bet)
        } else {
            None
        }
    }

    /// The seats that can still act on this street, the next to act first.
    pub fn get_turn_seats(&self) -> (queue: Vec<usize>)
        ensures
            seats_of(queue@) == self@.queue,
    {
        let mut queue: Vec<usize> = Vec::new();
        let mut j: usize = 0;
        while j < self.turn_queue.len()
            invariant
                j <= self.turn_queue.len(),
                queue@ == self.turn_queue@.take(j as int),
            decreases self.turn_queue.len() - j,
        {
            queue.push(self.turn_queue[j]);
            j += 1;
        }
        assert(self.turn_queue@.take(self.turn_queue.len() as int) == self.turn_queue@);
        queue
    }

    /// The players who can still act on this street, the next to act first.
    pub fn get_turn_queue(&self) -> (queue: Vec<PlayerId>)
        requires
            self@.wf(),
        ensures
            queue@.len() == self@.queue.len(),
            forall|j: int| 0 <= j < queue@.len()
                ==> #[trigger] queue@[j] == self@.ids[self@.queue[j]],
    {
        let mut queue: Vec<PlayerId> = Vec::new();
        let mut j: usize = 0;
        while j < self.turn_queue.len()
            invariant
                j <= self.turn_queue.len(),
                self@.wf(),
                queue@.len() == j,
                forall|i: int| 0 <= i < j ==> #[trigger] queue@[i] == self@.ids[self@.queue[i]],
            decreases self.turn_queue.len() - j,
        {
            let seat = self.turn_queue[j];
            assert(self@.queue[j as int] == seat);
            assert(0 <= self@.queue[j as int] < self@.seats());
            queue.push(self.seats[seat].player.player_id);
            j += 1;
        }
        queue
    }

    /// The player at `seat`.
    pub fn get_player(&self, seat: usize) -> (player: Option<&Player>)
        ensures
            seat >= self@.seats() ==> player is None,
            seat < self@.seats() ==> (player matches Some(p)
                && p.player_id == self@.ids[seat as int]
                && p.name@ == self@.names[seat as int] && p.money == self@.stacks[seat as int]
                && p.hole_cards@ == self@.hole_cards[seat as int]),
    {
        if seat < self.seats.len() {
            Some(&self.seats[seat].player)
        } else {
            None
        }
    }

    /// What the player at `seat` has put in during the hand.
    pub fn get_contribution(&self, seat: usize) -> (bet: Option<i32>)
        ensures
            seat >= self@.seats() ==> bet is None,
            seat < self@.seats() ==> bet == Some(self@.bets[seat as int] as i32),
    {
        if seat < self.seats.len() {
            Some(self.seats[seat].bet)
        } else {
            None
        }
    }

    /// What the player at `seat` has put in on this street.
    pub fn get_street_contribution(&self, seat: usize) -> (bet: Option<i32>)
        ensures
            seat >= self@.seats() ==> bet is None,
            seat < self@.seats() ==> bet == Some(self@.street_bets[seat as int] as i32),
    {
        if seat < self.seats.len() {
            Some(self.seats[seat].street_bet)
        } else {
            None
        }
    }

    /// Whether the player at `seat` has been dealt in and has not folded.
    pub fn is_in_round(&self, seat: usize) -> (live: bool)
        ensures
            live == (seat < self@.seats() && self@.in_round[seat as int]),
    {
        seat < self.seats.len() && self.seats[seat].in_round
    }

    /// The levels of the side pots, in ascending order.
    pub fn get_pot_levels(&self) -> (levels: Vec<i32>)
        ensures
            amounts_of(levels@) == levels_of(self@.tiers),
    {
        let mut levels: Vec<i32> = Vec::new();
        let mut k: usize = 0;
        let ghost expected = levels_of(self@.tiers);
        while k < self.pots.len()
            invariant
                k <= self.pots.len(),
                expected == levels_of(self@.tiers),
                amounts_of(levels@) == expected.take(k as int),
            decreases self.pots.len() - k,
        {
            let ghost so_far = levels@;
            assert(expected[k as int] == self@.tiers[k as int].level);
            assert(self@.tiers[k as int].level == self.pots[k as int].tier);
            levels.push(self.pots[k].tier);
            assert(amounts_of(levels@) =~= amounts_of(so_far).push(
                self.pots[k as int].tier as int,
            ));
            assert(expected.take(k + 1) =~= expected.take(k as int).push(expected[k as int]));
            k += 1;
        }
        assert(expected.take(self.pots.len() as int) == expected);
        levels
    }

    /// The seats that are eligible for the side pot `k`, in ascending order.
    pub fn get_pot_seats(&self, k: usize) -> (seats: Vec<usize>)
        ensures
            k >= self@.tiers.len() ==> seats@.len() == 0,
            k < self@.tiers.len() ==> seats_of(seats@) == self@.tiers[k as int].eligible,
    {
        let mut seats: Vec<usize> = Vec::new();
        if k < self.pots.len() {
            let eligible = &self.pots[k].eligible;
            let mut j: usize = 0;
            while j < eligible.len()
                invariant
                    j <= eligible.len(),
                    seats@ == eligible@.take(j as int),
                decreases eligible.len() - j,
            {
                seats.push(eligible[j]);
                j += 1;
            }
            assert(eligible@.take(eligible.len() as int) == eligible@);
        }
        seats
    }

    /// How many players are still in the hand.
    fn live_count(&self) -> (count: usize)
        ensures
            count == self@.live_count(),
    {
        let mut count: usize = 0;
        let mut s: usize = 0;
        while s < self.seats.len()
            invariant
                s <= self.seats.len(),
                count <= s,
                count == live_prefix(self@.in_round, s as int),
            decreases self.seats.len() - s,
        {
            if self.seats[s].in_round {
                count += 1;
            }
            s += 1;
        }
        count
    }

    /// The first seat that is still in the hand; the number of seats if there
    /// is none.
    fn first_live(&self) -> (seat: usize)
        ensures
            seat == self@.first_live(),
            seat <= self.seats.len(),
    {
        let mut seat: usize = 0;
        let mut s: usize = 0;
        while s < self.seats.len()
            invariant
                s <= self.seats.len(),
                seat == first_live_prefix(self@.in_round, s as int),
                seat <= s,
            decreases self.seats.len() - s,
        {
            if seat < s {
            } else if self.seats[s].in_round {
                seat = s;
            } else {
                seat = s + 1;
            }
            s += 1;
        }
        seat
    }

    /// What the players have left to bet, all together.
    pub fn get_total_player_money(&self) -> (sum: i32)
        requires
            self@.funds_wf(),
        ensures
            sum == total(self@.stacks),
    {
        let mut sum: i32 = 0;
        let mut s: usize = 0;
        proof {
            lemma_bets_nonnegative(self@);
            lemma_total_bounds(self@.stacks, 0);
        }
        while s < self.seats.len()
            invariant
                s <= self.seats.len(),
                self@.funds_wf(),
                self@.pot() >= 0,
                sum == total_prefix(self@.stacks, s as int),
                0 <= sum <= total(self@.stacks),
            decreases self.seats.len() - s,
        {
            proof {
                lemma_total_bounds(self@.stacks, s + 1);
            }
            sum = sum + self.seats[s].player.money;
            s += 1;
        }
        sum
    }

    /// Where the round stands.
    pub fn round_outcome(&self) -> (outcome: RoundOutcome)
        requires
            self@.wf(),
        ensures
            outcome == self@.outcome(),
    {
        proof {
            lemma_first_live(self@.in_round, self@.seats());
        }
        if self.live_count() == 1 {
            let seat = self.first_live();
            RoundOutcome::HandComplete(self.seats[seat].player.player_id)
        } else if self.pending > 0 {
            let seat = self.turn_queue[0];
            assert(self@.queue[0] == seat);
            RoundOutcome::AwaitingAction(self.seats[seat].player.player_id)
        } else {
            RoundOutcome::RoundComplete
        }
    }

    /// The player who is to act, if the round waits for a decision.
    pub fn next_actor(&self) -> (actor: Option<PlayerId>)
        requires
            self@.wf(),
        ensures
            self@.awaiting() ==> actor == Some(self@.ids[self@.actor()]),
            !self@.awaiting() ==> actor is None,
    {
        match self.round_outcome() {
            RoundOutcome::AwaitingAction(id) => {
                proof {
                    lemma_first_live(self@.in_round, self@.seats());
                }
                if self.live_count() > 1 {
                    Some(id)
                } else {
                    None
                }
            },
            _ => None,
        }
    }
}

} // verus!
