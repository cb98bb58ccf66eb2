//! The table as a mathematical value, and the rules of a hand as functions on
//! it: paying into the pot, the decisions of a betting round, the streets and
//! the showdown. `Game` is proved to follow these rules; what holds of every
//! hand is proved here, of the rules themselves.
//!
//! Seats are numbered in seating order. What is kept for each player (stack,
//! contributions, cards, whether the player is still in the hand) is a
//! sequence indexed by seat.

use crate::game::hand::{Card, HandScore};
use crate::game::player::PlayerId;
use crate::game::ranking::is_seven;
use crate::game::selection::best_of_seven;
use vstd::prelude::*;

verus! {

/// What the player to act may decide.
#[derive(Clone, Copy, Debug, PartialEq, Eq, Structural)]
pub enum Decision {
    Fold,
    CheckOrCall,
    /// Raises the bet of the street to the given amount.
    RaiseTo(i32),
    AllIn,
}

/// Where a betting round stands.
#[derive(Clone, Copy, Debug, PartialEq, Eq, Structural)]
pub enum RoundOutcome {
    /// The round goes on: the given player is to act.
    AwaitingAction(PlayerId),
    /// Everybody who can still act has answered the last raise.
    RoundComplete,
    /// All but the given player have folded.
    HandComplete(PlayerId),
}

/// What moves a hand on: the decision of the player to act, or the cards of
/// the next street.
pub enum Move {
    Decide(Decision),
    Deal(Seq<Card>),
}

/// A side pot: the contribution that it is capped at, and the seats that have
/// contributed as much, in ascending order.
#[verifier::ext_equal]
pub struct Tier {
    pub level: int,
    pub eligible: Seq<int>,
}

/// The state of a table.
#[verifier::ext_equal]
pub struct Table {
    pub game_id: u128,
    pub num_players: int,
    pub big_blind: int,
    pub initial_money: int,
    pub dealer_location: int,
    /// The players by seat.
    pub ids: Seq<PlayerId>,
    pub names: Seq<Seq<char>>,
    /// What each player has left to bet.
    pub stacks: Seq<int>,
    pub hole_cards: Seq<Seq<Card>>,
    pub community: Seq<Card>,
    /// Who has been dealt in and has not folded.
    pub in_round: Seq<bool>,
    /// What each player has put in on this street.
    pub street_bets: Seq<int>,
    /// What each player has put in during this hand.
    pub bets: Seq<int>,
    /// The seats that can still act on this street, the next to act first.
    pub queue: Seq<int>,
    /// How many seats, from the front of the queue, have yet to answer the
    /// last raise; those behind them have acted since.
    pub pending: int,
    pub curr_bet: int,
    pub last_raiser: Option<PlayerId>,
    pub has_raised: bool,
    /// The side pots, by ascending level.
    pub tiers: Seq<Tier>,
}

/// The sum of the first `n` amounts.
pub open spec fn total_prefix(s: Seq<int>, n: int) -> int
    decreases n,
{
    if n <= 0 {
        0
    } else {
        total_prefix(s, n - 1) + s[n - 1]
    }
}

/// The sum of the amounts.
pub open spec fn total(s: Seq<int>) -> int {
    total_prefix(s, s.len() as int)
}

/// `n` times nothing.
pub open spec fn zeros(n: nat) -> Seq<int> {
    Seq::new(n, |i: int| 0int)
}

/// The seats of a table of `n`, in ascending order.
pub open spec fn seat_numbers(n: nat) -> Seq<int> {
    Seq::new(n, |i: int| i)
}

/// Picks the seats that have contributed at least `level`.
pub open spec fn has_at_least(bets: Seq<int>, level: int) -> spec_fn(int) -> bool {
    |s: int| bets[s] >= level
}

/// The seats that have contributed at least `level`, in ascending order.
pub open spec fn seats_at_least(bets: Seq<int>, level: int) -> Seq<int> {
    seat_numbers(bets.len()).filter(has_at_least(bets, level))
}

/// How many of the first `n` seats have contributed at least `level`.
pub open spec fn count_at_least(bets: Seq<int>, level: int, n: int) -> int
    decreases n,
{
    if n <= 0 {
        0
    } else {
        count_at_least(bets, level, n - 1) + if bets[n - 1] >= level {
            1int
        } else {
            0int
        }
    }
}

/// The levels of the side pots.
pub open spec fn levels_of(tiers: Seq<Tier>) -> Seq<int> {
    Seq::new(tiers.len(), |k: int| tiers[k].level)
}

/// The side pots with the given levels, each with the seats that have
/// contributed as much.
pub open spec fn tiers_for(levels: Seq<int>, bets: Seq<int>) -> Seq<Tier> {
    Seq::new(
        levels.len(),
        |k: int| Tier { level: levels[k], eligible: seats_at_least(bets, levels[k]) },
    )
}

/// How many of the first `n` levels lie below `x`.
pub open spec fn count_below(levels: Seq<int>, x: int, n: int) -> int
    decreases n,
{
    if n <= 0 {
        0
    } else {
        count_below(levels, x, n - 1) + if levels[n - 1] < x {
            1int
        } else {
            0int
        }
    }
}

/// Ascending levels with `x` among them: `x` is put in its place unless it is
/// there.
pub open spec fn with_level(levels: Seq<int>, x: int) -> Seq<int> {
    let k = count_below(levels, x, levels.len() as int);
    if k < levels.len() && levels[k] == x {
        levels
    } else {
        levels.insert(k, x)
    }
}

/// Each level is above the one before it, and the first is above nothing.
pub open spec fn ascending_levels(levels: Seq<int>) -> bool {
    &&& forall|k: int| 0 <= k < levels.len() ==> #[trigger] levels[k] > 0
    &&& forall|j: int, k: int| 0 <= j < k < levels.len() ==> levels[j] < levels[k]
}

/// The side pots after `seat` has reached the contribution `bets[seat]`: a
/// side pot stands at that level, and every side pot holds the seats that
/// have contributed as much as its level.
pub open spec fn recorded(tiers: Seq<Tier>, bets: Seq<int>, seat: int) -> Seq<Tier> {
    if bets[seat] > 0 {
        tiers_for(with_level(levels_of(tiers), bets[seat]), bets)
    } else {
        tiers_for(levels_of(tiers), bets)
    }
}

/// How many of the first `n` seats are still in the hand.
pub open spec fn live_prefix(in_round: Seq<bool>, n: int) -> int
    decreases n,
{
    if n <= 0 {
        0
    } else {
        live_prefix(in_round, n - 1) + if in_round[n - 1] {
            1int
        } else {
            0int
        }
    }
}

/// The first of the first `n` seats that is still in the hand; `n` if there is
/// none.
pub open spec fn first_live_prefix(in_round: Seq<bool>, n: int) -> int
    decreases n,
{
    if n <= 0 {
        0
    } else if first_live_prefix(in_round, n - 1) < n - 1 {
        first_live_prefix(in_round, n - 1)
    } else if in_round[n - 1] {
        n - 1
    } else {
        n
    }
}

/// The hands as sequences of cards.
pub open spec fn hands_of(hole: Seq<Vec<Card>>) -> Seq<Seq<Card>> {
    Seq::new(hole.len(), |s: int| hole[s]@)
}

/// The cards of the first `n` hands, one hand after the other.
pub open spec fn all_cards(hands: Seq<Seq<Card>>, n: int) -> Seq<Card>
    decreases n,
{
    if n <= 0 {
        Seq::empty()
    } else {
        all_cards(hands, n - 1) + hands[n - 1]
    }
}

/// How many of the first `n` seats the rule picks.
pub open spec fn count_picked(rule: spec_fn(int) -> bool, n: int) -> int
    decreases n,
{
    if n <= 0 {
        0
    } else {
        count_picked(rule, n - 1) + if rule(n - 1) {
            1int
        } else {
            0int
        }
    }
}

/// Picks the seats that can still act: in the hand, with something left.
pub open spec fn can_act(in_round: Seq<bool>, stacks: Seq<int>) -> spec_fn(int) -> bool {
    |s: int| in_round[s] && stacks[s] > 0
}

impl Table {
    /// The number of seats.
    pub open spec fn seats(self) -> int {
        self.ids.len() as int
    }

    /// Something is kept for every seat.
    pub open spec fn shaped(self) -> bool {
        &&& self.names.len() == self.ids.len()
        &&& self.stacks.len() == self.ids.len()
        &&& self.hole_cards.len() == self.ids.len()
        &&& self.in_round.len() == self.ids.len()
        &&& self.street_bets.len() == self.ids.len()
        &&& self.bets.len() == self.ids.len()
    }

    /// What is in the pot.
    pub open spec fn pot(self) -> int {
        total(self.bets)
    }

    /// All the chips of the table: what the players have left, and the pot.
    pub open spec fn chips(self) -> int {
        total(self.stacks) + total(self.bets)
    }

    /// How many players are still in the hand.
    pub open spec fn live_count(self) -> int {
        live_prefix(self.in_round, self.seats())
    }

    /// The first seat that is still in the hand.
    pub open spec fn first_live(self) -> int {
        first_live_prefix(self.in_round, self.seats())
    }

    /// The side pots are as the contributions make them: ascending levels,
    /// every contribution that was made is a level, and a seat is eligible for
    /// a side pot if and only if it has contributed as much as its level.
    pub open spec fn tiers_wf(self) -> bool {
        &&& ascending_levels(levels_of(self.tiers))
        &&& self.tiers == tiers_for(levels_of(self.tiers), self.bets)
        &&& forall|s: int|
            0 <= s < self.bets.len() && #[trigger] self.bets[s] > 0 ==> levels_of(
                self.tiers,
            ).contains(self.bets[s])
    }

    /// The queue holds seats that can act, none of them twice; those that
    /// have acted since the last raise have matched the bet.
    pub open spec fn queue_wf(self) -> bool {
        &&& 0 <= self.pending <= self.queue.len()
        &&& forall|j: int|
            0 <= j < self.queue.len() ==> 0 <= #[trigger] self.queue[j] < self.seats()
                && self.in_round[self.queue[j]] && self.stacks[self.queue[j]] > 0
        &&& forall|i: int, j: int|
            0 <= i < j < self.queue.len() ==> self.queue[i] != self.queue[j]
        &&& forall|j: int|
            self.pending <= j < self.queue.len() ==> self.street_bets[#[trigger] self.queue[j]]
                == self.curr_bet
    }

    /// What holds of the chips at every moment: no stack is negative, what a
    /// player has put in on the street is part of what the player has put in
    /// during the hand, all the chips can be counted, and the side pots are as
    /// the contributions make them.
    pub open spec fn funds_wf(self) -> bool {
        &&& self.shaped()
        &&& forall|s: int| 0 <= s < self.seats() ==> #[trigger] self.stacks[s] >= 0
        &&& forall|s: int|
            0 <= s < self.seats() ==> 0 <= #[trigger] self.street_bets[s] <= self.bets[s]
        &&& self.chips() <= i32::MAX
        &&& self.tiers_wf()
    }

    /// What holds of a table throughout a hand.
    pub open spec fn wf(self) -> bool {
        &&& self.funds_wf()
        &&& forall|s: int|
            0 <= s < self.seats() ==> #[trigger] self.street_bets[s] <= self.curr_bet
        &&& self.big_blind >= 0
        &&& self.queue_wf()
    }

    /// The seat that is to act.
    pub open spec fn actor(self) -> int {
        self.queue[0]
    }

    /// Whether the round waits for a decision: more than one player is in the
    /// hand, and somebody has yet to answer the last raise.
    pub open spec fn awaiting(self) -> bool {
        self.live_count() > 1 && self.pending > 0
    }

    /// Where the round stands. It is complete as soon as only one player is
    /// left, or when every seat in the queue has acted since the last raise.
    pub open spec fn outcome(self) -> RoundOutcome {
        if self.live_count() == 1 {
            RoundOutcome::HandComplete(self.ids[self.first_live()])
        } else if self.pending > 0 {
            RoundOutcome::AwaitingAction(self.ids[self.actor()])
        } else {
            RoundOutcome::RoundComplete
        }
    }

    /// What the actor has to add to match the bet.
    pub open spec fn owed(self) -> int {
        self.curr_bet - self.street_bets[self.actor()]
    }

    /// The table after `seat` has moved `amount` from the stack to the pot.
    pub open spec fn paid(self, seat: int, amount: int) -> Table {
        let bets = self.bets.update(seat, self.bets[seat] + amount);
        Table {
            stacks: self.stacks.update(seat, self.stacks[seat] - amount),
            street_bets: self.street_bets.update(seat, self.street_bets[seat] + amount),
            bets,
            tiers: recorded(self.tiers, bets, seat),
            ..self
        }
    }

    /// The actor folds: out of the hand, and out of the queue.
    pub open spec fn folded(self) -> Table {
        Table {
            in_round: self.in_round.update(self.actor(), false),
            queue: self.queue.drop_first(),
            pending: self.pending - 1,
            ..self
        }
    }

    /// The actor checks, or calls with less than the whole stack: what is
    /// owed is paid, and the actor goes to the back of the queue.
    pub open spec fn called(self) -> Table {
        let paid = self.paid(self.actor(), self.owed());
        Table {
            queue: self.queue.drop_first().push(self.actor()),
            pending: self.pending - 1,
            ..paid
        }
    }

    /// The actor raises the bet to `to` with less than the whole stack: the
    /// difference is paid, the actor goes to the back of the queue, and all
    /// the others in the queue have to answer.
    pub open spec fn raised(self, to: int) -> Table {
        let paid = self.paid(self.actor(), to - self.street_bets[self.actor()]);
        Table {
            curr_bet: to,
            last_raiser: Some(self.ids[self.actor()]),
            has_raised: true,
            queue: self.queue.drop_first().push(self.actor()),
            pending: self.queue.len() - 1,
            ..paid
        }
    }

    /// The actor puts in the whole stack and leaves the queue. Where that
    /// brings the actor above the bet, it is a raise, and all who are left in
    /// the queue have to answer.
    pub open spec fn pushed(self) -> Table {
        let seat = self.actor();
        let reached = self.street_bets[seat] + self.stacks[seat];
        let paid = self.paid(seat, self.stacks[seat]);
        if reached > self.curr_bet {
            Table {
                curr_bet: reached,
                last_raiser: Some(self.ids[seat]),
                has_raised: true,
                queue: self.queue.drop_first(),
                pending: self.queue.len() - 1,
                ..paid
            }
        } else {
            Table { queue: self.queue.drop_first(), pending: self.pending - 1, ..paid }
        }
    }

    /// Whether the decision can be taken. A raise has to reach the bet, and
    /// the stack has to cover it.
    pub open spec fn accepts(self, decision: Decision) -> bool {
        match decision {
            Decision::RaiseTo(to) => self.curr_bet <= to && to - self.street_bets[self.actor()]
                <= self.stacks[self.actor()],
            _ => true,
        }
    }

    /// The table after the actor's decision. A call or a raise that takes the
    /// whole stack is an all-in.
    pub open spec fn step(self, decision: Decision) -> Table {
        match decision {
            Decision::Fold => self.folded(),
            Decision::CheckOrCall => if self.owed() >= self.stacks[self.actor()] {
                self.pushed()
            } else {
                self.called()
            },
            Decision::RaiseTo(to) => if to - self.street_bets[self.actor()]
                >= self.stacks[self.actor()] {
                self.pushed()
            } else {
                self.raised(to as int)
            },
            Decision::AllIn => self.pushed(),
        }
    }

    /// The table after the players to act have answered one after the other.
    pub open spec fn answered(self, answers: Seq<Decision>) -> Table
        decreases answers.len(),
    {
        if answers.len() == 0 {
            self
        } else {
            self.answered(answers.drop_last()).step(answers.last())
        }
    }

    /// The table after a move. A decision counts while the round waits for
    /// one and the decision can be taken; a street is dealt when the round
    /// does not wait for a decision; any other move changes nothing.
    pub open spec fn moved(self, m: Move) -> Table {
        match m {
            Move::Decide(decision) => if self.awaiting() && self.accepts(decision) {
                self.step(decision)
            } else {
                self
            },
            Move::Deal(cards) => if !self.awaiting() {
                self.street_opened(cards)
            } else {
                self
            },
        }
    }

    /// The table after the moves, one after the other.
    pub open spec fn played(self, moves: Seq<Move>) -> Table
        decreases moves.len(),
    {
        if moves.len() == 0 {
            self
        } else {
            self.played(moves.drop_last()).moved(moves.last())
        }
    }

    /// The table after a whole hand: begun with the given cards, moved on by
    /// the moves, paid out, and cleared. The pot goes to the one who is left
    /// where all the others have folded, else to the hands that `scores`
    /// stands for.
    pub open spec fn hand_played(
        self,
        hole: Seq<Seq<Card>>,
        moves: Seq<Move>,
        scores: Seq<HandScore>,
    ) -> Table {
        let end = self.hand_begun(hole).played(moves);
        if end.live_count() == 1 {
            end.conceded().cleared()
        } else {
            end.settled(scores).cleared()
        }
    }

    /// The seats that can still act, in seating order.
    pub open spec fn able_seats(self) -> Seq<int> {
        seat_numbers(self.ids.len()).filter(can_act(self.in_round, self.stacks))
    }

    /// A new street: the given cards come to the table, nothing is bet yet,
    /// and everybody who can still act is queued in seating order.
    pub open spec fn street_opened(self, cards: Seq<Card>) -> Table {
        Table {
            community: self.community + cards,
            street_bets: zeros(self.ids.len()),
            curr_bet: 0,
            last_raiser: None,
            has_raised: false,
            queue: self.able_seats(),
            pending: self.able_seats().len() as int,
            ..self
        }
    }

    /// The seats that have something to bet, in seating order.
    pub open spec fn funded(self) -> Seq<int> {
        seat_numbers(self.ids.len()).filter(
            can_act(Seq::new(self.ids.len(), |s: int| self.stacks[s] > 0), self.stacks),
        )
    }

    /// Whether `hole` holds two cards for every seat that has something to
    /// bet. What it holds for the other seats is not dealt.
    pub open spec fn holds_for(self, hole: Seq<Seq<Card>>) -> bool {
        &&& hole.len() == self.ids.len()
        &&& forall|s: int|
            0 <= s < hole.len() && self.stacks[s] > 0 ==> (#[trigger] hole[s]).len() == 2
    }

    /// Whether `hole` holds two cards for every seat that has something to
    /// bet, and none for the others.
    pub open spec fn deals_to(self, hole: Seq<Seq<Card>>) -> bool {
        &&& hole.len() == self.ids.len()
        &&& forall|s: int|
            0 <= s < hole.len() ==> (#[trigger] hole[s]).len() == if self.stacks[s] > 0 {
                2nat
            } else {
                0nat
            }
    }

    /// Whether a hand can begin: no stack is negative, all the chips can be
    /// counted, the big blind is not negative, and two players at least have
    /// something to bet.
    pub open spec fn ready(self) -> bool {
        &&& self.shaped()
        &&& forall|s: int| 0 <= s < self.seats() ==> #[trigger] self.stacks[s] >= 0
        &&& total(self.stacks) <= i32::MAX
        &&& self.big_blind >= 0
        &&& self.funded().len() >= 2
    }

    /// The table with the players who have something to bet dealt in, before
    /// the blinds: each of them holds the cards given for the seat and is
    /// queued in seating order; the pot is empty.
    pub open spec fn dealt(self, hole: Seq<Seq<Card>>) -> Table {
        let in_round = Seq::new(self.ids.len(), |s: int| self.stacks[s] > 0);
        Table {
            hole_cards: Seq::new(
                self.ids.len(),
                |s: int|
                    if self.stacks[s] > 0 {
                        hole[s]
                    } else {
                        Seq::<Card>::empty()
                    },
            ),
            community: Seq::<Card>::empty(),
            in_round,
            street_bets: zeros(self.ids.len()),
            bets: zeros(self.ids.len()),
            queue: self.funded(),
            pending: 0,
            curr_bet: self.big_blind,
            last_raiser: None,
            has_raised: false,
            tiers: Seq::<Tier>::empty(),
            ..self
        }
    }

    /// The actor posts a blind: `amount`, or the whole stack where that is
    /// less. The actor goes to the back of the queue, or leaves it with
    /// nothing left.
    pub open spec fn blind_posted(self, amount: int) -> Table {
        let seat = self.actor();
        if amount < self.stacks[seat] {
            Table { queue: self.queue.drop_first().push(seat), ..self.paid(seat, amount) }
        } else {
            Table { queue: self.queue.drop_first(), ..self.paid(seat, self.stacks[seat]) }
        }
    }

    /// The table at the start of a hand: the players are dealt in, the first
    /// two in the queue post half the big blind and the big blind, the bet is
    /// the big blind, and everybody in the queue has yet to act.
    pub open spec fn hand_begun(self, hole: Seq<Seq<Card>>) -> Table {
        let small = self.dealt(hole).blind_posted(self.big_blind / 2);
        let big_seat = small.actor();
        let big = small.blind_posted(self.big_blind);
        Table {
            last_raiser: Some(self.ids[big_seat]),
            pending: big.queue.len() as int,
            ..big
        }
    }

    /// The cards that the player at `seat` can build a hand from: the
    /// player's own, then those of the table.
    pub open spec fn cards_of(self, seat: int) -> Seq<Card> {
        self.hole_cards[seat] + self.community
    }

    /// Whether every player who is still in the hand has seven distinct cards
    /// with ranks from 2 to 14 to show.
    pub open spec fn can_show(self) -> bool {
        forall|s: int|
            0 <= s < self.seats() && #[trigger] self.in_round[s] ==> is_seven(self.cards_of(s))
    }

    /// Whether `scores` holds, for every player who is still in the hand, the
    /// best that five of the player's seven cards are worth.
    pub open spec fn shows(self, scores: Seq<HandScore>) -> bool {
        &&& scores.len() == self.seats()
        &&& forall|s: int|
            0 <= s < self.seats() && #[trigger] self.in_round[s] ==> best_of_seven(
                scores[s],
                self.cards_of(s),
            )
    }

    /// What the side pot `k` holds for each seat that is eligible for it: its
    /// level less the level below.
    pub open spec fn layer(self, k: int) -> int {
        if k <= 0 {
            self.tiers[k].level
        } else {
            self.tiers[k].level - self.tiers[k - 1].level
        }
    }

    /// Whether `seat` is still in the hand and eligible for the side pot `k`.
    pub open spec fn contends(self, seat: int, k: int) -> bool {
        self.in_round[seat] && self.bets[seat] >= self.tiers[k].level
    }

    /// Among the first `n` seats, the one that wins the side pot `k`: of those
    /// that contend for it, the first that no other outranks.
    pub open spec fn leader(self, scores: Seq<HandScore>, k: int, n: int) -> Option<int>
        decreases n,
    {
        if n <= 0 {
            None
        } else {
            let before = self.leader(scores, k, n - 1);
            if self.contends(n - 1, k) && (before is None || scores[before.unwrap()].below(
                scores[n - 1],
            )) {
                Some(n - 1)
            } else {
                before
            }
        }
    }

    /// Among the first `n` seats, the one with the best hand of those who are
    /// still in the hand: the first that no other outranks.
    pub open spec fn champion(self, scores: Seq<HandScore>, n: int) -> Option<int>
        decreases n,
    {
        if n <= 0 {
            None
        } else {
            let before = self.champion(scores, n - 1);
            if self.in_round[n - 1] && (before is None || scores[before.unwrap()].below(
                scores[n - 1],
            )) {
                Some(n - 1)
            } else {
                before
            }
        }
    }

    /// The best hand that is shown, if any player is still in the hand.
    pub open spec fn best_shown(self, scores: Seq<HandScore>) -> Option<HandScore> {
        match self.champion(scores, self.seats()) {
            Some(seat) => Some(scores[seat]),
            None => None,
        }
    }

    /// The seat that wins the side pot `k`, if anybody contends for it.
    pub open spec fn tier_winner(self, scores: Seq<HandScore>, k: int) -> Option<int> {
        self.leader(scores, k, self.seats())
    }

    /// What `seat` gets from the side pot `k`. The winner gets the layers of
    /// all who are eligible. Where nobody contends, every eligible seat gets
    /// its own layer back.
    pub open spec fn award(self, scores: Seq<HandScore>, k: int, seat: int) -> int {
        match self.tier_winner(scores, k) {
            Some(winner) => if seat == winner {
                self.layer(k) * self.tiers[k].eligible.len()
            } else {
                0
            },
            None => if self.bets[seat] >= self.tiers[k].level {
                self.layer(k)
            } else {
                0
            },
        }
    }

    /// What `seat` gets from the first `m` side pots.
    pub open spec fn winnings_prefix(self, scores: Seq<HandScore>, seat: int, m: int) -> int
        decreases m,
    {
        if m <= 0 {
            0
        } else {
            self.winnings_prefix(scores, seat, m - 1) + self.award(scores, m - 1, seat)
        }
    }

    /// What `seat` gets at the showdown.
    pub open spec fn winnings(self, scores: Seq<HandScore>, seat: int) -> int {
        self.winnings_prefix(scores, seat, self.tiers.len() as int)
    }

    /// What every seat gets at the showdown.
    pub open spec fn payouts(self, scores: Seq<HandScore>) -> Seq<int> {
        Seq::new(self.ids.len(), |s: int| self.winnings(scores, s))
    }

    /// The table after the showdown: the pot is paid out, side pot by side
    /// pot.
    pub open spec fn settled(self, scores: Seq<HandScore>) -> Table {
        Table {
            stacks: Seq::new(self.ids.len(), |s: int| self.stacks[s] + self.winnings(scores, s)),
            street_bets: zeros(self.ids.len()),
            bets: zeros(self.ids.len()),
            tiers: Seq::<Tier>::empty(),
            ..self
        }
    }

    /// The table after all but one have folded: the one who is left takes the
    /// whole pot.
    pub open spec fn conceded(self) -> Table {
        let winner = self.first_live();
        Table {
            stacks: self.stacks.update(winner, self.stacks[winner] + self.pot()),
            street_bets: zeros(self.ids.len()),
            bets: zeros(self.ids.len()),
            tiers: Seq::<Tier>::empty(),
            ..self
        }
    }

    /// The table with every player moved one seat down, the first to the
    /// last seat, and the dealer's place moved on by one.
    pub open spec fn rotated(self) -> Table {
        if self.ids.len() == 0 {
            self
        } else {
            Table {
                dealer_location: if self.ids.len() <= i16::MAX && self.dealer_location >= 0 {
                    (self.dealer_location + 1) % (self.ids.len() as int)
                } else {
                    self.dealer_location
                },
                ids: self.ids.drop_first().push(self.ids[0]),
                names: self.names.drop_first().push(self.names[0]),
                stacks: self.stacks.drop_first().push(self.stacks[0]),
                hole_cards: self.hole_cards.drop_first().push(self.hole_cards[0]),
                in_round: self.in_round.drop_first().push(self.in_round[0]),
                street_bets: self.street_bets.drop_first().push(self.street_bets[0]),
                bets: self.bets.drop_first().push(self.bets[0]),
                ..self
            }
        }
    }

    /// The table between two hands: nothing of the last hand is left but what
    /// the players have.
    pub open spec fn cleared(self) -> Table {
        Table {
            hole_cards: Seq::new(self.ids.len(), |s: int| Seq::<Card>::empty()),
            community: Seq::<Card>::empty(),
            in_round: Seq::new(self.ids.len(), |s: int| false),
            street_bets: zeros(self.ids.len()),
            bets: zeros(self.ids.len()),
            queue: Seq::<int>::empty(),
            pending: 0,
            curr_bet: 0,
            last_raiser: None,
            has_raised: false,
            tiers: Seq::<Tier>::empty(),
            ..self
        }
    }
}

} // verus!
