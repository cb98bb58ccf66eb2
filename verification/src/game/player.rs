//! A player at the table.

use crate::game::hand::Card;
use std::collections::VecDeque;
use vstd::prelude::*;

verus! {

/// Players are told apart by a number.
pub type PlayerId = i32;

/// Who a player is, what the player has left to bet, and the cards in the
/// player's hand.
#[derive(Debug)]
pub struct Player {
    pub player_id: PlayerId,
    pub name: String,
    pub money: i32,
    pub hole_cards: Vec<Card>,
}

impl Player {
    /// A player with no cards yet.
    pub fn new(player_id: i32, name: String, money: i32) -> (player: Player)
        ensures
            player.player_id == player_id,
            player.name@ == name@,
            player.money == money,
            player.hole_cards@ == Seq::<Card>::empty(),
    {
        Player { player_id, name, money, hole_cards: Vec::new() }
    }

    pub fn get_player_id(&self) -> (id: i32)
        ensures
            id == self.player_id,
    {
        self.player_id
    }

    pub fn get_name(&self) -> (name: String)
        ensures
            name@ == self.name@,
    {
        self.name.clone()
    }

    pub fn get_money(&self) -> (money: i32)
        ensures
            money == self.money,
    {
        self.money
    }

    pub fn set_money(&mut self, money: i32)
        ensures
            final(self).money == money,
            final(self).player_id == old(self).player_id,
            final(self).name == old(self).name,
            final(self).hole_cards == old(self).hole_cards,
    {
        self.money = money;
    }

    /// Adds `money`, which may be negative, to what the player has.
    pub fn increment_money(&mut self, money: i32)
        requires
            i32::MIN <= old(self).money + money <= i32::MAX,
        ensures
            final(self).money == old(self).money + money,
            final(self).player_id == old(self).player_id,
            final(self).name == old(self).name,
            final(self).hole_cards == old(self).hole_cards,
    {
        self.money = self.money + money;
    }

    pub fn get_hole_cards(&self) -> (cards: Vec<Card>)
        ensures
            cards@ == self.hole_cards@,
    {
        let mut cards: Vec<Card> = Vec::new();
        let mut i: usize = 0;
        while i < self.hole_cards.len()
            invariant
                i <= self.hole_cards.len(),
                cards@ == self.hole_cards@.take(i as int),
            decreases self.hole_cards.len() - i,
        {
            cards.push(self.hole_cards[i]);
            i += 1;
        }
        assert(self.hole_cards@.take(self.hole_cards.len() as int) == self.hole_cards@);
        cards
    }

    pub fn set_hole_cards(&mut self, cards: Vec<Card>)
        ensures
            final(self).hole_cards == cards,
            final(self).player_id == old(self).player_id,
            final(self).name == old(self).name,
            final(self).money == old(self).money,
    {
        self.hole_cards = cards;
    }

    /// The cards of the player, each as a line of text.
    pub fn format_hole_cards(&self) -> (lines: VecDeque<String>)
        ensures
            lines@.len() == self.hole_cards@.len(),
            forall|i: int|
                0 <= i < lines@.len() ==> (#[trigger] lines@[i])@ == self.hole_cards@[i].text(),
    {
        let mut lines: VecDeque<String> = VecDeque::new();
        let mut i: usize = 0;
        while i < self.hole_cards.len()
            invariant
                i <= self.hole_cards.len(),
                lines@.len() == i,
                forall|j: int|
                    0 <= j < i ==> (#[trigger] lines@[j])@ == self.hole_cards@[j].text(),
            decreases self.hole_cards.len() - i,
        {
            lines.push_back(self.hole_cards[i].to_string());
            i += 1;
        }
        lines
    }
}

impl Clone for Player {
    fn clone(&self) -> (copy: Self)
        ensures
            copy.player_id == self.player_id,
            copy.name@ == self.name@,
            copy.money == self.money,
            copy.hole_cards@ == self.hole_cards@,
    {
        Player {
            player_id: self.player_id,
            name: self.name.clone(),
            money: self.money,
            hole_cards: self.get_hole_cards(),
        }
    }
}

} // verus!
