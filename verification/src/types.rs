//! A player as the lobby knows one: without cards.

use vstd::prelude::*;

verus! {

/// Who a player is, and what the player has to bet.
pub struct Player {
    pub player_id: i32,
    pub name: String,
    pub money: i32,
}

impl Player {
    pub fn new(player_id: i32, name: String, money: i32) -> (player: Player)
        ensures
            player.player_id == player_id,
            player.name == name,
            player.money == money,
    {
        Player { player_id, name, money }
    }

    pub fn get_player_id(&self) -> (id: i32)
        ensures
            id == self.player_id,
    {
        self.player_id
    }

    pub fn get_name(&self) -> (name: String)
        ensures
            name == self.name,
    {
        self.name.clone()
    }

    pub fn get_money(&self) -> (money: i32)
        ensures
            money == self.money,
    {
        self.money
    }
}

impl Clone for Player {
    fn clone(&self) -> (copy: Self)
        ensures
            copy == *self,
    {
        Player { player_id: self.player_id, name: self.name.clone(), money: self.money }
    }
}

} // verus!
