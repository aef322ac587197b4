//! A Battlesnake engine: the game rules, board scoring and the search strategies of a
//! family of snakes, each stated and proved.
use vstd::prelude::*;

pub mod gamedata;
pub mod gamelogger;
pub mod logic;
pub mod protocol;
pub mod snakes;

verus! {

/// A snake that can play: it describes itself and answers the start, move and end
/// requests of the game server.
pub trait Battlesnake {
    fn snake_info(&self) -> protocol::SnakeInfo;

    fn start(&self, req: &protocol::Request) -> Result<(), String>;

    fn end(&self, req: &protocol::Request) -> Result<(), String>;

    fn make_move(&self, req: &protocol::Request) -> Result<protocol::MoveResponse, String>;
}

} // verus!
