//! Which moves are deadly.
use vstd::prelude::*;

use crate::logic::{Game, Point, Snake, Tile};
use crate::snakes::spaceheater3::util::{certain_death_computable, spec_certain_death};

verus! {

/// Whether our own body, or a deadly tile, lies at `p` for a snake with health `hp`.
pub fn certain_death(game: &Game, snake: &Snake, p: &Point, hp: i8) -> (res: bool)
    requires
        certain_death_computable(game@, snake@, *p),
    ensures
        res == spec_certain_death(game@, snake@, *p, hp as int),
{
    match game.board.get(p) {
        Tile::Hazard(x) | Tile::HazardWithSnake(x) | Tile::HazardWithHead(x) => {
            proof {
                game.board.lemma_model();
                assert(x <= 3);
            }
            game.rules.hazard_damage_per_turn * x as i8 > hp
        },
        Tile::Snake => {
            let mut self_collision = false;
            let mut i: usize = 1;
            while i < snake.length - 1 && !self_collision
                invariant
                    snake.length >= 1,
                    snake.length - 1 <= snake.body@.len(),
                    i % 2 == 1,
                    i >= 1,
                    self_collision ==> (i < snake.length - 1 && snake.body@[i as int] == *p),
                    forall|j: int| 1 <= j < i && j % 2 == 1 && j < snake.length - 1 ==> #[trigger] snake.body@[j] != *p,
                decreases snake.length - i, if self_collision { 0int } else { 1int },
            {
                if *p == snake.body[i] {
                    self_collision = true;
                } else {
                    i += 2;
                }
            }
            proof {
                if !self_collision {
                    assert forall|j: int| 1 <= j < snake@.length - 1 && j % 2 == 1 implies #[trigger] snake@.body[j]
                        != *p by {}
                } else {
                    assert(snake@.body[i as int] == *p);
                }
            }
            self_collision
        },
        Tile::Wall => true,
        _ => false,
    }
}

} // verus!
