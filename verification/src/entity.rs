//! Entities moving on the map, and the choice of a move.

use vstd::prelude::*;

verus! {

use crate::map::Maze;
use crate::model::Model;

pub struct Entity {
    pub position: (usize, usize),
}

impl Entity {
    pub fn new(pos: (usize, usize)) -> (e: Entity)
        ensures
            e.position == pos,
    {
        Entity { position: pos }
    }
}

#[derive(Copy, Clone, Debug, PartialEq, Eq, Structural)]
pub enum Move {
    Up,
    Down,
    Left,
    Right,
}

/// The move an output index of the pilot network stands for.
pub open spec fn move_for_index(i: int) -> Move {
    if i == 0 {
        Move::Up
    } else if i == 1 {
        Move::Down
    } else if i == 2 {
        Move::Left
    } else {
        Move::Right
    }
}

impl Move {
    /// Decodes a network output index into a move. Indexes beyond the four
    /// outputs are a caller bug, not a runtime condition.
    pub fn of_index(i: usize) -> (m: Move)
        requires
            i < 4,
        ensures
            m == move_for_index(i as int),
    {
        if i == 0 {
            Move::Up
        } else if i == 1 {
            Move::Down
        } else if i == 2 {
            Move::Left
        } else {
            Move::Right
        }
    }
}

/// Something that can pick the next move from the map.
pub trait ControlledEntity {
    fn get_move(&mut self, map: &Maze) -> Option<Move>;
}

/// An entity piloted by a model.
pub struct AIEntity(pub Model);

impl AIEntity {
    pub fn new(model: Model) -> (e: AIEntity)
        ensures
            e.0 == model,
    {
        AIEntity(model)
    }
}

} // verus!
