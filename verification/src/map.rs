//! The static maze map: a walled border around an empty field with one goal.

use vstd::prelude::*;

verus! {

use crate::entity::Entity;

#[derive(Copy, Clone, Debug, PartialEq, Eq, Structural)]
pub enum Cell {
    Empty,
    Wall,
    Goal,
}

pub const SIZE: usize = 10;

pub struct Maze {
    pub cells: Vec<Vec<Cell>>,
    pub entity: Entity,
    pub goal: (usize, usize),
}

/// The cell the static generator puts at column `x`, row `y`.
pub open spec fn static_cell(x: int, y: int) -> Cell {
    if x == 0 || y == 0 || x == SIZE - 1 || y == SIZE - 1 {
        Cell::Wall
    } else if x == 7 && y == 8 {
        Cell::Goal
    } else {
        Cell::Empty
    }
}

pub open spec fn map_wf(m: Maze) -> bool {
    &&& m.cells@.len() == SIZE
    &&& forall|y: int| 0 <= y < SIZE ==> (#[trigger] m.cells@[y])@.len() == SIZE
}

/// Builds the static map: walls on the border, the goal at (7, 8), the
/// entity starting at (1, 1).
pub fn generate_map() -> (m: Maze)
    ensures
        map_wf(m),
        forall|x: int, y: int|
            0 <= x < SIZE && 0 <= y < SIZE ==> (#[trigger] m.cells@[y]@[x]) == static_cell(x, y),
        m.goal == (7usize, 8usize),
        m.entity.position == (1usize, 1usize),
{
    let mut cells: Vec<Vec<Cell>> = Vec::new();
    let mut y: usize = 0;
    while y < SIZE
        invariant
            y <= SIZE,
            cells@.len() == y,
            forall|r: int| 0 <= r < y ==> (#[trigger] cells@[r])@.len() == SIZE,
            forall|x: int, r: int|
                0 <= x < SIZE && 0 <= r < y ==> (#[trigger] cells@[r]@[x]) == static_cell(x, r),
        decreases SIZE - y,
    {
        let mut row: Vec<Cell> = Vec::new();
        let mut x: usize = 0;
        while x < SIZE
            invariant
                x <= SIZE,
                row@.len() == x,
                forall|c: int| 0 <= c < x ==> (#[trigger] row@[c]) == static_cell(c, y as int),
            decreases SIZE - x,
        {
            let cell = if x == 0 || y == 0 || x == SIZE - 1 || y == SIZE - 1 {
                Cell::Wall
            } else if x == 7 && y == 8 {
                Cell::Goal
            } else {
                Cell::Empty
            };
            row.push(cell);
            x = x + 1;
        }
        cells.push(row);
        y = y + 1;
    }
    Maze { cells, entity: Entity::new((1, 1)), goal: (7, 8) }
}

/// Produces maps; the one implementation builds the fixed maze above.
pub trait MapGenerator {
    fn generate(&self) -> Maze;
}

pub struct StaticMapGenerator;

impl MapGenerator for StaticMapGenerator {
    fn generate(&self) -> Maze {
        generate_map()
    }
}

} // verus!
