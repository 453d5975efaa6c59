use vstd::prelude::*;
use crate::GRID_SIZE;

verus! {

/// One of the four cardinal directions a move can take.
#[derive(Debug, Clone, Copy, PartialEq, Eq, Structural)]
pub enum Direction {
    Left,
    Right,
    Up,
    Down,
}

/// The grid side length as a mathematical integer.
pub open spec fn grid() -> int {
    GRID_SIZE as int
}

/// Whether a (row, column) pair lies on the grid.
pub open spec fn in_grid(p: (int, int)) -> bool {
    0 <= p.0 < grid() && 0 <= p.1 < grid()
}

/// The cell occupied by slot number `slot` of line number `line` for
/// direction `d`. Lines run parallel to the direction of travel; slot 0 is
/// the cell at the target edge, and slots count away from that edge.
pub open spec fn dir_pos(d: Direction, line: int, slot: int) -> (int, int) {
    match d {
        Direction::Left => (line, slot),
        Direction::Right => (line, grid() - 1 - slot),
        Direction::Up => (slot, line),
        Direction::Down => (grid() - 1 - slot, line),
    }
}

/// The line that cell `p` belongs to for direction `d`.
pub open spec fn line_of(d: Direction, p: (int, int)) -> int {
    match d {
        Direction::Left | Direction::Right => p.0,
        Direction::Up | Direction::Down => p.1,
    }
}

/// The slot that cell `p` occupies within its line for direction `d`.
pub open spec fn slot_of(d: Direction, p: (int, int)) -> int {
    match d {
        Direction::Left => p.1,
        Direction::Right => grid() - 1 - p.1,
        Direction::Up => p.0,
        Direction::Down => grid() - 1 - p.0,
    }
}

/// `dir_pos` and the pair (`line_of`, `slot_of`) are inverse to each other,
/// so every grid cell is addressed by exactly one (line, slot) pair.
pub proof fn lemma_dir_pos_bijection(d: Direction)
    ensures
        forall|line: int, slot: int|
            line_of(d, #[trigger] dir_pos(d, line, slot)) == line
                && slot_of(d, dir_pos(d, line, slot)) == slot,
        forall|p: (int, int)| in_grid(p) ==> #[trigger] dir_pos(d, line_of(d, p), slot_of(d, p)) == p,
        forall|p: (int, int)| in_grid(p) ==> 0 <= line_of(d, p) < grid() && 0 <= slot_of(d, p) < grid(),
{
}

/// Executable counterpart of `dir_pos`.
pub fn dir_cell(d: Direction, line: usize, slot: usize) -> (rc: (usize, usize))
    requires
        line < GRID_SIZE,
        slot < GRID_SIZE,
    ensures
        (rc.0 as int, rc.1 as int) == dir_pos(d, line as int, slot as int),
        rc.0 < GRID_SIZE,
        rc.1 < GRID_SIZE,
{
    match d {
        Direction::Left => (line, slot),
        Direction::Right => (line, GRID_SIZE - 1 - slot),
        Direction::Up => (slot, line),
        Direction::Down => (GRID_SIZE - 1 - slot, line),
    }
}

} // verus!
