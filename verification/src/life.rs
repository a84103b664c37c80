//! The rule of the game and what a transition does to a grid.

use crate::game::rectangular;
use vstd::prelude::*;

verus! {

/// Whether the cell at row `r`, column `c` is alive. Every position outside
/// the grid is dead: the board has an edge and does not wrap around.
pub open spec fn alive_at(grid: Seq<Seq<bool>>, r: int, c: int) -> bool {
    0 <= r < grid.len() && 0 <= c < grid[r].len() && grid[r][c]
}

/// 1 for an alive cell, 0 for a dead one.
pub open spec fn one_if(alive: bool) -> nat {
    if alive {
        1
    } else {
        0
    }
}

/// How many of the eight positions around (`r`, `c`) are alive.
pub open spec fn live_neighbors(grid: Seq<Seq<bool>>, r: int, c: int) -> nat {
    one_if(alive_at(grid, r - 1, c - 1)) + one_if(alive_at(grid, r - 1, c)) + one_if(
        alive_at(grid, r - 1, c + 1),
    ) + one_if(alive_at(grid, r, c - 1)) + one_if(alive_at(grid, r, c + 1)) + one_if(
        alive_at(grid, r + 1, c - 1),
    ) + one_if(alive_at(grid, r + 1, c)) + one_if(alive_at(grid, r + 1, c + 1))
}

/// The rule of the game: what becomes of a cell with `neighbors` alive
/// neighbours.
pub open spec fn fate(alive: bool, neighbors: nat) -> bool {
    if !alive && neighbors == 3 {
        // a dead cell with exactly three alive neighbours comes alive
        true
    } else if alive && neighbors <= 1 {
        // an alive cell with fewer than two dies
        false
    } else if alive && neighbors <= 3 {
        // an alive cell with two or three lives on
        true
    } else {
        // an alive cell with more than three dies; a dead cell stays dead
        false
    }
}

/// The state of the cell at (`r`, `c`) after one transition.
pub open spec fn next_at(grid: Seq<Seq<bool>>, r: int, c: int) -> bool {
    fate(alive_at(grid, r, c), live_neighbors(grid, r, c))
}

/// The grid after one transition: every cell decided from the grid before.
pub open spec fn successor(grid: Seq<Seq<bool>>) -> Seq<Seq<bool>> {
    Seq::new(grid.len(), |r: int| Seq::new(grid[r].len(), |c: int| next_at(grid, r, c)))
}

/// How many of the first `upto` cells of row `r` a transition changes.
pub open spec fn row_changes(grid: Seq<Seq<bool>>, r: int, upto: int) -> nat
    decreases upto,
{
    if upto <= 0 {
        0
    } else {
        row_changes(grid, r, upto - 1) + one_if(next_at(grid, r, upto - 1) != grid[r][upto - 1])
    }
}

/// How many cells of the first `upto` rows a transition changes.
pub open spec fn changes(grid: Seq<Seq<bool>>, upto: int) -> nat
    decreases upto,
{
    if upto <= 0 {
        0
    } else {
        changes(grid, upto - 1) + row_changes(grid, upto - 1, grid[upto - 1].len() as int)
    }
}

/// How many cells of the grid a transition changes.
pub open spec fn delta_of(grid: Seq<Seq<bool>>) -> nat {
    changes(grid, grid.len() as int)
}

/// How many cells the first `upto` rows hold.
pub open spec fn cell_count(grid: Seq<Seq<bool>>, upto: int) -> nat
    decreases upto,
{
    if upto <= 0 {
        0
    } else {
        cell_count(grid, upto - 1) + grid[upto - 1].len()
    }
}

/// A row changes no more cells than were counted.
pub proof fn lemma_row_changes_bound(grid: Seq<Seq<bool>>, r: int, upto: int)
    requires
        0 <= upto,
    ensures
        row_changes(grid, r, upto) <= upto,
    decreases upto,
{
    if upto > 0 {
        lemma_row_changes_bound(grid, r, upto - 1);
    }
}

/// A transition changes no more cells than there are.
pub proof fn lemma_changes_bound(grid: Seq<Seq<bool>>, upto: int)
    ensures
        changes(grid, upto) <= cell_count(grid, upto),
    decreases upto,
{
    if upto > 0 {
        lemma_changes_bound(grid, upto - 1);
        lemma_row_changes_bound(grid, upto - 1, grid[upto - 1].len() as int);
    }
}

/// Counting more rows never counts fewer cells.
pub proof fn lemma_cell_count_grow(grid: Seq<Seq<bool>>, a: int, b: int)
    requires
        a <= b,
    ensures
        cell_count(grid, a) <= cell_count(grid, b),
    decreases b - a,
{
    if a < b {
        lemma_cell_count_grow(grid, a, b - 1);
    }
}

/// Counting more cells of a row never counts fewer changes.
pub proof fn lemma_row_changes_grow(grid: Seq<Seq<bool>>, r: int, a: int, b: int)
    requires
        a <= b,
    ensures
        row_changes(grid, r, a) <= row_changes(grid, r, b),
    decreases b - a,
{
    if a < b {
        lemma_row_changes_grow(grid, r, a, b - 1);
    }
}

/// Counting more rows never counts fewer changes.
pub proof fn lemma_changes_grow(grid: Seq<Seq<bool>>, a: int, b: int)
    requires
        a <= b,
    ensures
        changes(grid, a) <= changes(grid, b),
    decreases b - a,
{
    if a < b {
        lemma_changes_grow(grid, a, b - 1);
    }
}

/// A transition keeps the shape of the grid: as many rows, each of its
/// length. So a grid whose rows are of one length stays so.
pub proof fn lemma_successor_shape(grid: Seq<Seq<bool>>)
    ensures
        successor(grid).len() == grid.len(),
        forall|r: int| 0 <= r < grid.len() ==> (#[trigger] successor(grid)[r]).len() == grid[r].len(),
        rectangular(grid) ==> rectangular(successor(grid)),
{
    if rectangular(grid) {
        assert forall|r: int| 0 <= r < successor(grid).len() implies (#[trigger] successor(
            grid,
        )[r]).len() == successor(grid)[0].len() by {
            assert(grid[r].len() == grid[0].len());
        }
    }
}

/// A row counts no change exactly where the transition leaves each of its
/// counted cells as it is.
pub proof fn lemma_row_at_rest(grid: Seq<Seq<bool>>, r: int, upto: int)
    ensures
        row_changes(grid, r, upto) == 0 <==> forall|c: int|
            0 <= c < upto ==> #[trigger] next_at(grid, r, c) == grid[r][c],
    decreases upto,
{
    if upto > 0 {
        lemma_row_at_rest(grid, r, upto - 1);
        if row_changes(grid, r, upto) == 0 {
            assert forall|c: int| 0 <= c < upto implies #[trigger] next_at(grid, r, c)
                == grid[r][c] by {
                if c < upto - 1 {
                } else {
                    assert(c == upto - 1);
                }
            }
        } else {
            if row_changes(grid, r, upto - 1) == 0 {
                assert(next_at(grid, r, upto - 1) != grid[r][upto - 1]);
            }
        }
    }
}

/// The first `upto` rows count no change exactly where each of them counts
/// none.
pub proof fn lemma_rows_at_rest(grid: Seq<Seq<bool>>, upto: int)
    ensures
        changes(grid, upto) == 0 <==> forall|r: int|
            0 <= r < upto ==> #[trigger] row_changes(grid, r, grid[r].len() as int) == 0,
    decreases upto,
{
    if upto > 0 {
        lemma_rows_at_rest(grid, upto - 1);
        if changes(grid, upto) == 0 {
            assert forall|r: int| 0 <= r < upto implies #[trigger] row_changes(
                grid,
                r,
                grid[r].len() as int,
            ) == 0 by {
                if r < upto - 1 {
                } else {
                    assert(r == upto - 1);
                }
            }
        } else {
            if changes(grid, upto - 1) == 0 {
                assert(row_changes(grid, upto - 1, grid[upto - 1].len() as int) != 0);
            }
        }
    }
}

/// The delta of a grid is 0 exactly where the transition leaves the grid
/// as it is.
pub proof fn lemma_at_rest(grid: Seq<Seq<bool>>)
    ensures
        delta_of(grid) == 0 <==> successor(grid) == grid,
{
    lemma_rows_at_rest(grid, grid.len() as int);
    assert forall|r: int| 0 <= r < grid.len() implies (#[trigger] row_changes(
        grid,
        r,
        grid[r].len() as int,
    ) == 0 <==> successor(grid)[r] == grid[r]) by {
        lemma_row_at_rest(grid, r, grid[r].len() as int);
        if successor(grid)[r] == grid[r] {
            assert forall|c: int| 0 <= c < grid[r].len() implies #[trigger] next_at(grid, r, c)
                == grid[r][c] by {
                assert(successor(grid)[r][c] == next_at(grid, r, c));
            }
        } else if row_changes(grid, r, grid[r].len() as int) == 0 {
            assert(successor(grid)[r] =~= grid[r]);
        }
    }
    if delta_of(grid) == 0 {
        assert forall|r: int| 0 <= r < grid.len() implies #[trigger] successor(grid)[r]
            == grid[r] by {
            assert(row_changes(grid, r, grid[r].len() as int) == 0);
        }
        assert(successor(grid) =~= grid);
    }
    if successor(grid) == grid {
        assert forall|r: int| 0 <= r < grid.len() implies #[trigger] row_changes(
            grid,
            r,
            grid[r].len() as int,
        ) == 0 by {
            assert(successor(grid)[r] == grid[r]);
        }
    }
}

/// A grid without a cell, be it without rows or without columns, is at rest:
/// its delta is 0 and the transition leaves it as it is.
pub proof fn lemma_empty_grid_at_rest(grid: Seq<Seq<bool>>)
    requires
        cell_count(grid, grid.len() as int) == 0,
    ensures
        delta_of(grid) == 0,
        successor(grid) == grid,
{
    lemma_changes_bound(grid, grid.len() as int);
    lemma_at_rest(grid);
}

/// The cell in the upper left corner has at most three neighbours on the
/// board, whatever the size of the board.
pub proof fn lemma_corner_neighbors(grid: Seq<Seq<bool>>)
    ensures
        live_neighbors(grid, 0, 0) <= 3,
{
}

/// A cell in the upper left corner that is the only alive cell of its board
/// dies in the next transition, whatever the size of the board.
pub proof fn lemma_lonely_corner_dies(grid: Seq<Seq<bool>>)
    requires
        alive_at(grid, 0, 0),
        forall|r: int, c: int| (r != 0 || c != 0) ==> !#[trigger] alive_at(grid, r, c),
    ensures
        live_neighbors(grid, 0, 0) == 0,
        !successor(grid)[0][0],
{
}

/// Whether (`r`, `c`) lies in the block of two by two cells whose upper
/// left corner is (`top`, `left`).
pub open spec fn in_block(top: int, left: int, r: int, c: int) -> bool {
    top <= r <= top + 1 && left <= c <= left + 1
}

/// A block of two by two alive cells on an otherwise dead board is at rest:
/// the transition changes no cell.
pub proof fn lemma_block_at_rest(grid: Seq<Seq<bool>>, top: int, left: int)
    requires
        rectangular(grid),
        0 <= top,
        top + 1 < grid.len(),
        0 <= left,
        left + 1 < grid[0].len(),
        forall|r: int, c: int|
            0 <= r < grid.len() && 0 <= c < grid[r].len() ==> #[trigger] grid[r][c] == in_block(
                top,
                left,
                r,
                c,
            ),
    ensures
        successor(grid) == grid,
        delta_of(grid) == 0,
{
    assert forall|r: int, c: int| #[trigger] alive_at(grid, r, c) == in_block(top, left, r, c) by {
        if 0 <= r < grid.len() {
            assert(grid[r].len() == grid[0].len());
            if 0 <= c < grid[r].len() {
                assert(grid[r][c] == in_block(top, left, r, c));
            }
        }
    }
    assert forall|r: int| 0 <= r < grid.len() implies #[trigger] successor(grid)[r] =~= grid[r] by {
        assert forall|c: int| 0 <= c < grid[r].len() implies successor(grid)[r][c]
            == grid[r][c] by {
            assert(alive_at(grid, r, c) == grid[r][c]);
            lemma_block_cell(grid, top, left, r, c);
        }
    }
    assert(successor(grid) =~= grid);
    lemma_at_rest(grid);
}

/// On a board whose alive cells are those of one block, every cell keeps
/// its state.
proof fn lemma_block_cell(grid: Seq<Seq<bool>>, top: int, left: int, r: int, c: int)
    requires
        forall|i: int, j: int| #[trigger] alive_at(grid, i, j) == in_block(top, left, i, j),
    ensures
        next_at(grid, r, c) == alive_at(grid, r, c),
{
    assert(alive_at(grid, r - 1, c - 1) == in_block(top, left, r - 1, c - 1));
    assert(alive_at(grid, r - 1, c) == in_block(top, left, r - 1, c));
    assert(alive_at(grid, r - 1, c + 1) == in_block(top, left, r - 1, c + 1));
    assert(alive_at(grid, r, c - 1) == in_block(top, left, r, c - 1));
    assert(alive_at(grid, r, c) == in_block(top, left, r, c));
    assert(alive_at(grid, r, c + 1) == in_block(top, left, r, c + 1));
    assert(alive_at(grid, r + 1, c - 1) == in_block(top, left, r + 1, c - 1));
    assert(alive_at(grid, r + 1, c) == in_block(top, left, r + 1, c));
    assert(alive_at(grid, r + 1, c + 1) == in_block(top, left, r + 1, c + 1));
}

} // verus!
