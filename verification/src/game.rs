//! The board, the game around it, and the operations on them.

use crate::life::alive_at;
use crate::life::cell_count;
use crate::life::changes;
use crate::life::delta_of;
use crate::life::lemma_at_rest;
use crate::life::lemma_cell_count_grow;
use crate::life::lemma_changes_bound;
use crate::life::lemma_changes_grow;
use crate::life::lemma_row_changes_grow;
use crate::life::live_neighbors;
use crate::life::next_at;
use crate::life::row_changes;
use crate::life::successor;
use crate::seed::cells;
use crate::seed::decode;
use crate::seed::encode;
use crate::seed::join;
use crate::seed::lemma_padded_marks;
use crate::seed::pad;
use crate::seed::parse;
use crate::seed::split;
use crate::seed::symbols;
use crate::seed::trim_bounds;
use crate::seed::trimmed;
use crate::text::decimal;
use crate::text::push_all;
use crate::text::push_decimal;
use crate::text::to_chars;
use vstd::prelude::*;

verus! {

/// Why a seed was rejected.
#[derive(Debug, PartialEq, Eq, Structural)]
pub enum BoardError {
    /// The separator is the same character as the alive or the dead symbol.
    InvalidSeparator(char),
    /// The seed holds a character (first field) that is neither the alive
    /// symbol (second field) nor the dead symbol (third field).
    InvalidSeedCharacter(char, char, char),
}

/// A grid of cells, row-major; `true` is alive.
pub struct Board {
    pub grid: Vec<Vec<bool>>,
}

/// The cells that `grid` holds, row by row.
pub open spec fn grid_view(grid: Seq<Vec<bool>>) -> Seq<Seq<bool>> {
    Seq::new(grid.len(), |r: int| grid[r]@)
}

impl View for Board {
    type V = Seq<Seq<bool>>;

    open spec fn view(&self) -> Seq<Seq<bool>> {
        grid_view(self.grid@)
    }
}

/// A board with the counters of its history.
pub struct Game {
    pub board: Board,
    /// How many transitions the board has gone through.
    pub generation: usize,
    /// How many cells the last transition changed.
    pub delta: usize,
}

/// Every row of `grid` is as long as the first.
pub open spec fn rectangular(grid: Seq<Seq<bool>>) -> bool {
    forall|r: int| 0 <= r < grid.len() ==> (#[trigger] grid[r]).len() == grid[0].len()
}

/// The length of the first row; 0 where there is no row.
pub open spec fn columns(grid: Seq<Seq<bool>>) -> nat {
    if grid.len() == 0 {
        0
    } else {
        grid[0].len()
    }
}

/// No row and no column has an index beyond `usize::MAX`.
proof fn lemma_fits(grid: &Vec<Vec<bool>>)
    ensures
        grid_view(grid@).len() <= usize::MAX,
        forall|r: int, c: int| c > usize::MAX ==> !#[trigger] alive_at(grid_view(grid@), r, c),
{
    assert(grid.len() == grid@.len());
    assert forall|r: int, c: int| c > usize::MAX implies !#[trigger] alive_at(
        grid_view(grid@),
        r,
        c,
    ) by {
        if 0 <= r < grid@.len() {
            assert(grid@[r].len() == grid@[r]@.len());
        }
    }
}

impl From<Board> for Game {
    /// A game that begins with `board`: no transition made yet.
    fn from(board: Board) -> (game: Game)
        ensures
            game.board == board,
            game.generation == 0,
            game.delta == 0,
    {
        Game { board, generation: 0, delta: 0 }
    }
}

impl vstd::std_specs::convert::FromSpecImpl<Board> for Game {
    open spec fn obeys_from_spec() -> bool {
        true
    }

    open spec fn from_spec(board: Board) -> Game {
        Game { board, generation: 0, delta: 0 }
    }
}

/// A game that has made no transition is not at rest, whatever its board
/// holds and whatever its delta says.
pub proof fn lemma_fresh_game_not_terminal(game: Game)
    requires
        game.generation == 0,
    ensures
        !game.terminal(),
{
}

/// A game whose last transition left the board as it was is at rest.
pub proof fn lemma_terminal_after_rest(before: Game, after: Game)
    requires
        after.board@ == successor(before.board@),
        after.delta == delta_of(before.board@),
        after.generation == before.generation + 1,
        successor(before.board@) == before.board@,
    ensures
        after.terminal(),
        after.board@ == before.board@,
{
    lemma_at_rest(before.board@);
}

impl BoardError {
    /// What `message` returns.
    pub open spec fn message_text(&self) -> Seq<char> {
        match self {
            BoardError::InvalidSeparator(c) => "invalid seed separator: "@.push(*c),
            BoardError::InvalidSeedCharacter(c, alive, dead) => "invalid seed character: '"@.push(
                *c,
            ) + "', expected '"@.push(*alive) + "' or '"@.push(*dead).push('\''),
        }
    }

    /// The error in words.
    pub fn message(&self) -> (s: String)
        ensures
            s@ == self.message_text(),
    {
        let mut s = String::new();
        match self {
            BoardError::InvalidSeparator(c) => {
                push_all(&mut s, "invalid seed separator: ");
                s.push(*c);
                assert(s@ =~= self.message_text());
            },
            BoardError::InvalidSeedCharacter(c, alive, dead) => {
                push_all(&mut s, "invalid seed character: '");
                s.push(*c);
                push_all(&mut s, "', expected '");
                s.push(*alive);
                push_all(&mut s, "' or '");
                s.push(*dead);
                s.push('\'');
                assert(s@ =~= self.message_text());
            },
        }
        s
    }
}

impl Game {
    /// Whether the game is at rest: there was a transition, and the last
    /// one changed nothing.
    pub open spec fn terminal(&self) -> bool {
        self.generation > 0 && self.delta == 0
    }

    /// The counters and, below them, the board in the usual symbols.
    pub fn describe(&self) -> (s: String)
        ensures
            s@ == "[n: "@ + decimal(self.generation as nat) + ", Δ: "@ + decimal(self.delta as nat)
                + "] \n"@ + encode(self.board@, '#', '.', '\n'),
    {
        let mut s = String::new();
        push_all(&mut s, "[n: ");
        push_decimal(&mut s, self.generation);
        push_all(&mut s, ", Δ: ");
        push_decimal(&mut s, self.delta);
        push_all(&mut s, "] \n");
        let board = self.board.to_text();
        push_all(&mut s, board.as_str());
        assert(s@ =~= "[n: "@ + decimal(self.generation as nat) + ", Δ: "@ + decimal(
            self.delta as nat,
        ) + "] \n"@ + encode(self.board@, '#', '.', '\n'));
        s
    }

    /// Makes one transition of the board and records it: the generation
    /// goes up by one, and the delta is that of this transition alone.
    pub fn next(&mut self)
        requires
            delta_of(old(self).board@) <= i32::MAX,
            old(self).generation < usize::MAX,
        ensures
            final(self).board@ == successor(old(self).board@),
            final(self).delta == delta_of(old(self).board@),
            final(self).generation == old(self).generation + 1,
    {
        self.delta = self.board.next() as usize;
        self.generation += 1;
    }

    /// Whether `next` can count one more transition: the board has no more
    /// than `i32::MAX` cells, and the generation is below `usize::MAX`.
    pub open spec fn countable(&self) -> bool {
        cell_count(self.board@, self.board@.len() as int) <= i32::MAX && self.generation
            < usize::MAX
    }

    /// Whether `next` can count one more transition.
    pub fn can_advance(&self) -> (b: bool)
        ensures
            b == self.countable(),
            b ==> delta_of(self.board@) <= i32::MAX,
    {
        let ghost grid = self.board@;
        proof {
            lemma_changes_bound(grid, grid.len() as int);
        }
        if self.generation == usize::MAX {
            return false;
        }
        let mut cells: usize = 0;
        let mut row: usize = 0;
        while row < self.board.grid.len()
            invariant
                row <= self.board.grid.len(),
                grid == self.board@,
                cells == cell_count(grid, row as int),
                cells <= i32::MAX,
            decreases self.board.grid.len() - row,
        {
            let width = self.board.grid[row].len();
            if width > 0x7fff_ffff - cells {
                proof {
                    lemma_cell_count_grow(grid, row + 1, grid.len() as int);
                }
                return false;
            }
            cells += width;
            row += 1;
        }
        true
    }

    /// Makes one transition where `next` can count it, and tells whether it
    /// did; leaves the game as it is where not.
    pub fn try_next(&mut self) -> (done: bool)
        ensures
            done == old(self).countable(),
            done ==> final(self).board@ == successor(old(self).board@) && final(self).delta
                == delta_of(old(self).board@) && final(self).generation == old(self).generation
                + 1,
            !done ==> *final(self) == *old(self),
    {
        if self.can_advance() {
            self.next();
            true
        } else {
            false
        }
    }

    /// Whether the board has come to rest: there was a transition, and the
    /// last one changed nothing.
    pub fn is_terminal(&self) -> (b: bool)
        ensures
            b == self.terminal(),
    {
        self.generation != 0 && self.delta == 0
    }
}

impl TryFrom<String> for Board {
    type Error = BoardError;

    /// Reads a board from a seed in the usual symbols.
    fn try_from(value: String) -> (r: Result<Board, BoardError>)
        ensures
            match decode(value@, '#', '.', '\n') {
                Ok(grid) => r matches Ok(board) && board@ == grid,
                Err(e) => r matches Err(found) && found == e,
            },
    {
        Board::from_seed(value, '#', '.', '\n')
    }
}

impl vstd::std_specs::convert::TryFromSpecImpl<String> for Board {
    /// A seed tells the cells of a board and no more, so the result is not
    /// held to equal a value named here: the contract of `try_from` states
    /// it over the cells.
    open spec fn obeys_try_from_spec() -> bool {
        false
    }

    open spec fn try_from_spec(value: String) -> Result<Board, BoardError> {
        match decode(value@, '#', '.', '\n') {
            Ok(grid) => Ok(choose|board: Board| board@ == grid),
            Err(e) => Err(e),
        }
    }
}

impl Board {
    /// Reads a board from a seed: rows of `alive` and `dead` symbols with
    /// `separator` between them. White space around the seed is ignored, and
    /// rows shorter than the longest are filled up with dead cells.
    pub fn from_seed(seed: String, alive: char, dead: char, separator: char) -> (r: Result<
        Board,
        BoardError,
    >)
        ensures
            match decode(seed@, alive, dead, separator) {
                Ok(grid) => r matches Ok(board) && board@ == grid,
                Err(e) => r matches Err(found) && found == e,
            },
            separator == alive || separator == dead ==> r == Err::<Board, BoardError>(
                BoardError::InvalidSeparator(separator),
            ),
            r matches Ok(board) ==> rectangular(board@) && board@.len() >= 1,
    {
        if separator == alive || separator == dead {
            return Err(BoardError::InvalidSeparator(separator));
        }
        let text = to_chars(seed.as_str());
        let (lo, hi) = trim_bounds(&text);
        match parse(&text, lo, hi, alive, dead, separator) {
            Err(e) => Err(e),
            Ok((rows, width)) => {
                let grid = pad(&rows, width);
                proof {
                    lemma_padded_marks(split(trimmed(seed@), separator), alive);
                }
                Ok(Board { grid })
            },
        }
    }

    /// The board in the usual symbols: `#` for alive, `.` for dead, a line
    /// feed between rows.
    pub fn to_text(&self) -> (s: String)
        ensures
            s@ == encode(self@, '#', '.', '\n'),
    {
        self.stringify('#', '.', '\n')
    }

    /// Writes the board as a seed: one symbol for each cell, `separator`
    /// between rows and none after the last.
    pub fn stringify(&self, alive: char, dead: char, separator: char) -> (s: String)
        ensures
            s@ == encode(self@, alive, dead, separator),
    {
        let ghost lines = Seq::new(self@.len(), |r: int| symbols(self@[r], alive, dead));
        let mut result = String::new();
        let mut r: usize = 0;
        assert(lines.take(0) =~= Seq::empty());
        while r < self.grid.len()
            invariant
                r <= self.grid.len(),
                lines == Seq::new(self@.len(), |r: int| symbols(self@[r], alive, dead)),
                result@ == join(lines.take(r as int), separator),
            decreases self.grid.len() - r,
        {
            if r > 0 {
                result.push(separator);
            }
            let ghost start = result@;
            let row = &self.grid[r];
            let mut c: usize = 0;
            assert(lines[r as int].take(0) =~= Seq::empty());
            assert(start + Seq::<char>::empty() =~= start);
            while c < row.len()
                invariant
                    c <= row.len(),
                    r < self.grid.len(),
                    row@ == self@[r as int],
                    lines == Seq::new(self@.len(), |r: int| symbols(self@[r], alive, dead)),
                    result@ == start + lines[r as int].take(c as int),
                decreases row.len() - c,
            {
                result.push(
                    if row[c] {
                        alive
                    } else {
                        dead
                    },
                );
                assert(lines[r as int].take(c + 1) =~= lines[r as int].take(c as int).push(
                    lines[r as int][c as int],
                ));
                c += 1;
            }
            assert(lines[r as int].take(c as int) =~= lines[r as int]);
            assert(lines.take(r + 1).drop_last() =~= lines.take(r as int));
            assert(lines.take(r + 1).last() == lines[r as int]);
            r += 1;
        }
        assert(lines.take(r as int) =~= lines);
        result
    }

    /// Whether the cell at (`row`, `col`) is alive; positions outside the
    /// board are dead.
    pub fn safe_get(&self, row: usize, col: usize) -> (alive: bool)
        ensures
            alive == alive_at(self@, row as int, col as int),
    {
        if row < self.grid.len() {
            let cells = &self.grid[row];
            if col < cells.len() {
                return cells[col];
            }
        }
        false
    }

    /// How many of the eight cells around (`row`, `col`) are alive.
    pub fn neighbors(&self, row: usize, col: usize) -> (n: usize)
        ensures
            n == live_neighbors(self@, row as int, col as int),
    {
        let left = col > 0;
        let right = col < usize::MAX;
        let mut n: usize = 0;
        proof {
            lemma_fits(&self.grid);
        }
        if row > 0 {
            if left && self.safe_get(row - 1, col - 1) {
                n += 1;
            }
            if self.safe_get(row - 1, col) {
                n += 1;
            }
            if right && self.safe_get(row - 1, col + 1) {
                n += 1;
            }
        }
        if left && self.safe_get(row, col - 1) {
            n += 1;
        }
        if right && self.safe_get(row, col + 1) {
            n += 1;
        }
        if row < usize::MAX {
            if left && self.safe_get(row + 1, col - 1) {
                n += 1;
            }
            if self.safe_get(row + 1, col) {
                n += 1;
            }
            if right && self.safe_get(row + 1, col + 1) {
                n += 1;
            }
        }
        n
    }

    /// What becomes of the cell at (`row`, `col`) in a transition, and
    /// whether that differs from what it is.
    pub fn interact(&self, row: usize, col: usize) -> (r: (bool, bool))
        ensures
            r.0 == next_at(self@, row as int, col as int),
            r.1 == (r.0 != alive_at(self@, row as int, col as int)),
    {
        let neighbors = self.neighbors(row, col);
        let alive = self.safe_get(row, col);
        let next = if !alive && neighbors == 3 {
            true
        } else if alive && neighbors <= 1 {
            false
        } else if alive && neighbors <= 3 {
            true
        } else {
            false
        };
        (next, next != alive)
    }

    /// Makes one transition and tells how many cells it changed.
    pub fn next(&mut self) -> (delta: i32)
        requires
            delta_of(old(self)@) <= i32::MAX,
        ensures
            final(self)@ == successor(old(self)@),
            delta == delta_of(old(self)@),
    {
        let ghost grid = self@;
        let mut next: Vec<Vec<bool>> = Vec::new();
        let mut delta: i32 = 0;
        let mut row: usize = 0;
        while row < self.grid.len()
            invariant
                row <= self.grid.len(),
                grid == self@,
                delta_of(grid) <= i32::MAX,
                next.len() == row,
                forall|k: int| 0 <= k < row ==> (#[trigger] next@[k])@ == successor(grid)[k],
                delta == changes(grid, row as int),
            decreases self.grid.len() - row,
        {
            let width = self.grid[row].len();
            let mut line: Vec<bool> = Vec::new();
            let mut col: usize = 0;
            while col < width
                invariant
                    col <= width,
                    row < self.grid.len(),
                    width == grid[row as int].len(),
                    grid == self@,
                    delta_of(grid) <= i32::MAX,
                    line.len() == col,
                    forall|k: int| 0 <= k < col ==> #[trigger] line@[k] == next_at(grid, row as int, k),
                    delta == changes(grid, row as int) + row_changes(grid, row as int, col as int),
                decreases width - col,
            {
                let (state, has_changed) = self.interact(row, col);
                if has_changed {
                    proof {
                        lemma_row_changes_grow(grid, row as int, col + 1, width as int);
                        lemma_changes_grow(grid, row + 1, grid.len() as int);
                    }
                    delta += 1;
                }
                line.push(state);
                col += 1;
            }
            assert(line@ =~= successor(grid)[row as int]);
            next.push(line);
            row += 1;
        }
        self.grid = next;
        assert(self@ =~= successor(grid));
        delta
    }

    /// Whether every row is as long as the first.
    pub fn is_rectangular(&self) -> (b: bool)
        ensures
            b == rectangular(self@),
    {
        let mut row: usize = 1;
        while row < self.grid.len()
            invariant
                1 <= row,
                forall|r: int| 0 <= r < row && r < self@.len() ==> (#[trigger] self@[r]).len()
                    == self@[0].len(),
            decreases self.grid.len() - row,
        {
            if self.grid[row].len() != self.grid[0].len() {
                assert(self@[row as int].len() != self@[0].len());
                return false;
            }
            row += 1;
        }
        true
    }

    /// The number of rows.
    pub fn rows(&self) -> (n: usize)
        ensures
            n == self@.len(),
    {
        self.grid.len()
    }

    /// The number of columns: the length of the first row, 0 on a board
    /// without rows.
    pub fn cols(&self) -> (n: usize)
        ensures
            n == columns(self@),
    {
        if self.grid.len() == 0 {
            0
        } else {
            self.grid[0].len()
        }
    }
}

} // verus!
