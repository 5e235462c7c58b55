//! The board: the canonical puzzle state, move legality and application,
//! the goal test and the Manhattan-distance heuristic.

use vstd::prelude::*;
use crate::model::{
    arrangement, blank_dest, default_goal, grid_ok, has_value, layout_cell, layout_wf,
    legal_directions, lemma_arrangement_complete, lemma_default_goal_arrangement,
    lemma_manhattan_zero, lemma_move_preserves_grid, manhattan, move_ok, tiles_after,
    tiles_match_layout, values_distinct, values_in_range,
};
use crate::text::{board_text, cell_text, push_hborder, row_cells, rows_text, usize_to_string};
use crate::tiles::{
    copy_tiles, dest_index, index_of_value, manhattan_of, moves_from, swap_with_blank, tiles_equal,
};
use vstd::string::StringExecFns;

verus! {

/// The four ways the blank cell can slide.
#[derive(Clone, Copy, Debug, PartialEq, Eq, Structural)]
pub enum Direction {
    Up,
    Down,
    Left,
    Right,
}

/// The direction's name, as the move-rejection error spells it.
pub open spec fn direction_label(d: Direction) -> Seq<char> {
    match d {
        Direction::Up => "Up"@,
        Direction::Down => "Down"@,
        Direction::Left => "Left"@,
        Direction::Right => "Right"@,
    }
}

/// A puzzle board: a flat row-major tile vector, the goal arrangement it
/// is solved towards, the blank's flat index, and the grid side length.
#[derive(Clone, Debug)]
pub struct Board {
    state: Vec<u8>,
    goal_state: Vec<u8>,
    blank_pos: usize,
    size: usize,
}

/// What a board abstracts to: its tiles, its goal, the blank's index and
/// the grid side.
pub struct BoardModel {
    pub tiles: Seq<u8>,
    pub goal: Seq<u8>,
    pub blank: int,
    pub size: int,
}

impl BoardModel {
    /// A valid board: tiles and goal are both permutations of the cell
    /// indices, and the blank index points at the blank tile.
    pub open spec fn wf(self) -> bool {
        &&& grid_ok(self.tiles, self.blank, self.size)
        &&& arrangement(self.goal)
        &&& self.goal.len() == self.tiles.len()
    }

    /// Whether the tiles already show the goal arrangement.
    pub open spec fn is_goal(self) -> bool {
        self.tiles == self.goal
    }
}

impl View for Board {
    type V = BoardModel;

    closed spec fn view(&self) -> BoardModel {
        BoardModel {
            tiles: self.state@,
            goal: self.goal_state@,
            blank: self.blank_pos as int,
            size: self.size as int,
        }
    }
}

/// Whether `v` occurs among the tiles collected so far.
fn contains_value(v: &Vec<u8>, x: u8) -> (r: bool)
    ensures
        r <==> has_value(v@, x as int),
{
    let mut i: usize = 0;
    while i < v.len()
        invariant
            i <= v.len(),
            forall|j: int| 0 <= j < i ==> v@[j] != x,
        decreases v@.len() - i,
    {
        if v[i] == x {
            return true;
        }
        i += 1;
    }
    false
}

/// Flattens a row-major layout into a tile vector, validating on the way
/// that the layout is square, within bounds, and free of repetitions.
fn flatten_layout(layout: &Vec<Vec<i32>>) -> (r: Option<Vec<u8>>)
    ensures
        match r {
            Some(t) => {
                &&& layout_wf(layout.deep_view())
                &&& tiles_match_layout(t@, layout.deep_view())
                &&& t@.len() == layout@.len() * layout@.len()
                &&& values_in_range(t@)
                &&& values_distinct(t@)
            },
            None => !layout_wf(layout.deep_view()),
        },
{
    let ghost l = layout.deep_view();
    let n = layout.len();
    if n < 1 || n > 16 {
        return None;
    }
    proof {
        assert(n as int * n as int <= 256) by (nonlinear_arith)
            requires
                1 <= n <= 16,
        {}
    }
    let nn = n * n;
    let mut tiles: Vec<u8> = Vec::new();
    let mut i: usize = 0;
    while i < n
        invariant
            i <= n,
            l == layout.deep_view(),
            n == l.len(),
            n == layout@.len(),
            1 <= n <= 16,
            nn == n * n,
            nn <= 256,
            tiles@.len() == i * n,
            forall|i2: int| 0 <= i2 < i ==> (#[trigger] l[i2]).len() == n,
            forall|p: int| 0 <= p < tiles@.len() ==> (#[trigger] tiles@[p]) as int == layout_cell(
                l,
                p,
            ),
            forall|p: int| 0 <= p < tiles@.len() ==> ((#[trigger] tiles@[p]) as int) < nn,
            values_distinct(tiles@),
        decreases n - i,
    {
        if layout[i].len() != n {
            proof {
                assert(l[i as int].len() != n);
            }
            return None;
        }
        let mut j: usize = 0;
        while j < n
            invariant
                j <= n,
                i < n,
                l == layout.deep_view(),
                n == l.len(),
                n == layout@.len(),
                1 <= n <= 16,
                nn == n * n,
                nn <= 256,
                l[i as int].len() == n,
                layout@[i as int]@.len() == n,
                tiles@.len() == i * n + j,
                forall|i2: int| 0 <= i2 < i ==> (#[trigger] l[i2]).len() == n,
                forall|p: int| 0 <= p < tiles@.len() ==> (#[trigger] tiles@[p]) as int
                    == layout_cell(l, p),
                forall|p: int| 0 <= p < tiles@.len() ==> ((#[trigger] tiles@[p]) as int) < nn,
                values_distinct(tiles@),
            decreases n - j,
        {
            proof {
                assert(i * n + j < n * n && i * n + n <= n * n) by (nonlinear_arith)
                    requires
                        0 <= i < n,
                        0 <= j < n,
                {}
                vstd::arithmetic::div_mod::lemma_fundamental_div_mod_converse(
                    i as int * n as int + j as int,
                    n as int,
                    i as int,
                    j as int,
                );
                assert(layout_cell(l, tiles@.len() as int) == l[i as int][j as int]);
            }
            let row = &layout[i];
            let v = row[j];
            if v < 0 || v >= nn as i32 {
                return None;
            }
            let u = v as u8;
            if contains_value(&tiles, u) {
                proof {
                    let p0 = choose|p0: int|
                        0 <= p0 < tiles@.len() && (#[trigger] tiles@[p0]) as int == u as int;
                    assert(layout_cell(l, p0) == layout_cell(l, tiles@.len() as int));
                }
                return None;
            }
            tiles.push(u);
            j += 1;
        }
        proof {
            assert((i as int + 1) * n as int == i as int * n as int + n as int)
                by (nonlinear_arith);
        }
        i += 1;
    }
    proof {
        assert(tiles@.len() == n * n);
        let ni = n as int;
        assert forall|p: int| 0 <= p < ni * ni implies 0 <= #[trigger] layout_cell(l, p)
            < ni * ni by {
            assert(tiles@[p] as int == layout_cell(l, p));
        }
        assert forall|p: int, q: int|
            #![trigger layout_cell(l, p), layout_cell(l, q)]
            0 <= p < q < ni * ni implies layout_cell(l, p) != layout_cell(l, q) by {
            assert(tiles@[p] as int == layout_cell(l, p));
            assert(tiles@[q] as int == layout_cell(l, q));
        }
        assert(layout_wf(l));
    }
    Some(tiles)
}

/// Builds the default goal arrangement `1, 2, ..., len - 1, 0`.
fn build_default_goal(len: usize) -> (r: Vec<u8>)
    requires
        1 <= len <= 256,
    ensures
        r@ == default_goal(len as int),
{
    let mut out: Vec<u8> = Vec::new();
    let mut p: usize = 0;
    while p < len
        invariant
            p <= len,
            1 <= len <= 256,
            out@.len() == p,
            forall|q: int| 0 <= q < p ==> out@[q] == default_goal(len as int)[q],
        decreases len - p,
    {
        if p == len - 1 {
            out.push(0);
        } else {
            out.push((p + 1) as u8);
        }
        p += 1;
    }
    assert(out@ =~= default_goal(len as int));
    out
}

impl Board {
    /// A valid board, as `BoardModel::wf` states it.
    pub open spec fn wf(&self) -> bool {
        self@.wf()
    }

    /// Builds a board from a row-major layout; the goal defaults to the
    /// tiles in ascending order with the blank last.  A layout that is
    /// not square, holds a value out of range, or repeats a value is
    /// rejected with a descriptive error.
    pub fn new(initial_state: Vec<Vec<i32>>) -> (r: Result<Board, String>)
        ensures
            match r {
                Ok(b) => {
                    &&& b.wf()
                    &&& layout_wf(initial_state.deep_view())
                    &&& tiles_match_layout(b@.tiles, initial_state.deep_view())
                    &&& b@.size == initial_state@.len()
                    &&& b@.goal == default_goal(b@.tiles.len() as int)
                },
                Err(_) => !layout_wf(initial_state.deep_view()),
            },
    {
        match flatten_layout(&initial_state) {
            None => Err("invalid board: the layout must be a square permutation of 0..n*n-1".to_owned()),
            Some(tiles) => {
                proof {
                    assert(1 <= tiles@.len() <= 256) by (nonlinear_arith)
                        requires
                            tiles@.len() == initial_state@.len() * initial_state@.len(),
                            1 <= initial_state@.len() <= 16,
                    {}
                    lemma_arrangement_complete(tiles@);
                    lemma_default_goal_arrangement(tiles@.len() as int);
                }
                let goal_state = build_default_goal(tiles.len());
                let blank_pos = index_of_value(&tiles, 0);
                Ok(Board { state: tiles, goal_state, blank_pos, size: initial_state.len() })
            },
        }
    }

    /// Builds a board from a row-major layout and an explicit goal layout
    /// of the same dimensions; both must be permutations of the same
    /// symbol set.
    pub fn new_with_goal(initial_state: Vec<Vec<i32>>, goal_state: Vec<Vec<i32>>) -> (r: Result<
        Board,
        String,
    >)
        ensures
            match r {
                Ok(b) => {
                    &&& b.wf()
                    &&& layout_wf(initial_state.deep_view())
                    &&& layout_wf(goal_state.deep_view())
                    &&& goal_state@.len() == initial_state@.len()
                    &&& tiles_match_layout(b@.tiles, initial_state.deep_view())
                    &&& tiles_match_layout(b@.goal, goal_state.deep_view())
                    &&& b@.size == initial_state@.len()
                },
                Err(_) => !(layout_wf(initial_state.deep_view()) && layout_wf(
                    goal_state.deep_view(),
                ) && goal_state@.len() == initial_state@.len()),
            },
    {
        if goal_state.len() != initial_state.len() {
            return Err("invalid goal: its dimensions must match the initial layout".to_owned());
        }
        let tiles = match flatten_layout(&initial_state) {
            None => {
                return Err(
                    "invalid board: the layout must be a square permutation of 0..n*n-1".to_owned(),
                );
            },
            Some(t) => t,
        };
        let goal_tiles = match flatten_layout(&goal_state) {
            None => {
                return Err(
                    "invalid goal: the layout must be a square permutation of 0..n*n-1".to_owned(),
                );
            },
            Some(t) => t,
        };
        proof {
            assert(1 <= tiles@.len() <= 256 && 1 <= goal_tiles@.len() <= 256)
                by (nonlinear_arith)
                requires
                    tiles@.len() == initial_state@.len() * initial_state@.len(),
                    goal_tiles@.len() == goal_state@.len() * goal_state@.len(),
                    1 <= initial_state@.len() <= 16,
                    1 <= goal_state@.len() <= 16,
            {}
            lemma_arrangement_complete(tiles@);
            lemma_arrangement_complete(goal_tiles@);
        }
        let blank_pos = index_of_value(&tiles, 0);
        Ok(Board { state: tiles, goal_state: goal_tiles, blank_pos, size: initial_state.len() })
    }

    /// The tiles as a row-major two-dimensional grid.
    pub fn get_state(&self) -> (r: Vec<Vec<u8>>)
        requires
            self.wf(),
        ensures
            r@.len() == self@.size,
            forall|i: int| 0 <= i < self@.size ==> (#[trigger] r@[i])@.len() == self@.size,
            forall|i: int, j: int|
                0 <= i < self@.size && 0 <= j < self@.size ==> (#[trigger] r@[i]@[j])
                    == self@.tiles[i * self@.size + j],
    {
        let mut result: Vec<Vec<u8>> = Vec::new();
        let mut i: usize = 0;
        let mut p: usize = 0;
        while i < self.size
            invariant
                i <= self.size,
                self.wf(),
                self@.size == self.size,
                self@.tiles.len() == self.size * self.size,
                p == i * self.size,
                p <= self@.tiles.len(),
                result@.len() == i,
                forall|i2: int| 0 <= i2 < i ==> (#[trigger] result@[i2])@.len() == self@.size,
                forall|i2: int, q: int|
                    0 <= i2 < i && 0 <= q < self@.size ==> (#[trigger] result@[i2]@[q])
                        == self@.tiles[i2 * self@.size + q],
            decreases self.size - i,
        {
            proof {
                assert(i as int * self.size as int + self.size as int <= self.size as int
                    * self.size as int && (i as int + 1) * self.size as int == i as int
                    * self.size as int + self.size as int && self.size as int * self.size as int
                    <= 256) by (nonlinear_arith)
                    requires
                        0 <= i < self.size <= 16,
                {}
            }
            let mut row: Vec<u8> = Vec::new();
            let mut j: usize = 0;
            while j < self.size
                invariant
                    j <= self.size,
                    i < self.size,
                    self.wf(),
                    self@.size == self.size,
                    self@.tiles.len() == self.size * self.size,
                    i * self.size + self.size <= self.size * self.size,
                    self.size * self.size <= 256,
                    p == i * self.size + j,
                    row@.len() == j,
                    forall|q: int| 0 <= q < j ==> row@[q] == self@.tiles[i * self@.size + q],
                decreases self.size - j,
            {
                assert(p < self@.tiles.len());
                row.push(self.state[p]);
                p += 1;
                j += 1;
            }
            result.push(row);
            proof {
                assert((i as int + 1) * self.size as int == i as int * self.size as int
                    + self.size as int) by (nonlinear_arith);
            }
            i += 1;
        }
        result
    }

    /// The tiles as a flat row-major vector.
    pub(crate) fn flat_state(&self) -> (r: Vec<u8>)
        ensures
            r@ == self@.tiles,
    {
        copy_tiles(&self.state)
    }

    /// The goal arrangement as a flat vector.
    pub fn get_goal_state(&self) -> (r: Vec<u8>)
        ensures
            r@ == self@.goal,
    {
        copy_tiles(&self.goal_state)
    }

    /// The side length of the grid.
    pub fn get_size(&self) -> (r: usize)
        ensures
            r as int == self@.size,
    {
        self.size
    }

    /// Whether the tiles already show the goal arrangement exactly.
    pub fn is_goal(&self) -> (r: bool)
        ensures
            r <==> self@.is_goal(),
    {
        tiles_equal(&self.state, &self.goal_state)
    }

    /// The moves legal from the current blank position, determined purely
    /// by its row and column against the grid bounds.
    pub fn get_possible_moves(&self) -> (r: Vec<Direction>)
        requires
            self.wf(),
        ensures
            r@ == legal_directions(self@.blank, self@.size),
            forall|i: int| 0 <= i < r@.len() ==> move_ok(self@.blank, self@.size, #[trigger] r@[i]),
            forall|d: Direction| move_ok(self@.blank, self@.size, d) ==> r@.contains(d),
    {
        moves_from(self.blank_pos, self.size)
    }

    /// Applies a move, swapping the blank with the adjacent tile in the
    /// given direction; an illegal direction is rejected and leaves the
    /// board untouched.
    pub fn make_move(&mut self, dir: Direction) -> (r: Result<(), String>)
        requires
            old(self).wf(),
        ensures
            final(self).wf(),
            final(self)@.goal == old(self)@.goal,
            final(self)@.size == old(self)@.size,
            match r {
                Ok(()) => {
                    &&& move_ok(old(self)@.blank, old(self)@.size, dir)
                    &&& final(self)@.tiles == tiles_after(
                        old(self)@.tiles,
                        old(self)@.blank,
                        old(self)@.size,
                        dir,
                    )
                    &&& final(self)@.blank == blank_dest(old(self)@.blank, old(self)@.size, dir)
                },
                Err(e) => {
                    &&& !move_ok(old(self)@.blank, old(self)@.size, dir)
                    &&& final(self)@ == old(self)@
                    &&& e@ == "Invalid move: "@ + direction_label(dir)
                },
            },
    {
        let row = self.blank_pos / self.size;
        let col = self.blank_pos % self.size;
        let legal = match dir {
            Direction::Up => row > 0,
            Direction::Down => row < self.size - 1,
            Direction::Left => col > 0,
            Direction::Right => col < self.size - 1,
        };
        if !legal {
            let mut message = "Invalid move: ".to_owned();
            message.append(
                match dir {
                    Direction::Up => "Up",
                    Direction::Down => "Down",
                    Direction::Left => "Left",
                    Direction::Right => "Right",
                },
            );
            return Err(message);
        }
        let dest = dest_index(self.blank_pos, self.size, dir);
        proof {
            lemma_move_preserves_grid(self@.tiles, self@.blank, self@.size, dir);
        }
        let new_tiles = swap_with_blank(&self.state, self.blank_pos, dest);
        self.state = new_tiles;
        self.blank_pos = dest;
        Ok(())
    }

    /// The board as a boxed grid with `_` for the blank: a pure
    /// formatting operation with no semantic effect, usable by any
    /// renderer.
    pub fn render(&self) -> (r: String)
        requires
            self.wf(),
        ensures
            r@ == board_text(self@.tiles, self@.size),
    {
        let size = self.size;
        let ghost tiles = self@.tiles;
        let mut out = "┌".to_owned();
        push_hborder(&mut out, size, "┬");
        out.append("┐\n");
        let ghost top = "┌"@ + crate::text::hborder(size as int, size as int, "┬"@) + "┐\n"@;
        proof {
            assert(out@ =~= top);
        }
        proof {
            assert(size as int * size as int <= 256) by (nonlinear_arith)
                requires
                    1 <= size <= 16,
            {}
        }
        let mut row: usize = 0;
        let mut p: usize = 0;
        while row < size
            invariant
                row <= size,
                self.wf(),
                self@.size == size,
                self@.tiles == tiles,
                tiles.len() == size * size,
                tiles.len() <= 256,
                p == row * size,
                p <= tiles.len(),
                top == "┌"@ + crate::text::hborder(size as int, size as int, "┬"@) + "┐\n"@,
                out@ == top + rows_text(tiles, size as int, row as int),
            decreases size - row,
        {
            proof {
                assert(row as int * size as int + size as int <= size as int * size as int && (
                row as int + 1) * size as int == row as int * size as int + size as int)
                    by (nonlinear_arith)
                    requires
                        0 <= row < size,
                {}
            }
            let ghost before_row = out@;
            out.append("│");
            let mut col: usize = 0;
            while col < size
                invariant
                    col <= size,
                    row < size,
                    self.wf(),
                    self@.size == size,
                    self@.tiles == tiles,
                    tiles.len() == size * size,
                    tiles.len() <= 256,
                    row * size + size <= size * size,
                    p == row * size + col,
                    before_row == top + rows_text(tiles, size as int, row as int),
                    out@ == before_row + "│"@ + row_cells(
                        tiles,
                        size as int,
                        row as int,
                        col as int,
                    ),
                decreases size - col,
            {
                assert(p < tiles.len());
                let v = self.state[p];
                if v == 0 {
                    out.append(" _ │");
                } else {
                    out.append(" ");
                    let num = usize_to_string(v as usize);
                    out.append(num.as_str());
                    out.append(" │");
                }
                proof {
                    assert(cell_text(tiles[row as int * size as int + col as int]) == (if v == 0 {
                        " _ │"@
                    } else {
                        " "@ + crate::text::decimal(v as int) + " │"@
                    }));
                    assert(out@ =~= before_row + "│"@ + row_cells(
                        tiles,
                        size as int,
                        row as int,
                        col as int + 1,
                    ));
                }
                p += 1;
                col += 1;
            }
            out.append("\n");
            if row + 1 < size {
                out.append("├");
                push_hborder(&mut out, size, "┼");
                out.append("┤\n");
            }
            proof {
                assert(out@ =~= top + rows_text(tiles, size as int, row as int + 1));
            }
            row += 1;
        }
        out.append("└");
        push_hborder(&mut out, size, "┴");
        out.append("┘\n");
        proof {
            assert(out@ =~= board_text(tiles, size as int));
        }
        out
    }

    /// The Manhattan distance to the goal: for every non-blank tile, the
    /// row gap plus the column gap between its cell and its goal cell.
    /// It is zero exactly on a board that is already solved.
    pub fn manhattan_distance(&self) -> (r: u32)
        requires
            self.wf(),
        ensures
            r as int == manhattan(self@.tiles, self@.goal, self@.size),
            r == 0 <==> self@.is_goal(),
    {
        proof {
            lemma_manhattan_zero(self@.tiles, self@.goal, self@.blank, self@.size);
        }
        manhattan_of(&self.state, &self.goal_state, self.size)
    }
}

} // verus!
