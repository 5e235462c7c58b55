//! Executable helpers on flat tile vectors, shared by the board and the
//! search strategies.

use vstd::prelude::*;
use crate::board::Direction;
use crate::model::{
    arrangement, blank_dest, gap_sum, has_value, legal_directions, lemma_cell_bounds,
    lemma_dest_in_range, lemma_distinct_tiles_bounded, lemma_goal_index_unique, manhattan,
    move_ok, pow256, tile_gap, values_in_range,
};

verus! {

/// An element-wise copy of a tile vector.
pub(crate) fn copy_tiles(v: &Vec<u8>) -> (r: Vec<u8>)
    ensures
        r@ == v@,
{
    let mut out: Vec<u8> = Vec::new();
    let mut i: usize = 0;
    while i < v.len()
        invariant
            i <= v.len(),
            out@ == v@.subrange(0, i as int),
        decreases v@.len() - i,
    {
        out.push(v[i]);
        assert(out@ =~= v@.subrange(0, i as int + 1));
        i += 1;
    }
    assert(out@ =~= v@);
    out
}

/// Whether two tile vectors show exactly the same tiles.
pub(crate) fn tiles_equal(a: &Vec<u8>, b: &Vec<u8>) -> (r: bool)
    ensures
        r <==> a@ == b@,
{
    if a.len() != b.len() {
        return false;
    }
    let mut i: usize = 0;
    while i < a.len()
        invariant
            i <= a.len(),
            a@.len() == b@.len(),
            forall|j: int| 0 <= j < i ==> a@[j] == b@[j],
        decreases a@.len() - i,
    {
        if a[i] != b[i] {
            return false;
        }
        i += 1;
    }
    assert(a@ =~= b@);
    true
}

/// An element-wise copy of a move sequence.
pub(crate) fn copy_dirs(v: &Vec<Direction>) -> (r: Vec<Direction>)
    ensures
        r@ == v@,
{
    let mut out: Vec<Direction> = Vec::new();
    let mut i: usize = 0;
    while i < v.len()
        invariant
            i <= v.len(),
            out@ == v@.subrange(0, i as int),
        decreases v@.len() - i,
    {
        out.push(v[i]);
        assert(out@ =~= v@.subrange(0, i as int + 1));
        i += 1;
    }
    assert(out@ =~= v@);
    out
}

/// The tile vector `t` occurs among the collected vectors.
pub open spec fn in_visited(vs: Seq<Vec<u8>>, t: Seq<u8>) -> bool {
    exists|k: int| 0 <= k < vs.len() && (#[trigger] vs[k])@ == t
}

/// Whether the tile vector was collected before.
pub(crate) fn contains_tiles(vs: &Vec<Vec<u8>>, t: &Vec<u8>) -> (r: bool)
    ensures
        r <==> in_visited(vs@, t@),
{
    let mut k: usize = 0;
    while k < vs.len()
        invariant
            k <= vs.len(),
            forall|j: int| 0 <= j < k ==> (#[trigger] vs@[j])@ != t@,
        decreases vs@.len() - k,
    {
        if tiles_equal(&vs[k], t) {
            return true;
        }
        k += 1;
    }
    false
}

/// Pairwise different collected tile vectors of one length number at
/// most the count of possible tile vectors: the bound every deduplicated
/// search obeys.
pub(crate) proof fn lemma_collected_bounded(vs: Seq<Vec<u8>>, len: nat)
    requires
        forall|k: int| 0 <= k < vs.len() ==> (#[trigger] vs[k])@.len() == len,
        forall|k1: int, k2: int|
            #![trigger vs[k1], vs[k2]]
            0 <= k1 < k2 < vs.len() ==> vs[k1]@ != vs[k2]@,
    ensures
        vs.len() <= pow256(len),
{
    let ts = Seq::new(vs.len(), |k: int| vs[k]@);
    lemma_distinct_tiles_bounded(ts, len);
}

/// The index of the first occurrence of `x`, which must occur.
pub(crate) fn index_of_value(v: &Vec<u8>, x: u8) -> (r: usize)
    requires
        has_value(v@, x as int),
    ensures
        r < v@.len(),
        v@[r as int] == x,
{
    let mut i: usize = 0;
    while i < v.len()
        invariant
            i <= v.len(),
            has_value(v@, x as int),
            forall|j: int| 0 <= j < i ==> v@[j] != x,
        decreases v@.len() - i,
    {
        if v[i] == x {
            return i;
        }
        i += 1;
    }
    proof {
        assert(false);
    }
    0
}

/// The flat index the blank lands on for a legal move.
pub(crate) fn dest_index(blank: usize, size: usize, d: Direction) -> (r: usize)
    requires
        1 <= size <= 16,
        blank < size * size,
        move_ok(blank as int, size as int, d),
    ensures
        r as int == blank_dest(blank as int, size as int, d),
        r < size * size,
        r != blank,
{
    proof {
        lemma_dest_in_range(blank as int, size as int, d);
        assert(size as int * size as int <= 256) by (nonlinear_arith)
            requires
                1 <= size <= 16,
        {}
    }
    match d {
        Direction::Up => blank - size,
        Direction::Down => blank + size,
        Direction::Left => blank - 1,
        Direction::Right => blank + 1,
    }
}

/// The tiles after the blank on `blank` swaps with the tile on `dest`.
pub(crate) fn swap_with_blank(tiles: &Vec<u8>, blank: usize, dest: usize) -> (r: Vec<u8>)
    requires
        blank < tiles@.len(),
        dest < tiles@.len(),
        dest != blank,
        tiles@[blank as int] == 0,
    ensures
        r@ == tiles@.update(blank as int, tiles@[dest as int]).update(dest as int, 0u8),
{
    let mut out: Vec<u8> = Vec::new();
    let mut i: usize = 0;
    while i < tiles.len()
        invariant
            i <= tiles.len(),
            blank < tiles@.len(),
            dest < tiles@.len(),
            dest != blank,
            out@ == tiles@.update(blank as int, tiles@[dest as int]).update(
                dest as int,
                0u8,
            ).subrange(0, i as int),
        decreases tiles@.len() - i,
    {
        let t = if i == blank {
            tiles[dest]
        } else if i == dest {
            0
        } else {
            tiles[i]
        };
        out.push(t);
        assert(out@ =~= tiles@.update(blank as int, tiles@[dest as int]).update(
            dest as int,
            0u8,
        ).subrange(0, i as int + 1));
        i += 1;
    }
    assert(out@ =~= tiles@.update(blank as int, tiles@[dest as int]).update(dest as int, 0u8));
    out
}

/// The legal moves from a blank cell, in the order up, down, left, right.
pub(crate) fn moves_from(blank: usize, size: usize) -> (r: Vec<Direction>)
    requires
        1 <= size <= 16,
        blank < size * size,
    ensures
        r@ == legal_directions(blank as int, size as int),
        forall|i: int| 0 <= i < r@.len() ==> move_ok(blank as int, size as int, #[trigger] r@[i]),
        forall|d: Direction| move_ok(blank as int, size as int, d) ==> r@.contains(d),
        r@.len() <= 4,
{
    let mut moves: Vec<Direction> = Vec::new();
    let row = blank / size;
    let col = blank % size;
    if row > 0 {
        moves.push(Direction::Up);
    }
    if row < size - 1 {
        moves.push(Direction::Down);
    }
    if col > 0 {
        moves.push(Direction::Left);
    }
    if col < size - 1 {
        moves.push(Direction::Right);
    }
    proof {
        let b = blank as int;
        let s = size as int;
        assert(moves@ =~= legal_directions(b, s));
        if move_ok(b, s, Direction::Up) {
            assert(legal_directions(b, s)[0] == Direction::Up);
        }
        if move_ok(b, s, Direction::Down) {
            let at = if move_ok(b, s, Direction::Up) { 1int } else { 0int };
            assert(legal_directions(b, s)[at] == Direction::Down);
        }
        if move_ok(b, s, Direction::Left) {
            let at = (if move_ok(b, s, Direction::Up) { 1int } else { 0int })
                + (if move_ok(b, s, Direction::Down) { 1int } else { 0int });
            assert(legal_directions(b, s)[at] == Direction::Left);
        }
        if move_ok(b, s, Direction::Right) {
            let at = (if move_ok(b, s, Direction::Up) { 1int } else { 0int })
                + (if move_ok(b, s, Direction::Down) { 1int } else { 0int })
                + (if move_ok(b, s, Direction::Left) { 1int } else { 0int });
            assert(legal_directions(b, s)[at] == Direction::Right);
        }
        assert forall|d: Direction| move_ok(b, s, d) implies moves@.contains(d) by {
            match d {
                Direction::Up => {},
                Direction::Down => {},
                Direction::Left => {},
                Direction::Right => {},
            }
        }
    }
    moves
}

/// The Manhattan distance from `tiles` to `goal`: for every non-blank
/// tile, the row gap plus the column gap between its cell and its cell
/// in the goal.
pub(crate) fn manhattan_of(tiles: &Vec<u8>, goal: &Vec<u8>, size: usize) -> (r: u32)
    requires
        1 <= size <= 16,
        tiles@.len() == size * size,
        goal@.len() == size * size,
        values_in_range(tiles@),
        arrangement(goal@),
    ensures
        r as int == manhattan(tiles@, goal@, size as int),
        r <= 7680,
{
    proof {
        assert(size as int * size as int <= 256) by (nonlinear_arith)
            requires
                1 <= size <= 16,
        {}
    }
    let mut acc: u32 = 0;
    let mut p: usize = 0;
    while p < tiles.len()
        invariant
            p <= tiles.len(),
            1 <= size <= 16,
            tiles@.len() <= 256,
            tiles@.len() == size * size,
            goal@.len() == size * size,
            values_in_range(tiles@),
            arrangement(goal@),
            acc as int == gap_sum(tiles@, goal@, size as int, p as int),
            acc <= 30 * p,
        decreases tiles@.len() - p,
    {
        let v = tiles[p];
        if v != 0 {
            assert(has_value(goal@, v as int));
            let q = index_of_value(goal, v);
            proof {
                lemma_goal_index_unique(goal@, v, q as int);
                lemma_cell_bounds(p as int, size as int);
                lemma_cell_bounds(q as int, size as int);
            }
            let p_row = p / size;
            let p_col = p % size;
            let q_row = q / size;
            let q_col = q % size;
            let row_gap = if p_row >= q_row {
                p_row - q_row
            } else {
                q_row - p_row
            };
            let col_gap = if p_col >= q_col {
                p_col - q_col
            } else {
                q_col - p_col
            };
            let gap = row_gap + col_gap;
            assert(gap as int == tile_gap(tiles@, goal@, size as int, p as int));
            assert(gap <= 30);
            acc = acc + (gap as u32);
        } else {
            assert(tile_gap(tiles@, goal@, size as int, p as int) == 0);
        }
        p += 1;
    }
    acc
}

} // verus!
