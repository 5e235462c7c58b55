//! The mathematical model of the puzzle: tile arrangements, move legality,
//! move application, and replaying a move sequence from a starting grid.
//!
//! Executable code throughout the crate is specified against these
//! functions, so every solver's result is stated as a fact about `replay`.

use vstd::prelude::*;
use crate::board::Direction;
use vstd::math::abs;

verus! {

/// Every tile value is below the number of cells.
pub open spec fn values_in_range(s: Seq<u8>) -> bool {
    forall|i: int| 0 <= i < s.len() ==> (s[i] as int) < s.len()
}

/// No tile value occurs twice.
pub open spec fn values_distinct(s: Seq<u8>) -> bool {
    forall|i: int, j: int| 0 <= i < j < s.len() ==> s[i] != s[j]
}

/// The value `v` occurs somewhere in `s`.
pub open spec fn has_value(s: Seq<u8>, v: int) -> bool {
    exists|i: int| 0 <= i < s.len() && (#[trigger] s[i]) as int == v
}

/// Every value below the number of cells occurs somewhere.
pub open spec fn values_complete(s: Seq<u8>) -> bool {
    forall|v: int| 0 <= v < s.len() ==> #[trigger] has_value(s, v)
}

/// A permutation of `0 .. s.len() - 1`: the tile multiset a valid board holds.
pub open spec fn arrangement(s: Seq<u8>) -> bool {
    &&& values_in_range(s)
    &&& values_distinct(s)
    &&& values_complete(s)
}

/// The set of `u8` values below `n` (for `n <= 256`).
pub open spec fn values_below(n: nat) -> Set<u8>
    decreases n,
{
    if n == 0 {
        Set::empty()
    } else {
        values_below((n - 1) as nat).insert((n - 1) as u8)
    }
}

pub proof fn lemma_values_below(n: nat)
    requires
        n <= 256,
    ensures
        values_below(n).finite(),
        values_below(n).len() == n,
        forall|v: u8| values_below(n).contains(v) <==> (v as int) < n,
    decreases n,
{
    if n > 0 {
        lemma_values_below((n - 1) as nat);
        assert(!values_below((n - 1) as nat).contains((n - 1) as u8));
    }
}

/// A sequence without repetitions cannot be longer than the finite set
/// its entries are drawn from.
pub proof fn lemma_distinct_len_bounded(s: Seq<u8>, allowed: Set<u8>)
    requires
        values_distinct(s),
        allowed.finite(),
        forall|i: int| 0 <= i < s.len() ==> allowed.contains(s[i]),
    ensures
        s.len() <= allowed.len(),
    decreases s.len(),
{
    if s.len() > 0 {
        let rest = s.subrange(1, s.len() as int);
        let smaller = allowed.remove(s[0]);
        assert(forall|i: int| 0 <= i < rest.len() ==> smaller.contains(rest[i])) by {
            assert(forall|i: int| 0 <= i < rest.len() ==> rest[i] == s[i + 1] && s[i + 1] != s[0]);
        }
        lemma_distinct_len_bounded(rest, smaller);
    }
}

/// Pigeonhole: as many distinct in-range values as cells means every
/// value occurs.
pub proof fn lemma_arrangement_complete(s: Seq<u8>)
    requires
        values_in_range(s),
        values_distinct(s),
        s.len() <= 256,
    ensures
        arrangement(s),
{
    assert forall|v: int| 0 <= v < s.len() implies #[trigger] has_value(s, v) by {
        if !has_value(s, v) {
            lemma_values_below(s.len() as nat);
            let allowed = values_below(s.len() as nat).remove(v as u8);
            assert(forall|i: int| 0 <= i < s.len() ==> allowed.contains(s[i])) by {
                assert(forall|i: int| 0 <= i < s.len() ==> s[i] as int != v);
            }
            lemma_distinct_len_bounded(s, allowed);
        }
    }
}

/// The base-256 code of a tile vector: its digits read as one number.
pub open spec fn tiles_code(s: Seq<u8>) -> int
    decreases s.len(),
{
    if s.len() == 0 {
        0
    } else {
        s[0] + 256 * tiles_code(s.subrange(1, s.len() as int))
    }
}

/// 256 raised to the power `n`.
pub open spec fn pow256(n: nat) -> int
    decreases n,
{
    if n == 0 {
        1
    } else {
        256 * pow256((n - 1) as nat)
    }
}

/// 256 to any power is positive.
pub proof fn lemma_pow256_pos(n: nat)
    ensures
        pow256(n) >= 1,
    decreases n,
{
    if n > 0 {
        lemma_pow256_pos((n - 1) as nat);
    }
}

/// A tile vector's code lies below 256 to its length.
pub proof fn lemma_tiles_code_bounds(s: Seq<u8>)
    ensures
        0 <= tiles_code(s) < pow256(s.len()),
    decreases s.len(),
{
    if s.len() > 0 {
        lemma_tiles_code_bounds(s.subrange(1, s.len() as int));
    }
}

/// Different tile vectors of one length have different codes.
pub proof fn lemma_tiles_code_injective(a: Seq<u8>, b: Seq<u8>)
    requires
        a.len() == b.len(),
        a != b,
    ensures
        tiles_code(a) != tiles_code(b),
    decreases a.len(),
{
    if a.len() == 0 {
        assert(a =~= b);
    } else {
        let at = a.subrange(1, a.len() as int);
        let bt = b.subrange(1, b.len() as int);
        if a[0] == b[0] {
            assert(at != bt) by {
                if at == bt {
                    assert forall|i: int| 0 <= i < a.len() implies a[i] == b[i] by {
                        if i > 0 {
                            assert(at[i - 1] == bt[i - 1]);
                        }
                    }
                    assert(a =~= b);
                }
            }
            lemma_tiles_code_injective(at, bt);
        } else {
            lemma_tiles_code_bounds(at);
            lemma_tiles_code_bounds(bt);
        }
    }
}

/// A sequence of distinct integers drawn from a bounded range is no
/// longer than the range.
pub proof fn lemma_distinct_ints_bounded(s: Seq<int>, lo: int, hi: int)
    requires
        lo <= hi,
        forall|i: int, j: int| 0 <= i < j < s.len() ==> s[i] != s[j],
        forall|i: int| 0 <= i < s.len() ==> lo <= #[trigger] s[i] < hi,
    ensures
        s.len() <= hi - lo,
{
    vstd::set_lib::lemma_int_range(lo, hi);
    lemma_distinct_from_set(s, vstd::set_lib::set_int_range(lo, hi));
}

/// A sequence of distinct values drawn from a finite set is no longer
/// than the set.
proof fn lemma_distinct_from_set(s: Seq<int>, allowed: Set<int>)
    requires
        forall|i: int, j: int| 0 <= i < j < s.len() ==> s[i] != s[j],
        allowed.finite(),
        forall|i: int| 0 <= i < s.len() ==> allowed.contains(#[trigger] s[i]),
    ensures
        s.len() <= allowed.len(),
    decreases s.len(),
{
    if s.len() > 0 {
        let rest = s.subrange(1, s.len() as int);
        let smaller = allowed.remove(s[0]);
        assert(forall|i: int| 0 <= i < rest.len() ==> smaller.contains(#[trigger] rest[i])) by {
            assert(forall|i: int|
                0 <= i < rest.len() ==> rest[i] == s[i + 1] && s[i + 1] != s[0]);
        }
        lemma_distinct_from_set(rest, smaller);
    }
}

/// Pairwise different tile vectors of one length number at most 256 to
/// that length: the bound every deduplicated search obeys.
pub proof fn lemma_distinct_tiles_bounded(ts: Seq<Seq<u8>>, len: nat)
    requires
        forall|i: int| 0 <= i < ts.len() ==> (#[trigger] ts[i]).len() == len,
        forall|i: int, j: int| 0 <= i < j < ts.len() ==> ts[i] != ts[j],
    ensures
        ts.len() <= pow256(len),
{
    let codes = Seq::new(ts.len(), |i: int| tiles_code(ts[i]));
    assert forall|i: int| 0 <= i < codes.len() implies 0 <= #[trigger] codes[i] < pow256(len) by {
        lemma_tiles_code_bounds(ts[i]);
    }
    assert forall|i: int, j: int| 0 <= i < j < codes.len() implies codes[i] != codes[j] by {
        lemma_tiles_code_injective(ts[i], ts[j]);
    }
    lemma_pow256_pos(len);
    lemma_distinct_ints_bounded(codes, 0, pow256(len));
}

/// The row of flat cell index `p` on a grid of side `size`.
pub open spec fn row_of(p: int, size: int) -> int {
    p / size
}

/// The column of flat cell index `p` on a grid of side `size`.
pub open spec fn col_of(p: int, size: int) -> int {
    p % size
}

/// A grid in which tiles and blank index describe a valid puzzle state.
pub open spec fn grid_ok(tiles: Seq<u8>, blank: int, size: int) -> bool {
    &&& 1 <= size <= 16
    &&& tiles.len() == size * size
    &&& arrangement(tiles)
    &&& 0 <= blank < tiles.len()
    &&& tiles[blank] == 0
}

/// Whether the blank may slide in direction `d`, determined purely by the
/// blank's row and column against the grid bounds.
pub open spec fn move_ok(blank: int, size: int, d: Direction) -> bool {
    match d {
        Direction::Up => row_of(blank, size) > 0,
        Direction::Down => row_of(blank, size) < size - 1,
        Direction::Left => col_of(blank, size) > 0,
        Direction::Right => col_of(blank, size) < size - 1,
    }
}

/// The cell the blank lands on when it slides in direction `d`.
pub open spec fn blank_dest(blank: int, size: int, d: Direction) -> int {
    match d {
        Direction::Up => blank - size,
        Direction::Down => blank + size,
        Direction::Left => blank - 1,
        Direction::Right => blank + 1,
    }
}

/// The tiles after the blank slides in direction `d`: the blank and the
/// tile on the destination cell exchange places.
pub open spec fn tiles_after(tiles: Seq<u8>, blank: int, size: int, d: Direction) -> Seq<u8> {
    let dest = blank_dest(blank, size, d);
    tiles.update(blank, tiles[dest]).update(dest, 0u8)
}

/// The grid reached by applying the moves of `path` in order, or `None`
/// as soon as a move is illegal.  The result pairs the tiles with the
/// blank's index.
pub open spec fn replay(
    tiles: Seq<u8>,
    blank: int,
    size: int,
    path: Seq<Direction>,
) -> Option<(Seq<u8>, int)>
    decreases path.len(),
{
    if path.len() == 0 {
        Some((tiles, blank))
    } else if move_ok(blank, size, path[0]) {
        replay(
            tiles_after(tiles, blank, size, path[0]),
            blank_dest(blank, size, path[0]),
            size,
            path.subrange(1, path.len() as int),
        )
    } else {
        None
    }
}

/// A legal move's destination stays on the grid and differs from the
/// blank's cell.
pub proof fn lemma_dest_in_range(blank: int, size: int, d: Direction)
    requires
        1 <= size <= 16,
        0 <= blank < size * size,
        move_ok(blank, size, d),
    ensures
        0 <= blank_dest(blank, size, d) < size * size,
        blank_dest(blank, size, d) != blank,
{
    let row = row_of(blank, size);
    let col = col_of(blank, size);
    vstd::arithmetic::div_mod::lemma_fundamental_div_mod(blank, size);
    assert(blank == size * row + col);
    vstd::arithmetic::div_mod::lemma_remainder_lower(blank, size);
    vstd::arithmetic::div_mod::lemma_remainder_upper(blank, size);
    assert(0 <= col < size);
    assert(0 <= row < size) by (nonlinear_arith)
        requires
            blank == size * row + col,
            0 <= blank < size * size,
            0 <= col < size,
    {}
    match d {
        Direction::Up => {
            assert(blank >= size) by (nonlinear_arith)
                requires
                    blank == size * row + col,
                    row >= 1,
                    col >= 0,
                    size >= 1,
            {}
        },
        Direction::Down => {
            assert(blank + size < size * size) by (nonlinear_arith)
                requires
                    blank == size * row + col,
                    row <= size - 2,
                    col < size,
                    size >= 1,
            {}
        },
        Direction::Left => {},
        Direction::Right => {
            assert(blank + 1 < size * size) by (nonlinear_arith)
                requires
                    blank == size * row + col,
                    row <= size - 1,
                    col <= size - 2,
                    size >= 1,
            {}
        },
    }
}

/// Sliding the blank along a legal move keeps the grid valid.
pub proof fn lemma_move_preserves_grid(tiles: Seq<u8>, blank: int, size: int, d: Direction)
    requires
        grid_ok(tiles, blank, size),
        move_ok(blank, size, d),
    ensures
        grid_ok(tiles_after(tiles, blank, size, d), blank_dest(blank, size, d), size),
{
    lemma_dest_in_range(blank, size, d);
    let dest = blank_dest(blank, size, d);
    let after = tiles_after(tiles, blank, size, d);
    assert(after.len() == tiles.len());
    assert(after[dest] == 0);
    assert(values_in_range(after)) by {
        assert(forall|i: int| 0 <= i < after.len() ==> after[i] == tiles[i] || after[i]
            == tiles[dest] || after[i] == 0u8);
    }
    assert(values_distinct(after)) by {
        assert forall|i: int, j: int| 0 <= i < j < after.len() implies after[i] != after[j] by {
            if i == blank || j == blank || i == dest || j == dest {
                assert(tiles[blank] == 0);
            }
        }
    }
    assert(values_complete(after)) by {
        assert forall|v: int| 0 <= v < after.len() implies #[trigger] has_value(after, v) by {
            assert(has_value(tiles, v));
            let i = choose|i: int| 0 <= i < tiles.len() && (#[trigger] tiles[i]) as int == v;
            if i == blank {
                assert(after[dest] as int == v);
            } else if i == dest {
                assert(after[blank] as int == v);
            } else {
                assert(after[i] as int == v);
            }
        }
    }
}

/// A move never leaves the tiles unchanged: the blank really travels.
pub proof fn lemma_move_changes_tiles(tiles: Seq<u8>, blank: int, size: int, d: Direction)
    requires
        grid_ok(tiles, blank, size),
        move_ok(blank, size, d),
    ensures
        tiles_after(tiles, blank, size, d) != tiles,
{
    lemma_dest_in_range(blank, size, d);
    let dest = blank_dest(blank, size, d);
    assert(tiles[dest] != tiles[blank]) by {
        if blank < dest {
            assert(tiles[blank] != tiles[dest]);
        }
    }
    assert(tiles_after(tiles, blank, size, d)[dest] == 0);
}

/// Replaying a path from a valid grid, when it succeeds, ends on a valid
/// grid.
pub proof fn lemma_replay_grid_ok(tiles: Seq<u8>, blank: int, size: int, path: Seq<Direction>)
    requires
        grid_ok(tiles, blank, size),
        replay(tiles, blank, size, path) is Some,
    ensures
        grid_ok(
            replay(tiles, blank, size, path).unwrap().0,
            replay(tiles, blank, size, path).unwrap().1,
            size,
        ),
    decreases path.len(),
{
    if path.len() > 0 {
        lemma_move_preserves_grid(tiles, blank, size, path[0]);
        lemma_replay_grid_ok(
            tiles_after(tiles, blank, size, path[0]),
            blank_dest(blank, size, path[0]),
            size,
            path.subrange(1, path.len() as int),
        );
    }
}

/// Replaying one more move first replays the prefix and then takes the
/// extra step from wherever the prefix ended.
pub proof fn lemma_replay_push(
    tiles: Seq<u8>,
    blank: int,
    size: int,
    path: Seq<Direction>,
    d: Direction,
)
    ensures
        replay(tiles, blank, size, path.push(d)) == (match replay(tiles, blank, size, path) {
            Some(g) => if move_ok(g.1, size, d) {
                Some((tiles_after(g.0, g.1, size, d), blank_dest(g.1, size, d)))
            } else {
                None::<(Seq<u8>, int)>
            },
            None => None::<(Seq<u8>, int)>,
        }),
    decreases path.len(),
{
    let whole = path.push(d);
    if path.len() == 0 {
        assert(whole[0] == d);
        assert(whole.subrange(1, whole.len() as int) =~= Seq::<Direction>::empty());
        assert(replay(tiles, blank, size, path) == Some((tiles, blank)));
        if move_ok(blank, size, d) {
            assert(replay(tiles, blank, size, whole) == replay(
                tiles_after(tiles, blank, size, d),
                blank_dest(blank, size, d),
                size,
                whole.subrange(1, whole.len() as int),
            ));
            assert(replay(tiles, blank, size, whole) == Some(
                (tiles_after(tiles, blank, size, d), blank_dest(blank, size, d)),
            ));
        } else {
            assert(replay(tiles, blank, size, whole) == None::<(Seq<u8>, int)>);
        }
    } else {
        assert(whole[0] == path[0]);
        assert(whole.subrange(1, whole.len() as int) =~= path.subrange(
            1,
            path.len() as int,
        ).push(d));
        if move_ok(blank, size, path[0]) {
            lemma_replay_push(
                tiles_after(tiles, blank, size, path[0]),
                blank_dest(blank, size, path[0]),
                size,
                path.subrange(1, path.len() as int),
                d,
            );
        }
    }
}

/// The cell of a row-major two-dimensional layout at flat index `p`.
pub open spec fn layout_cell(l: Seq<Seq<i32>>, p: int) -> i32 {
    l[row_of(p, l.len() as int)][col_of(p, l.len() as int)]
}

/// A well-formed layout: a square of side 1 to 16 whose cells are a
/// permutation of `0 .. n * n - 1`.
pub open spec fn layout_wf(l: Seq<Seq<i32>>) -> bool {
    let n = l.len() as int;
    &&& 1 <= n <= 16
    &&& forall|i: int| 0 <= i < n ==> (#[trigger] l[i]).len() == n
    &&& forall|p: int| 0 <= p < n * n ==> 0 <= #[trigger] layout_cell(l, p) < n * n
    &&& forall|p: int, q: int|
        #![trigger layout_cell(l, p), layout_cell(l, q)]
        0 <= p < q < n * n ==> layout_cell(l, p) != layout_cell(l, q)
}

/// The flat tile vector `tiles` lists exactly the cells of `l` in
/// row-major order.
pub open spec fn tiles_match_layout(tiles: Seq<u8>, l: Seq<Seq<i32>>) -> bool {
    let n = l.len() as int;
    &&& tiles.len() == n * n
    &&& forall|p: int| 0 <= p < tiles.len() ==> (#[trigger] tiles[p]) as int == layout_cell(l, p)
}

/// The default goal arrangement: the tiles in ascending order with the
/// blank on the last cell.
pub open spec fn default_goal(len: int) -> Seq<u8> {
    Seq::new(
        len as nat,
        |p: int|
            if p == len - 1 {
                0u8
            } else {
                (p + 1) as u8
            },
    )
}

/// The default goal is a valid arrangement.
pub proof fn lemma_default_goal_arrangement(len: int)
    requires
        1 <= len <= 256,
    ensures
        default_goal(len).len() == len,
        arrangement(default_goal(len)),
{
    let g = default_goal(len);
    assert(values_in_range(g));
    assert(values_distinct(g));
    lemma_arrangement_complete(g);
}

/// A successful replay of a non-empty path is one legal step taken from
/// wherever the path without its last move ends.
pub proof fn lemma_replay_last(tiles: Seq<u8>, blank: int, size: int, path: Seq<Direction>)
    requires
        path.len() > 0,
        replay(tiles, blank, size, path) is Some,
    ensures
        replay(tiles, blank, size, path.drop_last()) matches Some(g) && {
            &&& move_ok(g.1, size, path.last())
            &&& replay(tiles, blank, size, path) == Some(
                (tiles_after(g.0, g.1, size, path.last()), blank_dest(g.1, size, path.last())),
            )
        },
{
    assert(path.drop_last().push(path.last()) =~= path);
    lemma_replay_push(tiles, blank, size, path.drop_last(), path.last());
}

/// Two valid grids over the same tiles put the blank on the same cell.
pub proof fn lemma_blank_determined(tiles: Seq<u8>, b1: int, b2: int, size: int)
    requires
        grid_ok(tiles, b1, size),
        grid_ok(tiles, b2, size),
    ensures
        b1 == b2,
{
    if b1 < b2 {
        assert(tiles[b1] != tiles[b2]);
    }
    if b2 < b1 {
        assert(tiles[b2] != tiles[b1]);
    }
}

/// The index of value `v` in `goal` (meaningful when `goal` holds `v`).
pub open spec fn goal_index(goal: Seq<u8>, v: u8) -> int {
    choose|i: int| 0 <= i < goal.len() && goal[i] == v
}

/// When a value sits at `q` in a repetition-free goal, `goal_index` is `q`.
pub proof fn lemma_goal_index_unique(goal: Seq<u8>, v: u8, q: int)
    requires
        values_distinct(goal),
        0 <= q < goal.len(),
        goal[q] == v,
    ensures
        goal_index(goal, v) == q,
{
    let i = goal_index(goal, v);
    assert(0 <= i < goal.len() && goal[i] == v);
}

/// Rows and columns of an on-grid cell index lie within the grid side.
pub proof fn lemma_cell_bounds(p: int, size: int)
    requires
        1 <= size,
        0 <= p < size * size,
    ensures
        0 <= row_of(p, size) < size,
        0 <= col_of(p, size) < size,
{
    vstd::arithmetic::div_mod::lemma_div_pos_is_pos(p, size);
    vstd::arithmetic::div_mod::lemma_multiply_divide_lt(p, size, size);
    vstd::arithmetic::div_mod::lemma_remainder_lower(p, size);
    vstd::arithmetic::div_mod::lemma_remainder_upper(p, size);
}

/// The grid distance between two cells: row gap plus column gap.
pub open spec fn cell_gap(p: int, q: int, size: int) -> int {
    (abs(row_of(p, size) - row_of(q, size)) + abs(col_of(p, size) - col_of(q, size))) as int
}

/// The distance the tile on cell `p` still has to travel to its goal
/// cell; the blank does not count.
pub open spec fn tile_gap(tiles: Seq<u8>, goal: Seq<u8>, size: int, p: int) -> int {
    if tiles[p] == 0 {
        0
    } else {
        cell_gap(p, goal_index(goal, tiles[p]), size)
    }
}

/// The sum of the tile gaps of the first `k` cells.
pub open spec fn gap_sum(tiles: Seq<u8>, goal: Seq<u8>, size: int, k: int) -> int
    decreases k,
{
    if k <= 0 {
        0
    } else {
        gap_sum(tiles, goal, size, k - 1) + tile_gap(tiles, goal, size, k - 1)
    }
}

/// The Manhattan distance of a board to its goal: the sum over all
/// non-blank tiles of the grid distance to the tile's goal cell.
pub open spec fn manhattan(tiles: Seq<u8>, goal: Seq<u8>, size: int) -> int {
    gap_sum(tiles, goal, size, tiles.len() as int)
}

/// A sum of tile gaps is never negative, and is zero exactly when every
/// summed gap is zero.
pub proof fn lemma_gap_sum_zero_iff(tiles: Seq<u8>, goal: Seq<u8>, size: int, k: int)
    ensures
        gap_sum(tiles, goal, size, k) >= 0,
        gap_sum(tiles, goal, size, k) == 0 <==> (forall|p: int|
            0 <= p < k ==> #[trigger] tile_gap(tiles, goal, size, p) == 0),
    decreases k,
{
    if k > 0 {
        lemma_gap_sum_zero_iff(tiles, goal, size, k - 1);
    }
}

/// The Manhattan distance is zero exactly on a board that already shows
/// its goal arrangement.
pub proof fn lemma_manhattan_zero(tiles: Seq<u8>, goal: Seq<u8>, blank: int, size: int)
    requires
        grid_ok(tiles, blank, size),
        arrangement(goal),
        goal.len() == tiles.len(),
    ensures
        manhattan(tiles, goal, size) == 0 <==> tiles == goal,
{
    let len = tiles.len() as int;
    lemma_gap_sum_zero_iff(tiles, goal, size, len);
    if tiles == goal {
        assert forall|p: int| 0 <= p < len implies #[trigger] tile_gap(tiles, goal, size, p)
            == 0 by {
            if tiles[p] != 0 {
                lemma_goal_index_unique(goal, tiles[p], p);
            }
        }
    }
    if manhattan(tiles, goal, size) == 0 {
        assert forall|p: int| 0 <= p < len implies tiles[p] == goal[p] by {
            lemma_cell_bounds(p, size);
            if tiles[p] != 0 {
                lemma_matched_tile(tiles, goal, size, p);
            } else {
                assert(has_value(goal, 0));
                let j = choose|j: int| 0 <= j < goal.len() && (#[trigger] goal[j]) as int == 0;
                if j != blank {
                    assert(tiles[j] != 0);
                    lemma_matched_tile(tiles, goal, size, j);
                }
                assert(p == blank);
            }
        }
        assert(tiles =~= goal);
    }
}

/// A non-blank tile whose gap is zero already sits on its goal cell.
proof fn lemma_matched_tile(tiles: Seq<u8>, goal: Seq<u8>, size: int, p: int)
    requires
        1 <= size <= 16,
        tiles.len() == size * size,
        goal.len() == tiles.len(),
        values_in_range(tiles),
        arrangement(goal),
        0 <= p < tiles.len(),
        tiles[p] != 0,
        tile_gap(tiles, goal, size, p) == 0,
    ensures
        goal[p] == tiles[p],
{
    assert(has_value(goal, tiles[p] as int));
    let w = choose|w: int| 0 <= w < goal.len() && (#[trigger] goal[w]) as int == tiles[p] as int;
    let q = goal_index(goal, tiles[p]);
    assert(0 <= q < goal.len() && goal[q] == tiles[p]);
    lemma_cell_bounds(p, size);
    lemma_cell_bounds(q, size);
    assert(row_of(p, size) == row_of(q, size) && col_of(p, size) == col_of(q, size));
    vstd::arithmetic::div_mod::lemma_fundamental_div_mod(p, size);
    vstd::arithmetic::div_mod::lemma_fundamental_div_mod(q, size);
    assert(p == q);
}

/// Two gap sums agree once the contributions of two chosen cells are set
/// aside, provided every other cell contributes alike.
proof fn lemma_gap_sum_except_two(
    t1: Seq<u8>,
    t2: Seq<u8>,
    goal: Seq<u8>,
    size: int,
    k: int,
    i1: int,
    i2: int,
)
    requires
        t1.len() == t2.len(),
        i1 != i2,
        0 <= k <= t1.len(),
        forall|p: int|
            0 <= p < t1.len() && p != i1 && p != i2 ==> tile_gap(t1, goal, size, p)
                == #[trigger] tile_gap(t2, goal, size, p),
    ensures
        gap_sum(t1, goal, size, k) - (if 0 <= i1 < k {
            tile_gap(t1, goal, size, i1)
        } else {
            0
        }) - (if 0 <= i2 < k {
            tile_gap(t1, goal, size, i2)
        } else {
            0
        }) == gap_sum(t2, goal, size, k) - (if 0 <= i1 < k {
            tile_gap(t2, goal, size, i1)
        } else {
            0
        }) - (if 0 <= i2 < k {
            tile_gap(t2, goal, size, i2)
        } else {
            0
        }),
    decreases k,
{
    if k > 0 {
        lemma_gap_sum_except_two(t1, t2, goal, size, k - 1, i1, i2);
    }
}

/// A legal move carries the blank to a cell one grid step away.
proof fn lemma_step_cell(blank: int, size: int, d: Direction)
    requires
        1 <= size <= 16,
        0 <= blank < size * size,
        move_ok(blank, size, d),
    ensures
        ({
            let dest = blank_dest(blank, size, d);
            (abs(row_of(dest, size) - row_of(blank, size)) + abs(
                col_of(dest, size) - col_of(blank, size),
            )) as int == 1
        }),
{
    let row = row_of(blank, size);
    let col = col_of(blank, size);
    let dest = blank_dest(blank, size, d);
    vstd::arithmetic::div_mod::lemma_fundamental_div_mod(blank, size);
    vstd::arithmetic::div_mod::lemma_remainder_lower(blank, size);
    vstd::arithmetic::div_mod::lemma_remainder_upper(blank, size);
    match d {
        Direction::Up => {
            assert(dest == (row - 1) * size + col) by (nonlinear_arith)
                requires
                    blank == size * row + col,
                    dest == blank - size,
            {}
            vstd::arithmetic::div_mod::lemma_fundamental_div_mod_converse(
                dest,
                size,
                row - 1,
                col,
            );
        },
        Direction::Down => {
            assert(dest == (row + 1) * size + col) by (nonlinear_arith)
                requires
                    blank == size * row + col,
                    dest == blank + size,
            {}
            vstd::arithmetic::div_mod::lemma_fundamental_div_mod_converse(
                dest,
                size,
                row + 1,
                col,
            );
        },
        Direction::Left => {
            assert(dest == row * size + (col - 1)) by (nonlinear_arith)
                requires
                    blank == size * row + col,
                    dest == blank - 1,
            {}
            vstd::arithmetic::div_mod::lemma_fundamental_div_mod_converse(
                dest,
                size,
                row,
                col - 1,
            );
        },
        Direction::Right => {
            assert(dest == row * size + (col + 1)) by (nonlinear_arith)
                requires
                    blank == size * row + col,
                    dest == blank + 1,
            {}
            vstd::arithmetic::div_mod::lemma_fundamental_div_mod_converse(
                dest,
                size,
                row,
                col + 1,
            );
        },
    }
}

/// One move lowers the Manhattan distance by at most one: only the moved
/// tile's gap changes, and that by a single grid step.
pub proof fn lemma_manhattan_step(
    tiles: Seq<u8>,
    blank: int,
    size: int,
    goal: Seq<u8>,
    d: Direction,
)
    requires
        grid_ok(tiles, blank, size),
        arrangement(goal),
        goal.len() == tiles.len(),
        move_ok(blank, size, d),
    ensures
        manhattan(tiles, goal, size) <= manhattan(
            tiles_after(tiles, blank, size, d),
            goal,
            size,
        ) + 1,
{
    lemma_dest_in_range(blank, size, d);
    let dest = blank_dest(blank, size, d);
    let t2 = tiles_after(tiles, blank, size, d);
    let v = tiles[dest];
    assert(v != 0) by {
        if blank < dest {
            assert(tiles[blank] != tiles[dest]);
        } else {
            assert(tiles[dest] != tiles[blank]);
        }
    }
    assert(has_value(goal, v as int));
    let gv = goal_index(goal, v);
    assert(0 <= gv < goal.len() && goal[gv] == v);
    assert(forall|p: int|
        0 <= p < tiles.len() && p != blank && p != dest ==> tile_gap(tiles, goal, size, p)
            == #[trigger] tile_gap(t2, goal, size, p));
    lemma_gap_sum_except_two(tiles, t2, goal, size, tiles.len() as int, blank, dest);
    assert(tile_gap(tiles, goal, size, blank) == 0);
    assert(tile_gap(t2, goal, size, dest) == 0);
    assert(tile_gap(tiles, goal, size, dest) == cell_gap(dest, gv, size));
    assert(tile_gap(t2, goal, size, blank) == cell_gap(blank, gv, size));
    lemma_step_cell(blank, size, d);
    assert(cell_gap(dest, gv, size) <= cell_gap(blank, gv, size) + 1);
}

/// Along any legal move sequence the Manhattan distance falls by at most
/// one per move: the distance where the sequence starts is at most its
/// length plus the distance where it ends.
pub proof fn lemma_manhattan_chain(
    tiles: Seq<u8>,
    blank: int,
    size: int,
    goal: Seq<u8>,
    p: Seq<Direction>,
)
    requires
        grid_ok(tiles, blank, size),
        arrangement(goal),
        goal.len() == tiles.len(),
        replay(tiles, blank, size, p) is Some,
    ensures
        manhattan(tiles, goal, size) <= p.len() + manhattan(
            replay(tiles, blank, size, p).unwrap().0,
            goal,
            size,
        ),
    decreases p.len(),
{
    if p.len() > 0 {
        let d = p[0];
        lemma_manhattan_step(tiles, blank, size, goal, d);
        lemma_move_preserves_grid(tiles, blank, size, d);
        lemma_manhattan_chain(
            tiles_after(tiles, blank, size, d),
            blank_dest(blank, size, d),
            size,
            goal,
            p.subrange(1, p.len() as int),
        );
    }
}

/// The Manhattan distance is an admissible heuristic: whenever a move
/// sequence carries a grid to the goal arrangement, the distance never
/// exceeds the sequence's length.
pub proof fn lemma_manhattan_admissible(
    tiles: Seq<u8>,
    blank: int,
    size: int,
    goal: Seq<u8>,
    p: Seq<Direction>,
)
    requires
        grid_ok(tiles, blank, size),
        arrangement(goal),
        goal.len() == tiles.len(),
        replay(tiles, blank, size, p) matches Some(g) && g.0 == goal,
    ensures
        manhattan(tiles, goal, size) <= p.len(),
{
    lemma_manhattan_chain(tiles, blank, size, goal, p);
    let end = replay(tiles, blank, size, p).unwrap();
    lemma_replay_grid_ok(tiles, blank, size, p);
    lemma_manhattan_zero(end.0, goal, end.1, size);
}

/// Replaying a concatenation replays the first part, then the second from
/// wherever the first ended.
pub proof fn lemma_replay_concat(
    tiles: Seq<u8>,
    blank: int,
    size: int,
    p1: Seq<Direction>,
    p2: Seq<Direction>,
)
    ensures
        replay(tiles, blank, size, p1 + p2) == (match replay(tiles, blank, size, p1) {
            Some(g) => replay(g.0, g.1, size, p2),
            None => None::<(Seq<u8>, int)>,
        }),
    decreases p1.len(),
{
    if p1.len() == 0 {
        assert(p1 + p2 =~= p2);
    } else {
        let rest = p1.subrange(1, p1.len() as int);
        assert((p1 + p2)[0] == p1[0]);
        assert((p1 + p2).subrange(1, (p1 + p2).len() as int) =~= rest + p2);
        if move_ok(blank, size, p1[0]) {
            lemma_replay_concat(
                tiles_after(tiles, blank, size, p1[0]),
                blank_dest(blank, size, p1[0]),
                size,
                rest,
                p2,
            );
        }
    }
}

/// The directions legal from a given blank cell, in the fixed order
/// up, down, left, right.
pub open spec fn legal_directions(blank: int, size: int) -> Seq<Direction> {
    (if move_ok(blank, size, Direction::Up) {
        seq![Direction::Up]
    } else {
        seq![]
    }) + (if move_ok(blank, size, Direction::Down) {
        seq![Direction::Down]
    } else {
        seq![]
    }) + (if move_ok(blank, size, Direction::Left) {
        seq![Direction::Left]
    } else {
        seq![]
    }) + (if move_ok(blank, size, Direction::Right) {
        seq![Direction::Right]
    } else {
        seq![]
    })
}

} // verus!
