//! Search nodes: an immutable snapshot of a grid together with the move
//! sequence that produced it.  A move yields a fresh node, so the explored
//! search graph is tree-shaped even though the state graph has cycles.

use vstd::prelude::*;
use crate::board::{Board, BoardModel, Direction};
use crate::model::{
    grid_ok, lemma_replay_grid_ok, lemma_replay_push, move_ok, replay, tiles_after,
    values_distinct,
};
use crate::tiles::{copy_dirs, copy_tiles, dest_index, index_of_value, swap_with_blank};

verus! {

/// A snapshot of the tiles, the blank's index, and the path that led here.
pub struct Node {
    pub tiles: Vec<u8>,
    pub blank: usize,
    pub path: Vec<Direction>,
}

/// The node truthfully describes where its path leads from the board `m`
/// was taken from.
pub open spec fn node_ok(n: Node, m: BoardModel) -> bool {
    replay(m.tiles, m.blank, m.size, n.path@) == Some((n.tiles@, n.blank as int))
}

/// A truthful node of a valid board is itself a valid grid.
pub proof fn lemma_node_grid(n: Node, m: BoardModel)
    requires
        m.wf(),
        node_ok(n, m),
    ensures
        grid_ok(n.tiles@, n.blank as int, m.size),
{
    lemma_replay_grid_ok(m.tiles, m.blank, m.size, n.path@);
}

/// A field-wise copy of a node.
pub fn clone_node(n: &Node) -> (r: Node)
    ensures
        r.tiles@ == n.tiles@,
        r.blank == n.blank,
        r.path@ == n.path@,
{
    Node { tiles: copy_tiles(&n.tiles), blank: n.blank, path: copy_dirs(&n.path) }
}

/// The search root: the board's own grid with an empty path.
pub fn root_node(board: &Board) -> (r: Node)
    requires
        board.wf(),
    ensures
        node_ok(r, board@),
        r.path@.len() == 0,
        r.tiles@ == board@.tiles,
        r.blank as int == board@.blank,
{
    let tiles = board.flat_state();
    assert(crate::model::has_value(tiles@, 0));
    let blank = index_of_value(&tiles, 0);
    proof {
        let m = board@;
        if blank as int != m.blank {
            assert(values_distinct(m.tiles));
            assert(m.tiles[blank as int] == 0 && m.tiles[m.blank] == 0);
            if (blank as int) < m.blank {
                assert(m.tiles[blank as int] != m.tiles[m.blank]);
            } else {
                assert(m.tiles[m.blank] != m.tiles[blank as int]);
            }
        }
    }
    Node { tiles, blank, path: Vec::new() }
}

/// The successor reached by sliding the blank of `n` in direction `d`.
pub fn make_child(n: &Node, d: Direction, size: usize, Ghost(m): Ghost<BoardModel>) -> (r: Node)
    requires
        m.wf(),
        size as int == m.size,
        node_ok(*n, m),
        move_ok(n.blank as int, size as int, d),
    ensures
        node_ok(r, m),
        r.path@ == n.path@.push(d),
        r.path@.len() == n.path@.len() + 1,
        r.tiles@ == tiles_after(n.tiles@, n.blank as int, size as int, d),
{
    proof {
        lemma_node_grid(*n, m);
        lemma_replay_push(m.tiles, m.blank, m.size, n.path@, d);
    }
    let dest = dest_index(n.blank, size, d);
    let tiles = swap_with_blank(&n.tiles, n.blank, dest);
    let mut path = copy_dirs(&n.path);
    path.push(d);
    Node { tiles, blank: dest, path }
}

} // verus!
