//! Best-first search guided by the Manhattan-distance heuristic: the
//! frontier is ordered by ascending `f = g + h`, where `g` is the number
//! of moves taken (the node's path length) and `h` the Manhattan distance
//! to the goal; ties prefer the deeper node.  A closed set checked at pop
//! time discards inferior duplicate frontier entries lazily.  No depth
//! ceiling is needed: the heuristic already focuses the search.
//!
//! Because the heuristic is admissible and falls by at most one per move,
//! the first goal popped is a shortest solution, and `solve` carries that
//! proof: every closed state keeps a record showing it was closed at its
//! true distance, and any path to an unclosed state leaves a frontier
//! entry on one of its prefixes.

use vstd::prelude::*;
use crate::board::{Board, BoardModel, Direction};
use crate::model::{
    grid_ok, lemma_blank_determined, lemma_distinct_tiles_bounded, lemma_manhattan_chain,
    lemma_replay_concat, lemma_replay_grid_ok, lemma_replay_last, manhattan, move_ok, pow256,
    replay, tiles_after,
};
use crate::node::{lemma_node_grid, make_child, node_ok, root_node, Node};
use crate::tiles::{contains_tiles, copy_tiles, in_visited, manhattan_of, moves_from, tiles_equal};
use crate::{no_shorter_solution, no_solution_within, SolutionInfo, Solver};

verus! {

/// A frontier entry: a search node and its heuristic estimate.  The cost
/// from the start, `g`, is the node's path length.
struct ScoredNode {
    node: Node,
    h: u32,
}

/// The estimated total cost through this entry.
spec fn f_of(a: ScoredNode) -> int {
    a.node.path@.len() + a.h
}

/// The frontier order: `a` is expanded no later than `b` when its `f` is
/// smaller, or equal with `a` at least as deep.
spec fn prefers(a: ScoredNode, b: ScoredNode) -> bool {
    ||| f_of(a) < f_of(b)
    ||| (f_of(a) == f_of(b) && a.node.path@.len() >= b.node.path@.len())
}

/// A record of a fully expanded state: its tiles, its blank, and the cost
/// it was closed with.
struct ClosedRec {
    tiles: Seq<u8>,
    blank: int,
    g: int,
}

/// The state already sits in the closed record.
spec fn closed_has(c: Seq<ClosedRec>, t: Seq<u8>) -> bool {
    exists|e: int| 0 <= e < c.len() && (#[trigger] c[e]).tiles == t
}

/// Every frontier entry is a truthful node carrying its exact heuristic.
spec fn open_ok(open: Seq<ScoredNode>, m: BoardModel) -> bool {
    forall|i: int|
        0 <= i < open.len() ==> node_ok((#[trigger] open[i]).node, m) && open[i].h as int
            == manhattan(open[i].node.tiles@, m.goal, m.size)
}

/// Every closed record is a valid, non-goal grid.
spec fn closed_ok(c: Seq<ClosedRec>, m: BoardModel) -> bool {
    forall|e: int|
        0 <= e < c.len() ==> grid_ok((#[trigger] c[e]).tiles, c[e].blank, m.size) && c[e].tiles
            != m.goal
}

/// The state sits on the frontier with a cost of at most `l`.
spec fn open_within(open: Seq<ScoredNode>, t: Seq<u8>, l: int) -> bool {
    exists|w: int|
        0 <= w < open.len() && (#[trigger] open[w]).node.tiles@ == t && open[w].node.path@.len()
            <= l
}

/// The start state is accounted for: closed, or on the frontier at cost
/// zero.
spec fn root_covered(open: Seq<ScoredNode>, c: Seq<ClosedRec>, m: BoardModel) -> bool {
    closed_has(c, m.tiles) || open_within(open, m.tiles, 0)
}

/// The successor of closed record `e` along `d` is accounted for: closed,
/// or on the frontier at a cost at most one above the record's.
spec fn succ_covered(
    open: Seq<ScoredNode>,
    c: Seq<ClosedRec>,
    m: BoardModel,
    e: int,
    d: Direction,
) -> bool {
    ||| closed_has(c, tiles_after(c[e].tiles, c[e].blank, m.size, d))
    ||| open_within(open, tiles_after(c[e].tiles, c[e].blank, m.size, d), c[e].g + 1)
}

/// The first `upto` closed states had each legal successor accounted for.
spec fn closed_expanded_below(
    open: Seq<ScoredNode>,
    c: Seq<ClosedRec>,
    m: BoardModel,
    upto: int,
) -> bool {
    forall|e: int, d: Direction|
        0 <= e < upto && move_ok(c[e].blank, m.size, d) ==> #[trigger] succ_covered(
            open,
            c,
            m,
            e,
            d,
        )
}

/// Every closed state had each legal successor accounted for.
spec fn closed_expanded(open: Seq<ScoredNode>, c: Seq<ClosedRec>, m: BoardModel) -> bool {
    closed_expanded_below(open, c, m, c.len() as int)
}

/// Every closed state was closed at its true distance: no move sequence
/// reaches it in fewer moves.
spec fn closed_minimal(c: Seq<ClosedRec>, m: BoardModel) -> bool {
    forall|e: int, q: Seq<Direction>|
        #![trigger c[e], replay(m.tiles, m.blank, m.size, q)]
        0 <= e < c.len() && (match replay(m.tiles, m.blank, m.size, q) {
            Some(g) => g.0 == c[e].tiles,
            None => false,
        }) ==> c[e].g <= q.len()
}

/// Some prefix of `q` ends on a frontier entry whose cost is at most the
/// prefix's length.
spec fn covered_at(open: Seq<ScoredNode>, m: BoardModel, q: Seq<Direction>, j: int) -> bool {
    &&& 0 <= j <= q.len()
    &&& replay(m.tiles, m.blank, m.size, q.subrange(0, j)) is Some
    &&& open_within(open, replay(m.tiles, m.blank, m.size, q.subrange(0, j)).unwrap().0, j)
}

/// A frontier record survives removing an entry that shows other tiles.
proof fn lemma_open_within_after_remove(
    old_open: Seq<ScoredNode>,
    new_open: Seq<ScoredNode>,
    at: int,
    t: Seq<u8>,
    l: int,
)
    requires
        0 <= at < old_open.len(),
        new_open == old_open.update(at, old_open.last()).drop_last(),
        open_within(old_open, t, l),
        old_open[at].node.tiles@ != t,
    ensures
        open_within(new_open, t, l),
{
    let w = choose|w: int|
        0 <= w < old_open.len() && (#[trigger] old_open[w]).node.tiles@ == t
            && old_open[w].node.path@.len() <= l;
    if w == old_open.len() - 1 {
        assert(new_open[at] == old_open[w]);
    } else {
        assert(new_open[w] == old_open[w]);
    }
}

/// A frontier record survives appending entries.
proof fn lemma_open_within_after_push(
    old_open: Seq<ScoredNode>,
    new_open: Seq<ScoredNode>,
    t: Seq<u8>,
    l: int,
)
    requires
        new_open.len() >= old_open.len(),
        forall|i: int| 0 <= i < old_open.len() ==> new_open[i] == old_open[i],
        open_within(old_open, t, l),
    ensures
        open_within(new_open, t, l),
{
    let w = choose|w: int|
        0 <= w < old_open.len() && (#[trigger] old_open[w]).node.tiles@ == t
            && old_open[w].node.path@.len() <= l;
    assert(new_open[w] == old_open[w]);
}

/// Closing the removed entry's state keeps the old expansion records and
/// the start's coverage: a record that pointed at the removed entry now
/// points at the closed record instead.
proof fn lemma_records_survive_close(
    old_open: Seq<ScoredNode>,
    new_open: Seq<ScoredNode>,
    at: int,
    old_c: Seq<ClosedRec>,
    new_c: Seq<ClosedRec>,
    m: BoardModel,
)
    requires
        0 <= at < old_open.len(),
        new_open == old_open.update(at, old_open.last()).drop_last(),
        closed_expanded(old_open, old_c, m),
        root_covered(old_open, old_c, m),
        new_c.len() >= old_c.len(),
        forall|e: int| 0 <= e < old_c.len() ==> new_c[e] == old_c[e],
        closed_has(new_c, old_open[at].node.tiles@),
    ensures
        closed_expanded_below(new_open, new_c, m, old_c.len() as int),
        root_covered(new_open, new_c, m),
{
    let removed = old_open[at].node.tiles@;
    assert forall|e: int, d: Direction|
        0 <= e < old_c.len() && move_ok(new_c[e].blank, m.size, d) implies #[trigger] succ_covered(
        new_open,
        new_c,
        m,
        e,
        d,
    ) by {
        assert(succ_covered(old_open, old_c, m, e, d));
        let succ = tiles_after(old_c[e].tiles, old_c[e].blank, m.size, d);
        if closed_has(old_c, succ) {
            let w = choose|w: int| 0 <= w < old_c.len() && (#[trigger] old_c[w]).tiles == succ;
            assert(new_c[w].tiles == succ);
        } else {
            if succ == removed {
                assert(closed_has(new_c, succ));
            } else {
                lemma_open_within_after_remove(old_open, new_open, at, succ, old_c[e].g + 1);
            }
        }
    }
    assert(root_covered(new_open, new_c, m)) by {
        if closed_has(old_c, m.tiles) {
            let w = choose|w: int| 0 <= w < old_c.len() && (#[trigger] old_c[w]).tiles == m.tiles;
            assert(new_c[w].tiles == m.tiles);
        } else {
            if m.tiles == removed {
                assert(closed_has(new_c, m.tiles));
            } else {
                lemma_open_within_after_remove(old_open, new_open, at, m.tiles, 0);
            }
        }
    }
}

/// Old expansion records survive appending frontier entries.
proof fn lemma_records_survive_push(
    old_open: Seq<ScoredNode>,
    new_open: Seq<ScoredNode>,
    c: Seq<ClosedRec>,
    m: BoardModel,
    upto: int,
)
    requires
        new_open.len() >= old_open.len(),
        forall|i: int| 0 <= i < old_open.len() ==> new_open[i] == old_open[i],
        closed_expanded_below(old_open, c, m, upto),
        root_covered(old_open, c, m),
        upto <= c.len(),
    ensures
        closed_expanded_below(new_open, c, m, upto),
        root_covered(new_open, c, m),
{
    assert forall|e: int, d: Direction|
        0 <= e < upto && move_ok(c[e].blank, m.size, d) implies #[trigger] succ_covered(
        new_open,
        c,
        m,
        e,
        d,
    ) by {
        assert(succ_covered(old_open, c, m, e, d));
        if !closed_has(c, tiles_after(c[e].tiles, c[e].blank, m.size, d)) {
            lemma_open_within_after_push(
                old_open,
                new_open,
                tiles_after(c[e].tiles, c[e].blank, m.size, d),
                c[e].g + 1,
            );
        }
    }
    if !closed_has(c, m.tiles) {
        lemma_open_within_after_push(old_open, new_open, m.tiles, 0);
    }
}

/// Any path to a state that is not closed leaves a frontier entry on one
/// of its prefixes, at a cost not above the prefix's length.
proof fn lemma_path_covered(
    open: Seq<ScoredNode>,
    c: Seq<ClosedRec>,
    m: BoardModel,
    q: Seq<Direction>,
)
    requires
        m.wf(),
        closed_ok(c, m),
        closed_expanded(open, c, m),
        closed_minimal(c, m),
        root_covered(open, c, m),
        replay(m.tiles, m.blank, m.size, q) is Some,
        !closed_has(c, replay(m.tiles, m.blank, m.size, q).unwrap().0),
    ensures
        exists|j: int| #[trigger] covered_at(open, m, q, j),
    decreases q.len(),
{
    let end = replay(m.tiles, m.blank, m.size, q).unwrap();
    if q.len() == 0 {
        assert(end.0 == m.tiles);
        assert(open_within(open, m.tiles, 0));
        assert(q.subrange(0, 0) =~= q);
        assert(covered_at(open, m, q, 0));
    } else {
        let prefix = q.drop_last();
        lemma_replay_last(m.tiles, m.blank, m.size, q);
        let mid = replay(m.tiles, m.blank, m.size, prefix).unwrap();
        if closed_has(c, mid.0) {
            let e = choose|e: int| 0 <= e < c.len() && (#[trigger] c[e]).tiles == mid.0;
            lemma_replay_grid_ok(m.tiles, m.blank, m.size, prefix);
            lemma_blank_determined(mid.0, c[e].blank, mid.1, m.size);
            assert(move_ok(c[e].blank, m.size, q.last()));
            assert(succ_covered(open, c, m, e, q.last()));
            assert(tiles_after(c[e].tiles, c[e].blank, m.size, q.last()) == end.0);
            assert(c[e].g <= prefix.len());
            assert(open_within(open, end.0, c[e].g + 1));
            let w = choose|w: int|
                0 <= w < open.len() && (#[trigger] open[w]).node.tiles@ == end.0
                    && open[w].node.path@.len() <= c[e].g + 1;
            assert(q.subrange(0, q.len() as int) =~= q);
            assert(open_within(open, end.0, q.len() as int));
            assert(covered_at(open, m, q, q.len() as int));
        } else {
            lemma_path_covered(open, c, m, prefix);
            let j = choose|j: int| #[trigger] covered_at(open, m, prefix, j);
            assert(prefix.subrange(0, j) =~= q.subrange(0, j));
            assert(covered_at(open, m, q, j));
        }
    }
}

/// A popped best-priority entry whose state is not yet closed carries its
/// true distance: no move sequence reaches its state in fewer moves.
proof fn lemma_popped_is_minimal(
    open: Seq<ScoredNode>,
    c: Seq<ClosedRec>,
    m: BoardModel,
    at: int,
    q: Seq<Direction>,
)
    requires
        m.wf(),
        open_ok(open, m),
        closed_ok(c, m),
        closed_expanded(open, c, m),
        closed_minimal(c, m),
        root_covered(open, c, m),
        0 <= at < open.len(),
        forall|w: int| 0 <= w < open.len() ==> prefers(open[at], #[trigger] open[w]),
        replay(m.tiles, m.blank, m.size, q) matches Some(g) && g.0 == open[at].node.tiles@,
        !closed_has(c, open[at].node.tiles@),
    ensures
        open[at].node.path@.len() <= q.len(),
{
    lemma_path_covered(open, c, m, q);
    let j = choose|j: int| #[trigger] covered_at(open, m, q, j);
    let pre = q.subrange(0, j);
    let mid = replay(m.tiles, m.blank, m.size, pre).unwrap();
    let w = choose|w: int|
        0 <= w < open.len() && (#[trigger] open[w]).node.tiles@ == mid.0
            && open[w].node.path@.len() <= j;
    lemma_replay_grid_ok(m.tiles, m.blank, m.size, pre);
    assert(pre + q.subrange(j, q.len() as int) =~= q);
    lemma_replay_concat(m.tiles, m.blank, m.size, pre, q.subrange(j, q.len() as int));
    lemma_manhattan_chain(mid.0, mid.1, m.size, m.goal, q.subrange(j, q.len() as int));
    assert(manhattan(mid.0, m.goal, m.size) <= (q.len() - j) + manhattan(
        open[at].node.tiles@,
        m.goal,
        m.size,
    ));
    assert(prefers(open[at], open[w]));
}

/// With an empty frontier, every replayable path ends on a closed state,
/// and no closed state is the goal: the board is unsolvable outright.
proof fn lemma_exhausted_unsolvable(
    open: Seq<ScoredNode>,
    c: Seq<ClosedRec>,
    m: BoardModel,
    q: Seq<Direction>,
)
    requires
        m.wf(),
        m.tiles != m.goal,
        open.len() == 0,
        closed_ok(c, m),
        closed_expanded(open, c, m),
        root_covered(open, c, m),
        replay(m.tiles, m.blank, m.size, q) is Some,
    ensures
        closed_has(c, replay(m.tiles, m.blank, m.size, q).unwrap().0),
        replay(m.tiles, m.blank, m.size, q).unwrap().0 != m.goal,
    decreases q.len(),
{
    let end = replay(m.tiles, m.blank, m.size, q).unwrap();
    if q.len() == 0 {
        assert(closed_has(c, m.tiles));
        let e = choose|e: int| 0 <= e < c.len() && (#[trigger] c[e]).tiles == m.tiles;
    } else {
        let prefix = q.drop_last();
        lemma_replay_last(m.tiles, m.blank, m.size, q);
        lemma_exhausted_unsolvable(open, c, m, prefix);
        let mid = replay(m.tiles, m.blank, m.size, prefix).unwrap();
        let e = choose|e: int| 0 <= e < c.len() && (#[trigger] c[e]).tiles == mid.0;
        lemma_replay_grid_ok(m.tiles, m.blank, m.size, prefix);
        lemma_blank_determined(mid.0, c[e].blank, mid.1, m.size);
        assert(move_ok(c[e].blank, m.size, q.last()));
        assert(succ_covered(open, c, m, e, q.last()));
        assert(tiles_after(c[e].tiles, c[e].blank, m.size, q.last()) == end.0);
        assert(closed_has(c, end.0));
        let e2 = choose|e2: int| 0 <= e2 < c.len() && (#[trigger] c[e2]).tiles == end.0;
    }
}

/// The closed records so far, all pairwise different and of the board's
/// cell count, number at most the count of possible tile vectors.
proof fn lemma_closed_bounded(c: Seq<ClosedRec>, m: BoardModel)
    requires
        m.wf(),
        closed_ok(c, m),
        forall|e1: int, e2: int|
            #![trigger c[e1], c[e2]]
            0 <= e1 < e2 < c.len() ==> c[e1].tiles != c[e2].tiles,
    ensures
        c.len() <= pow256(m.tiles.len()),
{
    let ts = Seq::new(c.len(), |e: int| c[e].tiles);
    assert forall|e: int| 0 <= e < ts.len() implies (#[trigger] ts[e]).len() == m.tiles.len() by {
        assert(grid_ok(c[e].tiles, c[e].blank, m.size));
    }
    lemma_distinct_tiles_bounded(ts, m.tiles.len());
}

/// The index of a frontier entry no worse than any other.
fn best_index(open_set: &Vec<ScoredNode>) -> (r: usize)
    requires
        open_set@.len() > 0,
    ensures
        r < open_set@.len(),
        forall|j: int| 0 <= j < open_set@.len() ==> prefers(open_set@[r as int], #[trigger] open_set@[j]),
{
    let mut best: usize = 0;
    let mut i: usize = 1;
    while i < open_set.len()
        invariant
            best < i,
            i <= open_set@.len(),
            forall|j: int| 0 <= j < i ==> prefers(open_set@[best as int], #[trigger] open_set@[j]),
        decreases open_set@.len() - i,
    {
        let f_best = open_set[best].node.path.len() as u128 + open_set[best].h as u128;
        let f_here = open_set[i].node.path.len() as u128 + open_set[i].h as u128;
        if f_here < f_best || (f_here == f_best && open_set[i].node.path.len()
            > open_set[best].node.path.len()) {
            best = i;
        }
        i += 1;
    }
    best
}

/// The best-first strategy around its initial board.
pub struct AStarSolver {
    initial_board: Board,
}

impl Solver for AStarSolver {
    closed spec fn board_model(&self) -> BoardModel {
        self.initial_board@
    }

    closed spec fn wf(&self) -> bool {
        self.initial_board.wf()
    }

    open spec fn length_bound(&self) -> Option<int> {
        None
    }

    /// The admissible heuristic makes the first goal popped a shortest
    /// solution; `solve` carries the proof.
    open spec fn finds_minimal(&self) -> bool {
        true
    }

    /// The search closes every reachable state before giving up, so an
    /// absent result means no solution of any length exists.
    open spec fn exhausts_within(&self) -> Option<int> {
        None
    }

    fn new(board: Board) -> (s: Self) {
        AStarSolver { initial_board: board }
    }

    fn new_with_goal(board: Board) -> (s: Self) {
        AStarSolver { initial_board: board }
    }

    fn solve(&self, optimal_length: Option<usize>) -> (r: Option<SolutionInfo>) {
        let board = &self.initial_board;
        let ghost m = board@;
        let size = board.get_size();
        let goal = board.get_goal_state();
        if board.is_goal() {
            return Some(SolutionInfo::new(Vec::new(), optimal_length));
        }
        let root = root_node(board);
        proof {
            lemma_node_grid(root, m);
        }
        let root_h = manhattan_of(&root.tiles, &goal, size);
        let mut open_set: Vec<ScoredNode> = Vec::new();
        open_set.push(ScoredNode { node: root, h: root_h });
        let mut closed_set: Vec<Vec<u8>> = Vec::new();
        let ghost mut closed_rec: Seq<ClosedRec> = Seq::empty();
        proof {
            assert(open_set@[0].node.tiles@ == m.tiles && open_set@[0].node.path@.len() <= 0);
            assert(open_within(open_set@, m.tiles, 0));
        }
        // Each iteration either closes one more state or only shrinks the
        // frontier, and no more distinct states exist than tile vectors of
        // the board's cell count: the search terminates by exhaustion.
        while open_set.len() > 0
            invariant
                self.board_model() == m,
                m.wf(),
                !m.is_goal(),
                size as int == m.size,
                goal@ == m.goal,
                open_ok(open_set@, m),
                closed_ok(closed_rec, m),
                closed_expanded(open_set@, closed_rec, m),
                closed_minimal(closed_rec, m),
                root_covered(open_set@, closed_rec, m),
                forall|t: Seq<u8>| #[trigger] in_visited(closed_set@, t) <==> closed_has(
                    closed_rec,
                    t,
                ),
                forall|e1: int, e2: int|
                    #![trigger closed_rec[e1], closed_rec[e2]]
                    0 <= e1 < e2 < closed_rec.len() ==> closed_rec[e1].tiles
                        != closed_rec[e2].tiles,
            decreases pow256(m.tiles.len()) - closed_rec.len(), open_set@.len(),
        {
            proof {
                lemma_closed_bounded(closed_rec, m);
            }
            let ghost old_open = open_set@;
            let at = best_index(&open_set);
            let current = open_set.swap_remove(at);
            assert(current == old_open[at as int]);
            if tiles_equal(&current.node.tiles, &goal) {
                proof {
                    assert(!closed_has(closed_rec, current.node.tiles@)) by {
                        if closed_has(closed_rec, current.node.tiles@) {
                            let e = choose|e: int|
                                0 <= e < closed_rec.len() && (#[trigger] closed_rec[e]).tiles
                                    == current.node.tiles@;
                        }
                    }
                    assert forall|p: Seq<Direction>|
                        match #[trigger] replay(m.tiles, m.blank, m.size, p) {
                            Some(g) => g.0 == m.goal ==> p.len() >= current.node.path@.len(),
                            None => true,
                        } by {
                        if replay(m.tiles, m.blank, m.size, p) is Some {
                            if replay(m.tiles, m.blank, m.size, p).unwrap().0 == m.goal {
                                lemma_popped_is_minimal(old_open, closed_rec, m, at as int, p);
                            }
                        }
                    }
                    assert(no_shorter_solution(m, current.node.path@.len() as int));
                }
                return Some(SolutionInfo::new(current.node.path, optimal_length));
            }
            if contains_tiles(&closed_set, &current.node.tiles) {
                proof {
                    assert(in_visited(closed_set@, current.node.tiles@));
                    lemma_records_survive_close(
                        old_open,
                        open_set@,
                        at as int,
                        closed_rec,
                        closed_rec,
                        m,
                    );
                    assert forall|i: int| 0 <= i < open_set@.len() implies node_ok(
                        (#[trigger] open_set@[i]).node,
                        m,
                    ) && open_set@[i].h as int == manhattan(
                        open_set@[i].node.tiles@,
                        m.goal,
                        m.size,
                    ) by {
                        assert(open_set@[i] == old_open[i] || open_set@[i] == old_open.last());
                    }
                }
                continue;
            }
            proof {
                lemma_node_grid(current.node, m);
            }
            let ghost old_closed = closed_rec;
            let ghost old_set = closed_set@;
            closed_set.push(copy_tiles(&current.node.tiles));
            proof {
                closed_rec = closed_rec.push(
                    ClosedRec {
                        tiles: current.node.tiles@,
                        blank: current.node.blank as int,
                        g: current.node.path@.len() as int,
                    },
                );
                assert(closed_rec[closed_rec.len() - 1].tiles == current.node.tiles@);
                assert(closed_has(closed_rec, current.node.tiles@));
                // the state was closed at its true distance
                assert forall|e: int, q: Seq<Direction>|
                    #![trigger closed_rec[e], replay(m.tiles, m.blank, m.size, q)]
                    0 <= e < closed_rec.len() && (match replay(m.tiles, m.blank, m.size, q) {
                        Some(g) => g.0 == closed_rec[e].tiles,
                        None => false,
                    }) implies closed_rec[e].g <= q.len() by {
                    if e < old_closed.len() {
                        assert(closed_rec[e] == old_closed[e]);
                        assert(old_closed[e].g <= q.len());
                    } else {
                        lemma_popped_is_minimal(old_open, old_closed, m, at as int, q);
                    }
                }
                assert(closed_minimal(closed_rec, m));
                // the exec set and the ghost record keep matching
                assert forall|t: Seq<u8>| #[trigger] in_visited(closed_set@, t) <==> closed_has(
                    closed_rec,
                    t,
                ) by {
                    if in_visited(closed_set@, t) {
                        let w = choose|w: int|
                            0 <= w < closed_set@.len() && (#[trigger] closed_set@[w])@ == t;
                        if w < old_set.len() {
                            assert(old_set[w]@ == t);
                            assert(in_visited(old_set, t));
                            let e = choose|e: int|
                                0 <= e < old_closed.len() && (#[trigger] old_closed[e]).tiles
                                    == t;
                            assert(closed_rec[e].tiles == t);
                        } else {
                            assert(closed_rec[closed_rec.len() - 1].tiles == t);
                        }
                    }
                    if closed_has(closed_rec, t) {
                        let e = choose|e: int|
                            0 <= e < closed_rec.len() && (#[trigger] closed_rec[e]).tiles == t;
                        if e < old_closed.len() {
                            assert(in_visited(old_set, t));
                            let w = choose|w: int|
                                0 <= w < old_set.len() && (#[trigger] old_set[w])@ == t;
                            assert(closed_set@[w]@ == t);
                        } else {
                            assert(closed_set@[closed_set@.len() - 1]@ == t);
                        }
                    }
                }
                // the new record's state was not closed before
                assert forall|e1: int, e2: int|
                    #![trigger closed_rec[e1], closed_rec[e2]]
                    0 <= e1 < e2 < closed_rec.len() implies closed_rec[e1].tiles
                        != closed_rec[e2].tiles by {
                    if e2 == closed_rec.len() - 1 {
                        if closed_rec[e1].tiles == closed_rec[e2].tiles {
                            assert(closed_has(old_closed, current.node.tiles@));
                        }
                    }
                }
                lemma_closed_bounded(closed_rec, m);
                // old expansion records and the root's coverage survive
                lemma_records_survive_close(
                    old_open,
                    open_set@,
                    at as int,
                    old_closed,
                    closed_rec,
                    m,
                );
                assert forall|i: int| 0 <= i < open_set@.len() implies node_ok(
                    (#[trigger] open_set@[i]).node,
                    m,
                ) && open_set@[i].h as int == manhattan(
                    open_set@[i].node.tiles@,
                    m.goal,
                    m.size,
                ) by {
                    assert(open_set@[i] == old_open[i] || open_set@[i] == old_open.last());
                }
            }
            let moves = moves_from(current.node.blank, size);
            let mut k: usize = 0;
            while k < moves.len()
                invariant
                    self.board_model() == m,
                    m.wf(),
                    !m.is_goal(),
                    size as int == m.size,
                    goal@ == m.goal,
                    open_ok(open_set@, m),
                    closed_ok(closed_rec, m),
                    closed_minimal(closed_rec, m),
                    closed_rec.len() >= 1,
                    closed_rec[closed_rec.len() - 1].tiles == current.node.tiles@,
                    closed_rec[closed_rec.len() - 1].blank == current.node.blank as int,
                    closed_rec[closed_rec.len() - 1].g == current.node.path@.len() as int,
                    node_ok(current.node, m),
                    closed_expanded_below(open_set@, closed_rec, m, closed_rec.len() - 1),
                    root_covered(open_set@, closed_rec, m),
                    forall|t: Seq<u8>| #[trigger] in_visited(closed_set@, t) <==> closed_has(
                        closed_rec,
                        t,
                    ),
                    k <= moves@.len(),
                    forall|t: int|
                        0 <= t < moves@.len() ==> move_ok(
                            current.node.blank as int,
                            size as int,
                            #[trigger] moves@[t],
                        ),
                    forall|d: Direction|
                        move_ok(current.node.blank as int, size as int, d) ==> moves@.contains(
                            d,
                        ),
                    forall|t: int|
                        0 <= t < k ==> succ_covered(
                            open_set@,
                            closed_rec,
                            m,
                            closed_rec.len() - 1,
                            #[trigger] moves@[t],
                        ),
                decreases moves@.len() - k,
            {
                let d = moves[k];
                let ghost before_push = open_set@;
                let child = make_child(&current.node, d, size, Ghost(m));
                if !contains_tiles(&closed_set, &child.tiles) {
                    proof {
                        lemma_node_grid(child, m);
                    }
                    let h = manhattan_of(&child.tiles, &goal, size);
                    open_set.push(ScoredNode { node: child, h });
                    proof {
                        lemma_records_survive_push(
                            before_push,
                            open_set@,
                            closed_rec,
                            m,
                            closed_rec.len() - 1,
                        );
                        assert(open_set@[open_set@.len() - 1].node.tiles@ == child.tiles@);
                        assert forall|t: int| 0 <= t < k + 1 implies succ_covered(
                            open_set@,
                            closed_rec,
                            m,
                            closed_rec.len() - 1,
                            #[trigger] moves@[t],
                        ) by {
                            if t < k {
                                assert(succ_covered(
                                    before_push,
                                    closed_rec,
                                    m,
                                    closed_rec.len() - 1,
                                    moves@[t],
                                ));
                                if !closed_has(
                                    closed_rec,
                                    tiles_after(
                                        closed_rec[closed_rec.len() - 1].tiles,
                                        closed_rec[closed_rec.len() - 1].blank,
                                        m.size,
                                        moves@[t],
                                    ),
                                ) {
                                    lemma_open_within_after_push(
                                        before_push,
                                        open_set@,
                                        tiles_after(
                                            closed_rec[closed_rec.len() - 1].tiles,
                                            closed_rec[closed_rec.len() - 1].blank,
                                            m.size,
                                            moves@[t],
                                        ),
                                        closed_rec[closed_rec.len() - 1].g + 1,
                                    );
                                }
                            } else {
                                assert(child.tiles@ == tiles_after(
                                    closed_rec[closed_rec.len() - 1].tiles,
                                    closed_rec[closed_rec.len() - 1].blank,
                                    m.size,
                                    d,
                                ));
                                assert(open_within(
                                    open_set@,
                                    child.tiles@,
                                    closed_rec[closed_rec.len() - 1].g + 1,
                                ));
                            }
                        }
                    }
                } else {
                    proof {
                        assert(in_visited(closed_set@, child.tiles@));
                        assert(closed_has(closed_rec, child.tiles@));
                        assert(child.tiles@ == tiles_after(
                            closed_rec[closed_rec.len() - 1].tiles,
                            closed_rec[closed_rec.len() - 1].blank,
                            m.size,
                            d,
                        ));
                        assert(succ_covered(
                            open_set@,
                            closed_rec,
                            m,
                            closed_rec.len() - 1,
                            d,
                        ));
                    }
                }
                k += 1;
            }
            proof {
                assert forall|e: int, d: Direction|
                    0 <= e < closed_rec.len() && move_ok(closed_rec[e].blank, m.size, d)
                    implies #[trigger] succ_covered(open_set@, closed_rec, m, e, d) by {
                    if e == closed_rec.len() - 1 {
                        assert(move_ok(current.node.blank as int, size as int, d));
                        assert(moves@.contains(d));
                        let t = choose|t: int| 0 <= t < moves@.len() && moves@[t] == d;
                        assert(succ_covered(open_set@, closed_rec, m, e, moves@[t]));
                    }
                }
                assert(closed_expanded(open_set@, closed_rec, m));
            }
        }
        proof {
            assert forall|q: Seq<Direction>|
                match #[trigger] replay(m.tiles, m.blank, m.size, q) {
                    Some(g) => g.0 != m.goal,
                    None => true,
                } by {
                if replay(m.tiles, m.blank, m.size, q) is Some {
                    lemma_exhausted_unsolvable(open_set@, closed_rec, m, q);
                }
            }
            assert(no_solution_within(m, None::<int>));
        }
        None
    }
}

} // verus!
