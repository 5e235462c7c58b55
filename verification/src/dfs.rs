//! Depth-bounded depth-first search: a LIFO frontier with deduplication
//! at push time and a hard depth ceiling.  The first goal found carries
//! no optimality guarantee; the trade-off is a smaller frontier than
//! breadth-first search keeps.  Deduplication is depth-blind, so pruning
//! can cut shallow routes through states first met deep inside a dive:
//! the search is only guaranteed exhaustive for the start's immediate
//! neighbourhood, and `solve` proves exactly that much (no result means
//! no solution of at most two moves).

use vstd::prelude::*;
use crate::board::{Board, BoardModel, Direction};
use crate::model::{
    lemma_blank_determined, lemma_cell_bounds, lemma_move_changes_tiles, lemma_replay_grid_ok,
    lemma_replay_last, move_ok, pow256, replay, row_of, tiles_after,
};
use crate::node::{lemma_node_grid, make_child, node_ok, root_node, Node};
use crate::tiles::{
    contains_tiles, copy_tiles, in_visited, lemma_collected_bounded, moves_from, tiles_equal,
};
use crate::{no_solution_within, SolutionInfo, Solver};

verus! {

/// The hard depth ceiling: a node this deep is not expanded further.
pub const MAX_DEPTH: usize = 20;

/// Some stack entry shows these tiles.
spec fn on_stack(stack: Seq<Node>, t: Seq<u8>) -> bool {
    exists|i: int| 0 <= i < stack.len() && (#[trigger] stack[i]).tiles@ == t
}

/// Every stack entry repeats one of the pushed records, field for field.
spec fn stack_recorded(stack: Seq<Node>, rec: Seq<Node>) -> bool {
    forall|i: int|
        0 <= i < stack.len() ==> exists|k: int|
            0 <= k < rec.len() && (#[trigger] rec[k]).tiles@ == (#[trigger] stack[i]).tiles@
                && rec[k].path@.len() == stack[i].path@.len() && rec[k].blank == stack[i].blank
}

/// The successor of record `k` along `d` was pushed at some point.
spec fn succ_in_rec(rec: Seq<Node>, m: BoardModel, k: int, d: Direction) -> bool {
    exists|k2: int|
        0 <= k2 < rec.len() && (#[trigger] rec[k2]).tiles@ == tiles_after(
            rec[k].tiles@,
            rec[k].blank as int,
            m.size,
            d,
        )
}

/// Every legal successor of record `k` was pushed at some point.
spec fn all_succs_in_rec(rec: Seq<Node>, m: BoardModel, k: int) -> bool {
    forall|d: Direction|
        move_ok(rec[k].blank as int, m.size, d) ==> #[trigger] succ_in_rec(rec, m, k, d)
}

/// Record `k` is dealt with: it was goal-tested, and either pruned at the
/// ceiling or expanded.
spec fn rec_done(rec: Seq<Node>, m: BoardModel, k: int) -> bool {
    &&& rec[k].tiles@ != m.goal
    &&& (rec[k].path@.len() >= MAX_DEPTH || all_succs_in_rec(rec, m, k))
}

/// The start's immediate successor along `d` was pushed within one move.
spec fn root_kid(rec: Seq<Node>, m: BoardModel, d: Direction) -> bool {
    exists|k: int|
        0 <= k < rec.len() && (#[trigger] rec[k]).tiles@ == tiles_after(
            m.tiles,
            m.blank,
            m.size,
            d,
        ) && rec[k].path@.len() <= 1
}

/// Every legal first move's successor was pushed within one move.
spec fn root_kids_recorded(rec: Seq<Node>, m: BoardModel) -> bool {
    forall|d: Direction| move_ok(m.blank, m.size, d) ==> #[trigger] root_kid(rec, m, d)
}

/// Once every pushed record is dealt with, no path of at most two moves
/// ends on the goal: the start was goal-tested, its neighbours were
/// pushed at depth one and goal-tested, and being below the ceiling they
/// were expanded, so their successors were goal-tested too.
proof fn lemma_exhausted_two_moves(rec: Seq<Node>, m: BoardModel, p: Seq<Direction>)
    requires
        m.wf(),
        m.tiles != m.goal,
        rec.len() > 0,
        rec[0].tiles@ == m.tiles,
        forall|k: int| 0 <= k < rec.len() ==> node_ok(#[trigger] rec[k], m),
        forall|k: int| 0 <= k < rec.len() ==> #[trigger] rec_done(rec, m, k),
        root_kids_recorded(rec, m),
        1 <= p.len() <= 2,
        replay(m.tiles, m.blank, m.size, p) is Some,
    ensures
        replay(m.tiles, m.blank, m.size, p).unwrap().0 != m.goal,
{
    let end = replay(m.tiles, m.blank, m.size, p).unwrap();
    if p.len() == 1 {
        lemma_replay_last(m.tiles, m.blank, m.size, p);
        assert(p.drop_last() =~= Seq::<Direction>::empty());
        assert(end.0 == tiles_after(m.tiles, m.blank, m.size, p.last()));
        assert(root_kid(rec, m, p.last()));
        let k1 = choose|k1: int|
            0 <= k1 < rec.len() && (#[trigger] rec[k1]).tiles@ == tiles_after(
                m.tiles,
                m.blank,
                m.size,
                p.last(),
            ) && rec[k1].path@.len() <= 1;
        assert(rec_done(rec, m, k1));
    } else {
        let prefix = p.drop_last();
        lemma_replay_last(m.tiles, m.blank, m.size, p);
        let mid = replay(m.tiles, m.blank, m.size, prefix).unwrap();
        lemma_replay_last(m.tiles, m.blank, m.size, prefix);
        assert(prefix.drop_last() =~= Seq::<Direction>::empty());
        assert(mid.0 == tiles_after(m.tiles, m.blank, m.size, prefix.last()));
        assert(root_kid(rec, m, prefix.last()));
        let k1 = choose|k1: int|
            0 <= k1 < rec.len() && (#[trigger] rec[k1]).tiles@ == tiles_after(
                m.tiles,
                m.blank,
                m.size,
                prefix.last(),
            ) && rec[k1].path@.len() <= 1;
        // that neighbour sat below the ceiling, so it was expanded
        assert(rec_done(rec, m, k1));
        assert(rec[k1].path@.len() < MAX_DEPTH);
        lemma_replay_grid_ok(m.tiles, m.blank, m.size, prefix);
        lemma_node_grid(rec[k1], m);
        lemma_blank_determined(mid.0, rec[k1].blank as int, mid.1, m.size);
        assert(move_ok(rec[k1].blank as int, m.size, p.last()));
        assert(succ_in_rec(rec, m, k1, p.last()));
        assert(tiles_after(rec[k1].tiles@, rec[k1].blank as int, m.size, p.last()) == end.0);
        let k2 = choose|k2: int|
            0 <= k2 < rec.len() && (#[trigger] rec[k2]).tiles@ == end.0;
        assert(rec_done(rec, m, k2));
    }
}

/// A pushed-record fact survives appending another record.
proof fn lemma_done_stable(old_rec: Seq<Node>, new_rec: Seq<Node>, m: BoardModel, k: int)
    requires
        new_rec.len() >= old_rec.len(),
        forall|k2: int| 0 <= k2 < old_rec.len() ==> new_rec[k2] == old_rec[k2],
        0 <= k < old_rec.len(),
        rec_done(old_rec, m, k),
    ensures
        rec_done(new_rec, m, k),
{
    if old_rec[k].path@.len() < MAX_DEPTH {
        assert forall|d: Direction| move_ok(new_rec[k].blank as int, m.size, d)
            implies #[trigger] succ_in_rec(new_rec, m, k, d) by {
            assert(succ_in_rec(old_rec, m, k, d));
            let k2 = choose|k2: int|
                0 <= k2 < old_rec.len() && (#[trigger] old_rec[k2]).tiles@ == tiles_after(
                    old_rec[k].tiles@,
                    old_rec[k].blank as int,
                    m.size,
                    d,
                );
            assert(new_rec[k2].tiles@ == tiles_after(
                new_rec[k].tiles@,
                new_rec[k].blank as int,
                m.size,
                d,
            ));
        }
    }
}

/// The depth-first strategy around its initial board.
pub struct DFSSolver {
    initial_board: Board,
}

impl Solver for DFSSolver {
    closed spec fn board_model(&self) -> BoardModel {
        self.initial_board@
    }

    closed spec fn wf(&self) -> bool {
        self.initial_board.wf()
    }

    open spec fn length_bound(&self) -> Option<int> {
        Some(MAX_DEPTH as int)
    }

    /// The first goal found may lie far beyond a shortest path: nothing
    /// is promised about the returned length beyond the ceiling.
    open spec fn finds_minimal(&self) -> bool {
        false
    }

    /// Deduplication is depth-blind: a state first met deep inside a dive
    /// is never pushed again, so a shallow route through it can be lost
    /// once the ceiling prunes the dive.  Only the start and the states
    /// one move away are always recorded at their true depth, so the
    /// search is exhaustive for two moves: an absent result means no
    /// solution of at most two moves exists.
    open spec fn exhausts_within(&self) -> Option<int> {
        Some(2)
    }

    fn new(board: Board) -> (s: Self) {
        DFSSolver { initial_board: board }
    }

    fn new_with_goal(board: Board) -> (s: Self) {
        DFSSolver { initial_board: board }
    }

    fn solve(&self, optimal_length: Option<usize>) -> (r: Option<SolutionInfo>) {
        let board = &self.initial_board;
        let ghost m = board@;
        let size = board.get_size();
        let goal = board.get_goal_state();
        if board.is_goal() {
            return Some(SolutionInfo::new(Vec::new(), optimal_length));
        }
        let root = root_node(board);
        let ghost root_snap = root;
        let mut visited: Vec<Vec<u8>> = Vec::new();
        visited.push(copy_tiles(&root.tiles));
        let mut stack: Vec<Node> = Vec::new();
        stack.push(root);
        let ghost mut rec: Seq<Node> = seq![root_snap];
        proof {
            assert(visited@[0]@ == rec[0].tiles@);
            assert(on_stack(stack@, rec[0].tiles@)) by {
                assert(stack@[0].tiles@ == rec[0].tiles@);
            }
        }
        // Each iteration either records one more state or only shrinks the
        // stack, and no more distinct states exist than tile vectors of the
        // board's cell count: the search terminates by exhaustion.
        while stack.len() > 0
            invariant
                self.board_model() == m,
                m.wf(),
                !m.is_goal(),
                size as int == m.size,
                goal@ == m.goal,
                forall|i: int|
                    0 <= i < stack@.len() ==> node_ok(#[trigger] stack@[i], m)
                        && stack@[i].path@.len() <= MAX_DEPTH,
                rec.len() > 0,
                rec[0].tiles@ == m.tiles,
                rec[0].path@.len() == 0,
                forall|k: int|
                    0 <= k < rec.len() ==> node_ok(#[trigger] rec[k], m) && rec[k].path@.len()
                        <= MAX_DEPTH,
                forall|k1: int, k2: int|
                    #![trigger rec[k1], rec[k2]]
                    0 <= k1 < k2 < rec.len() ==> rec[k1].tiles@ != rec[k2].tiles@,
                visited@.len() == rec.len(),
                forall|k: int| 0 <= k < rec.len() ==> (#[trigger] visited@[k])@ == rec[k].tiles@,
                forall|k: int| 0 <= k < visited@.len() ==> (#[trigger] visited@[k])@.len()
                    == m.tiles.len(),
                stack_recorded(stack@, rec),
                forall|k: int|
                    0 <= k < rec.len() ==> on_stack(stack@, (#[trigger] rec[k]).tiles@)
                        || rec_done(rec, m, k),
                rec.len() == 1 ==> stack@.len() == 1 && stack@[0].tiles@ == m.tiles
                    && stack@[0].path@.len() == 0,
                rec.len() > 1 ==> root_kids_recorded(rec, m),
                rec.len() > 1 ==> !on_stack(stack@, m.tiles),
            decreases pow256(m.tiles.len()) - visited@.len(), stack@.len(),
        {
            proof {
                assert forall|k1: int, k2: int|
                    #![trigger visited@[k1], visited@[k2]]
                    0 <= k1 < k2 < visited@.len() implies visited@[k1]@ != visited@[k2]@ by {
                    assert(visited@[k1]@ == rec[k1].tiles@ && visited@[k2]@ == rec[k2].tiles@);
                }
                lemma_collected_bounded(visited@, m.tiles.len());
            }
            let ghost recorded0 = visited@.len();
            let ghost old_stack = stack@;
            let node = stack.pop().unwrap();
            let ghost k_node = choose|k: int|
                0 <= k < rec.len() && (#[trigger] rec[k]).tiles@ == node.tiles@
                    && rec[k].path@.len() == node.path@.len() && rec[k].blank == node.blank;
            proof {
                assert(old_stack[old_stack.len() - 1] == node);
                assert(exists|k: int|
                    0 <= k < rec.len() && (#[trigger] rec[k]).tiles@ == node.tiles@
                        && rec[k].path@.len() == node.path@.len() && rec[k].blank == node.blank);
            }
            if tiles_equal(&node.tiles, &goal) {
                return Some(SolutionInfo::new(node.path, optimal_length));
            }
            proof {
                // every other record stays on the stack or was dealt with
                assert forall|k: int| 0 <= k < rec.len() && k != k_node implies on_stack(
                    stack@,
                    (#[trigger] rec[k]).tiles@,
                ) || rec_done(rec, m, k) by {
                    if on_stack(old_stack, rec[k].tiles@) {
                        let i = choose|i: int|
                            0 <= i < old_stack.len() && (#[trigger] old_stack[i]).tiles@
                                == rec[k].tiles@;
                        if i == old_stack.len() - 1 {
                            assert(rec[k].tiles@ == rec[k_node].tiles@);
                        } else {
                            assert(stack@[i] == old_stack[i]);
                        }
                    }
                }
                // the start stays off the stack once it left it
                if rec.len() > 1 {
                    assert forall|i: int| 0 <= i < stack@.len() implies (
                    #[trigger] stack@[i]).tiles@ != m.tiles by {
                        assert(stack@[i] == old_stack[i]);
                    }
                }
            }
            if node.path.len() >= MAX_DEPTH {
                proof {
                    assert(rec.len() > 1);
                    assert(rec_done(rec, m, k_node));
                    assert forall|i: int| 0 <= i < stack@.len() implies exists|k: int|
                        0 <= k < rec.len() && (#[trigger] rec[k]).tiles@ == (
                        #[trigger] stack@[i]).tiles@ && rec[k].path@.len()
                            == stack@[i].path@.len() && rec[k].blank == stack@[i].blank by {
                        assert(stack@[i] == old_stack[i]);
                    }
                }
                continue;
            }
            proof {
                lemma_node_grid(node, m);
                assert(m.size >= 2) by {
                    if m.size == 1 {
                        assert(m.size * m.size == 1) by (nonlinear_arith)
                            requires
                                m.size == 1,
                        {}
                        assert(m.tiles.len() == 1 && m.goal.len() == 1);
                        assert((m.tiles[0] as int) < 1 && (m.goal[0] as int) < 1);
                        assert(m.tiles =~= m.goal);
                    }
                }
            }
            let moves = moves_from(node.blank, size);
            proof {
                assert(moves@.len() >= 1) by {
                    lemma_cell_bounds(node.blank as int, size as int);
                    if row_of(node.blank as int, size as int) > 0 {
                        assert(move_ok(node.blank as int, size as int, Direction::Up));
                        assert(moves@.contains(Direction::Up));
                    } else {
                        assert(move_ok(node.blank as int, size as int, Direction::Down));
                        assert(moves@.contains(Direction::Down));
                    }
                }
            }
            let mut k: usize = 0;
            while k < moves.len()
                invariant
                    self.board_model() == m,
                    m.wf(),
                    !m.is_goal(),
                    size as int == m.size,
                    goal@ == m.goal,
                    node_ok(node, m),
                    node.path@.len() < MAX_DEPTH,
                    node.tiles@ != m.goal,
                    0 <= k_node < rec.len(),
                    rec[k_node].tiles@ == node.tiles@,
                    rec[k_node].blank == node.blank,
                    rec[k_node].path@.len() == node.path@.len(),
                    forall|i: int|
                        0 <= i < stack@.len() ==> node_ok(#[trigger] stack@[i], m)
                            && stack@[i].path@.len() <= MAX_DEPTH,
                    rec.len() > 0,
                    rec[0].tiles@ == m.tiles,
                    rec[0].path@.len() == 0,
                    forall|k2: int|
                        0 <= k2 < rec.len() ==> node_ok(#[trigger] rec[k2], m)
                            && rec[k2].path@.len() <= MAX_DEPTH,
                    forall|k1: int, k2: int|
                        #![trigger rec[k1], rec[k2]]
                        0 <= k1 < k2 < rec.len() ==> rec[k1].tiles@ != rec[k2].tiles@,
                    visited@.len() == rec.len(),
                    visited@.len() >= recorded0,
                    visited@.len() - recorded0 == stack@.len() - (old_stack.len() - 1),
                    forall|k2: int| 0 <= k2 < rec.len() ==> (#[trigger] visited@[k2])@
                        == rec[k2].tiles@,
                    forall|k2: int| 0 <= k2 < visited@.len() ==> (#[trigger] visited@[k2])@.len()
                        == m.tiles.len(),
                    stack_recorded(stack@, rec),
                    forall|k2: int|
                        0 <= k2 < rec.len() && k2 != k_node ==> on_stack(
                            stack@,
                            (#[trigger] rec[k2]).tiles@,
                        ) || rec_done(rec, m, k2),
                    !on_stack(stack@, m.tiles),
                    k <= moves@.len(),
                    moves@.len() >= 1,
                    forall|t: int|
                        0 <= t < moves@.len() ==> move_ok(
                            node.blank as int,
                            size as int,
                            #[trigger] moves@[t],
                        ),
                    forall|d: Direction|
                        move_ok(node.blank as int, size as int, d) ==> moves@.contains(d),
                    forall|t: int| 0 <= t < k ==> succ_in_rec(rec, m, k_node, #[trigger] moves@[t]),
                    k_node == 0 ==> forall|k2: int|
                        1 <= k2 < rec.len() ==> (#[trigger] rec[k2]).path@.len() <= 1,
                    k_node == 0 && k > 0 ==> rec.len() > 1,
                    k_node != 0 ==> root_kids_recorded(rec, m),
                decreases moves@.len() - k,
            {
                let d = moves[k];
                let ghost old_rec = rec;
                let ghost before_stack = stack@;
                let child = make_child(&node, d, size, Ghost(m));
                if !contains_tiles(&visited, &child.tiles) {
                    proof {
                        lemma_node_grid(child, m);
                        assert forall|k2: int| 0 <= k2 < rec.len() implies (
                        #[trigger] rec[k2]).tiles@ != child.tiles@ by {
                            if rec[k2].tiles@ == child.tiles@ {
                                assert(visited@[k2]@ == child.tiles@);
                                assert(in_visited(visited@, child.tiles@));
                            }
                        }
                    }
                    let ghost child_snap = child;
                    visited.push(copy_tiles(&child.tiles));
                    stack.push(child);
                    proof {
                        rec = rec.push(child_snap);
                        assert(rec[rec.len() - 1].tiles@ == child_snap.tiles@);
                        assert(stack@[stack@.len() - 1].tiles@ == child_snap.tiles@);
                        // the record stays mirrored and sound
                        assert forall|i: int| 0 <= i < stack@.len() implies exists|k2: int|
                            0 <= k2 < rec.len() && (#[trigger] rec[k2]).tiles@ == (
                            #[trigger] stack@[i]).tiles@ && rec[k2].path@.len()
                                == stack@[i].path@.len() && rec[k2].blank == stack@[i].blank by {
                            if i < stack@.len() - 1 {
                                assert(stack@[i] == before_stack[i]);
                                let k2 = choose|k2: int|
                                    0 <= k2 < old_rec.len() && (#[trigger] old_rec[k2]).tiles@
                                        == before_stack[i].tiles@ && old_rec[k2].path@.len()
                                        == before_stack[i].path@.len() && old_rec[k2].blank
                                        == before_stack[i].blank;
                                assert(rec[k2] == old_rec[k2]);
                            } else {
                                assert(rec[rec.len() - 1] == child_snap);
                            }
                        }
                        // every earlier record keeps its standing
                        assert forall|k2: int|
                            0 <= k2 < rec.len() && k2 != k_node implies on_stack(
                            stack@,
                            (#[trigger] rec[k2]).tiles@,
                        ) || rec_done(rec, m, k2) by {
                            if k2 < old_rec.len() {
                                if on_stack(before_stack, rec[k2].tiles@) {
                                    let i = choose|i: int|
                                        0 <= i < before_stack.len() && (
                                        #[trigger] before_stack[i]).tiles@ == rec[k2].tiles@;
                                    assert(stack@[i] == before_stack[i]);
                                } else {
                                    lemma_done_stable(old_rec, rec, m, k2);
                                }
                            } else {
                                assert(on_stack(stack@, rec[k2].tiles@)) by {
                                    assert(stack@[stack@.len() - 1].tiles@ == rec[k2].tiles@);
                                }
                            }
                        }
                        // the partial expansion record carries over
                        assert forall|t: int| 0 <= t < k + 1 implies succ_in_rec(
                            rec,
                            m,
                            k_node,
                            #[trigger] moves@[t],
                        ) by {
                            if t < k {
                                assert(succ_in_rec(old_rec, m, k_node, moves@[t]));
                                let k2 = choose|k2: int|
                                    0 <= k2 < old_rec.len() && (#[trigger] old_rec[k2]).tiles@
                                        == tiles_after(
                                        old_rec[k_node].tiles@,
                                        old_rec[k_node].blank as int,
                                        m.size,
                                        moves@[t],
                                    );
                                assert(rec[k2].tiles@ == tiles_after(
                                    rec[k_node].tiles@,
                                    rec[k_node].blank as int,
                                    m.size,
                                    moves@[t],
                                ));
                            } else {
                                assert(rec[rec.len() - 1].tiles@ == tiles_after(
                                    rec[k_node].tiles@,
                                    rec[k_node].blank as int,
                                    m.size,
                                    d,
                                ));
                            }
                        }
                        // a new push never shows the start again
                        assert(child_snap.tiles@ != m.tiles) by {
                            if child_snap.tiles@ == m.tiles {
                                assert(rec[0].tiles@ == child_snap.tiles@);
                                assert(visited@[0]@ == child_snap.tiles@);
                                assert(in_visited(visited@.subrange(0, visited@.len() - 1), child_snap.tiles@));
                            }
                        }
                        assert forall|i: int| 0 <= i < stack@.len() implies (
                        #[trigger] stack@[i]).tiles@ != m.tiles by {
                            if i < stack@.len() - 1 {
                                assert(stack@[i] == before_stack[i]);
                            }
                        }
                        if k_node != 0 {
                            assert forall|dd: Direction| move_ok(m.blank, m.size, dd)
                                implies #[trigger] root_kid(rec, m, dd) by {
                                assert(root_kid(old_rec, m, dd));
                                let k2 = choose|k2: int|
                                    0 <= k2 < old_rec.len() && (#[trigger] old_rec[k2]).tiles@
                                        == tiles_after(m.tiles, m.blank, m.size, dd)
                                        && old_rec[k2].path@.len() <= 1;
                                assert(rec[k2].tiles@ == tiles_after(m.tiles, m.blank, m.size, dd)
                                    && rec[k2].path@.len() <= 1);
                            }
                        }
                    }
                } else {
                    proof {
                        assert(in_visited(visited@, child.tiles@));
                        let w = choose|w: int|
                            0 <= w < visited@.len() && (#[trigger] visited@[w])@ == child.tiles@;
                        assert(rec[w].tiles@ == child.tiles@);
                        assert(succ_in_rec(rec, m, k_node, d)) by {
                            assert(rec[w].tiles@ == tiles_after(
                                rec[k_node].tiles@,
                                rec[k_node].blank as int,
                                m.size,
                                d,
                            ));
                        }
                        if k_node == 0 {
                            // the successor of the start is never the start
                            lemma_move_changes_tiles(m.tiles, m.blank, m.size, d);
                            assert(w != 0);
                        }
                    }
                }
                k += 1;
            }
            proof {
                // the popped record is now dealt with
                assert(all_succs_in_rec(rec, m, k_node)) by {
                    assert forall|d: Direction| move_ok(rec[k_node].blank as int, m.size, d)
                        implies #[trigger] succ_in_rec(rec, m, k_node, d) by {
                        assert(moves@.contains(d));
                        let t = choose|t: int| 0 <= t < moves@.len() && moves@[t] == d;
                        assert(succ_in_rec(rec, m, k_node, moves@[t]));
                    }
                }
                assert(rec_done(rec, m, k_node));
                // after the very first expansion the start's neighbourhood
                // is recorded at its true depth
                if k_node == 0 {
                    assert(rec[0].blank == m.blank) by {
                        assert(replay(m.tiles, m.blank, m.size, rec[0].path@) == Some(
                            (m.tiles, m.blank),
                        ));
                    }
                    assert forall|d: Direction| move_ok(m.blank, m.size, d)
                        implies #[trigger] root_kid(rec, m, d) by {
                        assert(succ_in_rec(rec, m, 0, d));
                        let k2 = choose|k2: int|
                            0 <= k2 < rec.len() && (#[trigger] rec[k2]).tiles@ == tiles_after(
                                rec[0].tiles@,
                                rec[0].blank as int,
                                m.size,
                                d,
                            );
                        lemma_move_changes_tiles(m.tiles, m.blank, m.size, d);
                        assert(k2 != 0);
                        assert(rec[k2].path@.len() <= 1);
                    }
                    assert(rec.len() > 1) by {
                        assert(succ_in_rec(rec, m, 0, moves@[0]));
                        let k2 = choose|k2: int|
                            0 <= k2 < rec.len() && (#[trigger] rec[k2]).tiles@ == tiles_after(
                                rec[0].tiles@,
                                rec[0].blank as int,
                                m.size,
                                moves@[0],
                            );
                        lemma_move_changes_tiles(m.tiles, m.blank, m.size, moves@[0]);
                        assert(k2 != 0);
                    }
                }
                assert forall|k1: int, k2: int|
                    #![trigger visited@[k1], visited@[k2]]
                    0 <= k1 < k2 < visited@.len() implies visited@[k1]@ != visited@[k2]@ by {
                    assert(visited@[k1]@ == rec[k1].tiles@ && visited@[k2]@ == rec[k2].tiles@);
                }
                lemma_collected_bounded(visited@, m.tiles.len());
            }
        }
        proof {
            // the stack is empty: every pushed record was dealt with
            assert forall|k: int| 0 <= k < rec.len() implies #[trigger] rec_done(rec, m, k) by {
                assert(!on_stack(stack@, rec[k].tiles@));
            }
            assert(rec.len() > 1);
            assert forall|p: Seq<Direction>|
                match #[trigger] replay(m.tiles, m.blank, m.size, p) {
                    Some(g) => p.len() <= 2 ==> g.0 != m.goal,
                    None => true,
                } by {
                if replay(m.tiles, m.blank, m.size, p) is Some && p.len() <= 2 {
                    if p.len() == 0 {
                        assert(replay(m.tiles, m.blank, m.size, p) == Some((m.tiles, m.blank)));
                    } else {
                        lemma_exhausted_two_moves(rec, m, p);
                    }
                }
            }
            assert(no_solution_within(m, Some(2)));
        }
        None
    }
}

} // verus!
