//! Breadth-first search: a FIFO frontier explored purely in insertion
//! order, with deduplication at enqueue time and a hard depth ceiling.
//! Exploring in insertion order makes the first goal dequeued a shortest
//! solution, and `solve` carries that proof: the dequeued part of the
//! queue keeps a record of every expansion, and any path shorter than the
//! found one must end on an already-dequeued, non-goal entry.

use vstd::prelude::*;
use crate::board::{Board, BoardModel, Direction};
use crate::model::{
    lemma_blank_determined, lemma_replay_grid_ok, lemma_replay_last, move_ok, pow256, replay,
    tiles_after,
};
use crate::node::{clone_node, lemma_node_grid, make_child, node_ok, root_node, Node};
use crate::tiles::{
    contains_tiles, copy_tiles, in_visited, lemma_collected_bounded, moves_from, tiles_equal,
};
use crate::{no_shorter_solution, no_solution_within, SolutionInfo, Solver};

verus! {

/// The hard depth ceiling: nodes this deep are kept but not expanded.
pub const MAX_DEPTH: usize = 30;

/// Every entry is a truthful node no deeper than the ceiling.
spec fn entries_ok(q: Seq<Node>, m: BoardModel) -> bool {
    forall|i: int|
        0 <= i < q.len() ==> node_ok(#[trigger] q[i], m) && q[i].path@.len() <= MAX_DEPTH
}

/// Path lengths never decrease along the queue.
spec fn lengths_monotone(q: Seq<Node>) -> bool {
    forall|i: int, j: int|
        0 <= i <= j < q.len() ==> (#[trigger] q[i]).path@.len() <= (#[trigger] q[j]).path@.len()
}

/// Some entry shows these tiles with a path no longer than `l`.
spec fn entry_within(q: Seq<Node>, t: Seq<u8>, l: int) -> bool {
    exists|j: int| 0 <= j < q.len() && (#[trigger] q[j]).tiles@ == t && q[j].path@.len() <= l
}

/// The successor of entry `i` in direction `d` is recorded somewhere,
/// with a path at most one move longer.
spec fn successor_recorded(q: Seq<Node>, size: int, i: int, d: Direction) -> bool {
    entry_within(
        q,
        tiles_after(q[i].tiles@, q[i].blank as int, size, d),
        q[i].path@.len() as int + 1,
    )
}

/// Every dequeued entry below the ceiling had each legal successor
/// recorded.
spec fn expanded_below(q: Seq<Node>, size: int, upto: int) -> bool {
    forall|i: int, d: Direction|
        0 <= i < upto && q[i].path@.len() < MAX_DEPTH && move_ok(q[i].blank as int, size, d)
            ==> #[trigger] successor_recorded(q, size, i, d)
}

/// No dequeued entry showed the goal.
spec fn no_goal_below(q: Seq<Node>, goal: Seq<u8>, upto: int) -> bool {
    forall|i: int| 0 <= i < upto ==> (#[trigger] q[i]).tiles@ != goal
}

/// Everything marked visited is recorded as a queue entry.
spec fn visited_recorded(vs: Seq<Vec<u8>>, q: Seq<Node>) -> bool {
    forall|t: Seq<u8>|
        #[trigger] in_visited(vs, t) ==> exists|i: int|
            0 <= i < q.len() && (#[trigger] q[i]).tiles@ == t
}

/// Any path strictly shorter than the path of the goal entry at `found`
/// ends on a recorded, already-dequeued entry, and no dequeued entry
/// showed the goal: so no shorter path reaches the goal.
proof fn lemma_short_paths_are_recorded(
    q: Seq<Node>,
    m: BoardModel,
    found: int,
    p: Seq<Direction>,
)
    requires
        m.wf(),
        m.tiles != m.goal,
        q.len() > 0,
        q[0].tiles@ == m.tiles,
        q[0].path@.len() == 0,
        entries_ok(q, m),
        lengths_monotone(q),
        0 <= found < q.len(),
        expanded_below(q, m.size, found),
        no_goal_below(q, m.goal, found),
        p.len() < q[found].path@.len(),
        replay(m.tiles, m.blank, m.size, p) is Some,
    ensures
        entry_within(q, replay(m.tiles, m.blank, m.size, p).unwrap().0, p.len() as int),
        replay(m.tiles, m.blank, m.size, p).unwrap().0 != m.goal,
    decreases p.len(),
{
    if p.len() == 0 {
        assert(replay(m.tiles, m.blank, m.size, p) == Some((m.tiles, m.blank)));
        assert(q[0].tiles@ == m.tiles && q[0].path@.len() <= 0);
        assert(entry_within(q, m.tiles, 0));
    } else {
        let prefix = p.drop_last();
        let d = p.last();
        lemma_replay_last(m.tiles, m.blank, m.size, p);
        let g1 = replay(m.tiles, m.blank, m.size, prefix).unwrap();
        lemma_short_paths_are_recorded(q, m, found, prefix);
        let j = choose|j: int|
            0 <= j < q.len() && (#[trigger] q[j]).tiles@ == g1.0 && q[j].path@.len()
                <= prefix.len();
        // an entry shorter than the goal entry was dequeued before it
        assert(j < found) by {
            if found <= j {
                assert(q[found].path@.len() <= q[j].path@.len());
            }
        }
        // that entry's blank is the blank the prefix ends with
        lemma_replay_grid_ok(m.tiles, m.blank, m.size, prefix);
        lemma_node_grid(q[j], m);
        lemma_blank_determined(g1.0, q[j].blank as int, g1.1, m.size);
        // it sat below the ceiling, so its step along `d` is recorded
        assert(q[j].path@.len() < MAX_DEPTH);
        assert(successor_recorded(q, m.size, j, d));
        assert(tiles_after(q[j].tiles@, q[j].blank as int, m.size, d) == replay(
            m.tiles,
            m.blank,
            m.size,
            p,
        ).unwrap().0);
        let s2 = replay(m.tiles, m.blank, m.size, p).unwrap().0;
        let j2 = choose|j2: int|
            0 <= j2 < q.len() && (#[trigger] q[j2]).tiles@ == s2 && q[j2].path@.len()
                <= q[j].path@.len() + 1;
        assert(q[j2].path@.len() <= p.len());
        assert(entry_within(q, s2, p.len() as int));
        // and the recording entry was itself dequeued before the goal entry
        assert(j2 < found) by {
            if found <= j2 {
                assert(q[found].path@.len() <= q[j2].path@.len());
            }
        }
        assert(q[j2].tiles@ != m.goal);
    }
}

/// With the whole queue dequeued, every path within the ceiling ends on
/// a recorded, goal-free entry: no solution of at most the ceiling's
/// length exists.
proof fn lemma_exhausted_no_short_solution(q: Seq<Node>, m: BoardModel, p: Seq<Direction>)
    requires
        m.wf(),
        m.tiles != m.goal,
        q.len() > 0,
        q[0].tiles@ == m.tiles,
        q[0].path@.len() == 0,
        entries_ok(q, m),
        expanded_below(q, m.size, q.len() as int),
        no_goal_below(q, m.goal, q.len() as int),
        p.len() <= MAX_DEPTH,
        replay(m.tiles, m.blank, m.size, p) is Some,
    ensures
        entry_within(q, replay(m.tiles, m.blank, m.size, p).unwrap().0, p.len() as int),
        replay(m.tiles, m.blank, m.size, p).unwrap().0 != m.goal,
    decreases p.len(),
{
    if p.len() == 0 {
        assert(replay(m.tiles, m.blank, m.size, p) == Some((m.tiles, m.blank)));
        assert(q[0].tiles@ == m.tiles && q[0].path@.len() <= 0);
        assert(entry_within(q, m.tiles, 0));
    } else {
        let prefix = p.drop_last();
        let d = p.last();
        lemma_replay_last(m.tiles, m.blank, m.size, p);
        let g1 = replay(m.tiles, m.blank, m.size, prefix).unwrap();
        lemma_exhausted_no_short_solution(q, m, prefix);
        let j = choose|j: int|
            0 <= j < q.len() && (#[trigger] q[j]).tiles@ == g1.0 && q[j].path@.len()
                <= prefix.len();
        lemma_replay_grid_ok(m.tiles, m.blank, m.size, prefix);
        lemma_node_grid(q[j], m);
        lemma_blank_determined(g1.0, q[j].blank as int, g1.1, m.size);
        assert(q[j].path@.len() < MAX_DEPTH);
        assert(successor_recorded(q, m.size, j, d));
        assert(tiles_after(q[j].tiles@, q[j].blank as int, m.size, d) == replay(
            m.tiles,
            m.blank,
            m.size,
            p,
        ).unwrap().0);
        let s2 = replay(m.tiles, m.blank, m.size, p).unwrap().0;
        let j2 = choose|j2: int|
            0 <= j2 < q.len() && (#[trigger] q[j2]).tiles@ == s2 && q[j2].path@.len()
                <= q[j].path@.len() + 1;
        assert(entry_within(q, s2, p.len() as int));
        assert(q[j2].tiles@ != m.goal);
    }
}

/// A record among the old entries is still among the extended ones.
proof fn lemma_entry_within_stable(old_q: Seq<Node>, new_q: Seq<Node>, t: Seq<u8>, l: int)
    requires
        new_q.len() >= old_q.len(),
        forall|i: int| 0 <= i < old_q.len() ==> new_q[i] == old_q[i],
        entry_within(old_q, t, l),
    ensures
        entry_within(new_q, t, l),
{
    let j = choose|j: int|
        0 <= j < old_q.len() && (#[trigger] old_q[j]).tiles@ == t && old_q[j].path@.len() <= l;
    assert(new_q[j].tiles@ == t && new_q[j].path@.len() <= l);
}

/// Appending an entry keeps every expansion record.
proof fn lemma_records_stable(
    old_q: Seq<Node>,
    new_q: Seq<Node>,
    m: BoardModel,
    found_at: int,
    moves: Seq<Direction>,
    k: int,
)
    requires
        new_q.len() == old_q.len() + 1,
        forall|i: int| 0 <= i < old_q.len() ==> new_q[i] == old_q[i],
        expanded_below(old_q, m.size, found_at),
        0 <= found_at < old_q.len(),
        0 <= k <= moves.len(),
        forall|t: int|
            0 <= t < k ==> successor_recorded(old_q, m.size, found_at, #[trigger] moves[t]),
    ensures
        expanded_below(new_q, m.size, found_at),
        forall|t: int|
            0 <= t < k ==> successor_recorded(new_q, m.size, found_at, #[trigger] moves[t]),
{
    assert forall|i: int, d: Direction|
        0 <= i < found_at && new_q[i].path@.len() < MAX_DEPTH && move_ok(
            new_q[i].blank as int,
            m.size,
            d,
        ) implies #[trigger] successor_recorded(new_q, m.size, i, d) by {
        assert(successor_recorded(old_q, m.size, i, d));
        lemma_entry_within_stable(
            old_q,
            new_q,
            tiles_after(old_q[i].tiles@, old_q[i].blank as int, m.size, d),
            old_q[i].path@.len() as int + 1,
        );
    }
    assert forall|t: int| 0 <= t < k implies successor_recorded(
        new_q,
        m.size,
        found_at,
        #[trigger] moves[t],
    ) by {
        assert(successor_recorded(old_q, m.size, found_at, moves[t]));
        lemma_entry_within_stable(
            old_q,
            new_q,
            tiles_after(old_q[found_at].tiles@, old_q[found_at].blank as int, m.size, moves[t]),
            old_q[found_at].path@.len() as int + 1,
        );
    }
}

/// The breadth-first strategy around its initial board.
pub struct BFSSolver {
    initial_board: Board,
}

impl Solver for BFSSolver {
    closed spec fn board_model(&self) -> BoardModel {
        self.initial_board@
    }

    closed spec fn wf(&self) -> bool {
        self.initial_board.wf()
    }

    open spec fn length_bound(&self) -> Option<int> {
        Some(MAX_DEPTH as int)
    }

    /// Exploration in insertion order makes the first goal dequeued a
    /// shortest solution; `solve` carries the proof.
    open spec fn finds_minimal(&self) -> bool {
        true
    }

    /// Every state within the depth ceiling is dequeued and tested before
    /// the frontier can empty, so an absent result means no solution of
    /// at most the ceiling's length exists.
    open spec fn exhausts_within(&self) -> Option<int> {
        Some(MAX_DEPTH as int)
    }

    fn new(board: Board) -> (s: Self) {
        BFSSolver { initial_board: board }
    }

    fn new_with_goal(board: Board) -> (s: Self) {
        BFSSolver { initial_board: board }
    }

    fn solve(&self, optimal_length: Option<usize>) -> (r: Option<SolutionInfo>) {
        let board = &self.initial_board;
        let ghost m = board@;
        let size = board.get_size();
        let goal = board.get_goal_state();
        if board.is_goal() {
            return Some(SolutionInfo::new(Vec::new(), optimal_length));
        }
        let root = root_node(board);
        let mut visited: Vec<Vec<u8>> = Vec::new();
        visited.push(copy_tiles(&root.tiles));
        let mut queue: Vec<Node> = Vec::new();
        queue.push(root);
        proof {
            assert forall|t: Seq<u8>| #[trigger] in_visited(visited@, t) implies exists|i: int|
                0 <= i < queue@.len() && (#[trigger] queue@[i]).tiles@ == t by {
                assert(queue@[0].tiles@ == t);
            }
        }
        let mut head: usize = 0;
        // Each iteration either records one more state or only advances the
        // head, and no more distinct states exist than tile vectors of the
        // board's cell count: the search terminates by exhaustion.
        while head < queue.len()
            invariant
                self.board_model() == m,
                m.wf(),
                !m.is_goal(),
                size as int == m.size,
                goal@ == m.goal,
                head <= queue@.len(),
                queue@.len() > 0,
                head == 0 ==> queue@.len() == 1,
                queue@[0].tiles@ == m.tiles,
                queue@[0].path@.len() == 0,
                entries_ok(queue@, m),
                lengths_monotone(queue@),
                expanded_below(queue@, m.size, head as int),
                no_goal_below(queue@, m.goal, head as int),
                visited_recorded(visited@, queue@),
                visited@.len() == queue@.len(),
                forall|k: int| 0 <= k < visited@.len() ==> (#[trigger] visited@[k])@.len()
                    == m.tiles.len(),
                forall|k1: int, k2: int|
                    #![trigger visited@[k1], visited@[k2]]
                    0 <= k1 < k2 < visited@.len() ==> visited@[k1]@ != visited@[k2]@,
                head > 0 ==> forall|j: int|
                    0 <= j < queue@.len() ==> (#[trigger] queue@[j]).path@.len() <= queue@[head
                        - 1].path@.len() + 1,
            decreases pow256(m.tiles.len()) - visited@.len(), queue@.len() - head,
        {
            proof {
                lemma_collected_bounded(visited@, m.tiles.len());
            }
            let ghost recorded0 = visited@.len();
            let ghost found_at = head as int;
            let node = clone_node(&queue[head]);
            assert(node_ok(node, m) && node.tiles@ == queue@[found_at].tiles@ && node.blank
                == queue@[found_at].blank && node.path@.len() == queue@[found_at].path@.len());
            head += 1;
            if tiles_equal(&node.tiles, &goal) {
                proof {
                    assert forall|p: Seq<Direction>|
                        match #[trigger] replay(m.tiles, m.blank, m.size, p) {
                            Some(g) => g.0 == m.goal ==> p.len() >= node.path@.len(),
                            None => true,
                        } by {
                        if replay(m.tiles, m.blank, m.size, p) is Some {
                            if p.len() < node.path@.len() {
                                lemma_short_paths_are_recorded(queue@, m, found_at, p);
                            }
                        }
                    }
                    assert(no_shorter_solution(m, node.path@.len() as int));
                }
                return Some(SolutionInfo::new(node.path, optimal_length));
            }
            if node.path.len() >= MAX_DEPTH {
                continue;
            }
            proof {
                lemma_node_grid(node, m);
            }
            let moves = moves_from(node.blank, size);
            let mut k: usize = 0;
            while k < moves.len()
                invariant
                    self.board_model() == m,
                    m.wf(),
                    !m.is_goal(),
                    size as int == m.size,
                    goal@ == m.goal,
                    head == found_at + 1,
                    0 <= found_at < queue@.len(),
                    queue@[found_at].tiles@ == node.tiles@,
                    queue@[found_at].blank == node.blank,
                    queue@[found_at].path@.len() == node.path@.len(),
                    node_ok(node, m),
                    node.path@.len() < MAX_DEPTH,
                    node.tiles@ != m.goal,
                    queue@.len() > 0,
                    queue@[0].tiles@ == m.tiles,
                    queue@[0].path@.len() == 0,
                    entries_ok(queue@, m),
                    lengths_monotone(queue@),
                    expanded_below(queue@, m.size, found_at),
                    no_goal_below(queue@, m.goal, head as int),
                    visited_recorded(visited@, queue@),
                    visited@.len() == queue@.len(),
                    visited@.len() >= recorded0,
                    forall|k: int| 0 <= k < visited@.len() ==> (#[trigger] visited@[k])@.len()
                        == m.tiles.len(),
                    forall|k1: int, k2: int|
                        #![trigger visited@[k1], visited@[k2]]
                        0 <= k1 < k2 < visited@.len() ==> visited@[k1]@ != visited@[k2]@,
                    forall|j: int|
                        0 <= j < queue@.len() ==> (#[trigger] queue@[j]).path@.len()
                            <= node.path@.len() + 1,
                    k <= moves@.len(),
                    forall|t: int|
                        0 <= t < moves@.len() ==> move_ok(
                            node.blank as int,
                            size as int,
                            #[trigger] moves@[t],
                        ),
                    forall|d: Direction|
                        move_ok(node.blank as int, size as int, d) ==> moves@.contains(d),
                    forall|t: int|
                        0 <= t < k ==> successor_recorded(
                            queue@,
                            m.size,
                            found_at,
                            #[trigger] moves@[t],
                        ),
                decreases moves@.len() - k,
            {
                let d = moves[k];
                let ghost old_queue = queue@;
                let ghost old_visited = visited@;
                let child = make_child(&node, d, size, Ghost(m));
                if !contains_tiles(&visited, &child.tiles) {
                    proof {
                        lemma_node_grid(child, m);
                        assert forall|k: int| 0 <= k < visited@.len() implies (
                        #[trigger] visited@[k])@ != child.tiles@ by {
                            if visited@[k]@ == child.tiles@ {
                                assert(in_visited(visited@, child.tiles@));
                            }
                        }
                    }
                    visited.push(copy_tiles(&child.tiles));
                    queue.push(child);
                    proof {
                        assert(queue@[queue@.len() - 1].tiles@ == child.tiles@);
                        lemma_records_stable(old_queue, queue@, m, found_at, moves@, k as int);
                        assert forall|t: Seq<u8>| #[trigger] in_visited(visited@, t)
                            implies exists|i: int|
                            0 <= i < queue@.len() && (#[trigger] queue@[i]).tiles@ == t by {
                            let w = choose|w: int|
                                0 <= w < visited@.len() && (#[trigger] visited@[w])@ == t;
                            if w < old_visited.len() {
                                assert(in_visited(old_visited, t));
                                let i = choose|i: int|
                                    0 <= i < old_queue.len() && (#[trigger] old_queue[i]).tiles@
                                        == t;
                                assert(queue@[i].tiles@ == t);
                            } else {
                                assert(queue@[queue@.len() - 1].tiles@ == t);
                            }
                        }
                        assert(successor_recorded(queue@, m.size, found_at, d)) by {
                            let last = queue@.len() - 1;
                            assert(queue@[last].tiles@ == tiles_after(
                                queue@[found_at].tiles@,
                                queue@[found_at].blank as int,
                                m.size,
                                d,
                            ));
                            assert(queue@[last].path@.len() <= queue@[found_at].path@.len() + 1);
                        }
                    }
                } else {
                    proof {
                        assert(in_visited(visited@, child.tiles@));
                        let i = choose|i: int|
                            0 <= i < queue@.len() && (#[trigger] queue@[i]).tiles@
                                == child.tiles@;
                        assert(queue@[i].path@.len() <= node.path@.len() + 1);
                        assert(successor_recorded(queue@, m.size, found_at, d));
                    }
                }
                k += 1;
            }
            proof {
                assert forall|i: int, d: Direction|
                    0 <= i < head && queue@[i].path@.len() < MAX_DEPTH && move_ok(
                        queue@[i].blank as int,
                        m.size,
                        d,
                    ) implies #[trigger] successor_recorded(queue@, m.size, i, d) by {
                    if i == found_at {
                        assert(moves@.contains(d));
                        let t = choose|t: int| 0 <= t < moves@.len() && moves@[t] == d;
                        assert(successor_recorded(queue@, m.size, found_at, moves@[t]));
                    }
                }
                lemma_collected_bounded(visited@, m.tiles.len());
            }
        }
        proof {
            assert forall|p: Seq<Direction>|
                match #[trigger] replay(m.tiles, m.blank, m.size, p) {
                    Some(g) => p.len() <= MAX_DEPTH ==> g.0 != m.goal,
                    None => true,
                } by {
                if replay(m.tiles, m.blank, m.size, p) is Some {
                    if p.len() <= MAX_DEPTH {
                        lemma_exhausted_no_short_solution(queue@, m, p);
                    }
                }
            }
            assert(no_solution_within(m, Some(MAX_DEPTH as int)));
        }
        None
    }
}

} // verus!
