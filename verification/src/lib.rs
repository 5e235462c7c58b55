//! Sliding-tile puzzle (taquin) solving library.
//!
//! A board is a square grid of numbered tiles with one blank cell; a move
//! slides the blank one cell up, down, left or right.  Three interchangeable
//! strategies search for a move sequence that turns a board into its goal
//! arrangement: breadth-first search, depth-bounded depth-first search, and
//! best-first search guided by the Manhattan-distance heuristic.
//!
//! Every solver's result is verified against `model::replay`: a returned
//! move sequence, played from the solver's initial board, provably reaches
//! the goal arrangement.  The breadth-first and best-first strategies
//! moreover prove that no shorter move sequence reaches it.

use vstd::prelude::*;

pub mod a_star;
pub mod bfs;
pub mod board;
pub mod dfs;
pub mod model;
mod node;
pub mod text;
mod tiles;

pub use a_star::AStarSolver;
pub use bfs::BFSSolver;
pub use board::Board;
pub use board::BoardModel;
pub use board::Direction;
pub use dfs::DFSSolver;

use crate::model::replay;
use crate::text::{decimal, embeds, green_text, red_text, usize_to_string, yellow_text};

verus! {

/// How a found move sequence compares with a known-optimal length.
#[derive(Clone, Copy, Debug, PartialEq, Eq, Structural)]
pub enum SolutionQuality {
    Optimal,
    Good,
    Poor,
}

/// The classification of a solution of `len` moves against an optionally
/// known optimal length: an exact match is optimal, at most five moves
/// over it is good, anything longer is poor.  When no optimal length is
/// supplied nothing can be held against the sequence, so no penalty
/// applies.
pub open spec fn quality_of(len: int, optimal_length: Option<usize>) -> SolutionQuality {
    match optimal_length {
        Some(o) => if len == o as int {
            SolutionQuality::Optimal
        } else if len <= o as int + 5 {
            SolutionQuality::Good
        } else {
            SolutionQuality::Poor
        },
        None => SolutionQuality::Optimal,
    }
}

/// The plain text of a quality label.
pub open spec fn quality_label(q: SolutionQuality) -> Seq<char> {
    match q {
        SolutionQuality::Optimal => "Optimal"@,
        SolutionQuality::Good => "Good"@,
        SolutionQuality::Poor => "Poor"@,
    }
}

impl SolutionQuality {
    /// The quality's label, coloured for a terminal: optimal green, good
    /// yellow, poor red.
    pub fn to_colored_string(&self) -> (r: String)
        ensures
            embeds(r@, quality_label(*self)),
    {
        proof {
            reveal_strlit("Optimal");
            reveal_strlit("Good");
            reveal_strlit("Poor");
        }
        match self {
            SolutionQuality::Optimal => green_text("Optimal"),
            SolutionQuality::Good => yellow_text("Good"),
            SolutionQuality::Poor => red_text("Poor"),
        }
    }
}

/// A found move sequence together with the optimal length it was graded
/// against and the resulting quality label.
#[derive(Clone, Debug)]
pub struct SolutionInfo {
    pub moves: Vec<Direction>,
    pub optimal_length: Option<usize>,
    pub quality: SolutionQuality,
}

impl SolutionInfo {
    /// Wraps a move sequence, grading it against the optionally known
    /// optimal length as `quality_of` states.
    pub fn new(moves: Vec<Direction>, optimal_length: Option<usize>) -> (r: SolutionInfo)
        ensures
            r.moves@ == moves@,
            r.optimal_length == optimal_length,
            r.quality == quality_of(moves@.len() as int, optimal_length),
    {
        let quality = match optimal_length {
            Some(optimal) => {
                let len = moves.len();
                if len == optimal {
                    SolutionQuality::Optimal
                } else if len <= optimal {
                    SolutionQuality::Good
                } else if len - optimal <= 5 {
                    SolutionQuality::Good
                } else {
                    SolutionQuality::Poor
                }
            },
            None => SolutionQuality::Optimal,
        };
        SolutionInfo { moves, optimal_length, quality }
    }

    /// A one-line human-readable summary of this solution.
    pub fn display_solution(&self) -> (r: String)
        ensures
            summary_shape(r@, self.quality, self.moves@.len() as int, self.optimal_length),
    {
        let quality_str = self.quality.to_colored_string();
        let ghost quality_text = quality_str@;
        let mut result = "Found ".to_owned();
        result.append(quality_str.as_str());
        result.append(" solution in ");
        let count = usize_to_string(self.moves.len());
        result.append(count.as_str());
        result.append(" moves");
        match self.optimal_length {
            Some(optimal) => {
                result.append(" (Optimal: ");
                let best = usize_to_string(optimal);
                result.append(best.as_str());
                result.append(")");
            },
            None => {},
        }
        proof {
            assert(result@ =~= summary_with(
                quality_text,
                self.moves@.len() as int,
                self.optimal_length,
            ));
        }
        result
    }
}

/// The summary line built around a (possibly coloured) quality text.
pub open spec fn summary_with(quality_text: Seq<char>, len: int, optimal: Option<usize>) -> Seq<
    char,
> {
    "Found "@ + quality_text + " solution in "@ + decimal(len) + " moves"@ + (match optimal {
        Some(o) => " (Optimal: "@ + decimal(o as int) + ")"@,
        None => Seq::<char>::empty(),
    })
}

/// The summary names the quality (around possible colour codes), the move
/// count in decimal, and the optimal length when one was supplied.
pub open spec fn summary_shape(
    r: Seq<char>,
    q: SolutionQuality,
    len: int,
    optimal: Option<usize>,
) -> bool {
    exists|quality_text: Seq<char>|
        embeds(quality_text, quality_label(q)) && r == #[trigger] summary_with(
            quality_text,
            len,
            optimal,
        )
}

/// What every solve operation promises.  A returned sequence, replayed
/// from the solver's board, reaches the goal arrangement; it is graded as
/// `quality_of` states; a board already at its goal yields an empty
/// sequence; and a strategy with a depth ceiling never returns a longer
/// sequence.  An absent result means the board was not already solved;
/// how much more an absent result says is the strategy's own
/// `Solver::exhausts_within` promise, stated beside this one.
pub open spec fn solve_post(
    m: BoardModel,
    bound: Option<int>,
    minimal: bool,
    optimal_length: Option<usize>,
    r: Option<SolutionInfo>,
) -> bool {
    match r {
        Some(info) => {
            &&& replay(m.tiles, m.blank, m.size, info.moves@) matches Some(g) && g.0 == m.goal
            &&& info.optimal_length == optimal_length
            &&& info.quality == quality_of(info.moves@.len() as int, optimal_length)
            &&& (m.is_goal() ==> info.moves@.len() == 0)
            &&& (bound matches Some(b) ==> info.moves@.len() <= b)
            &&& (minimal ==> no_shorter_solution(m, info.moves@.len() as int))
        },
        None => !m.is_goal(),
    }
}

/// No move sequence within the bound turns the board into its goal; an
/// absent bound bars sequences of every length.
pub open spec fn no_solution_within(m: BoardModel, bound: Option<int>) -> bool {
    forall|q: Seq<Direction>|
        match #[trigger] replay(m.tiles, m.blank, m.size, q) {
            Some(g) => (match bound {
                Some(b) => q.len() <= b,
                None => true,
            }) ==> g.0 != m.goal,
            None => true,
        }
}

/// No move sequence shorter than `len` turns the board into its goal.
pub open spec fn no_shorter_solution(m: BoardModel, len: int) -> bool {
    forall|q: Seq<Direction>|
        match #[trigger] replay(m.tiles, m.blank, m.size, q) {
            Some(g) => g.0 == m.goal ==> q.len() >= len,
            None => true,
        }
}

/// A solution from a strategy that promises minimality is never longer
/// than a solution any other strategy finds for the same board: the other
/// strategy's sequence also replays to the goal, and no sequence shorter
/// than the minimal one does.  In particular a breadth-first solution is
/// never longer than a depth-first one.
pub proof fn lemma_minimal_solution_shortest(
    m: BoardModel,
    shortest: SolutionInfo,
    other: SolutionInfo,
)
    requires
        no_shorter_solution(m, shortest.moves@.len() as int),
        replay(m.tiles, m.blank, m.size, other.moves@) matches Some(g) && g.0 == m.goal,
    ensures
        shortest.moves@.len() <= other.moves@.len(),
{
    assert(match replay(m.tiles, m.blank, m.size, other.moves@) {
        Some(g) => g.0 == m.goal ==> other.moves@.len() >= shortest.moves@.len(),
        None => true,
    });
}

/// Two strategies that both promise minimality find sequences of one and
/// the same length for the same board: each sequence replays to the goal,
/// and neither can be shorter than the other.  The best-first and the
/// breadth-first strategies both promise it, so their solutions always
/// agree in length.
pub proof fn lemma_minimal_solutions_equal(m: BoardModel, a: SolutionInfo, b: SolutionInfo)
    requires
        no_shorter_solution(m, a.moves@.len() as int),
        replay(m.tiles, m.blank, m.size, a.moves@) matches Some(g) && g.0 == m.goal,
        no_shorter_solution(m, b.moves@.len() as int),
        replay(m.tiles, m.blank, m.size, b.moves@) matches Some(g) && g.0 == m.goal,
    ensures
        a.moves@.len() == b.moves@.len(),
{
    lemma_minimal_solution_shortest(m, a, b);
    lemma_minimal_solution_shortest(m, b, a);
}

/// The capability common to all search strategies: construction from a
/// board, whose embedded goal is searched for, and a single solve
/// operation.  Both constructors exist because a caller may or may not
/// have attached an explicit goal to the board it hands over; the goal
/// always travels inside the board.
pub trait Solver: Sized {
    /// The board the solver was built from.
    spec fn board_model(&self) -> BoardModel;

    /// The solver holds a valid board.
    spec fn wf(&self) -> bool;

    /// The strategy's hard ceiling on returned path length, if it has one.
    spec fn length_bound(&self) -> Option<int>;

    /// Whether the strategy promises that a returned sequence is shortest
    /// possible.
    spec fn finds_minimal(&self) -> bool;

    /// How far the strategy's search is exhaustive: when `solve` returns
    /// nothing, no solution within this many moves exists (an absent
    /// bound bars solutions of every length).  The contrapositive is the
    /// strategy's success promise: a board solvable within the bound gets
    /// a solution.
    spec fn exhausts_within(&self) -> Option<int>;

    /// Builds the solver around a board; the board's embedded goal is
    /// what `solve` searches for.
    fn new(board: Board) -> (s: Self)
        requires
            board.wf(),
        ensures
            s.wf(),
            s.board_model() == board@,
    ;

    /// As `new`; the goal is the one already attached to the board.
    fn new_with_goal(board: Board) -> (s: Self)
        requires
            board.wf(),
        ensures
            s.wf(),
            s.board_model() == board@,
    ;

    /// Searches for a move sequence from the board to its goal; the
    /// optional known-optimal length only grades the result.
    fn solve(&self, optimal_length: Option<usize>) -> (r: Option<SolutionInfo>)
        requires
            self.wf(),
        ensures
            solve_post(
                self.board_model(),
                self.length_bound(),
                self.finds_minimal(),
                optimal_length,
                r,
            ),
            r is None ==> no_solution_within(self.board_model(), self.exhausts_within()),
    ;
}

} // verus!
