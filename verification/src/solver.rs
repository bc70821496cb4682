//! The search for a solution: depth-first, with an explicit stack and a
//! time limit.

use std::time::{Duration, Instant};
use vstd::prelude::*;
use crate::board::{all_empty, step_views, Board, Step};
use crate::element::{Cell, Element};
use crate::rules::{
    lemma_valid_move_occupied, lemma_valid_moves_len, valid_composition, valid_moves, MAX_MOVES,
};
use crate::solution::{
    clear, lemma_composition_tile_count, lemma_dead_end, lemma_empty_tile_count,
    lemma_move_tile_count, lemma_replay_push, replay, solvable, solves, tile_count,
};

verus! {

/// A moment on the monotonic clock. Nothing is known of its value.
#[verifier::external_type_specification]
#[verifier::external_body]
pub struct ExInstant(std::time::Instant);

/// Reads the monotonic clock, by `Instant::now`. Nothing is claimed of the
/// moment that it returns.
#[verifier::external_body]
fn now() -> (moment: Instant) {
    Instant::now()
}

/// The time that has passed since `start`, by `Instant::elapsed`. Nothing is
/// claimed of its length.
#[verifier::external_body]
fn elapsed(start: &Instant) -> (span: Duration) {
    start.elapsed()
}

/// The length of a span of time in nanoseconds, by `Duration::as_nanos`.
/// Nothing is claimed of the number.
#[verifier::external_body]
fn nanoseconds(span: &Duration) -> (length: u128) {
    span.as_nanos()
}

/// Whether a search that has taken `spent` nanoseconds has used up its limit
/// of `limit` nanoseconds: it has once it took longer.
pub fn out_of_time(spent: u128, limit: u128) -> (over: bool)
    ensures
        over == (spent > limit),
{
    spent > limit
}

/// A board with the canonical composition: the start of a game. It is made
/// only by `InitialBoard::new`, which checks the composition, and never
/// changes.
#[derive(Clone, Copy, Debug, PartialEq, Eq)]
pub struct InitialBoard(Board);

impl View for InitialBoard {
    type V = Seq<Cell>;

    /// The cells of the board.
    closed spec fn view(&self) -> Seq<Cell> {
        self.0@
    }
}

/// How a search ended.
pub enum SolveResult {
    /// No ordering of legal moves empties the board.
    Unsolvable,
    /// The time ran out before the search ended.
    Timeout,
    /// The moves that empty the board, in order.
    Solution(Vec<Step>),
}

/// The work that a level of the search may still take, at most, where its
/// position holds `tiles` tiles: one step to leave the level, and for each
/// of its moves one step to make it and the work of the level below.
spec fn level_cost(tiles: nat) -> nat
    decreases tiles,
{
    if tiles == 0 {
        1
    } else {
        (1 + MAX_MOVES * (1 + level_cost((tiles - 1) as nat))) as nat
    }
}

/// The work that a level may still take with `left` untried moves.
spec fn level_term(left: nat, tiles: nat) -> nat {
    (1 + left * (1 + level_cost((tiles - 1) as nat))) as nat
}

/// The sum of `terms`.
spec fn total(terms: Seq<nat>) -> nat
    decreases terms.len(),
{
    if terms.len() == 0 {
        0
    } else {
        (total(terms.drop_last()) + terms.last()) as nat
    }
}

/// The work that each level of a state may still take.
spec fn level_terms(untried: Seq<Seq<(int, int)>>, boards: Seq<Seq<Cell>>) -> Seq<nat> {
    Seq::new(untried.len(), |i: int| level_term(untried[i].len(), tile_count(boards[i])))
}

/// A level with more tiles may take more work.
proof fn lemma_level_cost_monotone(a: nat, b: nat)
    requires
        a <= b,
    ensures
        level_cost(a) <= level_cost(b),
    decreases b,
{
    if a < b {
        lemma_level_cost_monotone(a, (b - 1) as nat);
        let x = level_cost((b - 1) as nat) as int;
        assert(MAX_MOVES * (1 + x) >= x) by (nonlinear_arith)
            requires
                x >= 0,
                MAX_MOVES == 62000,
        ;
    }
}

/// A fresh level below a position costs less than one move of that position
/// was worth.
proof fn lemma_new_level_term(left: nat, tiles: nat, above: nat)
    requires
        left <= MAX_MOVES,
        1 <= tiles < above,
    ensures
        level_term(left, tiles) <= level_cost((above - 1) as nat),
{
    let x = level_cost((tiles - 1) as nat) as int;
    assert(left * (1 + x) <= MAX_MOVES * (1 + x)) by (nonlinear_arith)
        requires
            0 <= left <= MAX_MOVES,
            x >= 0,
    ;
    assert(level_cost(tiles) == 1 + MAX_MOVES * (1 + x));
    lemma_level_cost_monotone(tiles, (above - 1) as nat);
}

/// What the search knows of level `i`: the position there, the moves of it
/// that are still untried, the move that was made from it, and that every
/// move tried and taken back leads to a position without a solution.
spec fn level_ok(
    root: Seq<Cell>,
    untried: Seq<Seq<(int, int)>>,
    path: Seq<(int, int)>,
    boards: Seq<Seq<Cell>>,
    i: int,
) -> bool {
    let full = valid_moves(boards[i]);
    let left = untried[i].len() as int;
    &&& boards[i].len() == 91
    &&& !all_empty(boards[i])
    &&& boards[i] == replay(root, path.take(i))
    &&& forall|k: int| 0 <= k < 91 ==> (#[trigger] boards[i][k]) is None || boards[i][k] == root[k]
    &&& left <= full.len()
    &&& untried[i] == full.take(left)
    &&& i < path.len() ==> left < full.len() && path[i] == full[left] && boards[i + 1] == clear(
        boards[i],
        path[i],
    )
    &&& forall|j: int|
        (if i < path.len() {
            left < j
        } else {
            left <= j
        }) && j < full.len() ==> !solvable(clear(boards[i], #[trigger] full[j]))
}

/// Whether the untried moves, the path and the positions on the way make up
/// a state that a search from `root` can be in.
#[verifier::opaque]
spec fn state_ok(
    root: Seq<Cell>,
    untried: Seq<Seq<(int, int)>>,
    path: Seq<(int, int)>,
    boards: Seq<Seq<Cell>>,
    position: Seq<Cell>,
) -> bool {
    &&& boards.len() == untried.len()
    &&& root.len() == 91
    &&& if untried.len() == 0 {
        path.len() == 0 && !solvable(root)
    } else {
        &&& untried.len() == path.len() + 1
        &&& boards[0] == root
        &&& position == boards.last()
        &&& forall|i: int| 0 <= i < untried.len() ==> level_ok(root, untried, path, boards, i)
    }
}

/// The work that is left in a state: the sum over its levels.
spec fn work(untried: Seq<Seq<(int, int)>>, boards: Seq<Seq<Cell>>) -> nat {
    total(level_terms(untried, boards))
}

/// The moves made so far, followed by `m`, solve the root position where
/// `m` empties the current one.
proof fn lemma_path_solves(
    root: Seq<Cell>,
    untried: Seq<Seq<(int, int)>>,
    path: Seq<(int, int)>,
    boards: Seq<Seq<Cell>>,
    m: (int, int),
    i: int,
)
    requires
        boards.len() == path.len() + 1,
        untried.len() == boards.len(),
        forall|k: int| 0 <= k < boards.len() ==> level_ok(root, untried, path, boards, k),
        valid_moves(boards.last()).contains(m),
        all_empty(clear(boards.last(), m)),
        0 <= i <= path.len(),
    ensures
        solves(boards[i], path.push(m).skip(i)),
    decreases path.len() - i,
{
    let rest = path.push(m).skip(i);
    if i == path.len() {
        assert(rest[0] == m);
        assert(rest.skip(1) =~= Seq::<(int, int)>::empty());
        assert(solves(clear(boards[i], m), rest.skip(1)));
    } else {
        lemma_path_solves(root, untried, path, boards, m, i + 1);
        assert(level_ok(root, untried, path, boards, i));
        assert(rest[0] == path[i]);
        assert(rest.skip(1) =~= path.push(m).skip(i + 1));
    }
}

/// The shape of a state, and what holds of the position reached.
proof fn lemma_state_shape(
    root: Seq<Cell>,
    untried: Seq<Seq<(int, int)>>,
    path: Seq<(int, int)>,
    boards: Seq<Seq<Cell>>,
    position: Seq<Cell>,
)
    requires
        state_ok(root, untried, path, boards, position),
    ensures
        boards.len() == untried.len(),
        root.len() == 91,
        untried.len() == 0 ==> path.len() == 0 && !solvable(root),
        untried.len() > 0 ==> {
            &&& untried.len() == path.len() + 1
            &&& position == boards.last()
            &&& position == replay(root, path)
            &&& position.len() == 91
            &&& !all_empty(position)
            &&& untried.last().len() <= valid_moves(position).len()
            &&& untried.last() == valid_moves(position).take(untried.last().len() as int)
        },
{
    reveal(state_ok);
    if untried.len() > 0 {
        let d = path.len() as int;
        assert(level_ok(root, untried, path, boards, d));
        assert(path.take(d) =~= path);
    }
}

/// The state at the start of a search.
proof fn lemma_start_state(root: Seq<Cell>)
    requires
        root.len() == 91,
        !all_empty(root),
    ensures
        state_ok(
            root,
            seq![valid_moves(root)],
            Seq::<(int, int)>::empty(),
            seq![root],
            root,
        ),
{
    reveal(state_ok);
    let full = valid_moves(root);
    let untried = seq![full];
    let path = Seq::<(int, int)>::empty();
    let boards = seq![root];
    assert(path.take(0) =~= path);
    assert(full.take(full.len() as int) =~= full);
    assert(level_ok(root, untried, path, boards, 0));
}

/// Leaving the deepest level, whose moves are used up: the position there
/// has no solution; the state without that level and without the move that
/// led there is a state of the search, with less work left; and the
/// position above is recovered by putting the tiles of that move back.
proof fn lemma_backtrack_state(
    root: Seq<Cell>,
    untried: Seq<Seq<(int, int)>>,
    path: Seq<(int, int)>,
    boards: Seq<Seq<Cell>>,
)
    requires
        untried.len() > 0,
        boards.len() == untried.len(),
        state_ok(root, untried, path, boards, boards.last()),
        untried.last().len() == 0,
    ensures
        path.len() == 0 ==> state_ok(
            root,
            untried.drop_last(),
            path,
            boards.drop_last(),
            boards.last(),
        ),
        path.len() > 0 ==> {
            let m = path.last();
            let above = boards[boards.len() - 2];
            &&& 0 <= m.0 < 91
            &&& 0 <= m.1 < 91
            &&& above == boards.last().update(m.0, root[m.0]).update(m.1, root[m.1])
            &&& state_ok(root, untried.drop_last(), path.drop_last(), boards.drop_last(), above)
        },
        work(untried.drop_last(), boards.drop_last()) < work(untried, boards),
{
    reveal(state_ok);
    let d = path.len() as int;
    assert(level_ok(root, untried, path, boards, d));
    lemma_dead_end(boards[d]);
    let terms = level_terms(untried, boards);
    assert(level_terms(untried.drop_last(), boards.drop_last()) =~= terms.drop_last());
    assert(terms.last() >= 1);
    if d > 0 {
        let m = path.last();
        let above = boards[d - 1];
        assert(level_ok(root, untried, path, boards, d - 1));
        assert(valid_moves(above).contains(m));
        lemma_valid_move_occupied(above, m.0, m.1);
        assert(above =~= boards.last().update(m.0, root[m.0]).update(m.1, root[m.1]));
        let shorter = path.drop_last();
        assert forall|i: int| 0 <= i < d implies level_ok(
            root,
            untried.drop_last(),
            shorter,
            boards.drop_last(),
            i,
        ) by {
            assert(level_ok(root, untried, path, boards, i));
            assert(shorter.take(i) =~= path.take(i));
        }
    }
}

/// Making the last untried move of the deepest position: the move is legal
/// there. Where it empties the board, the path with that move solves the
/// root position. Else the state with the move made and a new level, all
/// moves of the new position untried, is a state of the search, with less
/// work left.
proof fn lemma_deepen_state(
    root: Seq<Cell>,
    untried: Seq<Seq<(int, int)>>,
    path: Seq<(int, int)>,
    boards: Seq<Seq<Cell>>,
)
    requires
        untried.len() > 0,
        boards.len() == untried.len(),
        state_ok(root, untried, path, boards, boards.last()),
        untried.last().len() > 0,
    ensures
        ({
            let m = untried.last().last();
            let reached = clear(boards.last(), m);
            let deeper = untried.drop_last().push(untried.last().drop_last()).push(
                valid_moves(reached),
            );
            &&& 0 <= m.0 < 91
            &&& 0 <= m.1 < 91
            &&& valid_moves(boards.last()).contains(m)
            &&& reached.len() == 91
            &&& all_empty(reached) ==> solves(root, path.push(m))
            &&& !all_empty(reached) ==> state_ok(
                root,
                deeper,
                path.push(m),
                boards.push(reached),
                reached,
            ) && work(deeper, boards.push(reached)) < work(untried, boards)
        }),
{
    reveal(state_ok);
    let d = path.len() as int;
    let m = untried.last().last();
    let here = boards[d];
    let full = valid_moves(here);
    let left = untried[d].len() as int;
    let reached = clear(here, m);
    assert(level_ok(root, untried, path, boards, d));
    assert(m == full.take(left)[left - 1]);
    assert(m == full[left - 1]);
    assert(full.contains(m));
    lemma_valid_move_occupied(here, m.0, m.1);
    lemma_move_tile_count(here, m);
    assert(path.take(d) =~= path);
    if all_empty(reached) {
        lemma_path_solves(root, untried, path, boards, m, 0);
        assert(path.push(m).skip(0) =~= path.push(m));
    } else {
        let next = valid_moves(reached);
        let deeper = untried.drop_last().push(untried.last().drop_last()).push(next);
        let longer = path.push(m);
        let levels = boards.push(reached);
        lemma_replay_push(root, path, m);
        lemma_valid_moves_len(reached);
        assert forall|i: int| 0 <= i < deeper.len() implies level_ok(
            root,
            deeper,
            longer,
            levels,
            i,
        ) by {
            if i < d {
                assert(level_ok(root, untried, path, boards, i));
                assert(longer.take(i) =~= path.take(i));
            } else if i == d {
                assert(longer.take(i) =~= path.take(i));
                assert(deeper[d] =~= full.take(left - 1));
            } else {
                assert(longer.take(i) =~= longer);
                assert(next.take(next.len() as int) =~= next);
            }
        }
        let terms = level_terms(untried, boards);
        let terms_after = level_terms(deeper, levels);
        let cost = level_cost((tile_count(here) - 1) as nat);
        assert(terms_after.drop_last().drop_last() =~= terms.drop_last());
        assert(terms_after.drop_last().last() == level_term((left - 1) as nat, tile_count(here)));
        assert(terms.last() == level_term(left as nat, tile_count(here)));
        assert(terms_after.last() == level_term(next.len(), tile_count(reached)));
        lemma_empty_tile_count(reached);
        lemma_new_level_term(next.len(), tile_count(reached), tile_count(here));
        assert(left * (1 + cost) == (left - 1) * (1 + cost) + (1 + cost)) by (nonlinear_arith);
        let middle = terms_after.drop_last();
        assert(total(terms) == total(terms.drop_last()) + terms.last());
        assert(total(terms_after) == total(middle) + terms_after.last());
        assert(total(middle) == total(middle.drop_last()) + middle.last());
    }
}

/// A search in progress: the position reached, the moves that led to it,
/// and for each position on the way the moves of it that are still untried.
pub struct Search {
    start: Board,
    board: Board,
    frontiers: Vec<Vec<Step>>,
    path: Vec<Step>,
    boards: Ghost<Seq<Seq<Cell>>>,
}

/// What one step of the search did.
pub enum Progress {
    /// A move was made and the search entered the next depth.
    Deepened(Search),
    /// The moves of the deepest position were used up: the search left that
    /// depth and took the last move back.
    Backtracked(Search),
    /// The search ended.
    Finished(SolveResult),
}

impl Search {
    /// The position that the search started from.
    pub closed spec fn root(self) -> Seq<Cell> {
        self.start@
    }

    /// The position that the search has reached.
    pub closed spec fn position(self) -> Seq<Cell> {
        self.board@
    }

    /// The moves that lead from the root to the position reached.
    pub closed spec fn path(self) -> Seq<(int, int)> {
        step_views(self.path@)
    }

    /// For each depth, the moves of the position there that are still
    /// untried; the last of them is tried next. Empty once the search space
    /// is used up.
    pub closed spec fn untried(self) -> Seq<Seq<(int, int)>> {
        Seq::new(self.frontiers@.len(), |i: int| step_views(self.frontiers@[i]@))
    }

    /// A bound on the number of steps that the search can still take.
    pub closed spec fn remaining_work(self) -> nat {
        work(self.untried(), self.boards@)
    }

    /// Every state is one that a search from the root position can be in.
    #[verifier::type_invariant]
    pub closed spec fn wf(self) -> bool {
        state_ok(self.root(), self.untried(), self.path(), self.boards@, self.position())
    }

    /// While the search space is not used up, the position reached is the
    /// root position after the moves of the path, it holds a tile, and the
    /// untried moves of the deepest level are the first of its legal moves.
    pub proof fn lemma_position(self)
        requires
            self.wf(),
            self.untried().len() > 0,
        ensures
            self.untried().len() == self.path().len() + 1,
            self.position() == replay(self.root(), self.path()),
            !all_empty(self.position()),
            self.untried().last() == valid_moves(self.position()).take(
                self.untried().last().len() as int,
            ),
    {
        lemma_state_shape(self.root(), self.untried(), self.path(), self.boards@, self.position());
    }

    /// The search at its start: at the root position, with all its legal
    /// moves untried.
    pub fn new(initial: InitialBoard) -> (search: Search)
        ensures
            search.wf(),
            search.root() == initial@,
            search.position() == initial@,
            search.path() == Seq::<(int, int)>::empty(),
            search.untried() == seq![valid_moves(initial@)],
    {
        let board: Board = initial.board();
        let moves: Vec<Step> = board.valid_steps();
        let mut frontiers: Vec<Vec<Step>> = Vec::new();
        frontiers.push(moves);
        let boards: Ghost<Seq<Seq<Cell>>> = Ghost(Seq::empty().push(board@));
        let path: Vec<Step> = Vec::new();
        proof {
            let search = Search { start: board, board, frontiers, path, boards };
            board.lemma_cell_count();
            lemma_composition_tile_count(board@);
            lemma_start_state(board@);
            assert(search.untried() =~= seq![valid_moves(board@)]);
            assert(search.path() =~= Seq::<(int, int)>::empty());
            assert(search.boards@ =~= seq![board@]);
        }
        Search { start: board, board, frontiers, path, boards }
    }

    /// One step of the search.
    ///
    /// - Where no depth is left, the search space is used up: the search
    ///   ends, and the root position has no solution.
    /// - Where the deepest position has no untried move left, the search
    ///   leaves that depth and takes back the move that led there.
    /// - Else it makes the last untried move of the deepest position. Where
    ///   that empties the board, the search ends with the moves made; else
    ///   it enters the next depth, with all legal moves of the new position
    ///   untried.
    pub fn advance(self) -> (next: Progress)
        ensures
            match next {
                Progress::Finished(SolveResult::Unsolvable) => {
                    &&& self.untried().len() == 0
                    &&& !solvable(self.root())
                },
                Progress::Finished(SolveResult::Timeout) => false,
                Progress::Finished(SolveResult::Solution(steps)) => {
                    &&& self.untried().len() > 0
                    &&& self.untried().last().len() > 0
                    &&& all_empty(clear(self.position(), self.untried().last().last()))
                    &&& step_views(steps@) == self.path().push(self.untried().last().last())
                    &&& solves(self.root(), step_views(steps@))
                },
                Progress::Backtracked(after) => {
                    &&& self.untried().len() > 0
                    &&& self.untried().last().len() == 0
                    &&& after.wf()
                    &&& after.root() == self.root()
                    &&& after.untried() == self.untried().drop_last()
                    &&& after.path() == if self.path().len() > 0 {
                        self.path().drop_last()
                    } else {
                        self.path()
                    }
                    &&& after.remaining_work() < self.remaining_work()
                },
                Progress::Deepened(after) => {
                    &&& self.untried().len() > 0
                    &&& self.untried().last().len() > 0
                    &&& after.wf()
                    &&& after.root() == self.root()
                    &&& after.path() == self.path().push(self.untried().last().last())
                    &&& after.position() == clear(self.position(), self.untried().last().last())
                    &&& !all_empty(after.position())
                    &&& after.untried() == self.untried().drop_last().push(
                        self.untried().last().drop_last(),
                    ).push(valid_moves(after.position()))
                    &&& after.remaining_work() < self.remaining_work()
                },
            },
    {
        let ghost root = self.root();
        let ghost untried = self.untried();
        let ghost moves = self.path();
        let ghost levels = self.boards@;
        proof {
            use_type_invariant(&self);
            lemma_state_shape(root, untried, moves, levels, self.position());
        }
        let Search { start, board, frontiers, path, boards } = self;
        let mut board: Board = board;
        let mut frontiers: Vec<Vec<Step>> = frontiers;
        let mut path: Vec<Step> = path;
        let top: Option<Vec<Step>> = frontiers.pop();
        match top {
            None => Progress::Finished(SolveResult::Unsolvable),
            Some(top) => {
                let mut top: Vec<Step> = top;
                proof {
                    assert(step_views(top@) == untried.last());
                }
                let candidate: Option<Step> = top.pop();
                match candidate {
                    None => {
                        proof {
                            lemma_backtrack_state(root, untried, moves, levels);
                        }
                        let undone: Option<Step> = path.pop();
                        if let Some(step) = undone {
                            proof {
                                assert(step@ == moves.last());
                            }
                            let first: Option<Element> = start.get(step.0[0]);
                            board.set(step.0[0], first);
                            let second: Option<Element> = start.get(step.0[1]);
                            board.set(step.0[1], second);
                        }
                        let boards: Ghost<Seq<Seq<Cell>>> = Ghost(levels.drop_last());
                        proof {
                            let after = Search { start, board, frontiers, path, boards };
                            assert(after.untried() =~= untried.drop_last());
                            assert(after.path() =~= if moves.len() > 0 {
                                moves.drop_last()
                            } else {
                                moves
                            });
                        }
                        Progress::Backtracked(Search { start, board, frontiers, path, boards })
                    },
                    Some(step) => {
                        let ghost m = step@;
                        let ghost shorter = step_views(top@);
                        proof {
                            assert(m == untried.last().last());
                            assert(shorter =~= untried.last().drop_last());
                            lemma_deepen_state(root, untried, moves, levels);
                        }
                        frontiers.push(top);
                        path.push(step);
                        board.set(step.0[0], None);
                        board.set(step.0[1], None);
                        proof {
                            assert(step_views(path@) =~= moves.push(m));
                        }
                        if board.is_solved() {
                            Progress::Finished(SolveResult::Solution(path))
                        } else {
                            let ghost reached = board@;
                            let fresh: Vec<Step> = board.valid_steps();
                            frontiers.push(fresh);
                            let boards: Ghost<Seq<Seq<Cell>>> = Ghost(levels.push(reached));
                            proof {
                                let after = Search { start, board, frontiers, path, boards };
                                assert(after.untried() =~= untried.drop_last().push(
                                    untried.last().drop_last(),
                                ).push(valid_moves(reached)));
                            }
                            Progress::Deepened(Search { start, board, frontiers, path, boards })
                        }
                    },
                }
            },
        }
    }
}

impl Search {
    /// Runs the search to its end, however long that takes: to the first
    /// solution that it comes to, or until the search space is used up. A
    /// solution is found if and only if the root position has one.
    pub fn run_to_end(self) -> (result: SolveResult)
        ensures
            match result {
                SolveResult::Solution(steps) => solves(self.root(), step_views(steps@)),
                SolveResult::Unsolvable => !solvable(self.root()),
                SolveResult::Timeout => false,
            },
            result is Solution <==> solvable(self.root()),
    {
        let ghost root = self.root();
        let mut search: Search = self;
        loop
            invariant
                search.root() == root,
                root == self.root(),
            decreases search.remaining_work(),
        {
            match search.advance() {
                Progress::Finished(result) => {
                    proof {
                        if result is Solution {
                            assert(solves(root, step_views(result->Solution_0@)));
                        }
                    }
                    return result;
                },
                Progress::Backtracked(after) => {
                    search = after;
                },
                Progress::Deepened(after) => {
                    search = after;
                },
            }
        }
    }
}

impl InitialBoard {
    /// Every initial board has the canonical composition.
    #[verifier::type_invariant]
    pub open spec fn wf(self) -> bool {
        valid_composition(self@)
    }

    /// Accepts `board` as the start of a game if it has the canonical
    /// composition.
    pub fn new(board: Board) -> (initial: Option<InitialBoard>)
        ensures
            initial is Some <==> valid_composition(board@),
            initial matches Some(accepted) ==> accepted@ == board@ && accepted.wf(),
    {
        if board.is_valid_initial_state() {
            Some(InitialBoard(board))
        } else {
            None
        }
    }

    /// Whether the two boards hold the same tiles in the same cells.
    pub fn same_cells(self, other: InitialBoard) -> (same: bool)
        ensures
            same == (self@ == other@),
    {
        self.0.same_cells(other.0)
    }

    /// The board that was accepted.
    pub fn board(self) -> (board: Board)
        ensures
            board@ == self@,
            valid_composition(board@),
    {
        proof {
            use_type_invariant(&self);
        }
        self.0
    }

    /// Searches for an ordering of legal moves that empties the board, for
    /// as long as `timeout` allows.
    ///
    /// A solution that is returned does solve the board, and the board is
    /// reported as unsolvable only where no solution exists. The clock is
    /// read each time the search enters a new depth; the search gives up
    /// with `Timeout` once more time than `timeout` has passed. A board
    /// without a legal move is reported as unsolvable whatever the clock
    /// says.
    pub fn solve(self, timeout: Duration) -> (result: SolveResult)
        ensures
            match result {
                SolveResult::Solution(steps) => solves(self@, step_views(steps@)),
                SolveResult::Unsolvable => !solvable(self@),
                SolveResult::Timeout => valid_moves(self@).len() > 0,
            },
            valid_moves(self@).len() == 0 ==> result is Unsolvable,
    {
        let limit: u128 = nanoseconds(&timeout);
        let start: Instant = now();
        let mut search: Search = Search::new(self);
        loop
            invariant
                search.root() == self@,
                valid_moves(self@).len() == 0 ==> search.untried().len() == 0 || search.untried()
                    == seq![valid_moves(self@)],
            decreases search.remaining_work(),
        {
            match search.advance() {
                Progress::Finished(result) => {
                    return result;
                },
                Progress::Backtracked(after) => {
                    search = after;
                },
                Progress::Deepened(after) => {
                    search = after;
                    let spent: Duration = elapsed(&start);
                    if out_of_time(nanoseconds(&spent), limit) {
                        return SolveResult::Timeout;
                    }
                },
            }
        }
    }
}

} // verus!
