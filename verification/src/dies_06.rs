//! A deterministic grid-traversal simulator with heuristic loop detection.
//!
//! One agent (the guard) walks an immutable square obstruction grid: it
//! steps forward while the cell ahead is free, turns right when it is
//! blocked, and the run ends when the guard steps off the grid (`Exited`)
//! or is judged to be walking in circles (`Looped`).  The judgement is a
//! heuristic: a hard cap on committed moves and a small bound on how often
//! one (position, heading) state may be revisited.  Both constants are
//! empirically tuned and deliberately kept as they are, so that results
//! stay reproducible.

use vstd::prelude::*;
use vstd::string::StringSliceAdditionalSpecFns;

use crate::text::lines_model;
use crate::text::NL;
use crate::text::spec_lines;
use crate::text::split_lines;

use rayon::iter::IntoParallelRefIterator;
use rayon::iter::ParallelIterator;

verus! {

/// Hard cap on committed moves: once a run has moved more often than this,
/// it is classified as looping.  A safety valve, not a correctness proof.
pub const MOVE_CAP: usize = 6000;

/// A destination (position, heading) state seen more often than this is
/// taken as proof of a loop.
pub const REVISIT_LIMIT: usize = 2;

/// A compass heading; turning goes cyclically N -> E -> S -> W -> N.
#[derive(Clone, Copy, PartialEq, Eq, Structural, Debug)]
pub enum Dir {
    N,
    E,
    S,
    W,
}

impl Dir {
    /// The heading after one quarter-turn to the right.
    pub open spec fn spec_turn(self) -> Dir {
        match self {
            Dir::N => Dir::E,
            Dir::E => Dir::S,
            Dir::S => Dir::W,
            Dir::W => Dir::N,
        }
    }

    /// Rotate one quarter-turn to the right.
    pub fn turn(&self) -> (d: Dir)
        ensures
            d == self.spec_turn(),
    {
        match self {
            Dir::N => Dir::E,
            Dir::E => Dir::S,
            Dir::S => Dir::W,
            Dir::W => Dir::N,
        }
    }
}

/// Terminal classification of a run: both are successful results, never
/// errors, even though `Looped` rests on a heuristic.
#[derive(Clone, Copy, PartialEq, Eq, Structural, Debug)]
pub enum Outcome {
    Exited,
    Looped,
}

/// What the guard sees one step ahead in its current heading.
#[derive(Clone, Copy, PartialEq, Eq, Structural, Debug)]
pub enum Ahead {
    /// The cell ahead lies outside the grid.
    Exit,
    /// The cell ahead is blocked.
    Obstructed,
    /// The cell ahead is free, at this (row, col).
    Free(usize, usize),
}

/// The mathematical model of a guard: heading, position, the history of
/// visited (position, heading) states, and the count of committed moves.
pub ghost struct GuardState {
    pub dir: Dir,
    pub pos: (int, int),
    pub visits: Seq<((int, int), Dir)>,
    pub moves: nat,
}

/// The mathematical model of a grid value: its rows as sequences of cells.
pub open spec fn grid_model(g: &Vec<Vec<bool>>) -> Seq<Seq<bool>> {
    Seq::new(g@.len(), |i: int| g@[i]@)
}

/// A square grid: at least one row, and every row as long as there are rows.
pub open spec fn grid_wf(g: Seq<Seq<bool>>) -> bool {
    &&& g.len() > 0
    &&& forall|i: int| 0 <= i < g.len() ==> (#[trigger] g[i]).len() == g.len()
}

/// How often the state (position `p`, heading `d`) occurs in the visit
/// history `v`.
pub open spec fn occurrences(v: Seq<((int, int), Dir)>, p: (int, int), d: Dir) -> nat
    decreases v.len(),
{
    if v.len() == 0 {
        0
    } else {
        occurrences(v.drop_last(), p, d) + if v.last() == ((p, d)) {
            1nat
        } else {
            0nat
        }
    }
}

/// Row of the cell one step ahead.
pub open spec fn fwd_r(s: GuardState) -> int {
    match s.dir {
        Dir::N => s.pos.0 - 1,
        Dir::E => s.pos.0,
        Dir::S => s.pos.0 + 1,
        Dir::W => s.pos.0,
    }
}

/// Column of the cell one step ahead.
pub open spec fn fwd_k(s: GuardState) -> int {
    match s.dir {
        Dir::N => s.pos.1,
        Dir::E => s.pos.1 + 1,
        Dir::S => s.pos.1,
        Dir::W => s.pos.1 - 1,
    }
}

/// What lies one step ahead of the guard.
pub open spec fn spec_ahead(g: Seq<Seq<bool>>, s: GuardState) -> Ahead {
    let r = fwd_r(s);
    let k = fwd_k(s);
    if 0 <= r < g.len() && 0 <= k < g[0].len() {
        if g[r][k] {
            Ahead::Obstructed
        } else {
            Ahead::Free(r as usize, k as usize)
        }
    } else {
        Ahead::Exit
    }
}

/// The state after turning right once, in place.
pub open spec fn turned(s: GuardState) -> GuardState {
    GuardState { dir: s.dir.spec_turn(), ..s }
}

/// The state after committing a move to (r, k): the new (position, heading)
/// state is recorded and the move counter advances.
pub open spec fn moved(s: GuardState, r: int, k: int) -> GuardState {
    GuardState {
        pos: (r, k),
        visits: s.visits.push(((r, k), s.dir)),
        moves: s.moves + 1,
        ..s
    }
}

/// Upper bound on the remaining work of a run: every committed move costs
/// five, every in-place turn one, and at most three turns happen in a row.
pub open spec fn run_measure(s: GuardState, turns: nat) -> int {
    5 * (if s.moves <= MOVE_CAP + 1 {
        MOVE_CAP + 2 - s.moves
    } else {
        1int
    }) + (if turns <= 3 {
        3 - turns
    } else {
        0int
    })
}

/// One run of the guard state machine, to its terminal classification and
/// final state.  `turns` counts the quarter-turns taken since the last
/// committed move: after a full rotation without a move every side is
/// blocked, the guard can never move again, and the run is judged looping.
pub open spec fn spec_run(g: Seq<Seq<bool>>, s: GuardState, turns: nat) -> (Outcome, GuardState)
    decreases run_measure(s, turns),
{
    match spec_ahead(g, s) {
        Ahead::Exit => (Outcome::Exited, s),
        Ahead::Obstructed => if turns >= 3 {
            (Outcome::Looped, s)
        } else {
            spec_run(g, turned(s), turns + 1)
        },
        Ahead::Free(r, k) => if s.moves > MOVE_CAP {
            (Outcome::Looped, s)
        } else if occurrences(s.visits, (r as int, k as int), s.dir) > REVISIT_LIMIT {
            (Outcome::Looped, s)
        } else {
            spec_run(g, moved(s, r as int, k as int), 0)
        },
    }
}

/// The terminal classification of a run started with a fresh turn counter.
pub open spec fn spec_patrol(g: Seq<Seq<bool>>, s: GuardState) -> Outcome {
    spec_run(g, s, 0).0
}

/// The final guard state of such a run.
pub open spec fn spec_patrol_state(g: Seq<Seq<bool>>, s: GuardState) -> GuardState {
    spec_run(g, s, 0).1
}

/// The agent: heading, position, visit history and move counter.  Every
/// trial owns an independent copy; the history is mutated only by the
/// guard's own transition step.
pub struct Guard {
    pub dir: Dir,
    pub pos: (usize, usize),
    pub visits: Vec<((usize, usize), Dir)>,
    pub total_moves: usize,
}

impl View for Guard {
    type V = GuardState;

    open spec fn view(&self) -> GuardState {
        GuardState {
            dir: self.dir,
            pos: (self.pos.0 as int, self.pos.1 as int),
            visits: self.visits@.map(
                |i: int, e: ((usize, usize), Dir)| (((e.0).0 as int, (e.0).1 as int), e.1),
            ),
            moves: self.total_moves as nat,
        }
    }
}

/// The guard state at the start of a run: one recorded visit of the start
/// cell in the start heading, and no committed move yet.
pub open spec fn start_state(r: int, k: int, d: Dir) -> GuardState {
    GuardState { dir: d, pos: (r, k), visits: seq![((r, k), d)], moves: 0 }
}

impl Guard {
    /// The guard's position lies inside the grid.
    pub open spec fn in_bounds(self, g: Seq<Seq<bool>>) -> bool {
        &&& 0 <= self.pos.0 < g.len()
        &&& 0 <= self.pos.1 < g[0].len()
    }

    /// Rotate the guard's heading one quarter-turn to the right, in place.
    pub fn turn(&mut self)
        ensures
            final(self)@ == turned(old(self)@),
    {
        self.dir = self.dir.turn();
    }

    /// Commit a move to (r, k): record the visit and advance the counters.
    pub fn move_to(&mut self, r: usize, k: usize)
        requires
            old(self).total_moves < usize::MAX,
        ensures
            final(self)@ == moved(old(self)@, r as int, k as int),
    {
        self.visits.push(((r, k), self.dir));
        self.total_moves = self.total_moves + 1;
        self.pos = (r, k);
        proof {
            assert(final(self)@.visits =~= moved(old(self)@, r as int, k as int).visits);
        }
    }

    /// How often the state ((r, k), d) stands in the visit history.
    pub fn count_visits(&self, r: usize, k: usize, d: Dir) -> (c: usize)
        ensures
            c == occurrences(self@.visits, (r as int, k as int), d),
    {
        let mut c: usize = 0;
        let mut i: usize = 0;
        while i < self.visits.len()
            invariant
                i <= self.visits.len(),
                c <= i,
                c == occurrences(self@.visits.take(i as int), (r as int, k as int), d),
            decreases self.visits.len() - i,
        {
            let e = self.visits[i];
            proof {
                assert(self@.visits.take(i + 1).drop_last() =~= self@.visits.take(i as int));
                assert(self@.visits.take(i + 1).last() == (((e.0).0 as int, (e.0).1 as int), e.1));
            }
            if (e.0).0 == r && (e.0).1 == k && e.1 == d {
                c = c + 1;
            }
            i = i + 1;
        }
        proof {
            assert(self@.visits.take(self.visits.len() as int) =~= self@.visits);
        }
        c
    }

    /// Look one step ahead in the current heading.
    pub fn look(&self, grid: &Vec<Vec<bool>>) -> (a: Ahead)
        requires
            grid_wf(grid_model(grid)),
            self.in_bounds(grid_model(grid)),
        ensures
            a == spec_ahead(grid_model(grid), self@),
    {
        let rows = grid.len();
        let cols = grid[0].len();
        let r0 = self.pos.0;
        let k0 = self.pos.1;
        match self.dir {
            Dir::N => {
                if r0 == 0 {
                    Ahead::Exit
                } else if grid[r0 - 1][k0] {
                    Ahead::Obstructed
                } else {
                    Ahead::Free(r0 - 1, k0)
                }
            },
            Dir::E => {
                if k0 + 1 >= cols {
                    Ahead::Exit
                } else if grid[r0][k0 + 1] {
                    Ahead::Obstructed
                } else {
                    Ahead::Free(r0, k0 + 1)
                }
            },
            Dir::S => {
                if r0 + 1 >= rows {
                    Ahead::Exit
                } else if grid[r0 + 1][k0] {
                    Ahead::Obstructed
                } else {
                    Ahead::Free(r0 + 1, k0)
                }
            },
            Dir::W => {
                if k0 == 0 {
                    Ahead::Exit
                } else if grid[r0][k0 - 1] {
                    Ahead::Obstructed
                } else {
                    Ahead::Free(r0, k0 - 1)
                }
            },
        }
    }

    /// Run the state machine to completion: step while the cell ahead is
    /// free, turn right while it is blocked, and stop with `Exited` when
    /// the guard leaves the grid or with `Looped` when the heuristic fires
    /// (or when a full rotation finds every side blocked).
    #[verifier::loop_isolation(false)]
    pub fn patrol(&mut self, grid: &Vec<Vec<bool>>) -> (o: Outcome)
        requires
            grid_wf(grid_model(grid)),
            old(self).in_bounds(grid_model(grid)),
        ensures
            o == spec_patrol(grid_model(grid), old(self)@),
            final(self)@ == spec_patrol_state(grid_model(grid), old(self)@),
    {
        let ghost g = grid_model(grid);
        let ghost s0 = old(self)@;
        let mut turns: usize = 0;
        loop
            invariant
                grid_wf(g),
                g == grid_model(grid),
                self.in_bounds(g),
                turns <= 3,
                spec_run(g, s0, 0) == spec_run(g, self@, turns as nat),
            decreases run_measure(self@, turns as nat),
        {
            match self.look(grid) {
                Ahead::Exit => {
                    proof {
                        assert(spec_run(g, self@, turns as nat) == (Outcome::Exited, self@));
                    }
                    return Outcome::Exited;
                },
                Ahead::Obstructed => {
                    if turns == 3 {
                        proof {
                            assert(spec_run(g, self@, turns as nat) == (Outcome::Looped, self@));
                        }
                        return Outcome::Looped;
                    }
                    proof {
                        assert(spec_run(g, self@, turns as nat) == spec_run(
                            g,
                            turned(self@),
                            (turns + 1) as nat,
                        ));
                    }
                    self.turn();
                    turns = turns + 1;
                },
                Ahead::Free(r1, k1) => {
                    if self.total_moves > MOVE_CAP {
                        proof {
                            assert(spec_run(g, self@, turns as nat) == (Outcome::Looped, self@));
                        }
                        return Outcome::Looped;
                    }
                    let c = self.count_visits(r1, k1, self.dir);
                    if c > REVISIT_LIMIT {
                        proof {
                            assert(spec_run(g, self@, turns as nat) == (Outcome::Looped, self@));
                        }
                        return Outcome::Looped;
                    }
                    proof {
                        assert(spec_run(g, self@, turns as nat) == spec_run(
                            g,
                            moved(self@, r1 as int, k1 as int),
                            0,
                        ));
                    }
                    self.move_to(r1, k1);
                    turns = 0;
                },
            }
        }
    }

    /// An independent copy of this guard, for one trial of its own.
    pub fn duplicate(&self) -> (g: Guard)
        ensures
            g@ == self@,
    {
        let mut visits: Vec<((usize, usize), Dir)> = Vec::new();
        let mut i: usize = 0;
        while i < self.visits.len()
            invariant
                i <= self.visits.len(),
                visits@ == self.visits@.take(i as int),
            decreases self.visits.len() - i,
        {
            visits.push(self.visits[i]);
            proof {
                assert(visits@ =~= self.visits@.take(i + 1));
            }
            i = i + 1;
        }
        proof {
            assert(visits@ =~= self.visits@);
        }
        Guard { dir: self.dir, pos: self.pos, visits, total_moves: self.total_moves }
    }
}

/// The grid with exactly the cell (r, k) turned into an obstruction.
pub open spec fn blocked_at(g: Seq<Seq<bool>>, r: int, k: int) -> Seq<Seq<bool>> {
    g.update(r, g[r].update(k, true))
}

/// Whether the trial with cell (r, k) blocked is judged looping.
pub open spec fn spec_trial_loops(g: Seq<Seq<bool>>, s: GuardState, r: int, k: int) -> bool {
    spec_patrol(blocked_at(g, r, k), s) == Outcome::Looped
}

/// The free cells of row r among its first k columns, in column order.
pub open spec fn free_cells_in_row(g: Seq<Seq<bool>>, r: int, k: int) -> Seq<(usize, usize)>
    decreases k,
{
    if k <= 0 {
        Seq::empty()
    } else {
        free_cells_in_row(g, r, k - 1) + if !g[r][k - 1] {
            seq![(r as usize, (k - 1) as usize)]
        } else {
            Seq::empty()
        }
    }
}

/// The free cells of the first r rows, in row-major order.
pub open spec fn free_cells_upto(g: Seq<Seq<bool>>, r: int) -> Seq<(usize, usize)>
    decreases r,
{
    if r <= 0 {
        Seq::empty()
    } else {
        free_cells_upto(g, r - 1) + free_cells_in_row(g, r - 1, g[r - 1].len() as int)
    }
}

/// Every currently-free cell of the grid: the candidates of the search.
pub open spec fn spec_candidates(g: Seq<Seq<bool>>) -> Seq<(usize, usize)> {
    free_cells_upto(g, g.len() as int)
}

/// How many of the listed candidate cells induce a looping trial.
pub open spec fn looped_count(g: Seq<Seq<bool>>, s: GuardState, cs: Seq<(usize, usize)>) -> nat
    decreases cs.len(),
{
    if cs.len() == 0 {
        0
    } else {
        looped_count(g, s, cs.drop_last()) + if spec_trial_loops(
            g,
            s,
            cs.last().0 as int,
            cs.last().1 as int,
        ) {
            1nat
        } else {
            0nat
        }
    }
}

/// How many single-cell obstructions of a free cell make the run loop.
pub open spec fn loop_candidate_count(g: Seq<Seq<bool>>, s: GuardState) -> nat {
    looped_count(g, s, spec_candidates(g))
}

/// A copy of the grid with exactly the cell (r, k) blocked.
fn blocked_variant(grid: &Vec<Vec<bool>>, r: usize, k: usize) -> (g2: Vec<Vec<bool>>)
    requires
        r < grid.len(),
        k < grid_model(grid)[r as int].len(),
    ensures
        grid_model(&g2) == blocked_at(grid_model(grid), r as int, k as int),
{
    let ghost target = blocked_at(grid_model(grid), r as int, k as int);
    let mut g2: Vec<Vec<bool>> = Vec::new();
    let mut i: usize = 0;
    while i < grid.len()
        invariant
            i <= grid.len(),
            r < grid.len(),
            k < grid_model(grid)[r as int].len(),
            target == blocked_at(grid_model(grid), r as int, k as int),
            g2@.len() == i as int,
            forall|l: int| 0 <= l < i ==> (#[trigger] g2@[l])@ == target[l],
        decreases grid.len() - i,
    {
        let row_len = grid[i].len();
        let mut row: Vec<bool> = Vec::new();
        let mut j: usize = 0;
        while j < row_len
            invariant
                j <= row_len,
                i < grid.len(),
                r < grid.len(),
                k < grid_model(grid)[r as int].len(),
                target == blocked_at(grid_model(grid), r as int, k as int),
                row_len == grid_model(grid)[i as int].len(),
                row@ == target[i as int].take(j as int),
            decreases row_len - j,
        {
            let cell = if i == r && j == k {
                true
            } else {
                grid[i][j]
            };
            row.push(cell);
            proof {
                assert(row@ =~= target[i as int].take(j + 1));
            }
            j = j + 1;
        }
        proof {
            assert(row@ =~= target[i as int]);
        }
        g2.push(row);
        i = i + 1;
    }
    proof {
        assert(grid_model(&g2) =~= target);
    }
    g2
}

/// Run one independent trial: the base grid with the candidate cell (r, k)
/// blocked, and a fresh copy of the starting guard.  True when the trial
/// is judged looping.
pub fn trial_loops(grid: &Vec<Vec<bool>>, guard: &Guard, r: usize, k: usize) -> (b: bool)
    requires
        grid_wf(grid_model(grid)),
        guard.in_bounds(grid_model(grid)),
        r < grid.len(),
        k < grid_model(grid)[r as int].len(),
    ensures
        b == spec_trial_loops(grid_model(grid), guard@, r as int, k as int),
{
    let g2 = blocked_variant(grid, r, k);
    proof {
        assert(grid_wf(grid_model(&g2)));
        assert(guard.in_bounds(grid_model(&g2)));
    }
    let mut gd = guard.duplicate();
    let o = gd.patrol(&g2);
    o == Outcome::Looped
}


/// The set of distinct positions occurring in a visit history.
pub open spec fn visited_positions(v: Seq<((int, int), Dir)>) -> Set<(int, int)>
    decreases v.len(),
{
    if v.len() == 0 {
        Set::empty()
    } else {
        visited_positions(v.drop_last()).insert(v.last().0)
    }
}

/// How many distinct cells the run from state `s` on grid `g` occupies,
/// the start cell included.
pub open spec fn spec_distinct_visited(g: Seq<Seq<bool>>, s: GuardState) -> nat {
    visited_positions(spec_patrol_state(g, s).visits).len()
}

/// Whether a position stands in the list.
fn contains_pos(seen: &Vec<(usize, usize)>, p: (usize, usize)) -> (b: bool)
    ensures
        b == seen@.contains(p),
{
    let mut i: usize = 0;
    while i < seen.len()
        invariant
            i <= seen.len(),
            forall|j: int| 0 <= j < i ==> seen@[j] != p,
        decreases seen.len() - i,
    {
        let q = seen[i];
        if q.0 == p.0 && q.1 == p.1 {
            return true;
        }
        i = i + 1;
    }
    false
}

/// List the free cells of the grid, in row-major order.
pub fn candidates(grid: &Vec<Vec<bool>>) -> (cs: Vec<(usize, usize)>)
    ensures
        cs@ == spec_candidates(grid_model(grid)),
{
    let ghost g = grid_model(grid);
    let mut cs: Vec<(usize, usize)> = Vec::new();
    let mut r: usize = 0;
    while r < grid.len()
        invariant
            r <= grid.len(),
            g == grid_model(grid),
            cs@ == free_cells_upto(g, r as int),
        decreases grid.len() - r,
    {
        let row_len = grid[r].len();
        let mut k: usize = 0;
        while k < row_len
            invariant
                k <= row_len,
                r < grid.len(),
                g == grid_model(grid),
                row_len == g[r as int].len(),
                cs@ == free_cells_upto(g, r as int) + free_cells_in_row(g, r as int, k as int),
            decreases row_len - k,
        {
            if !grid[r][k] {
                cs.push((r, k));
            }
            proof {
                assert(free_cells_in_row(g, r as int, k + 1) == free_cells_in_row(
                    g,
                    r as int,
                    k as int,
                ) + if !g[r as int][k as int] {
                    seq![(r, k)]
                } else {
                    Seq::<(usize, usize)>::empty()
                });
                assert(cs@ =~= free_cells_upto(g, r as int) + free_cells_in_row(
                    g,
                    r as int,
                    k + 1,
                ));
            }
            k = k + 1;
        }
        proof {
            assert(cs@ =~= free_cells_upto(g, r + 1));
        }
        r = r + 1;
    }
    cs
}

/// Every listed free cell lies inside the grid.
proof fn lemma_free_cells_in_row_bounds(g: Seq<Seq<bool>>, r: int, k: int)
    requires
        0 <= r < g.len(),
        0 <= k <= g[r].len(),
        r <= usize::MAX,
        k <= usize::MAX,
    ensures
        forall|i: int|
            0 <= i < free_cells_in_row(g, r, k).len() ==> (#[trigger] free_cells_in_row(
                g,
                r,
                k,
            )[i]).0 == r && free_cells_in_row(g, r, k)[i].1 < k,
    decreases k,
{
    if k > 0 {
        lemma_free_cells_in_row_bounds(g, r, k - 1);
        let s = free_cells_in_row(g, r, k);
        let sp = free_cells_in_row(g, r, k - 1);
        assert forall|i: int| 0 <= i < s.len() implies (#[trigger] s[i]).0 == r && s[i].1 < k by {
            if i < sp.len() {
                assert(s[i] == sp[i]);
            } else {
                assert(s[i] == (r as usize, (k - 1) as usize));
            }
        }
    }
}

/// Every candidate cell lies inside the grid.
proof fn lemma_free_cells_upto_bounds(g: Seq<Seq<bool>>, r: int)
    requires
        0 <= r <= g.len(),
        r <= usize::MAX,
        forall|j: int| 0 <= j < g.len() ==> (#[trigger] g[j]).len() <= usize::MAX,
    ensures
        forall|i: int|
            0 <= i < free_cells_upto(g, r).len() ==> (#[trigger] free_cells_upto(g, r)[i]).0 < r
                && free_cells_upto(g, r)[i].1 < g[free_cells_upto(g, r)[i].0 as int].len(),
    decreases r,
{
    if r > 0 {
        lemma_free_cells_upto_bounds(g, r - 1);
        lemma_free_cells_in_row_bounds(g, r - 1, g[r - 1].len() as int);
        let s = free_cells_upto(g, r);
        let sp = free_cells_upto(g, r - 1);
        let row = free_cells_in_row(g, r - 1, g[r - 1].len() as int);
        assert forall|i: int|
            0 <= i < s.len() implies (#[trigger] s[i]).0 < r && s[i].1 < g[s[i].0 as int].len() by {
            if i < sp.len() {
                assert(s[i] == sp[i]);
            } else {
                assert(s[i] == row[i - sp.len()]);
            }
        }
    }
}

/// Count, one candidate after the other, how many induce a looping trial.
/// This is the sequential form of the search; the parallel form must and
/// does return the very same count.
pub fn count_looping_candidates(grid: &Vec<Vec<bool>>, guard: &Guard, cs: &Vec<(usize, usize)>) -> (n: usize)
    requires
        grid_wf(grid_model(grid)),
        guard.in_bounds(grid_model(grid)),
        forall|i: int|
            0 <= i < cs@.len() ==> (#[trigger] cs@[i]).0 < grid@.len() && cs@[i].1 < grid_model(
                grid,
            )[cs@[i].0 as int].len(),
    ensures
        n == looped_count(grid_model(grid), guard@, cs@),
{
    let ghost g = grid_model(grid);
    let mut n: usize = 0;
    let mut i: usize = 0;
    while i < cs.len()
        invariant
            i <= cs.len(),
            n <= i,
            g == grid_model(grid),
            grid_wf(g),
            guard.in_bounds(g),
            forall|j: int|
                0 <= j < cs@.len() ==> (#[trigger] cs@[j]).0 < grid@.len() && cs@[j].1 < g[cs@[j].0 as int].len(),
            n == looped_count(g, guard@, cs@.take(i as int)),
        decreases cs.len() - i,
    {
        let c = cs[i];
        let looped = trial_loops(grid, guard, c.0, c.1);
        proof {
            assert(cs@.take(i + 1).drop_last() =~= cs@.take(i as int));
            assert(cs@.take(i + 1).last() == c);
        }
        if looped {
            n = n + 1;
        }
        i = i + 1;
    }
    proof {
        assert(cs@.take(cs@.len() as int) =~= cs@);
    }
    n
}

/// Relies on rayon: `par_iter` hands every candidate to the worker
/// pool, `ParallelIterator::map` applies the pure, verified trial, and
/// `ParallelIterator::sum` adds the zero-or-one results.  Addition on
/// usize is associative and commutative, so the unordered parallel sum
/// equals the sequential count of looping trials, whatever the workers'
/// order.
#[verifier::external_body]
fn count_looping_candidates_parallel(
    grid: &Vec<Vec<bool>>,
    guard: &Guard,
    cs: &Vec<(usize, usize)>,
) -> (n: usize)
    requires
        grid_wf(grid_model(grid)),
        guard.in_bounds(grid_model(grid)),
        forall|i: int|
            0 <= i < cs@.len() ==> (#[trigger] cs@[i]).0 < grid@.len() && cs@[i].1 < grid_model(
                grid,
            )[cs@[i].0 as int].len(),
    ensures
        n == looped_count(grid_model(grid), guard@, cs@),
{
    cs.par_iter().map(|c| trial_loops(grid, guard, c.0, c.1) as usize).sum()
}


/// One puzzle instance: the base obstruction grid and the starting guard.
pub struct Data {
    pub guard: Guard,
    pub grid: Vec<Vec<bool>>,
}

impl Data {
    /// A well-formed instance: square grid, guard inside it.
    pub open spec fn wf(self) -> bool {
        &&& grid_wf(grid_model(&self.grid))
        &&& self.guard.in_bounds(grid_model(&self.grid))
    }

    /// Run one trial on the unmodified grid and report how many distinct
    /// cells the guard occupies before the run ends, the start cell
    /// included.  A `Looped` classification is a valid outcome here too;
    /// the count then covers the cells visited up to that judgement.
    pub fn solve1(&self) -> (n: usize)
        requires
            self.wf(),
        ensures
            n == spec_distinct_visited(grid_model(&self.grid), self.guard@),
    {
        let ghost g = grid_model(&self.grid);
        let mut gd = self.guard.duplicate();
        gd.patrol(&self.grid);
        let mut seen: Vec<(usize, usize)> = Vec::new();
        let ghost mut vis = Set::<(int, int)>::empty();
        let mut i: usize = 0;
        while i < gd.visits.len()
            invariant
                i <= gd.visits.len(),
                vis == visited_positions(gd@.visits.take(i as int)),
                vis.finite(),
                seen@.len() == vis.len(),
                forall|p: (usize, usize)|
                    #[trigger] seen@.contains(p) <==> vis.contains((p.0 as int, p.1 as int)),
            decreases gd.visits.len() - i,
        {
            let e = gd.visits[i];
            proof {
                assert(gd@.visits.take(i + 1).drop_last() =~= gd@.visits.take(i as int));
                assert(gd@.visits.take(i + 1).last() == (((e.0).0 as int, (e.0).1 as int), e.1));
            }
            let p = e.0;
            let ghost seen0 = seen@;
            let ghost vis0 = vis;
            if !contains_pos(&seen, p) {
                seen.push(p);
                proof {
                    vis = vis.insert((p.0 as int, p.1 as int));
                    assert(!vis0.contains((p.0 as int, p.1 as int)));
                    assert forall|q: (usize, usize)|
                        #[trigger] seen@.contains(q) <==> vis.contains(
                            (q.0 as int, q.1 as int),
                        ) by {
                        if seen@.contains(q) {
                            let j = choose|j: int| 0 <= j < seen@.len() && seen@[j] == q;
                            if j < seen0.len() {
                                assert(seen0[j] == q);
                                assert(seen0.contains(q));
                            } else {
                                assert(q == p);
                            }
                        }
                        if vis.contains((q.0 as int, q.1 as int)) {
                            if (q.0 as int, q.1 as int) == ((p.0 as int, p.1 as int)) {
                                assert(q == p);
                                assert(seen@[seen0.len() as int] == q);
                                assert(seen@.contains(q));
                            } else {
                                assert(vis0.contains((q.0 as int, q.1 as int)));
                                assert(seen0.contains(q));
                                let j = choose|j: int| 0 <= j < seen0.len() && seen0[j] == q;
                                assert(seen@[j] == q);
                                assert(seen@.contains(q));
                            }
                        }
                    }
                }
            } else {
                proof {
                    assert(vis.insert((p.0 as int, p.1 as int)) =~= vis);
                    vis = vis.insert((p.0 as int, p.1 as int));
                }
            }
            i = i + 1;
        }
        proof {
            assert(gd@.visits.take(gd.visits.len() as int) =~= gd@.visits);
        }
        seen.len()
    }

    /// Try every currently-free cell as the one extra obstruction, run one
    /// independent trial per candidate, and count how many trials are
    /// judged looping.  The trials run on a worker pool; the aggregation
    /// is an order-independent sum, so the parallel count equals the
    /// sequential one.
    pub fn solve2(&self) -> (n: i32)
        requires
            self.wf(),
            loop_candidate_count(grid_model(&self.grid), self.guard@) <= i32::MAX,
        ensures
            n == loop_candidate_count(grid_model(&self.grid), self.guard@),
    {
        let ghost g = grid_model(&self.grid);
        let cs = candidates(&self.grid);
        proof {
            assert forall|j: int| 0 <= j < g.len() implies (#[trigger] g[j]).len() <= usize::MAX by {
                assert(self.grid@[j].len() == self.grid@[j]@.len());
            }
            lemma_free_cells_upto_bounds(g, g.len() as int);
        }
        let n = count_looping_candidates_parallel(&self.grid, &self.guard, &cs);
        n as i32
    }
}


/// The heading denoted by a start-marker glyph, if the byte is one.
/// The marker is case-insensitive: both forms of the down glyph count.
pub open spec fn glyph_dir(b: u8) -> Option<Dir> {
    if b == 94 {
        Some(Dir::N)
    } else if b == 62 {
        Some(Dir::E)
    } else if b == 86 || b == 118 {
        Some(Dir::S)
    } else if b == 60 {
        Some(Dir::W)
    } else {
        None
    }
}

/// The glyph that renders a heading (the down glyph in its upper form).
pub open spec fn dir_glyph(d: Dir) -> u8 {
    match d {
        Dir::N => 94,
        Dir::E => 62,
        Dir::S => 86,
        Dir::W => 60,
    }
}

/// The start markers of row `r` among its first `k` columns, with their
/// positions and headings, in column order.
pub open spec fn marks_in_row(row: Seq<u8>, r: int, k: int) -> Seq<((usize, usize), Dir)>
    decreases k,
{
    if k <= 0 {
        Seq::empty()
    } else {
        marks_in_row(row, r, k - 1) + match glyph_dir(row[k - 1]) {
            Some(d) => seq![((r as usize, (k - 1) as usize), d)],
            None => Seq::empty(),
        }
    }
}

/// The start markers of the first `r` rows, in row-major order.
pub open spec fn marks_upto(rows: Seq<Seq<u8>>, r: int) -> Seq<((usize, usize), Dir)>
    decreases r,
{
    if r <= 0 {
        Seq::empty()
    } else {
        marks_upto(rows, r - 1) + marks_in_row(rows[r - 1], r - 1, rows[r - 1].len() as int)
    }
}

/// Every start marker of the text, in row-major order.
pub open spec fn spec_marks(rows: Seq<Seq<u8>>) -> Seq<((usize, usize), Dir)> {
    marks_upto(rows, rows.len() as int)
}

/// The rows are rectangular and square: each as long as there are rows.
pub open spec fn shape_ok(rows: Seq<Seq<u8>>) -> bool {
    &&& rows.len() > 0
    &&& forall|i: int| 0 <= i < rows.len() ==> (#[trigger] rows[i]).len() == rows.len()
}

/// The obstruction cells of the rows: true exactly for the obstruction
/// glyph.
pub open spec fn cells_of(rows: Seq<Seq<u8>>) -> Seq<Seq<bool>> {
    Seq::new(rows.len(), |i: int| Seq::new(rows[i].len(), |j: int| rows[i][j] == 35u8))
}

/// Why a textual grid was rejected.
#[derive(Debug, PartialEq, Eq)]
pub enum GridError {
    /// Rows of unequal length, an empty text, or a non-square grid.
    MalformedGrid,
    /// No start marker found.
    MissingAgent,
    /// More than one start marker found, at these positions.
    MultipleAgents(Vec<(usize, usize)>),
}


impl Guard {
    /// The guard a start-marker glyph denotes at (r, k), if the byte is
    /// such a marker: fresh state, one recorded visit of the start cell.
    pub fn from_glyph(b: u8, r: usize, k: usize) -> (res: Option<Guard>)
        ensures
            glyph_dir(b) is None ==> res is None,
            glyph_dir(b) matches Some(d) ==> res matches Some(g) && g@ == start_state(
                r as int,
                k as int,
                d,
            ),
    {
        let dir = if b == 94 {
            Dir::N
        } else if b == 62 {
            Dir::E
        } else if b == 86 || b == 118 {
            Dir::S
        } else if b == 60 {
            Dir::W
        } else {
            return None;
        };
        let mut visits: Vec<((usize, usize), Dir)> = Vec::new();
        visits.push(((r, k), dir));
        let g = Guard { dir, pos: (r, k), visits, total_moves: 0 };
        proof {
            assert(g@.visits =~= seq![(((r as int, k as int)), dir)]);
        }
        Some(g)
    }
}

/// List every start marker of the rows, in row-major order.
fn find_marks(rows: &Vec<Vec<u8>>) -> (ms: Vec<((usize, usize), Dir)>)
    ensures
        ms@ == spec_marks(lines_model(rows)),
{
    let ghost lm = lines_model(rows);
    let mut ms: Vec<((usize, usize), Dir)> = Vec::new();
    let mut r: usize = 0;
    while r < rows.len()
        invariant
            r <= rows.len(),
            lm == lines_model(rows),
            ms@ == marks_upto(lm, r as int),
        decreases rows.len() - r,
    {
        let row_len = rows[r].len();
        let mut k: usize = 0;
        while k < row_len
            invariant
                k <= row_len,
                r < rows.len(),
                lm == lines_model(rows),
                row_len == lm[r as int].len(),
                ms@ == marks_upto(lm, r as int) + marks_in_row(lm[r as int], r as int, k as int),
            decreases row_len - k,
        {
            let b = rows[r][k];
            match Guard::from_glyph(b, r, k) {
                Some(g) => {
                    ms.push(((r, k), g.dir));
                },
                None => {},
            }
            proof {
                assert(marks_in_row(lm[r as int], r as int, k + 1) == marks_in_row(
                    lm[r as int],
                    r as int,
                    k as int,
                ) + match glyph_dir(lm[r as int][k as int]) {
                    Some(d) => seq![((r, k), d)],
                    None => Seq::<((usize, usize), Dir)>::empty(),
                });
                assert(ms@ =~= marks_upto(lm, r as int) + marks_in_row(
                    lm[r as int],
                    r as int,
                    k + 1,
                ));
            }
            k = k + 1;
        }
        proof {
            assert(ms@ =~= marks_upto(lm, r + 1));
        }
        r = r + 1;
    }
    ms
}

/// Every marker of a row lies in that row.
proof fn lemma_marks_in_row_bounds(row: Seq<u8>, r: int, k: int)
    requires
        0 <= r <= usize::MAX,
        0 <= k <= row.len(),
        k <= usize::MAX,
    ensures
        forall|i: int|
            0 <= i < marks_in_row(row, r, k).len() ==> ((#[trigger] marks_in_row(row, r, k)[i]).0).0
                == r && (marks_in_row(row, r, k)[i].0).1 < k,
    decreases k,
{
    if k > 0 {
        lemma_marks_in_row_bounds(row, r, k - 1);
        let s = marks_in_row(row, r, k);
        let sp = marks_in_row(row, r, k - 1);
        assert forall|i: int|
            0 <= i < s.len() implies ((#[trigger] s[i]).0).0 == r && (s[i].0).1 < k by {
            if i < sp.len() {
                assert(s[i] == sp[i]);
            }
        }
    }
}

/// Every marker of the first `r` rows lies in its row.
proof fn lemma_marks_upto_bounds(rows: Seq<Seq<u8>>, r: int)
    requires
        0 <= r <= rows.len(),
        r <= usize::MAX,
        forall|j: int| 0 <= j < rows.len() ==> (#[trigger] rows[j]).len() <= usize::MAX,
    ensures
        forall|i: int|
            0 <= i < marks_upto(rows, r).len() ==> ((#[trigger] marks_upto(rows, r)[i]).0).0 < r
                && (marks_upto(rows, r)[i].0).1 < rows[((marks_upto(rows, r)[i].0).0) as int].len(),
    decreases r,
{
    if r > 0 {
        lemma_marks_upto_bounds(rows, r - 1);
        lemma_marks_in_row_bounds(rows[r - 1], r - 1, rows[r - 1].len() as int);
        let s = marks_upto(rows, r);
        let sp = marks_upto(rows, r - 1);
        let row = marks_in_row(rows[r - 1], r - 1, rows[r - 1].len() as int);
        assert forall|i: int|
            0 <= i < s.len() implies ((#[trigger] s[i]).0).0 < r && (s[i].0).1 < rows[((s[
            i].0).0) as int].len() by {
            if i < sp.len() {
                assert(s[i] == sp[i]);
            } else {
                assert(s[i] == row[i - sp.len()]);
            }
        }
    }
}

impl Data {
    /// Parse a textual grid: split it into lines, find the single start
    /// marker, and read every obstruction glyph.  Fails with
    /// `MissingAgent` when no marker stands in the text, with
    /// `MultipleAgents` (carrying all marker positions) when more than
    /// one does, and with `MalformedGrid` when the rows are not all of
    /// equal length or the grid is not square.
    #[verifier::loop_isolation(false)]
    pub fn parse(input: &str) -> (res: Result<Data, GridError>)
        ensures
            ({
                let rows = spec_lines(input.spec_bytes());
                let ms = spec_marks(rows);
                &&& (ms.len() == 0 ==> res == Err::<Data, GridError>(GridError::MissingAgent))
                &&& (ms.len() > 1 ==> (res matches Err(GridError::MultipleAgents(ps)) && ps@
                    == ms.map(|i: int, m: ((usize, usize), Dir)| m.0)))
                &&& (ms.len() == 1 && !shape_ok(rows) ==> res == Err::<Data, GridError>(
                    GridError::MalformedGrid,
                ))
                &&& (ms.len() == 1 && shape_ok(rows) ==> (res matches Ok(d) && {
                    &&& grid_model(&d.grid) == cells_of(rows)
                    &&& d.guard@ == start_state(
                        ((ms[0].0).0) as int,
                        ((ms[0].0).1) as int,
                        ms[0].1,
                    )
                    &&& d.wf()
                }))
            }),
    {
        let bytes = input.as_bytes();
        let rows = split_lines(bytes);
        let ghost lm = lines_model(&rows);
        let ms = find_marks(&rows);
        if ms.len() == 0 {
            return Err(GridError::MissingAgent);
        }
        if ms.len() > 1 {
            let mut ps: Vec<(usize, usize)> = Vec::new();
            let mut i: usize = 0;
            while i < ms.len()
                invariant
                    i <= ms.len(),
                    ps@.len() == i as int,
                    forall|j: int| 0 <= j < i ==> ps@[j] == (#[trigger] ms@[j]).0,
                decreases ms.len() - i,
            {
                ps.push(ms[i].0);
                i = i + 1;
            }
            proof {
                assert(ps@ =~= spec_marks(lm).map(|i: int, m: ((usize, usize), Dir)| m.0));
            }
            return Err(GridError::MultipleAgents(ps));
        }
        let n = rows.len();
        let mut i: usize = 0;
        while i < n
            invariant
                i <= n,
                n == rows@.len(),
                lm == lines_model(&rows),
                forall|j: int| 0 <= j < i ==> (#[trigger] lm[j]).len() == n as int,
            decreases n - i,
        {
            if rows[i].len() != n {
                proof {
                    assert(lm[i as int] == rows@[i as int]@);
                    assert(lm[i as int].len() != lm.len());
                    assert(!shape_ok(lm));
                }
                return Err(GridError::MalformedGrid);
            }
            i = i + 1;
        }
        if n == 0 {
            return Err(GridError::MalformedGrid);
        }
        proof {
            assert(shape_ok(lm));
        }
        let mut grid: Vec<Vec<bool>> = Vec::new();
        let mut r: usize = 0;
        while r < n
            invariant
                r <= n,
                n == rows@.len(),
                lm == lines_model(&rows),
                grid@.len() == r as int,
                forall|l: int| 0 <= l < r ==> (#[trigger] grid@[l])@ == cells_of(lm)[l],
            decreases n - r,
        {
            let row_len = rows[r].len();
            let mut row: Vec<bool> = Vec::new();
            let mut j: usize = 0;
            while j < row_len
                invariant
                    j <= row_len,
                    r < n,
                    n == rows@.len(),
                    lm == lines_model(&rows),
                    row_len == lm[r as int].len(),
                    row@.len() == j as int,
                    forall|m: int| 0 <= m < j ==> row@[m] == (lm[r as int][m] == 35u8),
                decreases row_len - j,
            {
                row.push(rows[r][j] == 35);
                j = j + 1;
            }
            proof {
                assert(row@ =~= cells_of(lm)[r as int]);
            }
            grid.push(row);
            r = r + 1;
        }
        proof {
            assert(grid_model(&grid) =~= cells_of(lm));
            assert forall|j: int| 0 <= j < lm.len() implies (#[trigger] lm[j]).len()
                <= usize::MAX by {
                assert(rows@[j].len() == rows@[j]@.len());
            }
            lemma_marks_upto_bounds(lm, lm.len() as int);
        }
        let m = ms[0];
        let mk = m.0;
        let mut visits: Vec<((usize, usize), Dir)> = Vec::new();
        visits.push((mk, m.1));
        let guard = Guard { dir: m.1, pos: mk, visits, total_moves: 0 };
        proof {
            assert(guard@.visits =~= seq![(((mk.0 as int, mk.1 as int)), m.1)]);
            assert(grid_wf(grid_model(&grid)));
            assert(guard.in_bounds(grid_model(&grid)));
        }
        Ok(Data { guard, grid })
    }
}


/// One rendered cell: the guard's glyph on its own cell, else the
/// obstruction or free-cell glyph.
pub open spec fn render_cell(g: Seq<Seq<bool>>, s: GuardState, r: int, j: int) -> u8 {
    if s.pos == ((r, j)) {
        dir_glyph(s.dir)
    } else if g[r][j] {
        35u8
    } else {
        46u8
    }
}

/// One rendered row.
pub open spec fn render_row(g: Seq<Seq<bool>>, s: GuardState, r: int) -> Seq<u8> {
    Seq::new(g[r].len(), |j: int| render_cell(g, s, r, j))
}

/// The first `r` rows rendered, each closed by a newline.
pub open spec fn render_upto(g: Seq<Seq<bool>>, s: GuardState, r: int) -> Seq<u8>
    decreases r,
{
    if r <= 0 {
        Seq::empty()
    } else {
        render_upto(g, s, r - 1) + render_row(g, s, r - 1) + seq![NL]
    }
}

/// The canonical textual form of a grid with its guard.
pub open spec fn spec_render(g: Seq<Seq<bool>>, s: GuardState) -> Seq<u8> {
    render_upto(g, s, g.len() as int)
}

impl Data {
    /// Write the instance back out in its canonical textual form: one
    /// glyph per cell, the guard on its own cell, a newline after every
    /// row.
    #[verifier::loop_isolation(false)]
    pub fn render(&self) -> (out: Vec<u8>)
        ensures
            out@ == spec_render(grid_model(&self.grid), self.guard@),
    {
        let ghost g = grid_model(&self.grid);
        let ghost s = self.guard@;
        let mut out: Vec<u8> = Vec::new();
        let mut r: usize = 0;
        while r < self.grid.len()
            invariant
                r <= self.grid.len(),
                out@ == render_upto(g, s, r as int),
            decreases self.grid.len() - r,
        {
            let row_len = self.grid[r].len();
            let mut j: usize = 0;
            while j < row_len
                invariant
                    j <= row_len,
                    r < self.grid.len(),
                    row_len == g[r as int].len(),
                    out@ == render_upto(g, s, r as int) + render_row(g, s, r as int).take(
                        j as int,
                    ),
                decreases row_len - j,
            {
                let c: u8 = if self.guard.pos.0 == r && self.guard.pos.1 == j {
                    match self.guard.dir {
                        Dir::N => 94,
                        Dir::E => 62,
                        Dir::S => 86,
                        Dir::W => 60,
                    }
                } else if self.grid[r][j] {
                    35
                } else {
                    46
                };
                out.push(c);
                proof {
                    assert(out@ =~= render_upto(g, s, r as int) + render_row(
                        g,
                        s,
                        r as int,
                    ).take(j + 1));
                }
                j = j + 1;
            }
            out.push(10);
            proof {
                assert(render_row(g, s, r as int).take(row_len as int) =~= render_row(
                    g,
                    s,
                    r as int,
                ));
                assert(out@ =~= render_upto(g, s, r + 1));
            }
            r = r + 1;
        }
        out
    }
}

/// The run's move counter never decreases, and never passes one past the
/// hard cap: every run ends after at most the cap's worth of committed
/// moves (plus at most three in-place turns between two of them).
pub proof fn lemma_run_moves(g: Seq<Seq<bool>>, s: GuardState, turns: nat)
    ensures
        spec_run(g, s, turns).1.moves >= s.moves,
        s.moves <= MOVE_CAP + 1 ==> spec_run(g, s, turns).1.moves <= MOVE_CAP + 1,
    decreases run_measure(s, turns),
{
    match spec_ahead(g, s) {
        Ahead::Exit => {},
        Ahead::Obstructed => {
            if turns < 3 {
                lemma_run_moves(g, turned(s), turns + 1);
            }
        },
        Ahead::Free(r, k) => {
            if s.moves <= MOVE_CAP && occurrences(s.visits, (r as int, k as int), s.dir)
                <= REVISIT_LIMIT {
                lemma_run_moves(g, moved(s, r as int, k as int), 0);
            }
        },
    }
}

/// Determinism: the terminal classification and the final state of a run
/// are functions of the grid and the starting state alone, so running the
/// same pair twice yields identical outcomes and identical visit
/// histories.  (`patrol` ensures exactly these two functions of its
/// inputs.)
pub proof fn lemma_patrol_deterministic(g: Seq<Seq<bool>>, s1: GuardState, s2: GuardState)
    requires
        s1 == s2,
    ensures
        spec_patrol(g, s1) == spec_patrol(g, s2),
        spec_patrol_state(g, s1) == spec_patrol_state(g, s2),
{
}

/// A guard already on the boundary, facing outward, exits at once, with
/// no committed move.
pub proof fn lemma_exit_zero_moves(g: Seq<Seq<bool>>, s: GuardState)
    requires
        spec_ahead(g, s) is Exit,
    ensures
        spec_patrol(g, s) == Outcome::Exited,
        spec_patrol_state(g, s) == s,
{
}

/// A guard whose free cell ahead lies on the boundary, facing outward
/// after the step, exits in exactly one committed move (the heuristic
/// does not fire: the cap is not reached and the destination state is not
/// over-visited).
pub proof fn lemma_exit_one_move(g: Seq<Seq<bool>>, s: GuardState)
    requires
        g.len() <= usize::MAX,
        g[0].len() <= usize::MAX,
        0 <= fwd_r(s) < g.len(),
        0 <= fwd_k(s) < g[0].len(),
        !g[fwd_r(s)][fwd_k(s)],
        s.moves <= MOVE_CAP,
        occurrences(s.visits, (fwd_r(s), fwd_k(s)), s.dir) <= REVISIT_LIMIT,
        spec_ahead(g, moved(s, fwd_r(s), fwd_k(s))) is Exit,
    ensures
        spec_patrol(g, s) == Outcome::Exited,
        spec_patrol_state(g, s).moves == s.moves + 1,
{
    let s1 = moved(s, fwd_r(s), fwd_k(s));
    assert(spec_ahead(g, s) == Ahead::Free(fwd_r(s) as usize, fwd_k(s) as usize));
    assert(spec_run(g, s, 0) == spec_run(g, s1, 0));
    assert(spec_run(g, s1, 0) == (Outcome::Exited, s1));
}


/// The rendered rows, from row `r` on, each closed by a newline.
pub open spec fn render_from(g: Seq<Seq<bool>>, s: GuardState, r: int) -> Seq<u8>
    decreases g.len() - r,
{
    if r < 0 || r >= g.len() {
        Seq::empty()
    } else {
        render_row(g, s, r) + seq![NL] + render_from(g, s, r + 1)
    }
}

/// Building the text row by row from the front or from the back is the
/// same text.
proof fn lemma_render_split(g: Seq<Seq<bool>>, s: GuardState, r: int)
    requires
        0 <= r <= g.len(),
    ensures
        render_upto(g, s, r) + render_from(g, s, r) == spec_render(g, s),
    decreases g.len() - r,
{
    if r == g.len() {
        assert(render_from(g, s, r) =~= Seq::<u8>::empty());
        assert(render_upto(g, s, r) + Seq::<u8>::empty() =~= render_upto(g, s, r));
    } else {
        lemma_render_split(g, s, r + 1);
        assert(render_upto(g, s, r + 1) =~= render_upto(g, s, r) + render_row(g, s, r) + seq![
            NL,
        ]);
        assert(render_upto(g, s, r) + render_from(g, s, r) =~= render_upto(g, s, r + 1)
            + render_from(g, s, r + 1));
    }
}

/// Splitting a line, its newline and a rest yields the line in front of
/// the rest's lines.
proof fn lemma_lines_of_line(line: Seq<u8>, rest: Seq<u8>)
    requires
        forall|j: int| 0 <= j < line.len() ==> #[trigger] line[j] != NL,
    ensures
        spec_lines(line + seq![NL] + rest) == seq![line] + spec_lines(rest),
    decreases line.len(),
{
    let b = line + seq![NL] + rest;
    if line.len() == 0 {
        assert(b[0] == NL);
        assert(b.drop_first() =~= rest);
        assert(spec_lines(b) =~~= seq![line] + spec_lines(rest));
    } else {
        assert(b[0] == line[0]);
        lemma_lines_of_line(line.drop_first(), rest);
        assert(b.drop_first() =~= line.drop_first() + seq![NL] + rest);
        let rl = spec_lines(b.drop_first());
        assert(rl == seq![line.drop_first()] + spec_lines(rest));
        assert(rl.len() > 0);
        assert(seq![b[0]] + rl[0] =~= line);
        assert(rl.drop_first() =~= spec_lines(rest));
        assert(spec_lines(b) =~~= seq![line] + spec_lines(rest));
    }
}

/// A rendered cell is never a newline.
proof fn lemma_render_row_no_nl(g: Seq<Seq<bool>>, s: GuardState, r: int)
    ensures
        forall|j: int|
            0 <= j < render_row(g, s, r).len() ==> #[trigger] render_row(g, s, r)[j] != NL,
{
    assert forall|j: int|
        0 <= j < render_row(g, s, r).len() implies #[trigger] render_row(g, s, r)[j] != NL by {
        assert(render_row(g, s, r)[j] == render_cell(g, s, r, j));
    }
}

/// The lines of the rendered text are exactly the rendered rows.
proof fn lemma_lines_of_render(g: Seq<Seq<bool>>, s: GuardState, r: int)
    requires
        0 <= r <= g.len(),
    ensures
        spec_lines(render_from(g, s, r)) == Seq::new((g.len() - r) as nat, |i: int| render_row(g, s, r + i)),
    decreases g.len() - r,
{
    if r == g.len() {
        assert(spec_lines(render_from(g, s, r)) =~~= Seq::new(0, |i: int| render_row(g, s, r + i)));
    } else {
        lemma_lines_of_render(g, s, r + 1);
        lemma_render_row_no_nl(g, s, r);
        lemma_lines_of_line(render_row(g, s, r), render_from(g, s, r + 1));
        assert(render_from(g, s, r) == render_row(g, s, r) + seq![NL] + render_from(g, s, r + 1));
        assert(spec_lines(render_from(g, s, r)) =~~= Seq::new(
            (g.len() - r) as nat,
            |i: int| render_row(g, s, r + i),
        ));
    }
}

/// A rendered row other than the guard's has no marker; the guard's row
/// has exactly its own, at the guard's column.
proof fn lemma_marks_of_render_row(g: Seq<Seq<bool>>, s: GuardState, r: int, k: int)
    requires
        0 <= r <= usize::MAX,
        0 <= k <= g[r].len(),
        k <= usize::MAX,
        !g[s.pos.0][s.pos.1],
    ensures
        marks_in_row(render_row(g, s, r), r, k) == if s.pos.0 == r && 0 <= s.pos.1 < k {
            seq![(((s.pos.0 as usize, s.pos.1 as usize)), s.dir)]
        } else {
            Seq::<((usize, usize), Dir)>::empty()
        },
    decreases k,
{
    if k > 0 {
        lemma_marks_of_render_row(g, s, r, k - 1);
        let row = render_row(g, s, r);
        assert(row[k - 1] == render_cell(g, s, r, k - 1));
        if s.pos == ((r, k - 1)) {
            assert(glyph_dir(dir_glyph(s.dir)) == Some(s.dir));
            assert(marks_in_row(row, r, k) =~= seq![
                (((s.pos.0 as usize, s.pos.1 as usize)), s.dir),
            ]);
        } else {
            assert(glyph_dir(render_cell(g, s, r, k - 1)) is None);
            assert(marks_in_row(row, r, k) =~= marks_in_row(row, r, k - 1));
        }
    }
}

/// The whole rendered text holds exactly one marker: the guard's.
proof fn lemma_marks_of_render(g: Seq<Seq<bool>>, s: GuardState, r: int, rows: Seq<Seq<u8>>)
    requires
        0 <= r <= g.len(),
        g.len() <= usize::MAX,
        grid_wf(g),
        0 <= s.pos.0 < g.len(),
        0 <= s.pos.1 < g[0].len(),
        !g[s.pos.0][s.pos.1],
        rows == Seq::new(g.len() as nat, |i: int| render_row(g, s, i)),
    ensures
        marks_upto(rows, r) == if s.pos.0 < r {
            seq![(((s.pos.0 as usize, s.pos.1 as usize)), s.dir)]
        } else {
            Seq::<((usize, usize), Dir)>::empty()
        },
    decreases r,
{
    if r > 0 {
        lemma_marks_of_render(g, s, r - 1, rows);
        assert(rows[r - 1] == render_row(g, s, r - 1));
        assert(rows[r - 1].len() == g[r - 1].len());
        lemma_marks_of_render_row(g, s, r - 1, g[r - 1].len() as int);
        if s.pos.0 == r - 1 {
            assert(0 <= s.pos.1 < g[r - 1].len());
            assert(marks_upto(rows, r) =~= seq![
                (((s.pos.0 as usize, s.pos.1 as usize)), s.dir),
            ]);
        } else {
            assert(marks_upto(rows, r) =~= marks_upto(rows, r - 1));
        }
    }
}

/// Parsing the canonical textual form of a well-formed instance yields
/// the same obstruction grid and the same start marker: rendering and
/// re-parsing is idempotent.
pub proof fn lemma_render_parse_round_trip(g: Seq<Seq<bool>>, s: GuardState)
    requires
        grid_wf(g),
        g.len() <= usize::MAX,
        0 <= s.pos.0 < g.len(),
        0 <= s.pos.1 < g[0].len(),
        !g[s.pos.0][s.pos.1],
    ensures
        ({
            let rows = spec_lines(spec_render(g, s));
            &&& shape_ok(rows)
            &&& cells_of(rows) == g
            &&& spec_marks(rows) == seq![(((s.pos.0 as usize, s.pos.1 as usize)), s.dir)]
        }),
{
    lemma_render_split(g, s, 0);
    assert(render_upto(g, s, 0) + render_from(g, s, 0) =~= render_from(g, s, 0));
    assert(spec_render(g, s) == render_from(g, s, 0));
    lemma_lines_of_render(g, s, 0);
    let rows = spec_lines(spec_render(g, s));
    assert(rows =~= Seq::new(g.len() as nat, |i: int| render_row(g, s, i)));
    assert forall|i: int| 0 <= i < rows.len() implies (#[trigger] rows[i]).len() == rows.len() by {
        assert(rows[i] == render_row(g, s, i));
        assert(g[i].len() == g.len());
    }
    assert(shape_ok(rows));
    assert forall|i: int| 0 <= i < g.len() implies #[trigger] cells_of(rows)[i] == g[i] by {
        assert(rows[i] == render_row(g, s, i));
        assert forall|j: int| 0 <= j < g[i].len() implies #[trigger] cells_of(rows)[i][j] == g[i][j] by {
            assert(rows[i][j] == render_cell(g, s, i, j));
        }
        assert(cells_of(rows)[i] =~= g[i]);
    }
    assert(cells_of(rows) =~~= g);
    lemma_marks_of_render(g, s, g.len() as int, rows);
}

} // verus!
