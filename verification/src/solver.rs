//! Branch-and-bound search for the cheapest sequence of output commands that
//! reproduces a goal byte string from a given tape snapshot.

use crate::math::{lower_bound, sorted};
use crate::node::Node;
use crate::path::{
    lemma_seq_cost_concat, lemma_seq_cost_nonneg, lemma_seq_cost_prefix_bounds,
    lemma_seq_cost_upper, seq_cost, Path,
};
use crate::util::{abs_diff, abs_diff_spec};
use vstd::prelude::*;

verus! {

/// Relaxation credit granted when recursing past position `i` of the goal:
/// nothing for the last byte, one for a repeated byte, two otherwise.
pub open spec fn next_cost_at(goal: Seq<u8>, i: int) -> int {
    if i + 1 == goal.len() {
        0
    } else if goal[i] == goal[i + 1] {
        1
    } else {
        2
    }
}

/// Total relaxation credit of the goal suffix beginning at `start`.
pub open spec fn credits(goal: Seq<u8>, start: int) -> int
    decreases goal.len() - start,
{
    if start < 0 || start >= goal.len() {
        0
    } else {
        next_cost_at(goal, start) + credits(goal, start + 1)
    }
}

pub proof fn lemma_credits_bounds(goal: Seq<u8>, a: int, b: int)
    requires
        a <= b,
    ensures
        0 <= credits(goal, a) - credits(goal, b) <= 2 * (b - a) || (a < 0 || a >= goal.len()),
        credits(goal, a) >= 0,
        credits(goal, a) <= 2 * (goal.len() - a) || a >= goal.len(),
    decreases goal.len() - a,
{
    if a < 0 || a >= goal.len() {
        lemma_credits_nonneg(goal, b);
        if a >= goal.len() {
            assert(credits(goal, a) == 0);
        }
    } else if a == b {
        lemma_credits_nonneg(goal, a);
        lemma_credits_bounds(goal, a + 1, a + 1);
    } else {
        lemma_credits_bounds(goal, a + 1, b);
        lemma_credits_nonneg(goal, a + 1);
        lemma_credits_nonneg(goal, b);
    }
}

pub proof fn lemma_credits_nonneg(goal: Seq<u8>, a: int)
    ensures
        credits(goal, a) >= 0,
    decreases goal.len() - a,
{
    if 0 <= a < goal.len() {
        lemma_credits_nonneg(goal, a + 1);
    }
}

/// Number of adjacent equal pairs among the first `j` goal bytes.
pub open spec fn repeats_upto(goal: Seq<u8>, j: int) -> int
    decreases j,
{
    if j <= 1 {
        0
    } else {
        repeats_upto(goal, j - 1) + (if goal[j - 2] == goal[j - 1] {
            1int
        } else {
            0int
        })
    }
}

pub proof fn lemma_repeats_upto_bounds(goal: Seq<u8>, j: int)
    ensures
        0 <= repeats_upto(goal, j),
        j >= 1 ==> repeats_upto(goal, j) <= j - 1,
        j < 1 ==> repeats_upto(goal, j) == 0,
    decreases j,
{
    if j > 1 {
        lemma_repeats_upto_bounds(goal, j - 1);
    }
}

/// The admissible lower bound `2 * (|goal| - 1) - R` on the cost of emitting
/// the goal, where `R` counts adjacent equal bytes.
pub open spec fn min_cost_spec(goal: Seq<u8>) -> int {
    if goal.len() == 0 {
        -2
    } else {
        2 * (goal.len() - 1) - repeats_upto(goal, goal.len() as int)
    }
}

/// The credit sum over the whole goal equals the admissible lower bound.
pub proof fn lemma_credits_min_cost(goal: Seq<u8>, s: int)
    requires
        0 <= s < goal.len(),
    ensures
        credits(goal, s) == 2 * (goal.len() - 1 - s) - (repeats_upto(goal, goal.len() as int)
            - repeats_upto(goal, s + 1)),
    decreases goal.len() - s,
{
    if s == goal.len() - 1 {
        assert(credits(goal, s) == next_cost_at(goal, s) + credits(goal, s + 1));
        assert(credits(goal, s + 1) == 0);
    } else {
        lemma_credits_min_cost(goal, s + 1);
        assert(repeats_upto(goal, s + 2) == repeats_upto(goal, s + 1) + (if goal[s] == goal[s + 1] {
            1int
        } else {
            0int
        }));
    }
}

pub proof fn lemma_min_cost_spec_bounds(goal: Seq<u8>)
    requires
        goal.len() <= 100_000,
    ensures
        -2 <= min_cost_spec(goal) <= 2 * goal.len(),
{
    lemma_repeats_upto_bounds(goal, goal.len() as int);
}

/// No node of the sequence was produced by a rolling loop.
pub open spec fn no_roll(p: Seq<Node>) -> bool {
    forall|i: int| 0 <= i < p.len() ==> !(#[trigger] p[i]).rolling
}

/// No two nodes of the sequence target the same tape cell.
pub open spec fn distinct_pointers(p: Seq<Node>) -> bool {
    forall|i: int, j: int| 0 <= i < j < p.len() ==> p[i].pointer != p[j].pointer
}

/// The zero cache is strictly increasing and stays inside `[0, maxp]`.
pub open spec fn zeros_wf(zeros: Seq<i32>, maxp: int) -> bool {
    &&& forall|i: int, j: int| 0 <= i < j < zeros.len() ==> zeros[i] < zeros[j]
    &&& forall|k: int| 0 <= k < zeros.len() ==> 0 <= #[trigger] zeros[k] <= maxp
}

/// The zero cache holds exactly the indices of `[0, maxp]` whose tape cell is
/// zero, in increasing order.
pub open spec fn zeros_complete(zeros: Seq<i32>, tape: Seq<u8>, maxp: int) -> bool {
    &&& zeros_wf(zeros, maxp)
    &&& forall|k: int|
        0 <= k <= maxp ==> ((#[trigger] tape[k]) == 0 <==> zeros.contains(k as i32))
}

/// One if the cell under the frame's pointer already holds the next goal
/// byte (so that emitting it costs only the `.`), zero otherwise.
pub open spec fn stay_discount(goal: Seq<u8>, tape: Seq<u8>, start: int, pointer: int) -> int {
    if tape[pointer] == goal[start] {
        1
    } else {
        0
    }
}

/// Everything a recursion frame of the search guarantees about a path it
/// returns: its length, its pointer range, its nonnegative per-node costs, an
/// overall cost cap, the budget bound behind the rolling limit, the
/// unique-cells guarantee, and the admissible lower bound. The last three
/// hold only of paths without rolling nodes (the budget bound: of paths that
/// do not end in one).
pub open spec fn frame_ok(
    goal: Seq<u8>,
    tape: Seq<u8>,
    maxp: int,
    mnc: int,
    unique: bool,
    cost: int,
    start: int,
    pointer: int,
    max_cost: int,
    p: Seq<Node>,
) -> bool {
    let n = goal.len() as int;
    &&& p.len() == n - start
    &&& forall|i: int| 0 <= i < p.len() ==> 0 <= (#[trigger] p[i]).pointer <= maxp
    &&& forall|i: int| 0 <= i < p.len() ==> (#[trigger] p[i]).cost >= 0
    &&& forall|i: int|
        0 <= i < p.len() ==> (!(#[trigger] p[i]).rolling ==> 1 <= p[i].cost <= mnc)
    &&& forall|i: int| 0 <= i < p.len() ==> ((#[trigger] p[i]).rolling ==> p[i].cost <= mnc + 3)
    &&& (p.len() < 4 ==> no_roll(p))
    &&& seq_cost(p) <= (n - start) * (mnc + 258)
    &&& (start < n && !p.last().rolling ==> cost + seq_cost(p) <= max_cost + credits(goal, start))
    &&& (no_roll(p) && unique ==> distinct_pointers(p))
    &&& (no_roll(p) && start < n ==> seq_cost(p) >= credits(goal, start) + 1 - stay_discount(
        goal,
        tape,
        start,
        pointer,
    ))
}

/// Abbreviation used by the move-class loops: the frame guarantees, read off
/// a solver state.
spec fn fok(s: Solver, cost: int, start: int, pointer: int, max_cost: int, p: Seq<Node>) -> bool {
    frame_ok(
        s.spec_goal(),
        s.spec_tape(),
        s.spec_max_pointer(),
        s.spec_max_node_cost(),
        s.spec_unique_cells(),
        cost,
        start,
        pointer,
        max_cost,
        p,
    )
}

/// Branch-and-bound searcher over a mutable tape snapshot.
pub struct Solver {
    goal: Vec<u8>,
    tape: Vec<u8>,
    min_cost: i32,
    pointer: i32,
    max_pointer: i32,
    max_node_cost: i32,
    unique_cells: bool,
    zeros: Vec<i32>,
}

impl Solver {
    pub closed spec fn spec_goal(self) -> Seq<u8> {
        self.goal@
    }

    pub closed spec fn spec_tape(self) -> Seq<u8> {
        self.tape@
    }

    pub closed spec fn spec_min_cost(self) -> int {
        self.min_cost as int
    }

    pub closed spec fn spec_pointer(self) -> int {
        self.pointer as int
    }

    pub closed spec fn spec_max_pointer(self) -> int {
        self.max_pointer as int
    }

    pub closed spec fn spec_max_node_cost(self) -> int {
        self.max_node_cost as int
    }

    pub closed spec fn spec_unique_cells(self) -> bool {
        self.unique_cells
    }

    pub closed spec fn spec_zeros(self) -> Seq<i32> {
        self.zeros@
    }

    /// Well-formedness: the sizes that keep all cost arithmetic inside `i32`,
    /// the pointer inside the active window, the zero cache inside bounds,
    /// and the cached admissible bound in agreement with the goal.
    pub open spec fn wf(self) -> bool {
        &&& self.spec_goal().len() <= 100_000
        &&& -10_000 <= self.spec_max_node_cost() <= 10_000
        &&& 0 <= self.spec_max_pointer() < self.spec_tape().len() <= 0x0400_0000
        &&& 0 <= self.spec_pointer() <= self.spec_max_pointer()
        &&& self.spec_min_cost() == min_cost_spec(self.spec_goal())
        &&& zeros_wf(self.spec_zeros(), self.spec_max_pointer())
    }

    /// All fields but the tape agree.
    pub open spec fn same_except_tape(a: Solver, b: Solver) -> bool {
        &&& a.spec_goal() == b.spec_goal()
        &&& a.spec_min_cost() == b.spec_min_cost()
        &&& a.spec_pointer() == b.spec_pointer()
        &&& a.spec_max_pointer() == b.spec_max_pointer()
        &&& a.spec_max_node_cost() == b.spec_max_node_cost()
        &&& a.spec_unique_cells() == b.spec_unique_cells()
        &&& a.spec_zeros() == b.spec_zeros()
    }

    /// All fields agree; the searcher restores itself around every frame.
    pub open spec fn same_state(a: Solver, b: Solver) -> bool {
        &&& Solver::same_except_tape(a, b)
        &&& a.spec_tape() == b.spec_tape()
    }

    /// Builds a searcher for `goal` over the given tape snapshot, caching the
    /// admissible lower bound and the sorted list of zero cells.
    pub fn new(
        goal: &[u8],
        tape: Vec<u8>,
        pointer: i32,
        max_pointer: i32,
        max_node_cost: i32,
        unique_cells: bool,
    ) -> (s: Solver)
        requires
            goal@.len() <= 100_000,
            -10_000 <= max_node_cost <= 10_000,
            0 <= max_pointer < tape@.len() <= 0x0400_0000,
            0 <= pointer <= max_pointer,
        ensures
            s.wf(),
            s.spec_goal() == goal@,
            s.spec_tape() == tape@,
            s.spec_pointer() == pointer as int,
            s.spec_max_pointer() == max_pointer as int,
            s.spec_max_node_cost() == max_node_cost as int,
            s.spec_unique_cells() == unique_cells,
            s.spec_min_cost() == min_cost_spec(goal@),
            zeros_complete(s.spec_zeros(), tape@, max_pointer as int),
    {
        let goal_vec = copy_bytes(goal);
        let len = goal_vec.len();

        let mut min_cost: i32 = if len == 0 {
            -2
        } else {
            2 * ((len as i32) - 1)
        };
        let mut j: usize = 1;
        while j < len
            invariant
                1 <= j <= len || (len == 0 && j == 1),
                len == goal_vec@.len() <= 100_000,
                goal_vec@ == goal@,
                len >= 1 ==> min_cost == 2 * (len - 1) - repeats_upto(goal@, j as int),
                len == 0 ==> min_cost == -2,
            decreases len - j,
        {
            proof {
                lemma_repeats_upto_bounds(goal@, j as int);
            }
            if goal_vec[j - 1] == goal_vec[j] {
                min_cost = min_cost - 1;
            }
            j = j + 1;
        }

        let zeros = compute_zeros(&tape, max_pointer);

        Solver {
            goal: goal_vec,
            tape,
            min_cost,
            pointer,
            max_pointer,
            max_node_cost,
            unique_cells,
            zeros,
        }
    }

    /// Rebuilds the zero cache from the tape, from scratch.
    fn recompute_zeros(&mut self)
        requires
            old(self).wf(),
        ensures
            final(self).spec_goal() == old(self).spec_goal(),
            final(self).spec_tape() == old(self).spec_tape(),
            final(self).spec_min_cost() == old(self).spec_min_cost(),
            final(self).spec_pointer() == old(self).spec_pointer(),
            final(self).spec_max_pointer() == old(self).spec_max_pointer(),
            final(self).spec_max_node_cost() == old(self).spec_max_node_cost(),
            final(self).spec_unique_cells() == old(self).spec_unique_cells(),
            zeros_complete(
                final(self).spec_zeros(),
                final(self).spec_tape(),
                final(self).spec_max_pointer(),
            ),
            final(self).wf(),
    {
        let zs = compute_zeros(&self.tape, self.max_pointer);
        self.zeros = zs;
    }

    /// Entry point of the search: reduces the budget by the admissible lower
    /// bound and explores every move class recursively.
    ///
    /// On success the returned path has one node per goal byte, each inside
    /// `[0, max_pointer]`. A path free of rolling nodes respects the
    /// admissible lower bound, costs at most `max_cost`, and, under
    /// `unique_cells`, never uses a tape cell twice. The tape and the zero
    /// cache are restored exactly.
    pub fn solve(&mut self, max_cost: i32) -> (r: Option<Path>)
        requires
            old(self).wf(),
            -0x1800_0000 <= max_cost <= 0x1800_0000,
        ensures
            Solver::same_state(*old(self), *final(self)),
            r matches Some(p) ==> frame_ok(
                old(self).spec_goal(),
                old(self).spec_tape(),
                old(self).spec_max_pointer(),
                old(self).spec_max_node_cost(),
                old(self).spec_unique_cells(),
                0,
                0,
                old(self).spec_pointer(),
                max_cost - old(self).spec_min_cost(),
                p@,
            ),
            r matches Some(p) ==> p@.len() == old(self).spec_goal().len(),
            r matches Some(p) ==> (no_roll(p@) && old(self).spec_goal().len() >= 1 ==> seq_cost(
                p@,
            ) >= min_cost_spec(old(self).spec_goal())),
            r matches Some(p) ==> (old(self).spec_goal().len() >= 1 && !p@.last().rolling
                ==> seq_cost(p@) <= max_cost),
            old(self).spec_goal().len() == 0 ==> (r matches Some(p) && p@.len() == 0),
            r is Some ==> old(self).spec_goal().len() == 0 || (old(self).spec_min_cost()
                < max_cost && old(self).spec_max_node_cost() > 0),
    {
        let pointer = self.pointer;
        proof {
            lemma_min_cost_spec_bounds(old(self).spec_goal());
        }
        let budget = max_cost - self.min_cost;
        let r = self.exhaustive(0, 0, pointer, budget);
        proof {
            let goal = old(self).spec_goal();
            if goal.len() >= 1 {
                lemma_credits_min_cost(goal, 0);
                assert(credits(goal, 0) == min_cost_spec(goal));
            }
        }
        r
    }

    /// One frame of the branch-and-bound recursion: finds the cheapest path
    /// that emits `goal[start..]` starting from `pointer`, within the budget.
    #[verifier::loop_isolation(false)]
    #[verifier::rlimit(100)]
    fn exhaustive(&mut self, cost: i32, start: usize, pointer: i32, max_cost: i32) -> (r: Option<
        Path,
    >)
        requires
            old(self).wf(),
            start <= old(self).spec_goal().len(),
            0 <= pointer <= old(self).spec_max_pointer(),
            0 <= cost,
            cost <= start * (old(self).spec_max_node_cost() + 258),
            -0x2000_0000 <= max_cost,
            max_cost + 2 * (old(self).spec_goal().len() - start) <= 0x2000_0000,
        ensures
            Solver::same_state(*old(self), *final(self)),
            start == old(self).spec_goal().len() ==> r is Some,
            r is Some ==> start == old(self).spec_goal().len() || (cost < max_cost && old(
                self,
            ).spec_max_node_cost() > 0),
            r matches Some(p) ==> frame_ok(
                old(self).spec_goal(),
                old(self).spec_tape(),
                old(self).spec_max_pointer(),
                old(self).spec_max_node_cost(),
                old(self).spec_unique_cells(),
                cost as int,
                start as int,
                pointer as int,
                max_cost as int,
                p@,
            ),
        decreases old(self).spec_goal().len() - start, 2int,
    {
        let ghost goal = old(self).spec_goal();
        let ghost tape0 = old(self).spec_tape();
        let ghost maxp = old(self).spec_max_pointer();
        let ghost mnc = old(self).spec_max_node_cost();
        let ghost unique = old(self).spec_unique_cells();

        let n = self.goal.len();
        if start == n {
            let p = Path::new();
            proof {
                lemma_credits_nonneg(goal, start as int);
            }
            return Some(p);
        }

        let gs = self.goal[start];
        let nc: i32 = if start + 1 == n {
            0
        } else if gs == self.goal[start + 1] {
            1
        } else {
            2
        };

        let mut min_path: Option<Path> = None;
        proof {
            assert(cost <= 0x4000_0000) by (nonlinear_arith)
                requires
                    cost <= start * (mnc + 258),
                    0 <= start <= 100_000,
                    mnc <= 10_000,
                    0 <= cost,
            ;
        }
        let i_max = if max_cost - cost < self.max_node_cost {
            max_cost - cost
        } else {
            self.max_node_cost
        };
        if i_max <= 0 {
            return None;
        }

        // stay on the same pointer
        if pointer >= 0 {
            let idx = pointer as usize;
            if idx < self.tape.len() {
                let ncost = abs_diff(gs, self.tape[idx]) + 1;
                if ncost <= i_max {
                    min_path = self.try_node(
                        cost,
                        start,
                        pointer,
                        pointer,
                        ncost,
                        nc,
                        max_cost,
                        min_path,
                    );
                }
            }
        }

        min_path = self.step_left(cost, start, pointer, i_max, nc, max_cost, min_path);
        min_path = self.step_right(cost, start, pointer, i_max, nc, max_cost, min_path);
        min_path = self.zip_left(cost, start, pointer, i_max, nc, max_cost, min_path);
        min_path = self.zip_right(cost, start, pointer, i_max, nc, max_cost, min_path);


        min_path
    }

    /// Tries every plain step to the left of the pointer.
    #[verifier::loop_isolation(false)]
    #[verifier::rlimit(100)]
    fn step_left(
        &mut self,
        cost: i32,
        start: usize,
        pointer: i32,
        i_max: i32,
        nc: i32,
        max_cost: i32,
        min_path: Option<Path>,
    ) -> (r: Option<Path>)
        requires
            old(self).wf(),
            start < old(self).spec_goal().len(),
            0 <= pointer <= old(self).spec_max_pointer(),
            0 <= cost,
            cost <= start * (old(self).spec_max_node_cost() + 258),
            -0x2000_0000 <= max_cost,
            max_cost + 2 * (old(self).spec_goal().len() - start) <= 0x2000_0000,
            1 <= i_max,
            i_max <= max_cost - cost,
            i_max <= old(self).spec_max_node_cost(),
            nc == next_cost_at(old(self).spec_goal(), start as int),
            min_path matches Some(mp) ==> fok(
                *old(self),
                cost as int,
                start as int,
                pointer as int,
                max_cost as int,
                mp@,
            ),
        ensures
            Solver::same_state(*old(self), *final(self)),
            r matches Some(p) ==> fok(
                *old(self),
                cost as int,
                start as int,
                pointer as int,
                max_cost as int,
                p@,
            ),
        decreases old(self).spec_goal().len() - start, 1int,
    {
        let ghost goal = old(self).spec_goal();
        let ghost maxp = old(self).spec_max_pointer();
        let ghost mnc = old(self).spec_max_node_cost();
        let ghost unique = old(self).spec_unique_cells();
        let mut min_path = min_path;
        let gs = self.goal[start];
        // move left
        if pointer > 0 {
            let mut i: i32 = 1;
            while i < i_max
                invariant
                    old(self).wf(),
                    Solver::same_state(*old(self), *self),
                    start < goal.len(),
                    1 <= i,
                    min_path matches Some(mp) ==> fok(
                        *old(self),
                        cost as int,
                        start as int,
                        pointer as int,
                        max_cost as int,
                        mp@,
                    ),
                decreases i_max - i,
            {
                if i > pointer {
                    break ;
                }
                let target = pointer - i;
                let idx = target as usize;
                if idx >= self.tape.len() {
                    break ;
                }
                let ncost = abs_diff(gs, self.tape[idx]) + i + 1;
                if ncost <= i_max {
                    min_path = self.try_node(
                        cost,
                        start,
                        pointer,
                        target,
                        ncost,
                        nc,
                        max_cost,
                        min_path,
                    );
                }
                i = i + 1;
            }
        }

        min_path
    }

    /// Tries every plain step to the right of the pointer.
    #[verifier::loop_isolation(false)]
    #[verifier::rlimit(100)]
    fn step_right(
        &mut self,
        cost: i32,
        start: usize,
        pointer: i32,
        i_max: i32,
        nc: i32,
        max_cost: i32,
        min_path: Option<Path>,
    ) -> (r: Option<Path>)
        requires
            old(self).wf(),
            start < old(self).spec_goal().len(),
            0 <= pointer <= old(self).spec_max_pointer(),
            0 <= cost,
            cost <= start * (old(self).spec_max_node_cost() + 258),
            -0x2000_0000 <= max_cost,
            max_cost + 2 * (old(self).spec_goal().len() - start) <= 0x2000_0000,
            1 <= i_max,
            i_max <= max_cost - cost,
            i_max <= old(self).spec_max_node_cost(),
            nc == next_cost_at(old(self).spec_goal(), start as int),
            min_path matches Some(mp) ==> fok(
                *old(self),
                cost as int,
                start as int,
                pointer as int,
                max_cost as int,
                mp@,
            ),
        ensures
            Solver::same_state(*old(self), *final(self)),
            r matches Some(p) ==> fok(
                *old(self),
                cost as int,
                start as int,
                pointer as int,
                max_cost as int,
                p@,
            ),
        decreases old(self).spec_goal().len() - start, 1int,
    {
        let ghost goal = old(self).spec_goal();
        let ghost maxp = old(self).spec_max_pointer();
        let ghost mnc = old(self).spec_max_node_cost();
        let ghost unique = old(self).spec_unique_cells();
        let mut min_path = min_path;
        let gs = self.goal[start];
        // move right
        if pointer < self.max_pointer {
            let mut i: i32 = 1;
            while i < i_max
                invariant
                    old(self).wf(),
                    Solver::same_state(*old(self), *self),
                    start < goal.len(),
                    1 <= i,
                    min_path matches Some(mp) ==> fok(
                        *old(self),
                        cost as int,
                        start as int,
                        pointer as int,
                        max_cost as int,
                        mp@,
                    ),
                decreases i_max - i,
            {
                if pointer + i > self.max_pointer {
                    break ;
                }
                let target = pointer + i;
                let idx = target as usize;
                if idx >= self.tape.len() {
                    break ;
                }
                let ncost = abs_diff(gs, self.tape[idx]) + i + 1;
                if ncost <= i_max {
                    min_path = self.try_node(
                        cost,
                        start,
                        pointer,
                        target,
                        ncost,
                        nc,
                        max_cost,
                        min_path,
                    );
                }
                i = i + 1;
            }
        }

        min_path
    }

    /// Tries the targets reachable through a `[<]` zip over the zeros left of the pointer.
    #[verifier::loop_isolation(false)]
    #[verifier::rlimit(100)]
    fn zip_left(
        &mut self,
        cost: i32,
        start: usize,
        pointer: i32,
        i_max: i32,
        nc: i32,
        max_cost: i32,
        min_path: Option<Path>,
    ) -> (r: Option<Path>)
        requires
            old(self).wf(),
            start < old(self).spec_goal().len(),
            0 <= pointer <= old(self).spec_max_pointer(),
            0 <= cost,
            cost <= start * (old(self).spec_max_node_cost() + 258),
            -0x2000_0000 <= max_cost,
            max_cost + 2 * (old(self).spec_goal().len() - start) <= 0x2000_0000,
            1 <= i_max,
            i_max <= max_cost - cost,
            i_max <= old(self).spec_max_node_cost(),
            nc == next_cost_at(old(self).spec_goal(), start as int),
            min_path matches Some(mp) ==> fok(
                *old(self),
                cost as int,
                start as int,
                pointer as int,
                max_cost as int,
                mp@,
            ),
        ensures
            Solver::same_state(*old(self), *final(self)),
            r matches Some(p) ==> fok(
                *old(self),
                cost as int,
                start as int,
                pointer as int,
                max_cost as int,
                p@,
            ),
        decreases old(self).spec_goal().len() - start, 1int,
    {
        let ghost goal = old(self).spec_goal();
        let ghost maxp = old(self).spec_max_pointer();
        let ghost mnc = old(self).spec_max_node_cost();
        let ghost unique = old(self).spec_unique_cells();
        let mut min_path = min_path;
        let gs = self.goal[start];
        // zip to the previous zero with [<]
        if pointer > 0 {
            let mut pj: i32 = 0;
            while pj <= pointer
                invariant
                    0 <= pj <= pointer + 1,
                decreases pointer - pj + 1,
            {
                let idx = (pointer - pj) as usize;
                if idx >= self.tape.len() {
                    break ;
                }
                if self.tape[idx] != 0 {
                    break ;
                }
                pj = pj + 1;
            }
            if pj <= pointer {
                let zcost = 3 + pj;
                let search = pointer - pj;
                proof {
                    lemma_zeros_sorted(self.spec_zeros(), maxp);
                }
                let lb = lower_bound(self.zeros.as_slice(), search);
                if lb >= 1 {
                    let prev_zero = self.zeros[lb - 1];

                    // step further left from the previous zero
                    let mut i: i32 = 1;
                    while i < i_max
                        invariant
                            old(self).wf(),
                            Solver::same_state(*old(self), *self),
                            start < goal.len(),
                            1 <= i,
                            0 <= prev_zero <= maxp,
                            3 <= zcost <= maxp + 3,
                            min_path matches Some(mp) ==> fok(
                                *old(self),
                                cost as int,
                                start as int,
                                pointer as int,
                                max_cost as int,
                                mp@,
                            ),
                        decreases i_max - i,
                    {
                        if i >= i_max - 3 {
                            break ;
                        }
                        if i > prev_zero {
                            break ;
                        }
                        let target = prev_zero - i;
                        if target < 0 {
                            break ;
                        }
                        let idx = target as usize;
                        if idx >= self.tape.len() {
                            break ;
                        }
                        let ncost = abs_diff(gs, self.tape[idx]) + i + 1 + zcost;
                        if ncost <= i_max {
                            min_path = self.try_node(
                                cost,
                                start,
                                pointer,
                                target,
                                ncost,
                                nc,
                                max_cost,
                                min_path,
                            );
                        }
                        i = i + 1;
                    }

                    // step right from the previous zero, up to the midpoint
                    let d = pointer - prev_zero;
                    let limit: i32 = if d >= 3 {
                        (((d - 3) as u32) / 2) as i32
                    } else {
                        -1
                    };
                    let mut i: i32 = 1;
                    while i < i_max
                        invariant
                            old(self).wf(),
                            Solver::same_state(*old(self), *self),
                            start < goal.len(),
                            1 <= i,
                            0 <= prev_zero <= maxp,
                            3 <= zcost <= maxp + 3,
                            min_path matches Some(mp) ==> fok(
                                *old(self),
                                cost as int,
                                start as int,
                                pointer as int,
                                max_cost as int,
                                mp@,
                            ),
                        decreases i_max - i,
                    {
                        if i >= i_max - 3 {
                            break ;
                        }
                        if i > limit {
                            break ;
                        }
                        let target = prev_zero + i;
                        if target > self.max_pointer {
                            break ;
                        }
                        let idx = target as usize;
                        if idx >= self.tape.len() {
                            break ;
                        }
                        let ncost = abs_diff(gs, self.tape[idx]) + i + 1 + zcost;
                        if ncost <= i_max {
                            min_path = self.try_node(
                                cost,
                                start,
                                pointer,
                                target,
                                ncost,
                                nc,
                                max_cost,
                                min_path,
                            );
                        }
                        i = i + 1;
                    }

                    // roll towards the previous zero with [.<]
                    min_path = self.try_roll_left(
                        cost,
                        start,
                        pointer,
                        pj,
                        prev_zero,
                        i_max,
                        nc,
                        max_cost,
                        min_path,
                    );
                }
            }
        }

        min_path
    }

    /// Tries the targets reachable through a `[>]` zip over the zeros right of the pointer.
    #[verifier::loop_isolation(false)]
    #[verifier::rlimit(100)]
    fn zip_right(
        &mut self,
        cost: i32,
        start: usize,
        pointer: i32,
        i_max: i32,
        nc: i32,
        max_cost: i32,
        min_path: Option<Path>,
    ) -> (r: Option<Path>)
        requires
            old(self).wf(),
            start < old(self).spec_goal().len(),
            0 <= pointer <= old(self).spec_max_pointer(),
            0 <= cost,
            cost <= start * (old(self).spec_max_node_cost() + 258),
            -0x2000_0000 <= max_cost,
            max_cost + 2 * (old(self).spec_goal().len() - start) <= 0x2000_0000,
            1 <= i_max,
            i_max <= max_cost - cost,
            i_max <= old(self).spec_max_node_cost(),
            nc == next_cost_at(old(self).spec_goal(), start as int),
            min_path matches Some(mp) ==> fok(
                *old(self),
                cost as int,
                start as int,
                pointer as int,
                max_cost as int,
                mp@,
            ),
        ensures
            Solver::same_state(*old(self), *final(self)),
            r matches Some(p) ==> fok(
                *old(self),
                cost as int,
                start as int,
                pointer as int,
                max_cost as int,
                p@,
            ),
        decreases old(self).spec_goal().len() - start, 1int,
    {
        let ghost goal = old(self).spec_goal();
        let ghost maxp = old(self).spec_max_pointer();
        let ghost mnc = old(self).spec_max_node_cost();
        let ghost unique = old(self).spec_unique_cells();
        let mut min_path = min_path;
        let gs = self.goal[start];
        // zip to the next zero with [>]
        if pointer <= self.max_pointer {
            let mut nj: i32 = 0;
            while pointer + nj <= self.max_pointer
                invariant
                    0 <= nj <= maxp - pointer + 1,
                decreases maxp - pointer - nj + 1,
            {
                let idx = (pointer + nj) as usize;
                if idx >= self.tape.len() {
                    break ;
                }
                if self.tape[idx] != 0 {
                    break ;
                }
                nj = nj + 1;
            }
            if pointer + nj <= self.max_pointer {
                let zcost = 3 + nj;
                proof {
                    lemma_zeros_sorted(self.spec_zeros(), maxp);
                }
                let lb = lower_bound(self.zeros.as_slice(), pointer + nj);
                if lb < self.zeros.len() {
                    let next_zero = self.zeros[lb];

                    // step further right from the next zero
                    let mut i: i32 = 1;
                    while i < i_max
                        invariant
                            old(self).wf(),
                            Solver::same_state(*old(self), *self),
                            start < goal.len(),
                            1 <= i,
                            0 <= next_zero <= maxp,
                            3 <= zcost <= maxp + 3,
                            min_path matches Some(mp) ==> fok(
                                *old(self),
                                cost as int,
                                start as int,
                                pointer as int,
                                max_cost as int,
                                mp@,
                            ),
                        decreases i_max - i,
                    {
                        if i >= i_max - 3 {
                            break ;
                        }
                        if next_zero + i > self.max_pointer {
                            break ;
                        }
                        let target = next_zero + i;
                        let idx = target as usize;
                        if idx >= self.tape.len() {
                            break ;
                        }
                        let ncost = abs_diff(gs, self.tape[idx]) + i + 1 + zcost;
                        if ncost <= i_max {
                            min_path = self.try_node(
                                cost,
                                start,
                                pointer,
                                target,
                                ncost,
                                nc,
                                max_cost,
                                min_path,
                            );
                        }
                        i = i + 1;
                    }

                    // step back towards the pointer, up to the midpoint
                    let d = next_zero - pointer;
                    let limit: i32 = if d >= 3 {
                        (((d - 3) as u32) / 2) as i32
                    } else {
                        -1
                    };
                    let mut i: i32 = 1;
                    while i < i_max
                        invariant
                            old(self).wf(),
                            Solver::same_state(*old(self), *self),
                            start < goal.len(),
                            1 <= i,
                            0 <= next_zero <= maxp,
                            3 <= zcost <= maxp + 3,
                            min_path matches Some(mp) ==> fok(
                                *old(self),
                                cost as int,
                                start as int,
                                pointer as int,
                                max_cost as int,
                                mp@,
                            ),
                        decreases i_max - i,
                    {
                        if i >= i_max - 3 {
                            break ;
                        }
                        if i > limit {
                            break ;
                        }
                        let target = next_zero - i;
                        if target < 0 {
                            break ;
                        }
                        let idx = target as usize;
                        if idx >= self.tape.len() {
                            break ;
                        }
                        let ncost = abs_diff(gs, self.tape[idx]) + i + 1 + zcost;
                        if ncost <= i_max {
                            min_path = self.try_node(
                                cost,
                                start,
                                pointer,
                                target,
                                ncost,
                                nc,
                                max_cost,
                                min_path,
                            );
                        }
                        i = i + 1;
                    }

                    // roll towards the next zero with [.>]
                    min_path = self.try_roll_right(
                        cost,
                        start,
                        pointer,
                        nj,
                        next_zero,
                        i_max,
                        nc,
                        max_cost,
                        min_path,
                    );
                }
            }
        }
        min_path
    }

    /// Tries the `[.<]` rolling emissions over the run of nonzero cells
    /// between the previous zero and the pointer: each accepted candidate
    /// emits one goal byte per cell of the run in a single recursion step.
    #[verifier::loop_isolation(false)]
    #[verifier::rlimit(100)]
    fn try_roll_left(
        &mut self,
        cost: i32,
        start: usize,
        pointer: i32,
        pj0: i32,
        prev_zero: i32,
        i_max: i32,
        nc: i32,
        max_cost: i32,
        min_path: Option<Path>,
    ) -> (r: Option<Path>)
        requires
            old(self).wf(),
            start < old(self).spec_goal().len(),
            0 <= pointer <= old(self).spec_max_pointer(),
            0 <= prev_zero <= old(self).spec_max_pointer(),
            0 <= pj0 <= pointer,
            prev_zero < pointer - pj0,
            0 <= cost,
            cost <= start * (old(self).spec_max_node_cost() + 258),
            -0x2000_0000 <= max_cost,
            max_cost + 2 * (old(self).spec_goal().len() - start) <= 0x2000_0000,
            1 <= i_max,
            i_max <= max_cost - cost,
            i_max <= old(self).spec_max_node_cost(),
            nc == next_cost_at(old(self).spec_goal(), start as int),
            min_path matches Some(mp) ==> fok(
                *old(self),
                cost as int,
                start as int,
                pointer as int,
                max_cost as int,
                mp@,
            ),
        ensures
            Solver::same_state(*old(self), *final(self)),
            r matches Some(p) ==> fok(
                *old(self),
                cost as int,
                start as int,
                pointer as int,
                max_cost as int,
                p@,
            ),
        decreases old(self).spec_goal().len() - start, 0int,
    {
        let ghost goal = old(self).spec_goal();
        let ghost tape0 = old(self).spec_tape();
        let ghost maxp = old(self).spec_max_pointer();
        let ghost mnc = old(self).spec_max_node_cost();
        let ghost unique = old(self).spec_unique_cells();
        let mut min_path = min_path;
        let n = self.goal.len();
        let gs = self.goal[start];
        let rem: i32 = (n - start) as i32;

        let mut pj = pj0;
        let mut run_len = pointer - pj - prev_zero;

        // extend the run past the pointer while the cells there are nonzero
        while pj < 1
            invariant
                run_len == pointer - pj - prev_zero,
                pointer - pj <= maxp,
                pj <= pj0,
            decreases maxp - (pointer - pj),
        {
            if pointer - pj >= self.max_pointer {
                break ;
            }
            let idx = (pointer - pj + 1) as usize;
            if self.tape[idx] == 0 {
                break ;
            }
            if !(run_len < rem) {
                break ;
            }
            pj = pj - 1;
            run_len = run_len + 1;
        }

        while run_len >= 4 && run_len <= rem
            invariant
                run_len == pointer - pj - prev_zero,
                pointer - pj <= maxp,
                Solver::same_state(*old(self), *self),
                min_path matches Some(mp) ==> fok(
                    *old(self),
                    cost as int,
                    start as int,
                    pointer as int,
                    max_cost as int,
                    mp@,
                ),
            decreases run_len,
        {
            let target = pointer - pj;
            let idx = target as usize;
            if idx >= self.tape.len() {
                break ;
            }
            let pj_abs = if pj < 0 {
                -pj
            } else {
                pj
            };
            let ncost = abs_diff(gs, self.tape[idx]) + pj_abs + 1;
            if ncost <= i_max {
                let mut subpath = Path::new();
                subpath.add_last(Node::new_with_rolling(target, ncost + 3));
                let mut dcost: i32 = nc;
                let mut bi: i32 = 1;
                let mut valid = true;
                while bi < run_len
                    invariant
                        1 <= bi <= run_len,
                        subpath@.len() == bi,
                        subpath@[0].pointer == target,
                        subpath@[0].cost == ncost + 3,
                        subpath@[0].rolling,
                        forall|k: int|
                            1 <= k < bi ==> (#[trigger] subpath@[k]).pointer == target - k,
                        forall|k: int|
                            1 <= k < bi ==> (#[trigger] subpath@[k]).cost == abs_diff_spec(
                                goal[start + k],
                                tape0[target - k],
                            ),
                        forall|k: int| 1 <= k < bi ==> (#[trigger] subpath@[k]).rolling,
                        forall|k: int|
                            0 <= k < bi ==> 0 <= (#[trigger] subpath@[k]).cost <= i_max + 3,
                        forall|k: int|
                            0 <= k < bi ==> 0 <= (#[trigger] subpath@[k]).pointer <= maxp,
                        dcost == credits(goal, start as int) - credits(goal, start + bi),
                        0 <= dcost <= 2 * (goal.len() - start),
                    decreases run_len - bi,
                {
                    let cell = pointer - pj - bi;
                    if cell < 0 {
                        valid = false;
                        break ;
                    }
                    let cidx = cell as usize;
                    if cidx >= self.tape.len() {
                        valid = false;
                        break ;
                    }
                    let delta = abs_diff(self.goal[start + (bi as usize)], self.tape[cidx]);
                    if delta > i_max {
                        valid = false;
                        break ;
                    }
                    subpath.add_last(Node::new_with_rolling(cell, delta));
                    let s_i = start + (bi as usize);
                    let step: i32 = if s_i + 1 == n {
                        0
                    } else if self.goal[s_i] == self.goal[s_i + 1] {
                        1
                    } else {
                        2
                    };
                    proof {
                        assert(credits(goal, start + bi) == next_cost_at(goal, start + bi)
                            + credits(goal, start + bi + 1));
                        lemma_credits_nonneg(goal, start + bi + 1);
                        lemma_credits_bounds(goal, start as int, start + bi + 1);
                    }
                    dcost = dcost + step;
                    bi = bi + 1;
                }
                if valid && subpath.len() == run_len as usize {
                    let ghost block = subpath@;

                    // save the cells of the run
                    let mut saved: Vec<u8> = Vec::new();
                    let mut k: usize = 0;
                    while k < subpath.len()
                        invariant
                            k <= block.len(),
                            subpath@ == block,
                            saved@.len() == k,
                            forall|m: int|
                                0 <= m < k ==> saved@[m] == tape0[(#[trigger] block[m]).pointer
                                    as int],
                            Solver::same_state(*old(self), *self),
                        decreases block.len() - k,
                    {
                        let nd = subpath.get(k);
                        saved.push(self.tape[nd.pointer as usize]);
                        k = k + 1;
                    }

                    // write the goal bytes over the run
                    let mut k: usize = 0;
                    while k < subpath.len()
                        invariant
                            k <= block.len(),
                            subpath@ == block,
                            Solver::same_except_tape(*old(self), *self),
                            self.spec_tape().len() == tape0.len(),
                            forall|j: int|
                                0 <= j < tape0.len() && !(target - k < j <= target)
                                    ==> self.spec_tape()[j] == tape0[j],
                            forall|j: int|
                                target - k < j <= target ==> self.spec_tape()[j] == goal[start + (
                                target - j)],
                        decreases block.len() - k,
                    {
                        let nd = subpath.get(k);
                        self.tape.set(nd.pointer as usize, self.goal[start + k]);
                        k = k + 1;
                    }

                    proof {
                        lemma_seq_cost_nonneg(block);
                        assert forall|m: int| 0 <= m <= block.len() implies i32::MIN
                            <= #[trigger] seq_cost(block.take(m)) <= i32::MAX by {
                            lemma_seq_cost_upper(block, i_max + 3);
                            assert(seq_cost(block) <= block.len() * (i_max + 3)
                                <= 0x4000_0000) by (nonlinear_arith)
                                requires
                                    seq_cost(block) <= block.len() * (i_max + 3),
                                    block.len() <= 100_000,
                                    i_max <= 10_000,
                            ;
                            lemma_seq_cost_prefix_bounds(block, m);
                        }
                    }
                    let sub_cost = subpath.cost();
                    proof {
                        lemma_seq_cost_upper(block, mnc + 258);
                        assert(cost + sub_cost <= (start + run_len) * (mnc + 258))
                            by (nonlinear_arith)
                            requires
                                cost <= start * (mnc + 258),
                                sub_cost <= block.len() * (mnc + 258),
                                block.len() == run_len,
                                0 <= start,
                                1 <= i_max <= mnc,
                        ;
                        assert(cost + sub_cost <= 0x4000_0000) by (nonlinear_arith)
                            requires
                                cost + sub_cost <= (start + run_len) * (mnc + 258),
                                0 <= cost,
                                0 <= sub_cost,
                                0 <= start + run_len <= 100_000,
                                1 <= mnc <= 10_000,
                        ;
                        lemma_credits_bounds(goal, start as int, start + run_len);
                        assert(self.wf());
                    }
                    let r2 = self.exhaustive(
                        cost + sub_cost,
                        start + (run_len as usize),
                        prev_zero,
                        max_cost + dcost,
                    );

                    // restore the cells of the run
                    let ghost written = self.spec_tape();
                    let mut k: usize = 0;
                    while k < subpath.len()
                        invariant
                            k <= block.len(),
                            subpath@ == block,
                            saved@.len() == block.len(),
                            forall|m: int|
                                0 <= m < block.len() ==> saved@[m] == tape0[(
                                #[trigger] block[m]).pointer as int],
                            Solver::same_except_tape(*old(self), *self),
                            self.spec_tape().len() == tape0.len(),
                            forall|j: int|
                                0 <= j < tape0.len() && !(target - block.len() < j <= target)
                                    ==> self.spec_tape()[j] == tape0[j],
                            forall|j: int|
                                target - block.len() < j <= target - k ==> self.spec_tape()[j]
                                    == goal[start + (target - j)],
                            forall|j: int|
                                target - k < j <= target ==> self.spec_tape()[j] == tape0[j],
                        decreases block.len() - k,
                    {
                        let nd = subpath.get(k);
                        self.tape.set(nd.pointer as usize, saved[k]);
                        k = k + 1;
                    }
                    proof {
                        assert(self.spec_tape() =~= tape0);
                    }

                    if let Some(subpath2) = r2 {
                        let ghost sp2 = subpath2@;
                        proof {
                            assert(seq_cost(sp2) <= (goal.len() - (start + run_len)) * (mnc
                                + 258));
                            lemma_seq_cost_nonneg(sp2);
                            assert forall|m: int| 0 <= m <= sp2.len() implies i32::MIN
                                <= #[trigger] seq_cost(sp2.take(m)) <= i32::MAX by {
                                vstd::arithmetic::mul::lemma_mul_upper_bound(
                                    goal.len() - (start + run_len),
                                    100_000,
                                    mnc + 258,
                                    10_258,
                                );
                                assert(seq_cost(sp2) <= 0x4000_0000);
                                lemma_seq_cost_prefix_bounds(sp2, m);
                            }
                        }
                        let c2 = subpath2.cost();
                        proof {
                            assert(sub_cost + c2 <= 0x4000_0000) by (nonlinear_arith)
                                requires
                                    sub_cost <= block.len() * (mnc + 258),
                                    c2 <= (goal.len() - (start + run_len)) * (mnc + 258),
                                    block.len() == run_len,
                                    0 <= start,
                                    4 <= run_len,
                                    start + run_len <= goal.len() <= 100_000,
                                    1 <= mnc <= 10_000,
                                    0 <= sub_cost,
                                    0 <= c2,
                            ;
                        }
                        let better = match &min_path {
                            Some(mp) => {
                                proof {
                                    assert(seq_cost(mp@) <= 0x4000_0000) by (nonlinear_arith)
                                        requires
                                            seq_cost(mp@) <= (goal.len() - start) * (mnc + 258),
                                            goal.len() <= 100_000,
                                            mnc <= 10_000,
                                            start <= goal.len(),
                                    ;
                                    assert forall|m: int| 0 <= m <= mp@.len() implies i32::MIN
                                        <= #[trigger] seq_cost(mp@.take(m)) <= i32::MAX by {
                                        lemma_seq_cost_prefix_bounds(mp@, m);
                                    }
                                    lemma_seq_cost_nonneg(mp@);
                                }
                                sub_cost + c2 < mp.cost()
                            },
                            None => true,
                        };
                        if better {
                            subpath.extend_back(&subpath2);
                            proof {
                                let p = subpath@;
                                assert(p == block + sp2);
                                lemma_seq_cost_concat(block, sp2);
                                assert(p.len() == goal.len() - start);
                                assert forall|i: int| 0 <= i < p.len() implies 0 <= (
                                #[trigger] p[i]).pointer <= maxp by {
                                    if i >= block.len() {
                                        assert(p[i] == sp2[i - block.len()]);
                                    }
                                }
                                assert forall|i: int| 0 <= i < p.len() implies (
                                #[trigger] p[i]).cost >= 0 by {
                                    if i >= block.len() {
                                        assert(p[i] == sp2[i - block.len()]);
                                    }
                                }
                                assert(seq_cost(p) <= (goal.len() - start) * (mnc + 258))
                                    by (nonlinear_arith)
                                    requires
                                        seq_cost(p) == seq_cost(block) + seq_cost(sp2),
                                        seq_cost(block) <= block.len() * (mnc + 258),
                                        seq_cost(sp2) <= (goal.len() - (start + run_len)) * (mnc
                                            + 258),
                                        block.len() == run_len,
                                        start + run_len <= goal.len(),
                                        mnc >= 1,
                                ;
                                assert(p[0] == block[0]);
                                assert(p[0].rolling);
                                assert(!no_roll(p));
                                if start < goal.len() && !p.last().rolling {
                                    assert(sp2.len() > 0) by {
                                        if sp2.len() == 0 {
                                            assert(p.last() == block[block.len() - 1]);
                                        }
                                    }
                                    assert(p.last() == sp2.last());
                                    assert(start + run_len < goal.len());
                                    assert(cost + sub_cost + seq_cost(sp2) <= max_cost + dcost
                                        + credits(goal, start + run_len));
                                }
                            }
                            min_path = Some(subpath);
                        }
                    }
                }
            }
            pj = pj + 1;
            run_len = run_len - 1;
        }
        min_path
    }

    /// Tries the `[.>]` rolling emissions over the run of nonzero cells
    /// between the pointer and the next zero: the mirror image of
    /// `try_roll_left`.
    #[verifier::loop_isolation(false)]
    #[verifier::rlimit(100)]
    fn try_roll_right(
        &mut self,
        cost: i32,
        start: usize,
        pointer: i32,
        nj0: i32,
        next_zero: i32,
        i_max: i32,
        nc: i32,
        max_cost: i32,
        min_path: Option<Path>,
    ) -> (r: Option<Path>)
        requires
            old(self).wf(),
            start < old(self).spec_goal().len(),
            0 <= pointer <= old(self).spec_max_pointer(),
            0 <= next_zero <= old(self).spec_max_pointer(),
            0 <= nj0,
            pointer + nj0 <= old(self).spec_max_pointer(),
            next_zero >= pointer + nj0,
            0 <= cost,
            cost <= start * (old(self).spec_max_node_cost() + 258),
            -0x2000_0000 <= max_cost,
            max_cost + 2 * (old(self).spec_goal().len() - start) <= 0x2000_0000,
            1 <= i_max,
            i_max <= max_cost - cost,
            i_max <= old(self).spec_max_node_cost(),
            nc == next_cost_at(old(self).spec_goal(), start as int),
            min_path matches Some(mp) ==> fok(
                *old(self),
                cost as int,
                start as int,
                pointer as int,
                max_cost as int,
                mp@,
            ),
        ensures
            Solver::same_state(*old(self), *final(self)),
            r matches Some(p) ==> fok(
                *old(self),
                cost as int,
                start as int,
                pointer as int,
                max_cost as int,
                p@,
            ),
        decreases old(self).spec_goal().len() - start, 0int,
    {
        let ghost goal = old(self).spec_goal();
        let ghost tape0 = old(self).spec_tape();
        let ghost maxp = old(self).spec_max_pointer();
        let ghost mnc = old(self).spec_max_node_cost();
        let ghost unique = old(self).spec_unique_cells();
        let mut min_path = min_path;
        let n = self.goal.len();
        let gs = self.goal[start];
        let rem: i32 = (n - start) as i32;

        let mut nj = nj0;
        let mut run_len = next_zero - pointer - nj;

        // extend the run past the pointer while the cells there are nonzero
        while nj < 1
            invariant
                run_len == next_zero - pointer - nj,
                pointer + nj >= 0,
                nj <= nj0,
            decreases pointer + nj,
        {
            if pointer + nj <= 0 {
                break ;
            }
            let idx = (pointer + nj - 1) as usize;
            if self.tape[idx] == 0 {
                break ;
            }
            if !(run_len < rem) {
                break ;
            }
            nj = nj - 1;
            run_len = run_len + 1;
        }

        while run_len >= 4 && run_len <= rem
            invariant
                run_len == next_zero - pointer - nj,
                pointer + nj >= 0,
                Solver::same_state(*old(self), *self),
                min_path matches Some(mp) ==> fok(
                    *old(self),
                    cost as int,
                    start as int,
                    pointer as int,
                    max_cost as int,
                    mp@,
                ),
            decreases run_len,
        {
            let target = pointer + nj;
            let idx = target as usize;
            if idx >= self.tape.len() {
                break ;
            }
            let nj_abs = if nj < 0 {
                -nj
            } else {
                nj
            };
            let ncost = abs_diff(gs, self.tape[idx]) + nj_abs + 1;
            if ncost <= i_max {
                let mut subpath = Path::new();
                subpath.add_last(Node::new_with_rolling(target, ncost + 3));
                let mut dcost: i32 = nc;
                let mut bi: i32 = 1;
                let mut valid = true;
                while bi < run_len
                    invariant
                        1 <= bi <= run_len,
                        subpath@.len() == bi,
                        subpath@[0].pointer == target,
                        subpath@[0].cost == ncost + 3,
                        subpath@[0].rolling,
                        forall|k: int|
                            1 <= k < bi ==> (#[trigger] subpath@[k]).pointer == target + k,
                        forall|k: int|
                            1 <= k < bi ==> (#[trigger] subpath@[k]).cost == abs_diff_spec(
                                goal[start + k],
                                tape0[target + k],
                            ),
                        forall|k: int| 1 <= k < bi ==> (#[trigger] subpath@[k]).rolling,
                        forall|k: int|
                            0 <= k < bi ==> 0 <= (#[trigger] subpath@[k]).cost <= i_max + 3,
                        forall|k: int|
                            0 <= k < bi ==> 0 <= (#[trigger] subpath@[k]).pointer <= maxp,
                        dcost == credits(goal, start as int) - credits(goal, start + bi),
                        0 <= dcost <= 2 * (goal.len() - start),
                    decreases run_len - bi,
                {
                    let cell = pointer + nj + bi;
                    if cell > self.max_pointer {
                        valid = false;
                        break ;
                    }
                    let cidx = cell as usize;
                    if cidx >= self.tape.len() {
                        valid = false;
                        break ;
                    }
                    let delta = abs_diff(self.goal[start + (bi as usize)], self.tape[cidx]);
                    if delta > i_max {
                        valid = false;
                        break ;
                    }
                    subpath.add_last(Node::new_with_rolling(cell, delta));
                    let s_i = start + (bi as usize);
                    let step: i32 = if s_i + 1 == n {
                        0
                    } else if self.goal[s_i] == self.goal[s_i + 1] {
                        1
                    } else {
                        2
                    };
                    proof {
                        assert(credits(goal, start + bi) == next_cost_at(goal, start + bi)
                            + credits(goal, start + bi + 1));
                        lemma_credits_nonneg(goal, start + bi + 1);
                        lemma_credits_bounds(goal, start as int, start + bi + 1);
                    }
                    dcost = dcost + step;
                    bi = bi + 1;
                }
                if valid && subpath.len() == run_len as usize {
                    let ghost block = subpath@;

                    // save the cells of the run
                    let mut saved: Vec<u8> = Vec::new();
                    let mut k: usize = 0;
                    while k < subpath.len()
                        invariant
                            k <= block.len(),
                            subpath@ == block,
                            saved@.len() == k,
                            forall|m: int|
                                0 <= m < k ==> saved@[m] == tape0[(#[trigger] block[m]).pointer
                                    as int],
                            Solver::same_state(*old(self), *self),
                        decreases block.len() - k,
                    {
                        let nd = subpath.get(k);
                        saved.push(self.tape[nd.pointer as usize]);
                        k = k + 1;
                    }

                    // write the goal bytes over the run
                    let mut k: usize = 0;
                    while k < subpath.len()
                        invariant
                            k <= block.len(),
                            subpath@ == block,
                            Solver::same_except_tape(*old(self), *self),
                            self.spec_tape().len() == tape0.len(),
                            forall|j: int|
                                0 <= j < tape0.len() && !(target <= j < target + k)
                                    ==> self.spec_tape()[j] == tape0[j],
                            forall|j: int|
                                target <= j < target + k ==> self.spec_tape()[j] == goal[start + (
                                j - target)],
                        decreases block.len() - k,
                    {
                        let nd = subpath.get(k);
                        self.tape.set(nd.pointer as usize, self.goal[start + k]);
                        k = k + 1;
                    }

                    proof {
                        lemma_seq_cost_nonneg(block);
                        assert forall|m: int| 0 <= m <= block.len() implies i32::MIN
                            <= #[trigger] seq_cost(block.take(m)) <= i32::MAX by {
                            lemma_seq_cost_upper(block, i_max + 3);
                            assert(seq_cost(block) <= block.len() * (i_max + 3)
                                <= 0x4000_0000) by (nonlinear_arith)
                                requires
                                    seq_cost(block) <= block.len() * (i_max + 3),
                                    block.len() <= 100_000,
                                    i_max <= 10_000,
                            ;
                            lemma_seq_cost_prefix_bounds(block, m);
                        }
                    }
                    let sub_cost = subpath.cost();
                    proof {
                        lemma_seq_cost_upper(block, mnc + 258);
                        assert(cost + sub_cost <= (start + run_len) * (mnc + 258))
                            by (nonlinear_arith)
                            requires
                                cost <= start * (mnc + 258),
                                sub_cost <= block.len() * (mnc + 258),
                                block.len() == run_len,
                                0 <= start,
                                1 <= i_max <= mnc,
                        ;
                        assert(cost + sub_cost <= 0x4000_0000) by (nonlinear_arith)
                            requires
                                cost + sub_cost <= (start + run_len) * (mnc + 258),
                                0 <= cost,
                                0 <= sub_cost,
                                0 <= start + run_len <= 100_000,
                                1 <= mnc <= 10_000,
                        ;
                        lemma_credits_bounds(goal, start as int, start + run_len);
                        assert(self.wf());
                    }
                    let r2 = self.exhaustive(
                        cost + sub_cost,
                        start + (run_len as usize),
                        next_zero,
                        max_cost + dcost,
                    );

                    // restore the cells of the run
                    let mut k: usize = 0;
                    while k < subpath.len()
                        invariant
                            k <= block.len(),
                            subpath@ == block,
                            saved@.len() == block.len(),
                            forall|m: int|
                                0 <= m < block.len() ==> saved@[m] == tape0[(
                                #[trigger] block[m]).pointer as int],
                            Solver::same_except_tape(*old(self), *self),
                            self.spec_tape().len() == tape0.len(),
                            forall|j: int|
                                0 <= j < tape0.len() && !(target <= j < target + block.len())
                                    ==> self.spec_tape()[j] == tape0[j],
                            forall|j: int|
                                target + k <= j < target + block.len() ==> self.spec_tape()[j]
                                    == goal[start + (j - target)],
                            forall|j: int|
                                target <= j < target + k ==> self.spec_tape()[j] == tape0[j],
                        decreases block.len() - k,
                    {
                        let nd = subpath.get(k);
                        self.tape.set(nd.pointer as usize, saved[k]);
                        k = k + 1;
                    }
                    proof {
                        assert(self.spec_tape() =~= tape0);
                    }

                    if let Some(subpath2) = r2 {
                        let ghost sp2 = subpath2@;
                        proof {
                            assert(seq_cost(sp2) <= (goal.len() - (start + run_len)) * (mnc
                                + 258));
                            lemma_seq_cost_nonneg(sp2);
                            assert forall|m: int| 0 <= m <= sp2.len() implies i32::MIN
                                <= #[trigger] seq_cost(sp2.take(m)) <= i32::MAX by {
                                vstd::arithmetic::mul::lemma_mul_upper_bound(
                                    goal.len() - (start + run_len),
                                    100_000,
                                    mnc + 258,
                                    10_258,
                                );
                                assert(seq_cost(sp2) <= 0x4000_0000);
                                lemma_seq_cost_prefix_bounds(sp2, m);
                            }
                        }
                        let c2 = subpath2.cost();
                        proof {
                            assert(sub_cost + c2 <= 0x4000_0000) by (nonlinear_arith)
                                requires
                                    sub_cost <= block.len() * (mnc + 258),
                                    c2 <= (goal.len() - (start + run_len)) * (mnc + 258),
                                    block.len() == run_len,
                                    0 <= start,
                                    4 <= run_len,
                                    start + run_len <= goal.len() <= 100_000,
                                    1 <= mnc <= 10_000,
                                    0 <= sub_cost,
                                    0 <= c2,
                            ;
                        }
                        let better = match &min_path {
                            Some(mp) => {
                                proof {
                                    assert(seq_cost(mp@) <= 0x4000_0000) by (nonlinear_arith)
                                        requires
                                            seq_cost(mp@) <= (goal.len() - start) * (mnc + 258),
                                            goal.len() <= 100_000,
                                            mnc <= 10_000,
                                            start <= goal.len(),
                                    ;
                                    assert forall|m: int| 0 <= m <= mp@.len() implies i32::MIN
                                        <= #[trigger] seq_cost(mp@.take(m)) <= i32::MAX by {
                                        lemma_seq_cost_prefix_bounds(mp@, m);
                                    }
                                    lemma_seq_cost_nonneg(mp@);
                                }
                                sub_cost + c2 < mp.cost()
                            },
                            None => true,
                        };
                        if better {
                            subpath.extend_back(&subpath2);
                            proof {
                                let p = subpath@;
                                assert(p == block + sp2);
                                lemma_seq_cost_concat(block, sp2);
                                assert(p.len() == goal.len() - start);
                                assert forall|i: int| 0 <= i < p.len() implies 0 <= (
                                #[trigger] p[i]).pointer <= maxp by {
                                    if i >= block.len() {
                                        assert(p[i] == sp2[i - block.len()]);
                                    }
                                }
                                assert forall|i: int| 0 <= i < p.len() implies (
                                #[trigger] p[i]).cost >= 0 by {
                                    if i >= block.len() {
                                        assert(p[i] == sp2[i - block.len()]);
                                    }
                                }
                                assert(seq_cost(p) <= (goal.len() - start) * (mnc + 258))
                                    by (nonlinear_arith)
                                    requires
                                        seq_cost(p) == seq_cost(block) + seq_cost(sp2),
                                        seq_cost(block) <= block.len() * (mnc + 258),
                                        seq_cost(sp2) <= (goal.len() - (start + run_len)) * (mnc
                                            + 258),
                                        block.len() == run_len,
                                        start + run_len <= goal.len(),
                                        mnc >= 1,
                                ;
                                assert(p[0] == block[0]);
                                assert(p[0].rolling);
                                assert(!no_roll(p));
                                if start < goal.len() && !p.last().rolling {
                                    assert(sp2.len() > 0) by {
                                        if sp2.len() == 0 {
                                            assert(p.last() == block[block.len() - 1]);
                                        }
                                    }
                                    assert(p.last() == sp2.last());
                                    assert(start + run_len < goal.len());
                                    assert(cost + sub_cost + seq_cost(sp2) <= max_cost + dcost
                                        + credits(goal, start + run_len));
                                }
                            }
                            min_path = Some(subpath);
                        }
                    }
                }
            }
            nj = nj + 1;
            run_len = run_len - 1;
        }
        min_path
    }

    /// Tries a single non-rolling candidate node: writes the goal byte at
    /// `target`, recurses for the rest of the goal, restores the tape and the
    /// zero cache, and keeps whichever of the candidate and `min_path` is
    /// better.
    fn try_node(
        &mut self,
        cost: i32,
        start: usize,
        pointer: i32,
        target: i32,
        ncost: i32,
        nc: i32,
        max_cost: i32,
        min_path: Option<Path>,
    ) -> (r: Option<Path>)
        requires
            old(self).wf(),
            start < old(self).spec_goal().len(),
            0 <= pointer <= old(self).spec_max_pointer(),
            0 <= target <= old(self).spec_max_pointer(),
            0 <= cost,
            cost <= start * (old(self).spec_max_node_cost() + 258),
            -0x2000_0000 <= max_cost,
            max_cost + 2 * (old(self).spec_goal().len() - start) <= 0x2000_0000,
            ncost <= max_cost - cost,
            ncost <= old(self).spec_max_node_cost(),
            ncost >= 1 + abs_diff_spec(
                old(self).spec_goal()[start as int],
                old(self).spec_tape()[target as int],
            ),
            target != pointer ==> ncost >= 2,
            nc == next_cost_at(old(self).spec_goal(), start as int),
            min_path matches Some(mp) ==> frame_ok(
                old(self).spec_goal(),
                old(self).spec_tape(),
                old(self).spec_max_pointer(),
                old(self).spec_max_node_cost(),
                old(self).spec_unique_cells(),
                cost as int,
                start as int,
                pointer as int,
                max_cost as int,
                mp@,
            ),
        ensures
            Solver::same_state(*old(self), *final(self)),
            r matches Some(p) ==> frame_ok(
                old(self).spec_goal(),
                old(self).spec_tape(),
                old(self).spec_max_pointer(),
                old(self).spec_max_node_cost(),
                old(self).spec_unique_cells(),
                cost as int,
                start as int,
                pointer as int,
                max_cost as int,
                p@,
            ),
        decreases old(self).spec_goal().len() - start, 0int,
    {
        let ghost goal = old(self).spec_goal();
        let ghost tape0 = old(self).spec_tape();
        let ghost maxp = old(self).spec_max_pointer();
        let ghost mnc = old(self).spec_max_node_cost();
        let ghost unique = old(self).spec_unique_cells();
        let n = self.goal.len();

        proof {
            assert(cost <= 0x4000_0000) by (nonlinear_arith)
                requires
                    cost <= start * (mnc + 258),
                    0 <= start <= 100_000,
                    mnc <= 10_000,
                    0 <= cost,
            ;
            assert(cost + ncost <= (start + 1) * (mnc + 258)) by (nonlinear_arith)
                requires
                    cost <= start * (mnc + 258),
                    ncost <= mnc,
                    0 <= start,
            ;
        }

        let node = Node::new(target, ncost);
        let idx = target as usize;
        let tval = self.tape[idx];
        let old_zeros = clone_zeros(&self.zeros);
        if tval == 0 {
            self.recompute_zeros();
        }
        self.tape.set(idx, self.goal[start]);
        let sub = self.exhaustive(cost + ncost, start + 1, target, max_cost + nc);
        self.tape.set(idx, tval);
        self.zeros = old_zeros;
        proof {
            assert(self.tape@ =~= tape0);
        }

        match sub {
            Some(mut sp) => {
                proof {
                    assert(seq_cost(sp@) <= 0x4000_0000) by (nonlinear_arith)
                        requires
                            seq_cost(sp@) <= (goal.len() - (start + 1)) * (mnc + 258),
                            goal.len() <= 100_000,
                            mnc <= 10_000,
                            start + 1 <= goal.len(),
                    ;
                    assert forall|i: int| 0 <= i <= sp@.len() implies i32::MIN <= #[trigger]
                        seq_cost(sp@.take(i)) <= i32::MAX by {
                        lemma_seq_cost_prefix_bounds(sp@, i);
                    }
                }
                let sp_cost = sp.cost();
                let better = match &min_path {
                    Some(mp) => {
                        proof {
                            assert(seq_cost(mp@) <= 0x4000_0000) by (nonlinear_arith)
                                requires
                                    seq_cost(mp@) <= (goal.len() - start) * (mnc + 258),
                                    goal.len() <= 100_000,
                                    mnc <= 10_000,
                                    start <= goal.len(),
                            ;
                            assert forall|i: int| 0 <= i <= mp@.len() implies i32::MIN
                                <= #[trigger] seq_cost(mp@.take(i)) <= i32::MAX by {
                                lemma_seq_cost_prefix_bounds(mp@, i);
                            }
                            lemma_seq_cost_nonneg(mp@);
                        }
                        sp_cost + ncost < mp.cost()
                    },
                    None => true,
                };
                let in_tail = if self.unique_cells {
                    sp.contains(&node)
                } else {
                    false
                };
                let unique_ok = !self.unique_cells || !in_tail;
                if better && unique_ok {
                    let ghost sp_before = sp@;
                    sp.add_first(node);
                    proof {
                        assert(sp@ =~= seq![node] + sp_before);
                        lemma_try_node_combine(
                            goal,
                            tape0,
                            maxp,
                            mnc,
                            unique,
                            cost as int,
                            start as int,
                            pointer as int,
                            target as int,
                            ncost as int,
                            max_cost as int,
                            node,
                            sp_before,
                        );
                    }
                    Some(sp)
                } else {
                    min_path
                }
            },
            None => min_path,
        }
    }
}

/// Combines the frame guarantees of a child path with a freshly accepted
/// head node into the frame guarantees of the parent.
proof fn lemma_try_node_combine(
    goal: Seq<u8>,
    tape: Seq<u8>,
    maxp: int,
    mnc: int,
    unique: bool,
    cost: int,
    start: int,
    pointer: int,
    target: int,
    ncost: int,
    max_cost: int,
    node: Node,
    subp: Seq<Node>,
)
    requires
        0 <= start < goal.len(),
        goal.len() <= 100_000,
        mnc <= 10_000,
        0 <= pointer <= maxp,
        0 <= target <= maxp,
        0 <= pointer < tape.len(),
        0 <= target < tape.len(),
        node.pointer == target,
        node.cost == ncost,
        !node.rolling,
        ncost <= max_cost - cost,
        ncost <= mnc,
        ncost >= 1 + abs_diff_spec(goal[start], tape[target]),
        target != pointer ==> ncost >= 2,
        frame_ok(
            goal,
            tape.update(target, goal[start]),
            maxp,
            mnc,
            unique,
            cost + ncost,
            start + 1,
            target,
            max_cost + next_cost_at(goal, start),
            subp,
        ),
        unique ==> !(exists|i: int|
            0 <= i < subp.len() && (#[trigger] subp[i]).pointer == node.pointer),
    ensures
        frame_ok(
            goal,
            tape,
            maxp,
            mnc,
            unique,
            cost,
            start,
            pointer,
            max_cost,
            seq![node] + subp,
        ),
{
    let p = seq![node] + subp;
    let n = goal.len() as int;
    let tape1 = tape.update(target, goal[start]);

    assert(p.len() == n - start);
    assert forall|i: int| 0 <= i < p.len() implies 0 <= (#[trigger] p[i]).pointer <= maxp by {
        if i > 0 {
            assert(p[i] == subp[i - 1]);
        }
    }
    assert forall|i: int| 0 <= i < p.len() implies (#[trigger] p[i]).cost >= 0 by {
        if i > 0 {
            assert(p[i] == subp[i - 1]);
        }
    }

    lemma_seq_cost_concat(seq![node], subp);
    assert(seq_cost(seq![node]) == ncost) by {
        assert(seq![node].len() == 1);
        assert(seq![node].last() == node);
        assert(seq![node].drop_last() =~= Seq::<Node>::empty());
        assert(seq_cost(Seq::<Node>::empty()) == 0);
    }
    assert(seq_cost(p) == ncost + seq_cost(subp));

    // overall cost cap
    assert(seq_cost(p) <= (n - start) * (mnc + 258)) by (nonlinear_arith)
        requires
            seq_cost(p) == ncost + seq_cost(subp),
            seq_cost(subp) <= (n - (start + 1)) * (mnc + 258),
            ncost <= mnc,
            start < n,
    ;

    // budget bound
    if start < n && !p.last().rolling {
        if subp.len() == 0 {
            assert(p.last() == node);
            lemma_credits_nonneg(goal, start);
            assert(cost + seq_cost(p) <= max_cost + credits(goal, start));
        } else {
            assert(p.last() == subp.last());
            assert(start + 1 < n);
            assert(cost + ncost + seq_cost(subp) <= max_cost + next_cost_at(goal, start)
                + credits(goal, start + 1));
            assert(credits(goal, start) == next_cost_at(goal, start) + credits(goal, start + 1));
        }
    }

    // unique cells
    if no_roll(p) && unique {
        assert forall|i: int| 0 <= i < subp.len() implies !(#[trigger] subp[i]).rolling by {
            assert(p[i + 1] == subp[i]);
        }
        assert(distinct_pointers(subp));
        assert forall|i: int, j: int| 0 <= i < j < p.len() implies p[i].pointer != p[j].pointer by {
            if i == 0 {
                assert(p[j] == subp[j - 1]);
            } else {
                assert(p[i] == subp[i - 1]);
                assert(p[j] == subp[j - 1]);
            }
        }
    }

    // admissible lower bound
    if no_roll(p) && start < n {
        let disc = stay_discount(goal, tape, start, pointer);
        if subp.len() == 0 {
            assert(credits(goal, start) == next_cost_at(goal, start) + credits(goal, start + 1));
            assert(credits(goal, start) == 0);
            assert(seq_cost(p) == ncost >= 1 >= credits(goal, start) + 1 - disc);
        } else {
            assert forall|i: int| 0 <= i < subp.len() implies !(#[trigger] subp[i]).rolling by {
                assert(p[i + 1] == subp[i]);
            }
            assert(start + 1 < n);
            let disc_child = stay_discount(goal, tape1, start + 1, target);
            assert(seq_cost(subp) >= credits(goal, start + 1) + 1 - disc_child);
            assert(tape1[target] == goal[start]);
            // ncost >= 2 - disc
            if target == pointer {
                if disc == 0 {
                    assert(tape[target] != goal[start]);
                    assert(abs_diff_spec(goal[start], tape[target]) >= 1);
                }
            }
            assert(ncost >= 2 - disc);
            assert(credits(goal, start) == next_cost_at(goal, start) + credits(goal, start + 1));
            assert(seq_cost(p) >= credits(goal, start) + 1 - disc);
        }
    }
}

/// A strictly increasing zero cache is sorted in the sense of `lower_bound`.
proof fn lemma_zeros_sorted(zeros: Seq<i32>, maxp: int)
    requires
        zeros_wf(zeros, maxp),
    ensures
        sorted(zeros),
{
    assert forall|i: int, j: int| 0 <= i <= j < zeros.len() implies zeros[i] <= zeros[j] by {
        if i < j {
            assert(zeros[i] < zeros[j]);
        }
    }
}

/// Copies a byte slice into a fresh vector.
fn copy_bytes(src: &[u8]) -> (r: Vec<u8>)
    ensures
        r@ == src@,
{
    let mut r: Vec<u8> = Vec::new();
    let mut i: usize = 0;
    while i < src.len()
        invariant
            0 <= i <= src@.len(),
            r@ == src@.take(i as int),
        decreases src@.len() - i,
    {
        r.push(src[i]);
        proof {
            assert(r@ =~= src@.take(i + 1));
        }
        i = i + 1;
    }
    proof {
        assert(src@.take(src@.len() as int) =~= src@);
    }
    r
}

/// Copies the zero cache; the solver saves it around every recursive call.
fn clone_zeros(src: &Vec<i32>) -> (r: Vec<i32>)
    ensures
        r@ == src@,
{
    let mut r: Vec<i32> = Vec::new();
    let mut i: usize = 0;
    while i < src.len()
        invariant
            0 <= i <= src@.len(),
            r@ == src@.take(i as int),
        decreases src@.len() - i,
    {
        r.push(src[i]);
        proof {
            assert(r@ =~= src@.take(i + 1));
        }
        i = i + 1;
    }
    proof {
        assert(src@.take(src@.len() as int) =~= src@);
    }
    r
}

/// Collects, in increasing order, the indices of `[0, max_pointer]` whose
/// tape cell is zero.
fn compute_zeros(tape: &Vec<u8>, max_pointer: i32) -> (r: Vec<i32>)
    requires
        0 <= max_pointer < tape@.len(),
        tape@.len() <= 0x0400_0000,
    ensures
        zeros_complete(r@, tape@, max_pointer as int),
{
    let mut zs: Vec<i32> = Vec::new();
    let mut i: i32 = 0;
    while i <= max_pointer
        invariant
            0 <= i <= max_pointer + 1,
            max_pointer < tape@.len() <= 0x0400_0000,
            forall|a: int, b: int| 0 <= a < b < zs@.len() ==> zs@[a] < zs@[b],
            forall|k: int| 0 <= k < zs@.len() ==> 0 <= #[trigger] zs@[k] < i,
            forall|k: int| 0 <= k <= max_pointer ==> (zs@.contains(k as i32) ==> tape@[k] == 0),
            forall|k: int| 0 <= k < i ==> (tape@[k] == 0 ==> zs@.contains(k as i32)),
        decreases max_pointer - i + 1,
    {
        if self_tape_at(tape, i) == 0 {
            let ghost zs_old = zs@;
            zs.push(i);
            proof {
                assert forall|k: int| 0 <= k < i && tape@[k] == 0 implies zs@.contains(
                    k as i32,
                ) by {
                    assert(zs_old.contains(k as i32));
                    let w = choose|w: int| 0 <= w < zs_old.len() && zs_old[w] == k as i32;
                    assert(zs@[w] == k as i32);
                }
                assert(zs@[zs@.len() - 1] == i);
            }
        }
        i = i + 1;
    }
    proof {
        assert forall|k: int| 0 <= k <= max_pointer implies ((#[trigger] tape@[k]) == 0
            <==> zs@.contains(k as i32)) by {}
    }
    zs
}

/// Reads one tape cell.
fn self_tape_at(tape: &Vec<u8>, i: i32) -> (b: u8)
    requires
        0 <= i < tape@.len(),
    ensures
        b == tape@[i as int],
{
    tape[i as usize]
}

} // verus!
