use vstd::prelude::*;
use vstd::arithmetic::div_mod::lemma_fundamental_div_mod_converse_div;
use crate::chain::{solve_result, Assembly, IkError, Rotator, SolveOutcome};
use crate::geometry::{floor_div, in_range, Turn, Vec2, COORD_LIMIT};

verus! {

/// Height of the intermediate waypoint above the higher of the end effector
/// and the goal (2.0, in fixed-point units).
pub const WAYPOINT_RISE: i64 = 2_000_000;

/// Number of sample times `t_start + k * step` below `t_end`.
pub open spec fn sample_count(t_start: int, t_end: int, step: int) -> int {
    if t_end <= t_start {
        0
    } else {
        (t_end - t_start + step - 1) / step
    }
}

/// The `k`-th sample time.
pub open spec fn sample_time(t_start: int, step: int, k: int) -> int {
    t_start + k * step
}

pub open spec fn max_of(a: int, b: int) -> int {
    if a >= b {
        a
    } else {
        b
    }
}

/// The waypoint's coordinates, exactly.
pub open spec fn waypoint_of(current: Vec2, goal: Vec2) -> (int, int) {
    ((current.x + goal.x) / 2, max_of(current.y as int, goal.y as int) + WAYPOINT_RISE)
}

/// The intermediate point of the two-hop path from `current` to `goal`: midway
/// across (rounded down), and `WAYPOINT_RISE` above the higher of the two.
pub fn waypoint(current: Vec2, goal: Vec2) -> (r: Vec2)
    requires
        in_range(current),
        in_range(goal),
    ensures
        r.x == waypoint_of(current, goal).0,
        r.y == waypoint_of(current, goal).1,
{
    let mid = floor_div(current.x as i128 + goal.x as i128, 2);
    let top = if current.y >= goal.y {
        current.y
    } else {
        goal.y
    };
    Vec2 { x: mid as i64, y: top + WAYPOINT_RISE }
}

/// The goal is in range but the waypoint toward it is not.
pub open spec fn waypoint_blocked(current: Vec2, goal: Vec2) -> bool {
    in_range(goal) && !(-COORD_LIMIT <= waypoint_of(current, goal).0 <= COORD_LIMIT
        && -COORD_LIMIT <= waypoint_of(current, goal).1 <= COORD_LIMIT)
}

impl Assembly {
    /// Samples `f` at `t_start, t_start + step, ...` while the time stays below
    /// `t_end`.
    pub fn generate_path<F: Fn(i64) -> Vec2>(f: F, t_start: i64, t_end: i64, step: i64) -> (r: Vec<Vec2>)
        requires
            step > 0,
            forall|a: i64| t_start <= a < t_end ==> f.requires((a,)),
        ensures
            r@.len() == sample_count(t_start as int, t_end as int, step as int),
            forall|k: int|
                0 <= k < r@.len() ==> sample_time(t_start as int, step as int, k) < t_end && f.ensures(
                    ((sample_time(t_start as int, step as int, k)) as i64,),
                    #[trigger] r@[k],
                ),
    {
        let mut out: Vec<Vec2> = Vec::new();
        let mut t: i128 = t_start as i128;
        assert(sample_time(t_start as int, step as int, 0) == t_start) by (nonlinear_arith);
        while t < t_end as i128
            invariant
                step > 0,
                forall|a: i64| t_start <= a < t_end ==> f.requires((a,)),
                t == sample_time(t_start as int, step as int, out@.len() as int),
                t_start <= t,
                forall|k: int|
                    0 <= k < out@.len() ==> #[trigger] sample_time(t_start as int, step as int, k) < t_end,
                forall|k: int|
                    0 <= k < out@.len() ==> f.ensures(
                        ((sample_time(t_start as int, step as int, k)) as i64,),
                        #[trigger] out@[k],
                    ),
            decreases t_end + step - t,
        {
            let p = f(t as i64);
            let ghost k0 = out@.len() as int;
            let ghost before = out@;
            out.push(p);
            proof {
                assert(t + step == sample_time(t_start as int, step as int, k0 + 1)) by (nonlinear_arith)
                    requires t == t_start + k0 * step;
                assert(out@[k0] == p);
                assert forall|k: int| 0 <= k < out@.len() implies #[trigger] sample_time(t_start as int, step as int, k) < t_end by {
                    if k == k0 {
                        assert(sample_time(t_start as int, step as int, k) == t);
                    }
                }
                assert forall|k: int| 0 <= k < out@.len() implies f.ensures(
                        ((sample_time(t_start as int, step as int, k)) as i64,),
                        #[trigger] out@[k],
                    ) by {
                    if k == k0 {
                        assert(sample_time(t_start as int, step as int, k) == t);
                    } else {
                        assert(out@[k] == before[k]);
                    }
                }
            }
            t = t + step as i128;
        }
        proof {
            let n = out@.len() as int;
            if t_end > t_start {
                let d = t_end - t_start;
                assert(n >= 1);
                assert(sample_time(t_start as int, step as int, n - 1) < t_end);
                assert(n * step >= d && (n - 1) * step < d);
                assert(0 <= d + step - 1 - n * step < step) by (nonlinear_arith)
                    requires n * step >= d, (n - 1) * step < d;
                lemma_fundamental_div_mod_converse_div(d + step - 1, step as int, n, d + step - 1 - n * step);
            }
        }
        out
    }

    /// Moves the end effector to `goal` in two hops: first to the
    /// `waypoint` between the end effector and the goal, then to the goal.
    /// Returns the outcome of the second hop.
    pub fn create_path<F: Fn(i64) -> Turn>(&mut self, goal: Vec2, turn_of: &F, max_iterations: u64) -> (r: Result<SolveOutcome, IkError>)
        requires
            old(self).wf(),
            old(self).rotators@.len() >= 1,
            forall|a: i64| turn_of.requires((a,)),
        ensures
            final(self).wf(),
            final(self).rotators@.len() == old(self).rotators@.len(),
            final(self).rotators@[0].position == old(self).rotators@[0].position,
            !in_range(goal) ==> r == Err::<SolveOutcome, IkError>(IkError::OutOfRange) && final(self).rotators@
                == old(self).rotators@,
            waypoint_blocked(old(self).tip(), goal) ==> r == Err::<SolveOutcome, IkError>(
                IkError::OutOfRange,
            ) && final(self).rotators@ == old(self).rotators@,
            in_range(goal) && !waypoint_blocked(old(self).tip(), goal) ==> exists|
                via: Vec2,
                mid: Seq<Rotator>,
                first: Result<SolveOutcome, IkError>,
            |
                via.x == waypoint_of(old(self).tip(), goal).0 && via.y == waypoint_of(
                    old(self).tip(),
                    goal,
                ).1 && #[trigger] solve_result(*turn_of, old(self).rotators@, via, max_iterations as int, mid, first)
                    && if first is Ok {
                    solve_result(*turn_of, mid, goal, max_iterations as int, final(self).rotators@, r)
                } else {
                    r == first && final(self).rotators@ == mid
                },
            in_range(goal) && !waypoint_blocked(old(self).tip(), goal) && max_iterations == 0 ==> r
                == Ok::<SolveOutcome, IkError>(SolveOutcome::MaxIterationsReached) && final(
                self).rotators@ == old(self).rotators@,
            in_range(goal) && !waypoint_blocked(old(self).tip(), goal) && max_iterations >= 1
                && old(self).rotators@.len() == 1 ==> r == Ok::<SolveOutcome, IkError>(
                SolveOutcome::Converged(1),
            ),
    {
        if !(-COORD_LIMIT <= goal.x && goal.x <= COORD_LIMIT && -COORD_LIMIT <= goal.y && goal.y
            <= COORD_LIMIT) {
            return Err(IkError::OutOfRange);
        }
        let n = self.rotators.len();
        let current = self.rotators[n - 1].position;
        proof {
            assert(in_range(self.rotators@[n - 1].position));
        }
        let via = waypoint(current, goal);
        proof {
            assert(current == old(self).tip());
        }
        let ghost s0 = self.rotators@;
        let first = self.solve(via, turn_of, max_iterations);
        let ghost mid = self.rotators@;
        match first {
            Ok(_) => {
                let r = self.solve(goal, turn_of, max_iterations);
                proof {
                    assert(solve_result(*turn_of, s0, via, max_iterations as int, mid, first));
                }
                r
            },
            Err(e) => {
                proof {
                    assert(solve_result(*turn_of, s0, via, max_iterations as int, mid, first));
                }
                Err(e)
            },
        }
    }
}

} // verus!
