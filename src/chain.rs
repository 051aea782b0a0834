use vstd::prelude::*;
use vstd::arithmetic::div_mod::{lemma_div_is_ordered, lemma_div_multiples_vanish};
use crate::geometry::{
    abs_of, dist2, exact_image, law_turn_is_rigid, in_range, turn_x, turn_y, jacobian_column, jacobian_column_of, turn_point, turned_about, Turn, Vec2,
    COORD_LIMIT, SCALE,
};

verus! {

/// Gain applied to the Jacobian-transpose step (0.01, in fixed-point units).
pub const STEP_SIZE: i64 = 10_000;

/// End-effector displacement per iteration below which a solve stops (0.001).
pub const CONVERGENCE_THRESHOLD: i64 = 1_000;

#[derive(Clone, Copy, Debug, PartialEq, Eq, Structural)]
pub enum IkError {
    /// A turn whose cosine or sine exceeds one unit.
    BadTurn,
    /// A coordinate or an angle that would leave the representable range.
    OutOfRange,
}

#[derive(Clone, Copy, Debug, PartialEq, Eq, Structural)]
pub enum SolveOutcome {
    /// The end effector settled; the number of iterations it took.
    Converged(u64),
    /// The iteration cap was met before the end effector settled.
    MaxIterationsReached,
}

/// One joint: its accumulated angle (micro-radians), its position, and the
/// index of the joint it carries.
#[derive(Clone, Copy, Debug, PartialEq, Eq, Structural)]
pub struct Rotator {
    pub angle: i64,
    pub position: Vec2,
    pub child: Option<usize>,
}

impl Rotator {
    pub fn new(position: Vec2) -> (r: Rotator)
        ensures
            r.angle == 0,
            r.position == position,
            r.child == None::<usize>,
    {
        Rotator { angle: 0, position, child: None }
    }

    pub fn set_child(&mut self, child: usize)
        ensures
            final(self).child == Some(child),
            final(self).angle == old(self).angle,
            final(self).position == old(self).position,
    {
        self.child = Some(child);
    }

    /// Column of the Jacobian transpose for this joint with respect to the
    /// end effector's current position.
    pub fn create_jacobian(&self, end_effector: &Rotator) -> (r: Vec2)
        requires
            in_range(self.position),
            in_range(end_effector.position),
        ensures
            r.x == jacobian_column(self.position, end_effector.position).0,
            r.y == jacobian_column(self.position, end_effector.position).1,
            -SCALE <= r.x <= SCALE,
            -SCALE <= r.y <= SCALE,
    {
        jacobian_column_of(self.position, end_effector.position)
    }
}

/// Each joint in range, and linked to the next one in the sequence.
pub open spec fn chain_wf(s: Seq<Rotator>) -> bool {
    forall|i: int|
        0 <= i < s.len() ==> in_range(#[trigger] s[i].position) && s[i].child == (if i + 1
            < s.len() {
            Some((i + 1) as usize)
        } else {
            None::<usize>
        })
}

/// Joint `j` after joint `index` turned by `change` radians, carried out by `t`.
pub open spec fn rotated_joint(s: Seq<Rotator>, index: int, change: int, t: Turn, j: int) -> Rotator {
    if j < index {
        s[j]
    } else if j == index {
        Rotator { angle: (s[j].angle + change) as i64, position: s[j].position, child: s[j].child }
    } else {
        Rotator {
            angle: s[j].angle,
            position: Vec2 {
                x: turned_about(s[index].position, t, s[j].position).0 as i64,
                y: turned_about(s[index].position, t, s[j].position).1 as i64,
            },
            child: s[j].child,
        }
    }
}

pub open spec fn rotated_chain(s: Seq<Rotator>, index: int, change: int, t: Turn) -> Seq<Rotator> {
    Seq::new(s.len(), |j: int| rotated_joint(s, index, change, t, j))
}

/// Whether the image of `p` turned by `t` about `pivot` stays in range.
pub open spec fn image_in_range(pivot: Vec2, t: Turn, p: Vec2) -> bool {
    -COORD_LIMIT <= turned_about(pivot, t, p).0 <= COORD_LIMIT && -COORD_LIMIT <= turned_about(
        pivot,
        t,
        p,
    ).1 <= COORD_LIMIT
}

/// Whether turning joint `index` by `change` keeps every value representable.
pub open spec fn rotation_fits(s: Seq<Rotator>, index: int, change: int, t: Turn) -> bool {
    &&& i64::MIN <= s[index].angle + change <= i64::MAX
    &&& forall|j: int|
        index < j < s.len() ==> #[trigger] image_in_range(s[index].position, t, s[j].position)
}

/// The Jacobian-transpose angle update (micro-radians) of joint `i` toward
/// `goal`: the step size times the dot product of the joint's column with the
/// end effector's error.
pub open spec fn delta_angle(s: Seq<Rotator>, i: int, goal: Vec2) -> int {
    let tip = s.last().position;
    let col = jacobian_column(s[i].position, tip);
    let dot = col.0 * (goal.x - tip.x) + col.1 * (goal.y - tip.y);
    (STEP_SIZE * dot) / (SCALE * SCALE)
}

/// The end effector moved less than the convergence threshold.
pub open spec fn settled(last: Vec2, current: Vec2) -> bool {
    (last.x - current.x) * (last.x - current.x) + (last.y - current.y) * (last.y - current.y)
        < CONVERGENCE_THRESHOLD * CONVERGENCE_THRESHOLD
}

/// The pose after the first `turns.len()` joints of an iteration that started
/// from `s0` toward `goal` have turned, joint `j` by its update
/// `delta_angle(s0, j, goal)` carried out by `turns[j]`, base first.
pub open spec fn partial_iteration(s0: Seq<Rotator>, goal: Vec2, turns: Seq<Turn>) -> Seq<Rotator>
    decreases turns.len(),
{
    if turns.len() == 0 {
        s0
    } else {
        let j = turns.len() - 1;
        rotated_chain(partial_iteration(s0, goal, turns.drop_last()), j, delta_angle(s0, j, goal), turns.last())
    }
}

/// Each of `turns` is what `turn_of` gives for its joint's update, is valid,
/// and turns its joint without leaving the range.
pub open spec fn turns_accepted<F: Fn(i64) -> Turn>(turn_of: F, s0: Seq<Rotator>, goal: Vec2, turns: Seq<Turn>) -> bool {
    forall|j: int|
        0 <= j < turns.len() ==> turn_of.ensures((delta_angle(s0, j, goal) as i64,), #[trigger] turns[j])
            && turns[j].valid() && rotation_fits(
            partial_iteration(s0, goal, turns.take(j)),
            j,
            delta_angle(s0, j, goal),
            turns[j],
        )
}

/// One full solver iteration takes `s0` to `s1` toward `goal`; `done` tells
/// whether the end effector moved less than the threshold.
pub open spec fn iteration<F: Fn(i64) -> Turn>(turn_of: F, s0: Seq<Rotator>, goal: Vec2, s1: Seq<Rotator>, done: bool) -> bool {
    exists|turns: Seq<Turn>|
        turns.len() == s0.len() - 1 && turns_accepted(turn_of, s0, goal, turns) && s1
            == #[trigger] partial_iteration(s0, goal, turns) && done == settled(
            s0.last().position,
            s1.last().position,
        )
}

/// A solver iteration from `s0` stopped at `s1` with error `e`: the turn `t`
/// that `turn_of` gave for the next joint was invalid (`BadTurn`) or would
/// have left the range (`OutOfRange`).
pub open spec fn iteration_fails<F: Fn(i64) -> Turn>(turn_of: F, s0: Seq<Rotator>, goal: Vec2, s1: Seq<Rotator>, e: IkError) -> bool {
    exists|turns: Seq<Turn>, t: Turn|
        #![trigger partial_iteration(s0, goal, turns), t.valid()]
        turns.len() < s0.len() - 1 && turns_accepted(turn_of, s0, goal, turns) && s1
            == partial_iteration(s0, goal, turns) && turn_of.ensures(
            (delta_angle(s0, turns.len() as int, goal) as i64,),
            t,
        ) && !(t.valid() && rotation_fits(s1, turns.len() as int, delta_angle(s0, turns.len() as int, goal), t))
            && (e == IkError::BadTurn <==> !t.valid())
}

/// `trace` is a run of solver iterations from `s0` toward `goal`, each pose
/// taken to the next by one iteration; only the last may settle, and it does
/// exactly when `settles` holds.
pub open spec fn solver_run<F: Fn(i64) -> Turn>(turn_of: F, s0: Seq<Rotator>, goal: Vec2, trace: Seq<Seq<Rotator>>, settles: bool) -> bool {
    &&& trace.len() >= 1
    &&& trace[0] == s0
    &&& forall|i: int|
        0 <= i < trace.len() - 1 ==> iteration(
            turn_of,
            #[trigger] trace[i],
            goal,
            trace[i + 1],
            settles && i == trace.len() - 2,
        )
}

/// What `solve` does from `s0` toward `goal` with at most `max_iterations`
/// iterations, ending at `s1` with result `r`.
pub open spec fn solve_result<F: Fn(i64) -> Turn>(
    turn_of: F,
    s0: Seq<Rotator>,
    goal: Vec2,
    max_iterations: int,
    s1: Seq<Rotator>,
    r: Result<SolveOutcome, IkError>,
) -> bool {
    if !in_range(goal) {
        r == Err::<SolveOutcome, IkError>(IkError::OutOfRange) && s1 == s0
    } else {
        match r {
            Ok(SolveOutcome::Converged(k)) => 1 <= k <= max_iterations && exists|trace: Seq<Seq<Rotator>>|
                trace.len() == k + 1 && #[trigger] solver_run(turn_of, s0, goal, trace, true) && s1
                    == trace.last(),
            Ok(SolveOutcome::MaxIterationsReached) => exists|trace: Seq<Seq<Rotator>>|
                trace.len() == max_iterations + 1 && #[trigger] solver_run(turn_of, s0, goal, trace, false)
                    && s1 == trace.last(),
            Err(e) => exists|trace: Seq<Seq<Rotator>>|
                trace.len() <= max_iterations && #[trigger] solver_run(turn_of, s0, goal, trace, false)
                    && iteration_fails(turn_of, trace.last(), goal, s1, e),
        }
    }
}

/// Decides whether the end effector, which moved from `last` to `current` in
/// one iteration, has converged.
pub fn has_converged(last: Vec2, current: Vec2) -> (r: bool)
    requires
        in_range(last),
        in_range(current),
    ensures
        r == settled(last, current),
{
    let dx: i128 = last.x as i128 - current.x as i128;
    let dy: i128 = last.y as i128 - current.y as i128;
    assert(0 <= dx * dx <= 4_000_000_000_000_000_000_000_000) by (nonlinear_arith)
        requires -2_000_000_000_000 <= dx <= 2_000_000_000_000;
    assert(0 <= dy * dy <= 4_000_000_000_000_000_000_000_000) by (nonlinear_arith)
        requires -2_000_000_000_000 <= dy <= 2_000_000_000_000;
    let limit: i128 = CONVERGENCE_THRESHOLD as i128;
    assert(limit * limit == 1_000_000) by (nonlinear_arith)
        requires limit == 1_000;
    dx * dx + dy * dy < limit * limit
}

/// An open chain of joints, base first and end effector last. Joint `i`
/// carries joint `i + 1`, so turning a joint moves exactly the joints after it.
pub struct Assembly {
    pub rotators: Vec<Rotator>,
}

impl Assembly {
    pub open spec fn wf(&self) -> bool {
        chain_wf(self.rotators@)
    }

    pub open spec fn tip(&self) -> Vec2 {
        self.rotators@.last().position
    }

    pub fn new() -> (r: Assembly)
        ensures
            r.wf(),
            r.rotators@.len() == 0,
    {
        Assembly { rotators: Vec::new() }
    }

    /// Appends a joint at `position`, carried by the current last joint.
    pub fn add_rotator(&mut self, position: Vec2) -> (r: Result<(), IkError>)
        requires
            old(self).wf(),
            old(self).rotators@.len() < usize::MAX,
        ensures
            final(self).wf(),
            r is Ok <==> in_range(position),
            r is Err ==> r == Err::<(), IkError>(IkError::OutOfRange) && final(self).rotators@
                == old(self).rotators@,
            r is Ok ==> final(self).rotators@.len() == old(self).rotators@.len() + 1,
            r is Ok ==> final(self).rotators@.last() == Rotator::new_spec(position),
            r is Ok ==> forall|i: int|
                0 <= i < old(self).rotators@.len() ==> #[trigger] final(self).rotators@[i].position
                    == old(self).rotators@[i].position && final(self).rotators@[i].angle
                    == old(self).rotators@[i].angle,
    {
        if !(-COORD_LIMIT <= position.x && position.x <= COORD_LIMIT && -COORD_LIMIT <= position.y
            && position.y <= COORD_LIMIT) {
            return Err(IkError::OutOfRange);
        }
        let n = self.rotators.len();
        if n > 0 {
            let mut last = self.rotators[n - 1];
            last.set_child(n);
            self.rotators.set(n - 1, last);
        }
        self.rotators.push(Rotator::new(position));
        proof {
            let s = self.rotators@;
            let o = old(self).rotators@;
            assert forall|i: int| 0 <= i < s.len() implies in_range(#[trigger] s[i].position)
                && s[i].child == (if i + 1 < s.len() {
                Some((i + 1) as usize)
            } else {
                None::<usize>
            }) by {
                if i < o.len() {
                    assert(in_range(o[i].position));
                }
            }
        }
        Ok(())
    }
}

impl Rotator {
    pub open spec fn new_spec(position: Vec2) -> Rotator {
        Rotator { angle: 0, position, child: None }
    }
}

impl Assembly {
    /// Turns joint `index` by `change_angle` micro-radians, carried out by
    /// `turn` (its cosine and sine): the joint's angle grows by `change_angle`
    /// and every later joint is turned about it. Nothing changes on an error.
    pub fn rotate(&mut self, index: usize, change_angle: i64, turn: Turn) -> (r: Result<(), IkError>)
        requires
            old(self).wf(),
            index < old(self).rotators@.len(),
        ensures
            final(self).wf(),
            r == Err::<(), IkError>(IkError::BadTurn) <==> !turn.valid(),
            r == Err::<(), IkError>(IkError::OutOfRange) <==> turn.valid() && !rotation_fits(
                old(self).rotators@,
                index as int,
                change_angle as int,
                turn,
            ),
            r is Ok ==> final(self).rotators@ == rotated_chain(
                old(self).rotators@,
                index as int,
                change_angle as int,
                turn,
            ),
            r is Err ==> final(self).rotators@ == old(self).rotators@,
    {
        if !turn.is_valid() {
            return Err(IkError::BadTurn);
        }
        let n = self.rotators.len();
        let pivot = self.rotators[index];
        let new_angle = match pivot.angle.checked_add(change_angle) {
            Some(a) => a,
            None => {
                return Err(IkError::OutOfRange);
            },
        };
        let ghost s = self.rotators@;
        let mut out: Vec<Rotator> = Vec::new();
        let mut j: usize = 0;
        while j < n
            invariant
                s == self.rotators@,
                n == s.len(),
                chain_wf(s),
                index < n,
                pivot == s[index as int],
                turn.valid(),
                new_angle == s[index as int].angle + change_angle,
                j <= n,
                out@.len() == j,
                forall|k: int| 0 <= k < j ==> out@[k] == rotated_joint(s, index as int, change_angle as int, turn, k),
                forall|k: int| index < k < j ==> #[trigger] image_in_range(pivot.position, turn, s[k].position),
            decreases n - j,
        {
            let cur = self.rotators[j];
            if j < index {
                out.push(cur);
            } else if j == index {
                out.push(Rotator { angle: new_angle, position: cur.position, child: cur.child });
            } else {
                proof {
                    assert(in_range(s[j as int].position));
                    assert(in_range(s[index as int].position));
                }
                match turn_point(pivot.position, turn, cur.position) {
                    Some(p) => {
                        out.push(Rotator { angle: cur.angle, position: p, child: cur.child });
                    },
                    None => {
                        proof {
                            assert(!image_in_range(pivot.position, turn, s[j as int].position));
                        }
                        return Err(IkError::OutOfRange);
                    },
                }
            }
            j += 1;
        }
        proof {
            assert(out@ =~= rotated_chain(s, index as int, change_angle as int, turn));
            assert forall|i: int| 0 <= i < out@.len() implies in_range(#[trigger] out@[i].position)
                && out@[i].child == (if i + 1 < out@.len() {
                Some((i + 1) as usize)
            } else {
                None::<usize>
            }) by {
                assert(in_range(s[i].position));
                if i > index {
                    assert(image_in_range(pivot.position, turn, s[i].position));
                }
            }
        }
        self.rotators = out;
        Ok(())
    }
}

proof fn lemma_delta_bound(cx: int, cy: int, ex: int, ey: int)
    requires
        -SCALE <= cx <= SCALE,
        -SCALE <= cy <= SCALE,
        -2 * COORD_LIMIT <= ex <= 2 * COORD_LIMIT,
        -2 * COORD_LIMIT <= ey <= 2 * COORD_LIMIT,
    ensures
        -2_000_000_000_000_000_000 <= cx * ex <= 2_000_000_000_000_000_000,
        -2_000_000_000_000_000_000 <= cy * ey <= 2_000_000_000_000_000_000,
        -4_000_000_000_000_000_000 <= cx * ex + cy * ey <= 4_000_000_000_000_000_000,
        -40_000_000_000 <= (STEP_SIZE * (cx * ex + cy * ey)) / (SCALE * SCALE) <= 40_000_000_000,
{
    assert(-2_000_000_000_000_000_000 <= cx * ex <= 2_000_000_000_000_000_000) by (nonlinear_arith)
        requires -1_000_000 <= cx <= 1_000_000, -2_000_000_000_000 <= ex <= 2_000_000_000_000;
    assert(-2_000_000_000_000_000_000 <= cy * ey <= 2_000_000_000_000_000_000) by (nonlinear_arith)
        requires -1_000_000 <= cy <= 1_000_000, -2_000_000_000_000 <= ey <= 2_000_000_000_000;
    let p = STEP_SIZE * (cx * ex + cy * ey);
    let d = SCALE * SCALE;
    assert(d == 1_000_000_000_000);
    lemma_div_is_ordered(p, 40_000_000_000_000_000_000_000, d);
    lemma_div_is_ordered(-40_000_000_000_000_000_000_000, p, d);
}

impl Assembly {
    /// The Jacobian-transpose angle update of every joint but the end
    /// effector, toward `goal`, from the current pose.
    pub fn delta_angles(&self, goal: Vec2) -> (r: Vec<i64>)
        requires
            self.wf(),
            self.rotators@.len() >= 1,
            in_range(goal),
        ensures
            r@.len() == self.rotators@.len() - 1,
            forall|i: int| 0 <= i < r@.len() ==> r@[i] == delta_angle(self.rotators@, i, goal),
    {
        let n = self.rotators.len();
        let tip = self.rotators[n - 1];
        proof {
            assert(in_range(self.rotators@[n - 1].position));
        }
        let ex: i128 = goal.x as i128 - tip.position.x as i128;
        let ey: i128 = goal.y as i128 - tip.position.y as i128;
        let mut out: Vec<i64> = Vec::new();
        let mut i: usize = 0;
        while i < n - 1
            invariant
                n == self.rotators@.len(),
                n >= 1,
                self.wf(),
                tip == self.rotators@.last(),
                in_range(tip.position),
                in_range(goal),
                ex == goal.x - tip.position.x,
                ey == goal.y - tip.position.y,
                i <= n - 1,
                out@.len() == i,
                forall|k: int| 0 <= k < i ==> out@[k] == delta_angle(self.rotators@, k, goal),
            decreases n - 1 - i,
        {
            proof {
                assert(in_range(self.rotators@[i as int].position));
            }
            let col = self.rotators[i].create_jacobian(&tip);
            proof {
                lemma_delta_bound(col.x as int, col.y as int, ex as int, ey as int);
            }
            let dot: i128 = col.x as i128 * ex + col.y as i128 * ey;
            let scaled: i128 = STEP_SIZE as i128 * dot;
            let d = crate::geometry::floor_div(scaled, SCALE as i128 * SCALE as i128);
            out.push(d as i64);
            i += 1;
        }
        out
    }

    /// One iteration of the Jacobian-transpose solver: every joint but the end
    /// effector is turned, from the base outward, by its update computed from
    /// the pose at the start of the iteration. `turn_of` gives the cosine and
    /// sine of an angle. Returns whether the end effector has settled.
    pub fn solve_iteration<F: Fn(i64) -> Turn>(&mut self, goal: Vec2, turn_of: &F) -> (r: Result<bool, IkError>)
        requires
            old(self).wf(),
            old(self).rotators@.len() >= 1,
            forall|a: i64| turn_of.requires((a,)),
        ensures
            final(self).wf(),
            final(self).rotators@.len() == old(self).rotators@.len(),
            final(self).rotators@[0].position == old(self).rotators@[0].position,
            !in_range(goal) ==> r == Err::<bool, IkError>(IkError::OutOfRange) && final(self).rotators@
                == old(self).rotators@,
            in_range(goal) && old(self).rotators@.len() == 1 ==> r == Ok::<bool, IkError>(true),
            r matches Ok(c) ==> c == settled(old(self).tip(), final(self).tip()),
            r matches Ok(c) ==> iteration(*turn_of, old(self).rotators@, goal, final(self).rotators@, c),
            r matches Err(e) ==> in_range(goal) ==> iteration_fails(
                *turn_of,
                old(self).rotators@,
                goal,
                final(self).rotators@,
                e,
            ),
            r is Ok ==> forall|i: int|
                0 <= i < old(self).rotators@.len() - 1 ==> #[trigger] final(self).rotators@[i].angle
                    == old(self).rotators@[i].angle + delta_angle(old(self).rotators@, i, goal),
            final(self).rotators@.last().angle == old(self).rotators@.last().angle,
            old(self).rotators@.len() == 1 ==> final(self).rotators@ == old(self).rotators@,
    {
        if !(-COORD_LIMIT <= goal.x && goal.x <= COORD_LIMIT && -COORD_LIMIT <= goal.y && goal.y
            <= COORD_LIMIT) {
            return Err(IkError::OutOfRange);
        }
        let deltas = self.delta_angles(goal);
        let n = self.rotators.len();
        let last = self.rotators[n - 1].position;
        let ghost s0 = self.rotators@;
        let ghost turns: Seq<Turn> = Seq::empty();
        let mut i: usize = 0;
        while i < n - 1
            invariant
                s0 == old(self).rotators@,
                turns.len() == i,
                turns_accepted(*turn_of, s0, goal, turns),
                self.rotators@ == partial_iteration(s0, goal, turns),
                in_range(goal),
                n == s0.len(),
                n >= 1,
                self.wf(),
                self.rotators@.len() == n,
                self.rotators@[0].position == s0[0].position,
                deltas@.len() == n - 1,
                forall|k: int| 0 <= k < n - 1 ==> deltas@[k] == delta_angle(s0, k, goal),
                forall|a: i64| turn_of.requires((a,)),
                i <= n - 1,
                forall|k: int| 0 <= k < i ==> #[trigger] self.rotators@[k].angle == s0[k].angle + deltas@[k],
                forall|k: int| i <= k < n ==> #[trigger] self.rotators@[k].angle == s0[k].angle,
            decreases n - 1 - i,
        {
            let t = turn_of(deltas[i]);
            let ghost before = self.rotators@;
            proof {
                assert(deltas@[i as int] == delta_angle(s0, i as int, goal));
            }
            match self.rotate(i, deltas[i], t) {
                Ok(()) => {
                    proof {
                        let nt = turns.push(t);
                        assert(nt.drop_last() =~= turns);
                        assert(self.rotators@ == partial_iteration(s0, goal, nt));
                        assert forall|j: int| 0 <= j < nt.len() implies turn_of.ensures((delta_angle(s0, j, goal) as i64,), #[trigger] nt[j])
                            && nt[j].valid() && rotation_fits(
                            partial_iteration(s0, goal, nt.take(j)),
                            j,
                            delta_angle(s0, j, goal),
                            nt[j],
                        ) by {
                            if j < i {
                                assert(nt.take(j) =~= turns.take(j));
                                assert(nt[j] == turns[j]);
                            } else {
                                assert(nt.take(j) =~= turns);
                            }
                        }
                        turns = nt;
                        assert forall|k: int| 0 <= k < i + 1 implies #[trigger] self.rotators@[k].angle == s0[k].angle + deltas@[k] by {
                            assert(self.rotators@[k] == rotated_joint(before, i as int, deltas@[i as int] as int, t, k));
                        }
                        assert forall|k: int| i + 1 <= k < n implies #[trigger] self.rotators@[k].angle == s0[k].angle by {
                            assert(self.rotators@[k] == rotated_joint(before, i as int, deltas@[i as int] as int, t, k));
                        }
                        assert(self.rotators@[0] == rotated_joint(before, i as int, deltas@[i as int] as int, t, 0));
                    }
                },
                Err(e) => {
                    proof {
                        assert(turns.len() < s0.len() - 1);
                        assert(iteration_fails(*turn_of, s0, goal, self.rotators@, e));
                    }
                    return Err(e);
                },
            }
            i += 1;
        }
        proof {
            assert(in_range(self.rotators@[n - 1].position));
            assert(in_range(s0[n - 1].position));
        }
        let c = has_converged(last, self.rotators[n - 1].position);
        proof {
            assert(iteration(*turn_of, s0, goal, self.rotators@, c));
        }
        Ok(c)
    }
}

impl Assembly {
    /// Runs solver iterations toward `goal` until the end effector settles, at
    /// most `max_iterations` of them.
    pub fn solve<F: Fn(i64) -> Turn>(&mut self, goal: Vec2, turn_of: &F, max_iterations: u64) -> (r: Result<SolveOutcome, IkError>)
        requires
            old(self).wf(),
            old(self).rotators@.len() >= 1,
            forall|a: i64| turn_of.requires((a,)),
        ensures
            final(self).wf(),
            final(self).rotators@.len() == old(self).rotators@.len(),
            final(self).rotators@[0].position == old(self).rotators@[0].position,
            !in_range(goal) ==> r == Err::<SolveOutcome, IkError>(IkError::OutOfRange) && final(self).rotators@
                == old(self).rotators@,
            in_range(goal) && max_iterations == 0 ==> r == Ok::<SolveOutcome, IkError>(
                SolveOutcome::MaxIterationsReached,
            ) && final(self).rotators@ == old(self).rotators@,
            in_range(goal) && max_iterations >= 1 && old(self).rotators@.len() == 1 ==> r == Ok::<SolveOutcome, IkError>(
                SolveOutcome::Converged(1),
            ),
            r matches Ok(SolveOutcome::Converged(k)) ==> 1 <= k <= max_iterations,
            solve_result(*turn_of, old(self).rotators@, goal, max_iterations as int, final(self).rotators@, r),
            final(self).rotators@.last().angle == old(self).rotators@.last().angle,
            old(self).rotators@.len() == 1 ==> final(self).rotators@ == old(self).rotators@,
    {
        if !(-COORD_LIMIT <= goal.x && goal.x <= COORD_LIMIT && -COORD_LIMIT <= goal.y && goal.y
            <= COORD_LIMIT) {
            return Err(IkError::OutOfRange);
        }
        let ghost s0 = self.rotators@;
        let ghost trace: Seq<Seq<Rotator>> = seq![s0];
        let mut done: u64 = 0;
        while done < max_iterations
            invariant
                s0 == old(self).rotators@,
                trace.len() == done + 1,
                solver_run(*turn_of, s0, goal, trace, false),
                self.rotators@.last().angle == s0.last().angle,
                self.rotators@ == trace.last(),
                in_range(goal),
                self.wf(),
                self.rotators@.len() == s0.len(),
                s0.len() >= 1,
                self.rotators@[0].position == s0[0].position,
                s0.len() == 1 ==> self.rotators@ == s0 && done == 0,
                done == 0 ==> self.rotators@ == s0,
                done <= max_iterations,
                forall|a: i64| turn_of.requires((a,)),
            decreases max_iterations - done,
        {
            let step = self.solve_iteration(goal, turn_of);
            done += 1;
            let ghost next = trace.push(self.rotators@);
            match step {
                Ok(c) => {
                    proof {
                        assert forall|i: int| 0 <= i < next.len() - 1 implies iteration(
                            *turn_of,
                            #[trigger] next[i],
                            goal,
                            next[i + 1],
                            c && i == next.len() - 2,
                        ) by {
                            if i < trace.len() - 1 {
                                assert(next[i] == trace[i] && next[i + 1] == trace[i + 1]);
                                assert(iteration(*turn_of, trace[i], goal, trace[i + 1], false));
                            }
                        }
                        assert(solver_run(*turn_of, s0, goal, next, c));
                    }
                    if c {
                        return Ok(SolveOutcome::Converged(done));
                    }
                    proof {
                        trace = next;
                    }
                },
                Err(e) => {
                    return Err(e);
                },
            }
            proof {
                if s0.len() == 1 {
                    assert(self.rotators@ =~= s0);
                }
            }
        }
        Ok(SolveOutcome::MaxIterationsReached)
    }

    /// Returns joint `index` to the angle it had when the chain was built,
    /// carrying its descendants with it. `turn_of` gives the cosine and sine of
    /// an angle.
    pub fn reset<F: Fn(i64) -> Turn>(&mut self, index: usize, turn_of: &F) -> (r: Result<(), IkError>)
        requires
            old(self).wf(),
            index < old(self).rotators@.len(),
            forall|a: i64| turn_of.requires((a,)),
        ensures
            final(self).wf(),
            r is Err ==> final(self).rotators@ == old(self).rotators@,
            old(self).rotators@[index as int].angle == i64::MIN ==> r == Err::<(), IkError>(
                IkError::OutOfRange,
            ),
            r is Ok ==> exists|t: Turn|
                turn_of.ensures((-old(self).rotators@[index as int].angle as i64,), t)
                    && final(self).rotators@ == #[trigger] rotated_chain(
                    old(self).rotators@,
                    index as int,
                    -old(self).rotators@[index as int].angle,
                    t,
                ),
            r is Ok ==> final(self).rotators@[index as int].angle == 0,
            r is Err ==> old(self).rotators@[index as int].angle == i64::MIN || exists|t: Turn|
                turn_of.ensures((-old(self).rotators@[index as int].angle as i64,), t) && !(
                #[trigger] t.valid() && rotation_fits(
                    old(self).rotators@,
                    index as int,
                    -old(self).rotators@[index as int].angle,
                    t,
                )),
    {
        let angle = self.rotators[index].angle;
        if angle == i64::MIN {
            return Err(IkError::OutOfRange);
        }
        let back: i64 = -angle;
        let t = turn_of(back);
        let r = self.rotate(index, back, t);
        proof {
            if r is Ok {
                assert(self.rotators@[index as int] == rotated_joint(old(self).rotators@, index as int, back as int, t, index as int));
            } else {
                assert(back == -old(self).rotators@[index as int].angle);
                match r {
                    Err(IkError::BadTurn) => {
                        assert(!t.valid());
                    },
                    Err(IkError::OutOfRange) => {},
                    Ok(_) => {},
                }
                assert(!(t.valid() && rotation_fits(old(self).rotators@, index as int, back as int, t)));
            }
        }
        r
    }
}

/// Rigidity of the chain. After joint `index` turns by `t` (a turn that
/// `rotate` accepts), any two joints
/// `b` and `c` at or after it (the pivot itself among them) sit at the grid
/// points just below exact images whose squared distance is the old squared
/// distance times `cos^2 + sin^2`: `SCALE^2` times it up to a relative
/// `2 / SCALE` for a valid turn.
pub proof fn law_rotation_keeps_distances(s: Seq<Rotator>, index: int, change: int, t: Turn, b: int, c: int)
    requires
        0 <= index <= b < s.len(),
        index <= c < s.len(),
        rotation_fits(s, index, change, t),
    ensures
        ({
            let n = rotated_chain(s, index, change, t);
            let pivot = s[index].position;
            let eb = exact_image(pivot, t, s[b].position);
            let ec = exact_image(pivot, t, s[c].position);
            &&& dist2(eb.0, eb.1, ec.0, ec.1) == (t.cos * t.cos + t.sin * t.sin) * dist2(
                s[b].position.x as int,
                s[b].position.y as int,
                s[c].position.x as int,
                s[c].position.y as int,
            )
            &&& (t.valid() ==> abs_of(
                dist2(eb.0, eb.1, ec.0, ec.1) - SCALE * SCALE * dist2(
                    s[b].position.x as int,
                    s[b].position.y as int,
                    s[c].position.x as int,
                    s[c].position.y as int,
                ),
            ) <= 2 * SCALE * dist2(
                s[b].position.x as int,
                s[b].position.y as int,
                s[c].position.x as int,
                s[c].position.y as int,
            ))
            &&& (b > index ==> n[b].position.x * SCALE <= eb.0 < (n[b].position.x + 1) * SCALE
                && n[b].position.y * SCALE <= eb.1 < (n[b].position.y + 1) * SCALE)
            &&& (b == index ==> n[b].position == pivot && eb == (pivot.x * SCALE, pivot.y * SCALE))
        }),
{
    let pivot = s[index].position;
    law_turn_is_rigid(pivot, t, s[b].position, s[c].position);
    law_turn_is_rigid(pivot, t, pivot, pivot);
    if b > index {
        assert(image_in_range(pivot, t, s[b].position));
    }
}

/// Angles add up and reset returns them to zero: turning joint `index` by
/// `c1` and then by `c2` leaves it at the angle that one turn by `c1 + c2`
/// gives, and turning it back by its whole angle leaves it at zero. Other
/// joints keep their angles.
pub proof fn law_angles_compose(s: Seq<Rotator>, index: int, c1: int, c2: int, t1: Turn, t2: Turn, t: Turn)
    requires
        0 <= index < s.len(),
        rotation_fits(s, index, c1, t1),
        rotation_fits(rotated_chain(s, index, c1, t1), index, c2, t2),
    ensures
        rotated_chain(rotated_chain(s, index, c1, t1), index, c2, t2)[index].angle == rotated_chain(
            s,
            index,
            c1 + c2,
            t,
        )[index].angle,
        rotated_chain(
            rotated_chain(s, index, c1, t1),
            index,
            -rotated_chain(s, index, c1, t1)[index].angle,
            t2,
        )[index].angle == 0,
        forall|j: int|
            0 <= j < s.len() && j != index ==> #[trigger] rotated_chain(s, index, c1, t1)[j].angle
                == s[j].angle,
{
}

/// The turn by a zero angle.
pub open spec fn identity_turn() -> Turn {
    Turn { cos: SCALE, sin: 0 }
}

proof fn lemma_identity_turn_keeps_chain(s: Seq<Rotator>, j: int)
    requires
        chain_wf(s),
        0 <= j < s.len(),
    ensures
        identity_turn().valid(),
        rotation_fits(s, j, 0, identity_turn()),
        rotated_chain(s, j, 0, identity_turn()) == s,
{
    let id = identity_turn();
    assert(SCALE * SCALE == 1_000_000_000_000);
    assert(id.cos * id.cos + id.sin * id.sin == 1_000_000_000_000);
    assert forall|k: int| 0 <= k < s.len() implies #[trigger] rotated_joint(s, j, 0, id, k) == s[k]
        && (j < k ==> image_in_range(s[j].position, id, s[k].position)) by {
        if k > j {
            let pv = s[j].position;
            let p = s[k].position;
            assert(in_range(p));
            assert(pv.x * SCALE + turn_x(SCALE as int, 0, p.x - pv.x, p.y - pv.y) == (SCALE as int) * p.x) by (nonlinear_arith);
            assert(pv.y * SCALE + turn_y(SCALE as int, 0, p.x - pv.x, p.y - pv.y) == (SCALE as int) * p.y) by (nonlinear_arith);
            lemma_div_multiples_vanish(p.x as int, SCALE as int);
            lemma_div_multiples_vanish(p.y as int, SCALE as int);
            assert(turned_about(pv, id, p) == (p.x as int, p.y as int));
        }
    }
    assert(rotated_chain(s, j, 0, id) =~= s);
}

proof fn lemma_no_update_at_goal(s0: Seq<Rotator>, j: int, goal: Vec2)
    requires
        s0.len() >= 1,
        goal == s0.last().position,
    ensures
        delta_angle(s0, j, goal) == 0,
{
    let tip = s0.last().position;
    let col = jacobian_column(s0[j].position, tip);
    assert(col.0 * (goal.x - tip.x) + col.1 * (goal.y - tip.y) == 0);
    assert(STEP_SIZE * 0 == 0);
}

proof fn lemma_identity_iteration_keeps_chain<F: Fn(i64) -> Turn>(turn_of: F, s0: Seq<Rotator>, goal: Vec2, turns: Seq<Turn>, k: int)
    requires
        chain_wf(s0),
        s0.len() >= 1,
        goal == s0.last().position,
        turns.len() < s0.len(),
        0 <= k <= turns.len(),
        turns_accepted(turn_of, s0, goal, turns),
        forall|t: Turn| turn_of.ensures((0i64,), t) ==> t == identity_turn(),
    ensures
        partial_iteration(s0, goal, turns.take(k)) == s0,
    decreases k,
{
    if k > 0 {
        lemma_identity_iteration_keeps_chain(turn_of, s0, goal, turns, k - 1);
        let tk = turns.take(k);
        assert(tk.drop_last() =~= turns.take(k - 1));
        lemma_no_update_at_goal(s0, k - 1, goal);
        assert(turn_of.ensures((delta_angle(s0, k - 1, goal) as i64,), turns[k - 1]));
        assert(turns[k - 1] == identity_turn());
        lemma_identity_turn_keeps_chain(s0, k - 1);
    }
}

proof fn lemma_iteration_at_goal<F: Fn(i64) -> Turn>(turn_of: F, s0: Seq<Rotator>, goal: Vec2, s1: Seq<Rotator>, done: bool)
    requires
        chain_wf(s0),
        s0.len() >= 1,
        goal == s0.last().position,
        forall|t: Turn| turn_of.ensures((0i64,), t) ==> t == identity_turn(),
    ensures
        iteration(turn_of, s0, goal, s1, done) ==> s1 == s0 && done,
        forall|e: IkError| !#[trigger] iteration_fails(turn_of, s0, goal, s1, e),
{
    if iteration(turn_of, s0, goal, s1, done) {
        let turns = choose|turns: Seq<Turn>|
            turns.len() == s0.len() - 1 && turns_accepted(turn_of, s0, goal, turns) && s1
                == #[trigger] partial_iteration(s0, goal, turns) && done == settled(
                s0.last().position,
                s1.last().position,
            );
        lemma_identity_iteration_keeps_chain(turn_of, s0, goal, turns, turns.len() as int);
        assert(turns.take(turns.len() as int) =~= turns);
        let p = s0.last().position;
        assert((p.x - p.x) * (p.x - p.x) == 0);
        assert((p.y - p.y) * (p.y - p.y) == 0);
        assert(CONVERGENCE_THRESHOLD * CONVERGENCE_THRESHOLD == 1_000_000);
        assert(settled(p, p));
    }
    assert forall|e: IkError| !#[trigger] iteration_fails(turn_of, s0, goal, s1, e) by {
        if iteration_fails(turn_of, s0, goal, s1, e) {
            let (turns, t) = choose|turns: Seq<Turn>, t: Turn|
                #![trigger partial_iteration(s0, goal, turns), t.valid()]
                turns.len() < s0.len() - 1 && turns_accepted(turn_of, s0, goal, turns) && s1
                    == partial_iteration(s0, goal, turns) && turn_of.ensures(
                    (delta_angle(s0, turns.len() as int, goal) as i64,),
                    t,
                ) && !(t.valid() && rotation_fits(s1, turns.len() as int, delta_angle(s0, turns.len() as int, goal), t))
                    && (e == IkError::BadTurn <==> !t.valid());
            lemma_identity_iteration_keeps_chain(turn_of, s0, goal, turns, turns.len() as int);
            assert(turns.take(turns.len() as int) =~= turns);
            lemma_no_update_at_goal(s0, turns.len() as int, goal);
            assert(t == identity_turn());
            lemma_identity_turn_keeps_chain(s0, turns.len() as int);
        }
    }
}

/// A chain whose end effector is already at the goal settles in the first
/// iteration and does not move, given that the turn for a zero angle is the
/// identity (cosine one, sine zero).
pub proof fn law_solve_at_goal_settles_at_once<F: Fn(i64) -> Turn>(
    turn_of: F,
    s0: Seq<Rotator>,
    goal: Vec2,
    max_iterations: int,
    s1: Seq<Rotator>,
    r: Result<SolveOutcome, IkError>,
)
    requires
        chain_wf(s0),
        s0.len() >= 1,
        goal == s0.last().position,
        max_iterations >= 1,
        forall|t: Turn| turn_of.ensures((0i64,), t) ==> t == identity_turn(),
        solve_result(turn_of, s0, goal, max_iterations, s1, r),
    ensures
        r == Ok::<SolveOutcome, IkError>(SolveOutcome::Converged(1)),
        s1 == s0,
{
    assert(in_range(s0[s0.len() - 1].position));
    match r {
        Ok(SolveOutcome::Converged(k)) => {
            let trace = choose|trace: Seq<Seq<Rotator>>|
                trace.len() == k + 1 && #[trigger] solver_run(turn_of, s0, goal, trace, true) && s1
                    == trace.last();
            assert(iteration(turn_of, trace[0], goal, trace[1], k == 1));
            lemma_iteration_at_goal(turn_of, s0, goal, trace[1], k == 1);
        },
        Ok(SolveOutcome::MaxIterationsReached) => {
            let trace = choose|trace: Seq<Seq<Rotator>>|
                trace.len() == max_iterations + 1 && #[trigger] solver_run(turn_of, s0, goal, trace, false)
                    && s1 == trace.last();
            assert(iteration(turn_of, trace[0], goal, trace[1], false));
            lemma_iteration_at_goal(turn_of, s0, goal, trace[1], false);
        },
        Err(e) => {
            let trace = choose|trace: Seq<Seq<Rotator>>|
                trace.len() <= max_iterations && #[trigger] solver_run(turn_of, s0, goal, trace, false)
                    && iteration_fails(turn_of, trace.last(), goal, s1, e);
            if trace.len() >= 2 {
                assert(iteration(turn_of, trace[0], goal, trace[1], false));
                lemma_iteration_at_goal(turn_of, s0, goal, trace[1], false);
            } else {
                lemma_iteration_at_goal(turn_of, s0, goal, s1, false);
            }
        },
    }
}

} // verus!
