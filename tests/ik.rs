use planar_ik::chain::{has_converged, Assembly, IkError, Rotator, SolveOutcome};
use planar_ik::geometry::{Turn, Vec2, SCALE};
use planar_ik::path::waypoint;

fn pt(x: f64, y: f64) -> Vec2 {
    Vec2 { x: (x * SCALE as f64).round() as i64, y: (y * SCALE as f64).round() as i64 }
}

fn turn_of(angle: i64) -> Turn {
    let a = angle as f64 / SCALE as f64;
    Turn {
        cos: (a.cos() * SCALE as f64).round() as i64,
        sin: (a.sin() * SCALE as f64).round() as i64,
    }
}

fn chain(points: &[(f64, f64)]) -> Assembly {
    let mut a = Assembly::new();
    for &(x, y) in points {
        a.add_rotator(pt(x, y)).unwrap();
    }
    a
}

fn world(v: Vec2) -> (f64, f64) {
    (v.x as f64 / SCALE as f64, v.y as f64 / SCALE as f64)
}

fn dist(a: Vec2, b: Vec2) -> f64 {
    let (ax, ay) = world(a);
    let (bx, by) = world(b);
    ((ax - bx).powi(2) + (ay - by).powi(2)).sqrt()
}

fn positions(a: &Assembly) -> Vec<Vec2> {
    a.rotators.iter().map(|r| r.position).collect()
}

#[test]
fn add_rotator_links_each_joint_to_the_next() {
    let a = chain(&[(0.0, 0.0), (1.0, 0.0), (2.0, 0.0)]);
    assert_eq!(a.rotators.len(), 3);
    assert_eq!(a.rotators[0].child, Some(1));
    assert_eq!(a.rotators[1].child, Some(2));
    assert_eq!(a.rotators[2].child, None);
    assert_eq!(a.rotators[2].angle, 0);
    assert_eq!(a.rotators[1].position, pt(1.0, 0.0));
}

#[test]
fn add_rotator_refuses_a_far_point() {
    let mut a = chain(&[(0.0, 0.0)]);
    let far = Vec2 { x: 2_000_000_000_000, y: 0 };
    assert_eq!(a.add_rotator(far), Err(IkError::OutOfRange));
    assert_eq!(a.rotators.len(), 1);
    assert_eq!(a.rotators[0].child, None);
}

#[test]
fn rotator_new_and_set_child() {
    let mut r = Rotator::new(pt(1.0, 2.0));
    assert_eq!(r.angle, 0);
    assert_eq!(r.child, None);
    r.set_child(4);
    assert_eq!(r.child, Some(4));
    assert_eq!(r.position, pt(1.0, 2.0));
}

#[test]
fn quarter_turn_carries_descendants_only() {
    let mut a = chain(&[(0.0, 0.0), (1.0, 0.0), (2.0, 0.0)]);
    let quarter = Turn { cos: 0, sin: SCALE };
    assert_eq!(a.rotate(0, 1_570_796, quarter), Ok(()));
    assert_eq!(positions(&a), vec![pt(0.0, 0.0), pt(0.0, 1.0), pt(0.0, 2.0)]);
    assert_eq!(a.rotators[0].angle, 1_570_796);
    assert_eq!(a.rotators[1].angle, 0);
}

#[test]
fn rotate_about_a_middle_joint_leaves_earlier_joints() {
    let mut a = chain(&[(0.0, 0.0), (1.0, 0.0), (2.0, 0.0)]);
    let half = Turn { cos: -SCALE, sin: 0 };
    assert_eq!(a.rotate(1, 3_141_593, half), Ok(()));
    assert_eq!(positions(&a), vec![pt(0.0, 0.0), pt(1.0, 0.0), pt(0.0, 0.0)]);
}

#[test]
fn rotate_rounds_down_onto_the_grid() {
    let mut a = Assembly::new();
    a.add_rotator(Vec2 { x: 0, y: 0 }).unwrap();
    a.add_rotator(Vec2 { x: 3, y: 0 }).unwrap();
    assert_eq!(a.rotate(0, 0, Turn { cos: 707_107, sin: -707_107 }), Ok(()));
    assert_eq!(a.rotators[1].position, Vec2 { x: 2, y: -3 });
}

#[test]
fn rotate_refuses_a_turn_that_shrinks() {
    let mut a = chain(&[(0.0, 0.0), (1.0, 0.0)]);
    assert_eq!(a.rotate(0, 0, Turn { cos: 0, sin: 0 }), Err(IkError::BadTurn));
    assert_eq!(a.rotators[1].position, pt(1.0, 0.0));
}

#[test]
fn rotate_refuses_a_bad_turn() {
    let mut a = chain(&[(0.0, 0.0), (1.0, 0.0)]);
    let before = positions(&a);
    assert_eq!(a.rotate(0, 5, Turn { cos: SCALE + 1, sin: 0 }), Err(IkError::BadTurn));
    assert_eq!(positions(&a), before);
    assert_eq!(a.rotators[0].angle, 0);
}

#[test]
fn rotate_refuses_to_leave_the_range() {
    let mut a = Assembly::new();
    a.add_rotator(Vec2 { x: -1_000_000_000_000, y: 0 }).unwrap();
    a.add_rotator(Vec2 { x: 1_000_000_000_000, y: 0 }).unwrap();
    let before = positions(&a);
    assert_eq!(a.rotate(0, 0, Turn { cos: 0, sin: SCALE }), Err(IkError::OutOfRange));
    assert_eq!(positions(&a), before);
}

#[test]
fn rotate_refuses_angle_overflow() {
    let mut a = chain(&[(0.0, 0.0), (1.0, 0.0)]);
    assert_eq!(a.rotate(0, i64::MAX, turn_of(0)), Ok(()));
    assert_eq!(a.rotate(0, 1, turn_of(0)), Err(IkError::OutOfRange));
    assert_eq!(a.rotators[0].angle, i64::MAX);
}

#[test]
fn rotations_keep_the_chain_rigid() {
    let mut a = chain(&[(0.0, 0.0), (2.0, 1.0), (4.0, -1.0), (7.0, 0.5)]);
    let before = positions(&a);
    for angle in [700_000i64, -1_200_000, 2_500_000] {
        a.rotate(0, angle, turn_of(angle)).unwrap();
    }
    let after = positions(&a);
    for i in 0..4 {
        for j in i + 1..4 {
            assert!((dist(before[i], before[j]) - dist(after[i], after[j])).abs() < 1e-5);
        }
    }
}

#[test]
fn rotations_keep_every_link_length() {
    let mut a = chain(&[(0.0, 0.0), (2.0, 1.0), (4.0, -1.0), (7.0, 0.5)]);
    let before = positions(&a);
    for (index, angle) in [(0usize, 700_000i64), (1, -1_200_000), (2, 2_500_000), (0, -300_000)] {
        a.rotate(index, angle, turn_of(angle)).unwrap();
    }
    let after = positions(&a);
    for i in 0..3 {
        assert!((dist(before[i], before[i + 1]) - dist(after[i], after[i + 1])).abs() < 1e-5);
    }
    assert!((dist(before[2], before[3]) - dist(after[2], after[3])).abs() < 1e-5);
    assert!((dist(before[1], before[3]) - dist(after[1], after[3])).abs() > 0.1);
}

#[test]
fn reset_undoes_a_rotation() {
    let mut a = chain(&[(0.0, 0.0), (3.0, 0.0), (5.0, 2.0)]);
    let before = positions(&a);
    a.rotate(1, 900_000, turn_of(900_000)).unwrap();
    assert_ne!(positions(&a), before);
    assert_eq!(a.reset(1, &turn_of), Ok(()));
    assert_eq!(a.rotators[1].angle, 0);
    for (p, q) in positions(&a).iter().zip(before.iter()) {
        assert!(dist(*p, *q) < 1e-5);
    }
}

#[test]
fn reset_every_joint_restores_the_pose() {
    let mut a = chain(&[(0.0, 0.0), (3.0, 0.0), (6.0, 0.0), (9.0, 0.0)]);
    let before = positions(&a);
    a.rotate(0, 400_000, turn_of(400_000)).unwrap();
    a.rotate(2, -1_000_000, turn_of(-1_000_000)).unwrap();
    a.rotate(1, 250_000, turn_of(250_000)).unwrap();
    for i in 0..a.rotators.len() {
        a.reset(i, &turn_of).unwrap();
    }
    for (p, q) in positions(&a).iter().zip(before.iter()) {
        assert!(dist(*p, *q) < 1e-4);
    }
    assert!(a.rotators.iter().all(|r| r.angle == 0));
}

#[test]
fn reset_refuses_the_most_negative_angle() {
    let mut a = chain(&[(0.0, 0.0), (1.0, 0.0)]);
    a.rotate(0, i64::MIN, turn_of(0)).unwrap();
    assert_eq!(a.reset(0, &turn_of), Err(IkError::OutOfRange));
}

#[test]
fn two_rotations_equal_their_sum() {
    let mut a = chain(&[(0.0, 0.0), (3.0, 1.0), (6.0, 0.0)]);
    let mut b = chain(&[(0.0, 0.0), (3.0, 1.0), (6.0, 0.0)]);
    a.rotate(0, 300_000, turn_of(300_000)).unwrap();
    a.rotate(0, 450_000, turn_of(450_000)).unwrap();
    b.rotate(0, 750_000, turn_of(750_000)).unwrap();
    assert_eq!(a.rotators[0].angle, b.rotators[0].angle);
    for (p, q) in positions(&a).iter().zip(positions(&b).iter()) {
        assert!(dist(*p, *q) < 1e-5);
    }
}

#[test]
fn jacobian_column_is_the_unit_perpendicular() {
    let joint = Rotator::new(pt(0.0, 0.0));
    let tip = Rotator::new(pt(3.0, 4.0));
    assert_eq!(joint.create_jacobian(&tip), Vec2 { x: -800_000, y: 600_000 });
}

#[test]
fn jacobian_column_has_unit_norm() {
    let samples = [((1.0, 2.0), (7.5, -3.25)), ((-4.0, 0.5), (-4.0, 9.0)), ((0.0, 0.0), (0.001, 0.0))];
    for ((jx, jy), (tx, ty)) in samples {
        let c = Rotator::new(pt(jx, jy)).create_jacobian(&Rotator::new(pt(tx, ty)));
        let (x, y) = world(c);
        assert!(((x * x + y * y).sqrt() - 1.0).abs() < 1e-5);
    }
}

#[test]
fn jacobian_column_of_a_coincident_joint_is_zero() {
    let joint = Rotator::new(pt(2.0, 2.0));
    assert_eq!(joint.create_jacobian(&joint), Vec2 { x: 0, y: 0 });
}

#[test]
fn delta_angles_follow_the_transpose_rule() {
    let a = chain(&[(0.0, 0.0), (3.0, 0.0)]);
    assert_eq!(a.delta_angles(pt(3.0, 1.0)), vec![10_000]);
    let b = chain(&[(0.0, 0.0), (3.0, 0.0), (6.0, 0.0)]);
    assert_eq!(b.delta_angles(pt(6.0, -2.0)), vec![-20_000, -20_000]);
    assert_eq!(b.delta_angles(pt(9.0, 0.0)), vec![0, 0]);
}

#[test]
fn has_converged_uses_the_threshold() {
    let o = Vec2 { x: 0, y: 0 };
    assert!(has_converged(o, Vec2 { x: 999, y: 0 }));
    assert!(!has_converged(o, Vec2 { x: 1_000, y: 0 }));
    assert!(!has_converged(o, Vec2 { x: 600, y: 800 }));
    assert!(has_converged(o, Vec2 { x: 600, y: 799 }));
}

#[test]
fn solve_at_the_goal_stops_after_one_iteration() {
    let mut a = chain(&[(0.0, 0.0), (3.0, 0.0)]);
    assert_eq!(a.solve(pt(3.0, 0.0), &turn_of, 5000), Ok(SolveOutcome::Converged(1)));
    assert_eq!(positions(&a), vec![pt(0.0, 0.0), pt(3.0, 0.0)]);
}

#[test]
fn solve_reaches_a_nontrivial_goal() {
    let mut a = chain(&[(0.0, 0.0), (5.0, 0.0), (10.0, 0.0)]);
    let goal = pt(7.0, 7.0);
    // The transpose step stalls where the error points along the nearly
    // straight chain: the end effector settles after 46 iterations, about
    // 0.2256 from the goal.
    assert_eq!(a.solve(goal, &turn_of, 5000), Ok(SolveOutcome::Converged(46)));
    assert!(dist(a.rotators[2].position, goal) < 0.23);
    assert_eq!(a.rotators[0].position, pt(0.0, 0.0));
    assert!((dist(a.rotators[0].position, a.rotators[1].position) - 5.0).abs() < 1e-3);
    assert!((dist(a.rotators[1].position, a.rotators[2].position) - 5.0).abs() < 1e-3);
}

#[test]
fn solve_with_no_iterations_changes_nothing() {
    let mut a = chain(&[(0.0, 0.0), (5.0, 0.0)]);
    assert_eq!(a.solve(pt(0.0, 5.0), &turn_of, 0), Ok(SolveOutcome::MaxIterationsReached));
    assert_eq!(positions(&a), vec![pt(0.0, 0.0), pt(5.0, 0.0)]);
}

#[test]
fn solve_stops_at_the_iteration_cap() {
    let mut a = chain(&[(0.0, 0.0), (5.0, 0.0)]);
    assert_eq!(a.solve(pt(0.0, 5.0), &turn_of, 3), Ok(SolveOutcome::MaxIterationsReached));
    assert!(a.rotators[0].angle > 0);
}

#[test]
fn solve_on_a_single_joint_converges_at_once() {
    let mut a = chain(&[(1.0, 1.0)]);
    assert_eq!(a.solve(pt(4.0, 4.0), &turn_of, 10), Ok(SolveOutcome::Converged(1)));
}

#[test]
fn solve_refuses_a_goal_out_of_range() {
    let mut a = chain(&[(0.0, 0.0), (5.0, 0.0)]);
    let far = Vec2 { x: 0, y: -1_000_000_000_001 };
    assert_eq!(a.solve(far, &turn_of, 10), Err(IkError::OutOfRange));
    assert_eq!(a.solve_iteration(far, &turn_of), Err(IkError::OutOfRange));
    assert_eq!(a.create_path(far, &turn_of, 10), Err(IkError::OutOfRange));
}

#[test]
fn solve_iteration_reports_whether_it_settled() {
    let mut a = chain(&[(0.0, 0.0), (3.0, 0.0)]);
    assert_eq!(a.solve_iteration(pt(3.0, 1.0), &turn_of), Ok(false));
    assert_eq!(a.rotators[0].angle, 10_000);
    assert_eq!(a.rotators[1].angle, 0);
}

#[test]
fn generate_path_samples_a_half_open_range() {
    let f = |t: i64| Vec2 { x: 5 * SCALE - t, y: 5 * SCALE };
    let path = Assembly::generate_path(f, 0, 10 * SCALE, SCALE / 10);
    assert_eq!(path.len(), 100);
    for (k, p) in path.iter().enumerate() {
        assert_eq!(*p, f(k as i64 * SCALE / 10));
    }
    assert_eq!(path[99], pt(-4.9, 5.0));
}

#[test]
fn generate_path_counts_partial_steps() {
    let f = |t: i64| Vec2 { x: t, y: 0 };
    assert_eq!(Assembly::generate_path(f, 0, 10, 3).len(), 4);
    assert_eq!(Assembly::generate_path(f, 10, 10, 3).len(), 0);
    assert_eq!(Assembly::generate_path(f, 10, 0, 3).len(), 0);
    let tail = Assembly::generate_path(f, -7, -1, 2);
    assert_eq!(tail, vec![Vec2 { x: -7, y: 0 }, Vec2 { x: -5, y: 0 }, Vec2 { x: -3, y: 0 }]);
}

#[test]
fn waypoint_lies_above_the_midpoint() {
    assert_eq!(waypoint(pt(10.0, 0.0), pt(-5.0, 5.0)), pt(2.5, 7.0));
    assert_eq!(waypoint(Vec2 { x: -3, y: 4 }, Vec2 { x: 0, y: -9 }), Vec2 { x: -2, y: 2_000_004 });
}

#[test]
fn create_path_ends_at_the_goal() {
    let mut a = chain(&[(0.0, 0.0), (3.333, 0.0), (6.666, 0.0), (10.0, 0.0)]);
    let goal = pt(-5.0, 5.0);
    let outcome = a.create_path(goal, &turn_of, 20_000);
    assert!(matches!(outcome, Ok(SolveOutcome::Converged(_))));
    assert!(dist(a.rotators[3].position, goal) < 0.1);
    assert_eq!(a.rotators[0].position, pt(0.0, 0.0));
}

#[test]
fn create_path_is_two_solves_through_the_waypoint() {
    let mut a = chain(&[(0.0, 0.0), (5.0, 0.0), (10.0, 0.0)]);
    let mut b = chain(&[(0.0, 0.0), (5.0, 0.0), (10.0, 0.0)]);
    let goal = pt(-5.0, 5.0);
    let via = waypoint(b.rotators[2].position, goal);
    assert_eq!(via, pt(2.5, 7.0));
    let first = b.solve(via, &turn_of, 20_000);
    assert!(first.is_ok());
    let second = b.solve(goal, &turn_of, 20_000);
    assert_eq!(a.create_path(goal, &turn_of, 20_000), second);
    assert_eq!(positions(&a), positions(&b));
}

#[test]
fn reset_fails_only_on_a_bad_turn() {
    let mut a = chain(&[(0.0, 0.0), (3.0, 0.0)]);
    a.rotate(0, 500_000, turn_of(500_000)).unwrap();
    let before = positions(&a);
    let bad = |_: i64| Turn { cos: 2 * SCALE, sin: 0 };
    assert_eq!(a.reset(0, &bad), Err(IkError::BadTurn));
    assert_eq!(positions(&a), before);
    assert_eq!(a.rotators[0].angle, 500_000);
    assert_eq!(a.reset(0, &turn_of), Ok(()));
    assert_eq!(a.rotators[0].angle, 0);
}

#[test]
fn solve_keeps_the_end_effector_angle() {
    let mut a = chain(&[(0.0, 0.0), (4.0, 0.0), (8.0, 0.0)]);
    a.solve(pt(3.0, 6.0), &turn_of, 5000).unwrap();
    assert_eq!(a.rotators[2].angle, 0);
    assert_ne!(a.rotators[0].angle, 0);
}
