use void_engine::physics3d::body::{update_sleep, BodyKind, BodyState, SleepStep};
use void_engine::physics3d::solver::{
    resolvable, solve_plan, wake_pass, ContactCache, Pass, SOLVER_ITERATIONS,
};

fn body(kind: BodyKind, sleeping: bool, still: bool) -> BodyState {
    BodyState { kind, sleeping, still }
}

fn sleeper() -> BodyState {
    body(BodyKind::Dynamic, true, true)
}

fn mover() -> BodyState {
    body(BodyKind::Dynamic, false, false)
}

fn floor() -> BodyState {
    body(BodyKind::Static, false, true)
}

#[test]
fn a_sleeping_body_is_not_movable_until_woken() {
    let mut b = sleeper();
    assert!(!b.is_movable());
    b.wake();
    assert!(b.is_movable());
}

#[test]
fn a_contact_wakes_a_sleeping_body() {
    let mut bodies = vec![sleeper(), mover()];
    wake_pass(&mut bodies, &[(0, 1)]);
    assert!(!bodies[0].sleeping, "the contact should have woken it");
}

#[test]
fn a_body_asleep_on_the_floor_is_not_woken_by_the_floor() {
    let mut bodies = vec![sleeper(), floor()];
    wake_pass(&mut bodies, &[(0, 1)]);
    assert!(bodies[0].sleeping, "resting on a static floor must not wake a sleeping body");
}

#[test]
fn a_moving_body_wakes_what_it_hits() {
    let mut bodies = vec![sleeper(), mover()];
    wake_pass(&mut bodies, &[(1, 0)]);
    assert!(!bodies[0].sleeping, "a body struck by something moving must wake");
}

#[test]
fn a_woken_body_wakes_nothing_while_it_is_still() {
    let mut bodies = vec![mover(), sleeper(), sleeper()];
    wake_pass(&mut bodies, &[(0, 1), (1, 2)]);
    assert!(!bodies[1].sleeping);
    assert!(bodies[2].sleeping, "its neighbour has not moved yet");
}

#[test]
fn a_malformed_contact_is_ignored_rather_than_panicking() {
    let mut bodies = vec![sleeper(), mover()];
    wake_pass(&mut bodies, &[(0, 99), (99, 1), (0, 0)]);
    assert_eq!(bodies, vec![sleeper(), mover()]);
    assert!(!resolvable(0, 99, 2));
    assert!(!resolvable(0, 0, 2));
    assert!(resolvable(0, 1, 2));
}

#[test]
fn a_still_body_falls_asleep_in_the_end() {
    let mut b = body(BodyKind::Dynamic, false, true);
    assert_eq!(update_sleep(&mut b, false), SleepStep::Count);
    assert_eq!(update_sleep(&mut b, true), SleepStep::FallAsleep);
    assert!(b.sleeping);
    assert_eq!(update_sleep(&mut b, true), SleepStep::Unchanged);
}

#[test]
fn motion_starts_the_sleep_clock_over() {
    let mut b = mover();
    assert_eq!(update_sleep(&mut b, true), SleepStep::Restart);
    assert!(!b.sleeping);
    let mut b = floor();
    assert_eq!(update_sleep(&mut b, true), SleepStep::Unchanged);
    assert!(!b.sleeping);
    assert!(!BodyKind::Kinematic.is_dynamic());
}

#[test]
fn a_remembered_point_is_used_once() {
    let mut cache: ContactCache<u64> = ContactCache::new();
    cache.store(1, 2, 50);
    cache.store(1, 2, 30);
    cache.store(1, 2, 40);
    cache.store(3, 4, 10);
    assert_eq!(cache.len(), 4);
    let near = |p: &u64| if *p < 45 { Some(*p) } else { None };
    assert_eq!(cache.take_nearest(1, 2, near), Some(30));
    assert_eq!(cache.take_nearest(1, 2, near), Some(40));
    assert_eq!(cache.take_nearest(1, 2, near), None, "what is left is too far");
    assert_eq!(cache.take_nearest(2, 1, near), None);
    assert_eq!(cache.len(), 2);
    let all = cache.take();
    assert!(cache.is_empty());
    assert_eq!(all.len(), 2);
}

#[test]
fn a_solve_goes_pass_by_pass() {
    let bodies = [mover(), sleeper(), floor(), floor()];
    let contacts = [(0, 1), (0, 9), (2, 3), (1, 2)];
    let plan = solve_plan(&bodies, &contacts);
    let said: Vec<(Pass, usize)> = plan.iter().map(|w| (w.pass, w.contact)).collect();
    let mut want = Vec::new();
    want.extend([0, 2, 3].map(|c| (Pass::Prime, c)));
    want.extend([0, 2, 3].map(|c| (Pass::Warm, c)));
    for _ in 0..SOLVER_ITERATIONS {
        want.extend([0, 3].map(|c| (Pass::Solve, c)));
    }
    want.extend([0, 2, 3].map(|c| (Pass::Correct, c)));
    want.extend([0, 2, 3].map(|c| (Pass::Store, c)));
    assert_eq!(said, want);
    assert!(solve_plan(&bodies, &[]).is_empty());
}
