use void_engine::net::interp::InterpClock;

const T0: u64 = 1_000_000_000;
const MS: u64 = 1_000_000;
const TICK_HZ: f32 = 30.0;

fn lerp_t(c: &InterpClock, now: u64) -> Option<f32> {
    let elapsed = c.elapsed(now)? as f32 / 1e9;
    let sub = (elapsed * TICK_HZ).clamp(0.0, 1.0);
    let target = (c.to_tick as f32) - 2.0 + sub;
    let span = (c.from_tick - c.from2_tick) as f32;
    Some(((target - c.from2_tick as f32) / span).clamp(0.0, 1.0))
}

#[test]
fn warming_up_returns_none() {
    let c = InterpClock::default();
    assert!(lerp_t(&c, T0).is_none());
    let mut c = InterpClock::default();
    let now = T0;
    c.record(100, now);
    assert!(lerp_t(&c, now).is_none());
    c.record(101, now);
    assert!(lerp_t(&c, now).is_none(), "need three snapshots for proper render-behind");
}

#[test]
fn third_snapshot_arms_clock_at_zero() {
    let mut c = InterpClock::default();
    let now = T0;
    c.record(100, now);
    c.record(101, now);
    c.record(102, now);
    assert_eq!(lerp_t(&c, now), Some(0.0));
}

#[test]
fn lerps_smoothly_across_one_tick() {
    let mut c = InterpClock::default();
    let t0 = T0;
    c.record(50, t0);
    c.record(51, t0);
    c.record(52, t0);
    let v = lerp_t(&c, t0).unwrap();
    assert!((v - 0.0).abs() < 1e-4, "v = {v}");
    let v = lerp_t(&c, t0 + 16 * MS).unwrap();
    assert!((v - 0.48).abs() < 0.05, "v = {v}");
    let v = lerp_t(&c, t0 + 33 * MS).unwrap();
    assert!((v - 1.0).abs() < 0.05, "v = {v}");
}

#[test]
fn rolls_seamlessly_across_snapshot_arrival() {
    let mut c = InterpClock::default();
    let t0 = T0;
    c.record(50, t0);
    c.record(51, t0);
    c.record(52, t0);
    let just_before_roll = t0 + 33 * MS;
    let v_before = lerp_t(&c, just_before_roll).unwrap();
    c.record(53, just_before_roll);
    let v_after = lerp_t(&c, just_before_roll).unwrap();
    assert!((v_before - 1.0).abs() < 0.05, "v_before = {v_before}");
    assert!((v_after  - 0.0).abs() < 0.05, "v_after  = {v_after}");
}

#[test]
fn missed_snapshot_still_lerps_in_range() {
    let mut c = InterpClock::default();
    let t0 = T0;
    c.record(50, t0);
    c.record(51, t0);
    c.record(53, t0);
    let v = lerp_t(&c, t0).unwrap();
    assert!((v - 1.0).abs() < 1e-4, "v = {v}");
}

#[test]
fn saturates_when_no_new_snapshot_arrives() {
    let mut c = InterpClock::default();
    let t0 = T0;
    c.record(10, t0);
    c.record(11, t0);
    c.record(12, t0);
    let stale = t0 + 1000 * MS;
    assert_eq!(lerp_t(&c, stale), Some(1.0));
}

#[test]
fn clear_disarms() {
    let mut c = InterpClock::default();
    let now = T0;
    c.record(1, now);
    c.record(2, now);
    c.record(3, now);
    c.clear();
    assert!(lerp_t(&c, now).is_none());
}

#[test]
fn the_clock_counts_from_the_newest_snapshot() {
    let mut c = InterpClock::default();
    c.record(7, T0);
    c.record(8, T0 + MS);
    assert_eq!(c.elapsed(T0 + 2 * MS), None);
    c.record(9, T0 + 2 * MS);
    assert_eq!(c.elapsed(T0 + 5 * MS), Some(3 * MS));
    assert_eq!(c.elapsed(T0), Some(0), "a clock that ran back counts as no time");
}
