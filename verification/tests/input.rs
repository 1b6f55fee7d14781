use void_engine::net::input::{InputFrame, InputQueue, MAX_PENDING_COMMANDS};

#[derive(Copy, Clone, Debug, PartialEq, Eq)]
enum Walk {
    Still,
    N,
    S,
    E,
}

impl Default for Walk {
    fn default() -> Self {
        Walk::Still
    }
}

#[derive(Clone, Debug, PartialEq, Eq)]
enum Cmd {
    Fire,
    Grab,
    Drop(u8),
}

fn frame(seq: u32, held: Walk, commands: Vec<Cmd>) -> InputFrame<Walk, Cmd> {
    InputFrame { seq, held, commands }
}

#[test]
fn held_state_takes_the_newest_frame() {
    let mut q = InputQueue::new();
    q.accept(1, frame(5, Walk::N, vec![]));
    q.accept(1, frame(3, Walk::S, vec![]));

    let out = q.drain();
    assert_eq!(out.len(), 1);
    assert_eq!(out[0].1.held, Walk::N, "the late frame must not win");
    assert_eq!(out[0].1.seq, 5);
}

#[test]
fn a_newer_frame_replaces_held_state() {
    let mut q = InputQueue::new();
    q.accept(1, frame(5, Walk::N, vec![]));
    q.accept(1, frame(6, Walk::E, vec![]));

    let out = q.drain();
    assert_eq!(out[0].1.held, Walk::E);
    assert_eq!(out[0].1.seq, 6);
}

#[test]
fn commands_from_every_frame_survive() {
    let mut q = InputQueue::new();
    q.accept(1, frame(5, Walk::N, vec![Cmd::Fire]));
    q.accept(1, frame(6, Walk::E, vec![Cmd::Grab]));

    let out = q.drain();
    assert_eq!(
        out[0].1.commands,
        vec![Cmd::Fire, Cmd::Grab],
        "a newer frame must not discard an earlier frame's commands",
    );
    assert_eq!(out[0].1.held, Walk::E, "while held state still takes the newest");
}

#[test]
fn a_late_frames_commands_still_apply() {
    let mut q = InputQueue::new();
    q.accept(1, frame(9, Walk::N, vec![Cmd::Fire]));
    q.accept(1, frame(4, Walk::S, vec![Cmd::Grab]));

    let out = q.drain();
    assert_eq!(out[0].1.held, Walk::N, "the late frame's held state is stale");
    assert!(
        out[0].1.commands.contains(&Cmd::Grab),
        "but the action the player took is not",
    );
    assert_eq!(out[0].1.commands.len(), 2);
}

#[test]
fn commands_keep_their_arrival_order() {
    let mut q = InputQueue::new();
    q.accept(1, frame(1, Walk::Still, vec![Cmd::Drop(1), Cmd::Drop(2)]));
    q.accept(1, frame(2, Walk::Still, vec![Cmd::Drop(3)]));

    let out = q.drain();
    assert_eq!(out[0].1.commands, vec![Cmd::Drop(1), Cmd::Drop(2), Cmd::Drop(3)]);
}

#[test]
fn players_are_kept_apart() {
    let mut q = InputQueue::new();
    q.accept(0, frame(9, Walk::E, vec![Cmd::Fire]));
    q.accept(1, frame(2, Walk::N, vec![Cmd::Grab]));

    let mut out = q.drain();
    out.sort_by_key(|(id, _)| *id);
    assert_eq!(out.len(), 2);
    assert_eq!(out[0].1.held, Walk::E);
    assert_eq!(out[0].1.commands, vec![Cmd::Fire]);
    assert_eq!(out[1].1.held, Walk::N);
    assert_eq!(out[1].1.commands, vec![Cmd::Grab]);
}

#[test]
fn a_flood_is_capped_and_counted() {
    let mut q: InputQueue<Walk, Cmd> = InputQueue::with_cap(4);
    for i in 0..10u8 {
        q.accept(1, frame(i as u32, Walk::Still, vec![Cmd::Drop(i)]));
    }

    let out = q.drain();
    assert_eq!(out[0].1.commands.len(), 4, "held at the cap");
    assert_eq!(out[0].1.dropped, 6, "and said how many it shed");
    assert_eq!(
        out[0].1.commands,
        vec![Cmd::Drop(6), Cmd::Drop(7), Cmd::Drop(8), Cmd::Drop(9)],
        "the newest survive: a fresh press is what the player is watching for",
    );
}

#[test]
fn draining_leaves_nothing_behind() {
    let mut q = InputQueue::new();
    q.accept(1, frame(1, Walk::N, vec![Cmd::Fire]));
    assert_eq!(q.len(), 1);

    let first = q.drain();
    assert_eq!(first.len(), 1);
    assert!(q.is_empty(), "a drain takes everything");
    assert!(q.drain().is_empty(), "and a second drain finds nothing");
}

#[test]
fn a_repeated_seq_is_harmless() {
    let mut q = InputQueue::new();
    q.accept(1, frame(7, Walk::N, vec![]));
    q.accept(1, frame(7, Walk::N, vec![]));

    let out = q.drain();
    assert_eq!(out[0].1.seq, 7);
    assert_eq!(out[0].1.held, Walk::N);
}

#[test]
fn the_first_frame_at_seq_zero_is_accepted() {
    let mut q = InputQueue::new();
    q.accept(1, frame(0, Walk::E, vec![Cmd::Fire]));

    let out = q.drain();
    assert_eq!(out[0].1.held, Walk::E, "seq 0 is a real frame, not an empty slot");
    assert_eq!(out[0].1.commands, vec![Cmd::Fire]);
}

#[test]
fn the_ack_is_readable_before_a_drain() {
    let mut q: InputQueue<Walk, Cmd> = InputQueue::new();
    assert_eq!(q.ack_seq(1), 0, "nothing seen from an unknown player");
    q.accept(1, frame(12, Walk::N, vec![]));
    assert_eq!(q.ack_seq(1), 12);
}

#[test]
fn removing_a_player_forgets_them() {
    let mut q = InputQueue::new();
    q.accept(1, frame(3, Walk::N, vec![Cmd::Fire]));
    q.remove(1);
    assert!(q.is_empty());
    assert_eq!(q.ack_seq(1), 0);
}

#[test]
fn a_zero_cap_drops_every_command() {
    let mut q: InputQueue<Walk, Cmd> = InputQueue::with_cap(0);
    q.accept(1, frame(1, Walk::N, vec![Cmd::Fire, Cmd::Grab]));

    let out = q.drain();
    assert!(out[0].1.commands.is_empty());
    assert_eq!(out[0].1.dropped, 2);
    assert_eq!(out[0].1.held, Walk::N, "held state is unaffected");
}

#[test]
fn held_state_does_not_depend_on_arrival_order() {
    let mut a = InputQueue::new();
    a.accept(1, frame(5, Walk::N, vec![]));
    a.accept(1, frame(6, Walk::E, vec![]));
    let mut b = InputQueue::new();
    b.accept(1, frame(6, Walk::E, vec![]));
    b.accept(1, frame(5, Walk::N, vec![]));
    let (a, b) = (a.drain(), b.drain());
    assert_eq!(a[0].1.held, b[0].1.held);
    assert_eq!(a[0].1.seq, b[0].1.seq);
}

#[test]
fn one_frame_over_the_cap_keeps_its_newest_commands() {
    let mut q: InputQueue<Walk, Cmd> = InputQueue::with_cap(2);
    q.accept(1, frame(1, Walk::N, vec![Cmd::Fire]));
    q.accept(1, frame(2, Walk::N, vec![Cmd::Drop(1), Cmd::Drop(2), Cmd::Drop(3)]));
    let out = q.drain();
    assert_eq!(out[0].1.commands, vec![Cmd::Drop(2), Cmd::Drop(3)]);
    assert_eq!(out[0].1.dropped, 2);
}

#[test]
fn players_come_out_by_id() {
    let mut q: InputQueue<Walk, Cmd> = InputQueue::new();
    for who in [9, 2, 5] {
        q.accept(who, frame(1, Walk::N, vec![]));
    }
    let ids: Vec<u32> = q.drain().iter().map(|(id, _)| *id).collect();
    assert_eq!(ids, vec![2, 5, 9]);
}

#[test]
fn a_default_frame_holds_nothing() {
    let f: InputFrame<Walk, Cmd> = InputFrame::default();
    assert_eq!(f, frame(0, Walk::Still, vec![]));
    assert_eq!(MAX_PENDING_COMMANDS, 32);
}
