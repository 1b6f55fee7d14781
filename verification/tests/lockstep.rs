use void_engine::net::lockstep::{
    broken_frame, decode_frame, fill_step, frame_length, reader_step, DecodeError, Desync,
    DesyncDetector, EncodeError, Fill, FramePart, FrameRead, Handshake, HandshakeError, Happened,
    LinkState, Message, NetEvent, Phase, ReadReport, SocketScript, TickBuffer, TickInputs, Todo, DEFAULT_INPUT_DELAY,
    MAX_CHAT_BYTES, PROTOCOL_VERSION, TAG_BYE, TAG_CHAT, TAG_INPUT,
};

fn round_trip(msg: Message) {
    let body = msg.encode_body().expect("encode");
    let back = Message::decode_body(&body).expect("decode");
    assert_eq!(msg, back, "round trip changed the message");
}

#[test]
fn round_trips_hello() {
    round_trip(Message::Hello {
        protocol_version: PROTOCOL_VERSION,
        world_seed: 0xDEAD_BEEF_CAFE_F00D,
        input_delay: 3,
    });
}

#[test]
fn round_trips_input() {
    round_trip(Message::Input { tick: 0, bits: 0 });
    round_trip(Message::Input { tick: u32::MAX, bits: u32::MAX });
    round_trip(Message::Input { tick: 12_345, bits: 0b1010_1010 });
}

#[test]
fn round_trips_checksum() {
    round_trip(Message::Checksum { tick: 600, hash: u64::MAX });
    round_trip(Message::Checksum { tick: 0, hash: 0 });
}

#[test]
fn round_trips_chat() {
    round_trip(Message::Chat { text: String::new() });
    round_trip(Message::Chat { text: "hello peer".into() });
    round_trip(Message::Chat { text: "héllo — 世界 🎮".into() });
}

#[test]
fn round_trips_bye() {
    round_trip(Message::Bye);
}

#[test]
fn frame_carries_a_length_prefix() {
    let msg = Message::Input { tick: 7, bits: 3 };
    let frame = msg.encode_frame().unwrap();
    let body = msg.encode_body().unwrap();
    assert_eq!(&frame[..2], &(body.len() as u16).to_be_bytes());
    assert_eq!(&frame[2..], &body[..]);
    assert_eq!(frame.len(), 11, "input frame grew");
}

#[test]
fn input_frames_are_fixed_size() {
    let a = Message::Input { tick: 0, bits: 0 }.encode_frame().unwrap();
    let b = Message::Input { tick: u32::MAX, bits: u32::MAX }.encode_frame().unwrap();
    assert_eq!(a.len(), b.len());
}

#[test]
fn rejects_unknown_tag() {
    assert_eq!(Message::decode_body(&[99]), Err(DecodeError::UnknownTag(99)));
}

#[test]
fn rejects_truncated_body() {
    let err = Message::decode_body(&[TAG_INPUT, 0, 0]).unwrap_err();
    assert!(matches!(err, DecodeError::Truncated { .. }), "got {err:?}");
}

#[test]
fn rejects_empty_body() {
    let err = Message::decode_body(&[]).unwrap_err();
    assert!(matches!(err, DecodeError::Truncated { .. }), "got {err:?}");
}

#[test]
fn rejects_trailing_bytes() {
    let mut body = Message::Bye.encode_body().unwrap();
    body.push(0xAA);
    assert_eq!(Message::decode_body(&body), Err(DecodeError::TrailingBytes(1)));
}

#[test]
fn rejects_bad_utf8_chat() {
    let mut body = vec![TAG_CHAT];
    body.extend_from_slice(&2u16.to_be_bytes());
    body.extend_from_slice(&[0xFF, 0xFE]);
    assert_eq!(Message::decode_body(&body), Err(DecodeError::BadUtf8));
}

#[test]
fn rejects_oversize_chat_on_encode_and_decode() {
    let big = "x".repeat(MAX_CHAT_BYTES + 1);
    assert_eq!(
        Message::Chat { text: big }.encode_frame(),
        Err(EncodeError::ChatTooLong(MAX_CHAT_BYTES + 1)),
    );
    let mut body = vec![TAG_CHAT];
    body.extend_from_slice(&((MAX_CHAT_BYTES + 1) as u16).to_be_bytes());
    assert_eq!(
        Message::decode_body(&body),
        Err(DecodeError::ChatTooLong(MAX_CHAT_BYTES + 1)),
    );
}

#[test]
fn chat_at_the_limit_is_accepted() {
    round_trip(Message::Chat { text: "x".repeat(MAX_CHAT_BYTES) });
}

#[test]
fn wire_layout_is_pinned() {
    assert_eq!(
        Message::Input { tick: 1, bits: 2 }.encode_frame().unwrap(),
        vec![0, 9, TAG_INPUT, 0, 0, 0, 1, 0, 0, 0, 2],
    );
    assert_eq!(Message::Bye.encode_frame().unwrap(), vec![0, 1, TAG_BYE]);
}

#[test]
fn handshake_accepts_a_matching_peer() {
    let h = Handshake::new(42);
    assert_eq!(h.check(&h.to_message()), Ok(()));
}

#[test]
fn handshake_rejects_version_mismatch() {
    let h = Handshake::new(42);
    let peer = Message::Hello {
        protocol_version: PROTOCOL_VERSION + 1,
        world_seed: 42,
        input_delay: DEFAULT_INPUT_DELAY,
    };
    assert_eq!(
        h.check(&peer),
        Err(HandshakeError::VersionMismatch {
            ours: PROTOCOL_VERSION,
            theirs: PROTOCOL_VERSION + 1,
        }),
    );
}

#[test]
fn handshake_rejects_seed_mismatch() {
    let h = Handshake::new(42);
    let peer = Message::Hello {
        protocol_version: PROTOCOL_VERSION,
        world_seed: 43,
        input_delay: DEFAULT_INPUT_DELAY,
    };
    assert_eq!(h.check(&peer), Err(HandshakeError::SeedMismatch { ours: 42, theirs: 43 }));
}

#[test]
fn handshake_rejects_delay_mismatch() {
    let h = Handshake::new(42).with_input_delay(3);
    let peer = Message::Hello {
        protocol_version: PROTOCOL_VERSION,
        world_seed: 42,
        input_delay: 5,
    };
    assert_eq!(h.check(&peer), Err(HandshakeError::DelayMismatch { ours: 3, theirs: 5 }));
}

#[test]
fn handshake_rejects_a_non_hello_first_message() {
    let h = Handshake::new(42);
    assert_eq!(h.check(&Message::Input { tick: 0, bits: 0 }), Err(HandshakeError::NotHello));
}

#[test]
fn version_is_checked_before_seed() {
    let h = Handshake::new(42);
    let peer = Message::Hello {
        protocol_version: PROTOCOL_VERSION + 1,
        world_seed: 999,
        input_delay: DEFAULT_INPUT_DELAY,
    };
    assert!(matches!(h.check(&peer), Err(HandshakeError::VersionMismatch { .. })));
}

#[test]
fn a_fresh_buffer_is_stalled() {
    let b = TickBuffer::new(DEFAULT_INPUT_DELAY);
    assert!(b.stalled(), "no inputs yet, so tick 0 cannot run");
    assert_eq!(b.next_tick(), 0);
}

#[test]
fn one_sided_input_does_not_make_a_tick_ready() {
    let mut b = TickBuffer::new(0);
    b.submit_local(0, 0b1);
    assert!(!b.ready(0), "local alone must not run a tick");
    assert!(b.stalled());
    assert_eq!(b.inputs_for(0), None);
    assert_eq!(b.consume(), None, "consume must not advance while stalled");
    assert_eq!(b.next_tick(), 0);

    b.submit_remote(0, 0b10);
    assert!(b.ready(0));
    assert!(!b.stalled());
}

#[test]
fn consume_returns_both_inputs_and_advances_once() {
    let mut b = TickBuffer::new(0);
    b.submit_local(0, 7);
    b.submit_remote(0, 9);
    assert_eq!(b.consume(), Some(TickInputs { local: 7, remote: 9 }));
    assert_eq!(b.next_tick(), 1);
    assert_eq!(b.consume(), None);
    assert_eq!(b.next_tick(), 1);
}

#[test]
fn input_delay_schedules_ahead_of_the_current_tick() {
    let b = TickBuffer::new(3);
    assert_eq!(b.next_tick(), 0);
    assert_eq!(b.scheduled_tick(), 3, "input sampled now applies at 0 + delay");

    let mut b = TickBuffer::new(3);
    for t in 0..5u32 {
        b.submit_local(t, t);
        b.submit_remote(t, t);
    }
    b.consume().unwrap();
    b.consume().unwrap();
    assert_eq!(b.next_tick(), 2);
    assert_eq!(b.scheduled_tick(), 5, "the window slides with the sim");
}

#[test]
fn zero_delay_still_works() {
    let b = TickBuffer::new(0);
    assert_eq!(b.scheduled_tick(), b.next_tick());
}

#[test]
fn a_stall_defers_ticks_rather_than_losing_them() {
    let mut b = TickBuffer::new(0);
    for t in 0..3u32 { b.submit_local(t, 100 + t); }
    b.submit_remote(0, 200);
    b.submit_remote(2, 202);

    assert_eq!(b.consume(), Some(TickInputs { local: 100, remote: 200 }));
    assert!(b.stalled(), "tick 1 has no remote input");
    assert_eq!(b.consume(), None);
    assert_eq!(b.next_tick(), 1, "a stalled tick is deferred, not skipped");

    b.submit_remote(1, 201);
    assert!(!b.stalled());
    assert_eq!(b.consume(), Some(TickInputs { local: 101, remote: 201 }));
    assert_eq!(b.consume(), Some(TickInputs { local: 102, remote: 202 }));
    assert_eq!(b.next_tick(), 3);
}

#[test]
fn out_of_order_arrival_is_buffered_not_dropped() {
    let mut b = TickBuffer::new(0);
    for t in 0..5u32 {
        b.submit_remote(t, 500 + t);
        b.submit_local(t, 100 + t);
    }
    for t in 0..5u32 {
        assert_eq!(
            b.consume(),
            Some(TickInputs { local: 100 + t, remote: 500 + t }),
            "tick {t}",
        );
    }
}

#[test]
fn submitting_for_an_already_run_tick_is_ignored() {
    let mut b = TickBuffer::new(0);
    b.submit_local(0, 1);
    b.submit_remote(0, 2);
    b.consume().unwrap();
    b.submit_local(0, 99);
    b.submit_remote(0, 99);
    assert_eq!(b.inputs_for(0), None);
    assert_eq!(b.next_tick(), 1);
}

#[test]
fn a_stale_ring_slot_is_not_mistaken_for_a_live_one() {
    let mut b = TickBuffer::new(0);
    let far = TickBuffer::CAPACITY as u32;
    b.submit_local(0, 11);
    b.submit_remote(0, 22);
    assert_eq!(TickBuffer::idx(0), TickBuffer::idx(far), "test premise");
    assert!(b.ready(0));
    assert!(!b.ready(far), "same slot, different tick — must not be ready");
    assert_eq!(b.inputs_for(far), None);
}

#[test]
fn remote_lead_reports_buffered_depth() {
    let mut b = TickBuffer::new(3);
    assert_eq!(b.remote_lead(), 0, "nothing buffered yet");
    b.submit_remote(0, 0);
    b.submit_remote(1, 0);
    b.submit_remote(2, 0);
    assert_eq!(b.remote_lead(), 3, "a healthy link sits near input_delay");
    let mut b = TickBuffer::new(3);
    b.submit_remote(0, 0);
    b.submit_remote(2, 0);
    assert_eq!(b.remote_lead(), 1);
}

#[test]
fn matching_hashes_are_not_a_desync() {
    let mut d = DesyncDetector::new();
    assert_eq!(d.record_local(60, 0xABC), None, "no peer hash yet");
    assert_eq!(d.record_remote(60, 0xABC), None);
    assert!(!d.is_desynced());
}

#[test]
fn mismatched_hashes_report_the_tick() {
    let mut d = DesyncDetector::new();
    d.record_local(120, 1);
    let hit = d.record_remote(120, 2).expect("must report");
    assert_eq!(hit, Desync { tick: 120, local_hash: 1, remote_hash: 2 });
    assert!(d.is_desynced());
    assert_eq!(d.desync(), Some(hit));
}

#[test]
fn detects_regardless_of_arrival_order() {
    let mut d = DesyncDetector::new();
    assert_eq!(d.record_remote(60, 7), None);
    let hit = d.record_local(60, 8).expect("must report once ours lands");
    assert_eq!(hit.tick, 60);
    assert_eq!(hit.local_hash, 8);
    assert_eq!(hit.remote_hash, 7);
}

#[test]
fn only_the_first_desync_is_reported() {
    let mut d = DesyncDetector::new();
    d.record_local(60, 1);
    assert!(d.record_remote(60, 2).is_some());
    d.record_local(120, 3);
    assert_eq!(d.record_remote(120, 4), None, "later mismatches stay quiet");
    assert_eq!(d.desync().unwrap().tick, 60);
}

#[test]
fn unmatched_hashes_do_not_grow_without_bound() {
    let mut d = DesyncDetector::new();
    for t in 0..(DesyncDetector::WINDOW as u32 * 3) {
        assert_eq!(d.record_remote(t, t as u64), None);
    }
    assert!(d.remote.len() <= DesyncDetector::WINDOW);
    assert!(!d.is_desynced(), "unmatched hashes are not divergence");
}

#[test]
fn ticks_are_matched_pairwise_not_positionally() {
    let mut d = DesyncDetector::new();
    d.record_local(60, 0xAA);
    d.record_local(120, 0xBB);
    assert_eq!(d.record_remote(120, 0xBB), None, "tick 120 agrees");
    assert!(!d.is_desynced());
}

#[test]
fn full_delayed_handshake_to_tick_flow() {
    let delay = DEFAULT_INPUT_DELAY;
    let mut b = TickBuffer::new(delay);

    for _ in 0..delay {
        let t = b.scheduled_tick();
        b.submit_local(t, 0);
        b.submit_remote(t, 0);
        assert!(b.stalled(), "tick {} not primed", b.next_tick());
    }

    for t in 0..delay {
        b.submit_local(t, 0);
        b.submit_remote(t, 0);
    }
    for expected in 0..delay {
        assert_eq!(b.next_tick(), expected);
        assert!(b.consume().is_some(), "primed tick {expected} must run");
    }
    assert!(!b.stalled());
    assert_eq!(b.next_tick(), delay);
}

#[test]
fn lockstep_errors_read_as_sentences() {
    assert_eq!(EncodeError::ChatTooLong(2000).message().is_empty(), false);
    for e in [
        DecodeError::UnknownTag(9),
        DecodeError::Truncated { need: 4, had: 1 },
        DecodeError::TrailingBytes(3),
        DecodeError::ChatTooLong(2000),
        DecodeError::BadUtf8,
    ] {
        assert!(!e.message().is_empty());
    }
    assert!(HandshakeError::SeedMismatch { ours: 1, theirs: 2 }.message().contains("seed"));
    assert!(!HandshakeError::NotHello.message().is_empty());
    assert!(!HandshakeError::VersionMismatch { ours: 1, theirs: 2 }.message().is_empty());
    assert!(!HandshakeError::DelayMismatch { ours: 1, theirs: 2 }.message().is_empty());
    let d = Desync { tick: 120, local_hash: 1, remote_hash: 2 };
    assert!(d.message().contains("120"));
}

#[test]
fn a_frame_is_read_back_through_its_prefix() {
    let msg = Message::Chat { text: "gg".into() };
    let frame = msg.encode_frame().unwrap();
    let n = frame_length(frame[0], frame[1]).unwrap();
    assert_eq!(n, frame.len() - 2);
    assert_eq!(decode_frame(&frame[2..]), Ok(msg));
    assert!(frame_length(0xff, 0xff).is_err(), "an oversize frame is refused");
    assert!(decode_frame(&[99]).is_err());
}

#[test]
fn filling_a_buffer_tells_an_end_from_an_error() {
    assert_eq!(fill_step(0, 2, ReadReport::Got(1)), Fill::More(1));
    assert_eq!(fill_step(1, 2, ReadReport::Got(1)), Fill::Full);
    assert_eq!(fill_step(0, 2, ReadReport::Got(0)), Fill::Ended);
    assert_eq!(fill_step(1, 2, ReadReport::Got(0)), Fill::Truncated);
    assert_eq!(fill_step(1, 2, ReadReport::Interrupted), Fill::More(1));
    assert_eq!(fill_step(1, 2, ReadReport::Failed), Fill::Failed);
}

#[test]
fn a_truncated_frame_is_no_normal_disconnect() {
    let why = || "reset".to_string();
    let cut = Some(FrameRead::Failed("peer closed mid-frame".into()));
    let broken = |part, fill| broken_frame(part, fill, why());
    assert_eq!(broken(FramePart::Prefix, Fill::Ended), Some(FrameRead::Closed));
    assert_eq!(broken(FramePart::Prefix, fill_step(1, 2, ReadReport::Got(0))), cut);
    assert_eq!(broken(FramePart::Body, fill_step(0, 9, ReadReport::Got(0))), cut);
    assert_eq!(broken(FramePart::Body, fill_step(4, 9, ReadReport::Got(0))), cut);
    assert_eq!(
        broken(FramePart::Prefix, Fill::Failed),
        Some(FrameRead::Failed("reset".into())),
    );
    assert_eq!(broken(FramePart::Body, Fill::Full), None);
    assert_eq!(broken(FramePart::Prefix, Fill::More(1)), None);
}

#[test]
fn the_reading_side_ends_on_bye_and_on_a_second_hello() {
    let input = FrameRead::Message(Message::Input { tick: 4, bits: 9 });
    assert_eq!(reader_step(input), (NetEvent::Input { tick: 4, bits: 9 }, true));
    assert_eq!(reader_step(FrameRead::Message(Message::Bye)), (NetEvent::PeerLeft, false));
    let hello = FrameRead::Message(Handshake::new(1).to_message());
    let (event, go_on) = reader_step(hello);
    assert!(matches!(event, NetEvent::Disconnected { .. }));
    assert!(!go_on);
    assert_eq!(
        reader_step(FrameRead::Failed("reset".into())),
        (NetEvent::Disconnected { reason: "read failed: reset".into() }, false),
    );
    assert!(matches!(reader_step(FrameRead::Closed), (NetEvent::Disconnected { .. }, false)));
}

fn advance(s: &mut SocketScript) {
    assert_eq!(s.step(Happened::Done).todo, Todo::SetNoDelay);
    assert_eq!(s.step(Happened::Done).todo, Todo::CloneStream);
    let hello = s.handshake.to_message().encode_frame().unwrap();
    assert_eq!(s.step(Happened::Done).todo, Todo::Write(hello));
    assert_eq!(s.step(Happened::Done).todo, Todo::ReadFrame);
}

#[test]
fn two_matching_peers_connect_and_exchange() {
    let mut s = SocketScript::new(Handshake::new(7));
    advance(&mut s);
    let greeting = Handshake::new(7).to_message();
    let step = s.step(Happened::Read(FrameRead::Message(greeting)));
    assert_eq!(step.emit, Some(NetEvent::Connected));
    assert_eq!(step.todo, Todo::Announce);
    assert_eq!(s.step(Happened::Done).todo, Todo::SpawnReader);
    assert_eq!(s.step(Happened::Done).todo, Todo::AwaitOutbound);

    let msg = Message::Input { tick: 1, bits: 2 };
    let frame = msg.encode_frame().unwrap();
    assert_eq!(s.step(Happened::Outbound(msg)).todo, Todo::Write(frame));
    assert_eq!(s.step(Happened::Done).todo, Todo::AwaitOutbound);

    let bye = Message::Bye.encode_frame().unwrap();
    assert_eq!(s.step(Happened::Outbound(Message::Bye)).todo, Todo::Write(bye));
    assert_eq!(s.step(Happened::Done).todo, Todo::CloseWrite);
    assert_eq!(s.phase, Phase::Over);
}

#[test]
fn a_seed_mismatch_is_refused_at_the_handshake() {
    let mut s = SocketScript::new(Handshake::new(1));
    advance(&mut s);
    let step = s.step(Happened::Read(FrameRead::Message(Handshake::new(2).to_message())));
    match step.emit {
        Some(NetEvent::Disconnected { reason }) => assert!(reason.contains("seed")),
        other => panic!("expected a disconnect, got {other:?}"),
    }
    assert_eq!(step.todo, Todo::Stop);
}

#[test]
fn an_oversize_chat_is_answered_and_the_session_goes_on() {
    let mut s = SocketScript { handshake: Handshake::new(1), phase: Phase::Pumping };
    let step = s.step(Happened::Outbound(Message::Chat { text: "x".repeat(MAX_CHAT_BYTES + 1) }));
    match step.emit {
        Some(NetEvent::Chat { text }) => assert!(text.starts_with("[not sent: ")),
        other => panic!("expected a notice, got {other:?}"),
    }
    assert_eq!(step.todo, Todo::AwaitOutbound);
    assert_eq!(s.step(Happened::Dropped).todo, Todo::CloseBoth);
}

#[test]
fn a_failed_write_ends_the_connection_with_a_reason() {
    let mut s = SocketScript { handshake: Handshake::new(1), phase: Phase::Writing { last: false } };
    let step = s.step(Happened::Failed("broken pipe".into()));
    assert_eq!(
        step.emit,
        Some(NetEvent::Disconnected { reason: "write failed: broken pipe".into() }),
    );
    assert_eq!(step.todo, Todo::Stop);
    assert_eq!(s.step(Happened::Done).todo, Todo::Stop);
}

#[test]
fn a_link_latches_closed() {
    let mut link = LinkState::new();
    link.observe(&NetEvent::Connected);
    assert!(link.connected && !link.closed);
    link.observe(&NetEvent::Disconnected { reason: "gone".into() });
    assert!(!link.connected && link.closed);
    let mut other = LinkState::new();
    other.hang_up();
    assert!(other.closed);
}
