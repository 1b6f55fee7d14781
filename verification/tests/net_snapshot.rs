use glam::{DVec3, Quat};
use std::any::TypeId;
use void_engine::ecs::EntityId;
use void_engine::net::bitpack::{BitError, BitWriter};
use void_engine::net::chunk::{
    send_chunked, ChunkHint, ChunkResult, Chunkable, DatagramSink, SendOutcome, MIN_DATAGRAM_BUDGET,
};
use void_engine::net::snapshot::{
    EntityItem, ItemKind, Levels, NameEntry, SnapshotPacket, POS_BITS, ROT_BITS, VEL_BITS,
};
use void_engine::persist::registry::{NameId, Persist, Registry, Replicate};

const MAX_SPEED: f64 = 4_096.0;
const POS: DVec3 = DVec3::new(1.5, -2.5, 3.25);
const VEL: DVec3 = DVec3::new(10.0, -10.0, 4.0);

fn level(value: f64, half: f64, bits: u32) -> u16 {
    let levels = ((1u64 << bits) - 1) as f64;
    ((((value / half).clamp(-1.0, 1.0) + 1.0) * 0.5) * levels).round() as u16
}

fn value(level: u16, half: f64, bits: u32) -> f64 {
    let levels = ((1u64 << bits) - 1) as f64;
    ((level as f64 / levels) * 2.0 - 1.0) * half
}

fn pos_levels(p: DVec3) -> Levels {
    Levels {
        x: level(p.x, HALF, POS_BITS),
        y: level(p.y, HALF, POS_BITS),
        z: level(p.z, HALF, POS_BITS),
    }
}

fn pos_of(l: Levels) -> DVec3 {
    DVec3::new(value(l.x, HALF, POS_BITS), value(l.y, HALF, POS_BITS), value(l.z, HALF, POS_BITS))
}

fn vel_levels(v: DVec3) -> Levels {
    Levels {
        x: level(v.x, MAX_SPEED, VEL_BITS),
        y: level(v.y, MAX_SPEED, VEL_BITS),
        z: level(v.z, MAX_SPEED, VEL_BITS),
    }
}

fn vel_of(l: Levels) -> DVec3 {
    DVec3::new(
        value(l.x, MAX_SPEED, VEL_BITS),
        value(l.y, MAX_SPEED, VEL_BITS),
        value(l.z, MAX_SPEED, VEL_BITS),
    )
}

fn rot_levels(q: Quat) -> Levels {
    let q = if q.w < 0.0 { -q } else { q };
    Levels {
        x: level(q.x as f64, 1.0, ROT_BITS),
        y: level(q.y as f64, 1.0, ROT_BITS),
        z: level(q.z as f64, 1.0, ROT_BITS),
    }
}

fn rot_of(l: Levels) -> Quat {
    let (x, y, z) = (
        value(l.x, 1.0, ROT_BITS) as f32,
        value(l.y, 1.0, ROT_BITS) as f32,
        value(l.z, 1.0, ROT_BITS) as f32,
    );
    let w = (1.0 - x * x - y * y - z * z).max(0.0).sqrt();
    Quat::from_xyzw(x, y, z, w).normalize()
}
const HALF: f64 = 500.0;

fn ent(index: u32) -> EntityId { EntityId { index, generation: 0 } }

fn item(index: u32, kind: ItemKind) -> EntityItem {
    EntityItem {
        kind,
        entity: ent(index),
        pos: pos_levels(POS),
        rot: rot_levels(Quat::from_rotation_z(0.25)),
        vel: vel_levels(VEL),
        component: NameId(3),
    }
}

fn packet(names: usize, items: usize) -> SnapshotPacket {
    SnapshotPacket {
        tick: 7,
        is_header: true,
        keyframe: false,
        your_entity: ent(42),
        names: (0..names)
            .map(|i| NameEntry { name: format!("component{i}"), id: NameId(i as u16) })
            .collect(),
        items: (0..items as u32).map(|i| item(i, ItemKind::Updated)).collect(),
    }
}

fn decode(p: &SnapshotPacket) -> SnapshotPacket {
    SnapshotPacket::decode(&p.encode(), 1024, 4096).expect("must decode")
}

struct FakeSink {
    mtu: usize,
    sent: Vec<Vec<u8>>,
}

impl DatagramSink for FakeSink {
    fn send(&mut self, bytes: Vec<u8>) -> SendOutcome {
        if bytes.len() > self.mtu { return SendOutcome::TooLarge; }
        self.sent.push(bytes);
        SendOutcome::Sent
    }
    fn max_datagram_size(&self) -> Option<usize> { Some(self.mtu) }
}

#[test]
fn a_packet_round_trips() {
    let p = packet(3, 5);
    let got = decode(&p);

    assert_eq!(got.tick, 7);
    assert!(got.is_header);
    assert!(!got.keyframe);
    assert_eq!(got.your_entity, ent(42));
    assert_eq!(got.names, p.names, "the name table must survive");
    assert_eq!(got.items.len(), 5);
}

#[test]
fn item_state_survives_within_quantisation_error() {
    let p = packet(1, 1);
    let got = decode(&p);
    let (a, b) = (p.items[0], got.items[0]);
    let (a_pos, b_pos) = (POS, pos_of(b.pos));
    let (a_vel, b_vel) = (VEL, vel_of(b.vel));

    let pos_step = (2.0 * HALF) / ((1u64 << POS_BITS) - 1) as f64;
    assert!((a_pos.x - b_pos.x).abs() <= pos_step);
    assert!((a_pos.y - b_pos.y).abs() <= pos_step);
    assert!(
        (a_pos.z - b_pos.z).abs() <= pos_step,
        "z must survive the round trip like x and y: sent {}, got {}",
        a_pos.z,
        b_pos.z,
    );

    let rot_step = 2.0 / ((1u64 << ROT_BITS) - 1) as f32;
    let angle = Quat::from_rotation_z(0.25).angle_between(rot_of(b.rot));
    assert!(
        angle <= rot_step * 4.0,
        "orientation drifted {angle} rad, more than the {} the \
         quantisation allows",
        rot_step * 4.0,
    );

    let vel_step = (2.0 * MAX_SPEED) / ((1u64 << VEL_BITS) - 1) as f64;
    assert!((a_vel.x - b_vel.x).abs() <= vel_step);
    assert!(
        (a_vel.z - b_vel.z).abs() <= vel_step,
        "velocity z must survive too: sent {}, got {}",
        a_vel.z,
        b_vel.z,
    );
    assert_eq!(a.entity, b.entity);
    assert_eq!(a.component, b.component);
}

#[test]
fn a_rotation_with_negative_w_survives_the_three_component_encoding() {
    let sent = Quat::from_rotation_z(std::f32::consts::PI * 1.5);
    assert!(sent.w < 0.0, "precondition: this rotation must have w < 0");

    let mut p = packet(1, 1);
    p.items[0].rot = rot_levels(sent);
    let got = rot_of(decode(&p).items[0].rot);

    let angle = sent.angle_between(got);
    assert!(
        angle < 0.01,
        "a rotation with negative w came back {angle} rad away from \
         what was sent — the encoder is not flipping to the positive-w \
         representative, so the decoder recovers the inverse rotation",
    );
}

#[test]
fn a_rotation_near_the_quantisation_edge_does_not_decode_to_nan() {
    let sent = Quat::from_axis_angle(
        glam::Vec3::new(1.0, 1.0, 1.0).normalize(),
        std::f32::consts::PI,
    );
    let mut p = packet(1, 1);
    p.items[0].rot = rot_levels(sent);
    let got = rot_of(decode(&p).items[0].rot);
    assert!(got.is_finite(), "decoded quaternion was {got:?}");
    assert!(
        (got.length() - 1.0).abs() < 1e-3,
        "decoded quaternion has length {}, so it scales geometry as \
         well as rotating it",
        got.length(),
    );
}

#[test]
fn generation_rides_arrivals_and_departures_only() {
    let p = SnapshotPacket {
        items: vec![
            EntityItem { entity: EntityId { index: 1, generation: 9 },
                         ..item(1, ItemKind::Entered) },
            EntityItem { entity: EntityId { index: 2, generation: 9 },
                         ..item(2, ItemKind::Updated) },
            EntityItem::left(EntityId { index: 3, generation: 9 }),
        ],
        ..packet(1, 0)
    };
    let got = decode(&p);

    assert_eq!(got.items[0].entity, EntityId { index: 1, generation: 9 },
               "an arrival carries its generation");
    assert_eq!(got.items[2].entity, EntityId { index: 3, generation: 9 },
               "so does a departure");
    assert_eq!(got.items[1].entity.index, 2, "an update carries only the index");
    assert_eq!(got.items[1].entity.generation, 0,
               "and its generation is filled in by the client, not the wire");
}

#[test]
fn a_departure_is_cheaper_than_an_update() {
    let with_state = SnapshotPacket { items: vec![item(1, ItemKind::Updated)], ..packet(0, 0) };
    let departure  = SnapshotPacket { items: vec![EntityItem::left(ent(1))], ..packet(0, 0) };
    assert!(
        departure.encode().len() < with_state.encode().len(),
        "a departure should not pay for position it does not carry",
    );
}

#[test]
fn scalar_core_plus_one_item_fits_the_conservative_budget() {
    let p = packet(0, 1);
    let len = p.rebuild_shed(&p.items).encode().len();
    assert!(
        len <= MIN_DATAGRAM_BUDGET,
        "shed core + 1 item is {len} B, over the {MIN_DATAGRAM_BUDGET} B floor",
    );
}

#[test]
fn one_item_is_small() {
    let empty = packet(0, 0).encode().len();
    let one   = packet(0, 1).encode().len();
    assert!(one - empty < 32, "one item costs {} B", one - empty);
}

#[test]
fn measure_item_cost_and_items_per_datagram() {
    let empty = packet(0, 0).encode().len();
    let one = packet(0, 1).encode().len();
    let per_item = one - empty;

    let mut fits = 0usize;
    for n in 1..400usize {
        if packet(0, n).encode().len() <= MIN_DATAGRAM_BUDGET {
            fits = n;
        } else {
            break;
        }
    }
    println!("item={per_item} B, core={empty} B, items/datagram={fits}");
    assert!(per_item > 0 && fits > 0);
}

#[test]
fn snapshot_a_packet_that_fits_is_sent_whole() {
    let mut sink = FakeSink { mtu: MIN_DATAGRAM_BUDGET, sent: Vec::new() };
    let p = packet(4, 10);
    assert_eq!(
        send_chunked(&mut sink, &p, |q: &SnapshotPacket| q.encode(), &mut ChunkHint::new()),
        ChunkResult::Delivered,
    );
    assert_eq!(sink.sent.len(), 1, "no chunking when it already fits");
}

#[test]
fn the_name_table_rides_only_the_first_chunk() {
    let p = packet(24, 120);
    let mut sink = FakeSink { mtu: 400, sent: Vec::new() };
    assert_eq!(
        send_chunked(&mut sink, &p, |q: &SnapshotPacket| q.encode(), &mut ChunkHint::new()),
        ChunkResult::Delivered,
    );
    assert!(sink.sent.len() > 1, "should have split");

    let first = SnapshotPacket::decode(&sink.sent[0], 1024, 4096).unwrap();
    assert_eq!(first.names.len(), 24, "the header chunk carries the table");
    assert!(first.is_header);

    for (i, bytes) in sink.sent.iter().enumerate().skip(1) {
        let chunk = SnapshotPacket::decode(bytes, 1024, 4096).unwrap();
        assert!(chunk.names.is_empty(), "continuation chunk {i} must carry no table");
        assert!(!chunk.is_header, "and must say so on the wire");
    }
}

#[test]
fn every_item_survives_a_split() {
    let p = packet(8, 100);
    let mut sink = FakeSink { mtu: 300, sent: Vec::new() };
    assert_eq!(
        send_chunked(&mut sink, &p, |q: &SnapshotPacket| q.encode(), &mut ChunkHint::new()),
        ChunkResult::Delivered,
    );

    let total: usize = sink
        .sent
        .iter()
        .map(|b| SnapshotPacket::decode(b, 1024, 4096).unwrap().items.len())
        .sum();
    assert_eq!(total, 100, "all items delivered");
}

#[test]
fn a_truncated_packet_is_refused() {
    let bytes = packet(2, 4).encode();
    for cut in [1usize, 4, 9, bytes.len() - 1] {
        assert!(
            SnapshotPacket::decode(&bytes[..cut], 1024, 4096).is_err(),
            "truncating to {cut} B must not decode",
        );
    }
}

#[test]
fn absurd_counts_are_refused_before_allocating() {
    let mut w = BitWriter::new();
    w.write_bits(1, 32);
    w.write_bit(true);
    w.write_bit(false);
    w.write_varint(0);
    w.write_varint(0);
    w.write_varint(u32::MAX as u64);
    let bytes = w.finish();

    assert_eq!(
        SnapshotPacket::decode(&bytes, 1024, 4096),
        Err(BitError::OutOfRange),
    );
}

#[test]
fn the_name_table_lists_only_replicated_components() {
    struct Shown;
    struct Hidden;
    struct Sparkle;

    let mut reg: Registry<()> = Registry::new();
    reg.register_replicated("shown", Persist::Volatile, Replicate::ToAll, TypeId::of::<Shown>(), ())
        .unwrap();
    reg.register("hidden", Persist::Volatile, TypeId::of::<Hidden>(), ()).unwrap();
    reg.register_replicated_transient("sparkle", Replicate::ToOwner, TypeId::of::<Sparkle>())
        .unwrap();

    let table = SnapshotPacket::name_table(&reg);
    let names: Vec<&str> = table.iter().map(|e| e.name.as_str()).collect();

    assert!(names.contains(&"shown"));
    assert!(names.contains(&"sparkle"), "owner-only still reaches the wire");
    assert!(!names.contains(&"hidden"), "a server-only component must not be advertised");
}

#[test]
fn a_packet_comes_back_bit_for_bit() {
    let mut p = packet(2, 3);
    p.items[0].kind = ItemKind::Entered;
    p.items[1] = EntityItem::left(ent(9));
    assert_eq!(decode(&p), p);
}

#[test]
fn an_item_says_what_it_is_keyed_by() {
    assert_eq!(item(5, ItemKind::Updated).key(), 5);
    assert!(item(5, ItemKind::Entered).generation_is_authoritative());
    assert!(!item(5, ItemKind::Updated).generation_is_authoritative());
}

#[test]
fn a_name_that_is_no_text_is_refused() {
    let mut w = BitWriter::new();
    w.write_bits(1, 32);
    w.write_bit(true);
    w.write_bit(false);
    w.write_varint(0);
    w.write_varint(0);
    w.write_varint(1);
    w.write_varint(3);
    w.write_varint(1);
    w.write_bits(0xff, 8);
    w.write_varint(0);
    assert_eq!(SnapshotPacket::decode(&w.finish(), 1024, 4096), Err(BitError::OutOfRange));
}
