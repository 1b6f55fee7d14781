use std::any::TypeId;
use std::collections::HashMap;
use void_engine::persist::registry::{Entry, Persist, Registry, RegistryError};
use void_engine::persist::snapshot::{
    capture, column_owner, from_bytes, register_engine_components, restore, restore_rng, to_bytes,
    Column, EngineComponents, RngStreams, Slots, Snapshot, SnapshotError, FORMAT_VERSION,
};
use void_engine::rng::Pcg32;

struct Position;
struct Health;
struct Wallet;

/// A registry whose codecs are plain bytes.
fn registry() -> Registry<u8> {
    let mut reg = Registry::new();
    reg.register("position", Persist::Volatile, TypeId::of::<Position>(), 10).unwrap();
    reg.register_versioned("health", Persist::Volatile, 3, TypeId::of::<Health>(), 20).unwrap();
    reg.register_transient("wallet", TypeId::of::<Wallet>()).unwrap();
    reg
}

fn slots() -> Slots {
    Slots { generations: vec![0, 2], alive: vec![true, false], free_list: vec![1] }
}

fn captured(rng: &RngStreams<'_>) -> Snapshot {
    capture(&slots(), &registry(), 42, rng, |e: &Entry<u8>, c: &u8| {
        Some(Ok(vec![*c, e.name.len() as u8]))
    })
    .unwrap()
}

#[test]
fn a_capture_holds_a_column_for_each_saved_component() {
    let s = captured(&RngStreams::new());
    assert_eq!(s.format_version, FORMAT_VERSION);
    assert_eq!(s.tick, 42);
    assert_eq!(s.slots, slots());
    assert_eq!(s.columns.len(), 2, "the transient component is not saved");
    let named = |name: &str| s.columns.iter().find(|c| c.name == name).unwrap();
    assert_eq!(named("position").bytes, vec![10, 8]);
    assert_eq!(named("health").version, 3);
}

#[test]
fn a_component_that_the_world_lacks_has_no_column() {
    let s = capture(&slots(), &registry(), 1, &RngStreams::new(), |_: &Entry<u8>, c: &u8| {
        if *c == 10 { Some(Ok(vec![1])) } else { None }
    })
    .unwrap();
    assert_eq!(s.columns.len(), 1);
}

#[test]
fn a_column_that_cannot_be_encoded_fails_the_capture() {
    let res = capture(&slots(), &registry(), 1, &RngStreams::new(), |_: &Entry<u8>, _: &u8| {
        Some(Err("no".to_string()))
    });
    assert_eq!(res, Err(SnapshotError::Codec("no".to_string())));
}

#[test]
fn streams_resume_where_they_were() {
    let (loot, ai) = (Pcg32::from_state((7, 9)), Pcg32::from_state((1, 3)));
    let s = captured(&RngStreams::new().add("loot", &loot).add("ai", &ai));
    assert_eq!(s.rng, vec![("loot".to_string(), 7, 9), ("ai".to_string(), 1, 3)]);
    let back = restore_rng(&s);
    assert_eq!(back.get("loot").unwrap().state(), (7, 9));
    assert_eq!(back.get("ai").unwrap().state(), (1, 3));
    assert!(back.get("weather").is_none());
}

#[test]
fn a_snapshot_survives_its_bytes() {
    let rng = Pcg32::from_state((u64::MAX, 5));
    let s = captured(&RngStreams::new().add("loot", &rng));
    let bytes = to_bytes(&s).unwrap();
    assert_eq!(&bytes[..12], &[1, 0, 0, 0, 42, 0, 0, 0, 0, 0, 0, 0]);
    assert_eq!(from_bytes(&bytes).unwrap(), s);
}

#[test]
fn damaged_bytes_are_refused() {
    let bytes = to_bytes(&captured(&RngStreams::new())).unwrap();
    assert!(matches!(from_bytes(&bytes[..bytes.len() - 1]), Err(SnapshotError::Codec(_))));
    assert!(matches!(from_bytes(&[]), Err(SnapshotError::Codec(_))));
}

/// A world of one byte for each component type.
#[derive(Debug, PartialEq)]
struct TinyWorld {
    slots: Slots,
    columns: HashMap<TypeId, u8>,
}

fn restored_world(s: &Snapshot, reg: &Registry<u8>) -> Result<TinyWorld, SnapshotError> {
    restore(
        s,
        reg,
        |slots: Slots| {
            if slots.generations.len() == slots.alive.len() {
                Ok(TinyWorld { slots, columns: HashMap::new() })
            } else {
                Err("lengths differ".to_string())
            }
        },
        |c: &u8, bytes: &Vec<u8>| {
            if bytes[0] == *c { Ok(bytes[1]) } else { Err("not its bytes".to_string()) }
        },
        |mut w: TinyWorld, e: &Entry<u8>, d: u8| {
            if d == 255 {
                return Err(format!("{} does not take 255", e.name));
            }
            w.columns.insert(e.type_id, d);
            Ok(w)
        },
    )
}

fn restored(s: &Snapshot, reg: &Registry<u8>) -> Result<Vec<(String, u8)>, SnapshotError> {
    let w = restored_world(s, reg)?;
    let mut seen: Vec<(String, u8)> = reg
        .entries()
        .iter()
        .filter_map(|e| w.columns.get(&e.type_id).map(|d| (e.name.to_string(), *d)))
        .collect();
    seen.sort();
    Ok(seen)
}

#[test]
fn a_world_comes_back_exactly() {
    let world = TinyWorld {
        slots: slots(),
        columns: HashMap::from([
            (TypeId::of::<Position>(), 77),
            (TypeId::of::<Wallet>(), 88),
        ]),
    };
    let s = capture(
        &world.slots,
        &registry(),
        9,
        &RngStreams::new(),
        |e: &Entry<u8>, c: &u8| world.columns.get(&e.type_id).map(|d| Ok(vec![*c, *d])),
    )
    .unwrap();
    let back = restored_world(&s, &registry()).unwrap();
    assert_eq!(back.slots, world.slots);
    assert_eq!(back.columns.get(&TypeId::of::<Position>()), Some(&77));
    assert_eq!(back.columns.get(&TypeId::of::<Health>()), None, "it held none");
    assert_eq!(back.columns.get(&TypeId::of::<Wallet>()), None, "it is not saved");
}

#[test]
fn a_column_that_the_world_refuses_ends_the_restore() {
    let mut s = captured(&RngStreams::new());
    s.columns[1].bytes[1] = 255;
    let e = restored(&s, &registry()).unwrap_err();
    assert_eq!(e, SnapshotError::Corrupt("health does not take 255".to_string()));
}

#[test]
fn a_restore_installs_every_column() {
    let s = captured(&RngStreams::new());
    assert_eq!(
        restored(&s, &registry()).unwrap(),
        vec![("health".to_string(), 6), ("position".to_string(), 8)]
    );
}

#[test]
fn a_newer_format_is_refused() {
    let mut s = captured(&RngStreams::new());
    s.format_version = FORMAT_VERSION + 1;
    let e = restored(&s, &registry()).unwrap_err();
    assert_eq!(e.message(), "snapshot format 2 is newer than supported 1");
}

#[test]
fn contradicting_slots_are_refused() {
    let mut s = captured(&RngStreams::new());
    s.slots.alive.pop();
    let e = restored(&s, &registry()).unwrap_err();
    assert_eq!(e, SnapshotError::Corrupt("lengths differ".to_string()));
    assert_eq!(e.message(), "snapshot is inconsistent: lengths differ");
}

#[test]
fn a_component_nobody_knows_is_refused() {
    let mut s = captured(&RngStreams::new());
    s.columns[0].name = "mystery".to_string();
    let e = restored(&s, &registry()).unwrap_err();
    assert_eq!(e, SnapshotError::UnknownComponent("mystery".to_string()));
    assert_eq!(e.message(), "snapshot names component \"mystery\", which is not registered");
}

#[test]
fn another_schema_is_refused() {
    let mut s = captured(&RngStreams::new());
    for c in s.columns.iter_mut() {
        if c.name == "health" {
            c.version = 2;
        }
    }
    let e = restored(&s, &registry()).unwrap_err();
    assert_eq!(e.message(), "component \"health\" schema 2 != expected 3");
}

#[test]
fn bytes_that_do_not_decode_are_refused() {
    let mut s = captured(&RngStreams::new());
    s.columns[0].bytes[0] = 99;
    let e = restored(&s, &registry()).unwrap_err();
    assert_eq!(e.message(), "codec: not its bytes");
}

#[test]
fn an_old_name_still_loads() {
    let mut reg: Registry<u8> = Registry::new();
    reg.register("vitality", Persist::Volatile, TypeId::of::<Health>(), 20).unwrap();
    reg.rename("health", "vitality").unwrap();
    let column = Column { name: "health".to_string(), version: 1, bytes: vec![] };
    assert_eq!(column_owner(&reg, &column).unwrap().name, "vitality");
}

#[test]
fn the_engine_components_have_stable_names() {
    let parts = || EngineComponents {
        transform2d: (TypeId::of::<u8>(), 1u8),
        velocity: (TypeId::of::<u16>(), 2),
        collider: (TypeId::of::<u32>(), 3),
        destructible2d: (TypeId::of::<u64>(), 4),
        particle: TypeId::of::<i8>(),
        player_tag: TypeId::of::<i16>(),
        camera_target: TypeId::of::<i32>(),
    };
    let mut reg = Registry::new();
    register_engine_components(&mut reg, parts()).unwrap();
    let names: Vec<&str> = reg.entries().iter().map(|e| e.name).collect();
    assert_eq!(
        names,
        [
            "transform2d", "velocity", "collider", "destructible2d", "particle", "player_tag",
            "camera_target"
        ]
    );
    assert_eq!(reg.by_name("collider").unwrap().codec, Some(3));
    assert_eq!(reg.by_name("particle").unwrap().codec, None);
    assert!(matches!(
        register_engine_components(&mut reg, parts()),
        Err(RegistryError::DuplicateName(_))
    ));
}
