use std::any::TypeId;
use void_engine::persist::registry::{NameId, Persist, Registry, RegistryError, Replicate};

#[derive(Clone, Debug)]
struct Codec;

struct Transform;
struct Vel;
struct Wallet;
struct Particle;

#[test]
fn register_and_look_up_by_name_and_type() {
    let mut r: Registry<Codec> = Registry::new();
    let id = r.register("transform2d", Persist::Volatile, TypeId::of::<Transform>(), Codec).unwrap();
    assert_eq!(r.by_name("transform2d").unwrap().id, id);
    assert_eq!(r.by_type(TypeId::of::<Transform>()).unwrap().name, "transform2d");
    assert_eq!(r.by_id(id).unwrap().persist, Persist::Volatile);
}

#[test]
fn ids_are_assigned_in_registration_order() {
    let mut r: Registry<Codec> = Registry::new();
    let a = r.register("transform2d", Persist::Volatile, TypeId::of::<Transform>(), Codec).unwrap();
    let b = r.register("velocity", Persist::Volatile, TypeId::of::<Vel>(), Codec).unwrap();
    assert_eq!((a, b), (NameId(0), NameId(1)));
}

#[test]
fn a_duplicate_name_is_rejected() {
    let mut r: Registry<Codec> = Registry::new();
    r.register("thing", Persist::Volatile, TypeId::of::<Transform>(), Codec).unwrap();
    assert_eq!(
        r.register("thing", Persist::Volatile, TypeId::of::<Vel>(), Codec),
        Err(RegistryError::DuplicateName("thing")),
    );
}

#[test]
fn one_type_under_two_names_is_rejected() {
    let mut r: Registry<Codec> = Registry::new();
    r.register("transform2d", Persist::Volatile, TypeId::of::<Transform>(), Codec).unwrap();
    assert!(matches!(
        r.register("transform_v2", Persist::Volatile, TypeId::of::<Transform>(), Codec),
        Err(RegistryError::DuplicateType("transform2d", "transform_v2")),
    ));
}

#[test]
fn renaming_the_rust_type_does_not_change_the_saved_name() {
    let mut r: Registry<Codec> = Registry::new();
    r.register("transform2d", Persist::Volatile, TypeId::of::<Transform>(), Codec).unwrap();
    assert_eq!(r.by_type(TypeId::of::<Transform>()).unwrap().name, "transform2d");
}

#[test]
fn an_alias_resolves_an_old_saved_name() {
    let mut r: Registry<Codec> = Registry::new();
    r.register("transform2d", Persist::Volatile, TypeId::of::<Transform>(), Codec).unwrap();
    r.rename("xform", "transform2d").unwrap();
    assert_eq!(r.by_name("xform").unwrap().name, "transform2d",
        "a snapshot written under the old name must still load");
}

#[test]
fn renaming_to_an_unregistered_name_is_rejected() {
    let mut r: Registry<Codec> = Registry::new();
    assert_eq!(r.rename("old", "nope"), Err(RegistryError::UnknownRename("nope")));
}

#[test]
fn unknown_names_do_not_resolve() {
    let r: Registry<Codec> = Registry::new();
    assert!(r.by_name("nothing").is_none());
}

#[test]
fn invalid_names_are_rejected() {
    let mut r: Registry<Codec> = Registry::new();
    assert!(matches!(r.register("", Persist::Volatile, TypeId::of::<Transform>(), Codec),
        Err(RegistryError::InvalidName("", _))));
    assert!(matches!(r.register("has space", Persist::Volatile, TypeId::of::<Vel>(), Codec),
        Err(RegistryError::InvalidName("has space", _))));
    assert!(matches!(r.register("MixedCase", Persist::Volatile, TypeId::of::<Wallet>(), Codec),
        Err(RegistryError::InvalidName("MixedCase", _))));
}

#[test]
fn transient_components_stay_out_of_checkpoints() {
    assert!(!Persist::Transient.in_checkpoint());
    assert!(Persist::Volatile.in_checkpoint());
    assert!(Persist::Ledgered.in_checkpoint());
}

#[test]
fn the_audit_catches_an_unregistered_component() {
    let mut r: Registry<Codec> = Registry::new();
    r.register("transform2d", Persist::Volatile, TypeId::of::<Transform>(), Codec).unwrap();

    let present = [
        (TypeId::of::<Transform>(), "Transform"),
        (TypeId::of::<Wallet>(), "Wallet"),
    ];
    assert_eq!(r.audit(&present), Err(vec!["Wallet"]));

    let only_registered = [(TypeId::of::<Transform>(), "Transform")];
    assert_eq!(r.audit(&only_registered), Ok(()));
}

#[test]
fn schema_version_defaults_to_one_and_can_be_set() {
    let mut r: Registry<Codec> = Registry::new();
    r.register("transform2d", Persist::Volatile, TypeId::of::<Transform>(), Codec).unwrap();
    r.register_versioned("velocity", Persist::Volatile, 3, TypeId::of::<Vel>(), Codec).unwrap();
    assert_eq!(r.by_name("transform2d").unwrap().version, 1);
    assert_eq!(r.by_name("velocity").unwrap().version, 3);
}

#[test]
fn a_transient_component_registers_without_serde() {
    let mut r: Registry<Codec> = Registry::new();
    let id = r.register_transient("particle", TypeId::of::<Particle>()).unwrap();
    let e = r.by_id(id).unwrap();
    assert_eq!(e.persist, Persist::Transient);
    assert!(e.codec.is_none(), "a Transient component must carry no codec");
    assert!(!e.persist.in_checkpoint());
}

#[test]
fn a_registered_transient_passes_the_audit() {
    let mut r: Registry<Codec> = Registry::new();
    r.register_transient("particle", TypeId::of::<Particle>()).unwrap();
    let present = [(TypeId::of::<Particle>(), "Particle")];
    assert_eq!(r.audit(&present), Ok(()));
}

#[test]
fn registry_errors_read_as_sentences() {
    assert_eq!(
        RegistryError::DuplicateName("thing").message(),
        "component name \"thing\" registered twice",
    );
    assert_eq!(
        RegistryError::DuplicateType("a", "b").message(),
        "one type registered under two names: \"a\" and \"b\"",
    );
    assert_eq!(
        RegistryError::InvalidName("A", "must be lowercase").message(),
        "component name \"A\" is invalid: must be lowercase",
    );
    assert_eq!(
        RegistryError::UnknownRename("nope").message(),
        "rename from \"nope\", which is not registered",
    );
    assert_eq!(
        RegistryError::TooManyComponents.message(),
        "more than 65535 component types registered",
    );
}

#[test]
fn each_unusable_name_is_refused_for_its_own_reason() {
    let long: &'static str = "aaaaaaaaaaaaaaaaaaaaaaaaaaaaaaaaaaaaaaaaaaaaaaaaaaaaaaaaaaaaaaaaa";
    assert_eq!(long.len(), 65);
    for (name, why) in [
        ("", "must not be empty"),
        (long, "must be 64 bytes or fewer"),
        ("caf\u{e9}", "must be ASCII"),
        ("tab\there", "must not contain whitespace"),
        (
            "Upper",
            "must be lowercase, so a case-insensitive filesystem cannot merge two names",
        ),
    ] {
        let mut r: Registry<Codec> = Registry::new();
        assert_eq!(
            r.register_transient(name, TypeId::of::<Particle>()),
            Err(RegistryError::InvalidName(name, why)),
        );
        assert!(r.is_empty(), "a refusal leaves no trace");
    }
    let mut r: Registry<Codec> = Registry::new();
    assert!(r.register_transient(&long[1..], TypeId::of::<Particle>()).is_ok());
}

#[test]
fn replication_is_declared_at_registration() {
    let mut r: Registry<Codec> = Registry::new();
    let shown = r
        .register_replicated(
            "shown",
            Persist::Volatile,
            Replicate::ToAll,
            TypeId::of::<Transform>(),
            Codec,
        )
        .unwrap();
    let sparkle = r
        .register_replicated_transient("sparkle", Replicate::ToOwner, TypeId::of::<Particle>())
        .unwrap();
    let hidden = r.register("hidden", Persist::Ledgered, TypeId::of::<Vel>(), Codec).unwrap();
    assert!(r.by_id(shown).unwrap().replicate.on_the_wire());
    assert!(r.by_id(sparkle).unwrap().replicate.on_the_wire());
    assert!(!r.by_id(hidden).unwrap().replicate.on_the_wire());
    assert_eq!(r.len(), 3);
    assert_eq!(r.entries()[2].name, "hidden");
    assert!(r.by_id(NameId(3)).is_none());
}

#[test]
fn an_alias_is_followed_once() {
    let mut r: Registry<Codec> = Registry::new();
    r.register("new", Persist::Volatile, TypeId::of::<Transform>(), Codec).unwrap();
    r.register("mid", Persist::Volatile, TypeId::of::<Vel>(), Codec).unwrap();
    r.rename("mid", "new").unwrap();
    r.rename("old", "mid").unwrap();
    assert_eq!(r.by_name("old").unwrap().name, "mid");
    assert_eq!(r.by_name("mid").unwrap().name, "new");
}
