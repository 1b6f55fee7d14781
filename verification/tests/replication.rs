use void_engine::ecs::EntityId;
use void_engine::net::replication::Relevancy;

#[test]
fn maps_grid_indices_back_to_entities() {
    let mut r = Relevancy::new();
    r.begin();
    r.push(EntityId { index: 7, generation: 2 });
    r.push(EntityId { index: 3, generation: 0 });

    assert_eq!(r.entity(0), Some(EntityId { index: 7, generation: 2 }));
    assert_eq!(r.entity(1), Some(EntityId { index: 3, generation: 0 }));
    assert_eq!(r.entity(2), None, "an unrecorded index must not resolve");
}

#[test]
fn begin_clears_the_previous_tick() {
    let mut r = Relevancy::new();
    r.begin();
    r.push(EntityId { index: 1, generation: 0 });
    assert_eq!(r.len(), 1);

    r.begin();
    assert!(r.is_empty(), "a new tick starts from nothing");
    assert_eq!(r.entity(0), None);
}

#[test]
fn a_reused_index_is_a_distinct_entity() {
    let old = EntityId { index: 4, generation: 1 };
    let new = EntityId { index: 4, generation: 2 };
    assert_ne!(old, new, "generation is what separates them");

    let mut r = Relevancy::new();
    r.begin();
    r.push(new);
    assert_eq!(r.entity(0), Some(new));
    assert_ne!(r.entity(0), Some(old), "the stale generation must not match");
}
