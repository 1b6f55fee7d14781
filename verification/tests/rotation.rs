use void_engine::rotation::{nth_file, rotation_moves, slot_file};

#[test]
fn copies_are_numbered() {
    assert_eq!(nth_file("w.ckpt", 2), "w.ckpt.2");
    assert_eq!(slot_file("w.ckpt", 0), "w.ckpt");
    assert_eq!(slot_file("w.ckpt", 1), "w.ckpt.1");
}

#[test]
fn a_rotation_starts_with_the_oldest() {
    let moves: Vec<(String, String)> = rotation_moves("w", 3);
    let said: Vec<(&str, &str)> = moves.iter().map(|m| (m.0.as_str(), m.1.as_str())).collect();
    assert_eq!(said, [("w.2", "w.3"), ("w.1", "w.2"), ("w", "w.1")]);
    assert!(rotation_moves("w", 0).is_empty());
}
