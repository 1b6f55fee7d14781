use void_engine::pick3d::{comes_before, nearest_first};

fn order(distances: &[f64]) -> Vec<usize> {
    let bits: Vec<u64> = distances.iter().map(|d| d.to_bits()).collect();
    nearest_first(&bits)
}

#[test]
fn hits_come_back_nearest_first() {
    assert_eq!(order(&[29.0, 9.0, 19.0]), vec![1, 2, 0], "should be sorted by distance");
}

#[test]
fn equally_near_hits_keep_their_order() {
    assert_eq!(order(&[5.0, 1.0, 5.0, 1.0]), vec![1, 3, 0, 2]);
    assert_eq!(order(&[]), Vec::<usize>::new());
}

#[test]
fn distances_are_ordered_as_total_cmp_orders_them() {
    let values = [
        f64::NEG_INFINITY, -2.5, -0.0, 0.0, 1e-300, 2.5, f64::MAX, f64::INFINITY, f64::NAN,
    ];
    for a in values {
        for b in values {
            assert_eq!(
                comes_before(a.to_bits(), b.to_bits()),
                a.total_cmp(&b).is_lt(),
                "{a} against {b}"
            );
        }
    }
}
