use calabi_yau::{z_range, ZRange};

fn keys(values: &[i64]) -> Vec<Option<i64>> {
    values.iter().map(|v| Some(*v)).collect()
}

fn float_key(x: f64) -> Option<i64> {
    if x.is_nan() {
        return None;
    }
    let bits = x.to_bits();
    let size = (bits & 0x7fff_ffff_ffff_ffff) as i64;
    Some(if bits >> 63 == 1 { -size } else { size })
}

#[test]
fn range_reads_every_third_key() {
    let buffer = keys(&[100, -100, 5, 200, -200, 3, 300, -300, 9]);
    assert_eq!(z_range(&buffer), Some(ZRange { min_at: 5, max_at: 8 }));
}

#[test]
fn range_of_one_point() {
    assert_eq!(z_range(&keys(&[1, 2, 3])), Some(ZRange { min_at: 2, max_at: 2 }));
}

#[test]
fn range_of_nothing() {
    assert_eq!(z_range(&[]), None);
    assert_eq!(z_range(&keys(&[1])), None);
    assert_eq!(z_range(&keys(&[1, 2])), None);
}

#[test]
fn range_passes_over_an_unfinished_point() {
    assert_eq!(z_range(&keys(&[0, 0, 7, 0, 0])), Some(ZRange { min_at: 2, max_at: 2 }));
    assert_eq!(z_range(&keys(&[0, 0, 7, -9, 99])), Some(ZRange { min_at: 2, max_at: 2 }));
}

#[test]
fn range_names_the_first_of_equals() {
    let buffer = keys(&[0, 0, 4, 0, 0, 1, 0, 0, 4, 0, 0, 1]);
    assert_eq!(z_range(&buffer), Some(ZRange { min_at: 5, max_at: 2 }));
    let flat = keys(&[0, 0, 6, 0, 0, 6, 0, 0, 6]);
    assert_eq!(z_range(&flat), Some(ZRange { min_at: 2, max_at: 2 }));
}

#[test]
fn range_passes_over_what_has_no_order() {
    let buffer = vec![
        Some(0), Some(0), None,
        Some(0), Some(0), Some(3),
        None, None, None,
        Some(0), Some(0), Some(-3),
    ];
    assert_eq!(z_range(&buffer), Some(ZRange { min_at: 11, max_at: 5 }));
    let nothing = vec![Some(1), Some(2), None, Some(4), Some(5), None];
    assert_eq!(z_range(&nothing), None);
}

#[test]
fn range_holds_the_extreme_keys() {
    let buffer = keys(&[0, 0, i64::MAX, 0, 0, i64::MIN, 0, 0, 0]);
    assert_eq!(z_range(&buffer), Some(ZRange { min_at: 5, max_at: 2 }));
}

#[test]
fn range_bounds_every_third_key_and_is_attained() {
    let mut buffer = Vec::new();
    let mut state = 12345u64;
    for _ in 0..999 {
        state = state.wrapping_mul(6364136223846793005).wrapping_add(1442695040888963407);
        buffer.push(Some((state >> 40) as i64 - (1 << 23)));
    }
    let range = z_range(&buffer).unwrap();
    assert_eq!(range.min_at % 3, 2);
    assert_eq!(range.max_at % 3, 2);
    let least = buffer[range.min_at].unwrap();
    let greatest = buffer[range.max_at].unwrap();
    let mut p = 2;
    while p < buffer.len() {
        let key = buffer[p].unwrap();
        assert!(least <= key && key <= greatest);
        if p < range.min_at {
            assert!(key > least);
        }
        if p < range.max_at {
            assert!(key < greatest);
        }
        p += 3;
    }
}

#[test]
fn range_follows_the_comparisons_of_floats() {
    let buffer = [
        0.0, 0.0, 0.0,
        0.0, 0.0, -0.0,
        0.0, 0.0, f64::NAN,
        0.0, 0.0, 1.5,
        0.0, 0.0, -2.25,
        0.0, 0.0, 1.5,
    ];
    let mut z_min = f64::INFINITY;
    let mut z_max = f64::NEG_INFINITY;
    let mut p = 2;
    while p < buffer.len() {
        let z = buffer[p];
        if z < z_min {
            z_min = z;
        }
        if z > z_max {
            z_max = z;
        }
        p += 3;
    }
    let order: Vec<Option<i64>> = buffer.iter().map(|x| float_key(*x)).collect();
    let range = z_range(&order).unwrap();
    assert_eq!(buffer[range.min_at].to_bits(), z_min.to_bits());
    assert_eq!(buffer[range.max_at].to_bits(), z_max.to_bits());
    assert_eq!(range, ZRange { min_at: 14, max_at: 11 });
}

#[test]
fn range_of_floats_without_order_is_none() {
    let buffer = [1.0, 2.0, f64::NAN, 3.0, 4.0, f64::NAN];
    let order: Vec<Option<i64>> = buffer.iter().map(|x| float_key(*x)).collect();
    assert_eq!(z_range(&order), None);
}

#[test]
fn same_buffer_same_range() {
    let buffer = keys(&[1, 2, 3, 4, 5, 6, 7, 8, 0]);
    assert_eq!(z_range(&buffer), z_range(&buffer));
}
