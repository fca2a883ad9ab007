use erosion::modular::{
    modular_difference, modular_difference_in_range, modular_offset, modular_offset_in_range,
};

#[test]
fn difference_forward() {
    assert_eq!(modular_difference(2, 5, 8), 3);
    assert_eq!(modular_difference(4, 4, 8), 0);
}

#[test]
fn difference_wraps() {
    assert_eq!(modular_difference(6, 1, 8), 3);
    assert_eq!(modular_difference(7, 0, 8), 1);
}

#[test]
fn offset_forward() {
    assert_eq!(modular_offset(2, 3, 7), 5);
    assert_eq!(modular_offset(4, 3, 7), 7);
}

#[test]
fn offset_wraps() {
    // the cycle 0..=7 has eight places
    assert_eq!(modular_offset(6, 3, 7), 1);
    assert_eq!(modular_offset(7, 1, 7), 0);
}

#[test]
fn offset_undoes_difference() {
    for begin in 0..=7u32 {
        for end in 0..=7u32 {
            assert_eq!(modular_offset(begin, modular_difference(begin, end, 8), 7), end);
        }
    }
}

#[test]
fn difference_undoes_offset() {
    for begin in 0..=7u32 {
        for offset in 0..=7u32 {
            assert_eq!(modular_difference(begin, modular_offset(begin, offset, 7), 8), offset);
        }
    }
}

#[test]
fn difference_in_range_forward_and_wrapping() {
    assert_eq!(modular_difference_in_range(11, 13, 10, 14), 2);
    assert_eq!(modular_difference_in_range(13, 11, 10, 14), 3);
    assert_eq!(modular_difference_in_range(14, 10, 10, 14), 1);
    assert_eq!(modular_difference_in_range(12, 12, 10, 14), 0);
}

#[test]
fn offset_in_range_forward_and_wrapping() {
    assert_eq!(modular_offset_in_range(11, 2, 10, 14), 13);
    assert_eq!(modular_offset_in_range(14, 1, 10, 14), 10);
    assert_eq!(modular_offset_in_range(13, 4, 10, 14), 12);
    assert_eq!(modular_offset_in_range(12, 0, 10, 14), 12);
}

#[test]
fn offset_in_range_undoes_difference() {
    for begin in 10..=14u32 {
        for end in 10..=14u32 {
            let d = modular_difference_in_range(begin, end, 10, 14);
            assert!(d < 5);
            assert_eq!(modular_offset_in_range(begin, d, 10, 14), end);
        }
    }
}

#[test]
fn difference_in_range_undoes_offset() {
    for begin in 10..=14u32 {
        for offset in 0..5u32 {
            let r = modular_offset_in_range(begin, offset, 10, 14);
            assert!((10..=14).contains(&r));
            assert_eq!(modular_difference_in_range(begin, r, 10, 14), offset);
        }
    }
}

#[test]
fn stepping_by_one_walks_the_ring() {
    let mut v = 13u32;
    let mut seen = Vec::new();
    for _ in 0..5 {
        seen.push(v);
        v = modular_offset_in_range(v, 1, 10, 14);
    }
    assert_eq!(seen, vec![13, 14, 10, 11, 12]);
    assert_eq!(v, 13);
}
