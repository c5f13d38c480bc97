use piretoutpire::math::{distance, div_ceil, middle_point};

#[test]
fn test_basic_testing() {
    assert_eq!(0, div_ceil(0, 1));
    assert_eq!(1, div_ceil(1, 1));
    assert_eq!(1, div_ceil(2, 2));

    assert_eq!(2, div_ceil(3, 2));
    assert_eq!(2, div_ceil(4, 2));
    assert_eq!(3, div_ceil(5, 2));
    assert_eq!(3, div_ceil(6, 2));
    assert_eq!(4, div_ceil(7, 2));
}

#[test]
fn test_middle_point() {
    assert_eq!(0, middle_point(0, 0));
    assert_eq!(0, middle_point(0, 1));
    assert_eq!(1, middle_point(0, 2));

    assert_eq!(180, middle_point(120, 240));
    assert_eq!(180, middle_point(120, 241));
    assert_eq!(300, middle_point(300, 300));

    assert_eq!(u32::MAX - 1, middle_point(u32::MAX - 2, u32::MAX));
}

#[test]
fn test_distance_is_xor() {
    assert_eq!(0, distance(7, 7));
    assert_eq!(3, distance(1, 2));
    assert_eq!(u32::MAX, distance(0, u32::MAX));
}

#[test]
fn test_div_ceil_u64() {
    assert_eq!(0, piretoutpire::div::div_ceil(0, 3));
    assert_eq!(1, piretoutpire::div::div_ceil(1, 1048576));
    assert_eq!(2, piretoutpire::div::div_ceil(1048577, 1048576));
}
