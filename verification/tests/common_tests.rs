use pbase::common::{
    binary_narrow_to_lower_range_exclusive, binary_narrow_to_range_exclusive,
    binary_narrow_to_upper_range_exclusive,
};
use pbase::value::Value;

#[test]
fn test_binary_narrow_to_range_exclusive() {
    let list = [0, 0, 0, 1, 1, 1, 3, 3, 3];
    let len = i32::try_from(list.len()).unwrap();

    assert_eq!(
        (-1, 0),
        binary_narrow_to_range_exclusive(-1, len, |i| list[usize::try_from(i).unwrap()].cmp(&-10))
    );
    assert_eq!(
        (-1, 3),
        binary_narrow_to_range_exclusive(-1, len, |i| list[usize::try_from(i).unwrap()].cmp(&0))
    );
    assert_eq!(
        (2, 6),
        binary_narrow_to_range_exclusive(-1, len, |i| list[usize::try_from(i).unwrap()].cmp(&1))
    );
    assert_eq!(
        (5, 6),
        binary_narrow_to_range_exclusive(-1, len, |i| list[usize::try_from(i).unwrap()].cmp(&2))
    );
    assert_eq!(
        (5, 9),
        binary_narrow_to_range_exclusive(-1, len, |i| list[usize::try_from(i).unwrap()].cmp(&3))
    );
    assert_eq!(
        (8, 9),
        binary_narrow_to_range_exclusive(-1, len, |i| list[usize::try_from(i).unwrap()].cmp(&10))
    );
}

#[test]
fn test_binary_narrow_to_upper_range_exclusive() {
    let list = [0, 0, 0, 1, 1, 1, 3, 3, 3];
    let len = i32::try_from(list.len()).unwrap();

    assert_eq!(
        -1,
        binary_narrow_to_upper_range_exclusive(-1, len, |i| list[usize::try_from(i).unwrap()]
            .cmp(&-10))
    );
    assert_eq!(
        2,
        binary_narrow_to_upper_range_exclusive(-1, len, |i| list[usize::try_from(i).unwrap()]
            .cmp(&0))
    );
    assert_eq!(
        5,
        binary_narrow_to_upper_range_exclusive(-1, len, |i| list[usize::try_from(i).unwrap()]
            .cmp(&1))
    );
    assert_eq!(
        5,
        binary_narrow_to_upper_range_exclusive(-1, len, |i| list[usize::try_from(i).unwrap()]
            .cmp(&2))
    );
    assert_eq!(
        8,
        binary_narrow_to_upper_range_exclusive(-1, len, |i| list[usize::try_from(i).unwrap()]
            .cmp(&3))
    );
    assert_eq!(
        8,
        binary_narrow_to_upper_range_exclusive(-1, len, |i| list[usize::try_from(i).unwrap()]
            .cmp(&10))
    );
}

#[test]
fn test_binary_narrow_to_lower_range_exclusive() {
    let list = [0, 0, 0, 1, 1, 1, 3, 3, 3];
    let len = i32::try_from(list.len()).unwrap();

    assert_eq!(
        0,
        binary_narrow_to_lower_range_exclusive(-1, len, |i| list[usize::try_from(i).unwrap()]
            .cmp(&-10))
    );
    assert_eq!(
        0,
        binary_narrow_to_lower_range_exclusive(-1, len, |i| list[usize::try_from(i).unwrap()]
            .cmp(&0))
    );
    assert_eq!(
        3,
        binary_narrow_to_lower_range_exclusive(-1, len, |i| list[usize::try_from(i).unwrap()]
            .cmp(&1))
    );
    assert_eq!(
        6,
        binary_narrow_to_lower_range_exclusive(-1, len, |i| list[usize::try_from(i).unwrap()]
            .cmp(&2))
    );
    assert_eq!(
        6,
        binary_narrow_to_lower_range_exclusive(-1, len, |i| list[usize::try_from(i).unwrap()]
            .cmp(&3))
    );
    assert_eq!(
        9,
        binary_narrow_to_lower_range_exclusive(-1, len, |i| list[usize::try_from(i).unwrap()]
            .cmp(&10))
    );
}

#[test]
fn test_value_ordering() {
    let null = Value::NULL;
    let i32_zero = Value::I32(0);
    let i32_ten = Value::I32(10);

    assert_eq!(null, null);
    assert_eq!(i32_ten, i32_ten);

    assert!(null < i32_zero);
    assert!(null < i32_ten);

    assert!(null <= i32_zero);
    assert!(null <= i32_ten);

    assert!(i32_zero > null);
    assert!(i32_ten > null);

    assert!(i32_zero >= null);
    assert!(i32_ten >= null);

    assert!(i32_zero < i32_ten);
    assert!(i32_zero <= i32_ten);
}

#[test]
fn test_copy_bytes_to() {
    let mut buf: Vec<u8> = vec![0; 6];
    Value::I32(0x0403_0201).copy_bytes_to(&mut buf, 1);

    assert_eq!(vec![0, 1, 2, 3, 4, 0], buf);
}
