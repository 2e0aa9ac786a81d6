use breach_protocol::util::{is_part_of, new_vec, union_point};

#[test]
fn test_new_vec() {
    let v1 = new_vec::<u8>(&[], &[]);
    assert_eq!(true, v1.is_empty());
    assert_eq!(0, v1.capacity());

    let v2 = new_vec::<u8>(&[1, 2], &[]);
    assert_eq!(vec![1, 2], v2);
    assert_eq!(2, v2.capacity());

    let v3 = new_vec::<u8>(&[], &[1, 2]);
    assert_eq!(vec![1, 2], v3);
    assert_eq!(2, v3.capacity());

    let v4 = new_vec::<u8>(&[1, 2], &[3, 4]);
    assert_eq!(vec![1, 2, 3, 4], v4);
    assert_eq!(4, v4.capacity());
}

#[test]
fn test_is_part_of() {
    assert_eq!(true, is_part_of(&vec![0, 1, 2, 3, 4], &vec![0, 1, 2, 3, 4]));
    assert_eq!(true, is_part_of(&vec![0, 1, 2, 3, 4], &vec![0, 1, 2, 3]));
    assert_eq!(true, is_part_of(&vec![0, 1, 2, 3, 4], &vec![1, 2, 3, 4]));
    assert_eq!(true, is_part_of(&vec![0, 1, 2, 3, 4], &vec![1, 2, 3]));
    assert_eq!(true, is_part_of(&vec![0, 1, 2, 3, 4], &vec![2]));

    assert_eq!(false, is_part_of(&vec![0, 1, 2], &vec![2, 3]));
    assert_eq!(false, is_part_of(&vec![0, 1, 2], &vec![3]));
    assert_eq!(false, is_part_of(&vec![0, 1, 2], &vec![0, 1, 2, 3]));
}

#[test]
fn test_union_point() {
    assert_eq!(Some(2), union_point(&vec![0, 1, 2], &vec![2, 3, 4]));
    assert_eq!(Some(1), union_point(&vec![0, 1, 2], &vec![1, 2, 3]));
    assert_eq!(Some(1), union_point(&vec![0, 1, 2], &vec![1, 2]));

    assert_eq!(None, union_point(&vec![0, 1, 2], &vec![1, 3, 2]));
    assert_eq!(None, union_point(&vec![0, 1, 2], &vec![3, 4, 5]));
}

#[test]
fn is_part_of_rejects_empty_slices() {
    let empty: Vec<u8> = Vec::new();
    assert_eq!(false, is_part_of(&empty, &vec![1]));
    assert_eq!(false, is_part_of(&vec![1, 2], &empty));
    assert_eq!(false, is_part_of(&empty, &empty));
}

#[test]
fn is_part_of_finds_a_late_occurrence_after_a_false_start() {
    // the first 1 is followed by 1, not by 2
    assert_eq!(true, is_part_of(&vec![1, 1, 2, 3], &vec![1, 2, 3]));
    assert_eq!(false, is_part_of(&vec![1, 1, 2, 3], &vec![1, 3]));
}

#[test]
fn union_point_is_the_first_overlap() {
    // both the tail from 1 and the tail from 3 are prefixes of the second slice
    assert_eq!(Some(1), union_point(&vec![9, 5, 5, 5], &vec![5, 5, 5, 5]));
    // the tail must fit into the second slice
    assert_eq!(Some(2), union_point(&vec![5, 5, 5, 5], &vec![5, 5]));
}

#[test]
fn union_point_of_empty_slices_is_none() {
    let empty: Vec<u8> = Vec::new();
    assert_eq!(None, union_point(&empty, &vec![1]));
    assert_eq!(None, union_point(&vec![1], &empty));
}

#[test]
fn union_point_may_be_zero() {
    assert_eq!(Some(0), union_point(&vec![1, 2], &vec![1, 2, 3]));
}
