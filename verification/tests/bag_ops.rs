use prime_bag::PrimeBag128;
use prime_bag::PrimeBag16;
use prime_bag::PrimeBag32;
use prime_bag::PrimeBag64;
use prime_bag::PrimeBag8;

#[test]
fn test_from_bag_to_bag() {
    let b8 = PrimeBag8::<usize>::try_from_iter(&vec![1, 2, 3]).unwrap();

    let b16: PrimeBag16<usize> = b8.into();
    let b32: PrimeBag32<usize> = b8.into();
    let b64: PrimeBag64<usize> = b8.into();
    let b128: PrimeBag128<usize> = b8.into();

    assert_eq!(b16, PrimeBag16::<usize>::try_from_iter(&vec![1, 2, 3]).unwrap());
    assert_eq!(b32, PrimeBag32::<usize>::try_from_iter(&vec![1, 2, 3]).unwrap());
    assert_eq!(b64, PrimeBag64::<usize>::try_from_iter(&vec![1, 2, 3]).unwrap());
    assert_eq!(
        b128,
        PrimeBag128::<usize>::try_from_iter(&vec![1, 2, 3]).unwrap()
    );
}

#[test]
fn test_try_extend() {
    let bag = PrimeBag16::<usize>::try_from_iter(&vec![1, 2, 2]).unwrap();
    let bag2 = bag.try_extend(&vec![3, 3, 3]).unwrap();
    assert_eq!(bag.count_instances(3), 0);
    assert_eq!(bag2.count_instances(3), 3);
}

#[test]
fn test_count_instances() {
    let bag = PrimeBag16::<usize>::try_from_iter(&vec![1, 2, 2, 3, 3, 3]).unwrap();
    assert_eq!(bag.count_instances(0), 0);
    assert_eq!(bag.count_instances(1), 1);
    assert_eq!(bag.count_instances(2), 2);
    assert_eq!(bag.count_instances(3), 3);
    assert_eq!(bag.count_instances(1000), 0);
}

#[test]
fn test_count_instances_of_zero() {
    let bag = PrimeBag16::<usize>::try_from_iter(&vec![0, 0, 0, 1, 2, 3]).unwrap();
    assert_eq!(bag.count_instances(0), 3);
}

#[test]
fn test_contains() {
    let bag = PrimeBag16::<usize>::try_from_iter(&vec![1, 2, 2, 3, 3, 3]).unwrap();
    assert!(bag.contains(2));
    assert!(!bag.contains(4));
    assert!(!bag.contains(1000)); // it is impossible for the bag to contain this value
}

#[test]
fn test_contains_at_least() {
    let bag = PrimeBag16::<usize>::try_from_iter(&vec![1, 2, 2, 3, 3, 3]).unwrap();
    assert!(bag.contains_at_least(2, 2));
    assert!(!bag.contains_at_least(2, 3));
    assert!(!bag.contains_at_least(1000, 1)); // it is impossible for the bag to contain this value
}

#[test]
pub fn test_try_insert() {
    let bag = PrimeBag16::<usize>::try_from_iter(&vec![1, 2, 2, 3, 3, 3]).unwrap();
    //Note: the original bag is almost full - it has space for a 0 but not a 4
    let expected_bag = PrimeBag16::<usize>::try_from_iter(&vec![1, 2, 2, 3, 3, 3, 0]).unwrap();
    assert_eq!(bag.try_insert(0), Some(expected_bag));
    assert_eq!(bag.try_insert(4), None);
}

#[test]
pub fn test_try_remove() {
    let bag = PrimeBag16::<usize>::try_from_iter(&vec![1, 2, 2]).unwrap();
    let expected_bag = PrimeBag16::<usize>::try_from_iter(&vec![1, 2]).unwrap();
    assert_eq!(bag.try_remove(2), Some(expected_bag));
    assert_eq!(bag.try_remove(3), None);
}

#[test]
pub fn test_try_insert_many() {
    let bag = PrimeBag16::<usize>::try_from_iter(&vec![1, 2, 2]).unwrap();
    //Note: the original bag has space to add 3 copies of 3 but not 4 copies
    let expected_bag = PrimeBag16::<usize>::try_from_iter(&vec![1, 2, 2, 3, 3, 3]).unwrap();
    assert_eq!(bag.try_insert_many(3, 3), Some(expected_bag));
    assert_eq!(bag.try_insert_many(3, 4), None);
}

#[test]
pub fn test_is_superset() {
    let super_bag = PrimeBag16::<usize>::try_from_iter(&vec![1, 2, 2, 3, 3, 3]).unwrap();
    let sub_bag = PrimeBag16::<usize>::try_from_iter(&vec![1, 2, 3]).unwrap();
    assert!(super_bag.is_superset(&sub_bag));
    assert!(super_bag.is_superset(&super_bag));
    assert!(!sub_bag.is_superset(&super_bag));
}

#[test]
pub fn test_is_subset() {
    let super_bag = PrimeBag16::<usize>::try_from_iter(&vec![1, 2, 2, 3, 3, 3]).unwrap();
    let sub_bag = PrimeBag16::<usize>::try_from_iter(&vec![1, 2, 3]).unwrap();
    assert!(sub_bag.is_subset(&super_bag));
    assert!(sub_bag.is_subset(&sub_bag));
    assert!(!super_bag.is_subset(&sub_bag));
}

#[test]
pub fn test_is_empty() {
    let bag = PrimeBag16::<usize>::try_from_iter(&vec![1, 2, 2, 3, 3, 3]).unwrap();
    assert!(!bag.is_empty());
    assert!(PrimeBag16::<usize>::default().is_empty());
}

#[test]
pub fn test_try_union() {
    let bag = PrimeBag16::<usize>::try_from_iter(&vec![1, 2, 3, 3]).unwrap();
    let bag2 = PrimeBag16::<usize>::try_from_iter(&vec![2, 3, 4]).unwrap();

    let expected_bag = PrimeBag16::<usize>::try_from_iter(&vec![1, 2, 3, 3, 4]).unwrap();
    assert_eq!(bag.try_union(&bag2), Some(expected_bag));

    let friend = PrimeBag16::<usize>::try_from_iter(&vec![5]).unwrap();

    assert_eq!(expected_bag.try_union(&friend), None); //The bag created would be too big
}

#[test]
pub fn test_try_sum() {
    let bag = PrimeBag16::<usize>::try_from_iter(&vec![1, 2, 3, 3]).unwrap();
    let bag2 = PrimeBag16::<usize>::try_from_iter(&vec![2, 3]).unwrap();
    let expected_bag = PrimeBag16::<usize>::try_from_iter(&vec![1, 2, 2, 3, 3, 3]).unwrap();
    assert_eq!(bag.try_sum(&bag2), Some(expected_bag));
    assert_eq!(expected_bag.try_sum(&expected_bag), None); //The bag created would be too big
}

#[test]
pub fn test_intersection() {
    let bag_1_1_3 = PrimeBag16::<usize>::try_from_iter(&vec![1, 1, 3]).unwrap();
    let bag_1_2 = PrimeBag16::<usize>::try_from_iter(&vec![1, 2]).unwrap();
    let expected_bag = PrimeBag16::<usize>::try_from_iter(&vec![1]).unwrap();
    assert_eq!(bag_1_1_3.intersection(&bag_1_2), expected_bag);
}

#[test]
pub fn test_try_difference() {
    let bag1 = PrimeBag16::<usize>::try_from_iter(&vec![1, 2, 2, 3, 3, 3]).unwrap();
    let bag2 = PrimeBag16::<usize>::try_from_iter(&vec![2, 3]).unwrap();
    let expected_bag = PrimeBag16::<usize>::try_from_iter(&vec![1, 2, 3, 3]).unwrap();
    assert_eq!(bag1.try_difference(&bag2), Some(expected_bag));
    assert_eq!(bag2.try_difference(&bag1), None); //bag2 is not a superset of bag1
}

#[test]
pub fn test_empty() {
    let bag = PrimeBag128::<usize>::empty();

    assert!(bag.is_empty());
}
