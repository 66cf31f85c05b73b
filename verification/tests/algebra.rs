use prime_bag::Backing;
use prime_bag::PrimeBag;
use prime_bag::PrimeBag128;
use prime_bag::PrimeBag16;
use prime_bag::PrimeBag64;
use prime_bag::PrimeBag8;

fn collect_groups<B: Backing>(bag: &PrimeBag<B, usize>) -> Vec<(usize, usize)> {
    let mut it = bag.iter_groups();
    let mut v = Vec::new();
    while let Some(g) = it.next() {
        v.push(g);
    }
    v
}

#[test]
fn test_round_trip_inner() {
    for raw in [1u16, 2, 45, 1000, 65535] {
        assert_eq!(PrimeBag16::<usize>::from_inner(raw).into_inner(), raw);
    }
    for raw in [1u128, 45, u128::MAX] {
        assert_eq!(PrimeBag128::<usize>::from_inner(raw).into_inner(), raw);
    }
}

#[test]
fn test_sixteen_bit_build_value() {
    let bag = PrimeBag16::<usize>::try_from_iter(&vec![1, 1, 2]).unwrap();
    assert_eq!(bag.into_inner(), 45);
}

#[test]
fn test_commutativity() {
    let a = PrimeBag64::<usize>::try_from_iter(&vec![0, 1, 1, 5]).unwrap();
    let b = PrimeBag64::<usize>::try_from_iter(&vec![1, 2, 5, 5]).unwrap();

    assert_eq!(a.try_sum(&b), b.try_sum(&a));
    assert_eq!(a.try_union(&b), b.try_union(&a));
    assert_eq!(a.intersection(&b), b.intersection(&a));
}

#[test]
fn test_idempotence() {
    let a = PrimeBag64::<usize>::try_from_iter(&vec![0, 1, 1, 5, 9]).unwrap();

    assert_eq!(a.intersection(&a), a);
    assert_eq!(a.try_union(&a), Some(a));
}

#[test]
fn test_insert_remove_inverse() {
    let bag = PrimeBag64::<usize>::try_from_iter(&vec![2, 3, 3]).unwrap();
    for e in [0usize, 1, 7, 31] {
        let grown = bag.try_insert(e).unwrap();
        assert_eq!(grown.try_remove(e), Some(bag));
    }
}

#[test]
fn test_superset_subset_duality() {
    let bags = [
        PrimeBag16::<usize>::default(),
        PrimeBag16::<usize>::try_from_iter(&vec![1, 2]).unwrap(),
        PrimeBag16::<usize>::try_from_iter(&vec![1, 2, 2, 3]).unwrap(),
        PrimeBag16::<usize>::try_from_iter(&vec![4, 5]).unwrap(),
    ];
    for a in &bags {
        for b in &bags {
            assert_eq!(a.is_superset(b), b.is_subset(a));
        }
    }
}

#[test]
fn test_build_decode_duality() {
    let elements: Vec<usize> = vec![0, 0, 2, 2, 2, 6, 11];
    let bag = PrimeBag128::<usize>::try_from_iter(&elements).unwrap();
    let groups = collect_groups(&bag);
    assert_eq!(groups, [(0, 2), (2, 3), (6, 1), (11, 1)]);
}

#[test]
fn test_insert_rejects_missing_table_entry() {
    let bag = PrimeBag128::<usize>::default();
    assert_eq!(bag.try_insert(32), None);
    assert_eq!(bag.try_insert_many(40, 1), None);
    assert_eq!(PrimeBag128::<usize>::try_from_iter(&vec![0, 99]), None);
}

#[test]
fn test_capacity_edge_u8() {
    let bag = PrimeBag8::<usize>::try_from_iter(&vec![0, 0, 0, 0, 0, 0, 0]).unwrap();
    assert_eq!(bag.into_inner(), 128);
    assert_eq!(bag.try_insert(0), None);
    assert_eq!(PrimeBag8::<usize>::try_from_iter(&vec![0; 8]), None);
}

#[test]
fn test_widening_preserves_inner() {
    let b8 = PrimeBag8::<usize>::try_from_iter(&vec![0, 1, 2]).unwrap();
    let b128: PrimeBag128<usize> = b8.into();
    assert_eq!(b8.into_inner() as u128, b128.into_inner());
}

#[test]
fn test_difference_not_a_superset() {
    let a = PrimeBag16::<usize>::try_from_iter(&vec![1, 2]).unwrap();
    let b = PrimeBag16::<usize>::try_from_iter(&vec![1, 1]).unwrap();
    assert_eq!(a.try_difference(&b), None);
    let expected = PrimeBag16::<usize>::try_from_iter(&vec![2]).unwrap();
    assert_eq!(a.try_difference(&PrimeBag16::<usize>::try_from_iter(&vec![1]).unwrap()),
        Some(expected));
}
