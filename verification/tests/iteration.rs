use prime_bag::Backing;
use prime_bag::PrimeBag;
use prime_bag::PrimeBag128;
use prime_bag::PrimeBag16;
use prime_bag::PrimeBag32;
use prime_bag::PrimeBag64;
use prime_bag::PrimeBag8;

fn collect_elems<B: Backing>(bag: PrimeBag<B, usize>) -> Vec<usize> {
    let mut it = bag.into_iter();
    let mut v = Vec::new();
    while let Some(e) = it.next() {
        v.push(e);
    }
    v
}

fn collect_back<B: Backing>(bag: PrimeBag<B, usize>) -> Vec<usize> {
    let mut it = bag.into_iter();
    let mut v = Vec::new();
    while let Some(e) = it.next_back() {
        v.push(e);
    }
    v
}

fn collect_groups<B: Backing>(bag: &PrimeBag<B, usize>) -> Vec<(usize, usize)> {
    let mut it = bag.iter_groups();
    let mut v = Vec::new();
    while let Some(g) = it.next() {
        v.push(g);
    }
    v
}

#[test]
fn test_inner() {
    let bag = PrimeBag8::<usize>::try_from_iter(&vec![1, 1, 2]).unwrap();

    let inner = bag.into_inner();

    assert_eq!(inner, 45);

    let bag = PrimeBag8::<usize>::from_inner(45);

    let v = collect_groups(&bag);

    assert_eq!(v, [(1, 2), (2, 1)]);
}

#[test]
fn test_iter_groups_8() {
    let bag = PrimeBag8::<usize>::try_from_iter(&vec![1, 1, 2]).unwrap();
    let v = collect_groups(&bag);

    assert_eq!(v, [(1, 2), (2, 1)]);
}

#[test]
fn test_iter_groups_16() {
    let bag = PrimeBag16::<usize>::try_from_iter(&vec![1, 1, 2]).unwrap();
    let v = collect_groups(&bag);

    assert_eq!(v, [(1, 2), (2, 1)]);
}

#[test]
fn test_iter_groups_32() {
    let bag = PrimeBag32::<usize>::try_from_iter(&vec![1, 1, 1, 3, 3, 4, 4, 4]).unwrap();
    let v = collect_groups(&bag);

    assert_eq!(v, [(1, 3), (3, 2), (4, 3)]);
}

#[test]
fn test_iter_groups_64() {
    let bag = PrimeBag64::<usize>::try_from_iter(&vec![1, 1, 1, 3, 3, 4, 4, 4]).unwrap();
    let v = collect_groups(&bag);

    assert_eq!(v, [(1, 3), (3, 2), (4, 3)]);
}

#[test]
fn test_iter_groups_128() {
    let bag = PrimeBag128::<usize>::try_from_iter(&vec![1, 1, 1, 3, 3, 4, 4, 4]).unwrap();
    let v = collect_groups(&bag);

    assert_eq!(v, [(1, 3), (3, 2), (4, 3)]);
}

#[test]
fn test_try_from_iter() {
    let bag = PrimeBag16::<usize>::try_from_iter(&vec![1, 2, 2, 3, 3, 3]).unwrap();
    let elements = collect_elems(bag);
    assert_eq!(elements, [1, 2, 2, 3, 3, 3]);
}

#[test]
pub fn test_iter_size_hint() {
    let mut bag = PrimeBag16::<usize>::default();

    assert_eq!((0, Some(0)), bag.into_iter().size_hint());
    let mut expected_count = 0;
    assert_eq!(expected_count, bag.into_iter().count());

    for (to_add, min, max) in [(0, 1, 1), (0, 2, 2), (1, 3, 3), (1, 3, 4), (2, 3, 5), (4, 3, 7)] {
        bag = bag.try_insert(to_add).unwrap();

        assert_eq!((min, Some(max)), bag.into_iter().size_hint());

        expected_count += 1;
        assert_eq!(expected_count, bag.into_iter().count());
    }

    let mut iter = bag.into_iter();

    for ec in (0..=expected_count).rev() {
        assert_eq!(ec, iter.clone().count());
        iter.next();
    }
}

#[test]
pub fn test_iter_reverse() {
    let expected: Vec<usize> = vec![0, 0, 0, 1, 1, 2, 2, 3, 3, 5, 7, 13, 19];
    let bag = PrimeBag128::<usize>::try_from_iter(&expected).unwrap();

    let mut actual: Vec<usize> = collect_back(bag);
    actual.reverse();

    assert_eq!(expected, actual);
}

#[test]
pub fn test_iter_nth() {
    let expected: Vec<usize> = vec![0, 0, 0, 1, 1, 2, 2, 3, 3, 5, 7, 13, 19];
    let bag = PrimeBag128::<usize>::try_from_iter(&expected).unwrap();

    for n in 0..=expected.len() {
        let e = expected.iter().nth(n).copied();
        let mut it = bag.into_iter();
        let a = it.nth(n);

        assert_eq!(e, a);
    }
}

#[test]
pub fn test_iter_last() {
    let expected: Vec<usize> = vec![0, 0, 0, 1, 1, 2, 2, 3, 3, 5, 7, 13, 19];
    let bag = PrimeBag128::<usize>::try_from_iter(&expected).unwrap();

    assert_eq!(expected.last().copied(), bag.into_iter().last());
}

#[test]
pub fn test_forward_backward_agree() {
    let elements: Vec<usize> = vec![0, 0, 1, 4, 4, 9, 20, 31];
    let bag = PrimeBag128::<usize>::try_from_iter(&elements).unwrap();

    let forward = collect_elems(bag);
    let mut backward = collect_back(bag);
    backward.reverse();

    assert_eq!(forward, backward);
    assert_eq!(forward, elements);
}
