use endo::base::Base;
use endo::base::Base::{C, F, I, P};
use endo::rope::{Rope, SeqLeaf, MAX_LEAF, MIN_LEAF};

fn symbol(i: usize) -> Base {
    [I, C, F, P][(i * 3 + i / 5 + i / 1024) % 4]
}

fn run(n: usize) -> Vec<Base> {
    (0..n).map(symbol).collect()
}

fn all(rope: &Rope) -> Vec<Base> {
    (0..rope.len()).map(|i| rope.nth(i).unwrap()).collect()
}

#[test]
fn rope_base_test() {
    let s = Rope::from_slice(&[C, F, P]);
    assert_eq!(s.len(), 3);
    assert_eq!(s.nth(1), Some(F));
    assert_eq!(s.nth(3), None);
}

#[test]
fn rope_big_test() {
    let data = run(10_000_000);
    let s = Rope::from_slice(data.as_slice());
    assert_eq!(s.len(), data.len());
    for (i, x) in data.iter().enumerate() {
        assert_eq!(s.nth(i), Some(*x));
    }
}

#[test]
fn rope_split_test() {
    let data = run(10_000_000);
    let s = Rope::from_slice(data.as_slice());
    let s = s.subseq(5_000_000..s.len());
    assert_eq!(s.nth(0), Some(data[5_000_000]));
    assert_eq!(s.len(), 5_000_000);
}

#[test]
fn rope_iter_test() {
    let data = run(10_000_000);
    let s = Rope::from_slice(data.as_slice());
    assert_eq!(all(&s), data);
}

#[test]
fn rope_of_nothing_is_empty() {
    let s = Rope::from_slice(&[]);
    assert_eq!(s.len(), 0);
    assert_eq!(s.nth(0), None);
    assert_eq!(s.subseq(0..10).len(), 0);
}

#[test]
fn rope_sizes_around_the_leaf_limits() {
    for n in [1, MIN_LEAF, MAX_LEAF - 1, MAX_LEAF, MAX_LEAF + 1, MAX_LEAF + MIN_LEAF, 2 * MAX_LEAF, 2 * MAX_LEAF + 1, 9 * MAX_LEAF + 17] {
        let data = run(n);
        let s = Rope::from_slice(data.as_slice());
        assert_eq!(s.len(), n);
        assert_eq!(all(&s), data);
        assert_eq!(s.nth(n), None);
    }
}

#[test]
fn rope_concat_and_subseq() {
    let left = run(3000);
    let right: Vec<Base> = run(2500).into_iter().rev().collect();
    let a = Rope::from_slice(left.as_slice());
    let b = Rope::from_slice(right.as_slice());
    let joined = a.concat(&b);
    assert_eq!(joined.len(), 5500);
    let mut expected = left.clone();
    expected.extend(right.iter().cloned());
    assert_eq!(all(&joined), expected);
    let middle = joined.subseq(2990..3010);
    assert_eq!(all(&middle), expected[2990..3010].to_vec());
    assert_eq!(all(&joined.subseq(5000..9999)), expected[5000..].to_vec());
    assert_eq!(joined.subseq(20..10).len(), 0);
    let small = Rope::from_slice(&[I, C]).concat(&Rope::from_slice(&[F]));
    assert_eq!(all(&small), vec![I, C, F]);
    let doubled = joined.concat(&joined.clone());
    assert_eq!(doubled.len(), 11000);
    assert_eq!(doubled.nth(5500), Some(expected[0]));
}

#[test]
fn leaf_extend_and_shrink() {
    let mut leaf = SeqLeaf::from_slice(&[I, C, F]);
    leaf.extend(&[P, P]);
    assert_eq!(leaf.get(3), Some(P));
    assert_eq!(leaf.get(5), None);
    let rest = leaf.shrink(2);
    assert_eq!(rest, vec![F, P, P]);
    assert_eq!(leaf.get(1), Some(C));
    assert_eq!(leaf.get(2), None);
}

#[test]
fn leaves_are_cut_greedily() {
    assert_eq!(Rope::leaf_size(0), 0);
    assert_eq!(Rope::leaf_size(1), 1);
    assert_eq!(Rope::leaf_size(MAX_LEAF), MAX_LEAF);
    assert_eq!(Rope::leaf_size(MAX_LEAF + 1), MAX_LEAF + 1 - MIN_LEAF);
    assert_eq!(Rope::leaf_size(MAX_LEAF + MIN_LEAF - 1), MAX_LEAF - 1);
    assert_eq!(Rope::leaf_size(MAX_LEAF + MIN_LEAF), MAX_LEAF);
    assert_eq!(Rope::leaf_size(10 * MAX_LEAF), MAX_LEAF);
    assert_eq!(MIN_LEAF, 511);
    assert_eq!(MAX_LEAF, 1024);
}
