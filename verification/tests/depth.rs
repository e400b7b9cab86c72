use matchx::fenwick::FenwickTree;
use matchx::occupancy::Occupancy;
use matchx::sorted::lower_bound;
use matchx::sparse_index::SparseVolumeIndex;

#[test]
fn fenwick_sums_prefixes_and_suffixes() {
    let mut tree = FenwickTree::new(10);
    tree.add(0, 5);
    tree.add(3, 7);
    tree.add(9, 11);
    assert_eq!(tree.prefix_sum(0), 5);
    assert_eq!(tree.prefix_sum(2), 5);
    assert_eq!(tree.prefix_sum(3), 12);
    assert_eq!(tree.prefix_sum(8), 12);
    assert_eq!(tree.prefix_sum(9), 23);
    assert_eq!(tree.prefix_sum_le(0), 5);
    assert_eq!(tree.prefix_sum_le(3), 12);
    assert_eq!(tree.prefix_sum_le(9), 23);
    assert_eq!(tree.suffix_sum_ge(0), 23);
    assert_eq!(tree.suffix_sum_ge(4), 11);
    assert_eq!(tree.suffix_sum_ge(9), 11);
    tree.sub(3, 6);
    assert_eq!(tree.prefix_sum_le(3), 6);
    assert_eq!(tree.suffix_sum_ge(3), 12);
}

#[test]
fn fenwick_built_from_values_holds_them() {
    let values: Vec<u64> = (1..=70).map(|i| i * i).collect();
    let mut tree = FenwickTree::build(&values);
    let mut sum = 0;
    for (i, value) in values.iter().enumerate() {
        sum += value;
        assert_eq!(tree.prefix_sum_le(i), sum);
    }
    for (i, value) in values.iter().enumerate() {
        tree.sub(i, *value);
    }
    assert_eq!(tree.prefix_sum(69), 0);
}

#[test]
fn sparse_index_sums_by_price() {
    let mut index = SparseVolumeIndex::new();
    index.add(300, 20);
    index.add(100, 10);
    index.add(u64::MAX, 5);
    index.add(0, 1);
    index.add(300, 2);
    assert_eq!(index.sum_at_or_below(0), 1);
    assert_eq!(index.sum_at_or_below(99), 1);
    assert_eq!(index.sum_at_or_below(100), 11);
    assert_eq!(index.sum_at_or_below(300), 33);
    assert_eq!(index.sum_at_or_below(u64::MAX), 38);
    assert_eq!(index.sum_at_or_above(0), 38);
    assert_eq!(index.sum_at_or_above(101), 27);
    assert_eq!(index.sum_at_or_above(u64::MAX), 5);
    index.sub(300, 22);
    index.sub(0, 1);
    assert_eq!(index.sum_at_or_below(u64::MAX), 15);
    assert_eq!(index.sum_at_or_below(300), 10);
    index.add(200, 0);
    assert_eq!(index.sum_at_or_above(101), 5);
}

#[test]
fn occupancy_finds_the_outermost_bits() {
    let mut bits = Occupancy::new(200);
    assert_eq!(bits.highest(), None);
    assert_eq!(bits.lowest(), None);
    for i in [64, 3, 127, 199] {
        bits.set(i);
    }
    assert_eq!(bits.highest(), Some(199));
    assert_eq!(bits.lowest(), Some(3));
    bits.clear(199);
    bits.clear(3);
    assert_eq!(bits.highest(), Some(127));
    assert_eq!(bits.lowest(), Some(64));
    bits.clear(64);
    bits.clear(127);
    assert_eq!(bits.lowest(), None);
    assert_eq!(bits.highest(), None);
}

#[test]
fn lower_bound_finds_the_first_price_not_below() {
    let prices = vec![10, 20, 30];
    assert_eq!(lower_bound(&prices, 5), 0);
    assert_eq!(lower_bound(&prices, 10), 0);
    assert_eq!(lower_bound(&prices, 11), 1);
    assert_eq!(lower_bound(&prices, 30), 2);
    assert_eq!(lower_bound(&prices, 31), 3);
}

#[test]
fn fenwick_sub_undoes_add() {
    let mut tree = FenwickTree::build(&vec![3, 0, 7, 1, 9]);
    let sums: Vec<u64> = (0..5).map(|i| tree.prefix_sum(i)).collect();
    tree.add(2, u64::MAX - 20);
    assert_eq!(tree.prefix_sum(2), u64::MAX - 10);
    tree.sub(2, u64::MAX - 20);
    let again: Vec<u64> = (0..5).map(|i| tree.prefix_sum(i)).collect();
    assert_eq!(again, sums);
}
