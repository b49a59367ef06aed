use roaring::RoaringBitmap;
use zettacache::binary_index_tree::BinaryIndexTree;
use zettacache::bitmap_range_iterator::{iter_ranges, SlotSet};
use zettacache::range_tree::RangeTree;
use zettacache::vec_map::VecMap;

#[test]
fn range_tree_joins_segments() {
    let mut tree = RangeTree::new();
    tree.add(100, 50);
    tree.add(200, 50);
    assert_eq!(tree.segs, vec![(100, 50), (200, 50)]);
    tree.add(150, 50);
    assert_eq!(tree.segs, vec![(100, 150)]);
    assert_eq!(tree.space(), 150);
}

#[test]
fn range_tree_splits_segments() {
    let mut tree = RangeTree::new();
    tree.add(100, 100);
    tree.remove(120, 30);
    assert_eq!(tree.segs, vec![(100, 20), (150, 50)]);
    tree.remove(100, 20);
    tree.remove(190, 10);
    assert_eq!(tree.segs, vec![(150, 40)]);
    assert_eq!(tree.space(), 40);
    tree.clear();
    assert_eq!(tree.space(), 0);
}

#[test]
fn range_tree_overlaps() {
    let mut tree = RangeTree::new();
    tree.add(100, 10);
    tree.add(120, 10);
    assert!(tree.overlaps(95, 6));
    assert!(!tree.overlaps(90, 10));
    assert!(!tree.overlaps(110, 10));
    assert!(tree.overlaps(0, 1000));
    assert!(!tree.overlaps(105, 0));
    assert_eq!(tree.lower_bound(101), 1);
}

#[test]
fn range_tree_same_set_has_the_same_segments() {
    let mut a = RangeTree::new();
    a.add(0, 10);
    a.add(10, 10);
    let mut b = RangeTree::new();
    b.add(0, 30);
    b.remove(20, 10);
    assert_eq!(a.segs, b.segs);
}

#[test]
fn range_tree_inverse() {
    let mut tree = RangeTree::new();
    tree.add(10, 10);
    tree.add(40, 10);
    assert_eq!(tree.iter_inverse(0, 60), vec![(0, 10), (20, 20), (50, 10)]);
    assert_eq!(tree.iter_inverse(10, 50), vec![(20, 20)]);
    assert_eq!(RangeTree::new().iter_inverse(5, 9), vec![(5, 4)]);
}

#[test]
fn slots_have_runs() {
    let mut slots = SlotSet::new();
    assert_eq!(slots.iter_runs(), vec![]);
    assert_eq!(slots.min(), None);
    assert!(slots.insert(5));
    assert!(!slots.insert(5));
    slots.insert_range(6, 10);
    assert!(slots.insert(20));
    assert_eq!(slots.iter_runs(), vec![(5, 5), (20, 1)]);
    assert_eq!(slots.iter_inverse_runs(30), vec![(0, 5), (10, 10), (21, 9)]);
    assert_eq!(slots.len(), 6);
    assert_eq!(slots.min(), Some(5));
    assert!(slots.contains(9));
    assert!(!slots.contains(10));
    slots.remove_range(5, 8);
    assert!(slots.remove(20));
    assert!(!slots.remove(20));
    assert_eq!(slots.iter_runs(), vec![(8, 2)]);
    slots.clear();
    assert_eq!(slots.len(), 0);
}

#[test]
fn ranges_come_one_by_one() {
    let mut bitmap = RoaringBitmap::new();
    bitmap.insert_range(0..5);
    bitmap.insert(7);
    bitmap.insert_range(10..12);
    let mut ranges = iter_ranges(&bitmap);
    assert_eq!(ranges.next(), Some((0, 4)));
    assert_eq!(ranges.next(), Some((7, 7)));
    assert_eq!(ranges.next(), Some((10, 11)));
    assert_eq!(ranges.next(), None);
    assert_eq!(ranges.next(), None);
    let mut ranges = iter_ranges(&bitmap);
    ranges.next();
    assert_eq!(ranges.collect(), vec![(7, 7), (10, 11)]);
}

#[test]
fn bitmap_ranges_are_inclusive() {
    let mut bitmap = RoaringBitmap::new();
    assert_eq!(iter_ranges(&bitmap).next(), None);
    bitmap.insert_range(3..7);
    bitmap.insert(9);
    bitmap.insert(u32::MAX);
    assert_eq!(
        iter_ranges(&bitmap).collect(),
        vec![(3, 6), (9, 9), (u32::MAX, u32::MAX)]
    );
}

#[test]
fn tree_of_sums() {
    let mut tree = BinaryIndexTree::new(&vec![1, 2, 3, 4, 5], 2);
    assert_eq!(tree.len(), 7);
    assert_eq!(tree.suffix_sum(0), 15);
    assert_eq!(tree.suffix_sum(3), 9);
    assert_eq!(tree.suffix_sum(7), 0);
    tree.insert_at(6, 100);
    tree.remove_at(1, 2);
    assert_eq!(tree.suffix_sum(0), 113);
    assert_eq!(tree.suffix_sum(2), 112);
    assert_eq!(tree.suffix_sum(6), 100);
    assert_eq!(BinaryIndexTree::new(&vec![], 0).suffix_sum(0), 0);
}

#[test]
fn vec_map_is_sparse() {
    let mut map: VecMap<u64> = VecMap::new();
    assert_eq!(map.insert(5, 50), None);
    assert_eq!(map.insert(2, 20), None);
    assert_eq!(map.insert(5, 51), Some(50));
    assert_eq!(map.get(5), Some(&51));
    assert_eq!(map.get(3), None);
    assert_eq!(map.get(99), None);
    assert!(map.contains_key(2));
    assert_eq!(map.keys(), vec![2, 5]);
    assert_eq!(map.remove(2), Some(20));
    assert_eq!(map.remove(2), None);
    assert_eq!(map.keys(), vec![5]);
}
