use vespertine::memory::range_tree::{RangeMap, RangeMapError};

#[test]
fn test_range_tree_insert_lookup() {
    let mut tree = RangeMap::new();

    assert_eq!(tree.insert(0x3000, 0x4000, 3), Ok(()));
    assert_eq!(tree.insert(0x1000, 0x2000, 1), Ok(()));
    assert_eq!(tree.insert(0x5000, 0x6000, 5), Ok(()));

    assert_eq!(*tree.get(0x1000).expect("missing first range").value, 1);
    assert_eq!(*tree.get(0x3FFF).expect("missing middle range").value, 3);
    assert_eq!(*tree.get(0x5001).expect("missing last range").value, 5);

    assert!(tree.get(0x2000).is_none());
    assert!(tree.get(0x4000).is_none());
    assert!(tree.validate());
}

#[test]
fn test_range_tree_overlap_rejection() {
    let mut tree = RangeMap::new();

    assert_eq!(tree.insert(0x1000, 0x2000, 1), Ok(()));
    assert_eq!(tree.insert(0x2000, 0x3000, 2), Ok(()));

    assert_eq!(tree.insert(0x0800, 0x1001, 3), Err(RangeMapError::Overlap));
    assert_eq!(tree.insert(0x1800, 0x2800, 4), Err(RangeMapError::Overlap));
    assert_eq!(tree.insert(0x2FFF, 0x4000, 5), Err(RangeMapError::Overlap));
    assert_eq!(tree.insert(0x4000, 0x4000, 6), Err(RangeMapError::Empty));

    assert!(tree.validate());
}

#[test]
fn test_range_tree_gap_search() {
    let mut tree = RangeMap::new();

    assert_eq!(tree.insert(0x1000, 0x2000, 1), Ok(()));
    assert_eq!(tree.insert(0x4000, 0x5000, 2), Ok(()));
    assert_eq!(tree.insert(0x8000, 0x9000, 3), Ok(()));

    assert_eq!(tree.find_gap(0x1000, 0x1000, 0x1000, 0xA000), Ok(Some(0x2000)));
    assert_eq!(tree.find_gap(0x2000, 0x1000, 0x1000, 0xA000), Ok(Some(0x2000)));
    assert_eq!(tree.find_gap(0x3000, 0x1000, 0x1000, 0xA000), Ok(Some(0x5000)));
    assert_eq!(tree.find_gap(0x2000, 0x2000, 0x1000, 0xA000), Ok(Some(0x2000)));
    assert_eq!(tree.find_gap(0x2000, 0x2000, 0x5000, 0x8000), Ok(Some(0x6000)));
    assert_eq!(tree.find_gap(0x3000, 0x2000, 0x1000, 0xA000), Ok(None));
    assert_eq!(tree.find_gap(0x2000, 0x1000, 0x9000, 0xA000), Ok(None));

    assert!(tree.validate());
}

#[test]
fn test_range_tree_remove() {
    let mut tree = RangeMap::new();

    for i in 0..32 {
        let start = 0x1000 + i * 0x2000;
        let end = start + 0x1000;
        assert_eq!(tree.insert(start, end, i), Ok(()));
    }

    assert_eq!(tree.remove(0x1000), Some(0));
    assert_eq!(tree.remove(0x1000 + 15 * 0x2000), Some(15));
    assert_eq!(tree.remove(0x1000 + 31 * 0x2000), Some(31));
    assert_eq!(tree.remove(0xDEAD), None);

    assert!(tree.get(0x1000).is_none());
    assert!(tree.get(0x1000 + 15 * 0x2000).is_none());
    assert!(tree.get(0x1000 + 31 * 0x2000).is_none());

    assert!(tree.validate());
}

#[test]
fn test_range_tree_remove_stress() {
    let mut tree = RangeMap::new();

    for i in 0..128 {
        let start = 0x1000 + i * 0x3000;
        assert_eq!(tree.insert(start, start + 0x1000, i), Ok(()));
        assert!(tree.validate());
    }

    for i in (0..128).step_by(2) {
        let start = 0x1000 + i * 0x3000;
        assert_eq!(tree.remove(start), Some(i));
        assert!(tree.validate());
    }

    for i in (1..128).step_by(2) {
        let start = 0x1000 + i * 0x3000;
        assert_eq!(*tree.get(start).expect("odd range disappeared").value, i);
    }

    for i in (1..128).rev().step_by(2) {
        let start = 0x1000 + i * 0x3000;
        assert_eq!(tree.remove(start), Some(i));
        assert!(tree.validate());
    }

    assert!(tree.is_empty());
    assert!(tree.validate());
}

#[test]
fn test_range_tree_helpers() {
    let mut tree = RangeMap::new();

    assert_eq!(tree.insert_size(0x1000, 0x1000, 1), Ok(()));
    assert_eq!(tree.insert_size(u64::MAX - 0x800, 0x1000, 2), Err(RangeMapError::Overflow));
    assert_eq!(tree.insert_size(0x3000, 0, 3), Err(RangeMapError::Empty));

    {
        let (_, _, value) = tree.get_by_start_mut(0x1000).expect("missing mutable range");
        *value = 42;
    }

    assert_eq!(*tree.get(0x1000).expect("missing updated range").value, 42);

    assert_eq!(tree.remove_exact(0x1000, 0x1800), Err(RangeMapError::Mismatch));
    assert_eq!(tree.remove_exact(0x2000, 0x3000), Err(RangeMapError::NotFound));
    assert_eq!(tree.remove_exact(0x1000, 0x2000), Ok(42));

    assert!(tree.is_empty());
    assert!(tree.validate());
}
