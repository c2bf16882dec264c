use union_find::AtomicUnionFind;
use union_find::BorrowedUnionFind;
use union_find::UnionFind;
use union_find::UnionFindOp;

#[test]
fn test_subset_clone() {
    let mut v = UnionFind::new_u32(32);
    let s = v.subset_clone(16..32);
    assert_eq!(s.curr_len(), 16);
    assert_eq!(s.capacity(), 16);

    v.set(18, 19);
    let s = v.subset_clone(16..32);
    assert_eq!(s.curr_len(), 15);
    assert_eq!(s.capacity(), 16);
    assert!(!s.is_root(2));
    assert_eq!(s.get(2), 3);
}

#[test]
fn test_subset() {
    let v = UnionFind::new_u32(32);
    let mut s = v.subset(16..32);
    assert_eq!(s.curr_len(), 16);
    assert_eq!(s.capacity(), 16);
    assert_eq!(s.curr_len(), 16);

    assert_eq!(s.get(1), 1);
    assert_eq!(s.get_compress(1), 1);
    s.set(1, 2);
    assert_eq!(s.curr_len(), 15);
    assert_eq!(s.get(1), 2);

    let mut v = s.release();
    assert_eq!(v.curr_len(), 31);

    v.set(20, 21);
    let s = v.subset(16..32);
    assert_eq!(s.curr_len(), 14);
    assert_eq!(s.capacity(), 16);
    assert!(!s.is_root(4));
    assert_eq!(s.get(4), 5);
}

#[test]
fn fresh_forest_is_all_singletons() {
    let v = UnionFind::new(5);
    assert_eq!(v.curr_len(), 5);
    assert_eq!(v.capacity(), 5);
    for i in 0..5 {
        assert!(v.is_root(i));
        assert_eq!(v.get(i), i);
    }
    assert!(!v.is_root(5));
}

#[test]
fn merge_keeps_destination_root() {
    let mut v = UnionFind::new(5);
    v.union(0, 1);
    assert_eq!(v.find(0), 1);
    assert_eq!(v.find(1), 1);
    assert_eq!(v.len(), 4);
}

#[test]
fn merge_correctness_destination_rooted() {
    let mut v = UnionFind::new(8);
    v.set(3, 4);
    v.set(6, 7);
    let before = v.get(7);
    v.union(4, 6);
    assert_eq!(v.find(4), before);
    assert_eq!(v.find(6), before);
    assert_eq!(v.find(3), before);
}

#[test]
fn find_is_idempotent() {
    let mut v = UnionFind::new(10);
    v.set(0, 1);
    v.set(1, 2);
    v.set(5, 6);
    v.set(2, 5);
    for i in 0..10 {
        let r = v.find(i);
        assert_eq!(v.find(r), r);
    }
}

#[test]
fn group_count_matches_roots() {
    let mut v = UnionFind::new(6);
    v.set(0, 1);
    assert_eq!(v.curr_len(), 5);
    v.set(0, 1);
    assert_eq!(v.curr_len(), 5);
    v.set(1, 0);
    assert_eq!(v.curr_len(), 5);
    v.set(2, 3);
    v.set(4, 3);
    assert_eq!(v.curr_len(), 3);
    let mut roots: usize = 0;
    for i in 0..6 {
        if v.is_root(i) {
            roots += 1;
        }
    }
    assert_eq!(roots, v.len());
}

#[test]
fn growth_appends_singleton_roots() {
    let mut v = UnionFind::new(4);
    v.set(0, 1);
    v.extend_by(3);
    assert_eq!(v.capacity(), 7);
    assert_eq!(v.curr_len(), 6);
    for i in 4..7 {
        assert!(v.is_root(i));
        assert_eq!(v.get(i), i);
    }
    assert_eq!(v.get(0), 1);
}

#[test]
fn growth_appends_singleton_roots_u32() {
    let mut v = UnionFind::new_u32(4);
    v.set(2, 3);
    v.extend_by(2);
    assert_eq!(v.capacity(), 6);
    assert_eq!(v.curr_len(), 5);
    assert!(v.is_root(4));
    assert!(v.is_root(5));
    assert_eq!(v.get(2), 3);
    v.extend_by(0);
    assert_eq!(v.capacity(), 6);
    assert_eq!(v.curr_len(), 5);
}

#[test]
fn compress_flattens_chains() {
    let mut v = UnionFind::new(6);
    v.set(0, 1);
    v.set(1, 2);
    v.set(2, 3);
    let len_before = v.curr_len();
    v.compress();
    assert_eq!(v.curr_len(), len_before);
    assert_eq!(v.capacity(), 6);
    for i in 0..4 {
        assert_eq!(v.get(i), 3);
    }
    assert!(v.is_root(3));
    assert!(!v.is_root(0));
}

#[test]
fn compress_flattens_chains_u32() {
    let mut v = UnionFind::new_u32(6);
    v.set(0, 1);
    v.set(1, 2);
    v.compress();
    assert_eq!(v.curr_len(), 4);
    for i in 0..3 {
        assert_eq!(v.get(i), 2);
    }
}

#[test]
fn get_compress_preserves_groups() {
    let mut v = UnionFind::new(6);
    v.set(0, 1);
    v.set(1, 2);
    let r = v.get_compress(0);
    assert_eq!(r, 2);
    assert_eq!(v.get(0), 2);
    assert_eq!(v.curr_len(), 4);
    assert_eq!(v.get_compress(5), 5);
}

#[test]
fn empty_forest() {
    let v = UnionFind::new(0);
    assert_eq!(v.capacity(), 0);
    assert_eq!(v.curr_len(), 0);
    assert!(!v.is_root(0));
}

#[test]
fn empty_window() {
    let v = UnionFind::new_u32(8);
    let s = v.subset_clone(3..3);
    assert_eq!(s.capacity(), 0);
    assert_eq!(s.curr_len(), 0);
    let s = v.subset(3..3);
    assert_eq!(s.capacity(), 0);
    assert_eq!(s.curr_len(), 0);
}

#[test]
fn whole_window_snapshot_is_independent() {
    let mut v = UnionFind::new_u32(4);
    let mut s = v.subset_clone(0..4);
    s.set(0, 1);
    assert_eq!(s.curr_len(), 3);
    assert_eq!(v.curr_len(), 4);
    v.set(2, 3);
    assert_eq!(s.get(2), 2);
}

#[test]
fn borrowed_view_trait_interface() {
    let v = UnionFind::new_u32(10);
    let mut s: BorrowedUnionFind = v.subset(2..10);
    assert_eq!(UnionFindOp::capacity(&s), 8);
    assert_eq!(UnionFindOp::len(&s), 8);
    s.union(0, 5);
    assert_eq!(s.find(0), 5);
    assert_eq!(UnionFindOp::len(&s), 7);
    assert!(!UnionFindOp::is_root(&s, 0));
    assert!(UnionFindOp::is_root(&s, 5));
    let v = s.release();
    assert_eq!(v.curr_len(), 9);
}

#[test]
fn atomic_forest_basic() {
    let mut v = AtomicUnionFind::new(10);
    assert_eq!(UnionFindOp::capacity(&v), 10);
    assert_eq!(UnionFindOp::len(&v), 10);
    v.set(0, 1);
    v.set(1, 2);
    assert_eq!(v.get(0), 2);
    assert_eq!(v.get_compress(0), 2);
    assert_eq!(UnionFindOp::len(&v), 8);
    assert!(UnionFindOp::is_root(&v, 2));
    assert!(!UnionFindOp::is_root(&v, 0));
    assert!(!UnionFindOp::is_root(&v, 10));
}

#[test]
fn atomic_forest_trait_interface() {
    let mut v = AtomicUnionFind::new(6);
    let before = v.find(4);
    v.union(3, 4);
    assert_eq!(v.find(3), before);
    assert_eq!(v.find(4), before);
    assert_eq!(v.len(), 5);
    v.union(3, 4);
    assert_eq!(v.len(), 5);
    let r = v.find(3);
    assert_eq!(v.find(r), r);
}

#[test]
fn same_group_merge_changes_nothing() {
    let mut v = UnionFind::new_u32(5);
    v.set(0, 1);
    assert_eq!(v.curr_len(), 4);
    v.set(1, 0);
    assert_eq!(v.curr_len(), 4);
    assert_eq!(v.get(0), 1);
    assert_eq!(v.get(1), 1);
}

#[test]
fn view_merges_update_owner_count() {
    let v = UnionFind::new_u32(12);
    let mut s = v.subset(4..12);
    s.set(0, 1);
    s.set(2, 3);
    assert_eq!(s.curr_len(), 6);
    let v = s.release();
    assert_eq!(v.curr_len(), 10);
    assert_eq!(v.get(4), 5);
    assert_eq!(v.get(6), 7);
    assert_eq!(v.get(11), 11);
}
