use weatherflow::segtree::{MaxI32, MinI32, SegmentTree};

fn brute_max(values: &[i32], a: usize, b: usize) -> i32 {
    let mut acc = i32::MIN;
    for i in a..b {
        if values[i] > acc {
            acc = values[i];
        }
    }
    acc
}

fn brute_min(values: &[i32], a: usize, b: usize) -> i32 {
    let mut acc = i32::MAX;
    for i in a..b {
        if values[i] < acc {
            acc = values[i];
        }
    }
    acc
}

#[test]
fn full_query_tracks_all_updates() {
    for n in [1usize, 2, 3, 7, 8, 13] {
        let mut tree: SegmentTree<i32, MaxI32> = SegmentTree::new(n);
        let mut values = vec![i32::MIN; n];
        // a fixed pseudo-random update sequence
        let mut x: u64 = 9;
        for step in 0..50 {
            x = x.wrapping_mul(6364136223846793005).wrapping_add(1442695040888963407);
            let p = (x % (n as u64)) as usize;
            let v = ((x >> 33) as i32 % 1000) - 500 + step;
            tree.set(p, v);
            values[p] = v;
            assert_eq!(tree.all_prod(), brute_max(&values, 0, n));
            assert_eq!(tree.all_prod(), tree.prod(0, n));
        }
    }
}

#[test]
fn range_query_equals_fold_on_every_range() {
    let vals: Vec<i32> = vec![5, -3, 8, 8, 0, -11, 42, 7, 7, -2, 13];
    let n = vals.len();
    let max_tree: SegmentTree<i32, MaxI32> = SegmentTree::from(&vals);
    let min_tree: SegmentTree<i32, MinI32> = SegmentTree::from(&vals);
    for a in 0..=n {
        for b in a..=n {
            assert_eq!(max_tree.prod(a, b), brute_max(&vals, a, b));
            assert_eq!(min_tree.prod(a, b), brute_min(&vals, a, b));
        }
    }
}

#[test]
fn empty_range_yields_identity() {
    let vals: Vec<i32> = vec![4, 1, 9];
    let max_tree: SegmentTree<i32, MaxI32> = SegmentTree::from(&vals);
    let min_tree: SegmentTree<i32, MinI32> = SegmentTree::from(&vals);
    for a in 0..=3 {
        assert_eq!(max_tree.prod(a, a), i32::MIN);
        assert_eq!(min_tree.prod(a, a), i32::MAX);
    }
}

#[test]
fn get_reads_back_what_set_wrote() {
    let mut tree: SegmentTree<i32, MinI32> = SegmentTree::new(5);
    for p in 0..5 {
        assert_eq!(tree.get(p), i32::MAX);
    }
    tree.set(3, -7);
    assert_eq!(tree.get(3), -7);
    assert_eq!(tree.get(0), i32::MAX);
    assert_eq!(tree.all_prod(), -7);
}
