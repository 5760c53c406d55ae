use algo_lib::segment_tree::SegmentTree;
use std::cell::Cell;

/// A small deterministic generator for test inputs.
struct Lcg(u64);

impl Lcg {
    fn next_u64(&mut self) -> u64 {
        self.0 = self
            .0
            .wrapping_mul(6364136223846793005)
            .wrapping_add(1442695040888963407);
        self.0 ^ (self.0 >> 29)
    }

    fn next_i64(&mut self) -> i64 {
        self.next_u64() as i64
    }

    fn below(&mut self, md: usize) -> usize {
        (self.next_u64() % md as u64) as usize
    }
}

fn random_pair(rng: &mut Lcg, md: usize) -> (usize, usize) {
    let l = rng.below(md);
    let r = rng.below(md);
    if l < r {
        (l, r + 1)
    } else {
        (r, l + 1)
    }
}

fn test_i64_fold_test<BinOp: Fn(i64, i64) -> i64 + Copy>(n: usize, op: BinOp, e: i64, seed: u64) {
    let mut rng = Lcg(seed);
    let mut seg = SegmentTree::new(n, op, e);
    let vec: Vec<i64> = (0..n).map(|_| rng.next_i64() % 10000000007).collect();
    for i in 0..n {
        seg.update(i, vec[i]);
    }
    let t = 25;
    for _ in 0..t {
        let (l, r) = random_pair(&mut rng, n);
        let mut true_v = e;
        for i in l..r {
            true_v = (op)(true_v, vec[i]);
        }
        assert_eq!(true_v, seg.query(l, r));
    }
}

fn test_basic_rmq(n: usize) {
    test_i64_fold_test(n, std::cmp::min::<i64>, std::i64::MAX, 7);
}

fn test_basic_rsq(n: usize) {
    test_i64_fold_test(n, std::ops::Add::<i64>::add, 0, 11);
}

#[test]
fn test_rmq_25() {
    test_basic_rmq(25);
}

#[test]
fn test_rmq_32() {
    test_basic_rmq(32);
}

#[test]
fn test_rsq_25() {
    test_basic_rsq(25);
}

#[test]
fn test_rsq_32() {
    test_basic_rsq(32);
}

#[test]
fn test_return_e() {
    let n = 25;
    let mut rng = Lcg(3);
    let mut seg = SegmentTree::new(n, std::cmp::min::<i64>, std::i64::MAX);
    let vec: Vec<i64> = (0..n).map(|_| rng.next_i64()).collect();
    for i in 0..n {
        seg.update(i, vec[i]);
    }
    assert_eq!(seg.query(3, 3), std::i64::MAX);
}

#[test]
fn every_range_matches_a_plain_fold_after_many_updates() {
    let mut rng = Lcg(5);
    for n in [1usize, 2, 3, 7, 8, 13] {
        let mut seg = SegmentTree::new(n, std::ops::Add::<i64>::add, 0);
        let mut plain = vec![0i64; n];
        for _ in 0..40 {
            let p = rng.below(n);
            let v = rng.next_i64() % 1000;
            seg.update(p, v);
            plain[p] = v;
            for b in 0..=n {
                for a in 0..=b {
                    let expected: i64 = plain[a..b].iter().fold(0, |acc, x| acc + x);
                    assert_eq!(seg.query(a, b), expected);
                }
            }
        }
    }
}

#[test]
fn non_commutative_operation_keeps_left_to_right_order() {
    // 2x2 matrix product over integers, flattened.
    let mul = |a: (i64, i64, i64, i64), b: (i64, i64, i64, i64)| {
        (
            a.0 * b.0 + a.1 * b.2,
            a.0 * b.1 + a.1 * b.3,
            a.2 * b.0 + a.3 * b.2,
            a.2 * b.1 + a.3 * b.3,
        )
    };
    let id = (1, 0, 0, 1);
    let ms = [(1, 1, 0, 1), (0, 1, 1, 0), (2, 0, 0, 1), (1, 0, 3, 1), (1, 2, 0, 1)];
    let mut seg = SegmentTree::new(ms.len(), mul, id);
    for (i, m) in ms.iter().enumerate() {
        seg.update(i, *m);
    }
    for b in 0..=ms.len() {
        for a in 0..=b {
            let expected = ms[a..b].iter().fold(id, |acc, m| mul(acc, *m));
            assert_eq!(seg.query(a, b), expected);
        }
    }
}

#[test]
fn empty_range_gives_identity() {
    let mut seg = SegmentTree::new(6, std::ops::Add::<i64>::add, 0);
    for i in 0..6 {
        seg.update(i, (i as i64) + 10);
    }
    for x in 0..=6 {
        assert_eq!(seg.query(x, x), 0);
    }
    let empty = SegmentTree::new(0, std::cmp::min::<i64>, std::i64::MAX);
    assert_eq!(empty.query(0, 0), std::i64::MAX);
}

#[test]
fn full_range_after_single_update() {
    for n in [1usize, 2, 5, 8, 9] {
        for p in 0..n {
            let mut seg = SegmentTree::new(n, std::cmp::min::<i64>, std::i64::MAX);
            seg.update(p, 42);
            assert_eq!(seg.query(0, n), 42);
            let mut sum = SegmentTree::new(n, std::ops::Add::<i64>::add, 0);
            sum.update(p, -7);
            assert_eq!(sum.query(0, n), -7);
        }
    }
}

#[test]
fn combine_calls_stay_logarithmic() {
    for n in [1usize, 2, 3, 7, 8, 1000] {
        let calls = Cell::new(0usize);
        let op = |a: i64, b: i64| {
            calls.set(calls.get() + 1);
            a + b
        };
        let mut seg = SegmentTree::new(n, op, 0);
        let mut log = 0usize;
        while (1usize << log) < n {
            log += 1;
        }
        for p in 0..n {
            calls.set(0);
            seg.update(p, p as i64);
            assert!(calls.get() <= log);
        }
        for b in [0, n / 3, n / 2, n] {
            for a in [0, b / 2, b] {
                calls.set(0);
                seg.query(a, b);
                assert!(calls.get() <= 4 * log + 2);
            }
        }
    }
}

#[test]
fn sum_scenario_of_five() {
    let mut seg = SegmentTree::new(5, std::ops::Add::<i64>::add, 0);
    for (i, v) in [1i64, 2, 3, 4, 5].iter().enumerate() {
        seg.update(i, *v);
    }
    assert_eq!(seg.query(1, 4), 9);
    assert_eq!(seg.query(0, 5), 15);
    assert_eq!(seg.query(2, 2), 0);
}

#[test]
fn min_scenario_of_four() {
    let mut seg = SegmentTree::new(4, std::cmp::min::<i64>, std::i64::MAX);
    for (i, v) in [5i64, 1, 9, 3].iter().enumerate() {
        seg.update(i, *v);
    }
    assert_eq!(seg.query(0, 2), 1);
    assert_eq!(seg.query(2, 4), 3);
    assert_eq!(seg.query(0, 4), 1);
}

#[test]
fn update_overwrites_previous_value() {
    let mut seg = SegmentTree::new(3, std::ops::Add::<i64>::add, 0);
    seg.update(1, 10);
    seg.update(1, 4);
    seg.update(2, 1);
    assert_eq!(seg.query(0, 3), 5);
    seg.update(1, 0);
    assert_eq!(seg.query(0, 2), 0);
}
