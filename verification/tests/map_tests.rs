use ordmap::RawMap;

fn lcg_pairs(n: usize) -> Vec<(u64, u64)> {
    // a small linear congruential generator; deterministic pseudo-random keys
    let mut state: u64 = 0x02020307;
    let mut out: Vec<(u64, u64)> = Vec::new();
    for _ in 0..n {
        state = state.wrapping_mul(6364136223846793005).wrapping_add(1442695040888963407);
        out.push((state, 42));
    }
    out
}

#[test]
fn new_is_empty() {
    let m = RawMap::new();
    assert_eq!(m.iter(), Vec::<(u64, u64)>::new());
    assert_eq!(m.get(7), None);
}

#[test]
fn insert_then_get() {
    let m = RawMap::new();
    let m = m.insert(10, 100);
    let m = m.insert(3, 30);
    assert_eq!(m.get(10), Some(100));
    assert_eq!(m.get(3), Some(30));
    assert_eq!(m.get(4), None);
}

#[test]
fn overwrite_value() {
    let m = RawMap::new().insert(5, 1);
    let m = m.insert(5, 2);
    assert_eq!(m.get(5), Some(2));
    assert_eq!(m.iter(), vec![(5, 2)]);
}

#[test]
fn scenario_five_keys() {
    let mut m = RawMap::new();
    for k in [5u64, 1, 3, 2, 4] {
        m = m.insert(k, 42);
    }
    assert_eq!(m.iter(), vec![(1, 42), (2, 42), (3, 42), (4, 42), (5, 42)]);
    let m = m.remove(3);
    assert_eq!(m.iter(), vec![(1, 42), (2, 42), (4, 42), (5, 42)]);
    assert_eq!(m.get(3), None);
}

#[test]
fn functional_insert_leaves_receiver() {
    let mut m = RawMap::new();
    for k in 0u64..50 {
        m = m.insert(k, k + 1);
    }
    let m2 = m.insert(17, 999);
    let m3 = m.remove(23);
    for k in 0u64..50 {
        assert_eq!(m.get(k), Some(k + 1));
    }
    assert_eq!(m2.get(17), Some(999));
    assert_eq!(m3.get(23), None);
}

#[test]
fn mut_matches_functional() {
    let mut a = RawMap::new();
    let mut b = RawMap::new();
    let pairs = lcg_pairs(300);
    for &(k, v) in &pairs {
        a = a.insert(k, v);
        b.insert_mut(k, v);
    }
    assert_eq!(a.iter(), b.iter());
    for (i, &(k, _)) in pairs.iter().enumerate() {
        if i % 2 == 0 {
            a = a.remove(k);
            b.remove_mut(k);
        }
    }
    assert_eq!(a.iter(), b.iter());
}

#[test]
fn round_trip_leaves_empty() {
    let mut m = RawMap::new();
    let keys: Vec<u64> = (0u64..100).collect();
    for &k in &keys {
        m = m.insert(k, k * 2);
    }
    // remove in another order than insertion
    for &k in keys.iter().rev() {
        m = m.remove(k);
    }
    assert_eq!(m.iter(), Vec::<(u64, u64)>::new());
}

#[test]
fn round_trip_mut_leaves_empty() {
    let mut m = RawMap::new();
    for k in 0u64..100 {
        m.insert_mut(k, k);
    }
    for k in 0u64..100 {
        if k % 2 == 0 {
            m.remove_mut(k);
        }
    }
    for k in (0u64..100).rev() {
        if k % 2 == 1 {
            m.remove_mut(k);
        }
    }
    assert_eq!(m.iter(), Vec::<(u64, u64)>::new());
}

#[test]
fn noop_insert_keeps_identity() {
    let mut m = RawMap::new();
    for k in 0u64..20 {
        m = m.insert(k, 7);
    }
    let m2 = m.insert(11, 7);
    assert!(m.shares_root(&m2));
    let m3 = m.insert(11, 8);
    assert!(!m.shares_root(&m3));
}

#[test]
fn traversal_sorted_after_random_ops() {
    let mut m = RawMap::new();
    let pairs = lcg_pairs(500);
    for &(k, v) in &pairs {
        m = m.insert(k, v);
    }
    for &(k, _) in pairs.iter().take(250) {
        m = m.remove(k);
    }
    let run = m.iter();
    for w in run.windows(2) {
        assert!(w[0].0 < w[1].0);
    }
    assert_eq!(run.len(), 250);
}

#[test]
fn thousand_random_pairs_both_paths() {
    let pairs = lcg_pairs(1000);
    let mut m1 = RawMap::new();
    for &(k, v) in &pairs {
        m1 = m1.insert(k, v);
    }
    let mut m2 = RawMap::new();
    for &(k, v) in &pairs {
        m2.insert_mut(k, v);
    }
    assert_eq!(m1.iter(), m2.iter());
    assert_eq!(m1.iter().len(), 1000);
}

#[test]
fn absent_remove_keeps_identity() {
    let mut m = RawMap::new();
    for k in 0u64..10 {
        m = m.insert(k, k);
    }
    let m2 = m.remove(555);
    assert!(m.shares_root(&m2));
}
