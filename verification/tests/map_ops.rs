use papaya::hashmap::HashMap;

#[test]
fn basic_insert_get_update_remove() {
    let mut m = HashMap::new();
    assert_eq!(m.insert(100, 101), None);
    assert_eq!(m.get(100), Some(101));
    assert_eq!(m.update(100, |v| v + 2), Some(103));
    assert_eq!(m.get(100), Some(103));
    assert_eq!(m.remove(100), Some(103));
    assert_eq!(m.get(100), None);
}

#[test]
fn insert_returns_previous() {
    let mut m = HashMap::new();
    assert_eq!(m.insert(7, 1), None);
    assert_eq!(m.insert(7, 2), Some(1));
    assert_eq!(m.insert(7, 3), Some(2));
    assert_eq!(m.get(7), Some(3));
    assert_eq!(m.len(), 1);
}

#[test]
fn monotonic_fill() {
    let mut m = HashMap::new();
    for i in 0..256u64 {
        assert_eq!(m.insert(i, i + 1), None);
    }
    for i in 0..256u64 {
        assert_eq!(m.get(i), Some(i + 1));
    }
    let mut entries = m.iter();
    entries.sort();
    assert_eq!(entries.len(), 256);
    for i in 0..256usize {
        assert_eq!(entries[i], (i as u64, i as u64 + 1));
    }
}

#[test]
fn update_after_grow() {
    let mut m = HashMap::new();
    for i in 0..64u64 {
        m.insert(i, i + 1);
    }
    for i in 0..64u64 {
        assert_eq!(m.update(i, |v| v - 1), Some(i));
    }
    for i in 0..64u64 {
        assert_eq!(m.get(i), Some(i));
    }
}

#[test]
fn idempotent_remove() {
    let mut m = HashMap::new();
    m.insert(5, 50);
    assert_eq!(m.remove(5), Some(50));
    assert_eq!(m.remove(5), None);
    assert_eq!(m.remove(6), None);
    assert_eq!(m.get(5), None);
}

#[test]
fn tombstone_reuse() {
    let mut m = HashMap::new();
    for round in 0..8u64 {
        for i in 0..32u64 {
            m.insert(i, i * 10 + round);
        }
        for i in 0..32u64 {
            assert_eq!(m.remove(i), Some(i * 10 + round));
        }
    }
    assert!(m.is_empty());
    m.insert(3, 30);
    assert_eq!(m.get(3), Some(30));
    assert_eq!(m.len(), 1);
}

#[test]
fn stress_chunks() {
    // Chunk-owned key ranges, run back to back: each key is inserted,
    // read, removed, read as absent, and inserted again; the final
    // snapshot holds every key exactly once.
    let chunk = 1024u64;
    let chunks = 4u64;
    let mut m = HashMap::new();
    for c in 0..chunks {
        let base = c * chunk;
        for i in base..base + chunk {
            assert_eq!(m.insert(i, i + 1), None);
            assert_eq!(m.get(i), Some(i + 1));
            assert_eq!(m.remove(i), Some(i + 1));
            assert_eq!(m.get(i), None);
            assert_eq!(m.insert(i, i + 1), None);
            assert_eq!(m.get(i), Some(i + 1));
        }
    }
    let mut entries = m.iter();
    entries.sort();
    assert_eq!(entries.len(), (chunk * chunks) as usize);
    for (i, e) in entries.iter().enumerate() {
        assert_eq!(*e, (i as u64, i as u64 + 1));
    }
}

#[test]
fn skewed_inserts() {
    // Skewed keys from a linear congruential draw: the map never panics
    // and its size equals the number of distinct keys drawn.
    let mut state: u64 = 0x2545_F491_4F6C_DD1D;
    let mut m = HashMap::new();
    let mut distinct: std::collections::HashSet<u64> = std::collections::HashSet::new();
    for _ in 0..50_000 {
        state = state.wrapping_mul(6364136223846793005).wrapping_add(1442695040888963407);
        let spread = 1u64 << (state >> 60);
        let k = (state >> 20) % spread.max(1);
        m.insert(k, state);
        distinct.insert(k);
    }
    assert!(m.len() <= distinct.len());
    assert_eq!(m.len(), distinct.len());
}

#[test]
fn reads_across_forced_resizes() {
    // Fill past several growth thresholds while re-reading every key
    // inserted so far at each boundary: growth never loses or garbles an
    // entry.
    let mut m = HashMap::new();
    let mut next_check = 8usize;
    for i in 0..2048u64 {
        m.insert(i, i ^ 0xABCD);
        if m.len() == next_check {
            for j in 0..=i {
                assert_eq!(m.get(j), Some(j ^ 0xABCD));
            }
            next_check *= 2;
        }
    }
    for j in 0..2048u64 {
        assert_eq!(m.get(j), Some(j ^ 0xABCD));
    }
}

#[test]
fn with_capacity_holds_without_growth() {
    let mut m = HashMap::with_capacity(1000);
    for i in 0..1000u64 {
        m.insert(i, i);
    }
    assert_eq!(m.len(), 1000);
    for i in 0..1000u64 {
        assert_eq!(m.get(i), Some(i));
    }
}

#[test]
fn len_is_empty_clear() {
    let mut m = HashMap::new();
    assert!(m.is_empty());
    assert_eq!(m.len(), 0);
    for i in 0..100u64 {
        m.insert(i, 0);
    }
    assert_eq!(m.len(), 100);
    assert!(!m.is_empty());
    m.clear();
    assert!(m.is_empty());
    assert_eq!(m.len(), 0);
    assert_eq!(m.get(5), None);
    m.insert(5, 6);
    assert_eq!(m.get(5), Some(6));
}

#[test]
fn keys_and_values_match_iter() {
    let mut m = HashMap::new();
    for i in 0..50u64 {
        m.insert(i * 3, i);
    }
    let mut keys = m.keys();
    keys.sort();
    assert_eq!(keys.len(), 50);
    for (i, k) in keys.iter().enumerate() {
        assert_eq!(*k, i as u64 * 3);
    }
    let mut values = m.values();
    values.sort();
    assert_eq!(values.len(), 50);
    for (i, v) in values.iter().enumerate() {
        assert_eq!(*v, i as u64);
    }
}

#[test]
fn interleaved_distinct_keys() {
    // Operations on one key never disturb another: each get sees the last
    // write of its own key, whatever ran in between.
    let mut m = HashMap::new();
    m.insert(1, 10);
    m.insert(2, 20);
    m.insert(3, 30);
    m.remove(2);
    m.insert(1, 11);
    m.insert(4, 40);
    m.remove(3);
    m.insert(2, 21);
    assert_eq!(m.get(1), Some(11));
    assert_eq!(m.get(2), Some(21));
    assert_eq!(m.get(3), None);
    assert_eq!(m.get(4), Some(40));
    assert_eq!(m.len(), 3);
}

#[test]
fn update_absent_key() {
    let mut m = HashMap::new();
    assert_eq!(m.update(9, |v| v + 1), None);
    assert_eq!(m.get(9), None);
    assert!(m.is_empty());
}
