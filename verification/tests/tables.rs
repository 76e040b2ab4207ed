use pwgram::table::{from_aggregate, QuantizedTable, SAMPLE_MAX};

fn counted(list: &[(&str, u64)]) -> Vec<(String, u64)> {
    list.iter().map(|(s, n)| (s.to_string(), *n)).collect()
}

fn entries(list: &[(u8, &str)]) -> Vec<(u8, String)> {
    list.iter().map(|(k, s)| (*k, s.to_string())).collect()
}

#[test]
fn from_aggregate_scales_cumulative_counts() {
    let table = from_aggregate(counted(&[("a", 1), ("b", 2), ("c", 5)]));
    // 1 * 255 / 8 = 31, 3 * 255 / 8 = 95, 8 * 255 / 8 = 255
    assert_eq!(table.entries(), &entries(&[(31, "a"), (95, "b"), (255, "c")]));
    assert_eq!(table.len(), 3);
    assert!(!table.is_empty());
}

#[test]
fn from_aggregate_orders_by_ascending_count() {
    let table = from_aggregate(counted(&[("big", 5), ("small", 1)]));
    // 1 * 255 / 6 = 42
    assert_eq!(table.entries(), &entries(&[(42, "small"), (255, "big")]));
}

#[test]
fn from_aggregate_keeps_the_order_of_equal_counts() {
    let table = from_aggregate(counted(&[("x", 1), ("y", 1), ("z", 1)]));
    assert_eq!(table.entries(), &entries(&[(85, "x"), (170, "y"), (255, "z")]));
    let table = from_aggregate(counted(&[("z", 1), ("y", 1), ("x", 1)]));
    assert_eq!(table.entries(), &entries(&[(85, "z"), (170, "y"), (255, "x")]));
}

#[test]
fn two_equal_counts_split_near_the_middle() {
    let table = from_aggregate(counted(&[("a", 1), ("c", 1)]));
    assert_eq!(table.entries(), &entries(&[(127, "a"), (255, "c")]));
}

#[test]
fn from_aggregate_of_nothing_is_empty() {
    let table = from_aggregate(Vec::<(String, u64)>::new());
    assert!(table.is_empty());
    assert_eq!(table.len(), 0);
    assert_eq!(table.widths(), Vec::<u8>::new());
}

#[test]
fn a_single_outcome_gets_the_whole_space() {
    let table = from_aggregate(counted(&[("only", 7)]));
    assert_eq!(table.entries(), &entries(&[(SAMPLE_MAX, "only")]));
    for point in 0..=255u8 {
        assert_eq!(table.lookup(point), "only");
    }
}

#[test]
fn colliding_keys_keep_the_later_outcome() {
    // 1 * 255 / 1002 = 0 and 2 * 255 / 1002 = 0: the second rare outcome
    // replaces the first and has its interval
    let table = from_aggregate(counted(&[("rare", 1), ("rarer", 1), ("common", 1000)]));
    assert_eq!(table.entries(), &entries(&[(0, "rarer"), (255, "common")]));
    assert_eq!(table.lookup(0), "rarer");
    assert_eq!(table.lookup(1), "common");
}

#[test]
fn a_collision_with_the_last_key_keeps_the_heaviest() {
    // 1000 * 255 / 1001 = 254 and 1001 * 255 / 1001 = 255: no collision
    let table = from_aggregate(counted(&[("common", 1000), ("rare", 1)]));
    assert_eq!(table.entries(), &entries(&[(0, "rare"), (255, "common")]));
}

#[test]
fn a_count_of_zero_is_accepted() {
    let table = from_aggregate(counted(&[("some", 3), ("none", 0)]));
    assert_eq!(table.entries(), &entries(&[(0, "none"), (255, "some")]));
}

#[test]
fn large_counts_do_not_overflow() {
    let half = u64::MAX / 2;
    let table = from_aggregate(vec![(1u32, half), (2u32, half)]);
    assert_eq!(table.entries(), &vec![(127u8, 1u32), (255u8, 2u32)]);
    let table = from_aggregate(vec![(1u32, u64::MAX)]);
    assert_eq!(table.entries(), &vec![(255u8, 1u32)]);
    let table = from_aggregate(vec![(1u32, 1), (2u32, u64::MAX - 1)]);
    assert_eq!(table.entries(), &vec![(0u8, 1u32), (255u8, 2u32)]);
}

#[test]
fn from_aggregate_works_for_any_outcome_type() {
    let table = from_aggregate(vec![((1u8, 'x'), 3), ((2u8, 'y'), 1)]);
    assert_eq!(table.entries(), &vec![(63u8, (2u8, 'y')), (255u8, (1u8, 'x'))]);
}

#[test]
fn lookup_finds_the_first_key_not_below_the_point() {
    let table = from_aggregate(counted(&[("a", 1), ("b", 2), ("c", 5)]));
    assert_eq!(table.lookup(0), "a");
    assert_eq!(table.lookup(31), "a");
    assert_eq!(table.lookup(32), "b");
    assert_eq!(table.lookup(95), "b");
    assert_eq!(table.lookup(96), "c");
    assert_eq!(table.lookup(255), "c");
}

#[test]
fn lookup_agrees_with_a_linear_search() {
    let counts: Vec<(usize, u64)> = (0..40).map(|i| (i, (i as u64 * 7919) % 23 + 1)).collect();
    let table = from_aggregate(counts);
    for point in 0..=255u8 {
        let expected = table.entries().iter().find(|(key, _)| *key >= point).map(|(_, o)| o);
        assert_eq!(Some(table.lookup(point)), expected);
    }
}

#[test]
fn widths_are_the_distances_between_keys() {
    let table = from_aggregate(counted(&[("a", 1), ("b", 2), ("c", 5)]));
    assert_eq!(table.widths(), vec![31, 64, 160]);
    assert_eq!(table.width(0), 31);
    assert_eq!(table.width(1), 64);
    assert_eq!(table.width(2), 160);
    assert_eq!(table.key(1), 95);
    assert_eq!(table.outcome(1), "b");
}

#[test]
fn the_widths_of_a_table_add_up_to_the_top_of_the_space() {
    for n in 1..60u64 {
        let counts: Vec<(u64, u64)> = (0..n).map(|i| (i, (i * 31 + n) % 17 + 1)).collect();
        let table = from_aggregate(counts);
        let sum: u32 = table.widths().iter().map(|w| u32::from(*w)).sum();
        assert_eq!(sum, 255);
    }
}

#[test]
fn keys_increase_and_end_at_the_top() {
    for n in 1..60u64 {
        let counts: Vec<(u64, u64)> = (0..n).map(|i| (i, (i * 13 + 5 * n) % 29)).collect();
        if counts.iter().all(|(_, c)| *c == 0) {
            continue;
        }
        let table = from_aggregate(counts);
        let entries = table.entries();
        assert!(entries.windows(2).all(|pair| pair[0].0 < pair[1].0));
        assert_eq!(entries.last().map(|e| e.0), Some(255));
    }
}

#[test]
fn sampling_follows_the_counts() {
    // sample 10,000 times with a fixed source of points
    let counts = [("a", 1u64), ("b", 2), ("c", 5), ("d", 12), ("e", 30)];
    let total: u64 = counts.iter().map(|(_, n)| n).sum();
    let table = from_aggregate(counted(&counts));
    let trials = 10_000u64;
    let mut seen = std::collections::HashMap::new();
    let mut state: u32 = 12345;
    for _ in 0..trials {
        // a linear congruential generator, of which the high byte is taken
        state = state.wrapping_mul(1664525).wrapping_add(1013904223);
        let point = (state >> 24) as u8;
        *seen.entry(table.lookup(point).clone()).or_insert(0u64) += 1;
    }
    for (outcome, count) in counts {
        let observed = *seen.get(outcome).unwrap_or(&0) as f64 / trials as f64;
        let expected = count as f64 / total as f64;
        // one point of quantization, one for the first interval, and the
        // noise of ten thousand draws
        assert!(
            (observed - expected).abs() <= 2.0 / 256.0 + 0.02,
            "{}: {} instead of {}",
            outcome,
            observed,
            expected
        );
    }
}

#[test]
fn each_point_draws_by_the_width_of_the_interval() {
    let counts = [("a", 1u64), ("b", 2), ("c", 5)];
    let table = from_aggregate(counted(&counts));
    let mut hits = [0u32; 3];
    for point in 0..=255u8 {
        let drawn = table.lookup(point);
        let i = counts.iter().position(|(o, _)| o == drawn).unwrap();
        hits[i] += 1;
    }
    // the first interval also holds the point 0
    assert_eq!(hits, [32, 64, 160]);
}

#[test]
fn certain_is_one_interval() {
    let table = QuantizedTable::certain(9u8);
    assert_eq!(table.entries(), &vec![(255u8, 9u8)]);
    assert_eq!(*table.lookup(77), 9);
}

#[test]
fn new_is_empty() {
    let table: QuantizedTable<u8> = QuantizedTable::new();
    assert!(table.is_empty());
}

#[test]
fn from_entries_accepts_valid_tables() {
    let table = QuantizedTable::from_entries(entries(&[(10, "a"), (20, "b"), (255, "c")]));
    assert_eq!(
        table.map(|t| t.entries().clone()),
        Some(entries(&[(10, "a"), (20, "b"), (255, "c")]))
    );
    assert!(QuantizedTable::from_entries(Vec::<(u8, String)>::new()).is_some());
    assert!(QuantizedTable::from_entries(entries(&[(255, "a")])).is_some());
    assert!(QuantizedTable::from_entries(entries(&[(0, "a"), (255, "b")])).is_some());
}

#[test]
fn from_entries_rejects_what_is_no_table() {
    // does not reach the top
    assert!(QuantizedTable::from_entries(entries(&[(10, "a"), (20, "b")])).is_none());
    assert!(QuantizedTable::from_entries(entries(&[(254, "a")])).is_none());
    // keys out of order
    assert!(QuantizedTable::from_entries(entries(&[(20, "a"), (10, "b"), (255, "c")])).is_none());
    // a key twice
    assert!(QuantizedTable::from_entries(entries(&[(10, "a"), (10, "b"), (255, "c")])).is_none());
    assert!(QuantizedTable::from_entries(entries(&[(255, "a"), (255, "b")])).is_none());
}

#[test]
fn from_entries_takes_back_what_from_aggregate_gives() {
    let table = from_aggregate(counted(&[("a", 4), ("b", 4), ("c", 1)]));
    let again = QuantizedTable::from_entries(table.entries().clone());
    assert_eq!(again, Some(table));
}
