use paper_bench::stats::{OpKind, Stats};

const KINDS: [OpKind; 3] = [OpKind::Ping, OpKind::Get, OpKind::Put];

fn collector(points: &[(OpKind, u64, u64)], sizes: &[(OpKind, u64)]) -> Stats {
    let mut s = Stats::new();
    for (kind, start, elapsed) in points {
        s.record(*kind, *start, *elapsed);
    }
    for (kind, size) in sizes {
        s.record_size(*kind, *size);
    }
    s
}

fn assert_same_contents(a: &Stats, b: &Stats) {
    for kind in KINDS {
        let mut xs = a.samples(kind);
        let mut ys = b.samples(kind);
        xs.sort_unstable();
        ys.sort_unstable();
        assert_eq!(xs, ys);
        assert_eq!(a.size_total(kind), b.size_total(kind));
    }
}

#[test]
fn recording_accumulates_per_kind() {
    let mut s = Stats::new();
    s.store_ping_time(1, 10);
    s.store_get_time(2, 20);
    s.store_get_size(100);
    s.store_set_time(3, 30);
    s.store_set_size(200);
    assert_eq!(s.sample_count(OpKind::Ping), 1);
    assert_eq!(s.sample_count(OpKind::Get), 1);
    assert_eq!(s.sample_count(OpKind::Put), 1);
    assert_eq!(s.samples(OpKind::Ping), vec![(1, 10)]);
    assert_eq!(s.samples(OpKind::Get), vec![(2, 20)]);
    assert_eq!(s.samples(OpKind::Put), vec![(3, 30)]);
    assert_eq!(s.size_total(OpKind::Get), 100);
    assert_eq!(s.size_total(OpKind::Put), 200);
    assert_eq!(s.size_total(OpKind::Ping), 0);
}

#[test]
fn size_totals_saturate() {
    let mut s = Stats::new();
    s.store_get_size(u64::MAX - 1);
    s.store_get_size(5);
    assert_eq!(s.size_total(OpKind::Get), u64::MAX);
}

#[test]
fn merge_combines_and_sorts() {
    let a = collector(&[(OpKind::Get, 30, 3), (OpKind::Get, 10, 1)], &[(OpKind::Get, 7)]);
    let b = collector(&[(OpKind::Get, 20, 2)], &[(OpKind::Get, 5)]);
    let m = a.merge(&b);
    assert_eq!(m.samples(OpKind::Get), vec![(10, 1), (20, 2), (30, 3)]);
    assert_eq!(m.size_total(OpKind::Get), 12);
    assert_eq!(m.sample_count(OpKind::Ping), 0);
}

#[test]
fn merge_is_commutative() {
    let a = collector(
        &[(OpKind::Ping, 5, 50), (OpKind::Get, 1, 10), (OpKind::Put, 9, 90)],
        &[(OpKind::Get, 11), (OpKind::Put, 22)],
    );
    let b = collector(
        &[(OpKind::Get, 2, 20), (OpKind::Get, 1, 15)],
        &[(OpKind::Get, 33)],
    );
    assert_same_contents(&a.merge(&b), &b.merge(&a));
}

#[test]
fn merge_is_associative() {
    let a = collector(&[(OpKind::Get, 3, 30)], &[(OpKind::Get, 1)]);
    let b = collector(&[(OpKind::Get, 1, 10), (OpKind::Put, 4, 40)], &[(OpKind::Put, 2)]);
    let c = collector(&[(OpKind::Ping, 2, 20)], &[]);
    assert_same_contents(&a.merge(&b).merge(&c), &a.merge(&b.merge(&c)));
}

#[test]
fn merge_with_empty_is_identity() {
    let a = collector(
        &[(OpKind::Get, 8, 80), (OpKind::Get, 2, 20), (OpKind::Ping, 1, 5)],
        &[(OpKind::Get, 64)],
    );
    let e = Stats::new();
    assert_same_contents(&a.merge(&e), &a);
    assert_same_contents(&e.merge(&a), &a);
}

#[test]
fn percentile_interpolates_linearly() {
    // sorted latencies: [1, 3, 5, 9]
    let s = collector(
        &[
            (OpKind::Get, 0, 5),
            (OpKind::Get, 1, 1),
            (OpKind::Get, 2, 9),
            (OpKind::Get, 3, 3),
        ],
        &[],
    );
    // rank (4 - 1) * 50 / 100 = 1.5: halfway from 3 to 5
    assert_eq!(s.percentile(OpKind::Get, 50), Some(4));
    // rank 3 * 1 / 100 = 0.03: 1 + (3 - 1) * 3 / 100 = 1 (integer floor)
    assert_eq!(s.percentile(OpKind::Get, 1), Some(1));
    assert_eq!(s.percentile(OpKind::Get, 100), Some(9));
}

#[test]
fn percentile_monotone_concrete() {
    let s = collector(
        &[
            (OpKind::Put, 0, 17),
            (OpKind::Put, 1, 4),
            (OpKind::Put, 2, 4),
            (OpKind::Put, 3, 99),
            (OpKind::Put, 4, 1),
        ],
        &[],
    );
    let mut prev = 0u64;
    for p in 1..=100u64 {
        let v = s.percentile(OpKind::Put, p).unwrap();
        assert!(v >= prev, "percentile {p} went down: {v} < {prev}");
        prev = v;
    }
}

#[test]
fn percentile_of_empty_kind_is_none() {
    let s = Stats::new();
    assert_eq!(s.percentile(OpKind::Get, 50), None);
    assert_eq!(s.quantile(OpKind::Ping, 999, 1000), None);
}

#[test]
fn percentile_single_sample() {
    let s = collector(&[(OpKind::Ping, 0, 42)], &[]);
    assert_eq!(s.percentile(OpKind::Ping, 1), Some(42));
    assert_eq!(s.percentile(OpKind::Ping, 100), Some(42));
}

#[test]
fn quantile_fine_grained() {
    // sorted: [0, 1000]; quantile 999/1000 sits at rank 0.999
    let s = collector(&[(OpKind::Get, 0, 0), (OpKind::Get, 1, 1000)], &[]);
    assert_eq!(s.quantile(OpKind::Get, 999, 1000), Some(999));
    assert_eq!(s.quantile(OpKind::Get, 1, 2), Some(500));
}

#[test]
fn bandwidth_is_bytes_over_span() {
    // gets spanning exactly one second (microsecond starts)
    let s = collector(
        &[(OpKind::Get, 0, 5), (OpKind::Get, 1_000_000, 7)],
        &[(OpKind::Get, 5000)],
    );
    assert_eq!(s.bandwidth(OpKind::Get), Some(5000));
}

#[test]
fn bandwidth_none_cases() {
    // no samples
    assert_eq!(Stats::new().bandwidth(OpKind::Get), None);
    // all samples at one instant: no measurable span
    let s = collector(&[(OpKind::Get, 5, 1), (OpKind::Get, 5, 2)], &[(OpKind::Get, 10)]);
    assert_eq!(s.bandwidth(OpKind::Get), None);
    // pings move no payload
    let p = collector(&[(OpKind::Ping, 0, 1), (OpKind::Ping, 9, 2)], &[]);
    assert_eq!(p.bandwidth(OpKind::Ping), None);
}

#[test]
fn windowed_average_groups_and_averages() {
    // window 100, anchor 0: starts 0 and 50 share a window; 250 opens one
    let s = collector(
        &[
            (OpKind::Get, 0, 10),
            (OpKind::Get, 50, 30),
            (OpKind::Get, 250, 9),
        ],
        &[],
    );
    assert_eq!(s.windowed_average(OpKind::Get, 100), vec![(0, 20), (200, 9)]);
}

#[test]
fn windowed_average_shares_anchor_across_kinds() {
    // the ping at instant 0 anchors the axis; the gets land in windows 1 and 2
    let s = collector(
        &[
            (OpKind::Ping, 0, 1),
            (OpKind::Get, 150, 40),
            (OpKind::Get, 250, 60),
        ],
        &[],
    );
    assert_eq!(s.windowed_average(OpKind::Get, 100), vec![(100, 40), (200, 60)]);
    assert_eq!(s.windowed_average(OpKind::Ping, 100), vec![(0, 1)]);
}

#[test]
fn windowed_average_of_empty_kind_is_empty() {
    let s = collector(&[(OpKind::Ping, 3, 1)], &[]);
    assert_eq!(s.windowed_average(OpKind::Get, 10), vec![]);
}

#[test]
fn mean_latency_is_arithmetic_mean() {
    let s = collector(
        &[(OpKind::Get, 0, 10), (OpKind::Get, 1, 20), (OpKind::Get, 2, 31)],
        &[],
    );
    assert_eq!(s.mean_latency(OpKind::Get), Some(20)); // 61 / 3 rounded down
    assert_eq!(s.mean_latency(OpKind::Put), None);
}

#[test]
fn mean_size_is_bytes_per_operation() {
    let s = collector(
        &[(OpKind::Put, 0, 1), (OpKind::Put, 1, 2)],
        &[(OpKind::Put, 300)],
    );
    assert_eq!(s.mean_size(OpKind::Put), Some(150));
    assert_eq!(s.mean_size(OpKind::Ping), None);
    assert_eq!(s.mean_size(OpKind::Get), None);
}

#[test]
fn ops_per_sec_uses_accumulated_latency() {
    // two operations, 500000us of latency in total: 4 per second
    let s = collector(&[(OpKind::Ping, 0, 200_000), (OpKind::Ping, 1, 300_000)], &[]);
    assert_eq!(s.ops_per_sec(OpKind::Ping), Some(4));
    // zero observed time yields no rate rather than a division by zero
    let z = collector(&[(OpKind::Ping, 0, 0)], &[]);
    assert_eq!(z.ops_per_sec(OpKind::Ping), None);
    assert_eq!(Stats::new().ops_per_sec(OpKind::Get), None);
}

#[test]
fn percentile_rows_full_table() {
    let s = collector(
        &[(OpKind::Get, 0, 10), (OpKind::Get, 1, 20), (OpKind::Ping, 0, 5)],
        &[],
    );
    let rows = s.percentile_rows();
    assert_eq!(rows.len(), 100);
    for (i, row) in rows.iter().enumerate() {
        assert_eq!(row.percentile, i as u64 + 1);
        // puts have no samples: the column is absent, not zero
        assert_eq!(row.set_latency, None);
        assert_eq!(row.ping_latency, Some(5));
        assert_eq!(row.get_latency, s.percentile(OpKind::Get, i as u64 + 1));
    }
    assert_eq!(rows[49].get_latency, Some(15)); // p50: 10 + (20 - 10) * 50 / 100
    assert_eq!(rows[99].get_latency, Some(20));
}
