use sugar_wifi_conf::speed::{format_total, SpeedTracker};

fn reference(bytes: u64) -> String {
    if bytes >= 1024 * 1024 {
        format!("{:.1} MB", bytes as f64 / (1024.0 * 1024.0))
    } else if bytes >= 1024 {
        format!("{:.1} KB", bytes as f64 / 1024.0)
    } else {
        format!("{} B", bytes)
    }
}

#[test]
fn totals_accumulate() {
    let mut t = SpeedTracker::new();
    assert_eq!((t.total_tx(), t.total_rx()), (0, 0));
    t.add_tx(100);
    t.add_tx(20);
    t.add_rx(7);
    assert_eq!((t.total_tx(), t.total_rx()), (120, 7));
    assert_eq!(t.speed_deltas(), (120, 7));
    t.add_rx(3);
    assert_eq!(t.speed_deltas(), (0, 3));
    assert_eq!(t.speed_deltas(), (0, 0));
}

#[test]
fn totals_wrap_around() {
    let mut t = SpeedTracker::new();
    t.add_tx(u64::MAX);
    t.add_tx(2);
    assert_eq!(t.total_tx(), 1);
}

#[test]
fn format_total_examples() {
    assert_eq!(format_total(0), "0 B");
    assert_eq!(format_total(1023), "1023 B");
    assert_eq!(format_total(1024), "1.0 KB");
    assert_eq!(format_total(1536), "1.5 KB");
    assert_eq!(format_total(1048576), "1.0 MB");
    assert_eq!(format_total(1048575), "1024.0 KB");
}

#[test]
fn format_total_matches_float_formatting() {
    let mut samples: Vec<u64> = (0..5000u64).collect();
    for k in 0..2000u64 {
        samples.push(256 + 512 * k);
        samples.push(1024 * k + 51);
        samples.push(1048576 + 52428 * k);
        samples.push(1048576 * k + 524288);
    }
    for s in [
        u64::MAX,
        u64::MAX - 1,
        1 << 53,
        (1 << 53) + 1,
        (1 << 60) + 12345,
        9_007_199_254_740_993,
        123_456_789_012,
    ]
    .iter()
    {
        samples.push(*s);
    }
    for b in samples {
        assert_eq!(format_total(b), reference(b), "bytes = {}", b);
    }
}

#[test]
fn totals_are_sums_in_any_order() {
    let amounts: [(bool, u64); 6] = [(true, 5), (false, 7), (true, 11), (true, u64::MAX), (false, 3), (true, 2)];
    let mut forward = SpeedTracker::new();
    for (tx, b) in amounts.iter() {
        if *tx { forward.add_tx(*b) } else { forward.add_rx(*b) }
        let _ = forward.speed_deltas();
    }
    let mut backward = SpeedTracker::new();
    for (tx, b) in amounts.iter().rev() {
        if *tx { backward.add_tx(*b) } else { backward.add_rx(*b) }
    }
    let tx_sum = 5u64.wrapping_add(11).wrapping_add(u64::MAX).wrapping_add(2);
    assert_eq!(forward.total_tx(), tx_sum);
    assert_eq!(backward.total_tx(), tx_sum);
    assert_eq!(forward.total_tx(), 17);
    assert_eq!(forward.total_rx(), 10);
    assert_eq!(backward.total_rx(), 10);
}
