use sugar_wifi_conf::bench::{bench_report, command_timing_line, is_pong, latency_result, BenchResult};

fn reference_detail(latencies: &[u64], rounds: u32) -> String {
    let mut l = latencies.to_vec();
    l.sort();
    let min = l[0] as u128;
    let max = *l.last().unwrap() as u128;
    let avg = l.iter().map(|d| *d as u128).sum::<u128>() / l.len() as u128;
    let median = l[l.len() / 2] as u128;
    format!(
        "min {} ms / avg {} ms / median {} ms / max {} ms ({}/{} ok)",
        min,
        avg,
        median,
        max,
        l.len(),
        rounds
    )
}

#[test]
fn latency_summary() {
    let r = latency_result(&vec![1200, 980, 1010, 1500], 10);
    assert_eq!(r.name, "Echo Latency (10 rounds)");
    assert_eq!(r.detail, "min 980 ms / avg 1172 ms / median 1200 ms / max 1500 ms (4/10 ok)");
    let none = latency_result(&vec![], 10);
    assert_eq!(none.name, "Echo Latency");
    assert_eq!(none.detail, "All rounds failed");
}

#[test]
fn latency_summary_matches_sorting_reference() {
    let samples: Vec<Vec<u64>> = vec![
        vec![5],
        vec![3, 1, 2],
        vec![7, 7, 7, 1],
        vec![u64::MAX, u64::MAX, 0],
        (0..50).map(|i| (i * 7919) % 101).collect(),
    ];
    for s in samples.iter() {
        assert_eq!(latency_result(s, 10).detail, reference_detail(s, 10), "sample: {:?}", s);
    }
}

#[test]
fn echo_and_timing_lines() {
    assert!(is_pong("pong\n"));
    assert!(is_pong("  pong "));
    assert!(!is_pong("ping"));
    assert_eq!(command_timing_line("Kernel info", Ok(1107)), "Kernel info: 1107 ms");
    assert_eq!(command_timing_line("Disk usage", Err("exit 1: no".to_string())), "Disk usage: FAILED (exit 1: no)");
}

#[test]
fn report_layout() {
    let results = vec![
        BenchResult { name: "A".to_string(), detail: "x".to_string() },
        BenchResult { name: "B".to_string(), detail: "y".to_string() },
    ];
    let md = bench_report("2024-01-01", "cm5", "hci0/dev_1", "pi", 2048, 100, &results);
    assert!(md.starts_with("# BLE SSH Speed Test Report\n\n- **Date**: 2024-01-01\n- **Device**: cm5 (hci0/dev_1)\n- **SSH User**: pi\n- **Total transferred**: TX 2.0 KB / RX 100 B\n\n## Results\n\n| Test | Result |\n|------|--------|\n| A | x |\n| B | y |\n\n## Details\n\n### A\n\nx\n\n### B\n\ny\n\n\n## Analysis\n\n- **Latency**:"));
    assert!(md.ends_with("not bulk file transfers.\n"));
    assert!(md.contains("(TCP connect → BLE CONNECT/OK → SSH handshake → command → response)"));
}
