//! The SSH-over-BLE benchmark's bookkeeping: the echo check, the latency
//! summary (minimum, mean, median, maximum of the successful rounds) and
//! the lines of the command-timing result.
use vstd::prelude::*;
use vstd::relations::{sorted_by, total_ordering};
use crate::text::{chars_of, string_from_chars, decimal, push_radix_digits, extend_chars};
use crate::lines::{trim, trim_chars};
use crate::speed::{format_total, total_text};

verus! {

broadcast use vstd::seq_lib::group_to_multiset_ensures;

/// A benchmark's name and result text.
pub struct BenchResult {
    pub name: String,
    pub detail: String,
}

/// Whether the output of the echo command is `pong` (spaces around it aside).
pub fn is_pong(out: &str) -> (r: bool)
    ensures
        r == (trim(out@) == "pong"@),
{
    let c = chars_of(out);
    let t = trim_chars(c.as_slice());
    let p = chars_of("pong");
    crate::text::chars_eq(t.as_slice(), p.as_slice())
}

/// Ascending order on milliseconds.
pub open spec fn ms_order() -> spec_fn(u64, u64) -> bool {
    |a: u64, b: u64| a <= b
}

/// The latencies in ascending order.
pub open spec fn sorted_ms(ms: Seq<u64>) -> Seq<u64> {
    ms.sort_by(ms_order())
}

/// The sum of the latencies.
pub open spec fn sum_ms(ms: Seq<u64>) -> nat
    decreases ms.len(),
{
    if ms.len() == 0 {
        0
    } else {
        sum_ms(ms.drop_last()) + ms.last() as nat
    }
}

proof fn lemma_ms_le_total()
    ensures
        total_ordering(ms_order()),
{
}

proof fn lemma_sum_bound(ms: Seq<u64>)
    ensures
        sum_ms(ms) <= ms.len() * 0xffff_ffff_ffff_ffff,
    decreases ms.len(),
{
    if ms.len() > 0 {
        lemma_sum_bound(ms.drop_last());
    }
}

/// Inserts `x` into an ascending vector, keeping it ascending.
fn insert_sorted(v: &mut Vec<u64>, x: u64)
    requires
        sorted_by(old(v)@, ms_order()),
    ensures
        sorted_by(final(v)@, ms_order()),
        final(v)@.to_multiset() == old(v)@.to_multiset().insert(x),
{
    let mut j: usize = 0;
    while j < v.len() && v[j] <= x
        invariant
            j <= v@.len(),
            forall|k: int| 0 <= k < j ==> v@[k] <= x,
        decreases v@.len() - j,
    {
        j = j + 1;
    }
    let ghost before = v@;
    v.insert(j, x);
    proof {
        assert forall|a: int, b: int| 0 <= a < b < v@.len() implies #[trigger] ms_order()(v@[a], v@[b]) by {
            if b < j {
                assert(ms_order()(before[a], before[b]));
            } else if b == j {
                assert(v@[a] == before[a]);
            } else if a == j {
                assert(v@[b] == before[b - 1]);
                assert(before[j as int] > x);
                if b - 1 > j {
                    assert(ms_order()(before[j as int], before[b - 1]));
                }
            } else if a < j {
                assert(v@[a] == before[a]);
                assert(v@[b] == before[b - 1]);
                assert(ms_order()(before[a], before[b - 1]));
            } else {
                assert(v@[a] == before[a - 1]);
                assert(v@[b] == before[b - 1]);
                assert(ms_order()(before[a - 1], before[b - 1]));
            }
        }
    }
}

/// The latencies in ascending order.
fn sort_ms(ms: &Vec<u64>) -> (r: Vec<u64>)
    ensures
        r@ == sorted_ms(ms@),
{
    let mut r: Vec<u64> = Vec::new();
    let mut i: usize = 0;
    assert(ms@.take(0) =~= Seq::<u64>::empty());
    while i < ms.len()
        invariant
            i <= ms@.len(),
            sorted_by(r@, ms_order()),
            r@.to_multiset() == ms@.take(i as int).to_multiset(),
        decreases ms@.len() - i,
    {
        assert(ms@.take(i + 1) =~= ms@.take(i as int).push(ms@[i as int]));
        insert_sorted(&mut r, ms[i]);
        i = i + 1;
    }
    assert(ms@.take(i as int) =~= ms@);
    proof {
        lemma_ms_le_total();
        ms@.lemma_sort_by_ensures(ms_order());
        vstd::seq_lib::lemma_sorted_unique(r@, sorted_ms(ms@), ms_order());
    }
    r
}

/// The text of the latency benchmark for the successful rounds.
pub open spec fn latency_detail(ms: Seq<u64>, rounds: u32) -> Seq<char> {
    let s = sorted_ms(ms);
    let n = s.len();
    "min "@ + decimal(s[0] as nat) + " ms / avg "@ + decimal(sum_ms(s) / n) + " ms / median "@
        + decimal(s[n as int / 2] as nat) + " ms / max "@ + decimal(s[n - 1] as nat) + " ms ("@
        + decimal(n) + "/"@ + decimal(rounds as nat) + " ok)"@
}

fn push_str(v: &mut Vec<char>, s: &str)
    ensures
        final(v)@ == old(v)@ + s@,
{
    let c = chars_of(s);
    extend_chars(v, c.as_slice());
}

/// The latency result: with no successful round, `All rounds failed`;
/// else the minimum, mean (rounded down), median (the upper one for an
/// even count) and maximum in milliseconds, and how many rounds succeeded.
pub fn latency_result(ms: &Vec<u64>, rounds: u32) -> (r: BenchResult)
    ensures
        ms@.len() == 0 ==> r.name@ == "Echo Latency"@ && r.detail@ == "All rounds failed"@,
        ms@.len() > 0 ==> r.name@ == "Echo Latency ("@ + decimal(rounds as nat) + " rounds)"@
            && r.detail@ == latency_detail(ms@, rounds),
{
    if ms.len() == 0 {
        return BenchResult {
            name: String::from_str("Echo Latency"),
            detail: String::from_str("All rounds failed"),
        };
    }
    let s = sort_ms(ms);
    proof {
        lemma_ms_le_total();
        ms@.lemma_sort_by_ensures(ms_order());
        assert(s@.to_multiset().len() == ms@.to_multiset().len());
    }
    let n = s.len();
    let mut sum: u128 = 0;
    let mut i: usize = 0;
    assert(s@.take(0) =~= Seq::<u64>::empty());
    while i < n
        invariant
            i <= n,
            n == s@.len(),
            sum == sum_ms(s@.take(i as int)),
        decreases n - i,
    {
        assert(s@.take(i + 1).drop_last() =~= s@.take(i as int));
        proof {
            lemma_sum_bound(s@.take(i + 1));
            assert(i + 1 <= usize::MAX);
            assert((i + 1) * 0xffff_ffff_ffff_ffff <= 0xffff_ffff_ffff_ffff * 0xffff_ffff_ffff_ffff) by (nonlinear_arith)
                requires
                    i + 1 <= 0xffff_ffff_ffff_ffff,
            ;
        }
        sum = sum + s[i] as u128;
        i = i + 1;
    }
    assert(s@.take(n as int) =~= s@);
    proof {
        lemma_sum_bound(s@);
        assert(sum / (n as u128) <= 0xffff_ffff_ffff_ffff) by (nonlinear_arith)
            requires
                sum <= n * 0xffff_ffff_ffff_ffff,
                n > 0,
        ;
    }
    let avg = (sum / (n as u128)) as u64;
    let mut name: Vec<char> = Vec::new();
    push_str(&mut name, "Echo Latency (");
    push_radix_digits(rounds as u64, 10, &mut name);
    push_str(&mut name, " rounds)");
    let mut d: Vec<char> = Vec::new();
    push_str(&mut d, "min ");
    push_radix_digits(s[0], 10, &mut d);
    push_str(&mut d, " ms / avg ");
    push_radix_digits(avg, 10, &mut d);
    push_str(&mut d, " ms / median ");
    push_radix_digits(s[n / 2], 10, &mut d);
    push_str(&mut d, " ms / max ");
    push_radix_digits(s[n - 1], 10, &mut d);
    push_str(&mut d, " ms (");
    push_radix_digits(n as u64, 10, &mut d);
    push_str(&mut d, "/");
    push_radix_digits(rounds as u64, 10, &mut d);
    push_str(&mut d, " ok)");
    assert(d@ =~= latency_detail(ms@, rounds));
    BenchResult { name: string_from_chars(name.as_slice()), detail: string_from_chars(d.as_slice()) }
}

/// The latency text reports, of the successful rounds' times in ascending
/// order, the first (the minimum), the mean rounded down, the middle one
/// (the upper of the two middle ones for an even count), the last (the
/// maximum), and how many rounds succeeded out of how many ran.
pub proof fn law_latency_summary(ms: Seq<u64>, rounds: u32)
    requires
        ms.len() > 0,
    ensures
        exists|s: Seq<u64>|
            {
                &&& s.len() == ms.len()
                &&& forall|a: int, b: int| 0 <= a < b < s.len() ==> #[trigger] s[a] <= #[trigger] s[b]
                &&& s.to_multiset() == ms.to_multiset()
                &&& latency_detail(ms, rounds) == "min "@ + decimal(s[0] as nat) + " ms / avg "@ + decimal(
                    sum_ms(s) / s.len(),
                ) + " ms / median "@ + decimal(s[s.len() as int / 2] as nat) + " ms / max "@ + decimal(
                    s[s.len() - 1] as nat,
                ) + " ms ("@ + decimal(ms.len()) + "/"@ + decimal(rounds as nat) + " ok)"@
            },
{
    lemma_ms_le_total();
    ms.lemma_sort_by_ensures(ms_order());
    let s = sorted_ms(ms);
    assert(s.to_multiset().len() == ms.to_multiset().len());
    assert(s.len() == ms.len());
    assert forall|a: int, b: int| 0 <= a < b < s.len() implies #[trigger] s[a] <= #[trigger] s[b] by {
        assert(ms_order()(s[a], s[b]));
    }
}

/// The line of one timed command: its time, or why it failed.
pub fn command_timing_line(label: &str, outcome: Result<u64, String>) -> (r: String)
    ensures
        outcome matches Ok(ms) ==> r@ == label@ + ": "@ + decimal(ms as nat) + " ms"@,
        outcome matches Err(e) ==> r@ == label@ + ": FAILED ("@ + e@ + ")"@,
{
    let mut v: Vec<char> = Vec::new();
    push_str(&mut v, label);
    match outcome {
        Ok(ms) => {
            push_str(&mut v, ": ");
            push_radix_digits(ms, 10, &mut v);
            push_str(&mut v, " ms");
        },
        Err(e) => {
            push_str(&mut v, ": FAILED (");
            push_str(&mut v, e.as_str());
            push_str(&mut v, ")");
        },
    }
    string_from_chars(v.as_slice())
}

/// The table rows of the results.
pub open spec fn result_rows(rs: Seq<BenchResult>) -> Seq<char>
    decreases rs.len(),
{
    if rs.len() == 0 {
        seq![]
    } else {
        result_rows(rs.drop_last()) + "| "@ + rs.last().name@ + " | "@ + rs.last().detail@ + " |\n"@
    }
}

/// The detail sections of the results.
pub open spec fn result_sections(rs: Seq<BenchResult>) -> Seq<char>
    decreases rs.len(),
{
    if rs.len() == 0 {
        seq![]
    } else {
        result_sections(rs.drop_last()) + "### "@ + rs.last().name@ + "\n\n"@ + rs.last().detail@
            + "\n\n"@
    }
}

/// The closing analysis of the report.
pub open spec fn analysis_text() -> Seq<char> {
    "\n## Analysis\n\n"@ + ANALYSIS_LATENCY@ + ANALYSIS_THROUGHPUT@ + ANALYSIS_DIRECTION@
        + ANALYSIS_LARGE@
}

pub const ANALYSIS_LATENCY: &'static str = "- **Latency**: Each SSH command includes full session setup (TCP connect \u{2192} BLE CONNECT/OK \u{2192} SSH handshake \u{2192} command \u{2192} response). The ~1s latency is dominated by SSH key exchange over the low-bandwidth BLE link.\n";

pub const ANALYSIS_THROUGHPUT: &'static str = "- **Throughput**: BLE 4.x GATT notifications have a practical ceiling of ~5-10 KB/s due to MTU size (typically 20-512 bytes per notification) and connection interval. Upload (client\u{2192}Pi) uses `WriteWithResponse` which is slower due to acknowledgment overhead.\n";

pub const ANALYSIS_DIRECTION: &'static str = "- **Download vs Upload**: Download (Pi\u{2192}client via BLE notifications) tends to be faster than upload (client\u{2192}Pi via GATT writes) because notifications are fire-and-forget at the BLE level, while writes require per-packet ACK.\n";

pub const ANALYSIS_LARGE: &'static str = "- **Large transfers**: 100KB+ transfers may fail due to SSH session timeout or BLE connection instability over extended periods. BLE is best suited for interactive SSH sessions, not bulk file transfers.\n";

/// The Markdown report of a benchmark run.
pub open spec fn report_text(
    date: Seq<char>,
    device: Seq<char>,
    id: Seq<char>,
    user: Seq<char>,
    tx: u64,
    rx: u64,
    rs: Seq<BenchResult>,
) -> Seq<char> {
    "# BLE SSH Speed Test Report\n\n"@ + "- **Date**: "@ + date + "\n"@ + "- **Device**: "@ + device
        + " ("@ + id + ")\n"@ + "- **SSH User**: "@ + user + "\n"@ + "- **Total transferred**: TX "@
        + total_text(tx as nat) + " / RX "@ + total_text(rx as nat) + "\n\n"@ + "## Results\n\n"@
        + "| Test | Result |\n"@ + "|------|--------|\n"@ + result_rows(rs) + "\n## Details\n\n"@
        + result_sections(rs) + analysis_text()
}

/// Writes the Markdown report of a benchmark run.
pub fn bench_report(
    date: &str,
    device: &str,
    id: &str,
    user: &str,
    total_tx: u64,
    total_rx: u64,
    results: &Vec<BenchResult>,
) -> (r: String)
    ensures
        r@ == report_text(date@, device@, id@, user@, total_tx, total_rx, results@),
{
    let mut v: Vec<char> = Vec::new();
    push_str(&mut v, "# BLE SSH Speed Test Report\n\n");
    push_str(&mut v, "- **Date**: ");
    push_str(&mut v, date);
    push_str(&mut v, "\n");
    push_str(&mut v, "- **Device**: ");
    push_str(&mut v, device);
    push_str(&mut v, " (");
    push_str(&mut v, id);
    push_str(&mut v, ")\n");
    push_str(&mut v, "- **SSH User**: ");
    push_str(&mut v, user);
    push_str(&mut v, "\n");
    push_str(&mut v, "- **Total transferred**: TX ");
    let t = format_total(total_tx);
    push_str(&mut v, t.as_str());
    push_str(&mut v, " / RX ");
    let t = format_total(total_rx);
    push_str(&mut v, t.as_str());
    push_str(&mut v, "\n\n");
    push_str(&mut v, "## Results\n\n");
    push_str(&mut v, "| Test | Result |\n");
    push_str(&mut v, "|------|--------|\n");
    let ghost head = v@;
    let mut i: usize = 0;
    assert(results@.take(0) =~= Seq::<BenchResult>::empty());
    while i < results.len()
        invariant
            i <= results@.len(),
            v@ == head + result_rows(results@.take(i as int)),
        decreases results@.len() - i,
    {
        assert(results@.take(i + 1).drop_last() =~= results@.take(i as int));
        push_str(&mut v, "| ");
        push_str(&mut v, results[i].name.as_str());
        push_str(&mut v, " | ");
        push_str(&mut v, results[i].detail.as_str());
        push_str(&mut v, " |\n");
        i = i + 1;
    }
    assert(results@.take(i as int) =~= results@);
    push_str(&mut v, "\n## Details\n\n");
    let ghost mid = v@;
    let mut i: usize = 0;
    while i < results.len()
        invariant
            i <= results@.len(),
            v@ == mid + result_sections(results@.take(i as int)),
        decreases results@.len() - i,
    {
        assert(results@.take(i + 1).drop_last() =~= results@.take(i as int));
        push_str(&mut v, "### ");
        push_str(&mut v, results[i].name.as_str());
        push_str(&mut v, "\n\n");
        push_str(&mut v, results[i].detail.as_str());
        push_str(&mut v, "\n\n");
        i = i + 1;
    }
    assert(results@.take(i as int) =~= results@);
    push_str(&mut v, "\n## Analysis\n\n");
    push_str(&mut v, ANALYSIS_LATENCY);
    push_str(&mut v, ANALYSIS_THROUGHPUT);
    push_str(&mut v, ANALYSIS_DIRECTION);
    push_str(&mut v, ANALYSIS_LARGE);
    assert(v@ =~= report_text(date@, device@, id@, user@, total_tx, total_rx, results@));
    string_from_chars(v.as_slice())
}

} // verus!
