//! Byte counters of a tunnel and the rendering of transferred totals.
use vstd::prelude::*;
use crate::text::{push_radix_digits, string_from_chars, digit_char, digit_char_exec, decimal};

verus! {

/// Counts the bytes sent (tx) and received (rx) through a tunnel.
pub struct SpeedTracker {
    tx_bytes: u64,
    rx_bytes: u64,
    last_tx: u64,
    last_rx: u64,
}

impl SpeedTracker {
    pub closed spec fn tx(&self) -> u64 {
        self.tx_bytes
    }

    pub closed spec fn rx(&self) -> u64 {
        self.rx_bytes
    }

    /// Totals at the previous speed sample.
    pub closed spec fn sampled(&self) -> (u64, u64) {
        (self.last_tx, self.last_rx)
    }

    /// A tracker with nothing counted.
    pub fn new() -> (t: SpeedTracker)
        ensures
            t.tx() == 0,
            t.rx() == 0,
            t.sampled() == (0u64, 0u64),
    {
        SpeedTracker { tx_bytes: 0, rx_bytes: 0, last_tx: 0, last_rx: 0 }
    }

    /// Counts bytes sent (the counter wraps around at 2^64).
    pub fn add_tx(&mut self, bytes: u64)
        ensures
            final(self).tx() == (old(self).tx() + bytes) % 0x1_0000_0000_0000_0000,
            final(self).rx() == old(self).rx(),
            final(self).sampled() == old(self).sampled(),
    {
        self.tx_bytes = self.tx_bytes.wrapping_add(bytes);
    }

    /// Counts bytes received (the counter wraps around at 2^64).
    pub fn add_rx(&mut self, bytes: u64)
        ensures
            final(self).rx() == (old(self).rx() + bytes) % 0x1_0000_0000_0000_0000,
            final(self).tx() == old(self).tx(),
            final(self).sampled() == old(self).sampled(),
    {
        self.rx_bytes = self.rx_bytes.wrapping_add(bytes);
    }

    pub fn total_tx(&self) -> (r: u64)
        ensures
            r == self.tx(),
    {
        self.tx_bytes
    }

    pub fn total_rx(&self) -> (r: u64)
        ensures
            r == self.rx(),
    {
        self.rx_bytes
    }

    /// Bytes counted since the previous sample, (tx, rx); the current totals
    /// become the new sample. Differences wrap around with the counters.
    pub fn speed_deltas(&mut self) -> (r: (u64, u64))
        ensures
            r.0 == (old(self).tx() - old(self).sampled().0) % 0x1_0000_0000_0000_0000,
            r.1 == (old(self).rx() - old(self).sampled().1) % 0x1_0000_0000_0000_0000,
            final(self).sampled() == (old(self).tx(), old(self).rx()),
            final(self).tx() == old(self).tx(),
            final(self).rx() == old(self).rx(),
    {
        let dt = self.tx_bytes.wrapping_sub(self.last_tx);
        let dr = self.rx_bytes.wrapping_sub(self.last_rx);
        self.last_tx = self.tx_bytes;
        self.last_rx = self.rx_bytes;
        (dt, dr)
    }
}

/// A call on a `SpeedTracker` that can change it: `add_tx`, `add_rx`, or a
/// speed sample (`speed_deltas`). Reading the totals changes nothing.
pub enum TrackerCall {
    AddTx(u64),
    AddRx(u64),
    Sample,
}

/// 2^64, where the counters wrap around.
pub open spec fn counter_modulus() -> nat {
    0x1_0000_0000_0000_0000
}

/// The (tx, rx) totals after the calls, from totals `start`, each call
/// acting as its contract says.
pub open spec fn totals_after(start: (nat, nat), calls: Seq<TrackerCall>) -> (nat, nat)
    decreases calls.len(),
{
    if calls.len() == 0 {
        start
    } else {
        let t = totals_after(start, calls.drop_last());
        match calls.last() {
            TrackerCall::AddTx(b) => ((t.0 + b as nat) % counter_modulus(), t.1),
            TrackerCall::AddRx(b) => (t.0, (t.1 + b as nat) % counter_modulus()),
            TrackerCall::Sample => t,
        }
    }
}

/// The sum of the amounts given to `add_tx` (`tx == true`) or to `add_rx`.
pub open spec fn amounts_sum(calls: Seq<TrackerCall>, tx: bool) -> nat
    decreases calls.len(),
{
    if calls.len() == 0 {
        0
    } else {
        let s = amounts_sum(calls.drop_last(), tx);
        match calls.last() {
            TrackerCall::AddTx(b) => if tx {
                s + b as nat
            } else {
                s
            },
            TrackerCall::AddRx(b) => if tx {
                s
            } else {
                s + b as nat
            },
            TrackerCall::Sample => s,
        }
    }
}

/// After any sequence of calls on a new tracker, the tx total is the sum of
/// all `add_tx` amounts and the rx total the sum of all `add_rx` amounts,
/// both modulo 2^64: neither depends on the order of the calls, on the other
/// counter's calls or on speed samples.
pub proof fn law_totals_are_sums(calls: Seq<TrackerCall>)
    ensures
        totals_after((0, 0), calls) == (
            amounts_sum(calls, true) % counter_modulus(),
            amounts_sum(calls, false) % counter_modulus(),
        ),
    decreases calls.len(),
{
    if calls.len() > 0 {
        let init = calls.drop_last();
        law_totals_are_sums(init);
        let m = counter_modulus() as int;
        match calls.last() {
            TrackerCall::AddTx(b) => {
                vstd::arithmetic::div_mod::lemma_add_mod_noop(amounts_sum(init, true) as int, b as int, m);
                vstd::arithmetic::div_mod::lemma_small_mod(b as nat, m as nat);
            },
            TrackerCall::AddRx(b) => {
                vstd::arithmetic::div_mod::lemma_add_mod_noop(amounts_sum(init, false) as int, b as int, m);
                vstd::arithmetic::div_mod::lemma_small_mod(b as nat, m as nat);
            },
            TrackerCall::Sample => {},
        }
    }
}

/// `a / d` rounded to the nearest integer, ties to the even one.
pub open spec fn round_div_even(a: nat, d: nat) -> nat {
    let q = a / d;
    let r = a % d;
    if 2 * r > d {
        q + 1
    } else if 2 * r < d {
        q
    } else if q % 2 == 0 {
        q
    } else {
        q + 1
    }
}

pub const F64_MANTISSA_LIMIT: u128 = 0x20_0000_0000_0000;

/// The spacing of doubles around `n`: 1 below 2^53, doubling with each binade above.
pub open spec fn f64_unit(n: nat) -> nat
    decreases n,
{
    if n < 0x20_0000_0000_0000 {
        1
    } else {
        2 * f64_unit(n / 2)
    }
}

/// The double nearest to `n` (ties to even), as `n as f64` rounds.
pub open spec fn f64_round(n: nat) -> nat {
    round_div_even(n, f64_unit(n)) * f64_unit(n)
}

/// A count of tenths rendered with one decimal: `12.3`.
pub open spec fn tenths_text(t: nat) -> Seq<char> {
    decimal(t / 10) + seq!['.'] + seq![digit_char(t % 10)]
}

/// The text `format_total` gives: `{:.1} MB` of `n as f64 / 2^20`, `{:.1} KB`
/// of `n as f64 / 1024`, or `{} B`. The decimal is the exactly rounded value,
/// ties to even, as float formatting does.
pub open spec fn total_text(n: nat) -> Seq<char> {
    if n >= 1048576 {
        tenths_text(round_div_even(f64_round(n) * 10, 1048576)) + seq![' ', 'M', 'B']
    } else if n >= 1024 {
        tenths_text(round_div_even(n * 10, 1024)) + seq![' ', 'K', 'B']
    } else {
        decimal(n) + seq![' ', 'B']
    }
}

fn round_div_even_exec(a: u128, d: u128) -> (r: u128)
    requires
        d > 0,
        a / d < u128::MAX,
    ensures
        r == round_div_even(a as nat, d as nat),
{
    let q = a / d;
    let r = a % d;
    if r > d - r {
        q + 1
    } else if r < d - r {
        q
    } else if q % 2 == 0 {
        q
    } else {
        q + 1
    }
}

/// `n as f64`, as an integer.
fn f64_round_exec(n: u64) -> (r: u128)
    ensures
        r == f64_round(n as nat),
        r <= 0x2_0000_0000_0000_0000,
{
    let mut d: u128 = 1;
    let nn = n as u128;
    proof {
        assert(nn / 1 == nn);
    }
    while nn / d >= F64_MANTISSA_LIMIT
        invariant
            nn == n,
            1 <= d <= 0x1_0000_0000_0000_0000,
            f64_unit(n as nat) == d * f64_unit((nn / d) as nat),
        decreases nn / d,
    {
        let q = nn / d;
        proof {
            vstd::arithmetic::div_mod::lemma_fundamental_div_mod(nn as int, d as int);
            vstd::arithmetic::div_mod::lemma_mod_bound(nn as int, d as int);
            vstd::arithmetic::div_mod::lemma_div_denominator(nn as int, d as int, 2);
            assert(f64_unit(q as nat) == 2 * f64_unit((q / 2) as nat));
            assert(d * 2 <= 0x1_0000_0000_0000_0000) by (nonlinear_arith)
                requires
                    q >= 0x20_0000_0000_0000,
                    nn == d * q + nn % d,
                    nn % d >= 0,
                    nn < 0x1_0000_0000_0000_0000,
                    d >= 1,
            {
            }
        }
        let d2 = d * 2;
        proof {
            assert(nn / d2 == q / 2);
            assert(f64_unit(n as nat) == d2 * f64_unit((nn / d2) as nat)) by (nonlinear_arith)
                requires
                    f64_unit(n as nat) == d * f64_unit(q as nat),
                    f64_unit(q as nat) == 2 * f64_unit((q / 2) as nat),
                    nn / d2 == q / 2,
                    d2 == d * 2,
            {
            }
        }
        d = d2;
    }
    proof {
        assert(f64_unit((nn / d) as nat) == 1);
        assert(f64_unit(n as nat) == d) by (nonlinear_arith)
            requires
                f64_unit(n as nat) == d * f64_unit((nn / d) as nat),
                f64_unit((nn / d) as nat) == 1,
        {
        }
        vstd::arithmetic::div_mod::lemma_fundamental_div_mod(nn as int, d as int);
        vstd::arithmetic::div_mod::lemma_mod_bound(nn as int, d as int);
    }
    let q = round_div_even_exec(nn, d);
    proof {
        assert(q <= nn / d + 1);
        assert(q * d <= 0x2_0000_0000_0000_0000) by (nonlinear_arith)
            requires
                q <= nn / d + 1,
                nn == d * (nn / d) + nn % d,
                nn % d >= 0,
                nn < 0x1_0000_0000_0000_0000,
                d <= 0x1_0000_0000_0000_0000,
        {
        }
    }
    q * d
}

fn push_tenths(t: u64, out: &mut Vec<char>)
    ensures
        final(out)@ == old(out)@ + tenths_text(t as nat),
{
    push_radix_digits(t / 10, 10, out);
    out.push('.');
    out.push(digit_char_exec(t % 10));
}

/// Renders a byte total: `1.5 MB`, `3.0 KB` or `512 B`.
pub fn format_total(bytes: u64) -> (s: String)
    ensures
        s@ == total_text(bytes as nat),
{
    let mut out: Vec<char> = Vec::new();
    if bytes >= 1048576 {
        let m = f64_round_exec(bytes);
        let t = round_div_even_exec(m * 10, 1048576);
        assert(t <= (m * 10) / 1048576 + 1);
        assert((m * 10) / 1048576 <= 0x2_0000_0000_0000_0000 * 10 / 1048576) by {
            vstd::arithmetic::div_mod::lemma_div_is_ordered((m * 10) as int, 0x2_0000_0000_0000_0000int * 10, 1048576);
        }
        assert(t <= 0x10_0000_0000_0000);
        push_tenths(t as u64, &mut out);
        out.push(' ');
        out.push('M');
        out.push('B');
    } else if bytes >= 1024 {
        let t = round_div_even_exec((bytes as u128) * 10, 1024);
        push_tenths(t as u64, &mut out);
        out.push(' ');
        out.push('K');
        out.push('B');
    } else {
        push_radix_digits(bytes, 10, &mut out);
        out.push(' ');
        out.push('B');
    }
    string_from_chars(out.as_slice())
}

/// Totals below 1 KiB read in bytes; whole numbers of KiB below 1 MiB read
/// as that many KB with one zero decimal; whole numbers of MiB (while exact
/// as a double) read as that many MB with one zero decimal.
pub proof fn law_total_units(n: nat, k: nat, m: nat)
    ensures
        n < 1024 ==> total_text(n) == decimal(n) + seq![' ', 'B'],
        1 <= k < 1024 ==> total_text(k * 1024) == decimal(k) + seq!['.', '0', ' ', 'K', 'B'],
        1 <= m < 0x2_0000_0000 ==> total_text(m * 1048576) == decimal(m) + seq!['.', '0', ' ', 'M', 'B'],
{
    if 1 <= k < 1024 {
        let a = k * 1024;
        assert(a * 10 == 1024 * (10 * k)) by (nonlinear_arith)
            requires
                a == k * 1024,
        ;
        vstd::arithmetic::div_mod::lemma_div_multiples_vanish((10 * k) as int, 1024);
        vstd::arithmetic::div_mod::lemma_mod_multiples_basic((10 * k) as int, 1024);
        assert((1024 * (10 * k)) % 1024 == 0) by (nonlinear_arith)
            requires
                ((10 * k) * 1024) % 1024 == 0,
        ;
        assert(round_div_even(a * 10, 1024) == 10 * k);
        assert(a >= 1024 && a < 1048576) by (nonlinear_arith)
            requires
                1 <= k < 1024,
                a == k * 1024,
        ;
        assert((10 * k) / 10 == k);
        assert((10 * k) % 10 == 0);
        assert(digit_char(0) == '0');
        assert(tenths_text(10 * k) =~= decimal(k) + seq!['.', '0']);
        assert(total_text(a) =~= decimal(k) + seq!['.', '0', ' ', 'K', 'B']);
    }
    if 1 <= m < 0x2_0000_0000 {
        let a = m * 1048576;
        assert(a >= 1048576 && a < 0x20_0000_0000_0000) by (nonlinear_arith)
            requires
                1 <= m < 0x2_0000_0000,
                a == m * 1048576,
        ;
        assert(f64_unit(a) == 1);
        assert(round_div_even(a, 1) == a);
        assert(f64_round(a) == a);
        assert(a * 10 == 1048576 * (10 * m)) by (nonlinear_arith)
            requires
                a == m * 1048576,
        ;
        vstd::arithmetic::div_mod::lemma_div_multiples_vanish((10 * m) as int, 1048576);
        vstd::arithmetic::div_mod::lemma_mod_multiples_basic((10 * m) as int, 1048576);
        assert((1048576 * (10 * m)) % 1048576 == 0) by (nonlinear_arith)
            requires
                ((10 * m) * 1048576) % 1048576 == 0,
        ;
        assert(round_div_even(a * 10, 1048576) == 10 * m);
        assert((10 * m) / 10 == m);
        assert((10 * m) % 10 == 0);
        assert(digit_char(0) == '0');
        assert(tenths_text(10 * m) =~= decimal(m) + seq!['.', '0']);
        assert(total_text(a) =~= decimal(m) + seq!['.', '0', ' ', 'M', 'B']);
    }
}

} // verus!
