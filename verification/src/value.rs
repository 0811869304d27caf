//! Exact decimal sample values.
//!
//! Every number this exporter emits is derived from integer device counters
//! (jiffies, kilobytes, fixed-point load averages, millisecond durations), so
//! sample values are kept as exact decimals `units + frac / 10^scale` instead
//! of binary floating point, and rendered without rounding.

use vstd::prelude::*;

verus! {

/// An exact, non-negative decimal number: `units + frac / 10^scale`.
#[derive(Debug, Clone, Copy, PartialEq, Eq, Structural)]
pub struct MetricValue {
    pub units: u64,
    pub frac: u64,
    pub scale: u8,
}

pub open spec fn pow10(n: nat) -> nat
    decreases n,
{
    if n == 0 {
        1
    } else {
        10 * pow10((n - 1) as nat)
    }
}

pub open spec fn digit_char(d: nat) -> char {
    if d == 0 {
        '0'
    } else if d == 1 {
        '1'
    } else if d == 2 {
        '2'
    } else if d == 3 {
        '3'
    } else if d == 4 {
        '4'
    } else if d == 5 {
        '5'
    } else if d == 6 {
        '6'
    } else if d == 7 {
        '7'
    } else if d == 8 {
        '8'
    } else {
        '9'
    }
}

/// The usual decimal digit string of `n`, without leading zeros
/// (except that 0 itself is "0").
pub open spec fn dec_digits(n: nat) -> Seq<char>
    decreases n,
{
    if n < 10 {
        seq![digit_char(n)]
    } else {
        dec_digits(n / 10).push(digit_char(n % 10))
    }
}

/// Exactly `scale` decimal digits of `f`, zero-padded on the left.
pub open spec fn frac_digits(f: nat, scale: nat) -> Seq<char>
    decreases scale,
{
    if scale == 0 {
        Seq::empty()
    } else {
        frac_digits(f / 10, (scale - 1) as nat).push(digit_char(f % 10))
    }
}

/// Drops every trailing '0'.
pub open spec fn strip_zeros(s: Seq<char>) -> Seq<char>
    decreases s.len(),
{
    if s.len() > 0 && s.last() == '0' {
        strip_zeros(s.drop_last())
    } else {
        s
    }
}

pub proof fn lemma_pow10_pos(n: nat)
    ensures
        pow10(n) >= 1,
    decreases n,
{
    if n > 0 {
        lemma_pow10_pos((n - 1) as nat);
    }
}

pub proof fn lemma_pow10_values()
    ensures
        pow10(2) == 100,
        pow10(3) == 1000,
        pow10(16) == 10000000000000000,
        pow10(19) == 10000000000000000000,
{
    reveal_with_fuel(pow10, 20);
}

pub proof fn lemma_pow10_increases(a: nat, b: nat)
    requires
        a <= b,
    ensures
        pow10(a) <= pow10(b),
    decreases b,
{
    if a < b {
        lemma_pow10_increases(a, (b - 1) as nat);
    }
}

impl MetricValue {
    /// The fractional numerator stays below `10^scale`.
    pub open spec fn wf(self) -> bool {
        self.scale <= 19 && (self.frac as nat) < pow10(self.scale as nat)
    }

    /// The wire text of this value: integer digits, then a '.' and the
    /// fractional digits with trailing zeros removed, or no fractional part
    /// at all when it is zero.
    pub open spec fn rendered(self) -> Seq<char> {
        let fr = strip_zeros(frac_digits(self.frac as nat, self.scale as nat));
        if fr.len() == 0 {
            dec_digits(self.units as nat)
        } else {
            dec_digits(self.units as nat) + seq!['.'] + fr
        }
    }

    /// A whole number.
    pub fn from_int(n: u64) -> (r: MetricValue)
        ensures
            r == (MetricValue { units: n, frac: 0, scale: 0 }),
            r.wf(),
    {
        MetricValue { units: n, frac: 0, scale: 0 }
    }

    /// `n / 100`, exact: the unit used for CPU jiffie counters.
    pub fn from_centi(n: u64) -> (r: MetricValue)
        ensures
            r == (MetricValue { units: n / 100, frac: n % 100, scale: 2 }),
            r.wf(),
    {
        proof {
            lemma_pow10_values();
        }
        MetricValue { units: n / 100, frac: n % 100, scale: 2 }
    }

    /// `ms / 1000` seconds, exact: the unit used for scrape durations.
    pub fn from_millis(ms: u64) -> (r: MetricValue)
        ensures
            r == (MetricValue { units: ms / 1000, frac: ms % 1000, scale: 3 }),
            r.wf(),
    {
        proof {
            lemma_pow10_values();
        }
        MetricValue { units: ms / 1000, frac: ms % 1000, scale: 3 }
    }

    /// `raw / 65536`, exact: the fixed-point load-average unit of the
    /// device's sysinfo block.  Since `65536 * 5^16 == 10^16`, the remainder
    /// scaled by `5^16` is an exact 16-digit decimal fraction.
    pub fn from_q16(raw: u32) -> (r: MetricValue)
        ensures
            r.units == raw as u64 / 65536,
            r.frac == (raw as u64 % 65536) * 152587890625,
            r.scale == 16,
            r.wf(),
    {
        let units: u64 = raw as u64 / 65536;
        let rem: u64 = raw as u64 % 65536;
        proof {
            lemma_pow10_values();
            assert(rem * 152587890625 < 10000000000000000) by (nonlinear_arith)
                requires
                    rem < 65536,
            ;
        }
        MetricValue { units, frac: rem * 152587890625, scale: 16 }
    }

    /// Renders this value as wire text.
    pub fn to_prom(&self) -> (r: String)
        ensures
            r@ == self.rendered(),
    {
        let mut out = String::new();
        let digits = dec_digit_chars(self.units);
        append_chars(&mut out, &digits);
        let mut f = frac_digit_chars(self.frac, self.scale);
        strip_trailing_zeros(&mut f);
        if f.len() > 0 {
            out.append(".");
            proof {
                reveal_strlit(".");
                assert("."@ =~= seq!['.']);
            }
            append_chars(&mut out, &f);
        }
        out
    }
}

fn digit_to_char(d: u8) -> (c: char)
    requires
        d < 10,
    ensures
        c == digit_char(d as nat),
{
    if d == 0 {
        '0'
    } else if d == 1 {
        '1'
    } else if d == 2 {
        '2'
    } else if d == 3 {
        '3'
    } else if d == 4 {
        '4'
    } else if d == 5 {
        '5'
    } else if d == 6 {
        '6'
    } else if d == 7 {
        '7'
    } else if d == 8 {
        '8'
    } else {
        '9'
    }
}

/// The decimal digit characters of `n`.
pub fn dec_digit_chars(n: u64) -> (r: Vec<char>)
    ensures
        r@ == dec_digits(n as nat),
    decreases n,
{
    if n < 10 {
        let mut r: Vec<char> = Vec::new();
        r.push(digit_to_char(n as u8));
        r
    } else {
        let mut r = dec_digit_chars(n / 10);
        r.push(digit_to_char((n % 10) as u8));
        r
    }
}

/// The low `scale` decimal digit characters of `f`, zero-padded.
pub fn frac_digit_chars(f: u64, scale: u8) -> (r: Vec<char>)
    ensures
        r@ == frac_digits(f as nat, scale as nat),
    decreases scale,
{
    if scale == 0 {
        Vec::new()
    } else {
        let mut r = frac_digit_chars(f / 10, scale - 1);
        r.push(digit_to_char((f % 10) as u8));
        r
    }
}

/// Removes every trailing '0' from `v`.
pub fn strip_trailing_zeros(v: &mut Vec<char>)
    ensures
        final(v)@ == strip_zeros(old(v)@),
{
    while v.len() > 0 && v[v.len() - 1] == '0'
        invariant
            strip_zeros(v@) == strip_zeros(old(v)@),
        decreases v.len(),
    {
        let ghost prev = v@;
        let _ = v.pop();
        proof {
            assert(prev.last() == '0');
            assert(v@ =~= prev.drop_last());
        }
    }
}

/// Relies on `alloc::string::String::push`: appends exactly the one
/// character to the end of the string.
#[verifier::external_body]
fn push_char(s: &mut String, c: char)
    ensures
        final(s)@ == old(s)@.push(c),
{
    s.push(c);
}

/// Appends every character of `v` to `out`, in order.
pub fn append_chars(out: &mut String, v: &Vec<char>)
    ensures
        final(out)@ == old(out)@ + v@,
{
    let mut i: usize = 0;
    while i < v.len()
        invariant
            i <= v.len(),
            out@ == old(out)@ + v@.take(i as int),
        decreases v.len() - i,
    {
        push_char(out, v[i]);
        proof {
            assert(old(out)@ + v@.take(i + 1) =~= (old(out)@ + v@.take(i as int)).push(v@[i as int]));
        }
        i += 1;
    }
    proof {
        assert(v@.take(v@.len() as int) =~= v@);
    }
}

} // verus!
