//! Bandwidth family: parses the device's `netdev` quasi-JSON fragment
//! (single-quoted or bare keys, hex-encoded counters) with a real
//! tokenizer, and renders the same fragment back.
//!
//! The fragment looks like `netdev={'eth0':{rx:0x1a,tx:0x2b},...};`; keys
//! and the `rx`/`tx` field names may be quoted with `'` or `"`, hex
//! literals may be quoted too, and whitespace may appear between tokens.
//! A fragment that does not decode fails loudly rather than producing
//! wrong numbers.

use vstd::prelude::*;

use crate::error::ParseError;
use crate::prometheus::{joined, lemma_joined_cons};
use crate::table::{lookup, sorted_keys, upsert};
use crate::text::{chars_of, find_char, find_char_at, space_run_end, space_run_end_at, vec_sub};
use crate::transport::TomatoClientInternal;
use crate::value::MetricValue;

verus! {

/// One interface's receive and transmit byte counters.
#[derive(Debug, Clone, Copy, PartialEq, Eq, Structural)]
pub struct BandwidthMeasurement {
    pub rx: u64,
    pub tx: u64,
}

/// A parsed entry: interface name, then (rx, tx).
pub type BwEntry = (Seq<char>, (u64, u64));

pub open spec fn is_hex_digit(c: char) -> bool {
    ('0' <= c && c <= '9') || ('a' <= c && c <= 'f') || ('A' <= c && c <= 'F')
}

pub open spec fn hex_digit_val(c: char) -> nat {
    if '0' <= c && c <= '9' {
        (c as u32 - 48) as nat
    } else if 'a' <= c && c <= 'f' {
        (c as u32 - 87) as nat
    } else {
        (c as u32 - 55) as nat
    }
}

/// The value of a hex digit string (most significant first).
pub open spec fn hex_val(s: Seq<char>) -> nat
    decreases s.len(),
{
    if s.len() == 0 {
        0
    } else {
        hex_val(s.drop_last()) * 16 + hex_digit_val(s.last())
    }
}

pub open spec fn pow16(n: nat) -> nat
    decreases n,
{
    if n == 0 {
        1
    } else {
        16 * pow16((n - 1) as nat)
    }
}

/// The first position at or after `i` holding a non-hex-digit, or `s.len()`.
pub open spec fn hex_run_end(s: Seq<char>, i: nat) -> nat
    decreases s.len() - i,
{
    if i >= s.len() {
        s.len()
    } else if !is_hex_digit(s[i as int]) {
        i
    } else {
        hex_run_end(s, i + 1)
    }
}

pub open spec fn is_quote(c: char) -> bool {
    c == '\'' || c == '"'
}

/// Whether `lit` occurs in `s` starting exactly at `i`.
pub open spec fn lit_at(s: Seq<char>, i: nat, lit: Seq<char>) -> bool {
    i + lit.len() <= s.len() && s.subrange(i as int, i as int + lit.len() as int) == lit
}

/// A hex literal at `i`: `0x` and digits, the whole optionally quoted.
/// Yields the value and the position after it; nothing when the shape is
/// absent or the value exceeds `u64`.
pub open spec fn parse_hex_at(s: Seq<char>, i: nat) -> Option<(u64, nat)> {
    if i >= s.len() {
        Option::None
    } else {
        let quoted = is_quote(s[i as int]);
        let j = if quoted {
            i as int + 1
        } else {
            i as int
        };
        if !lit_at(s, j as nat, "0x"@) {
            Option::None
        } else {
            let e = hex_run_end(s, (j + 2) as nat);
            if e == j + 2 {
                Option::None
            } else {
                let v = hex_val(s.subrange(j + 2, e as int));
                if v > u64::MAX {
                    Option::None
                } else if quoted {
                    if e < s.len() && s[e as int] == s[i as int] {
                        Option::Some((v as u64, e + 1))
                    } else {
                        Option::None
                    }
                } else {
                    Option::Some((v as u64, e))
                }
            }
        }
    }
}

/// The field name `lit` at `i`, optionally quoted.  Yields the position
/// after it.
pub open spec fn parse_key_at(s: Seq<char>, i: nat, lit: Seq<char>) -> Option<nat> {
    if i >= s.len() {
        Option::None
    } else if is_quote(s[i as int]) {
        if lit_at(s, i + 1, lit) && i + 1 + lit.len() < s.len() && s[i as int + 1
            + lit.len() as int] == s[i as int] {
            Option::Some((i + lit.len() + 2) as nat)
        } else {
            Option::None
        }
    } else {
        if lit_at(s, i, lit) {
            Option::Some((i + lit.len()) as nat)
        } else {
            Option::None
        }
    }
}

/// A quoted, nonempty interface name at `i`.
pub open spec fn parse_name_at(s: Seq<char>, i: nat) -> Option<(Seq<char>, nat)> {
    if i >= s.len() || !is_quote(s[i as int]) {
        Option::None
    } else {
        let j = find_char(s, i + 1, s[i as int]);
        if j >= s.len() || j == i + 1 {
            Option::None
        } else {
            Option::Some((s.subrange(i as int + 1, j as int), j + 1))
        }
    }
}

/// One `'name':{rx:0x..,tx:0x..}` entry starting at `i` (whitespace
/// allowed between tokens); yields the entry and the position after `}`.
pub open spec fn parse_entry_at(s: Seq<char>, i: nat) -> Option<(BwEntry, nat)> {
    match parse_name_at(s, space_run_end(s, i)) {
        Option::None => Option::None,
        Option::Some((nm, a)) => {
            let b = space_run_end(s, a);
            if b >= s.len() || s[b as int] != ':' {
                Option::None
            } else {
                let c = space_run_end(s, b + 1);
                if c >= s.len() || s[c as int] != '{' {
                    Option::None
                } else {
                    match parse_key_at(s, space_run_end(s, c + 1), "rx"@) {
                        Option::None => Option::None,
                        Option::Some(d) => {
                            let e0 = space_run_end(s, d);
                            if e0 >= s.len() || s[e0 as int] != ':' {
                                Option::None
                            } else {
                                match parse_hex_at(s, space_run_end(s, e0 + 1)) {
                                    Option::None => Option::None,
                                    Option::Some((rxv, f)) => {
                                        let g = space_run_end(s, f);
                                        if g >= s.len() || s[g as int] != ',' {
                                            Option::None
                                        } else {
                                            parse_entry_tx(s, g + 1, nm, rxv)
                                        }
                                    },
                                }
                            }
                        },
                    }
                }
            }
        },
    }
}

/// The `tx:0x..}` half of an entry, from just after the comma.
pub open spec fn parse_entry_tx(s: Seq<char>, i: nat, nm: Seq<char>, rxv: u64) -> Option<
    (BwEntry, nat),
> {
    match parse_key_at(s, space_run_end(s, i), "tx"@) {
        Option::None => Option::None,
        Option::Some(h) => {
            let e1 = space_run_end(s, h);
            if e1 >= s.len() || s[e1 as int] != ':' {
                Option::None
            } else {
                match parse_hex_at(s, space_run_end(s, e1 + 1)) {
                    Option::None => Option::None,
                    Option::Some((txv, m)) => {
                        let z = space_run_end(s, m);
                        if z >= s.len() || s[z as int] != '}' {
                            Option::None
                        } else {
                            Option::Some(((nm, (rxv, txv)), z + 1))
                        }
                    },
                }
            }
        },
    }
}

/// The entries between the braces, and the position after the closing
/// brace.  `fuel` only bounds the recursion; any value at least the text
/// length is enough.
pub open spec fn parse_entries_at(s: Seq<char>, i: nat, fuel: nat) -> Option<(Seq<BwEntry>, nat)>
    decreases fuel,
{
    if fuel == 0 {
        Option::None
    } else {
        let j = space_run_end(s, i);
        if j < s.len() && s[j as int] == '}' {
            Option::Some((Seq::empty(), j + 1))
        } else {
            match parse_entry_at(s, i) {
                Option::None => Option::None,
                Option::Some((e, k)) => {
                    let m = space_run_end(s, k);
                    if m >= s.len() {
                        Option::None
                    } else if s[m as int] == ',' {
                        match parse_entries_at(s, m + 1, (fuel - 1) as nat) {
                            Option::None => Option::None,
                            Option::Some((rest, fin)) => Option::Some((seq![e] + rest, fin)),
                        }
                    } else if s[m as int] == '}' {
                        Option::Some((seq![e], m + 1))
                    } else {
                        Option::None
                    }
                },
            }
        }
    }
}

/// The whole fragment: an optional `netdev=` prefix, a braced entry list,
/// an optional trailing semicolon, and nothing else.
pub open spec fn netdev_spec(s: Seq<char>) -> Option<Seq<BwEntry>> {
    let i = space_run_end(s, 0);
    let j = if lit_at(s, i, "netdev="@) {
        i as int + 7
    } else {
        i as int
    };
    if j >= s.len() || s[j as int] != '{' {
        Option::None
    } else {
        match parse_entries_at(s, (j + 1) as nat, s.len()) {
            Option::None => Option::None,
            Option::Some((es, fin)) => {
                let z = space_run_end(s, fin);
                let z2 = if z < s.len() && s[z as int] == ';' {
                    space_run_end(s, z + 1)
                } else {
                    z
                };
                if z2 != s.len() {
                    Option::None
                } else {
                    Option::Some(es)
                }
            },
        }
    }
}

/// The measurement of the last entry naming `k`, if any.
pub open spec fn bw_value(es: Seq<BwEntry>, k: Seq<char>) -> Option<BandwidthMeasurement>
    decreases es.len(),
{
    if es.len() == 0 {
        Option::None
    } else {
        let rest = bw_value(es.drop_last(), k);
        if es.last().0 == k {
            Option::Some(BandwidthMeasurement { rx: es.last().1.0, tx: es.last().1.1 })
        } else {
            rest
        }
    }
}


pub proof fn lemma_pow16_pos(n: nat)
    ensures
        pow16(n) >= 1,
    decreases n,
{
    if n > 0 {
        lemma_pow16_pos((n - 1) as nat);
    }
}

pub proof fn lemma_hex_val_prefix_bound(s: Seq<char>, i: int)
    requires
        0 <= i <= s.len(),
    ensures
        hex_val(s) >= hex_val(s.take(i)) * pow16((s.len() - i) as nat),
    decreases s.len() - i,
{
    if i == s.len() {
        assert(s.take(i) =~= s);
        assert((s.len() - i) as nat == 0);
        assert(pow16((s.len() - i) as nat) == 1);
    } else {
        lemma_hex_val_prefix_bound(s.drop_last(), i);
        assert(s.drop_last().take(i) =~= s.take(i));
        let p = pow16((s.len() - 1 - i) as nat);
        let t = hex_val(s.take(i));
        assert(hex_val(s) == hex_val(s.drop_last()) * 16 + hex_digit_val(s.last()));
        assert(hex_val(s) >= t * (16 * p)) by (nonlinear_arith)
            requires
                hex_val(s) == hex_val(s.drop_last()) * 16 + hex_digit_val(s.last()),
                hex_val(s.drop_last()) >= t * p,
        ;
        assert(pow16((s.len() - i) as nat) == 16 * p);
        assert(t * (16 * p) == t * pow16((s.len() - i) as nat));
    }
}

fn is_hex_digit_exec(c: char) -> (r: bool)
    ensures
        r == is_hex_digit(c),
{
    ('0' <= c && c <= '9') || ('a' <= c && c <= 'f') || ('A' <= c && c <= 'F')
}

fn hex_digit_val_exec(c: char) -> (r: u8)
    requires
        is_hex_digit(c),
    ensures
        r as nat == hex_digit_val(c),
        r < 16,
{
    if '0' <= c && c <= '9' {
        (c as u8) - 48
    } else if 'a' <= c && c <= 'f' {
        (c as u8) - 87
    } else {
        (c as u8) - 55
    }
}

fn hex_run_end_at(v: &Vec<char>, i: usize) -> (j: usize)
    requires
        i <= v.len(),
    ensures
        j == hex_run_end(v@, i as nat),
        i <= j <= v.len(),
        j < v.len() ==> !is_hex_digit(v@[j as int]),
        forall|k: int| i <= k < j ==> is_hex_digit(#[trigger] v@[k]),
    decreases v.len() - i,
{
    let mut j = i;
    while j < v.len() && is_hex_digit_exec(v[j])
        invariant
            i <= j <= v.len(),
            hex_run_end(v@, i as nat) == hex_run_end(v@, j as nat),
            forall|k: int| i <= k < j ==> is_hex_digit(#[trigger] v@[k]),
        decreases v.len() - j,
    {
        j += 1;
    }
    j
}

/// Parses `v[start..end]`, a run of hex digits, as a `u64`; `None` exactly
/// when the value does not fit.
fn parse_hex_digits(v: &Vec<char>, start: usize, end: usize) -> (r: Option<u64>)
    requires
        start <= end <= v.len(),
        forall|k: int| start <= k < end ==> is_hex_digit(#[trigger] v@[k]),
    ensures
        match r {
            Option::Some(n) => n as nat == hex_val(v@.subrange(start as int, end as int)),
            Option::None => hex_val(v@.subrange(start as int, end as int)) > u64::MAX as nat,
        },
{
    let ghost whole = v@.subrange(start as int, end as int);
    let mut acc: u64 = 0;
    let mut k = start;
    while k < end
        invariant
            start <= k <= end <= v.len(),
            forall|j: int| start <= j < end ==> is_hex_digit(#[trigger] v@[j]),
            whole == v@.subrange(start as int, end as int),
            acc as nat == hex_val(v@.subrange(start as int, k as int)),
        decreases end - k,
    {
        let d = hex_digit_val_exec(v[k]);
        let ghost prefix = v@.subrange(start as int, k as int);
        let ghost next_prefix = v@.subrange(start as int, k + 1);
        proof {
            assert(next_prefix.drop_last() =~= prefix);
            assert(next_prefix.last() == v@[k as int]);
        }
        let step = match acc.checked_mul(16) {
            Option::Some(x) => x.checked_add(d as u64),
            Option::None => Option::None,
        };
        match step {
            Option::Some(x) => {
                acc = x;
            },
            Option::None => {
                proof {
                    assert(hex_val(next_prefix) > u64::MAX as nat);
                    lemma_hex_val_prefix_bound(whole, k + 1 - start);
                    assert(whole.take(k + 1 - start) =~= next_prefix);
                    let p = pow16((whole.len() - (k + 1 - start)) as nat);
                    lemma_pow16_pos((whole.len() - (k + 1 - start)) as nat);
                    assert(hex_val(next_prefix) * p >= hex_val(next_prefix) * 1)
                        by (nonlinear_arith)
                        requires
                            p >= 1,
                            hex_val(next_prefix) >= 0,
                    ;
                }
                return Option::None;
            },
        }
        k += 1;
    }
    proof {
        assert(v@.subrange(start as int, end as int) =~= whole);
    }
    Option::Some(acc)
}

fn is_quote_exec(c: char) -> (r: bool)
    ensures
        r == is_quote(c),
{
    c == '\'' || c == '"'
}

fn parse_hex_exec(v: &Vec<char>, i: usize) -> (r: Option<(u64, usize)>)
    requires
        i <= v.len(),
    ensures
        match r {
            Option::Some((n, j)) => parse_hex_at(v@, i as nat) == Option::Some((n, j as nat)) && i
                < j <= v.len(),
            Option::None => parse_hex_at(v@, i as nat) is None,
        },
{
    proof {
        reveal_strlit("0x");
    }
    if i >= v.len() {
        return Option::None;
    }
    let quoted = is_quote_exec(v[i]);
    let j = if quoted {
        i + 1
    } else {
        i
    };
    if v.len() < 2 || j > v.len() - 2 || v[j] != '0' || v[j + 1] != 'x' {
        proof {
            if j + 2 <= v.len() {
                assert(v@.subrange(j as int, j as int + 2) != "0x"@) by {
                    assert("0x"@.len() == 2 && "0x"@[0] == '0' && "0x"@[1] == 'x');
                }
            }
            assert(!lit_at(v@, j as nat, "0x"@));
        }
        return Option::None;
    }
    proof {
        assert(v@.subrange(j as int, j as int + 2) =~= "0x"@) by {
            assert("0x"@.len() == 2 && "0x"@[0] == '0' && "0x"@[1] == 'x');
        }
        assert(lit_at(v@, j as nat, "0x"@));
    }
    let e = hex_run_end_at(v, j + 2);
    if e == j + 2 {
        return Option::None;
    }
    match parse_hex_digits(v, j + 2, e) {
        Option::None => Option::None,
        Option::Some(val) => {
            if quoted {
                if e < v.len() && v[e] == v[i] {
                    Option::Some((val, e + 1))
                } else {
                    Option::None
                }
            } else {
                Option::Some((val, e))
            }
        },
    }
}

/// Parses a two-character field name, optionally quoted.
fn parse_key2_exec(v: &Vec<char>, i: usize, c0: char, c1: char, Ghost(lit): Ghost<Seq<char>>) -> (r:
    Option<usize>)
    requires
        i <= v.len(),
        lit == seq![c0, c1],
    ensures
        match r {
            Option::Some(j) => parse_key_at(v@, i as nat, lit) == Option::Some(j as nat) && i < j
                <= v.len(),
            Option::None => parse_key_at(v@, i as nat, lit) is None,
        },
{
    if i >= v.len() {
        return Option::None;
    }
    if is_quote_exec(v[i]) {
        if v.len() > 3 && i < v.len() - 3 && v[i + 1] == c0 && v[i + 2] == c1 && v[i + 3] == v[i] {
            proof {
                assert(v@.subrange(i as int + 1, i as int + 3) =~= lit);
                assert(lit_at(v@, (i + 1) as nat, lit));
            }
            Option::Some(i + 4)
        } else {
            proof {
                if i + 3 <= v.len() && !(v@.subrange(i as int + 1, i as int + 3) == lit) {
                }
                if i + 1 + 2 <= v.len() {
                    if v@[i as int + 1] != c0 || v@[i as int + 2] != c1 {
                        assert(v@.subrange(i as int + 1, i as int + 3) != lit) by {
                            assert(lit[0] == c0 && lit[1] == c1);
                        }
                    }
                }
            }
            Option::None
        }
    } else {
        if v.len() >= 2 && i <= v.len() - 2 && v[i] == c0 && v[i + 1] == c1 {
            proof {
                assert(v@.subrange(i as int, i as int + 2) =~= lit);
                assert(lit_at(v@, i as nat, lit));
            }
            Option::Some(i + 2)
        } else {
            proof {
                if i + 2 <= v.len() {
                    if v@[i as int] != c0 || v@[i as int + 1] != c1 {
                        assert(v@.subrange(i as int, i as int + 2) != lit) by {
                            assert(lit[0] == c0 && lit[1] == c1);
                        }
                    }
                }
            }
            Option::None
        }
    }
}

fn parse_name_exec(v: &Vec<char>, i: usize) -> (r: Option<(String, usize)>)
    requires
        i <= v.len(),
    ensures
        match r {
            Option::Some((nm, j)) => parse_name_at(v@, i as nat) == Option::Some((nm@, j as nat))
                && i < j <= v.len(),
            Option::None => parse_name_at(v@, i as nat) is None,
        },
{
    if i >= v.len() {
        return Option::None;
    }
    if !is_quote_exec(v[i]) {
        return Option::None;
    }
    let j = find_char_at(v, i + 1, v[i]);
    if j >= v.len() || j == i + 1 {
        return Option::None;
    }
    let nm = crate::text::string_of_range(v, i + 1, j);
    Option::Some((nm, j + 1))
}

fn parse_entry_exec(v: &Vec<char>, i: usize) -> (r: Option<(String, u64, u64, usize)>)
    requires
        i <= v.len(),
    ensures
        match r {
            Option::Some((nm, rxv, txv, j)) => parse_entry_at(v@, i as nat) == Option::Some(
                ((nm@, (rxv, txv)), j as nat),
            ) && i <= j <= v.len(),
            Option::None => parse_entry_at(v@, i as nat) is None,
        },
{
    proof {
        reveal_strlit("rx");
        reveal_strlit("tx");
        assert("rx"@ =~= seq!['r', 'x']);
        assert("tx"@ =~= seq!['t', 'x']);
    }
    let (nm, a) = match parse_name_exec(v, space_run_end_at(v, i)) {
        Option::Some(p) => p,
        Option::None => {
            return Option::None;
        },
    };
    let b = space_run_end_at(v, a);
    if b >= v.len() || v[b] != ':' {
        return Option::None;
    }
    let c = space_run_end_at(v, b + 1);
    if c >= v.len() || v[c] != '{' {
        return Option::None;
    }
    let d = match parse_key2_exec(v, space_run_end_at(v, c + 1), 'r', 'x', Ghost("rx"@)) {
        Option::Some(d) => d,
        Option::None => {
            return Option::None;
        },
    };
    let e0 = space_run_end_at(v, d);
    if e0 >= v.len() || v[e0] != ':' {
        return Option::None;
    }
    let (rxv, f) = match parse_hex_exec(v, space_run_end_at(v, e0 + 1)) {
        Option::Some(p) => p,
        Option::None => {
            return Option::None;
        },
    };
    let g = space_run_end_at(v, f);
    if g >= v.len() || v[g] != ',' {
        return Option::None;
    }
    let h = match parse_key2_exec(v, space_run_end_at(v, g + 1), 't', 'x', Ghost("tx"@)) {
        Option::Some(h) => h,
        Option::None => {
            return Option::None;
        },
    };
    let e1 = space_run_end_at(v, h);
    if e1 >= v.len() || v[e1] != ':' {
        return Option::None;
    }
    let (txv, m) = match parse_hex_exec(v, space_run_end_at(v, e1 + 1)) {
        Option::Some(p) => p,
        Option::None => {
            return Option::None;
        },
    };
    let z = space_run_end_at(v, m);
    if z >= v.len() || v[z] != '}' {
        return Option::None;
    }
    Option::Some((nm, rxv, txv, z + 1))
}

pub open spec fn bw_models(t: Seq<(String, BandwidthMeasurement)>) -> Seq<BwEntry> {
    t.map(|i: int, p: (String, BandwidthMeasurement)| (p.0@, (p.1.rx, p.1.tx)))
}

fn parse_entries_exec(v: &Vec<char>, i: usize, fuel: usize) -> (r: Option<
    (Vec<(String, BandwidthMeasurement)>, usize),
>)
    requires
        i <= v.len(),
    ensures
        match r {
            Option::Some((es, fin)) => parse_entries_at(v@, i as nat, fuel as nat)
                == Option::Some((bw_models(es@), fin as nat)) && fin <= v.len(),
            Option::None => parse_entries_at(v@, i as nat, fuel as nat) is None,
        },
    decreases fuel,
{
    if fuel == 0 {
        return Option::None;
    }
    let j = space_run_end_at(v, i);
    if j < v.len() && v[j] == '}' {
        let es: Vec<(String, BandwidthMeasurement)> = Vec::new();
        proof {
            assert(bw_models(es@) =~= Seq::<BwEntry>::empty());
        }
        return Option::Some((es, j + 1));
    }
    let (nm, rxv, txv, k) = match parse_entry_exec(v, i) {
        Option::Some(p) => p,
        Option::None => {
            return Option::None;
        },
    };
    let m = space_run_end_at(v, k);
    if m >= v.len() {
        return Option::None;
    }
    if v[m] == ',' {
        match parse_entries_exec(v, m + 1, fuel - 1) {
            Option::Some((rest, fin)) => {
                let ghost nm0 = nm@;
                let mut es: Vec<(String, BandwidthMeasurement)> = Vec::new();
                es.push((nm, BandwidthMeasurement { rx: rxv, tx: txv }));
                let mut w: usize = 0;
                while w < rest.len()
                    invariant
                        w <= rest.len(),
                        es@.len() == 1 + w,
                        es@[0].0@ == nm0,
                        es@[0].1 == (BandwidthMeasurement { rx: rxv, tx: txv }),
                        es@.skip(1) =~= rest@.take(w as int),
                    decreases rest.len() - w,
                {
                    let p = (rest[w].0.clone(), rest[w].1);
                    es.push(p);
                    proof {
                        assert(es@.skip(1) =~= rest@.take(w + 1));
                    }
                    w += 1;
                }
                proof {
                    assert(rest@.take(rest@.len() as int) =~= rest@);
                    assert(es@ =~= seq![es@[0]] + rest@);
                    assert(bw_models(es@) =~= seq![(nm0, (rxv, txv))] + bw_models(rest@));
                }
                Option::Some((es, fin))
            },
            Option::None => Option::None,
        }
    } else if v[m] == '}' {
        let mut es: Vec<(String, BandwidthMeasurement)> = Vec::new();
        let ghost nm0 = nm@;
        es.push((nm, BandwidthMeasurement { rx: rxv, tx: txv }));
        proof {
            assert(bw_models(es@) =~= seq![(nm0, (rxv, txv))]);
        }
        Option::Some((es, m + 1))
    } else {
        Option::None
    }
}


#[derive(Debug, Clone, PartialEq, Eq)]
pub struct BandwidthClient {
    pub client: TomatoClientInternal,
}

impl BandwidthClient {
    pub fn new(client: TomatoClientInternal) -> (r: BandwidthClient)
        ensures
            r.client == client,
    {
        BandwidthClient { client }
    }

    /// Parses the fragment into a sorted interface table, later entries
    /// overriding earlier ones of the same name.  Fails exactly when the
    /// fragment does not decode.
    #[verifier::rlimit(50)]
    pub fn parse_body(body: String) -> (r: Result<Vec<(String, BandwidthMeasurement)>, ParseError>)
        ensures
            match r {
                Result::Ok(t) => match netdev_spec(body@) {
                    Option::Some(es) => sorted_keys(t@) && forall|k: Seq<char>|
                        #![trigger lookup(t@, k)]
                        lookup(t@, k) == bw_value(es, k),
                    Option::None => false,
                },
                Result::Err(_) => netdev_spec(body@) is None,
            },
    {
        let v = chars_of(body.as_str());
        let i = space_run_end_at(&v, 0);
        proof {
            reveal_strlit("netdev=");
            assert("netdev="@ =~= seq!['n', 'e', 't', 'd', 'e', 'v', '=']);
        }
        let has_prefix = v.len() >= 7 && i <= v.len() - 7 && v[i] == 'n' && v[i + 1] == 'e' && v[i
            + 2] == 't' && v[i + 3] == 'd' && v[i + 4] == 'e' && v[i + 5] == 'v' && v[i + 6]
            == '=';
        proof {
            if has_prefix {
                assert(v@.subrange(i as int, i as int + 7) =~= "netdev="@);
                assert(lit_at(v@, i as nat, "netdev="@));
            } else {
                if i + 7 <= v.len() {
                    assert(v@.subrange(i as int, i as int + 7) != "netdev="@) by {
                        assert("netdev="@[0] == 'n' && "netdev="@[1] == 'e' && "netdev="@[2]
                            == 't' && "netdev="@[3] == 'd' && "netdev="@[4] == 'e' && "netdev="@[5]
                            == 'v' && "netdev="@[6] == '=');
                    }
                }
                assert(!lit_at(v@, i as nat, "netdev="@));
            }
        }
        let j = if has_prefix {
            i + 7
        } else {
            i
        };
        if j >= v.len() || v[j] != '{' {
            return Result::Err(ParseError);
        }
        let (es, fin) = match parse_entries_exec(&v, j + 1, v.len()) {
            Option::Some(p) => p,
            Option::None => {
                return Result::Err(ParseError);
            },
        };
        let z = space_run_end_at(&v, fin);
        let z2 = if z < v.len() && v[z] == ';' {
            space_run_end_at(&v, z + 1)
        } else {
            z
        };
        if z2 != v.len() {
            return Result::Err(ParseError);
        }
        let ghost ems = bw_models(es@);
        proof {
            assert(netdev_spec(body@) == Option::Some(ems));
        }
        let mut t: Vec<(String, BandwidthMeasurement)> = Vec::new();
        let mut w: usize = 0;
        proof {
            assert(ems.take(0) =~= Seq::<BwEntry>::empty());
        }
        while w < es.len()
            invariant
                w <= es.len(),
                ems == bw_models(es@),
                sorted_keys(t@),
                forall|k: Seq<char>| #![trigger lookup(t@, k)]
                    lookup(t@, k) == bw_value(ems.take(w as int), k),
            decreases es.len() - w,
        {
            let ghost pre = ems.take(w as int);
            let ghost cur = ems.take(w + 1);
            proof {
                assert(cur.drop_last() =~= pre);
                assert(cur.last() == ems[w as int]);
            }
            let key = es[w].0.clone();
            let ghost nm = key@;
            upsert(&mut t, key, es[w].1);
            proof {
                assert forall|k: Seq<char>| #![trigger lookup(t@, k)]
                    lookup(t@, k) == bw_value(cur, k) by {
                    if k == nm {
                        assert(bw_value(cur, k) == Option::Some(
                            BandwidthMeasurement { rx: ems[w as int].1.0, tx: ems[w as int].1.1 },
                        ));
                        assert(es@[w as int].1 == BandwidthMeasurement {
                            rx: ems[w as int].1.0,
                            tx: ems[w as int].1.1,
                        });
                    } else {
                        assert(bw_value(cur, k) == bw_value(pre, k));
                    }
                }
            }
            w += 1;
        }
        proof {
            assert(ems.take(es@.len() as int) =~= ems);
        }
        Result::Ok(t)
    }
}

/// The receive samples: one per interface whose receive counter is
/// nonzero, in table order.  A direction at exactly zero is suppressed so
/// that inactive interfaces are not listed forever.
pub open spec fn bw_rx_samples(t: Seq<(String, BandwidthMeasurement)>) -> Seq<
    crate::prometheus::SampleModel,
>
    decreases t.len(),
{
    if t.len() == 0 {
        Seq::empty()
    } else {
        bw_rx_samples(t.drop_last()) + if t.last().1.rx > 0 {
            seq![
                (
                    seq![("device"@, t.last().0@)],
                    MetricValue { units: t.last().1.rx, frac: 0, scale: 0 },
                    Option::<u64>::None,
                ),
            ]
        } else {
            Seq::empty()
        }
    }
}

/// The transmit samples, likewise.
pub open spec fn bw_tx_samples(t: Seq<(String, BandwidthMeasurement)>) -> Seq<
    crate::prometheus::SampleModel,
>
    decreases t.len(),
{
    if t.len() == 0 {
        Seq::empty()
    } else {
        bw_tx_samples(t.drop_last()) + if t.last().1.tx > 0 {
            seq![
                (
                    seq![("device"@, t.last().0@)],
                    MetricValue { units: t.last().1.tx, frac: 0, scale: 0 },
                    Option::<u64>::None,
                ),
            ]
        } else {
            Seq::empty()
        }
    }
}

fn bw_device_sample(name: &String, value: u64) -> (s: crate::prometheus::PromSample)
    ensures
        crate::prometheus::sample_model(s) == (
            seq![("device"@, name@)],
            MetricValue { units: value, frac: 0, scale: 0 },
            Option::<u64>::None,
        ),
{
    let mut labels: Vec<crate::prometheus::PromLabel> = Vec::new();
    labels.push(crate::prometheus::PromLabel::new("device", name.clone()));
    let s = crate::prometheus::PromSample::new(labels, MetricValue::from_int(value), Option::None);
    proof {
        assert(crate::prometheus::sample_model(s) =~~= (
            seq![("device"@, name@)],
            MetricValue { units: value, frac: 0, scale: 0 },
            Option::<u64>::None,
        ));
    }
    s
}

impl BandwidthClient {
    /// Projects the table to the receive and transmit counters, in table
    /// order, skipping a direction whose byte counter is zero.
    pub fn raw_to_prom(raw_metrics: Vec<(String, BandwidthMeasurement)>) -> (r: Vec<
        crate::prometheus::PromMetric,
    >)
        ensures
            crate::prometheus::metrics_model(r@) == seq![
                (
                    "node_network_receive_bytes_total"@,
                    "Network device statistic receive_bytes"@,
                    crate::prometheus::PromMetricType::Counter,
                    bw_rx_samples(raw_metrics@),
                ),
                (
                    "node_network_transmit_bytes_total"@,
                    "Network device statistic transmit_bytes"@,
                    crate::prometheus::PromMetricType::Counter,
                    bw_tx_samples(raw_metrics@),
                ),
            ],
    {
        let mut rx: Vec<crate::prometheus::PromSample> = Vec::new();
        let mut i: usize = 0;
        proof {
            assert(raw_metrics@.take(0) =~= Seq::<(String, BandwidthMeasurement)>::empty());
            assert(crate::prometheus::samples_model(rx@) =~= bw_rx_samples(raw_metrics@.take(0)));
        }
        while i < raw_metrics.len()
            invariant
                i <= raw_metrics.len(),
                crate::prometheus::samples_model(rx@) == bw_rx_samples(raw_metrics@.take(i as int)),
            decreases raw_metrics.len() - i,
        {
            if raw_metrics[i].1.rx > 0 {
                let s = bw_device_sample(&raw_metrics[i].0, raw_metrics[i].1.rx);
                rx.push(s);
            }
            proof {
                let part = raw_metrics@.take(i + 1);
                assert(part.drop_last() =~= raw_metrics@.take(i as int));
                assert(part.last() == raw_metrics@[i as int]);
                assert(crate::prometheus::samples_model(rx@) =~= bw_rx_samples(part));
            }
            i += 1;
        }
        let mut tx: Vec<crate::prometheus::PromSample> = Vec::new();
        let mut j: usize = 0;
        proof {
            assert(raw_metrics@.take(raw_metrics@.len() as int) =~= raw_metrics@);
            assert(crate::prometheus::samples_model(tx@) =~= bw_tx_samples(raw_metrics@.take(0)));
        }
        while j < raw_metrics.len()
            invariant
                j <= raw_metrics.len(),
                crate::prometheus::samples_model(rx@) == bw_rx_samples(
                    raw_metrics@.take(raw_metrics@.len() as int),
                ),
                crate::prometheus::samples_model(tx@) == bw_tx_samples(raw_metrics@.take(j as int)),
            decreases raw_metrics.len() - j,
        {
            if raw_metrics[j].1.tx > 0 {
                let s = bw_device_sample(&raw_metrics[j].0, raw_metrics[j].1.tx);
                tx.push(s);
            }
            proof {
                let part = raw_metrics@.take(j + 1);
                assert(part.drop_last() =~= raw_metrics@.take(j as int));
                assert(part.last() == raw_metrics@[j as int]);
                assert(crate::prometheus::samples_model(tx@) =~= bw_tx_samples(part));
            }
            j += 1;
        }
        let m_rx = crate::prometheus::PromMetric::new(
            "node_network_receive_bytes_total",
            "Network device statistic receive_bytes",
            crate::prometheus::PromMetricType::Counter,
            rx,
        );
        let m_tx = crate::prometheus::PromMetric::new(
            "node_network_transmit_bytes_total",
            "Network device statistic transmit_bytes",
            crate::prometheus::PromMetricType::Counter,
            tx,
        );
        let mut r: Vec<crate::prometheus::PromMetric> = Vec::new();
        r.push(m_rx);
        r.push(m_tx);
        proof {
            assert(raw_metrics@.take(raw_metrics@.len() as int) =~= raw_metrics@);
            assert(crate::prometheus::metrics_model(r@) =~= seq![
                crate::prometheus::metric_model(r@[0]),
                crate::prometheus::metric_model(r@[1]),
            ]);
            assert(crate::prometheus::metric_model(r@[0]) =~~= (
                "node_network_receive_bytes_total"@,
                "Network device statistic receive_bytes"@,
                crate::prometheus::PromMetricType::Counter,
                bw_rx_samples(raw_metrics@),
            ));
            assert(crate::prometheus::metric_model(r@[1]) =~~= (
                "node_network_transmit_bytes_total"@,
                "Network device statistic transmit_bytes"@,
                crate::prometheus::PromMetricType::Counter,
                bw_tx_samples(raw_metrics@),
            ));
            assert(crate::prometheus::metrics_model(r@) =~= seq![
                (
                    "node_network_receive_bytes_total"@,
                    "Network device statistic receive_bytes"@,
                    crate::prometheus::PromMetricType::Counter,
                    bw_rx_samples(raw_metrics@),
                ),
                (
                    "node_network_transmit_bytes_total"@,
                    "Network device statistic transmit_bytes"@,
                    crate::prometheus::PromMetricType::Counter,
                    bw_tx_samples(raw_metrics@),
                ),
            ]);
        }
        r
    }
}

pub open spec fn hex_digit_char(d: nat) -> char {
    if d == 0 {
        '0'
    } else if d == 1 {
        '1'
    } else if d == 2 {
        '2'
    } else if d == 3 {
        '3'
    } else if d == 4 {
        '4'
    } else if d == 5 {
        '5'
    } else if d == 6 {
        '6'
    } else if d == 7 {
        '7'
    } else if d == 8 {
        '8'
    } else if d == 9 {
        '9'
    } else if d == 10 {
        'a'
    } else if d == 11 {
        'b'
    } else if d == 12 {
        'c'
    } else if d == 13 {
        'd'
    } else if d == 14 {
        'e'
    } else {
        'f'
    }
}

/// The lowercase hex digit string of `n`, without leading zeros.
pub open spec fn hex_digits(n: nat) -> Seq<char>
    decreases n,
{
    if n < 16 {
        seq![hex_digit_char(n)]
    } else {
        hex_digits(n / 16).push(hex_digit_char(n % 16))
    }
}

fn hex_digit_to_char(d: u8) -> (c: char)
    requires
        d < 16,
    ensures
        c == hex_digit_char(d as nat),
{
    if d == 0 {
        '0'
    } else if d == 1 {
        '1'
    } else if d == 2 {
        '2'
    } else if d == 3 {
        '3'
    } else if d == 4 {
        '4'
    } else if d == 5 {
        '5'
    } else if d == 6 {
        '6'
    } else if d == 7 {
        '7'
    } else if d == 8 {
        '8'
    } else if d == 9 {
        '9'
    } else if d == 10 {
        'a'
    } else if d == 11 {
        'b'
    } else if d == 12 {
        'c'
    } else if d == 13 {
        'd'
    } else if d == 14 {
        'e'
    } else {
        'f'
    }
}

/// The lowercase hex digit characters of `n`.
pub fn hex_digit_chars(n: u64) -> (r: Vec<char>)
    ensures
        r@ == hex_digits(n as nat),
    decreases n,
{
    if n < 16 {
        let mut r: Vec<char> = Vec::new();
        r.push(hex_digit_to_char(n as u8));
        r
    } else {
        let mut r = hex_digit_chars(n / 16);
        r.push(hex_digit_to_char((n % 16) as u8));
        r
    }
}

pub open spec fn entry_rendered(e: BwEntry) -> Seq<char> {
    "'"@ + e.0 + "':{rx:0x"@ + hex_digits(e.1.0 as nat) + ",tx:0x"@ + hex_digits(e.1.1 as nat)
        + "}"@
}

pub open spec fn entries_parts(es: Seq<BwEntry>) -> Seq<Seq<char>> {
    es.map(|i: int, e: BwEntry| entry_rendered(e))
}

/// The device's own wire form of a table: single-quoted names, bare
/// `rx`/`tx` keys, lowercase hex counters, no whitespace.
pub open spec fn netdev_rendered(es: Seq<BwEntry>) -> Seq<char> {
    "netdev={"@ + joined(entries_parts(es), ","@) + "};"@
}

/// Renders a table in the device's own wire form.
pub fn render_netdev(t: &Vec<(String, BandwidthMeasurement)>) -> (r: String)
    ensures
        r@ == netdev_rendered(bw_models(t@)),
{
    let mut out = String::from_str("netdev={");
    let ghost ems = bw_models(t@);
    let mut i: usize = 0;
    while i < t.len()
        invariant
            i <= t.len(),
            ems == bw_models(t@),
            out@ == "netdev={"@ + joined(entries_parts(ems).take(i as int), ","@),
        decreases t.len() - i,
    {
        if i > 0 {
            out.append(",");
        }
        out.append("'");
        out.append(t[i].0.as_str());
        out.append("':{rx:0x");
        let rxd = hex_digit_chars(t[i].1.rx);
        crate::value::append_chars(&mut out, &rxd);
        out.append(",tx:0x");
        let txd = hex_digit_chars(t[i].1.tx);
        crate::value::append_chars(&mut out, &txd);
        out.append("}");
        proof {
            crate::prometheus::lemma_joined_snoc(entries_parts(ems), ","@, i as int);
            assert(entries_parts(ems)[i as int] == entry_rendered(ems[i as int]));
            assert(out@ =~= "netdev={"@ + joined(entries_parts(ems).take(i + 1), ","@));
        }
        i += 1;
    }
    proof {
        assert(entries_parts(ems).take(ems.len() as int) =~= entries_parts(ems));
    }
    out.append("};");
    proof {
        assert(out@ =~= netdev_rendered(ems));
    }
    out
}


proof fn lemma_bw_samples_congruent(
    t1: Seq<(String, BandwidthMeasurement)>,
    t2: Seq<(String, BandwidthMeasurement)>,
)
    requires
        t1.len() == t2.len(),
        forall|i: int| 0 <= i < t1.len() ==> (#[trigger] t1[i].0@) == t2[i].0@ && t1[i].1
            == t2[i].1,
    ensures
        bw_rx_samples(t1) == bw_rx_samples(t2),
        bw_tx_samples(t1) == bw_tx_samples(t2),
    decreases t1.len(),
{
    if t1.len() > 0 {
        assert forall|i: int|
            0 <= i < t1.drop_last().len() implies (#[trigger] t1.drop_last()[i].0@)
            == t2.drop_last()[i].0@ && t1.drop_last()[i].1 == t2.drop_last()[i].1 by {
            assert(t1.drop_last()[i] == t1[i] && t2.drop_last()[i] == t2[i]);
        }
        lemma_bw_samples_congruent(t1.drop_last(), t2.drop_last());
        assert(t1.last().0@ == t2.last().0@ && t1.last().1 == t2.last().1);
    }
}

/// Sorted interface tables holding the same counters project to the very
/// same samples, in lexicographic interface order: the document cannot
/// depend on the order in which the device listed the interfaces.
pub proof fn lemma_bandwidth_projection_canonical(
    t1: Seq<(String, BandwidthMeasurement)>,
    t2: Seq<(String, BandwidthMeasurement)>,
)
    requires
        sorted_keys(t1),
        sorted_keys(t2),
        forall|k: Seq<char>| #![trigger lookup(t1, k)] lookup(t1, k) == lookup(t2, k),
    ensures
        bw_rx_samples(t1) == bw_rx_samples(t2),
        bw_tx_samples(t1) == bw_tx_samples(t2),
{
    crate::table::lemma_sorted_lookup_determines(t1, t2);
    assert forall|i: int|
        0 <= i < t1.len() implies (#[trigger] t1[i].0@) == t2[i].0@ && t1[i].1 == t2[i].1 by {
        assert(t1[i].0@ == t2[i].0@ && t1[i].1 == t2[i].1);
    }
    lemma_bw_samples_congruent(t1, t2);
}


/// A name the renderer can quote safely: nonempty, without single quotes.
pub open spec fn wf_name(nm: Seq<char>) -> bool {
    nm.len() > 0 && forall|k: int| 0 <= k < nm.len() ==> (#[trigger] nm[k]) != '\''
}

pub open spec fn wf_entries(es: Seq<BwEntry>) -> bool {
    forall|i: int| 0 <= i < es.len() ==> wf_name((#[trigger] es[i]).0)
}

proof fn lemma_find_char_is(s: Seq<char>, i: nat, j: nat, c: char)
    requires
        i <= j < s.len(),
        s[j as int] == c,
        forall|k: int| i <= k < j ==> s[k] != c,
    ensures
        find_char(s, i, c) == j,
    decreases j - i,
{
    if i < j {
        lemma_find_char_is(s, i + 1, j, c);
    }
}

proof fn lemma_hex_run_is(s: Seq<char>, i: nat, j: nat)
    requires
        i <= j <= s.len(),
        forall|k: int| i <= k < j ==> is_hex_digit(#[trigger] s[k]),
        j == s.len() || !is_hex_digit(s[j as int]),
    ensures
        hex_run_end(s, i) == j,
    decreases j - i,
{
    if i < j {
        lemma_hex_run_is(s, i + 1, j);
    }
}

proof fn lemma_hex_digit_char_val(d: nat)
    requires
        d < 16,
    ensures
        is_hex_digit(hex_digit_char(d)),
        hex_digit_val(hex_digit_char(d)) == d,
{
}

proof fn lemma_hex_digits_wf(n: nat)
    ensures
        hex_digits(n).len() >= 1,
        forall|k: int| 0 <= k < hex_digits(n).len() ==> is_hex_digit(#[trigger] hex_digits(n)[k]),
        hex_val(hex_digits(n)) == n,
    decreases n,
{
    if n < 16 {
        lemma_hex_digit_char_val(n);
        reveal_with_fuel(hex_val, 3);
        assert(hex_digits(n) =~= seq![hex_digit_char(n)]);
        assert(hex_digits(n).drop_last() =~= Seq::<char>::empty());
    } else {
        lemma_hex_digits_wf(n / 16);
        lemma_hex_digit_char_val(n % 16);
        let h = hex_digits(n);
        assert(h == hex_digits(n / 16).push(hex_digit_char(n % 16)));
        assert(h.drop_last() =~= hex_digits(n / 16));
        assert(h.last() == hex_digit_char(n % 16));
        assert(hex_val(h) == hex_val(hex_digits(n / 16)) * 16 + hex_digit_val(
            hex_digit_char(n % 16),
        ));
        assert(hex_val(h) == (n / 16) * 16 + n % 16);
        assert forall|k: int| 0 <= k < h.len() implies is_hex_digit(#[trigger] h[k]) by {
            if k < h.len() - 1 {
                assert(h[k] == hex_digits(n / 16)[k]);
            }
        }
    }
}

/// A rendered hex literal parses back to its value.
proof fn lemma_parse_hex_of_rendered(s: Seq<char>, i: nat, n: u64)
    requires
        i + 2 + hex_digits(n as nat).len() < s.len(),
        s[i as int] == '0',
        s[i as int + 1] == 'x',
        s.subrange(i as int + 2, i as int + 2 + hex_digits(n as nat).len() as int) == hex_digits(
            n as nat,
        ),
        !is_hex_digit(s[i as int + 2 + hex_digits(n as nat).len() as int]),
    ensures
        parse_hex_at(s, i) == Option::Some((n, (i + 2 + hex_digits(n as nat).len()) as nat)),
{
    reveal_strlit("0x");
    lemma_hex_digits_wf(n as nat);
    let hd = hex_digits(n as nat);
    assert(!is_quote(s[i as int]));
    assert(s.subrange(i as int, i as int + 2) =~= "0x"@) by {
        assert("0x"@.len() == 2 && "0x"@[0] == '0' && "0x"@[1] == 'x');
    }
    assert(lit_at(s, i, "0x"@));
    assert forall|k: int| i + 2 <= k < i + 2 + hd.len() implies is_hex_digit(
        #[trigger] s[k],
    ) by {
        assert(s[k] == hd[k - (i + 2)]);
    }
    lemma_hex_run_is(s, (i + 2) as nat, (i + 2 + hd.len()) as nat);
    assert(s.subrange(i as int + 2, i as int + 2 + hd.len() as int) == hd);
    assert(hex_val(s.subrange(i as int + 2, i as int + 2 + hd.len() as int)) == n as nat);
}

/// A rendered entry parses back to itself.
#[verifier::rlimit(100)]
proof fn lemma_parse_entry_of_rendered(s: Seq<char>, i: nat, e: BwEntry)
    requires
        wf_name(e.0),
        i + entry_rendered(e).len() < s.len() + 1,
        s.subrange(i as int, i as int + entry_rendered(e).len() as int) == entry_rendered(e),
    ensures
        parse_entry_at(s, i) == Option::Some((e, (i + entry_rendered(e).len()) as nat)),
{
    reveal_strlit("'");
    reveal_strlit("':{rx:0x");
    reveal_strlit(",tx:0x");
    reveal_strlit("}");
    reveal_strlit("rx");
    reveal_strlit("tx");
    lemma_hex_digits_wf(e.1.0 as nat);
    lemma_hex_digits_wf(e.1.1 as nat);
    let er = entry_rendered(e);
    let nl = e.0.len() as int;
    let rd = hex_digits(e.1.0 as nat).len() as int;
    let td = hex_digits(e.1.1 as nat).len() as int;
    assert("'"@.len() == 1 && "'"@[0] == '\'');
    assert("':{rx:0x"@.len() == 8 && "':{rx:0x"@[0] == '\'' && "':{rx:0x"@[1] == ':'
        && "':{rx:0x"@[2] == '{' && "':{rx:0x"@[3] == 'r' && "':{rx:0x"@[4] == 'x'
        && "':{rx:0x"@[5] == ':' && "':{rx:0x"@[6] == '0' && "':{rx:0x"@[7] == 'x');
    assert(",tx:0x"@.len() == 6 && ",tx:0x"@[0] == ',' && ",tx:0x"@[1] == 't' && ",tx:0x"@[2]
        == 'x' && ",tx:0x"@[3] == ':' && ",tx:0x"@[4] == '0' && ",tx:0x"@[5] == 'x');
    assert("}"@.len() == 1 && "}"@[0] == '}');
    assert(er.len() == 16 + nl + rd + td);
    let b = i as int;
    let sub = s.subrange(b, b + er.len() as int);
    // character map of the rendered entry, position by position
    assert forall|k: int| 0 <= k < er.len() implies s[b + k] == er[k] by {
        assert(sub[k] == s[b + k]);
        assert(sub[k] == er[k]);
    }
    let hd0 = hex_digits(e.1.0 as nat);
    let hd1 = hex_digits(e.1.1 as nat);
    let p0 = "'"@ + e.0;
    let p1 = p0 + "':{rx:0x"@;
    let p2 = p1 + hd0;
    let p3 = p2 + ",tx:0x"@;
    let p4 = p3 + hd1;
    assert(er == p4 + "}"@);
    assert(p0.len() == 1 + nl && p1.len() == 9 + nl && p2.len() == 9 + nl + rd && p3.len() == 15
        + nl + rd && p4.len() == 15 + nl + rd + td);
    assert(er[0] == '\'');
    assert(forall|k: int| 0 <= k < nl ==> er[1 + k] == e.0[k]);
    assert(er[1 + nl] == '\'');
    assert(er[2 + nl] == ':');
    assert(er[3 + nl] == '{');
    assert(er[4 + nl] == 'r');
    assert(er[5 + nl] == 'x');
    assert(er[6 + nl] == ':');
    assert(er[7 + nl] == '0');
    assert(er[8 + nl] == 'x');
    assert(forall|k: int| 0 <= k < rd ==> er[9 + nl + k] == hd0[k]);
    assert(er[9 + nl + rd] == ',');
    assert(er[10 + nl + rd] == 't');
    assert(er[11 + nl + rd] == 'x');
    assert(er[12 + nl + rd] == ':');
    assert(er[13 + nl + rd] == '0');
    assert(er[14 + nl + rd] == 'x');
    assert(forall|k: int| 0 <= k < td ==> er[15 + nl + rd + k] == hd1[k]);
    assert(er[15 + nl + rd + td] == '}');
    assert(s[b] == '\'');
    assert forall|k: int| 0 <= k < nl implies s[b + 1 + k] == e.0[k] by {
        assert(s[b + (1 + k)] == er[1 + k]);
    }
    assert(s[b + (1 + nl)] == '\'');
    assert(s[b + (2 + nl)] == ':');
    assert(s[b + (3 + nl)] == '{');
    assert(s[b + (4 + nl)] == 'r');
    assert(s[b + (5 + nl)] == 'x');
    assert(s[b + (6 + nl)] == ':');
    assert(s[b + (7 + nl)] == '0');
    assert(s[b + (8 + nl)] == 'x');
    assert forall|k: int| 0 <= k < rd implies s[b + (9 + nl) + k] == hd0[k] by {
        assert(s[b + (9 + nl + k)] == er[9 + nl + k]);
    }
    assert(s[b + (9 + nl + rd)] == ',');
    assert(s[b + (10 + nl + rd)] == 't');
    assert(s[b + (11 + nl + rd)] == 'x');
    assert(s[b + (12 + nl + rd)] == ':');
    assert(s[b + (13 + nl + rd)] == '0');
    assert(s[b + (14 + nl + rd)] == 'x');
    assert forall|k: int| 0 <= k < td implies s[b + (15 + nl + rd) + k] == hd1[k] by {
        assert(s[b + (15 + nl + rd + k)] == er[15 + nl + rd + k]);
    }
    assert(s[b + (15 + nl + rd + td)] == '}');
    // name
    assert(space_run_end(s, i) == i);
    assert(is_quote(s[b]));
    assert forall|k: int| i + 1 <= k < i + 1 + nl implies s[k] != '\'' by {
        assert(s[k] == e.0[k - (b + 1)]);
    }
    lemma_find_char_is(s, (i + 1) as nat, (i + 1 + nl) as nat, '\'');
    assert(s.subrange(b + 1, b + 1 + nl) =~= e.0);
    assert(parse_name_at(s, i) == Option::Some((e.0, (i + nl + 2) as nat)));
    // ':' and '{'
    let a = (i + nl + 2) as nat;
    assert(space_run_end(s, a) == a);
    assert(space_run_end(s, a + 1) == a + 1);
    // rx key
    let c1 = (a + 2) as nat;
    assert(space_run_end(s, c1) == c1);
    assert(!is_quote(s[c1 as int]));
    assert("rx"@.len() == 2 && "rx"@[0] == 'r' && "rx"@[1] == 'x');
    assert(s.subrange(c1 as int, c1 as int + 2) =~= "rx"@);
    assert(lit_at(s, c1, "rx"@));
    assert(parse_key_at(s, c1, "rx"@) == Option::Some((c1 + 2) as nat));
    // rx value
    let h1 = (c1 + 3) as nat;
    assert(space_run_end(s, (c1 + 2) as nat) == c1 + 2);
    assert(space_run_end(s, h1) == h1);
    assert(s.subrange(h1 as int + 2, h1 as int + 2 + rd) =~= hex_digits(e.1.0 as nat));
    lemma_parse_hex_of_rendered(s, h1, e.1.0);
    let f = (h1 + 2 + rd) as nat;
    assert(parse_hex_at(s, h1) == Option::Some((e.1.0, f)));
    // comma, tx key
    assert(space_run_end(s, f) == f);
    assert(s[f as int] == ',');
    let c2 = (f + 1) as nat;
    assert(space_run_end(s, c2) == c2);
    assert(!is_quote(s[c2 as int]));
    assert("tx"@.len() == 2 && "tx"@[0] == 't' && "tx"@[1] == 'x');
    assert(s.subrange(c2 as int, c2 as int + 2) =~= "tx"@);
    assert(parse_key_at(s, c2, "tx"@) == Option::Some((c2 + 2) as nat));
    // tx value
    assert(space_run_end(s, (c2 + 2) as nat) == c2 + 2);
    let h2 = (c2 + 3) as nat;
    assert(space_run_end(s, h2) == h2);
    assert(s.subrange(h2 as int + 2, h2 as int + 2 + td) =~= hex_digits(e.1.1 as nat));
    lemma_parse_hex_of_rendered(s, h2, e.1.1);
    let m = (h2 + 2 + td) as nat;
    assert(parse_hex_at(s, h2) == Option::Some((e.1.1, m)));
    // closing brace
    assert(space_run_end(s, m) == m);
    assert(s[m as int] == '}');
    assert(parse_entry_tx(s, c2, e.0, e.1.0) == Option::Some((e, m + 1)));
    assert(m + 1 == i + er.len());
    assert((e.0, (e.1.0, e.1.1)) == e);
}


/// The rendered text of the entries and their closing brace.
pub open spec fn entries_tail(es: Seq<BwEntry>) -> Seq<char> {
    joined(entries_parts(es), ","@) + "}"@
}

proof fn lemma_entry_rendered_len(e: BwEntry)
    ensures
        entry_rendered(e).len() == 16 + e.0.len() + hex_digits(e.1.0 as nat).len() + hex_digits(
            e.1.1 as nat,
        ).len(),
        entry_rendered(e).len() >= 18,
{
    reveal_strlit("'");
    reveal_strlit("':{rx:0x");
    reveal_strlit(",tx:0x");
    reveal_strlit("}");
    lemma_hex_digits_wf(e.1.0 as nat);
    lemma_hex_digits_wf(e.1.1 as nat);
}

/// The rendered entry list parses back to itself.
#[verifier::rlimit(100)]
proof fn lemma_parse_entries_of_rendered(s: Seq<char>, i: nat, es: Seq<BwEntry>, fuel: nat)
    requires
        wf_entries(es),
        fuel >= es.len() + 1,
        i + entries_tail(es).len() <= s.len(),
        s.subrange(i as int, i as int + entries_tail(es).len() as int) == entries_tail(es),
    ensures
        parse_entries_at(s, i, fuel) == Option::Some(
            (es, (i + entries_tail(es).len()) as nat),
        ),
    decreases es.len(),
{
    reveal_strlit("}");
    reveal_strlit(",");
    assert("}"@.len() == 1 && "}"@[0] == '}');
    assert(","@.len() == 1 && ","@[0] == ',');
    let et = entries_tail(es);
    let sub = s.subrange(i as int, i as int + et.len() as int);
    if es.len() == 0 {
        assert(entries_parts(es).len() == 0);
        assert(joined(entries_parts(es), ","@) == Seq::<char>::empty());
        assert(et =~= "}"@);
        assert(et.len() == 1);
        assert(s[i as int] == '}') by {
            assert(sub[0] == s[i as int]);
            assert(sub[0] == et[0]);
        }
        assert(space_run_end(s, i) == i);
        assert(parse_entries_at(s, i, fuel) == Option::Some((Seq::<BwEntry>::empty(), i + 1)));
        assert(es =~= Seq::<BwEntry>::empty());
    } else {
        let e0 = es[0];
        assert(wf_name(e0.0));
        let er = entry_rendered(e0);
        lemma_entry_rendered_len(e0);
        let parts = entries_parts(es);
        assert(parts[0] == er);
        reveal_strlit("'");
        assert("'"@.len() == 1 && "'"@[0] == '\'');
        assert(er[0] == '\'');
        if es.len() == 1 {
            assert(joined(parts, ","@) == er);
            assert(et =~= er + "}"@);
            assert(et.len() == er.len() + 1);
            assert(s.subrange(i as int, i as int + er.len() as int) =~= er) by {
                assert forall|k: int|
                    0 <= k < er.len() implies s.subrange(
                    i as int,
                    i as int + er.len() as int,
                )[k] == er[k] by {
                    assert(s.subrange(i as int, i as int + er.len() as int)[k] == s[i + k]);
                    assert(sub[k] == s[i + k]);
                    assert(sub[k] == et[k]);
                    assert(et[k] == er[k]);
                }
            }
            lemma_parse_entry_of_rendered(s, i, e0);
            assert(s[i as int] == '\'') by {
                assert(sub[0] == s[i as int]);
            }
            assert(space_run_end(s, i) == i);
            let fin = i + er.len();
            assert(s[fin as int] == '}') by {
                assert(sub[er.len() as int] == s[fin as int]);
                assert(et[er.len() as int] == '}');
            }
            assert(space_run_end(s, fin) == fin);
            assert(parse_entries_at(s, i, fuel) == Option::Some((seq![e0], fin + 1)));
            assert(seq![e0] =~= es);
        } else {
            lemma_joined_cons(parts, ","@);
            let es1 = es.drop_first();
            assert(wf_entries(es1)) by {
                assert(forall|m: int| 0 <= m < es1.len() ==> (#[trigger] es1[m]) == es[m + 1]);
            }
            assert(entries_parts(es1) =~= parts.drop_first());
            let et1 = entries_tail(es1);
            assert(et =~= er + ","@ + et1);
            assert(et.len() == er.len() + 1 + et1.len());
            assert(s.subrange(i as int, i as int + er.len() as int) =~= er) by {
                assert forall|k: int|
                    0 <= k < er.len() implies s.subrange(
                    i as int,
                    i as int + er.len() as int,
                )[k] == er[k] by {
                    assert(s.subrange(i as int, i as int + er.len() as int)[k] == s[i + k]);
                    assert(sub[k] == s[i + k]);
                    assert(sub[k] == et[k]);
                    assert(et[k] == (er + ","@ + et1)[k]);
                }
            }
            lemma_parse_entry_of_rendered(s, i, e0);
            assert(s[i as int] == '\'') by {
                assert(sub[0] == s[i as int]);
            }
            assert(space_run_end(s, i) == i);
            let fin = i + er.len();
            assert(s[fin as int] == ',') by {
                assert(sub[er.len() as int] == s[fin as int]);
                assert(et[er.len() as int] == ',');
            }
            assert(space_run_end(s, fin) == fin);
            assert(s.subrange(fin as int + 1, fin as int + 1 + et1.len() as int) =~= et1) by {
                assert forall|k: int|
                    0 <= k < et1.len() implies s.subrange(
                    fin as int + 1,
                    fin as int + 1 + et1.len() as int,
                )[k] == et1[k] by {
                    assert(s.subrange(fin as int + 1, fin as int + 1 + et1.len() as int)[k] == s[
                        fin + 1 + k]);
                    assert(sub[er.len() + 1 + k] == s[fin + 1 + k]);
                    assert(sub[er.len() + 1 + k] == et[er.len() + 1 + k]);
                    assert(et[er.len() + 1 + k] == et1[k]);
                }
            }
            lemma_parse_entries_of_rendered(s, (fin + 1) as nat, es1, (fuel - 1) as nat);
            assert(parse_entries_at(s, (fin + 1) as nat, (fuel - 1) as nat) == Option::Some(
                (es1, (fin + 1 + et1.len()) as nat),
            ));
            assert(parse_entries_at(s, i, fuel) == Option::Some(
                (seq![e0] + es1, (fin + 1 + et1.len()) as nat),
            ));
            assert(seq![e0] + es1 =~= es);
            assert(fin + 1 + et1.len() == i + et.len());
        }
    }
}

/// Round trip: a table rendered in the device's own wire form parses back
/// to exactly the same entries, whatever the interface names and counter
/// values, as long as each name is nonempty and free of single quotes.
#[verifier::rlimit(100)]
pub proof fn lemma_netdev_round_trip(es: Seq<BwEntry>)
    requires
        wf_entries(es),
    ensures
        netdev_spec(netdev_rendered(es)) == Option::Some(es),
{
    reveal_strlit("netdev={");
    reveal_strlit("netdev=");
    reveal_strlit("};");
    reveal_strlit(";");
    assert("netdev={"@.len() == 8 && "netdev={"@[0] == 'n' && "netdev={"@[1] == 'e'
        && "netdev={"@[2] == 't' && "netdev={"@[3] == 'd' && "netdev={"@[4] == 'e'
        && "netdev={"@[5] == 'v' && "netdev={"@[6] == '=' && "netdev={"@[7] == '{');
    assert("netdev="@.len() == 7 && "netdev="@[0] == 'n' && "netdev="@[1] == 'e' && "netdev="@[2]
        == 't' && "netdev="@[3] == 'd' && "netdev="@[4] == 'e' && "netdev="@[5] == 'v'
        && "netdev="@[6] == '=');
    assert("};"@.len() == 2 && "};"@[0] == '}' && "};"@[1] == ';');
    let st = netdev_rendered(es);
    let et = entries_tail(es);
    reveal_strlit(";");
    reveal_strlit("}");
    assert(";"@.len() == 1 && ";"@[0] == ';');
    assert("}"@.len() == 1 && "}"@[0] == '}');
    assert(st =~= "netdev={"@ + et + ";"@);
    assert(st.len() == 9 + et.len());
    assert(forall|k: int| 0 <= k < 8 ==> st[k] == "netdev={"@[k]);
    assert(st[0] == 'n');
    assert(space_run_end(st, 0) == 0);
    assert(st.subrange(0, 7) =~= "netdev="@);
    assert(lit_at(st, 0, "netdev="@));
    assert(st[7] == '{');
    assert(st.subrange(8, 8 + et.len() as int) =~= et) by {
        assert forall|k: int| 0 <= k < et.len() implies st.subrange(8, 8 + et.len() as int)[k]
            == et[k] by {
            assert(st.subrange(8, 8 + et.len() as int)[k] == st[8 + k]);
            assert(st[8 + k] == ("netdev={"@ + et + ";"@)[8 + k]);
        }
    }
    lemma_entries_len_bound(es);
    assert(st.len() >= es.len() + 1);
    lemma_parse_entries_of_rendered(st, 8, es, st.len());
    let fin = (8 + et.len()) as nat;
    assert(parse_entries_at(st, 8, st.len()) == Option::Some((es, fin)));
    assert(st[fin as int] == ';') by {
        assert(st[fin as int] == ("netdev={"@ + et + ";"@)[fin as int]);
    }
    assert(space_run_end(st, fin) == fin);
    assert(fin + 1 == st.len());
    assert(space_run_end(st, fin + 1) == st.len());
}

proof fn lemma_entries_len_bound(es: Seq<BwEntry>)
    ensures
        entries_tail(es).len() >= es.len(),
    decreases es.len(),
{
    if es.len() == 0 {
        assert(entries_parts(es).len() == 0);
    } else if es.len() == 1 {
        lemma_entry_rendered_len(es[0]);
        assert(joined(entries_parts(es), ","@) == entries_parts(es)[0]);
        assert(entries_parts(es)[0] == entry_rendered(es[0]));
    } else {
        let parts = entries_parts(es);
        lemma_joined_cons(parts, ","@);
        let es1 = es.drop_first();
        assert(entries_parts(es1) =~= parts.drop_first());
        lemma_entries_len_bound(es1);
        lemma_entry_rendered_len(es[0]);
        assert(parts[0] == entry_rendered(es[0]));
        reveal_strlit(",");
        reveal_strlit("}");
        assert(","@.len() == 1);
        assert("}"@.len() == 1);
        assert(joined(parts, ","@).len() == parts[0].len() + 1 + joined(
            parts.drop_first(),
            ","@,
        ).len());
        assert(entries_tail(es1).len() == joined(parts.drop_first(), ","@).len() + 1);
    }
}


/// Every receive sample's device label is a key that precedes `kb`,
/// provided every key of the table does.
proof fn lemma_bw_labels_bounded(t: Seq<(String, BandwidthMeasurement)>, kb: Seq<char>)
    requires
        forall|i: int| 0 <= i < t.len() ==> crate::table::lex_lt((#[trigger] t[i]).0@, kb),
    ensures
        forall|m: int|
            0 <= m < bw_rx_samples(t).len() ==> crate::table::lex_lt(
                (#[trigger] bw_rx_samples(t)[m]).0[0].1,
                kb,
            ),
    decreases t.len(),
{
    if t.len() > 0 {
        assert(forall|i: int| 0 <= i < t.drop_last().len() ==> (#[trigger] t.drop_last()[i])
            == t[i]);
        lemma_bw_labels_bounded(t.drop_last(), kb);
        let a = bw_rx_samples(t.drop_last());
        assert forall|m: int|
            0 <= m < bw_rx_samples(t).len() implies crate::table::lex_lt(
            (#[trigger] bw_rx_samples(t)[m]).0[0].1,
            kb,
        ) by {
            if m < a.len() {
                assert(bw_rx_samples(t)[m] == a[m]);
            } else {
                assert(bw_rx_samples(t)[m].0[0].1 == t.last().0@);
                assert(crate::table::lex_lt(t[t.len() - 1].0@, kb));
            }
        }
    }
}

/// The projected receive samples walk the interfaces in strictly
/// increasing lexicographic name order whenever the table is sorted,
/// though suppressed zero-counter devices are absent.
pub proof fn lemma_bw_samples_in_key_order(t: Seq<(String, BandwidthMeasurement)>)
    requires
        sorted_keys(t),
    ensures
        forall|m1: int, m2: int|
            0 <= m1 < m2 < bw_rx_samples(t).len() ==> crate::table::lex_lt(
                (#[trigger] bw_rx_samples(t)[m1]).0[0].1,
                (#[trigger] bw_rx_samples(t)[m2]).0[0].1,
            ),
    decreases t.len(),
{
    if t.len() > 0 {
        assert(forall|i: int| 0 <= i < t.drop_last().len() ==> (#[trigger] t.drop_last()[i])
            == t[i]);
        assert(sorted_keys(t.drop_last()));
        lemma_bw_samples_in_key_order(t.drop_last());
        assert forall|i: int|
            0 <= i < t.drop_last().len() implies crate::table::lex_lt(
            (#[trigger] t.drop_last()[i]).0@,
            t.last().0@,
        ) by {
            assert(crate::table::lex_lt(t[i].0@, t[t.len() - 1].0@));
        }
        lemma_bw_labels_bounded(t.drop_last(), t.last().0@);
        let a = bw_rx_samples(t.drop_last());
        assert forall|m1: int, m2: int|
            0 <= m1 < m2 < bw_rx_samples(t).len() implies crate::table::lex_lt(
            (#[trigger] bw_rx_samples(t)[m1]).0[0].1,
            (#[trigger] bw_rx_samples(t)[m2]).0[0].1,
        ) by {
            if m2 < a.len() {
                assert(bw_rx_samples(t)[m1] == a[m1] && bw_rx_samples(t)[m2] == a[m2]);
            } else {
                assert(bw_rx_samples(t)[m1] == a[m1]);
                assert(bw_rx_samples(t)[m2].0[0].1 == t.last().0@);
            }
        }
    }
}

} // verus!



