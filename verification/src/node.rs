//! Node family: parses the `sysinfo = {...};` block of the device's status
//! page, a JavaScript object literal of single-quoted strings, numbers and
//! arrays, and projects load averages, memory figures and the uptime.

use vstd::prelude::*;

use crate::error::ParseError;
use crate::prometheus::{gauge, gauge_model, metrics_model, PromMetric};
use crate::text::{
    chars_of, digit_run_end, digit_run_end_at, digits_val, find_char, find_char_at, space_run_end,
    space_run_end_at, string_of_range,
};
use crate::transport::TomatoClientInternal;
use crate::value::MetricValue;

verus! {

#[derive(Debug, Clone, PartialEq, Eq)]
pub struct NodeClient {
    pub client: TomatoClientInternal,
}

/// The figures kept from the sysinfo block.  Loads are exact fixed-point
/// (the device reports them times 65536); memory figures are bytes.
#[derive(Debug, Clone, Copy, PartialEq, Eq, Structural)]
pub struct NodeMetrics {
    pub load_1m: MetricValue,
    pub load_5m: MetricValue,
    pub load_15m: MetricValue,
    pub ram_total: u32,
    pub ram_free: u32,
    pub ram_buffer: u32,
    pub swap_total: u32,
    pub swap_free: u32,
    pub uptime: u64,
}

/// One value of the object literal: a number, a quoted string, or an
/// array of numbers.  Numbers beyond `u64` do not decode.
pub enum JsVal {
    Num(u64),
    Text(Seq<char>),
    Arr(Seq<u64>),
}

pub open spec fn is_ident_start(c: char) -> bool {
    ('a' <= c && c <= 'z') || ('A' <= c && c <= 'Z') || c == '_' || c == '$'
}

pub open spec fn is_ident_char(c: char) -> bool {
    is_ident_start(c) || ('0' <= c && c <= '9')
}

/// First position at or after `i` holding a non-identifier character.
pub open spec fn ident_run_end(s: Seq<char>, i: nat) -> nat
    decreases s.len() - i,
{
    if i >= s.len() {
        s.len()
    } else if !is_ident_char(s[i as int]) {
        i
    } else {
        ident_run_end(s, i + 1)
    }
}

/// Whether `lit` occurs in `s` starting exactly at `i`.
pub open spec fn lit_at(s: Seq<char>, i: nat, lit: Seq<char>) -> bool {
    i + lit.len() <= s.len() && s.subrange(i as int, i as int + lit.len() as int) == lit
}

/// The first position at or after `i` where `lit` occurs, or `s.len()`.
pub open spec fn find_lit_from(s: Seq<char>, i: nat, lit: Seq<char>) -> nat
    decreases s.len() - i,
{
    if i >= s.len() || i + lit.len() > s.len() {
        s.len()
    } else if lit_at(s, i, lit) {
        i
    } else {
        find_lit_from(s, i + 1, lit)
    }
}

/// A number at `i`: the digit run's value, failing beyond `u64`.
pub open spec fn parse_num_at(s: Seq<char>, i: nat) -> Option<(u64, nat)> {
    let e = digit_run_end(s, i);
    let v = digits_val(s.subrange(i as int, e as int));
    if e == i || v > u64::MAX {
        Option::None
    } else {
        Option::Some((v as u64, e))
    }
}

/// A `[n, n, ...]` array body from just after `[`.
pub open spec fn parse_arr_at(s: Seq<char>, i: nat, fuel: nat) -> Option<(Seq<u64>, nat)>
    decreases fuel,
{
    if fuel == 0 {
        Option::None
    } else {
        let j = space_run_end(s, i);
        if j < s.len() && s[j as int] == ']' {
            Option::Some((Seq::empty(), j + 1))
        } else {
            match parse_num_at(s, j) {
                Option::None => Option::None,
                Option::Some((n, e)) => {
                    let m = space_run_end(s, e);
                    if m >= s.len() {
                        Option::None
                    } else if s[m as int] == ',' {
                        match parse_arr_at(s, m + 1, (fuel - 1) as nat) {
                            Option::None => Option::None,
                            Option::Some((rest, fin)) => Option::Some((seq![n] + rest, fin)),
                        }
                    } else if s[m as int] == ']' {
                        Option::Some((seq![n], m + 1))
                    } else {
                        Option::None
                    }
                },
            }
        }
    }
}

/// A value at `i`: number, quoted string, or array.
pub open spec fn parse_val_at(s: Seq<char>, i: nat) -> Option<(JsVal, nat)> {
    if i >= s.len() {
        Option::None
    } else if s[i as int] == '\'' || s[i as int] == '"' {
        let j = find_char(s, i + 1, s[i as int]);
        if j >= s.len() {
            Option::None
        } else {
            Option::Some((JsVal::Text(s.subrange(i as int + 1, j as int)), j + 1))
        }
    } else if s[i as int] == '[' {
        match parse_arr_at(s, i + 1, s.len()) {
            Option::None => Option::None,
            Option::Some((a, fin)) => Option::Some((JsVal::Arr(a), fin)),
        }
    } else {
        match parse_num_at(s, i) {
            Option::None => Option::None,
            Option::Some((n, e)) => Option::Some((JsVal::Num(n), e)),
        }
    }
}

/// A key at `i`: quoted text or a bare identifier.
pub open spec fn parse_jskey_at(s: Seq<char>, i: nat) -> Option<(Seq<char>, nat)> {
    if i >= s.len() {
        Option::None
    } else if s[i as int] == '\'' || s[i as int] == '"' {
        let j = find_char(s, i + 1, s[i as int]);
        if j >= s.len() {
            Option::None
        } else {
            Option::Some((s.subrange(i as int + 1, j as int), j + 1))
        }
    } else if is_ident_start(s[i as int]) {
        let e = ident_run_end(s, i);
        Option::Some((s.subrange(i as int, e as int), e))
    } else {
        Option::None
    }
}

/// One `key: value` pair at `i` (whitespace allowed); yields the pair and
/// the position after the value.
pub open spec fn parse_pair_at(s: Seq<char>, i: nat) -> Option<((Seq<char>, JsVal), nat)> {
    match parse_jskey_at(s, space_run_end(s, i)) {
        Option::None => Option::None,
        Option::Some((k, a)) => {
            let b = space_run_end(s, a);
            if b >= s.len() || s[b as int] != ':' {
                Option::None
            } else {
                match parse_val_at(s, space_run_end(s, b + 1)) {
                    Option::None => Option::None,
                    Option::Some((v, fin)) => Option::Some(((k, v), fin)),
                }
            }
        },
    }
}

/// The pairs between the braces, and the position after the closing brace.
pub open spec fn parse_pairs_at(s: Seq<char>, i: nat, fuel: nat) -> Option<
    (Seq<(Seq<char>, JsVal)>, nat),
>
    decreases fuel,
{
    if fuel == 0 {
        Option::None
    } else {
        let j = space_run_end(s, i);
        if j < s.len() && s[j as int] == '}' {
            Option::Some((Seq::empty(), j + 1))
        } else {
            match parse_pair_at(s, i) {
                Option::None => Option::None,
                Option::Some((p, k)) => {
                    let m = space_run_end(s, k);
                    if m >= s.len() {
                        Option::None
                    } else if s[m as int] == ',' {
                        match parse_pairs_at(s, m + 1, (fuel - 1) as nat) {
                            Option::None => Option::None,
                            Option::Some((rest, fin)) => Option::Some((seq![p] + rest, fin)),
                        }
                    } else if s[m as int] == '}' {
                        Option::Some((seq![p], m + 1))
                    } else {
                        Option::None
                    }
                },
            }
        }
    }
}

/// The value of the last pair naming `k`, if any.
pub open spec fn js_value(ps: Seq<(Seq<char>, JsVal)>, k: Seq<char>) -> Option<JsVal>
    decreases ps.len(),
{
    if ps.len() == 0 {
        Option::None
    } else {
        let rest = js_value(ps.drop_last(), k);
        if ps.last().0 == k {
            Option::Some(ps.last().1)
        } else {
            rest
        }
    }
}

/// The exact fixed-point load value of `raw / 65536`.
pub open spec fn q16_value(raw: u32) -> MetricValue {
    MetricValue {
        units: (raw as u64 / 65536) as u64,
        frac: ((raw as u64 % 65536) * 152587890625) as u64,
        scale: 16,
    }
}

/// A `Num` no larger than `u32::MAX`, as reported for the memory figures.
pub open spec fn num_u32(v: Option<JsVal>) -> Option<u32> {
    match v {
        Option::Some(JsVal::Num(n)) => if n <= u32::MAX {
            Option::Some(n as u32)
        } else {
            Option::None
        },
        _ => Option::None,
    }
}

/// The record extracted from the parsed pairs: whole-`u64` uptime, at
/// least three `u32` load components, and five `u32` memory figures.
pub open spec fn node_of_pairs(ps: Seq<(Seq<char>, JsVal)>) -> Option<NodeMetrics> {
    let uptime = match js_value(ps, "uptime"@) {
        Option::Some(JsVal::Num(n)) => Option::Some(n),
        _ => Option::None,
    };
    let loads = match js_value(ps, "loads"@) {
        Option::Some(JsVal::Arr(a)) => if a.len() >= 3 && (forall|m: int|
            0 <= m < a.len() ==> (#[trigger] a[m]) <= u32::MAX) {
            Option::Some(a)
        } else {
            Option::None
        },
        _ => Option::None,
    };
    let totalram = num_u32(js_value(ps, "totalram"@));
    let freeram = num_u32(js_value(ps, "freeram"@));
    let bufferram = num_u32(js_value(ps, "bufferram"@));
    let totalswap = num_u32(js_value(ps, "totalswap"@));
    let freeswap = num_u32(js_value(ps, "freeswap"@));
    match (uptime, loads, totalram, freeram, bufferram, totalswap, freeswap) {
        (
            Option::Some(u),
            Option::Some(a),
            Option::Some(tr),
            Option::Some(fr),
            Option::Some(br),
            Option::Some(ts),
            Option::Some(fs),
        ) => Option::Some(
            NodeMetrics {
                load_1m: q16_value(a[0] as u32),
                load_5m: q16_value(a[1] as u32),
                load_15m: q16_value(a[2] as u32),
                ram_total: tr,
                ram_free: fr,
                ram_buffer: br,
                swap_total: ts,
                swap_free: fs,
                uptime: u,
            },
        ),
        _ => Option::None,
    }
}

/// The whole body: the first `sysinfo = {` block, its pairs up to the
/// closing `};`, and the record extracted from them.
pub open spec fn node_spec(s: Seq<char>) -> Option<NodeMetrics> {
    let p = find_lit_from(s, 0, "sysinfo = {"@);
    if p >= s.len() {
        Option::None
    } else {
        match parse_pairs_at(s, (p + 11) as nat, s.len()) {
            Option::None => Option::None,
            Option::Some((ps, fin)) => {
                if fin >= s.len() || s[fin as int] != ';' {
                    Option::None
                } else {
                    node_of_pairs(ps)
                }
            },
        }
    }
}


/// The runtime form of one parsed value.
#[derive(Debug, Clone, PartialEq, Eq)]
pub enum RawVal {
    Num(u64),
    Text(String),
    Arr(Vec<u64>),
}

pub open spec fn raw_model(v: RawVal) -> JsVal {
    match v {
        RawVal::Num(n) => JsVal::Num(n),
        RawVal::Text(t) => JsVal::Text(t@),
        RawVal::Arr(a) => JsVal::Arr(a@),
    }
}

pub open spec fn jspairs_model(ps: Seq<(String, RawVal)>) -> Seq<(Seq<char>, JsVal)> {
    ps.map(|i: int, p: (String, RawVal)| (p.0@, raw_model(p.1)))
}

/// `first` followed by `rest`.
fn cons_vec<T>(first: T, rest: Vec<T>) -> (r: Vec<T>)
    ensures
        r@ == seq![first] + rest@,
{
    let ghost rest0 = rest@;
    let mut rest = rest;
    let mut r: Vec<T> = Vec::new();
    r.push(first);
    while rest.len() > 0
        invariant
            r@ + rest@ =~= seq![first] + rest0,
        decreases rest.len(),
    {
        let x = rest.remove(0);
        r.push(x);
    }
    proof {
        assert(r@ =~= r@ + rest@);
        assert(r@ == seq![first] + rest0);
    }
    r
}

fn ident_run_end_at(v: &Vec<char>, i: usize) -> (j: usize)
    requires
        i <= v.len(),
    ensures
        j == ident_run_end(v@, i as nat),
        i <= j <= v.len(),
{
    let mut j = i;
    while j < v.len() && (('a' <= v[j] && v[j] <= 'z') || ('A' <= v[j] && v[j] <= 'Z') || ('0'
        <= v[j] && v[j] <= '9') || v[j] == '_' || v[j] == '$')
        invariant
            i <= j <= v.len(),
            ident_run_end(v@, i as nat) == ident_run_end(v@, j as nat),
        decreases v.len() - j,
    {
        j += 1;
    }
    j
}

/// Whether `lit` occurs in `v` at exactly `i`.
fn lit_check(v: &Vec<char>, i: usize, lit: &Vec<char>) -> (r: bool)
    requires
        i <= v.len(),
    ensures
        r == lit_at(v@, i as nat, lit@),
{
    if v.len() - i < lit.len() {
        return false;
    }
    let mut k: usize = 0;
    while k < lit.len()
        invariant
            k <= lit.len(),
            i + lit.len() <= v.len(),
            forall|m: int| 0 <= m < k ==> v@[i + m] == lit@[m],
        decreases lit.len() - k,
    {
        if v[i + k] != lit[k] {
            proof {
                assert(v@.subrange(i as int, i as int + lit@.len() as int)[k as int] != lit@[k as int]);
            }
            return false;
        }
        k += 1;
    }
    proof {
        assert(v@.subrange(i as int, i as int + lit@.len() as int) =~= lit@);
    }
    true
}

/// The first position where `lit` occurs, or `v.len()`.
fn find_lit(v: &Vec<char>, lit: &Vec<char>) -> (r: usize)
    requires
        lit.len() >= 1,
    ensures
        r == find_lit_from(v@, 0, lit@),
        r <= v.len(),
        r < v.len() ==> lit_at(v@, r as nat, lit@),
{
    let mut i: usize = 0;
    while v.len() >= lit.len() && i <= v.len() - lit.len()
        invariant
            i <= v.len(),
            lit@.len() >= 1,
            find_lit_from(v@, 0, lit@) == if i as nat + lit@.len() <= v@.len() {
                find_lit_from(v@, i as nat, lit@)
            } else {
                v@.len()
            },
        decreases v.len() - i,
    {
        if lit_check(v, i, lit) {
            return i;
        }
        proof {
            assert(find_lit_from(v@, i as nat, lit@) == find_lit_from(v@, (i + 1) as nat, lit@));
            if i as nat + 1 + lit@.len() > v@.len() {
                assert(find_lit_from(v@, (i + 1) as nat, lit@) == v@.len());
            }
        }
        i += 1;
    }
    v.len()
}

fn parse_num_exec(v: &Vec<char>, i: usize) -> (r: Option<(u64, usize)>)
    requires
        i <= v.len(),
    ensures
        match r {
            Option::Some((n, j)) => parse_num_at(v@, i as nat) == Option::Some((n, j as nat)) && i
                < j <= v.len(),
            Option::None => parse_num_at(v@, i as nat) is None,
        },
{
    let e = digit_run_end_at(v, i);
    if e == i {
        return Option::None;
    }
    match crate::text::parse_u64_digits(v, i, e) {
        Option::Some(n) => Option::Some((n, e)),
        Option::None => Option::None,
    }
}

fn parse_arr_exec(v: &Vec<char>, i: usize, fuel: usize) -> (r: Option<(Vec<u64>, usize)>)
    requires
        i <= v.len(),
    ensures
        match r {
            Option::Some((a, j)) => parse_arr_at(v@, i as nat, fuel as nat) == Option::Some(
                (a@, j as nat),
            ) && j <= v.len(),
            Option::None => parse_arr_at(v@, i as nat, fuel as nat) is None,
        },
    decreases fuel,
{
    if fuel == 0 {
        return Option::None;
    }
    let j = space_run_end_at(v, i);
    if j < v.len() && v[j] == ']' {
        let a: Vec<u64> = Vec::new();
        proof {
            assert(a@ =~= Seq::<u64>::empty());
        }
        return Option::Some((a, j + 1));
    }
    let (n, e) = match parse_num_exec(v, j) {
        Option::Some(p) => p,
        Option::None => {
            return Option::None;
        },
    };
    let m = space_run_end_at(v, e);
    if m >= v.len() {
        return Option::None;
    }
    if v[m] == ',' {
        match parse_arr_exec(v, m + 1, fuel - 1) {
            Option::Some((rest, fin)) => {
                let a = cons_vec(n, rest);
                Option::Some((a, fin))
            },
            Option::None => Option::None,
        }
    } else if v[m] == ']' {
        let mut a: Vec<u64> = Vec::new();
        a.push(n);
        proof {
            assert(a@ =~= seq![n]);
        }
        Option::Some((a, m + 1))
    } else {
        Option::None
    }
}

fn parse_val_exec(v: &Vec<char>, i: usize) -> (r: Option<(RawVal, usize)>)
    requires
        i <= v.len(),
    ensures
        match r {
            Option::Some((rv, j)) => parse_val_at(v@, i as nat) == Option::Some(
                (raw_model(rv), j as nat),
            ) && j <= v.len(),
            Option::None => parse_val_at(v@, i as nat) is None,
        },
{
    if i >= v.len() {
        return Option::None;
    }
    if v[i] == '\'' || v[i] == '"' {
        let j = find_char_at(v, i + 1, v[i]);
        if j >= v.len() {
            return Option::None;
        }
        let t = string_of_range(v, i + 1, j);
        return Option::Some((RawVal::Text(t), j + 1));
    }
    if v[i] == '[' {
        return match parse_arr_exec(v, i + 1, v.len()) {
            Option::Some((a, fin)) => Option::Some((RawVal::Arr(a), fin)),
            Option::None => Option::None,
        };
    }
    match parse_num_exec(v, i) {
        Option::Some((n, e)) => Option::Some((RawVal::Num(n), e)),
        Option::None => Option::None,
    }
}

fn parse_jskey_exec(v: &Vec<char>, i: usize) -> (r: Option<(String, usize)>)
    requires
        i <= v.len(),
    ensures
        match r {
            Option::Some((k, j)) => parse_jskey_at(v@, i as nat) == Option::Some(
                (k@, j as nat),
            ) && j <= v.len(),
            Option::None => parse_jskey_at(v@, i as nat) is None,
        },
{
    if i >= v.len() {
        return Option::None;
    }
    if v[i] == '\'' || v[i] == '"' {
        let j = find_char_at(v, i + 1, v[i]);
        if j >= v.len() {
            return Option::None;
        }
        let k = string_of_range(v, i + 1, j);
        return Option::Some((k, j + 1));
    }
    let c = v[i];
    if ('a' <= c && c <= 'z') || ('A' <= c && c <= 'Z') || c == '_' || c == '$' {
        let e = ident_run_end_at(v, i);
        let k = string_of_range(v, i, e);
        Option::Some((k, e))
    } else {
        Option::None
    }
}

fn parse_pair_exec(v: &Vec<char>, i: usize) -> (r: Option<((String, RawVal), usize)>)
    requires
        i <= v.len(),
    ensures
        match r {
            Option::Some((p, j)) => parse_pair_at(v@, i as nat) == Option::Some(
                ((p.0@, raw_model(p.1)), j as nat),
            ) && j <= v.len(),
            Option::None => parse_pair_at(v@, i as nat) is None,
        },
{
    let (k, a) = match parse_jskey_exec(v, space_run_end_at(v, i)) {
        Option::Some(p) => p,
        Option::None => {
            return Option::None;
        },
    };
    let b = space_run_end_at(v, a);
    if b >= v.len() || v[b] != ':' {
        return Option::None;
    }
    let (val, fin) = match parse_val_exec(v, space_run_end_at(v, b + 1)) {
        Option::Some(p) => p,
        Option::None => {
            return Option::None;
        },
    };
    Option::Some(((k, val), fin))
}

fn parse_pairs_exec(v: &Vec<char>, i: usize, fuel: usize) -> (r: Option<
    (Vec<(String, RawVal)>, usize),
>)
    requires
        i <= v.len(),
    ensures
        match r {
            Option::Some((ps, fin)) => parse_pairs_at(v@, i as nat, fuel as nat) == Option::Some(
                (jspairs_model(ps@), fin as nat),
            ) && fin <= v.len(),
            Option::None => parse_pairs_at(v@, i as nat, fuel as nat) is None,
        },
    decreases fuel,
{
    if fuel == 0 {
        return Option::None;
    }
    let j = space_run_end_at(v, i);
    if j < v.len() && v[j] == '}' {
        let ps: Vec<(String, RawVal)> = Vec::new();
        proof {
            assert(jspairs_model(ps@) =~= Seq::<(Seq<char>, JsVal)>::empty());
        }
        return Option::Some((ps, j + 1));
    }
    let (p, k) = match parse_pair_exec(v, i) {
        Option::Some(x) => x,
        Option::None => {
            return Option::None;
        },
    };
    let m = space_run_end_at(v, k);
    if m >= v.len() {
        return Option::None;
    }
    if v[m] == ',' {
        match parse_pairs_exec(v, m + 1, fuel - 1) {
            Option::Some((rest, fin)) => {
                let ghost pm = (p.0@, raw_model(p.1));
                let ps = cons_vec(p, rest);
                proof {
                    assert(jspairs_model(ps@) =~= seq![pm] + jspairs_model(rest@));
                }
                Option::Some((ps, fin))
            },
            Option::None => Option::None,
        }
    } else if v[m] == '}' {
        let ghost pm = (p.0@, raw_model(p.1));
        let mut ps: Vec<(String, RawVal)> = Vec::new();
        ps.push(p);
        proof {
            assert(jspairs_model(ps@) =~= seq![pm]);
        }
        Option::Some((ps, m + 1))
    } else {
        Option::None
    }
}

/// The index of the last pair naming `key`, if any.
fn js_find(ps: &Vec<(String, RawVal)>, key: &str) -> (r: Option<usize>)
    ensures
        match r {
            Option::Some(ix) => ix < ps.len() && js_value(jspairs_model(ps@), key@)
                == Option::Some(raw_model(ps@[ix as int].1)),
            Option::None => js_value(jspairs_model(ps@), key@) is None,
        },
{
    let ghost psm = jspairs_model(ps@);
    let mut i: usize = ps.len();
    proof {
        assert(psm.take(ps@.len() as int) =~= psm);
    }
    while i > 0
        invariant
            i <= ps.len(),
            psm == jspairs_model(ps@),
            js_value(psm, key@) == js_value(psm.take(i as int), key@),
        decreases i,
    {
        i -= 1;
        let ghost cur = psm.take(i + 1);
        proof {
            assert(cur.drop_last() =~= psm.take(i as int));
            assert(cur.last() == psm[i as int]);
        }
        if crate::table::str_eq(ps[i].0.as_str(), key) {
            proof {
                assert(js_value(cur, key@) == Option::Some(psm[i as int].1));
            }
            return Option::Some(i);
        }
    }
    proof {
        assert(psm.take(0) =~= Seq::<(Seq<char>, JsVal)>::empty());
    }
    Option::None
}

/// The value of `key` when it is a number no larger than `u32::MAX`.
fn find_num_u32(ps: &Vec<(String, RawVal)>, key: &str) -> (r: Option<u32>)
    ensures
        r == num_u32(js_value(jspairs_model(ps@), key@)),
{
    match js_find(ps, key) {
        Option::Some(ix) => match &ps[ix].1 {
            RawVal::Num(n) => if *n <= u32::MAX as u64 {
                Option::Some(*n as u32)
            } else {
                Option::None
            },
            _ => Option::None,
        },
        Option::None => Option::None,
    }
}

impl NodeClient {
    pub fn new(client: TomatoClientInternal) -> (r: NodeClient)
        ensures
            r.client == client,
    {
        NodeClient { client }
    }

    /// Parses the sysinfo block; fails exactly when the block is absent,
    /// malformed, or missing one of the needed figures.
    pub fn parse_body(body: String) -> (r: Result<NodeMetrics, ParseError>)
        ensures
            match r {
                Result::Ok(nm) => node_spec(body@) == Option::Some(nm),
                Result::Err(_) => node_spec(body@) is None,
            },
    {
        let v = chars_of(body.as_str());
        let lit = chars_of("sysinfo = {");
        proof {
            reveal_strlit("sysinfo = {");
            assert(lit@.len() == 11);
        }
        let p = find_lit(&v, &lit);
        if p >= v.len() {
            return Result::Err(ParseError);
        }
        let (ps, fin) = match parse_pairs_exec(&v, p + 11, v.len()) {
            Option::Some(x) => x,
            Option::None => {
                return Result::Err(ParseError);
            },
        };
        if fin >= v.len() || v[fin] != ';' {
            return Result::Err(ParseError);
        }
        let ghost psm = jspairs_model(ps@);
        let uptime: u64 = match js_find(&ps, "uptime") {
            Option::Some(ix) => match &ps[ix].1 {
                RawVal::Num(n) => *n,
                _ => {
                    return Result::Err(ParseError);
                },
            },
            Option::None => {
                return Result::Err(ParseError);
            },
        };
        let (l0, l1, l2) = match js_find(&ps, "loads") {
            Option::Some(ix) => match &ps[ix].1 {
                RawVal::Arr(a) => {
                    let mut ok = true;
                    let mut m: usize = 0;
                    while m < a.len()
                        invariant
                            m <= a.len(),
                            ok ==> forall|w: int| 0 <= w < m ==> (#[trigger] a@[w]) <= u32::MAX,
                            !ok ==> exists|w: int| 0 <= w < m && (#[trigger] a@[w]) > u32::MAX,
                        decreases a.len() - m,
                    {
                        if a[m] > u32::MAX as u64 {
                            proof {
                                assert(0 <= m < m + 1 && a@[m as int] > u32::MAX);
                            }
                            ok = false;
                        }
                        m += 1;
                    }
                    if !ok || a.len() < 3 {
                        proof {
                            if !ok {
                                let w = choose|w: int|
                                    0 <= w < a@.len() && (#[trigger] a@[w]) > u32::MAX;
                                assert(!(forall|w2: int|
                                    0 <= w2 < a@.len() ==> (#[trigger] a@[w2]) <= u32::MAX));
                            }
                            assert(node_of_pairs(psm) is None);
                        }
                        return Result::Err(ParseError);
                    }
                    (a[0] as u32, a[1] as u32, a[2] as u32)
                },
                _ => {
                    return Result::Err(ParseError);
                },
            },
            Option::None => {
                return Result::Err(ParseError);
            },
        };
        let totalram = match find_num_u32(&ps, "totalram") {
            Option::Some(x) => x,
            Option::None => {
                return Result::Err(ParseError);
            },
        };
        let freeram = match find_num_u32(&ps, "freeram") {
            Option::Some(x) => x,
            Option::None => {
                return Result::Err(ParseError);
            },
        };
        let bufferram = match find_num_u32(&ps, "bufferram") {
            Option::Some(x) => x,
            Option::None => {
                return Result::Err(ParseError);
            },
        };
        let totalswap = match find_num_u32(&ps, "totalswap") {
            Option::Some(x) => x,
            Option::None => {
                return Result::Err(ParseError);
            },
        };
        let freeswap = match find_num_u32(&ps, "freeswap") {
            Option::Some(x) => x,
            Option::None => {
                return Result::Err(ParseError);
            },
        };
        let nm = NodeMetrics {
            load_1m: MetricValue::from_q16(l0),
            load_5m: MetricValue::from_q16(l1),
            load_15m: MetricValue::from_q16(l2),
            ram_total: totalram,
            ram_free: freeram,
            ram_buffer: bufferram,
            swap_total: totalswap,
            swap_free: freeswap,
            uptime,
        };
        proof {
            assert(nm.load_1m == q16_value(l0));
            assert(nm.load_5m == q16_value(l1));
            assert(nm.load_15m == q16_value(l2));
            assert(node_of_pairs(psm) == Option::Some(nm));
        }
        Result::Ok(nm)
    }

    /// Projects the record to its nine gauge series.
    pub fn raw_to_prom(raw_metrics: NodeMetrics) -> (r: Vec<PromMetric>)
        ensures
            metrics_model(r@) == seq![
                gauge_model("node_load1"@, "1m load average"@, raw_metrics.load_1m),
                gauge_model("node_load5"@, "5m load average"@, raw_metrics.load_5m),
                gauge_model("node_load15"@, "15m load average"@, raw_metrics.load_15m),
                gauge_model(
                    "node_memory_MemTotal_bytes"@,
                    "Memory information field MemTotal_bytes"@,
                    MetricValue { units: raw_metrics.ram_total as u64, frac: 0, scale: 0 },
                ),
                gauge_model(
                    "node_memory_Buffers_bytes"@,
                    "Memory information field Buffers_bytes"@,
                    MetricValue { units: raw_metrics.ram_buffer as u64, frac: 0, scale: 0 },
                ),
                gauge_model(
                    "node_memory_MemFree_bytes"@,
                    "Memory information field MemFree_bytes"@,
                    MetricValue { units: raw_metrics.ram_free as u64, frac: 0, scale: 0 },
                ),
                gauge_model(
                    "node_memory_SwapTotal_bytes"@,
                    "Memory information field SwapTotal_bytes"@,
                    MetricValue { units: raw_metrics.swap_total as u64, frac: 0, scale: 0 },
                ),
                gauge_model(
                    "node_memory_SwapFree_bytes"@,
                    "Memory information field SwapFree_bytes"@,
                    MetricValue { units: raw_metrics.swap_free as u64, frac: 0, scale: 0 },
                ),
                gauge_model(
                    "node_time_seconds"@,
                    "System time in seconds since epoch (1970)"@,
                    MetricValue { units: raw_metrics.uptime, frac: 0, scale: 0 },
                ),
            ],
    {
        let mut r: Vec<PromMetric> = Vec::new();
        r.push(gauge("node_load1", "1m load average", raw_metrics.load_1m));
        r.push(gauge("node_load5", "5m load average", raw_metrics.load_5m));
        r.push(gauge("node_load15", "15m load average", raw_metrics.load_15m));
        r.push(
            gauge(
                "node_memory_MemTotal_bytes",
                "Memory information field MemTotal_bytes",
                MetricValue::from_int(raw_metrics.ram_total as u64),
            ),
        );
        r.push(
            gauge(
                "node_memory_Buffers_bytes",
                "Memory information field Buffers_bytes",
                MetricValue::from_int(raw_metrics.ram_buffer as u64),
            ),
        );
        r.push(
            gauge(
                "node_memory_MemFree_bytes",
                "Memory information field MemFree_bytes",
                MetricValue::from_int(raw_metrics.ram_free as u64),
            ),
        );
        r.push(
            gauge(
                "node_memory_SwapTotal_bytes",
                "Memory information field SwapTotal_bytes",
                MetricValue::from_int(raw_metrics.swap_total as u64),
            ),
        );
        r.push(
            gauge(
                "node_memory_SwapFree_bytes",
                "Memory information field SwapFree_bytes",
                MetricValue::from_int(raw_metrics.swap_free as u64),
            ),
        );
        r.push(
            gauge(
                "node_time_seconds",
                "System time in seconds since epoch (1970)",
                MetricValue::from_int(raw_metrics.uptime),
            ),
        );
        proof {
            assert(metrics_model(r@) =~= seq![
                gauge_model("node_load1"@, "1m load average"@, raw_metrics.load_1m),
                gauge_model("node_load5"@, "5m load average"@, raw_metrics.load_5m),
                gauge_model("node_load15"@, "15m load average"@, raw_metrics.load_15m),
                gauge_model(
                    "node_memory_MemTotal_bytes"@,
                    "Memory information field MemTotal_bytes"@,
                    MetricValue { units: raw_metrics.ram_total as u64, frac: 0, scale: 0 },
                ),
                gauge_model(
                    "node_memory_Buffers_bytes"@,
                    "Memory information field Buffers_bytes"@,
                    MetricValue { units: raw_metrics.ram_buffer as u64, frac: 0, scale: 0 },
                ),
                gauge_model(
                    "node_memory_MemFree_bytes"@,
                    "Memory information field MemFree_bytes"@,
                    MetricValue { units: raw_metrics.ram_free as u64, frac: 0, scale: 0 },
                ),
                gauge_model(
                    "node_memory_SwapTotal_bytes"@,
                    "Memory information field SwapTotal_bytes"@,
                    MetricValue { units: raw_metrics.swap_total as u64, frac: 0, scale: 0 },
                ),
                gauge_model(
                    "node_memory_SwapFree_bytes"@,
                    "Memory information field SwapFree_bytes"@,
                    MetricValue { units: raw_metrics.swap_free as u64, frac: 0, scale: 0 },
                ),
                gauge_model(
                    "node_time_seconds"@,
                    "System time in seconds since epoch (1970)"@,
                    MetricValue { units: raw_metrics.uptime, frac: 0, scale: 0 },
                ),
            ]);
        }
        r
    }
}

} // verus!

