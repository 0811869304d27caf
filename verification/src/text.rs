//! Character-level scanning helpers shared by the device-output parsers.
//!
//! Each exec helper mirrors a spec function over `Seq<char>`; the parsers'
//! contracts are stated in terms of these spec functions.

use vstd::prelude::*;
use vstd::std_specs::iter::IteratorSpec;

verus! {

broadcast use vstd::string::group_string_axioms;

pub open spec fn is_digit(c: char) -> bool {
    48 <= c as u32 <= 57
}

pub open spec fn digit_val(c: char) -> nat {
    (c as u32 - 48) as nat
}

/// The numeric value of a decimal digit string (most significant first).
pub open spec fn digits_val(s: Seq<char>) -> nat
    decreases s.len(),
{
    if s.len() == 0 {
        0
    } else {
        digits_val(s.drop_last()) * 10 + digit_val(s.last())
    }
}

/// Every character of `s` is a decimal digit.
pub open spec fn all_digits(s: Seq<char>) -> bool {
    forall|i: int| 0 <= i < s.len() ==> is_digit(#[trigger] s[i])
}

/// The first position at or after `i` holding `c`, or `s.len()` if none.
pub open spec fn find_char(s: Seq<char>, i: nat, c: char) -> nat
    decreases s.len() - i,
{
    if i >= s.len() {
        s.len()
    } else if s[i as int] == c {
        i
    } else {
        find_char(s, i + 1, c)
    }
}

/// The first position at or after `i` holding a non-digit, or `s.len()`.
pub open spec fn digit_run_end(s: Seq<char>, i: nat) -> nat
    decreases s.len() - i,
{
    if i >= s.len() {
        s.len()
    } else if !is_digit(s[i as int]) {
        i
    } else {
        digit_run_end(s, i + 1)
    }
}

/// `s` split on `sep` from position `i`; the separators are consumed,
/// empty pieces are kept.
pub open spec fn split_from(s: Seq<char>, i: nat, sep: char) -> Seq<Seq<char>>
    decreases s.len() - i,
{
    if i >= s.len() {
        seq![Seq::empty()]
    } else {
        let j = find_char(s, i, sep);
        if j >= s.len() {
            seq![s.subrange(i as int, s.len() as int)]
        } else if j < i {
            Seq::empty()
        } else {
            seq![s.subrange(i as int, j as int)] + split_from(s, (j + 1) as nat, sep)
        }
    }
}

pub open spec fn line_split(s: Seq<char>) -> Seq<Seq<char>> {
    split_from(s, 0, '\n')
}

pub open spec fn views_of(r: Seq<Vec<char>>) -> Seq<Seq<char>> {
    r.map(|i: int, l: Vec<char>| l@)
}

pub fn is_digit_exec(c: char) -> (r: bool)
    ensures
        r == is_digit(c),
{
    c >= '0' && c <= '9'
}

pub fn digit_val_exec(c: char) -> (r: u8)
    requires
        is_digit(c),
    ensures
        r as nat == digit_val(c),
        r < 10,
{
    (c as u8) - 48
}

/// The characters of `s`, in order.
pub fn chars_of(s: &str) -> (v: Vec<char>)
    ensures
        v@ == s@,
{
    let mut it = s.chars();
    let mut v: Vec<char> = Vec::new();
    loop
        invariant
            it.obeys_prophetic_iter_laws(),
            v@ + it.remaining() == s@,
        decreases s@.len() - v@.len(),
    {
        match it.next() {
            Option::Some(c) => {
                v.push(c);
            },
            Option::None => {
                proof {
                    assert(v@ =~= s@);
                }
                return v;
            },
        }
    }
}

/// A copy of `v[a..b]`.
pub fn vec_sub(v: &Vec<char>, a: usize, b: usize) -> (r: Vec<char>)
    requires
        a <= b <= v.len(),
    ensures
        r@ == v@.subrange(a as int, b as int),
{
    let mut r: Vec<char> = Vec::new();
    let mut i: usize = a;
    while i < b
        invariant
            a <= i <= b <= v.len(),
            r@ == v@.subrange(a as int, i as int),
        decreases b - i,
    {
        r.push(v[i]);
        proof {
            assert(v@.subrange(a as int, i + 1) =~= v@.subrange(a as int, i as int).push(
                v@[i as int],
            ));
        }
        i += 1;
    }
    r
}

/// `v` split on '\n'.
pub fn split_lines(v: &Vec<char>) -> (r: Vec<Vec<char>>)
    ensures
        views_of(r@) == line_split(v@),
{
    split_at_char(v, '\n')
}

/// A `String` holding the characters of `v`.
pub fn string_of_chars(v: &Vec<char>) -> (r: String)
    ensures
        r@ == v@,
{
    let mut r = String::new();
    crate::value::append_chars(&mut r, v);
    r
}

/// A `String` holding `v[a..b]`.
pub fn string_of_range(v: &Vec<char>, a: usize, b: usize) -> (r: String)
    requires
        a <= b <= v.len(),
    ensures
        r@ == v@.subrange(a as int, b as int),
{
    let mut r = String::new();
    let piece = vec_sub(v, a, b);
    crate::value::append_chars(&mut r, &piece);
    r
}

/// First position at or after `i` holding `c`, or `v.len()`.
pub fn find_char_at(v: &Vec<char>, i: usize, c: char) -> (j: usize)
    requires
        i <= v.len(),
    ensures
        j == find_char(v@, i as nat, c),
        i <= j <= v.len(),
        j < v.len() ==> v@[j as int] == c,
        forall|k: int| i <= k < j ==> v@[k] != c,
{
    let mut j = i;
    while j < v.len() && v[j] != c
        invariant
            i <= j <= v.len(),
            find_char(v@, i as nat, c) == find_char(v@, j as nat, c),
            forall|k: int| i <= k < j ==> v@[k] != c,
        decreases v.len() - j,
    {
        j += 1;
    }
    j
}

/// First position at or after `i` holding a non-digit, or `v.len()`.
pub fn digit_run_end_at(v: &Vec<char>, i: usize) -> (j: usize)
    requires
        i <= v.len(),
    ensures
        j == digit_run_end(v@, i as nat),
        i <= j <= v.len(),
        j < v.len() ==> !is_digit(v@[j as int]),
        forall|k: int| i <= k < j ==> is_digit(#[trigger] v@[k]),
{
    let mut j = i;
    while j < v.len() && is_digit_exec(v[j])
        invariant
            i <= j <= v.len(),
            digit_run_end(v@, i as nat) == digit_run_end(v@, j as nat),
            forall|k: int| i <= k < j ==> is_digit(#[trigger] v@[k]),
        decreases v.len() - j,
    {
        j += 1;
    }
    j
}

/// `v` split on `sep`.
pub fn split_at_char(v: &Vec<char>, sep: char) -> (r: Vec<Vec<char>>)
    ensures
        views_of(r@) == split_from(v@, 0, sep),
{
    let mut r: Vec<Vec<char>> = Vec::new();
    let mut i: usize = 0;
    loop
        invariant
            i <= v.len(),
            views_of(r@) + split_from(v@, i as nat, sep) == split_from(v@, 0, sep),
        decreases v.len() - i,
    {
        let j = find_char_at(v, i, sep);
        let line = vec_sub(v, i, j);
        let ghost before = views_of(r@);
        r.push(line);
        proof {
            assert(views_of(r@) =~= before + seq![line@]);
        }
        if j == v.len() {
            proof {
                if i >= v.len() {
                    assert(line@ =~= Seq::<char>::empty());
                    assert(split_from(v@, i as nat, sep) =~= seq![line@]);
                } else {
                    assert(split_from(v@, i as nat, sep) =~= seq![line@]);
                }
                assert(views_of(r@) =~= before + split_from(v@, i as nat, sep));
            }
            return r;
        }
        proof {
            assert(split_from(v@, i as nat, sep) =~= seq![line@] + split_from(
                v@,
                (j + 1) as nat,
                sep,
            ));
            assert(before + split_from(v@, i as nat, sep) =~= views_of(r@) + split_from(
                v@,
                (j + 1) as nat,
                sep,
            ));
        }
        i = j + 1;
    }
}

pub open spec fn is_space(c: char) -> bool {
    c == ' ' || c == '\n' || c == '\t' || c == '\r'
}

/// The first position at or after `i` holding a non-space, or `s.len()`.
pub open spec fn space_run_end(s: Seq<char>, i: nat) -> nat
    decreases s.len() - i,
{
    if i >= s.len() {
        s.len()
    } else if !is_space(s[i as int]) {
        i
    } else {
        space_run_end(s, i + 1)
    }
}

/// One past the last non-space character, or 0 if all characters are spaces.
pub open spec fn ws_suffix_start(s: Seq<char>) -> nat
    decreases s.len(),
{
    if s.len() == 0 {
        0
    } else if !is_space(s.last()) {
        s.len()
    } else {
        ws_suffix_start(s.drop_last())
    }
}

/// `s` with leading and trailing whitespace removed.
pub open spec fn trim(s: Seq<char>) -> Seq<char> {
    let a = space_run_end(s, 0);
    let b = ws_suffix_start(s);
    if a >= b {
        Seq::empty()
    } else {
        s.subrange(a as int, b as int)
    }
}

pub fn is_space_exec(c: char) -> (r: bool)
    ensures
        r == is_space(c),
{
    c == ' ' || c == '\n' || c == '\t' || c == '\r'
}

/// First position at or after `i` holding a non-space, or `v.len()`.
pub fn space_run_end_at(v: &Vec<char>, i: usize) -> (j: usize)
    requires
        i <= v.len(),
    ensures
        j == space_run_end(v@, i as nat),
        i <= j <= v.len(),
{
    let mut j = i;
    while j < v.len() && is_space_exec(v[j])
        invariant
            i <= j <= v.len(),
            space_run_end(v@, i as nat) == space_run_end(v@, j as nat),
        decreases v.len() - j,
    {
        j += 1;
    }
    j
}

/// A copy of `v` with leading and trailing whitespace removed.
pub fn trim_chars(v: &Vec<char>) -> (r: Vec<char>)
    ensures
        r@ == trim(v@),
{
    let a = space_run_end_at(v, 0);
    let mut b = v.len();
    proof {
        assert(v@.take(v@.len() as int) =~= v@);
    }
    while b > 0 && is_space_exec(v[b - 1])
        invariant
            b <= v.len(),
            ws_suffix_start(v@) == ws_suffix_start(v@.take(b as int)),
        decreases b,
    {
        proof {
            assert(v@.take(b as int).last() == v@[b - 1]);
            assert(v@.take(b as int).drop_last() =~= v@.take(b - 1));
        }
        b -= 1;
    }
    proof {
        if b == 0 {
            assert(v@.take(0).len() == 0);
        } else {
            assert(v@.take(b as int).last() == v@[b - 1]);
        }
        assert(ws_suffix_start(v@) == b);
    }
    if a >= b {
        Vec::new()
    } else {
        vec_sub(v, a, b)
    }
}

/// Every digit string is bounded by the power of ten of its length.
pub proof fn lemma_digits_val_bound(s: Seq<char>)
    requires
        all_digits(s),
    ensures
        digits_val(s) < crate::value::pow10(s.len()),
    decreases s.len(),
{
    if s.len() == 0 {
    } else {
        assert(all_digits(s.drop_last()));
        lemma_digits_val_bound(s.drop_last());
        let p = crate::value::pow10((s.len() - 1) as nat);
        assert(digit_val(s.last()) <= 9);
        assert(digits_val(s.drop_last()) * 10 <= (p - 1) * 10) by (nonlinear_arith)
            requires
                digits_val(s.drop_last()) <= p - 1,
        ;
        assert(crate::value::pow10(s.len()) == 10 * p);
    }
}

pub proof fn lemma_digits_val_prefix_bound(s: Seq<char>, i: int)
    requires
        0 <= i <= s.len(),
    ensures
        digits_val(s) >= digits_val(s.take(i)) * crate::value::pow10((s.len() - i) as nat),
    decreases s.len() - i,
{
    if i == s.len() {
        assert(s.take(i) =~= s);
        assert(digits_val(s.take(i)) == digits_val(s));
        assert((s.len() - i) as nat == 0);
        assert(crate::value::pow10((s.len() - i) as nat) == 1);
        assert(digits_val(s) >= digits_val(s.take(i)) * crate::value::pow10((s.len() - i) as nat));
    } else {
        lemma_digits_val_prefix_bound(s.drop_last(), i);
        assert(s.drop_last().take(i) =~= s.take(i));
        let p = crate::value::pow10((s.len() - 1 - i) as nat);
        let t = digits_val(s.take(i));
        assert(digits_val(s.drop_last()) >= t * p);
        assert(digits_val(s) == digits_val(s.drop_last()) * 10 + digit_val(s.last()));
        assert(digits_val(s) >= t * (10 * p)) by (nonlinear_arith)
            requires
                digits_val(s) == digits_val(s.drop_last()) * 10 + digit_val(s.last()),
                digits_val(s.drop_last()) >= t * p,
        ;
        assert(crate::value::pow10((s.len() - i) as nat) == 10 * p);
        assert(t * (10 * p) == t * crate::value::pow10((s.len() - i) as nat));
        assert(digits_val(s) >= digits_val(s.take(i)) * crate::value::pow10((s.len() - i) as nat));
    }
}

/// Parses `v[start..end]`, a run of decimal digits, as a `u64`; `None`
/// exactly when the value does not fit.
pub fn parse_u64_digits(v: &Vec<char>, start: usize, end: usize) -> (r: Option<u64>)
    requires
        start <= end <= v.len(),
        forall|k: int| start <= k < end ==> is_digit(#[trigger] v@[k]),
    ensures
        match r {
            Option::Some(n) => n as nat == digits_val(v@.subrange(start as int, end as int)),
            Option::None => digits_val(v@.subrange(start as int, end as int)) > u64::MAX as nat,
        },
{
    let ghost whole = v@.subrange(start as int, end as int);
    let mut acc: u64 = 0;
    let mut k = start;
    while k < end
        invariant
            start <= k <= end <= v.len(),
            forall|j: int| start <= j < end ==> is_digit(#[trigger] v@[j]),
            whole == v@.subrange(start as int, end as int),
            acc as nat == digits_val(v@.subrange(start as int, k as int)),
        decreases end - k,
    {
        let d = digit_val_exec(v[k]);
        let ghost prefix = v@.subrange(start as int, k as int);
        let ghost next_prefix = v@.subrange(start as int, k + 1);
        proof {
            assert(next_prefix.drop_last() =~= prefix);
            assert(next_prefix.last() == v@[k as int]);
        }
        let step = match acc.checked_mul(10) {
            Option::Some(x) => x.checked_add(d as u64),
            Option::None => Option::None,
        };
        match step {
            Option::Some(x) => {
                acc = x;
            },
            Option::None => {
                proof {
                    assert(digits_val(next_prefix) > u64::MAX as nat);
                    lemma_digits_val_prefix_bound(whole, k + 1 - start);
                    assert(whole.take(k + 1 - start) =~= next_prefix);
                    let p = crate::value::pow10((whole.len() - (k + 1 - start)) as nat);
                    crate::value::lemma_pow10_pos((whole.len() - (k + 1 - start)) as nat);
                    assert(digits_val(next_prefix) * p >= digits_val(next_prefix) * 1)
                        by (nonlinear_arith)
                        requires
                            p >= 1,
                            digits_val(next_prefix) >= 0,
                    ;
                }
                return Option::None;
            },
        }
        k += 1;
    }
    proof {
        assert(v@.subrange(start as int, end as int) =~= whole);
    }
    Option::Some(acc)
}

} // verus!
