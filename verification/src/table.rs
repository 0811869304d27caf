//! Sorted association tables keyed by strings.
//!
//! The mapping parsers (memory fields, network interfaces, bandwidth
//! counters) return their entries as a `Vec<(String, V)>` kept strictly
//! sorted by key, so that projection over them is deterministic and in
//! lexicographic key order whatever order the device reported the entries.

use vstd::prelude::*;

verus! {

/// Strict lexicographic order on character sequences, by code point.
pub open spec fn lex_lt(a: Seq<char>, b: Seq<char>) -> bool
    decreases a.len(),
{
    if b.len() == 0 {
        false
    } else if a.len() == 0 {
        true
    } else if a[0] < b[0] {
        true
    } else if a[0] == b[0] {
        lex_lt(a.drop_first(), b.drop_first())
    } else {
        false
    }
}

pub proof fn lemma_lex_lt_irrefl(a: Seq<char>)
    ensures
        !lex_lt(a, a),
    decreases a.len(),
{
    if a.len() > 0 {
        lemma_lex_lt_irrefl(a.drop_first());
    }
}

/// If neither sequence precedes the other, they are equal.
pub proof fn lemma_lex_lt_connex(a: Seq<char>, b: Seq<char>)
    requires
        !lex_lt(a, b),
        !lex_lt(b, a),
    ensures
        a == b,
    decreases a.len(),
{
    if a.len() > 0 && b.len() > 0 {
        assert(a[0] == b[0]);
        lemma_lex_lt_connex(a.drop_first(), b.drop_first());
        assert(a.drop_first() == b.drop_first());
        assert(a.drop_first().len() == b.drop_first().len());
        assert(a.len() == b.len());
        assert forall|i: int| 0 <= i < a.len() implies a[i] == b[i] by {
            if i >= 1 {
                assert(a.drop_first()[i - 1] == b.drop_first()[i - 1]);
                assert(a[i] == a.drop_first()[i - 1]);
                assert(b[i] == b.drop_first()[i - 1]);
            }
        }
        assert(a =~= b);
    } else {
        // one of them is empty; were the other nonempty, one of the two
        // lex_lt facts would hold
        assert(a.len() == 0 && b.len() == 0);
        assert(a =~= b);
    }
}

pub proof fn lemma_lex_lt_trans(a: Seq<char>, b: Seq<char>, c: Seq<char>)
    requires
        lex_lt(a, b),
        lex_lt(b, c),
    ensures
        lex_lt(a, c),
    decreases a.len(),
{
    if a.len() == 0 {
        // b is nonempty, so c is nonempty, so lex_lt(a, c)
    } else {
        if a[0] < b[0] {
            // b[0] <= c[0] in either branch of lex_lt(b, c)
        } else {
            if b[0] < c[0] {
            } else {
                lemma_lex_lt_trans(a.drop_first(), b.drop_first(), c.drop_first());
            }
        }
    }
}

/// `a` strictly precedes `b`, or `a` equals `b`, or `b` strictly precedes `a`.
pub proof fn lemma_lex_lt_total(a: Seq<char>, b: Seq<char>)
    ensures
        lex_lt(a, b) || lex_lt(b, a) || a == b,
{
    if !lex_lt(a, b) && !lex_lt(b, a) {
        lemma_lex_lt_connex(a, b);
    }
}

/// Keys strictly increase along the table: sorted, without duplicates.
pub open spec fn sorted_keys<V>(t: Seq<(String, V)>) -> bool {
    forall|i: int, j: int| 0 <= i < j < t.len() ==> lex_lt(#[trigger] t[i].0@, #[trigger] t[j].0@)
}

/// The value stored under `k`, searching front to back.
pub open spec fn lookup<V>(t: Seq<(String, V)>, k: Seq<char>) -> Option<V>
    decreases t.len(),
{
    if t.len() == 0 {
        Option::None
    } else if t[0].0@ == k {
        Option::Some(t[0].1)
    } else {
        lookup(t.drop_first(), k)
    }
}

pub proof fn lemma_lookup_split<V>(a: Seq<(String, V)>, b: Seq<(String, V)>, k: Seq<char>)
    ensures
        lookup(a + b, k) == if lookup(a, k) is Some {
            lookup(a, k)
        } else {
            lookup(b, k)
        },
    decreases a.len(),
{
    if a.len() == 0 {
        assert(a + b =~= b);
    } else {
        assert((a + b).drop_first() =~= a.drop_first() + b);
        lemma_lookup_split(a.drop_first(), b, k);
    }
}

pub proof fn lemma_lookup_none<V>(t: Seq<(String, V)>, k: Seq<char>)
    requires
        forall|i: int| 0 <= i < t.len() ==> (#[trigger] t[i].0@) != k,
    ensures
        lookup(t, k) is None,
    decreases t.len(),
{
    if t.len() > 0 {
        assert(forall|i: int|
            0 <= i < t.drop_first().len() ==> (#[trigger] t.drop_first()[i]) == t[i + 1]);
        lemma_lookup_none(t.drop_first(), k);
    }
}

pub proof fn lemma_lookup_some_mem<V>(t: Seq<(String, V)>, k: Seq<char>, v: V)
    requires
        lookup(t, k) == Option::Some(v),
    ensures
        exists|i: int| 0 <= i < t.len() && (#[trigger] t[i].0@) == k && t[i].1 == v,
    decreases t.len(),
{
    if t.len() > 0 {
        if t[0].0@ == k {
            assert(0 <= 0 < t.len() && t[0].0@ == k && t[0].1 == v);
        } else {
            lemma_lookup_some_mem(t.drop_first(), k, v);
            let i = choose|i: int|
                0 <= i < t.drop_first().len() && (#[trigger] t.drop_first()[i].0@) == k
                    && t.drop_first()[i].1 == v;
            assert(t[i + 1].0@ == k && t[i + 1].1 == v);
        }
    }
}

pub proof fn lemma_lookup_single<V>(e: (String, V), k: Seq<char>)
    ensures
        lookup(seq![e], k) == if e.0@ == k {
            Option::Some(e.1)
        } else {
            Option::<V>::None
        },
{
    reveal_with_fuel(lookup, 2);
    assert(seq![e].drop_first().len() == 0);
}

/// Compares two strings in the `lex_lt` order.
pub fn str_lex_lt(a: &str, b: &str) -> (r: bool)
    ensures
        r == lex_lt(a@, b@),
{
    let va = crate::text::chars_of(a);
    let vb = crate::text::chars_of(b);
    let mut i: usize = 0;
    proof {
        assert(a@.skip(0) =~= a@);
        assert(b@.skip(0) =~= b@);
    }
    loop
        invariant
            i <= va.len(),
            i <= vb.len(),
            va@ == a@,
            vb@ == b@,
            lex_lt(a@, b@) == lex_lt(a@.skip(i as int), b@.skip(i as int)),
        decreases va.len() - i,
    {
        if i >= vb.len() {
            return false;
        }
        if i >= va.len() {
            return true;
        }
        let ca = va[i];
        let cb = vb[i];
        if ca < cb {
            return true;
        }
        if cb < ca {
            return false;
        }
        proof {
            assert(a@.skip(i as int).drop_first() =~= a@.skip(i + 1));
            assert(b@.skip(i as int).drop_first() =~= b@.skip(i + 1));
        }
        i += 1;
    }
}

/// Whether two strings hold the same characters.
pub fn str_eq(a: &str, b: &str) -> (r: bool)
    ensures
        r == (a@ == b@),
{
    let lt = str_lex_lt(a, b);
    let gt = str_lex_lt(b, a);
    proof {
        lemma_lex_lt_total(a@, b@);
        lemma_lex_lt_irrefl(a@);
    }
    !lt && !gt
}

/// Inserts `key -> val`, replacing the entry if the key is already present,
/// keeping the table sorted.
pub fn upsert<V>(t: &mut Vec<(String, V)>, key: String, val: V)
    requires
        sorted_keys(old(t)@),
    ensures
        sorted_keys(final(t)@),
        forall|k: Seq<char>| #![trigger lookup(final(t)@, k)]
            lookup(final(t)@, k) == if k == key@ {
                Option::Some(val)
            } else {
                lookup(old(t)@, k)
            },
{
    let ghost t0 = t@;
    let mut pos: usize = 0;
    loop
        invariant_except_break
            t@ == t0,
            sorted_keys(t0),
            pos <= t.len(),
            forall|i: int| 0 <= i < pos ==> lex_lt(#[trigger] t0[i].0@, key@),
        ensures
            t@ == t0,
            pos <= t0.len(),
            forall|i: int| 0 <= i < pos ==> lex_lt(#[trigger] t0[i].0@, key@),
            pos == t0.len() || !lex_lt(t0[pos as int].0@, key@),
        decreases t.len() - pos,
    {
        if pos >= t.len() {
            break ;
        }
        if !str_lex_lt(t[pos].0.as_str(), key.as_str()) {
            break ;
        }
        pos += 1;
    }
    let replace = pos < t.len() && str_eq(t[pos].0.as_str(), key.as_str());
    if replace {
        let _ = t.remove(pos);
        t.insert(pos, (key, val));
        proof {
            let p = pos as int;
            let tn = t@;
            assert(tn =~= t0.take(p) + seq![(key, val)] + t0.skip(p + 1));
            assert(t0[p].0@ == key@);
            assert forall|i: int, j: int| 0 <= i < j < tn.len() implies lex_lt(
                #[trigger] tn[i].0@,
                #[trigger] tn[j].0@,
            ) by {
                assert(forall|m: int| 0 <= m < tn.len() && m != p ==> (#[trigger] tn[m]) == t0[m]);
                assert(tn[p].0@ == t0[p].0@);
            }
            assert forall|k: Seq<char>| #![trigger lookup(tn, k)]
                lookup(tn, k) == (if k == key@ {
                    Option::Some(val)
                } else {
                    lookup(t0, k)
                }) by {
                let head = t0.take(p);
                let tail = t0.skip(p + 1);
                let mid_new = seq![(key, val)];
                let mid_old = seq![t0[p]];
                lemma_lookup_split(head, mid_new + tail, k);
                assert(head + (mid_new + tail) =~= tn);
                lemma_lookup_split(mid_new, tail, k);
                assert(mid_new[0] == (key, val));
                assert(mid_new.drop_first().len() == 0);
                lemma_lookup_split(head, mid_old + tail, k);
                assert(head + (mid_old + tail) =~= t0);
                lemma_lookup_split(mid_old, tail, k);
                assert(mid_old.drop_first().len() == 0);
                if k == key@ {
                    assert forall|i: int| 0 <= i < head.len() implies (#[trigger] head[i].0@)
                        != k by {
                        assert(head[i] == t0[i]);
                        lemma_lex_lt_irrefl(k);
                    }
                    lemma_lookup_none(head, k);
                    assert(mid_new =~= seq![mid_new[0]]);
                    lemma_lookup_single(mid_new[0], k);
                    assert(lookup(mid_new, k) == Option::Some(val));
                    assert(lookup(tn, k) == Option::Some(val));
                } else {
                    assert(mid_new[0].0@ != k);
                    assert(mid_new =~= seq![mid_new[0]]);
                    lemma_lookup_single(mid_new[0], k);
                    assert(lookup(mid_new, k) is None);
                    assert(mid_old[0].0@ != k);
                    assert(mid_old =~= seq![mid_old[0]]);
                    lemma_lookup_single(mid_old[0], k);
                    assert(lookup(mid_old, k) is None);
                    if lookup(head, k) is Some {
                        assert(lookup(tn, k) == lookup(head, k));
                        assert(lookup(t0, k) == lookup(head, k));
                    } else {
                        assert(lookup(tn, k) == lookup(tail, k));
                        assert(lookup(t0, k) == lookup(tail, k));
                    }
                }
            }
        }
    } else {
        t.insert(pos, (key, val));
        proof {
            let p = pos as int;
            let tn = t@;
            assert(tn =~= t0.take(p) + seq![(key, val)] + t0.skip(p));
            // every key at or after pos strictly follows `key`
            assert forall|j: int| p <= j < t0.len() implies lex_lt(key@, #[trigger] t0[j].0@) by {
                lemma_lex_lt_total(key@, t0[p].0@);
                if j > p {
                    lemma_lex_lt_trans(key@, t0[p].0@, t0[j].0@);
                }
            }
            assert forall|i: int, j: int| 0 <= i < j < tn.len() implies lex_lt(
                #[trigger] tn[i].0@,
                #[trigger] tn[j].0@,
            ) by {
                assert(forall|m: int| 0 <= m < p ==> (#[trigger] tn[m]) == t0[m]);
                assert(forall|m: int| p < m < tn.len() ==> (#[trigger] tn[m]) == t0[m - 1]);
                assert(tn[p].0@ == key@);
            }
            assert forall|k: Seq<char>| #![trigger lookup(tn, k)]
                lookup(tn, k) == (if k == key@ {
                    Option::Some(val)
                } else {
                    lookup(t0, k)
                }) by {
                let head = t0.take(p);
                let tail = t0.skip(p);
                let mid_new = seq![(key, val)];
                lemma_lookup_split(head, mid_new + tail, k);
                assert(head + (mid_new + tail) =~= tn);
                lemma_lookup_split(mid_new, tail, k);
                assert(mid_new[0] == (key, val));
                assert(mid_new.drop_first().len() == 0);
                lemma_lookup_split(head, tail, k);
                assert(head + tail =~= t0);
                if k == key@ {
                    assert forall|i: int| 0 <= i < head.len() implies (#[trigger] head[i].0@)
                        != k by {
                        assert(head[i] == t0[i]);
                        lemma_lex_lt_irrefl(k);
                    }
                    lemma_lookup_none(head, k);
                    assert(mid_new =~= seq![mid_new[0]]);
                    lemma_lookup_single(mid_new[0], k);
                    assert(lookup(mid_new, k) == Option::Some(val));
                    assert(lookup(tn, k) == Option::Some(val));
                } else {
                    assert(mid_new[0].0@ != k);
                    assert(mid_new =~= seq![mid_new[0]]);
                    lemma_lookup_single(mid_new[0], k);
                    assert(lookup(mid_new, k) is None);
                    if lookup(head, k) is Some {
                        assert(lookup(tn, k) == lookup(head, k));
                        assert(lookup(t0, k) == lookup(head, k));
                    } else {
                        assert(lookup(tn, k) == lookup(tail, k));
                        assert(lookup(t0, k) == lookup(tail, k));
                    }
                }
            }
        }
    }
}

/// Two sorted tables that store the same value under every key are the same
/// table: same length, same keys in the same places, same values.  This is
/// why projection over a sorted table cannot depend on the order in which
/// the device happened to report the entries.
pub proof fn lemma_sorted_lookup_determines<V>(a: Seq<(String, V)>, b: Seq<(String, V)>)
    requires
        sorted_keys(a),
        sorted_keys(b),
        forall|k: Seq<char>| #![trigger lookup(a, k)] lookup(a, k) == lookup(b, k),
    ensures
        a.len() == b.len(),
        forall|i: int|
            0 <= i < a.len() ==> ((#[trigger] a[i]).0@ == b[i].0@ && a[i].1 == b[i].1),
    decreases a.len(),
{
    if a.len() == 0 {
        if b.len() > 0 {
            assert(lookup(a, b[0].0@) == lookup(b, b[0].0@));
            assert(lookup(b, b[0].0@) == Option::Some(b[0].1));
        }
    } else if b.len() == 0 {
        assert(lookup(a, a[0].0@) == Option::Some(a[0].1));
        assert(lookup(a, a[0].0@) == lookup(b, a[0].0@));
    } else {
        let ka = a[0].0@;
        let kb = b[0].0@;
        if lex_lt(ka, kb) {
            assert(lookup(a, ka) == Option::Some(a[0].1));
            assert(lookup(b, ka) == Option::Some(a[0].1));
            lemma_lookup_some_mem(b, ka, a[0].1);
            let i = choose|i: int| 0 <= i < b.len() && (#[trigger] b[i].0@) == ka && b[i].1 == a[0].1;
            if i == 0 {
                lemma_lex_lt_irrefl(ka);
            } else {
                lemma_lex_lt_trans(ka, kb, b[i].0@);
                lemma_lex_lt_irrefl(ka);
            }
        }
        if lex_lt(kb, ka) {
            assert(lookup(b, kb) == Option::Some(b[0].1));
            assert(lookup(a, kb) == Option::Some(b[0].1));
            lemma_lookup_some_mem(a, kb, b[0].1);
            let i = choose|i: int| 0 <= i < a.len() && (#[trigger] a[i].0@) == kb && a[i].1 == b[0].1;
            if i == 0 {
                lemma_lex_lt_irrefl(kb);
            } else {
                lemma_lex_lt_trans(kb, ka, a[i].0@);
                lemma_lex_lt_irrefl(kb);
            }
        }
        lemma_lex_lt_connex(ka, kb);
        assert(ka == kb);
        assert(lookup(a, ka) == Option::Some(a[0].1));
        assert(lookup(b, ka) == Option::Some(b[0].1));
        assert(a[0].1 == b[0].1);
        let a1 = a.drop_first();
        let b1 = b.drop_first();
        assert(forall|i: int| 0 <= i < a1.len() ==> (#[trigger] a1[i]) == a[i + 1]);
        assert(forall|i: int| 0 <= i < b1.len() ==> (#[trigger] b1[i]) == b[i + 1]);
        assert(sorted_keys(a1));
        assert(sorted_keys(b1));
        assert forall|k: Seq<char>| #![trigger lookup(a1, k)] lookup(a1, k) == lookup(b1, k) by {
            if k == ka {
                assert forall|i: int| 0 <= i < a1.len() implies (#[trigger] a1[i].0@) != k by {
                    assert(lex_lt(a[0].0@, a[i + 1].0@));
                    lemma_lex_lt_irrefl(k);
                }
                lemma_lookup_none(a1, k);
                assert forall|i: int| 0 <= i < b1.len() implies (#[trigger] b1[i].0@) != k by {
                    assert(lex_lt(b[0].0@, b[i + 1].0@));
                    lemma_lex_lt_irrefl(k);
                }
                lemma_lookup_none(b1, k);
            } else {
                assert(lookup(a, k) == lookup(a1, k));
                assert(lookup(b, k) == lookup(b1, k));
            }
        }
        lemma_sorted_lookup_determines(a1, b1);
        assert forall|i: int|
            0 <= i < a.len() implies ((#[trigger] a[i]).0@ == b[i].0@ && a[i].1 == b[i].1) by {
            if i > 0 {
                assert(a1[i - 1] == a[i] && b1[i - 1] == b[i]);
                assert(a1[i - 1].0@ == b1[i - 1].0@ && a1[i - 1].1 == b1[i - 1].1);
            }
        }
    }
}


/// Keys strictly increase along a table keyed by small integers.
pub open spec fn sorted_u8<V>(t: Seq<(u8, V)>) -> bool {
    forall|i: int, j: int| 0 <= i < j < t.len() ==> (#[trigger] t[i].0) < (#[trigger] t[j].0)
}

/// The value stored under `k`, searching front to back.
pub open spec fn lookup_u8<V>(t: Seq<(u8, V)>, k: u8) -> Option<V>
    decreases t.len(),
{
    if t.len() == 0 {
        Option::None
    } else if t[0].0 == k {
        Option::Some(t[0].1)
    } else {
        lookup_u8(t.drop_first(), k)
    }
}

pub proof fn lemma_lookup_u8_split<V>(a: Seq<(u8, V)>, b: Seq<(u8, V)>, k: u8)
    ensures
        lookup_u8(a + b, k) == if lookup_u8(a, k) is Some {
            lookup_u8(a, k)
        } else {
            lookup_u8(b, k)
        },
    decreases a.len(),
{
    if a.len() == 0 {
        assert(a + b =~= b);
    } else {
        assert((a + b).drop_first() =~= a.drop_first() + b);
        lemma_lookup_u8_split(a.drop_first(), b, k);
    }
}

pub proof fn lemma_lookup_u8_none<V>(t: Seq<(u8, V)>, k: u8)
    requires
        forall|i: int| 0 <= i < t.len() ==> (#[trigger] t[i].0) != k,
    ensures
        lookup_u8(t, k) is None,
    decreases t.len(),
{
    if t.len() > 0 {
        assert(forall|i: int|
            0 <= i < t.drop_first().len() ==> (#[trigger] t.drop_first()[i]) == t[i + 1]);
        lemma_lookup_u8_none(t.drop_first(), k);
    }
}

pub proof fn lemma_lookup_u8_single<V>(e: (u8, V), k: u8)
    ensures
        lookup_u8(seq![e], k) == if e.0 == k {
            Option::Some(e.1)
        } else {
            Option::<V>::None
        },
{
    reveal_with_fuel(lookup_u8, 2);
    assert(seq![e].drop_first().len() == 0);
}

/// Inserts `key -> val` into a table sorted by integer key, replacing the
/// entry if the key is already present.
pub fn upsert_u8<V>(t: &mut Vec<(u8, V)>, key: u8, val: V)
    requires
        sorted_u8(old(t)@),
    ensures
        sorted_u8(final(t)@),
        forall|k: u8| #![trigger lookup_u8(final(t)@, k)]
            lookup_u8(final(t)@, k) == if k == key {
                Option::Some(val)
            } else {
                lookup_u8(old(t)@, k)
            },
{
    let ghost t0 = t@;
    let mut pos: usize = 0;
    loop
        invariant_except_break
            t@ == t0,
            sorted_u8(t0),
            pos <= t.len(),
            forall|i: int| 0 <= i < pos ==> (#[trigger] t0[i].0) < key,
        ensures
            t@ == t0,
            pos <= t0.len(),
            forall|i: int| 0 <= i < pos ==> (#[trigger] t0[i].0) < key,
            pos == t0.len() || t0[pos as int].0 >= key,
        decreases t.len() - pos,
    {
        if pos >= t.len() {
            break ;
        }
        if !(t[pos].0 < key) {
            break ;
        }
        pos += 1;
    }
    let replace = pos < t.len() && t[pos].0 == key;
    if replace {
        let _ = t.remove(pos);
        t.insert(pos, (key, val));
        proof {
            let p = pos as int;
            let tn = t@;
            assert(tn =~= t0.take(p) + seq![(key, val)] + t0.skip(p + 1));
            assert(forall|m: int| 0 <= m < tn.len() && m != p ==> (#[trigger] tn[m]) == t0[m]);
            assert(tn[p].0 == t0[p].0);
            assert(sorted_u8(tn));
            assert forall|k: u8| #![trigger lookup_u8(tn, k)]
                lookup_u8(tn, k) == (if k == key {
                    Option::Some(val)
                } else {
                    lookup_u8(t0, k)
                }) by {
                let head = t0.take(p);
                let tail = t0.skip(p + 1);
                let mid_new = seq![(key, val)];
                let mid_old = seq![t0[p]];
                lemma_lookup_u8_split(head, mid_new + tail, k);
                assert(head + (mid_new + tail) =~= tn);
                lemma_lookup_u8_split(mid_new, tail, k);
                lemma_lookup_u8_single(mid_new[0], k);
                assert(mid_new =~= seq![mid_new[0]]);
                lemma_lookup_u8_split(head, mid_old + tail, k);
                assert(head + (mid_old + tail) =~= t0);
                lemma_lookup_u8_split(mid_old, tail, k);
                assert(mid_old =~= seq![mid_old[0]]);
                lemma_lookup_u8_single(mid_old[0], k);
                if k == key {
                    assert forall|i: int| 0 <= i < head.len() implies (#[trigger] head[i].0)
                        != k by {
                        assert(head[i] == t0[i]);
                    }
                    lemma_lookup_u8_none(head, k);
                    assert(lookup_u8(tn, k) == Option::Some(val));
                } else {
                    if lookup_u8(head, k) is Some {
                        assert(lookup_u8(tn, k) == lookup_u8(head, k));
                        assert(lookup_u8(t0, k) == lookup_u8(head, k));
                    } else {
                        assert(lookup_u8(tn, k) == lookup_u8(tail, k));
                        assert(lookup_u8(t0, k) == lookup_u8(tail, k));
                    }
                }
            }
        }
    } else {
        t.insert(pos, (key, val));
        proof {
            let p = pos as int;
            let tn = t@;
            assert(tn =~= t0.take(p) + seq![(key, val)] + t0.skip(p));
            assert forall|j: int| p <= j < t0.len() implies key < (#[trigger] t0[j].0) by {
                if j > p {
                    assert(t0[p].0 < t0[j].0);
                }
            }
            assert(forall|m: int| 0 <= m < p ==> (#[trigger] tn[m]) == t0[m]);
            assert(forall|m: int| p < m < tn.len() ==> (#[trigger] tn[m]) == t0[m - 1]);
            assert(tn[p].0 == key);
            assert(sorted_u8(tn));
            assert forall|k: u8| #![trigger lookup_u8(tn, k)]
                lookup_u8(tn, k) == (if k == key {
                    Option::Some(val)
                } else {
                    lookup_u8(t0, k)
                }) by {
                let head = t0.take(p);
                let tail = t0.skip(p);
                let mid_new = seq![(key, val)];
                lemma_lookup_u8_split(head, mid_new + tail, k);
                assert(head + (mid_new + tail) =~= tn);
                lemma_lookup_u8_split(mid_new, tail, k);
                assert(mid_new =~= seq![mid_new[0]]);
                lemma_lookup_u8_single(mid_new[0], k);
                lemma_lookup_u8_split(head, tail, k);
                assert(head + tail =~= t0);
                if k == key {
                    assert forall|i: int| 0 <= i < head.len() implies (#[trigger] head[i].0)
                        != k by {
                        assert(head[i] == t0[i]);
                    }
                    lemma_lookup_u8_none(head, k);
                    assert forall|i: int| 0 <= i < tail.len() implies (#[trigger] tail[i].0)
                        != k by {
                        assert(tail[i] == t0[p + i]);
                    }
                    lemma_lookup_u8_none(tail, k);
                    assert(lookup_u8(tn, k) == Option::Some(val));
                } else {
                    if lookup_u8(head, k) is Some {
                        assert(lookup_u8(tn, k) == lookup_u8(head, k));
                        assert(lookup_u8(t0, k) == lookup_u8(head, k));
                    } else {
                        assert(lookup_u8(tn, k) == lookup_u8(tail, k));
                        assert(lookup_u8(t0, k) == lookup_u8(tail, k));
                    }
                }
            }
        }
    }
}


/// Two integer-keyed sorted tables that store the same value under every
/// key are equal.
pub proof fn lemma_sorted_u8_lookup_determines<V>(a: Seq<(u8, V)>, b: Seq<(u8, V)>)
    requires
        sorted_u8(a),
        sorted_u8(b),
        forall|k: u8| #![trigger lookup_u8(a, k)] lookup_u8(a, k) == lookup_u8(b, k),
    ensures
        a.len() == b.len(),
        forall|i: int| 0 <= i < a.len() ==> (#[trigger] a[i]) == b[i],
    decreases a.len(),
{
    if a.len() == 0 {
        if b.len() > 0 {
            assert(lookup_u8(a, b[0].0) == lookup_u8(b, b[0].0));
            assert(lookup_u8(b, b[0].0) == Option::Some(b[0].1));
        }
    } else if b.len() == 0 {
        assert(lookup_u8(a, a[0].0) == Option::Some(a[0].1));
        assert(lookup_u8(a, a[0].0) == lookup_u8(b, a[0].0));
    } else {
        let ka = a[0].0;
        let kb = b[0].0;
        if ka < kb {
            assert(lookup_u8(a, ka) == Option::Some(a[0].1));
            assert(lookup_u8(b, ka) == Option::Some(a[0].1));
            lemma_lookup_u8_some_mem(b, ka, a[0].1);
            let i = choose|i: int| 0 <= i < b.len() && (#[trigger] b[i].0) == ka && b[i].1 == a[0].1;
            if i > 0 {
                assert(b[0].0 < b[i].0);
            }
            assert(false);
        }
        if kb < ka {
            assert(lookup_u8(b, kb) == Option::Some(b[0].1));
            assert(lookup_u8(a, kb) == Option::Some(b[0].1));
            lemma_lookup_u8_some_mem(a, kb, b[0].1);
            let i = choose|i: int| 0 <= i < a.len() && (#[trigger] a[i].0) == kb && a[i].1 == b[0].1;
            if i > 0 {
                assert(a[0].0 < a[i].0);
            }
            assert(false);
        }
        assert(ka == kb);
        assert(lookup_u8(a, ka) == Option::Some(a[0].1));
        assert(lookup_u8(b, ka) == Option::Some(b[0].1));
        assert(a[0].1 == b[0].1);
        let a1 = a.drop_first();
        let b1 = b.drop_first();
        assert(forall|i: int| 0 <= i < a1.len() ==> (#[trigger] a1[i]) == a[i + 1]);
        assert(forall|i: int| 0 <= i < b1.len() ==> (#[trigger] b1[i]) == b[i + 1]);
        assert(sorted_u8(a1));
        assert(sorted_u8(b1));
        assert forall|k: u8| #![trigger lookup_u8(a1, k)] lookup_u8(a1, k) == lookup_u8(
            b1,
            k,
        ) by {
            if k == ka {
                assert forall|i: int| 0 <= i < a1.len() implies (#[trigger] a1[i].0) != k by {
                    assert(a[0].0 < a[i + 1].0);
                }
                lemma_lookup_u8_none(a1, k);
                assert forall|i: int| 0 <= i < b1.len() implies (#[trigger] b1[i].0) != k by {
                    assert(b[0].0 < b[i + 1].0);
                }
                lemma_lookup_u8_none(b1, k);
            } else {
                assert(lookup_u8(a, k) == lookup_u8(a1, k));
                assert(lookup_u8(b, k) == lookup_u8(b1, k));
            }
        }
        lemma_sorted_u8_lookup_determines(a1, b1);
        assert forall|i: int| 0 <= i < a.len() implies (#[trigger] a[i]) == b[i] by {
            if i > 0 {
                assert(a1[i - 1] == a[i] && b1[i - 1] == b[i]);
            } else {
                assert(a[0] == (a[0].0, a[0].1));
                assert(b[0] == (b[0].0, b[0].1));
            }
        }
    }
}

pub proof fn lemma_lookup_u8_some_mem<V>(t: Seq<(u8, V)>, k: u8, v: V)
    requires
        lookup_u8(t, k) == Option::Some(v),
    ensures
        exists|i: int| 0 <= i < t.len() && (#[trigger] t[i].0) == k && t[i].1 == v,
    decreases t.len(),
{
    if t.len() > 0 {
        if t[0].0 == k {
            assert(0 <= 0 < t.len() && t[0].0 == k && t[0].1 == v);
        } else {
            lemma_lookup_u8_some_mem(t.drop_first(), k, v);
            let i = choose|i: int|
                0 <= i < t.drop_first().len() && (#[trigger] t.drop_first()[i].0) == k
                    && t.drop_first()[i].1 == v;
            assert(t[i + 1].0 == k && t[i + 1].1 == v);
        }
    }
}

} // verus!


