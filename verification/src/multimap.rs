//! The insertion-ordered multimap that the hash joins build from their
//! right input: one entry per distinct key, values grouped in arrival
//! order, entries in first-occurrence order.  The tagged variant adds the
//! matched flag that the right-side-revisiting modes consult when they
//! drain unmatched entries.

use vstd::prelude::*;
use crate::key::{key_eq, Atom, VarData};

verus! {

/// True when the right input holds at least one value under `k`.
pub open spec fn has_key(rv: Seq<(Seq<Atom>, Seq<char>)>, k: Seq<Atom>) -> bool {
    exists|i: int| 0 <= i < rv.len() && (#[trigger] rv[i]).0 == k
}

/// The values the right input holds under `k`, in arrival order.
pub open spec fn right_values(rv: Seq<(Seq<Atom>, Seq<char>)>, k: Seq<Atom>) -> Seq<Seq<char>>
    decreases rv.len(),
{
    if rv.len() == 0 {
        Seq::empty()
    } else {
        let rest = right_values(rv.drop_last(), k);
        if rv.last().0 == k {
            rest.push(rv.last().1)
        } else {
            rest
        }
    }
}

/// The distinct keys of the right input, in first-occurrence order.
pub open spec fn distinct_keys(rv: Seq<(Seq<Atom>, Seq<char>)>) -> Seq<Seq<Atom>>
    decreases rv.len(),
{
    if rv.len() == 0 {
        Seq::empty()
    } else {
        let prior = distinct_keys(rv.drop_last());
        if prior.contains(rv.last().0) {
            prior
        } else {
            prior.push(rv.last().0)
        }
    }
}

/// True when the multimap holds an entry for `k`.
pub open spec fn mm_contains(m: Seq<(Seq<Atom>, Seq<Seq<char>>)>, k: Seq<Atom>) -> bool
    decreases m.len(),
{
    if m.len() == 0 {
        false
    } else {
        m[0].0 == k || mm_contains(m.skip(1), k)
    }
}

/// The value list the multimap holds under `k`.
pub open spec fn mm_get(m: Seq<(Seq<Atom>, Seq<Seq<char>>)>, k: Seq<Atom>) -> Seq<Seq<char>>
    decreases m.len(),
{
    if m.len() == 0 {
        Seq::empty()
    } else if m[0].0 == k {
        m[0].1
    } else {
        mm_get(m.skip(1), k)
    }
}

/// Adds one value under `k`: appended to the entry for `k` if one exists,
/// else as a fresh entry at the end.
pub open spec fn mm_insert(
    m: Seq<(Seq<Atom>, Seq<Seq<char>>)>,
    k: Seq<Atom>,
    v: Seq<char>,
) -> Seq<(Seq<Atom>, Seq<Seq<char>>)>
    decreases m.len(),
{
    if m.len() == 0 {
        seq![(k, seq![v])]
    } else if m[0].0 == k {
        seq![(m[0].0, m[0].1.push(v))] + m.skip(1)
    } else {
        seq![m[0]] + mm_insert(m.skip(1), k, v)
    }
}

/// The multimap the right input builds, value by value.
pub open spec fn mm_of(rv: Seq<(Seq<Atom>, Seq<char>)>) -> Seq<(Seq<Atom>, Seq<Seq<char>>)>
    decreases rv.len(),
{
    if rv.len() == 0 {
        Seq::empty()
    } else {
        mm_insert(mm_of(rv.drop_last()), rv.last().0, rv.last().1)
    }
}

/// Containment in the multimap is existence of an entry.
pub proof fn lemma_mm_contains_index(m: Seq<(Seq<Atom>, Seq<Seq<char>>)>, k: Seq<Atom>)
    ensures
        mm_contains(m, k) <==> exists|i: int| 0 <= i < m.len() && (#[trigger] m[i]).0 == k,
    decreases m.len(),
{
    if m.len() > 0 {
        lemma_mm_contains_index(m.skip(1), k);
        if m[0].0 == k {
        } else {
            assert(forall|i: int|
                0 <= i < m.skip(1).len() ==> #[trigger] m.skip(1)[i] == m[i + 1]);
            if mm_contains(m, k) {
                let i = choose|i: int| 0 <= i < m.skip(1).len() && (#[trigger] m.skip(1)[i]).0
                    == k;
                assert(m[i + 1].0 == k);
            }
            if exists|i: int| 0 <= i < m.len() && (#[trigger] m[i]).0 == k {
                let i = choose|i: int| 0 <= i < m.len() && (#[trigger] m[i]).0 == k;
                assert(i != 0);
                assert(m.skip(1)[i - 1].0 == k);
            }
        }
    }
}

/// The value list under `k` is the one of the first entry for `k`.
pub proof fn lemma_mm_get_first(m: Seq<(Seq<Atom>, Seq<Seq<char>>)>, k: Seq<Atom>, i: int)
    requires
        0 <= i < m.len(),
        m[i].0 == k,
        forall|j: int| 0 <= j < i ==> (#[trigger] m[j]).0 != k,
    ensures
        mm_contains(m, k),
        mm_get(m, k) == m[i].1,
    decreases i,
{
    if i == 0 {
    } else {
        assert(forall|j: int| 0 <= j < m.skip(1).len() ==> #[trigger] m.skip(1)[j] == m[j + 1]);
        lemma_mm_get_first(m.skip(1), k, i - 1);
    }
}

/// Inserting under a key the multimap lacks appends a fresh entry.
pub proof fn lemma_mm_insert_missing(
    m: Seq<(Seq<Atom>, Seq<Seq<char>>)>,
    k: Seq<Atom>,
    v: Seq<char>,
)
    requires
        forall|j: int| 0 <= j < m.len() ==> (#[trigger] m[j]).0 != k,
    ensures
        mm_insert(m, k, v) == m.push((k, seq![v])),
    decreases m.len(),
{
    if m.len() == 0 {
        assert(mm_insert(m, k, v) =~= m.push((k, seq![v])));
    } else {
        assert(forall|j: int| 0 <= j < m.skip(1).len() ==> #[trigger] m.skip(1)[j] == m[j + 1]);
        lemma_mm_insert_missing(m.skip(1), k, v);
        assert(mm_insert(m, k, v) =~= m.push((k, seq![v])));
    }
}

/// Inserting under the key of the first matching entry extends that
/// entry's value list in place.
pub proof fn lemma_mm_insert_found(
    m: Seq<(Seq<Atom>, Seq<Seq<char>>)>,
    k: Seq<Atom>,
    v: Seq<char>,
    i: int,
)
    requires
        0 <= i < m.len(),
        m[i].0 == k,
        forall|j: int| 0 <= j < i ==> (#[trigger] m[j]).0 != k,
    ensures
        mm_insert(m, k, v) == m.update(i, (m[i].0, m[i].1.push(v))),
    decreases i,
{
    if i == 0 {
        assert(mm_insert(m, k, v) =~= m.update(0, (m[0].0, m[0].1.push(v))));
    } else {
        assert(forall|j: int| 0 <= j < m.skip(1).len() ==> #[trigger] m.skip(1)[j] == m[j + 1]);
        lemma_mm_insert_found(m.skip(1), k, v, i - 1);
        assert(mm_insert(m, k, v) =~= m.update(i, (m[i].0, m[i].1.push(v))));
    }
}

/// A value under another key leaves the values of `k` untouched.
pub proof fn lemma_right_values_other(rv: Seq<(Seq<Atom>, Seq<char>)>, k: Seq<Atom>)
    requires
        rv.len() > 0,
        rv.last().0 != k,
    ensures
        right_values(rv, k) == right_values(rv.drop_last(), k),
{
}

/// The distinct keys contain exactly the keys the right input has, once
/// each.
pub proof fn lemma_distinct_keys(rv: Seq<(Seq<Atom>, Seq<char>)>)
    ensures
        forall|k: Seq<Atom>| distinct_keys(rv).contains(k) <==> has_key(rv, k),
        distinct_keys(rv).no_duplicates(),
    decreases rv.len(),
{
    if rv.len() == 0 {
        assert forall|k: Seq<Atom>| distinct_keys(rv).contains(k) <==> has_key(rv, k) by {
            if has_key(rv, k) {
                let i = choose|i: int| 0 <= i < rv.len() && (#[trigger] rv[i]).0 == k;
            }
        }
    } else {
        let rv0 = rv.drop_last();
        lemma_distinct_keys(rv0);
        let last = rv.last();
        let ks0 = distinct_keys(rv0);
        let ks = distinct_keys(rv);
        assert(forall|i: int| 0 <= i < rv0.len() ==> #[trigger] rv0[i] == rv[i]);
        if ks0.contains(last.0) {
            assert(ks == ks0);
        } else {
            assert(ks == ks0.push(last.0));
            assert(forall|i: int| 0 <= i < ks0.len() ==> #[trigger] ks[i] == ks0[i]);
            assert(ks[ks.len() - 1] == last.0);
        }
        assert forall|k: Seq<Atom>| ks.contains(k) <==> has_key(rv, k) by {
            if ks.contains(k) {
                if k == last.0 {
                    assert(rv[rv.len() - 1].0 == k);
                } else {
                    let i = choose|i: int| 0 <= i < ks.len() && ks[i] == k;
                    assert(i < ks0.len());
                    assert(ks0[i] == k);
                    assert(ks0.contains(k));
                    assert(has_key(rv0, k));
                    let t = choose|t: int| 0 <= t < rv0.len() && (#[trigger] rv0[t]).0 == k;
                    assert(rv[t].0 == k);
                }
            }
            if has_key(rv, k) {
                let i = choose|i: int| 0 <= i < rv.len() && (#[trigger] rv[i]).0 == k;
                if i < rv.len() - 1 {
                    assert(rv0[i].0 == k);
                    assert(has_key(rv0, k));
                    assert(ks0.contains(k));
                    let t = choose|t: int| 0 <= t < ks0.len() && ks0[t] == k;
                    assert(ks[t] == k);
                    assert(ks.contains(k));
                } else {
                    assert(k == last.0);
                    if ks0.contains(last.0) {
                        assert(ks.contains(k));
                    } else {
                        assert(ks[ks.len() - 1] == k);
                        assert(ks.contains(k));
                    }
                }
            }
        }
        assert(ks.no_duplicates()) by {
            if !ks0.contains(last.0) {
                assert(forall|i: int, j: int|
                    0 <= i < j < ks0.len() ==> #[trigger] ks[i] != #[trigger] ks[j]);
                assert(forall|i: int|
                    0 <= i < ks0.len() ==> #[trigger] ks[i] == ks0[i] && ks0.contains(ks0[i]));
            }
        }
    }
}

/// The multimap of the right input: one entry per distinct key in
/// first-occurrence order, each holding that key's values in arrival
/// order.
pub proof fn lemma_mm_of_entries(rv: Seq<(Seq<Atom>, Seq<char>)>)
    ensures
        mm_of(rv).len() == distinct_keys(rv).len(),
        forall|i: int|
            0 <= i < mm_of(rv).len() ==> (#[trigger] mm_of(rv)[i]).0 == distinct_keys(rv)[i],
        forall|i: int|
            0 <= i < mm_of(rv).len() ==> (#[trigger] mm_of(rv)[i]).1 == right_values(
                rv,
                mm_of(rv)[i].0,
            ),
    decreases rv.len(),
{
    if rv.len() == 0 {
    } else {
        let rv0 = rv.drop_last();
        let last = rv.last();
        lemma_mm_of_entries(rv0);
        lemma_distinct_keys(rv0);
        let m0 = mm_of(rv0);
        let ks0 = distinct_keys(rv0);
        if ks0.contains(last.0) {
            let i = choose|i: int| 0 <= i < ks0.len() && ks0[i] == last.0;
            assert(m0[i].0 == last.0);
            assert(forall|j: int| 0 <= j < i ==> (#[trigger] m0[j]).0 != last.0) by {
                assert(forall|j: int|
                    0 <= j < i ==> #[trigger] ks0[j] != ks0[i]);
            }
            lemma_mm_insert_found(m0, last.0, last.1, i);
            assert(distinct_keys(rv) == ks0);
            assert forall|t: int| 0 <= t < mm_of(rv).len() implies (#[trigger] mm_of(rv)[t]).1
                == right_values(rv, mm_of(rv)[t].0) by {
                if t == i {
                    assert(mm_of(rv)[t] == (m0[i].0, m0[i].1.push(last.1)));
                    assert(right_values(rv, last.0) == right_values(rv0, last.0).push(last.1));
                } else {
                    assert(mm_of(rv)[t] == m0[t]);
                    assert(m0[t].0 != last.0) by {
                        assert(ks0[t] != ks0[i]);
                    }
                    lemma_right_values_other(rv, m0[t].0);
                }
            }
        } else {
            assert(forall|j: int| 0 <= j < m0.len() ==> (#[trigger] m0[j]).0 != last.0) by {
                assert(forall|j: int|
                    0 <= j < m0.len() ==> #[trigger] ks0[j] == m0[j].0 && ks0.contains(ks0[j]));
            }
            lemma_mm_insert_missing(m0, last.0, last.1);
            assert(distinct_keys(rv) == ks0.push(last.0));
            assert forall|t: int| 0 <= t < mm_of(rv).len() implies (#[trigger] mm_of(rv)[t]).1
                == right_values(rv, mm_of(rv)[t].0) by {
                if t == m0.len() {
                    assert(mm_of(rv)[t] == (last.0, seq![last.1]));
                    assert(right_values(rv, last.0) == right_values(rv0, last.0).push(last.1));
                    assert(!has_key(rv0, last.0));
                    lemma_right_values_empty(rv0, last.0);
                    assert(right_values(rv0, last.0).push(last.1) =~= seq![last.1]);
                } else {
                    assert(mm_of(rv)[t] == m0[t]);
                    assert(m0[t].0 != last.0);
                    lemma_right_values_other(rv, m0[t].0);
                }
            }
        }
    }
}

/// A key the right input lacks has no values.
pub proof fn lemma_right_values_empty(rv: Seq<(Seq<Atom>, Seq<char>)>, k: Seq<Atom>)
    requires
        !has_key(rv, k),
    ensures
        right_values(rv, k).len() == 0,
    decreases rv.len(),
{
    if rv.len() > 0 {
        assert(rv[rv.len() - 1].0 != k);
        assert(!has_key(rv.drop_last(), k)) by {
            if has_key(rv.drop_last(), k) {
                let i = choose|i: int|
                    0 <= i < rv.drop_last().len() && (#[trigger] rv.drop_last()[i]).0 == k;
                assert(rv[i].0 == k);
            }
        }
        lemma_right_values_empty(rv.drop_last(), k);
    }
}

/// Containment in the multimap of the right input is having the key, and
/// the entry holds that key's values.
pub proof fn lemma_mm_of_get(rv: Seq<(Seq<Atom>, Seq<char>)>, k: Seq<Atom>)
    ensures
        mm_contains(mm_of(rv), k) == has_key(rv, k),
        mm_contains(mm_of(rv), k) ==> mm_get(mm_of(rv), k) == right_values(rv, k),
{
    lemma_mm_of_entries(rv);
    lemma_distinct_keys(rv);
    lemma_mm_contains_index(mm_of(rv), k);
    if mm_contains(mm_of(rv), k) {
        let i = choose|i: int| 0 <= i < mm_of(rv).len() && (#[trigger] mm_of(rv)[i]).0 == k;
        assert(distinct_keys(rv)[i] == k);
        assert(distinct_keys(rv).contains(k));
        lemma_mm_first_index(mm_of(rv), k, i);
        let f = choose|f: int|
            0 <= f < mm_of(rv).len() && (#[trigger] mm_of(rv)[f]).0 == k && (forall|j: int|
                0 <= j < f ==> (#[trigger] mm_of(rv)[j]).0 != k);
        lemma_mm_get_first(mm_of(rv), k, f);
    }
    if has_key(rv, k) {
        assert(distinct_keys(rv).contains(k));
        let i = choose|i: int|
            0 <= i < distinct_keys(rv).len() && distinct_keys(rv)[i] == k;
        assert(mm_of(rv)[i].0 == k);
    }
}

/// A multimap that holds an entry for `k` holds a first such entry.
pub proof fn lemma_mm_first_index(m: Seq<(Seq<Atom>, Seq<Seq<char>>)>, k: Seq<Atom>, i: int)
    requires
        0 <= i < m.len(),
        m[i].0 == k,
    ensures
        exists|f: int|
            0 <= f < m.len() && (#[trigger] m[f]).0 == k && (forall|j: int|
                0 <= j < f ==> (#[trigger] m[j]).0 != k),
    decreases i,
{
    if forall|j: int| 0 <= j < i ==> (#[trigger] m[j]).0 != k {
        assert(0 <= i < m.len() && m[i].0 == k && (forall|j: int|
            0 <= j < i ==> (#[trigger] m[j]).0 != k));
    } else {
        let e = choose|e: int| 0 <= e < i && (#[trigger] m[e]).0 == k;
        lemma_mm_first_index(m, k, e);
    }
}

/// Strips the matched flags off a tagged multimap.
pub open spec fn strip(m: Seq<(Seq<Atom>, Seq<Seq<char>>, bool)>) -> Seq<(Seq<Atom>, Seq<Seq<char>>)> {
    Seq::new(m.len(), |i: int| (m[i].0, m[i].1))
}

/// Adds one value under `k` in a tagged multimap, leaving flags alone; a
/// fresh entry starts unmatched.
pub open spec fn mmt_insert(
    m: Seq<(Seq<Atom>, Seq<Seq<char>>, bool)>,
    k: Seq<Atom>,
    v: Seq<char>,
) -> Seq<(Seq<Atom>, Seq<Seq<char>>, bool)>
    decreases m.len(),
{
    if m.len() == 0 {
        seq![(k, seq![v], false)]
    } else if m[0].0 == k {
        seq![(m[0].0, m[0].1.push(v), m[0].2)] + m.skip(1)
    } else {
        seq![m[0]] + mmt_insert(m.skip(1), k, v)
    }
}

/// The tagged multimap the right input builds, every entry unmatched.
pub open spec fn mmt_of(rv: Seq<(Seq<Atom>, Seq<char>)>) -> Seq<(Seq<Atom>, Seq<Seq<char>>, bool)>
    decreases rv.len(),
{
    if rv.len() == 0 {
        Seq::empty()
    } else {
        mmt_insert(mmt_of(rv.drop_last()), rv.last().0, rv.last().1)
    }
}

/// Marks the first entry for `k` as matched, if one exists.
pub open spec fn mmt_mark(
    m: Seq<(Seq<Atom>, Seq<Seq<char>>, bool)>,
    k: Seq<Atom>,
) -> Seq<(Seq<Atom>, Seq<Seq<char>>, bool)>
    decreases m.len(),
{
    if m.len() == 0 {
        m
    } else if m[0].0 == k {
        seq![(m[0].0, m[0].1, true)] + m.skip(1)
    } else {
        seq![m[0]] + mmt_mark(m.skip(1), k)
    }
}

/// Marks the keys of a whole left input, item by item.
pub open spec fn mark_all(
    m: Seq<(Seq<Atom>, Seq<Seq<char>>, bool)>,
    lv: Seq<(Seq<Atom>, Seq<char>)>,
) -> Seq<(Seq<Atom>, Seq<Seq<char>>, bool)>
    decreases lv.len(),
{
    if lv.len() == 0 {
        m
    } else {
        mark_all(mmt_mark(m, lv[0].0), lv.skip(1))
    }
}

/// Inserting into a tagged multimap matches inserting into its stripped
/// form.
pub proof fn lemma_mmt_strip_insert(
    m: Seq<(Seq<Atom>, Seq<Seq<char>>, bool)>,
    k: Seq<Atom>,
    v: Seq<char>,
)
    ensures
        strip(mmt_insert(m, k, v)) == mm_insert(strip(m), k, v),
    decreases m.len(),
{
    if m.len() == 0 {
        assert(strip(mmt_insert(m, k, v)) =~= mm_insert(strip(m), k, v));
    } else {
        lemma_mmt_strip_insert(m.skip(1), k, v);
        assert(strip(m)[0] == (m[0].0, m[0].1));
        assert(strip(m.skip(1)) =~= strip(m).skip(1));
        if m[0].0 == k {
            assert(strip(mmt_insert(m, k, v)) =~= mm_insert(strip(m), k, v));
        } else {
            assert(strip(mmt_insert(m, k, v)) =~= mm_insert(strip(m), k, v));
        }
    }
}

/// The tagged multimap of the right input is the plain one with every
/// entry unmatched.
pub proof fn lemma_mmt_of_strip(rv: Seq<(Seq<Atom>, Seq<char>)>)
    ensures
        strip(mmt_of(rv)) == mm_of(rv),
        forall|i: int| 0 <= i < mmt_of(rv).len() ==> !(#[trigger] mmt_of(rv)[i]).2,
    decreases rv.len(),
{
    if rv.len() == 0 {
        assert(strip(mmt_of(rv)) =~= mm_of(rv));
    } else {
        lemma_mmt_of_strip(rv.drop_last());
        lemma_mmt_strip_insert(mmt_of(rv.drop_last()), rv.last().0, rv.last().1);
        lemma_mmt_insert_flags(mmt_of(rv.drop_last()), rv.last().0, rv.last().1);
    }
}

/// Inserting preserves an all-unmatched multimap.
proof fn lemma_mmt_insert_flags(
    m: Seq<(Seq<Atom>, Seq<Seq<char>>, bool)>,
    k: Seq<Atom>,
    v: Seq<char>,
)
    requires
        forall|i: int| 0 <= i < m.len() ==> !(#[trigger] m[i]).2,
    ensures
        forall|i: int|
            0 <= i < mmt_insert(m, k, v).len() ==> !(#[trigger] mmt_insert(m, k, v)[i]).2,
    decreases m.len(),
{
    if m.len() == 0 {
    } else {
        assert(forall|i: int| 0 <= i < m.skip(1).len() ==> #[trigger] m.skip(1)[i] == m[i + 1]);
        lemma_mmt_insert_flags(m.skip(1), k, v);
        if m[0].0 == k {
        } else {
            assert(forall|i: int|
                1 <= i < mmt_insert(m, k, v).len() ==> #[trigger] mmt_insert(m, k, v)[i]
                    == mmt_insert(m.skip(1), k, v)[i - 1]);
        }
    }
}

/// Marking leaves keys and values untouched.
pub proof fn lemma_mmt_mark_strip(m: Seq<(Seq<Atom>, Seq<Seq<char>>, bool)>, k: Seq<Atom>)
    ensures
        strip(mmt_mark(m, k)) == strip(m),
        mmt_mark(m, k).len() == m.len(),
    decreases m.len(),
{
    if m.len() == 0 {
        assert(strip(mmt_mark(m, k)) =~= strip(m));
    } else {
        lemma_mmt_mark_strip(m.skip(1), k);
        assert(strip(m.skip(1)) =~= strip(m).skip(1));
        if m[0].0 == k {
            let x = seq![(m[0].0, m[0].1, true)] + m.skip(1);
            assert(mmt_mark(m, k) == x);
            assert forall|j: int| 0 <= j < x.len() implies strip(x)[j] == strip(m)[j] by {
                if j >= 1 {
                    assert(x[j] == m.skip(1)[j - 1]);
                    assert(m.skip(1)[j - 1] == m[j]);
                }
            }
            assert(strip(mmt_mark(m, k)) =~= strip(m));
        } else {
            let x = seq![m[0]] + mmt_mark(m.skip(1), k);
            assert(mmt_mark(m, k) == x);
            assert forall|j: int| 0 <= j < x.len() implies strip(x)[j] == strip(m)[j] by {
                if j >= 1 {
                    assert(x[j] == mmt_mark(m.skip(1), k)[j - 1]);
                    assert(strip(mmt_mark(m.skip(1), k))[j - 1] == strip(m.skip(1))[j - 1]);
                    assert(strip(x)[j] == (x[j].0, x[j].1));
                    assert(strip(m)[j] == (m[j].0, m[j].1));
                    assert(strip(m.skip(1))[j - 1] == (m.skip(1)[j - 1].0, m.skip(1)[j - 1].1));
                    assert(m.skip(1)[j - 1] == m[j]);
                }
            }
            assert(strip(mmt_mark(m, k)) =~= strip(m));
        }
    }
}

/// Marking a whole left input leaves keys and values untouched.
pub proof fn lemma_mark_all_strip(
    m: Seq<(Seq<Atom>, Seq<Seq<char>>, bool)>,
    lv: Seq<(Seq<Atom>, Seq<char>)>,
)
    ensures
        strip(mark_all(m, lv)) == strip(m),
        mark_all(m, lv).len() == m.len(),
    decreases lv.len(),
{
    if lv.len() == 0 {
    } else {
        lemma_mmt_mark_strip(m, lv[0].0);
        lemma_mark_all_strip(mmt_mark(m, lv[0].0), lv.skip(1));
    }
}

/// Marking a key the multimap lacks changes nothing.
pub proof fn lemma_mmt_mark_missing(m: Seq<(Seq<Atom>, Seq<Seq<char>>, bool)>, k: Seq<Atom>)
    requires
        forall|j: int| 0 <= j < m.len() ==> (#[trigger] m[j]).0 != k,
    ensures
        mmt_mark(m, k) == m,
    decreases m.len(),
{
    if m.len() == 0 {
    } else {
        assert(forall|j: int| 0 <= j < m.skip(1).len() ==> #[trigger] m.skip(1)[j] == m[j + 1]);
        lemma_mmt_mark_missing(m.skip(1), k);
        assert(mmt_mark(m, k) =~= m);
    }
}

/// Marking the key of the first matching entry sets that entry's flag.
pub proof fn lemma_mmt_mark_found(m: Seq<(Seq<Atom>, Seq<Seq<char>>, bool)>, k: Seq<Atom>, i: int)
    requires
        0 <= i < m.len(),
        m[i].0 == k,
        forall|j: int| 0 <= j < i ==> (#[trigger] m[j]).0 != k,
    ensures
        mmt_mark(m, k) == m.update(i, (m[i].0, m[i].1, true)),
    decreases i,
{
    if i == 0 {
        assert(mmt_mark(m, k) =~= m.update(0, (m[0].0, m[0].1, true)));
    } else {
        assert(forall|j: int| 0 <= j < m.skip(1).len() ==> #[trigger] m.skip(1)[j] == m[j + 1]);
        lemma_mmt_mark_found(m.skip(1), k, i - 1);
        assert(mmt_mark(m, k) =~= m.update(i, (m[i].0, m[i].1, true)));
    }
}


/// Appends one value to the entry at index `t`, in place.
fn mm_push_at(m: &mut Vec<(Vec<VarData>, Vec<String>)>, t: usize, v: String)
    requires
        t < old(m)@.len(),
    ensures
        final(m).deep_view() == old(m).deep_view().update(
            t as int,
            (old(m).deep_view()[t as int].0, old(m).deep_view()[t as int].1.push(v@)),
        ),
{
    let ghost d0 = m.deep_view();
    let ghost s0 = m@;
    let ghost vd = v@;
    let entry = m.remove(t);
    let (kk, mut vv) = entry;
    let ghost kkd = kk.deep_view();
    let ghost vvd = vv.deep_view();
    proof {
        assert(kkd == d0[t as int].0);
        assert(vvd == d0[t as int].1);
    }
    vv.push(v);
    proof {
        assert(vv.deep_view() =~= vvd.push(vd));
    }
    m.insert(t, (kk, vv));
    proof {
        s0.remove_ensures(t as int);
        s0.remove(t as int).insert_ensures(t as int, m@[t as int]);
        assert(m@[t as int] == (kk, vv));
        assert forall|j: int|
            0 <= j < m.deep_view().len() implies m.deep_view()[j] == d0.update(
            t as int,
            (d0[t as int].0, d0[t as int].1.push(vd)),
        )[j] by {
            if j < t as int {
                assert(m@[j] == s0.remove(t as int)[j]);
                assert(m@[j] == s0[j]);
            } else if j == t as int {
            } else {
                assert(m@[j] == s0.remove(t as int)[j - 1]);
                assert(m@[j] == s0[j]);
            }
        }
        assert(m.deep_view() =~= d0.update(
            t as int,
            (d0[t as int].0, d0[t as int].1.push(vd)),
        ));
    }
}

/// Appends one value to the tagged entry at index `t`, keeping its flag.
fn mmt_push_at(m: &mut Vec<(Vec<VarData>, Vec<String>, bool)>, t: usize, v: String)
    requires
        t < old(m)@.len(),
    ensures
        final(m).deep_view() == old(m).deep_view().update(
            t as int,
            (
                old(m).deep_view()[t as int].0,
                old(m).deep_view()[t as int].1.push(v@),
                old(m).deep_view()[t as int].2,
            ),
        ),
{
    let ghost d0 = m.deep_view();
    let ghost s0 = m@;
    let ghost vd = v@;
    let entry = m.remove(t);
    let (kk, mut vv, fl) = entry;
    let ghost kkd = kk.deep_view();
    let ghost vvd = vv.deep_view();
    proof {
        assert(kkd == d0[t as int].0);
        assert(vvd == d0[t as int].1);
        assert(fl == d0[t as int].2);
    }
    vv.push(v);
    proof {
        assert(vv.deep_view() =~= vvd.push(vd));
    }
    m.insert(t, (kk, vv, fl));
    proof {
        s0.remove_ensures(t as int);
        s0.remove(t as int).insert_ensures(t as int, m@[t as int]);
        assert(m@[t as int] == (kk, vv, fl));
        assert forall|j: int|
            0 <= j < m.deep_view().len() implies m.deep_view()[j] == d0.update(
            t as int,
            (d0[t as int].0, d0[t as int].1.push(vd), d0[t as int].2),
        )[j] by {
            if j < t as int {
                assert(m@[j] == s0.remove(t as int)[j]);
                assert(m@[j] == s0[j]);
            } else if j == t as int {
            } else {
                assert(m@[j] == s0.remove(t as int)[j - 1]);
                assert(m@[j] == s0[j]);
            }
        }
        assert(m.deep_view() =~= d0.update(
            t as int,
            (d0[t as int].0, d0[t as int].1.push(vd), d0[t as int].2),
        ));
    }
}

/// Looks up the first entry for `k` in the plain multimap.
pub fn mm_lookup(m: &Vec<(Vec<VarData>, Vec<String>)>, k: &Vec<VarData>) -> (r: Option<usize>)
    ensures
        match r {
            Some(i) => {
                &&& (i as int) < m.deep_view().len()
                &&& m.deep_view()[i as int].0 == k.deep_view()
                &&& mm_contains(m.deep_view(), k.deep_view())
                &&& mm_get(m.deep_view(), k.deep_view()) == m.deep_view()[i as int].1
                &&& forall|j: int|
                    0 <= j < i as int ==> (#[trigger] m.deep_view()[j]).0 != k.deep_view()
            },
            None => !mm_contains(m.deep_view(), k.deep_view()),
        },
{
    let mut i: usize = 0;
    while i < m.len()
        invariant
            i <= m@.len(),
            m.deep_view().len() == m@.len(),
            forall|j: int| 0 <= j < i ==> (#[trigger] m.deep_view()[j]).0 != k.deep_view(),
        decreases m@.len() - i,
    {
        if key_eq(&m[i].0, k) {
            proof {
                lemma_mm_get_first(m.deep_view(), k.deep_view(), i as int);
            }
            return Some(i);
        }
        i = i + 1;
    }
    proof {
        lemma_mm_contains_index(m.deep_view(), k.deep_view());
    }
    None
}

/// Looks up the first entry for `k` in the tagged multimap.
pub fn mmt_lookup(m: &Vec<(Vec<VarData>, Vec<String>, bool)>, k: &Vec<VarData>) -> (r: Option<
    usize,
>)
    ensures
        match r {
            Some(i) => {
                &&& (i as int) < m.deep_view().len()
                &&& m.deep_view()[i as int].0 == k.deep_view()
                &&& forall|j: int|
                    0 <= j < i as int ==> (#[trigger] m.deep_view()[j]).0 != k.deep_view()
            },
            None => forall|j: int|
                0 <= j < m.deep_view().len() ==> (#[trigger] m.deep_view()[j]).0
                    != k.deep_view(),
        },
{
    let mut i: usize = 0;
    while i < m.len()
        invariant
            i <= m@.len(),
            m.deep_view().len() == m@.len(),
            forall|j: int| 0 <= j < i ==> (#[trigger] m.deep_view()[j]).0 != k.deep_view(),
        decreases m@.len() - i,
    {
        if key_eq(&m[i].0, k) {
            return Some(i);
        }
        i = i + 1;
    }
    None
}

/// Builds the plain multimap from the whole right input.
pub fn mm_build(right: Vec<(Vec<VarData>, String)>) -> (m: Vec<(Vec<VarData>, Vec<String>)>)
    ensures
        m.deep_view() == mm_of(right.deep_view()),
{
    let ghost rv = right.deep_view();
    let mut right = right;
    let mut m: Vec<(Vec<VarData>, Vec<String>)> = Vec::new();
    proof {
        assert(right.deep_view() =~= rv.skip(0));
        assert(m.deep_view() =~= mm_of(rv.take(0)));
    }
    while right.len() > 0
        invariant
            right@.len() <= rv.len(),
            right.deep_view() == rv.skip(rv.len() - right@.len()),
            m.deep_view() == mm_of(rv.take(rv.len() - right@.len())),
        decreases right@.len(),
    {
        let ghost p = rv.len() - right@.len();
        let ghost right_before = right.deep_view();
        let e = right.remove(0);
        proof {
            assert(right.deep_view() =~= right_before.skip(1));
            assert(right_before.skip(1) =~= rv.skip(p + 1));
            assert(right_before[0] == rv[p]);
            assert(rv[p] == (e.0.deep_view(), e.1.deep_view()));
        }
        let ghost m_before = m.deep_view();
        let ghost old_shallow = m@;
        let idx = mm_lookup(&m, &e.0);
        match idx {
            Option::Some(t) => {
                proof {
                    lemma_mm_insert_found(m_before, e.0.deep_view(), e.1.deep_view(), t as int);
                }
                mm_push_at(&mut m, t, e.1);
            }
            Option::None => {
                let mut vs: Vec<String> = Vec::new();
                let ghost ed = e.1.deep_view();
                vs.push(e.1);
                proof {
                    assert(vs.deep_view() =~= seq![ed]);
                }
                let ghost kd = e.0.deep_view();
                m.push((e.0, vs));
                proof {
                    lemma_mm_contains_index(m_before, kd);
                    lemma_mm_insert_missing(m_before, kd, ed);
                    assert forall|j: int|
                        0 <= j < m.deep_view().len() implies m.deep_view()[j] == m_before.push(
                        (kd, seq![ed]),
                    )[j] by {
                        if j < m_before.len() {
                            assert(m@[j] == old_shallow[j]);
                        }
                    }
                    assert(m.deep_view() =~= m_before.push((kd, seq![ed])));
                }
            }
        }
        proof {
            assert(rv.take(p + 1).drop_last() =~= rv.take(p));
            assert(rv.take(p + 1).last() == rv[p]);
            assert(mm_of(rv.take(p + 1)) == mm_insert(mm_of(rv.take(p)), rv[p].0, rv[p].1));
        }
    }
    proof {
        assert(rv.take(rv.len() as int) =~= rv);
    }
    m
}

/// Builds the tagged multimap from the whole right input, every entry
/// unmatched.
pub fn mmt_build(right: Vec<(Vec<VarData>, String)>) -> (m: Vec<(Vec<VarData>, Vec<String>, bool)>)
    ensures
        m.deep_view() == mmt_of(right.deep_view()),
{
    let ghost rv = right.deep_view();
    let mut right = right;
    let mut m: Vec<(Vec<VarData>, Vec<String>, bool)> = Vec::new();
    proof {
        assert(right.deep_view() =~= rv.skip(0));
        assert(m.deep_view() =~= mmt_of(rv.take(0)));
    }
    while right.len() > 0
        invariant
            right@.len() <= rv.len(),
            right.deep_view() == rv.skip(rv.len() - right@.len()),
            m.deep_view() == mmt_of(rv.take(rv.len() - right@.len())),
        decreases right@.len(),
    {
        let ghost p = rv.len() - right@.len();
        let ghost right_before = right.deep_view();
        let e = right.remove(0);
        proof {
            assert(right.deep_view() =~= right_before.skip(1));
            assert(right_before.skip(1) =~= rv.skip(p + 1));
            assert(right_before[0] == rv[p]);
            assert(rv[p] == (e.0.deep_view(), e.1.deep_view()));
        }
        let ghost m_before = m.deep_view();
        let ghost old_shallow = m@;
        let idx = mmt_lookup(&m, &e.0);
        match idx {
            Option::Some(t) => {
                proof {
                    lemma_mmt_insert_found(m_before, e.0.deep_view(), e.1.deep_view(), t as int);
                }
                mmt_push_at(&mut m, t, e.1);
            }
            Option::None => {
                let mut vs: Vec<String> = Vec::new();
                let ghost ed = e.1.deep_view();
                vs.push(e.1);
                proof {
                    assert(vs.deep_view() =~= seq![ed]);
                }
                let ghost kd = e.0.deep_view();
                m.push((e.0, vs, false));
                proof {
                    lemma_mmt_insert_missing(m_before, kd, ed);
                    assert forall|j: int|
                        0 <= j < m.deep_view().len() implies m.deep_view()[j] == m_before.push(
                        (kd, seq![ed], false),
                    )[j] by {
                        if j < m_before.len() {
                            assert(m@[j] == old_shallow[j]);
                        }
                    }
                    assert(m.deep_view() =~= m_before.push((kd, seq![ed], false)));
                }
            }
        }
        proof {
            assert(rv.take(p + 1).drop_last() =~= rv.take(p));
            assert(rv.take(p + 1).last() == rv[p]);
            assert(mmt_of(rv.take(p + 1)) == mmt_insert(mmt_of(rv.take(p)), rv[p].0, rv[p].1));
        }
    }
    proof {
        assert(rv.take(rv.len() as int) =~= rv);
    }
    m
}

/// Inserting under a key the tagged multimap lacks appends a fresh
/// unmatched entry.
pub proof fn lemma_mmt_insert_missing(
    m: Seq<(Seq<Atom>, Seq<Seq<char>>, bool)>,
    k: Seq<Atom>,
    v: Seq<char>,
)
    requires
        forall|j: int| 0 <= j < m.len() ==> (#[trigger] m[j]).0 != k,
    ensures
        mmt_insert(m, k, v) == m.push((k, seq![v], false)),
    decreases m.len(),
{
    if m.len() == 0 {
        assert(mmt_insert(m, k, v) =~= m.push((k, seq![v], false)));
    } else {
        assert(forall|j: int| 0 <= j < m.skip(1).len() ==> #[trigger] m.skip(1)[j] == m[j + 1]);
        lemma_mmt_insert_missing(m.skip(1), k, v);
        assert(mmt_insert(m, k, v) =~= m.push((k, seq![v], false)));
    }
}

/// Inserting under the key of the first matching entry extends that
/// entry's value list in place, keeping its flag.
pub proof fn lemma_mmt_insert_found(
    m: Seq<(Seq<Atom>, Seq<Seq<char>>, bool)>,
    k: Seq<Atom>,
    v: Seq<char>,
    i: int,
)
    requires
        0 <= i < m.len(),
        m[i].0 == k,
        forall|j: int| 0 <= j < i ==> (#[trigger] m[j]).0 != k,
    ensures
        mmt_insert(m, k, v) == m.update(i, (m[i].0, m[i].1.push(v), m[i].2)),
    decreases i,
{
    if i == 0 {
        assert(mmt_insert(m, k, v) =~= m.update(0, (m[0].0, m[0].1.push(v), m[0].2)));
    } else {
        assert(forall|j: int| 0 <= j < m.skip(1).len() ==> #[trigger] m.skip(1)[j] == m[j + 1]);
        lemma_mmt_insert_found(m.skip(1), k, v, i - 1);
        assert(mmt_insert(m, k, v) =~= m.update(i, (m[i].0, m[i].1.push(v), m[i].2)));
    }
}

/// Sets the matched flag of entry `i` in place.
pub fn mmt_mark_at(m: &mut Vec<(Vec<VarData>, Vec<String>, bool)>, i: usize)
    requires
        i < old(m)@.len(),
    ensures
        final(m).deep_view() == old(m).deep_view().update(
            i as int,
            (old(m).deep_view()[i as int].0, old(m).deep_view()[i as int].1, true),
        ),
{
    let ghost m_before = m.deep_view();
    let ghost s0 = m@;
    let entry = m.remove(i);
    let (kk, vv, _) = entry;
    let ghost kkd = kk.deep_view();
    let ghost vvd = vv.deep_view();
    proof {
        assert(kkd == m_before[i as int].0);
        assert(vvd == m_before[i as int].1);
    }
    m.insert(i, (kk, vv, true));
    proof {
        s0.remove_ensures(i as int);
        s0.remove(i as int).insert_ensures(i as int, m@[i as int]);
        assert(m@[i as int] == (kk, vv, true));
        assert forall|j: int|
            0 <= j < m.deep_view().len() implies m.deep_view()[j] == m_before.update(
            i as int,
            (m_before[i as int].0, m_before[i as int].1, true),
        )[j] by {
            if j < i as int {
                assert(m@[j] == s0.remove(i as int)[j]);
                assert(m@[j] == s0[j]);
            } else if j == i as int {
            } else {
                assert(m@[j] == s0.remove(i as int)[j - 1]);
                assert(m@[j] == s0[j]);
            }
        }
        assert(m.deep_view() =~= m_before.update(
            i as int,
            (m_before[i as int].0, m_before[i as int].1, true),
        ));
    }
}

/// Builds the key set of the right input: membership in it is having
/// the key.
pub fn ks_build(right: Vec<(Vec<VarData>, String)>) -> (ks: Vec<Vec<VarData>>)
    ensures
        forall|k: Seq<Atom>| ks.deep_view().contains(k) <==> has_key(right.deep_view(), k),
{
    let ghost rv = right.deep_view();
    let mut right = right;
    let mut ks: Vec<Vec<VarData>> = Vec::new();
    proof {
        assert(right.deep_view() =~= rv.skip(0));
    }
    while right.len() > 0
        invariant
            right@.len() <= rv.len(),
            right.deep_view() == rv.skip(rv.len() - right@.len()),
            forall|k: Seq<Atom>|
                ks.deep_view().contains(k) <==> has_key(rv.take(rv.len() - right@.len()), k),
        decreases right@.len(),
    {
        let ghost p = rv.len() - right@.len();
        let ghost right_before = right.deep_view();
        let ghost ks_before = ks.deep_view();
        let e = right.remove(0);
        proof {
            assert(right.deep_view() =~= right_before.skip(1));
            assert(right_before.skip(1) =~= rv.skip(p + 1));
            assert(right_before[0] == rv[p]);
            assert(rv[p] == (e.0.deep_view(), e.1.deep_view()));
        }
        if !ks_contains(&ks, &e.0) {
            ks.push(e.0);
            proof {
                assert(forall|j: int|
                    0 <= j < ks_before.len() ==> #[trigger] ks.deep_view()[j] == ks_before[j]);
                assert(ks.deep_view()[ks_before.len() as int] == rv[p].0);
            }
        }
        proof {
            let q = rv.take(p + 1);
            assert(forall|j: int| 0 <= j < q.len() ==> #[trigger] q[j] == rv[j]);
            assert(forall|j: int| 0 <= j < p ==> #[trigger] rv.take(p)[j] == rv[j]);
            assert forall|k: Seq<Atom>| ks.deep_view().contains(k) <==> has_key(q, k) by {
                if ks.deep_view().contains(k) {
                    let t = choose|t: int|
                        0 <= t < ks.deep_view().len() && ks.deep_view()[t] == k;
                    if t < ks_before.len() {
                        assert(ks_before[t] == k);
                        assert(ks_before.contains(k));
                        assert(has_key(rv.take(p), k));
                        let w = choose|w: int|
                            0 <= w < rv.take(p).len() && (#[trigger] rv.take(p)[w]).0 == k;
                        assert(q[w].0 == k);
                    } else {
                        assert(k == rv[p].0);
                        assert(q[p].0 == k);
                    }
                }
                if has_key(q, k) {
                    let w = choose|w: int| 0 <= w < q.len() && (#[trigger] q[w]).0 == k;
                    if w < p {
                        assert(rv.take(p)[w].0 == k);
                        assert(has_key(rv.take(p), k));
                        assert(ks_before.contains(k));
                        let t = choose|t: int| 0 <= t < ks_before.len() && ks_before[t] == k;
                        assert(ks.deep_view()[t] == k);
                    } else {
                        assert(k == rv[p].0);
                        if !ks_before.contains(k) {
                            assert(ks.deep_view()[ks.deep_view().len() - 1] == k);
                        } else {
                            let t = choose|t: int|
                                0 <= t < ks_before.len() && ks_before[t] == k;
                            assert(ks.deep_view()[t] == k);
                        }
                    }
                }
            }
        }
    }
    proof {
        assert(rv.take(rv.len() as int) =~= rv);
    }
    ks
}

/// True when the key set holds `k`.
pub fn ks_contains(ks: &Vec<Vec<VarData>>, k: &Vec<VarData>) -> (r: bool)
    ensures
        r == ks.deep_view().contains(k.deep_view()),
{
    let mut i: usize = 0;
    while i < ks.len()
        invariant
            i <= ks@.len(),
            ks.deep_view().len() == ks@.len(),
            forall|j: int| 0 <= j < i ==> #[trigger] ks.deep_view()[j] != k.deep_view(),
        decreases ks@.len() - i,
    {
        if key_eq(&ks[i], k) {
            assert(ks.deep_view()[i as int] == k.deep_view());
            return true;
        }
        i = i + 1;
    }
    proof {
        if ks.deep_view().contains(k.deep_view()) {
            let t = choose|t: int|
                0 <= t < ks.deep_view().len() && ks.deep_view()[t] == k.deep_view();
        }
    }
    false
}

} // verus!
