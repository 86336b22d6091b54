//! SQL-like joins of two unsorted keyed record streams under the hash
//! strategy: the right input is drained eagerly into an insertion-ordered
//! multimap, the left input is pulled one element per `next` call.  The
//! right-side-revisiting modes keep a matched flag per entry and drain
//! the unmatched entries, in insertion order, once the left is exhausted.

use vstd::prelude::*;
use crate::key::{Atom, VarData};
use crate::multimap::{
    distinct_keys, has_key, lemma_distinct_keys, lemma_mm_contains_index, lemma_mm_get_first,
    lemma_mm_of_entries, lemma_mm_of_get, lemma_mmt_mark_found,
    lemma_mmt_mark_missing, lemma_mmt_mark_strip, lemma_mmt_of_strip, mark_all, mm_build,
    mm_contains, mm_get, mm_lookup, mm_of, mmt_build, mmt_lookup, mmt_mark, mmt_mark_at, mmt_of,
    lemma_right_values_empty, lemma_right_values_other, right_values, strip, ks_build,
    ks_contains,
};
use crate::EitherOrBoth;
use vstd::multiset::Multiset;
use vstd::seq_lib::lemma_multiset_commutative;

verus! {

broadcast use vstd::seq_lib::group_to_multiset_ensures, vstd::multiset::group_multiset_axioms;


/// The inner join of two keyed inputs: one output per left item whose
/// key the right input has, carrying that key's right values in arrival
/// order.
pub open spec fn hash_inner_join(
    lv: Seq<(Seq<Atom>, Seq<char>)>,
    rv: Seq<(Seq<Atom>, Seq<char>)>,
) -> Seq<(Seq<char>, Seq<Seq<char>>)>
    decreases lv.len(),
{
    if lv.len() == 0 {
        Seq::empty()
    } else {
        let rest = hash_inner_join(lv.skip(1), rv);
        if has_key(rv, lv[0].0) {
            seq![(lv[0].1, right_values(rv, lv[0].0))] + rest
        } else {
            rest
        }
    }
}

/// The left-exclusive join: the left items whose key the right input
/// lacks, in left order.
pub open spec fn hash_left_excl_join(
    lv: Seq<(Seq<Atom>, Seq<char>)>,
    rv: Seq<(Seq<Atom>, Seq<char>)>,
) -> Seq<Seq<char>>
    decreases lv.len(),
{
    if lv.len() == 0 {
        Seq::empty()
    } else {
        let rest = hash_left_excl_join(lv.skip(1), rv);
        if has_key(rv, lv[0].0) {
            rest
        } else {
            seq![lv[0].1] + rest
        }
    }
}

/// The left-outer join: one output per left item, `Both` with the right
/// values when matched, `Left` alone when not.
pub open spec fn hash_left_outer_join(
    lv: Seq<(Seq<Atom>, Seq<char>)>,
    rv: Seq<(Seq<Atom>, Seq<char>)>,
) -> Seq<EitherOrBoth<Seq<char>, Seq<Seq<char>>>>
    decreases lv.len(),
{
    if lv.len() == 0 {
        Seq::empty()
    } else {
        let rest = hash_left_outer_join(lv.skip(1), rv);
        if has_key(rv, lv[0].0) {
            seq![EitherOrBoth::Both(lv[0].1, right_values(rv, lv[0].0))] + rest
        } else {
            seq![EitherOrBoth::Left(lv[0].1)] + rest
        }
    }
}

/// What the inner join still yields, given the left suffix and the map.
spec fn inner_rem(
    lv: Seq<(Seq<Atom>, Seq<char>)>,
    m: Seq<(Seq<Atom>, Seq<Seq<char>>)>,
) -> Seq<(Seq<char>, Seq<Seq<char>>)>
    decreases lv.len(),
{
    if lv.len() == 0 {
        Seq::empty()
    } else {
        let rest = inner_rem(lv.skip(1), m);
        if mm_contains(m, lv[0].0) {
            seq![(lv[0].1, mm_get(m, lv[0].0))] + rest
        } else {
            rest
        }
    }
}

proof fn lemma_inner_rem_init(lv: Seq<(Seq<Atom>, Seq<char>)>, rv: Seq<(Seq<Atom>, Seq<char>)>)
    ensures
        inner_rem(lv, mm_of(rv)) == hash_inner_join(lv, rv),
    decreases lv.len(),
{
    if lv.len() > 0 {
        lemma_mm_of_get(rv, lv[0].0);
        lemma_inner_rem_init(lv.skip(1), rv);
    }
}

/// What the left-exclusive join still yields, given the left suffix and
/// the key set.
spec fn excl_rem(lv: Seq<(Seq<Atom>, Seq<char>)>, ks: Seq<Seq<Atom>>) -> Seq<Seq<char>>
    decreases lv.len(),
{
    if lv.len() == 0 {
        Seq::empty()
    } else {
        let rest = excl_rem(lv.skip(1), ks);
        if ks.contains(lv[0].0) {
            rest
        } else {
            seq![lv[0].1] + rest
        }
    }
}

proof fn lemma_excl_rem_init(
    lv: Seq<(Seq<Atom>, Seq<char>)>,
    ks: Seq<Seq<Atom>>,
    rv: Seq<(Seq<Atom>, Seq<char>)>,
)
    requires
        forall|k: Seq<Atom>| ks.contains(k) <==> has_key(rv, k),
    ensures
        excl_rem(lv, ks) == hash_left_excl_join(lv, rv),
    decreases lv.len(),
{
    if lv.len() > 0 {
        assert(ks.contains(lv[0].0) <==> has_key(rv, lv[0].0));
        lemma_excl_rem_init(lv.skip(1), ks, rv);
    }
}

/// What the left-outer join still yields, given the left suffix and the
/// map.
spec fn left_outer_rem(
    lv: Seq<(Seq<Atom>, Seq<char>)>,
    m: Seq<(Seq<Atom>, Seq<Seq<char>>)>,
) -> Seq<EitherOrBoth<Seq<char>, Seq<Seq<char>>>>
    decreases lv.len(),
{
    if lv.len() == 0 {
        Seq::empty()
    } else {
        let rest = left_outer_rem(lv.skip(1), m);
        if mm_contains(m, lv[0].0) {
            seq![EitherOrBoth::Both(lv[0].1, mm_get(m, lv[0].0))] + rest
        } else {
            seq![EitherOrBoth::Left(lv[0].1)] + rest
        }
    }
}

proof fn lemma_left_outer_rem_init(
    lv: Seq<(Seq<Atom>, Seq<char>)>,
    rv: Seq<(Seq<Atom>, Seq<char>)>,
)
    ensures
        left_outer_rem(lv, mm_of(rv)) == hash_left_outer_join(lv, rv),
    decreases lv.len(),
{
    if lv.len() > 0 {
        lemma_mm_of_get(rv, lv[0].0);
        lemma_left_outer_rem_init(lv.skip(1), rv);
    }
}

/// A copy of a value list with the same contents.
pub(crate) fn clone_values(v: &Vec<String>) -> (r: Vec<String>)
    ensures
        r@ == v@,
        r.deep_view() == v.deep_view(),
{
    let mut r: Vec<String> = Vec::new();
    let mut i: usize = 0;
    while i < v.len()
        invariant
            i <= v@.len(),
            r@ =~= v@.take(i as int),
        decreases v@.len() - i,
    {
        r.push(v[i].clone());
        proof {
            assert(r@ =~= v@.take(i + 1));
        }
        i = i + 1;
    }
    proof {
        assert(v@.take(v@.len() as int) =~= v@);
        assert(r.deep_view() =~= v.deep_view());
    }
    r
}

/// See `hash_inner_join` for the semantics: the constructor drains the
/// right input into the multimap, `next` pulls one left item at a time.
pub struct HashJoinInner {
    left: Vec<(Vec<VarData>, String)>,
    lpos: usize,
    map: Vec<(Vec<VarData>, Vec<String>)>,
}

impl HashJoinInner {
    /// The operator's cursor has not run past its input.
    pub closed spec fn wf(&self) -> bool {
        self.lpos <= self.left@.len()
    }

    /// The outputs the operator has yet to yield.
    pub closed spec fn remaining(&self) -> Seq<(Seq<char>, Seq<Seq<char>>)> {
        inner_rem(self.left.deep_view().skip(self.lpos as int), self.map.deep_view())
    }

    /// Create a `HashJoinInner` operator.  The right input is consumed
    /// into the multimap here; the left input is consumed lazily.
    pub fn new(left: Vec<(Vec<VarData>, String)>, right: Vec<(Vec<VarData>, String)>) -> (r:
        Self)
        ensures
            r.wf(),
            r.remaining() == hash_inner_join(left.deep_view(), right.deep_view()),
    {
        let ghost rv = right.deep_view();
        let map = mm_build(right);
        let r = HashJoinInner { left, lpos: 0, map };
        proof {
            assert(r.left.deep_view().skip(0) =~= r.left.deep_view());
            lemma_inner_rem_init(r.left.deep_view(), rv);
        }
        r
    }

    /// Yields the next output: the first remaining element, or `None`
    /// once the left input is exhausted.
    pub fn next(&mut self) -> (r: Option<(String, Vec<String>)>)
        requires
            old(self).wf(),
        ensures
            final(self).wf(),
            ({
                let rem = old(self).remaining();
                if rem.len() == 0 {
                    r is None && final(self).remaining() == rem
                } else {
                    &&& r is Some
                    &&& (r matches Some(x) ==> x.0@ == rem[0].0 && x.1.deep_view() == rem[0].1)
                    &&& final(self).remaining() == rem.skip(1)
                }
            }),
    {
        loop
            invariant
                self.wf(),
                self.remaining() == old(self).remaining(),
            decreases self.left@.len() - self.lpos,
        {
            let ghost lsuf = self.left.deep_view().skip(self.lpos as int);
            if self.lpos >= self.left.len() {
                proof {
                    assert(lsuf.len() == 0);
                }
                return None;
            }
            let idx = mm_lookup(&self.map, &self.left[self.lpos].0);
            let ghost m = self.map.deep_view();
            proof {
                assert(lsuf[0] == self.left.deep_view()[self.lpos as int]);
                assert(lsuf.skip(1) =~= self.left.deep_view().skip(self.lpos + 1));
            }
            match idx {
                Option::Some(t) => {
                    let lv = self.left[self.lpos].1.clone();
                    let vals = clone_values(&self.map[t].1);
                    self.lpos = self.lpos + 1;
                    proof {
                        assert(self.remaining() == inner_rem(lsuf, m).skip(1)) by {
                            assert(inner_rem(lsuf, m) == seq![(lsuf[0].1, mm_get(m, lsuf[0].0))]
                                + inner_rem(lsuf.skip(1), m));
                            assert((seq![(lsuf[0].1, mm_get(m, lsuf[0].0))] + inner_rem(
                                lsuf.skip(1),
                                m,
                            )).skip(1) =~= inner_rem(lsuf.skip(1), m));
                        }
                    }
                    return Some((lv, vals));
                }
                Option::None => {
                    self.lpos = self.lpos + 1;
                    proof {
                        assert(inner_rem(lsuf, m) == inner_rem(lsuf.skip(1), m));
                    }
                }
            }
        }
    }
}

/// See `hash_left_excl_join` for the semantics: only the keys of the
/// right input are kept, and unmatched left items stream through.
pub struct HashJoinLeftExcl {
    left: Vec<(Vec<VarData>, String)>,
    lpos: usize,
    keys: Vec<Vec<VarData>>,
}

impl HashJoinLeftExcl {
    /// The operator's cursor has not run past its input.
    pub closed spec fn wf(&self) -> bool {
        self.lpos <= self.left@.len()
    }

    /// The outputs the operator has yet to yield.
    pub closed spec fn remaining(&self) -> Seq<Seq<char>> {
        excl_rem(self.left.deep_view().skip(self.lpos as int), self.keys.deep_view())
    }

    /// Create a `HashJoinLeftExcl` operator.  The right input is
    /// consumed into the key set here; the left input is consumed
    /// lazily.
    pub fn new(left: Vec<(Vec<VarData>, String)>, right: Vec<(Vec<VarData>, String)>) -> (r:
        Self)
        ensures
            r.wf(),
            r.remaining() == hash_left_excl_join(left.deep_view(), right.deep_view()),
    {
        let ghost rv = right.deep_view();
        let keys = ks_build(right);
        let r = HashJoinLeftExcl { left, lpos: 0, keys };
        proof {
            assert(r.left.deep_view().skip(0) =~= r.left.deep_view());
            lemma_excl_rem_init(r.left.deep_view(), r.keys.deep_view(), rv);
        }
        r
    }

    /// Yields the next unmatched left record, or `None` once the left
    /// input is exhausted.
    pub fn next(&mut self) -> (r: Option<String>)
        requires
            old(self).wf(),
        ensures
            final(self).wf(),
            ({
                let rem = old(self).remaining();
                if rem.len() == 0 {
                    r is None && final(self).remaining() == rem
                } else {
                    &&& r is Some
                    &&& (r matches Some(x) ==> x@ == rem[0])
                    &&& final(self).remaining() == rem.skip(1)
                }
            }),
    {
        loop
            invariant
                self.wf(),
                self.remaining() == old(self).remaining(),
            decreases self.left@.len() - self.lpos,
        {
            let ghost lsuf = self.left.deep_view().skip(self.lpos as int);
            if self.lpos >= self.left.len() {
                proof {
                    assert(lsuf.len() == 0);
                }
                return None;
            }
            let ghost ks = self.keys.deep_view();
            proof {
                assert(lsuf[0] == self.left.deep_view()[self.lpos as int]);
                assert(lsuf.skip(1) =~= self.left.deep_view().skip(self.lpos + 1));
            }
            if ks_contains(&self.keys, &self.left[self.lpos].0) {
                self.lpos = self.lpos + 1;
                proof {
                    assert(excl_rem(lsuf, ks) == excl_rem(lsuf.skip(1), ks));
                }
            } else {
                let lv = self.left[self.lpos].1.clone();
                self.lpos = self.lpos + 1;
                proof {
                    assert(self.remaining() == excl_rem(lsuf, ks).skip(1)) by {
                        assert(excl_rem(lsuf, ks) == seq![lsuf[0].1] + excl_rem(
                            lsuf.skip(1),
                            ks,
                        ));
                        assert((seq![lsuf[0].1] + excl_rem(lsuf.skip(1), ks)).skip(1)
                            =~= excl_rem(lsuf.skip(1), ks));
                    }
                }
                return Some(lv);
            }
        }
    }
}

/// See `hash_left_outer_join` for the semantics: every left item comes
/// out, matched ones as `Both`, unmatched ones as `Left`.
pub struct HashJoinLeftOuter {
    left: Vec<(Vec<VarData>, String)>,
    lpos: usize,
    map: Vec<(Vec<VarData>, Vec<String>)>,
}

impl HashJoinLeftOuter {
    /// The operator's cursor has not run past its input.
    pub closed spec fn wf(&self) -> bool {
        self.lpos <= self.left@.len()
    }

    /// The outputs the operator has yet to yield.
    pub closed spec fn remaining(&self) -> Seq<EitherOrBoth<Seq<char>, Seq<Seq<char>>>> {
        left_outer_rem(self.left.deep_view().skip(self.lpos as int), self.map.deep_view())
    }

    /// Create a `HashJoinLeftOuter` operator.  The right input is
    /// consumed into the multimap here; the left input is consumed
    /// lazily.
    pub fn new(left: Vec<(Vec<VarData>, String)>, right: Vec<(Vec<VarData>, String)>) -> (r:
        Self)
        ensures
            r.wf(),
            r.remaining() == hash_left_outer_join(left.deep_view(), right.deep_view()),
    {
        let ghost rv = right.deep_view();
        let map = mm_build(right);
        let r = HashJoinLeftOuter { left, lpos: 0, map };
        proof {
            assert(r.left.deep_view().skip(0) =~= r.left.deep_view());
            lemma_left_outer_rem_init(r.left.deep_view(), rv);
        }
        r
    }

    /// Yields the next output, or `None` once the left input is
    /// exhausted.
    pub fn next(&mut self) -> (r: Option<EitherOrBoth<String, Vec<String>>>)
        requires
            old(self).wf(),
        ensures
            final(self).wf(),
            ({
                let rem = old(self).remaining();
                if rem.len() == 0 {
                    r is None && final(self).remaining() == rem
                } else {
                    &&& r is Some
                    &&& (r matches Some(x) ==> x.deep_view() == rem[0])
                    &&& final(self).remaining() == rem.skip(1)
                }
            }),
    {
        let ghost lsuf = self.left.deep_view().skip(self.lpos as int);
        if self.lpos >= self.left.len() {
            proof {
                assert(lsuf.len() == 0);
            }
            return None;
        }
        let idx = mm_lookup(&self.map, &self.left[self.lpos].0);
        let ghost m = self.map.deep_view();
        proof {
            assert(lsuf[0] == self.left.deep_view()[self.lpos as int]);
            assert(lsuf.skip(1) =~= self.left.deep_view().skip(self.lpos + 1));
        }
        match idx {
            Option::Some(t) => {
                let lv = self.left[self.lpos].1.clone();
                let vals = clone_values(&self.map[t].1);
                self.lpos = self.lpos + 1;
                proof {
                    assert(self.remaining() == left_outer_rem(lsuf, m).skip(1)) by {
                        assert(left_outer_rem(lsuf, m) == seq![EitherOrBoth::Both(
                            lsuf[0].1,
                            mm_get(m, lsuf[0].0),
                        )] + left_outer_rem(lsuf.skip(1), m));
                        assert((seq![EitherOrBoth::Both(lsuf[0].1, mm_get(m, lsuf[0].0))]
                            + left_outer_rem(lsuf.skip(1), m)).skip(1) =~= left_outer_rem(
                            lsuf.skip(1),
                            m,
                        ));
                    }
                }
                Some(EitherOrBoth::Both(lv, vals))
            }
            Option::None => {
                let lv = self.left[self.lpos].1.clone();
                self.lpos = self.lpos + 1;
                proof {
                    assert(self.remaining() == left_outer_rem(lsuf, m).skip(1)) by {
                        assert(left_outer_rem(lsuf, m) == seq![EitherOrBoth::Left(lsuf[0].1)]
                            + left_outer_rem(lsuf.skip(1), m));
                        assert((seq![EitherOrBoth::Left(lsuf[0].1)] + left_outer_rem(
                            lsuf.skip(1),
                            m,
                        )).skip(1) =~= left_outer_rem(lsuf.skip(1), m));
                    }
                }
                Some(EitherOrBoth::Left(lv))
            }
        }
    }
}

/// The groups of right values whose key the left input lacks, one group
/// per distinct unmatched key, in the right input's first-occurrence
/// order.
pub open spec fn unmatched_groups(
    ks: Seq<Seq<Atom>>,
    lv: Seq<(Seq<Atom>, Seq<char>)>,
    rv: Seq<(Seq<Atom>, Seq<char>)>,
) -> Seq<Seq<Seq<char>>>
    decreases ks.len(),
{
    if ks.len() == 0 {
        Seq::empty()
    } else {
        let rest = unmatched_groups(ks.skip(1), lv, rv);
        if has_key(lv, ks[0]) {
            rest
        } else {
            seq![right_values(rv, ks[0])] + rest
        }
    }
}

/// The same unmatched groups wrapped in `Right` arms.
pub open spec fn unmatched_rights(
    ks: Seq<Seq<Atom>>,
    lv: Seq<(Seq<Atom>, Seq<char>)>,
    rv: Seq<(Seq<Atom>, Seq<char>)>,
) -> Seq<EitherOrBoth<Seq<char>, Seq<Seq<char>>>>
    decreases ks.len(),
{
    if ks.len() == 0 {
        Seq::empty()
    } else {
        let rest = unmatched_rights(ks.skip(1), lv, rv);
        if has_key(lv, ks[0]) {
            rest
        } else {
            seq![EitherOrBoth::Right(right_values(rv, ks[0]))] + rest
        }
    }
}

/// The right-exclusive join: after the whole left input has been
/// streamed, the value groups of the right keys it never matched.
pub open spec fn hash_right_excl_join(
    lv: Seq<(Seq<Atom>, Seq<char>)>,
    rv: Seq<(Seq<Atom>, Seq<char>)>,
) -> Seq<Seq<Seq<char>>> {
    unmatched_groups(distinct_keys(rv), lv, rv)
}

/// The streaming half of the right-outer join: `Both` for every matched
/// left item, nothing for unmatched ones.
pub open spec fn hash_right_outer_stream(
    lv: Seq<(Seq<Atom>, Seq<char>)>,
    rv: Seq<(Seq<Atom>, Seq<char>)>,
) -> Seq<EitherOrBoth<Seq<char>, Seq<Seq<char>>>>
    decreases lv.len(),
{
    if lv.len() == 0 {
        Seq::empty()
    } else {
        let rest = hash_right_outer_stream(lv.skip(1), rv);
        if has_key(rv, lv[0].0) {
            seq![EitherOrBoth::Both(lv[0].1, right_values(rv, lv[0].0))] + rest
        } else {
            rest
        }
    }
}

/// The right-outer join: matched left items as `Both`, then the
/// unmatched right groups as `Right`.
pub open spec fn hash_right_outer_join(
    lv: Seq<(Seq<Atom>, Seq<char>)>,
    rv: Seq<(Seq<Atom>, Seq<char>)>,
) -> Seq<EitherOrBoth<Seq<char>, Seq<Seq<char>>>> {
    hash_right_outer_stream(lv, rv) + unmatched_rights(distinct_keys(rv), lv, rv)
}

/// The full-outer join: every left item as `Both` or `Left`, then the
/// unmatched right groups as `Right`.
pub open spec fn hash_full_outer_join(
    lv: Seq<(Seq<Atom>, Seq<char>)>,
    rv: Seq<(Seq<Atom>, Seq<char>)>,
) -> Seq<EitherOrBoth<Seq<char>, Seq<Seq<char>>>> {
    hash_left_outer_join(lv, rv) + unmatched_rights(distinct_keys(rv), lv, rv)
}

/// What the drain phase still yields as bare groups: the value lists of
/// the entries not yet matched.
spec fn drain_rem(m3: Seq<(Seq<Atom>, Seq<Seq<char>>, bool)>) -> Seq<Seq<Seq<char>>>
    decreases m3.len(),
{
    if m3.len() == 0 {
        Seq::empty()
    } else {
        let rest = drain_rem(m3.skip(1));
        if m3[0].2 {
            rest
        } else {
            seq![m3[0].1] + rest
        }
    }
}

/// What the drain phase still yields as `Right` arms.
spec fn drain_rem_right(m3: Seq<(Seq<Atom>, Seq<Seq<char>>, bool)>) -> Seq<EitherOrBoth<
    Seq<char>,
    Seq<Seq<char>>,
>>
    decreases m3.len(),
{
    if m3.len() == 0 {
        Seq::empty()
    } else {
        let rest = drain_rem_right(m3.skip(1));
        if m3[0].2 {
            rest
        } else {
            seq![EitherOrBoth::Right(m3[0].1)] + rest
        }
    }
}

/// What the right-outer streaming phase still yields, over the stripped
/// map.
spec fn ro_rem(
    lv: Seq<(Seq<Atom>, Seq<char>)>,
    m: Seq<(Seq<Atom>, Seq<Seq<char>>)>,
) -> Seq<EitherOrBoth<Seq<char>, Seq<Seq<char>>>>
    decreases lv.len(),
{
    if lv.len() == 0 {
        Seq::empty()
    } else {
        let rest = ro_rem(lv.skip(1), m);
        if mm_contains(m, lv[0].0) {
            seq![EitherOrBoth::Both(lv[0].1, mm_get(m, lv[0].0))] + rest
        } else {
            rest
        }
    }
}

proof fn lemma_ro_rem_init(lv: Seq<(Seq<Atom>, Seq<char>)>, rv: Seq<(Seq<Atom>, Seq<char>)>)
    ensures
        ro_rem(lv, mm_of(rv)) == hash_right_outer_stream(lv, rv),
    decreases lv.len(),
{
    if lv.len() > 0 {
        lemma_mm_of_get(rv, lv[0].0);
        lemma_ro_rem_init(lv.skip(1), rv);
    }
}

/// The first left item's key decides membership; the rest is the tail.
proof fn lemma_has_key_unfold(lv: Seq<(Seq<Atom>, Seq<char>)>)
    requires
        lv.len() > 0,
    ensures
        forall|k: Seq<Atom>| has_key(lv, k) <==> (lv[0].0 == k || has_key(lv.skip(1), k)),
{
    assert forall|k: Seq<Atom>| has_key(lv, k) <==> (lv[0].0 == k || has_key(lv.skip(1), k)) by {
        if has_key(lv, k) {
            let i = choose|i: int| 0 <= i < lv.len() && (#[trigger] lv[i]).0 == k;
            if i > 0 {
                assert(lv.skip(1)[i - 1].0 == k);
            }
        }
        if has_key(lv.skip(1), k) {
            let i = choose|i: int| 0 <= i < lv.skip(1).len() && (#[trigger] lv.skip(1)[i]).0 == k;
            assert(lv[i + 1].0 == k);
        }
        if lv[0].0 == k {
            assert(has_key(lv, k));
        }
    }
}

/// Marking a whole left input sets exactly the flags of its keys, when
/// the map's keys are distinct.
proof fn lemma_mark_all_flags(
    m3: Seq<(Seq<Atom>, Seq<Seq<char>>, bool)>,
    lv: Seq<(Seq<Atom>, Seq<char>)>,
)
    requires
        forall|i: int, j: int| 0 <= i < j < m3.len() ==> (#[trigger] m3[i]).0 != (#[trigger] m3[j]).0,
    ensures
        mark_all(m3, lv).len() == m3.len(),
        forall|i: int|
            0 <= i < m3.len() ==> #[trigger] mark_all(m3, lv)[i] == (
                m3[i].0,
                m3[i].1,
                m3[i].2 || has_key(lv, m3[i].0),
            ),
    decreases lv.len(),
{
    if lv.len() == 0 {
        assert(forall|i: int| 0 <= i < m3.len() ==> !has_key(lv, (#[trigger] m3[i]).0));
    } else {
        let k0 = lv[0].0;
        let m1 = mmt_mark(m3, k0);
        lemma_mmt_mark_strip(m3, k0);
        if exists|i: int| 0 <= i < m3.len() && (#[trigger] m3[i]).0 == k0 {
            let i0 = choose|i: int| 0 <= i < m3.len() && (#[trigger] m3[i]).0 == k0;
            assert(forall|j: int| 0 <= j < i0 ==> (#[trigger] m3[j]).0 != k0);
            lemma_mmt_mark_found(m3, k0, i0);
            assert(forall|i: int, j: int|
                0 <= i < j < m1.len() ==> (#[trigger] m1[i]).0 != (#[trigger] m1[j]).0) by {
                assert(forall|i: int| 0 <= i < m1.len() ==> (#[trigger] m1[i]).0 == m3[i].0);
            }
            lemma_mark_all_flags(m1, lv.skip(1));
            lemma_has_key_unfold(lv);
            assert forall|i: int|
                0 <= i < m3.len() implies #[trigger] mark_all(m3, lv)[i] == (
                m3[i].0,
                m3[i].1,
                m3[i].2 || has_key(lv, m3[i].0),
            ) by {
                assert(mark_all(m3, lv) == mark_all(m1, lv.skip(1)));
                assert(mark_all(m1, lv.skip(1))[i] == (m1[i].0, m1[i].1, m1[i].2 || has_key(
                    lv.skip(1),
                    m1[i].0,
                )));
                if i == i0 {
                } else {
                    assert(m1[i] == m3[i]);
                    assert(m3[i].0 != k0);
                }
            }
        } else {
            assert(forall|j: int| 0 <= j < m3.len() ==> (#[trigger] m3[j]).0 != k0);
            lemma_mmt_mark_missing(m3, k0);
            lemma_mark_all_flags(m3, lv.skip(1));
            lemma_has_key_unfold(lv);
            assert forall|i: int|
                0 <= i < m3.len() implies #[trigger] mark_all(m3, lv)[i] == (
                m3[i].0,
                m3[i].1,
                m3[i].2 || has_key(lv, m3[i].0),
            ) by {
                assert(mark_all(m3, lv) == mark_all(m3, lv.skip(1)));
                assert(m3[i].0 != k0);
            }
        }
    }
}

/// A drain over entries that mirror the unmatched keys yields exactly
/// the unmatched groups.
proof fn lemma_drain_entries(
    m3: Seq<(Seq<Atom>, Seq<Seq<char>>, bool)>,
    ks: Seq<Seq<Atom>>,
    lv: Seq<(Seq<Atom>, Seq<char>)>,
    rv: Seq<(Seq<Atom>, Seq<char>)>,
)
    requires
        m3.len() == ks.len(),
        forall|i: int|
            0 <= i < m3.len() ==> #[trigger] m3[i] == (
                ks[i],
                right_values(rv, ks[i]),
                has_key(lv, ks[i]),
            ),
    ensures
        drain_rem(m3) == unmatched_groups(ks, lv, rv),
        drain_rem_right(m3) == unmatched_rights(ks, lv, rv),
    decreases ks.len(),
{
    if ks.len() > 0 {
        assert(forall|i: int|
            0 <= i < m3.skip(1).len() ==> #[trigger] m3.skip(1)[i] == m3[i + 1]);
        assert(forall|i: int|
            0 <= i < ks.skip(1).len() ==> #[trigger] ks.skip(1)[i] == ks[i + 1]);
        lemma_drain_entries(m3.skip(1), ks.skip(1), lv, rv);
        assert(m3[0] == (ks[0], right_values(rv, ks[0]), has_key(lv, ks[0])));
    }
}

/// At construction, draining the marked map yields the unmatched right
/// groups of the two inputs.
proof fn lemma_drain_init(lv: Seq<(Seq<Atom>, Seq<char>)>, rv: Seq<(Seq<Atom>, Seq<char>)>)
    ensures
        drain_rem(mark_all(mmt_of(rv), lv)) == unmatched_groups(distinct_keys(rv), lv, rv),
        drain_rem_right(mark_all(mmt_of(rv), lv)) == unmatched_rights(distinct_keys(rv), lv, rv),
{
    let m3 = mmt_of(rv);
    let ks = distinct_keys(rv);
    lemma_mmt_of_strip(rv);
    lemma_mm_of_entries(rv);
    lemma_distinct_keys(rv);
    assert(m3.len() == ks.len()) by {
        assert(strip(m3).len() == m3.len());
    }
    assert(forall|i: int|
        0 <= i < m3.len() ==> (#[trigger] m3[i]).0 == strip(m3)[i].0 && m3[i].1 == strip(
            m3,
        )[i].1);
    assert(forall|i: int, j: int|
        0 <= i < j < m3.len() ==> (#[trigger] m3[i]).0 != (#[trigger] m3[j]).0) by {
        assert(forall|i: int|
            0 <= i < m3.len() ==> (#[trigger] m3[i]).0 == ks[i] && ks.contains(ks[i]));
    }
    lemma_mark_all_flags(m3, lv);
    let mk = mark_all(m3, lv);
    assert(forall|i: int|
        0 <= i < mk.len() ==> #[trigger] mk[i] == (
            ks[i],
            right_values(rv, ks[i]),
            has_key(lv, ks[i]),
        ));
    lemma_drain_entries(mk, ks, lv, rv);
}

/// See `hash_right_excl_join` for the semantics: the whole left input is
/// streamed first, marking what it matches; the unmatched right groups
/// drain afterwards, in insertion order.
pub struct HashJoinRightExcl {
    left: Vec<(Vec<VarData>, String)>,
    lpos: usize,
    map: Vec<(Vec<VarData>, Vec<String>, bool)>,
    excl_pos: Option<usize>,
}

impl HashJoinRightExcl {
    /// The operator's cursors have not run past their inputs.
    pub closed spec fn wf(&self) -> bool {
        &&& self.lpos <= self.left@.len()
        &&& match self.excl_pos {
            Option::Some(d) => d <= self.map@.len(),
            Option::None => true,
        }
    }

    /// The outputs the operator has yet to yield.
    pub closed spec fn remaining(&self) -> Seq<Seq<Seq<char>>> {
        match self.excl_pos {
            Option::None => drain_rem(
                mark_all(self.map.deep_view(), self.left.deep_view().skip(self.lpos as int)),
            ),
            Option::Some(d) => drain_rem(self.map.deep_view().skip(d as int)),
        }
    }

    /// Create a `HashJoinRightExcl` operator.  The right input is
    /// consumed into the tagged multimap here; the left input is
    /// consumed lazily.
    pub fn new(left: Vec<(Vec<VarData>, String)>, right: Vec<(Vec<VarData>, String)>) -> (r:
        Self)
        ensures
            r.wf(),
            r.remaining() == hash_right_excl_join(left.deep_view(), right.deep_view()),
    {
        let ghost rv = right.deep_view();
        let map = mmt_build(right);
        let r = HashJoinRightExcl { left, lpos: 0, map, excl_pos: None };
        proof {
            assert(r.left.deep_view().skip(0) =~= r.left.deep_view());
            lemma_drain_init(r.left.deep_view(), rv);
        }
        r
    }

    /// Moves the operator into its drain phase.  Once the left input is
    /// exhausted, the matched flags are complete and the map can be
    /// walked for unmatched entries.
    fn set_excl_iter(&mut self)
        requires
            old(self).wf(),
            old(self).excl_pos is None,
            old(self).lpos == old(self).left@.len(),
        ensures
            final(self).wf(),
            final(self).remaining() == old(self).remaining(),
            final(self).left == old(self).left,
            final(self).lpos == old(self).lpos,
            final(self).map == old(self).map,
            final(self).excl_pos == Some(0usize),
    {
        proof {
            assert(self.left.deep_view().skip(self.lpos as int).len() == 0);
            assert(mark_all(
                self.map.deep_view(),
                self.left.deep_view().skip(self.lpos as int),
            ) == self.map.deep_view());
            assert(self.map.deep_view().skip(0) =~= self.map.deep_view());
        }
        self.excl_pos = Some(0);
    }

    /// Yields the next unmatched right group, or `None` once the drain
    /// is complete.
    pub fn next(&mut self) -> (r: Option<Vec<String>>)
        requires
            old(self).wf(),
        ensures
            final(self).wf(),
            ({
                let rem = old(self).remaining();
                if rem.len() == 0 {
                    r is None && final(self).remaining() == rem
                } else {
                    &&& r is Some
                    &&& (r matches Some(x) ==> x.deep_view() == rem[0])
                    &&& final(self).remaining() == rem.skip(1)
                }
            }),
    {
        loop
            invariant
                self.wf(),
                self.remaining() == old(self).remaining(),
            decreases (match self.excl_pos {
                Option::None => self.left@.len() - self.lpos + self.map@.len() + 1,
                Option::Some(d) => self.map@.len() - d,
            }),
        {
            match self.excl_pos {
                Option::None => {
                    if self.lpos >= self.left.len() {
                        self.set_excl_iter();
                    } else {
                        let ghost lsuf = self.left.deep_view().skip(self.lpos as int);
                        let ghost m3 = self.map.deep_view();
                        proof {
                            assert(lsuf[0] == self.left.deep_view()[self.lpos as int]);
                            assert(lsuf.skip(1) =~= self.left.deep_view().skip(self.lpos + 1));
                        }
                        let idx = mmt_lookup(&self.map, &self.left[self.lpos].0);
                        match idx {
                            Option::Some(t) => {
                                proof {
                                    lemma_mmt_mark_found(m3, lsuf[0].0, t as int);
                                }
                                mmt_mark_at(&mut self.map, t);
                                self.lpos = self.lpos + 1;
                                proof {
                                    assert(self.map.deep_view() == mmt_mark(m3, lsuf[0].0));
                                    assert(mark_all(m3, lsuf) == mark_all(
                                        mmt_mark(m3, lsuf[0].0),
                                        lsuf.skip(1),
                                    ));
                                }
                            }
                            Option::None => {
                                proof {
                                    lemma_mmt_mark_missing(m3, lsuf[0].0);
                                    assert(mark_all(m3, lsuf) == mark_all(m3, lsuf.skip(1)));
                                }
                                self.lpos = self.lpos + 1;
                            }
                        }
                    }
                }
                Option::Some(d) => {
                    let ghost m3 = self.map.deep_view();
                    if d >= self.map.len() {
                        proof {
                            assert(m3.skip(d as int).len() == 0);
                        }
                        return None;
                    }
                    proof {
                        assert(m3.skip(d as int)[0] == m3[d as int]);
                        assert(m3.skip(d as int).skip(1) =~= m3.skip(d + 1));
                    }
                    if self.map[d].2 {
                        self.excl_pos = Some(d + 1);
                    } else {
                        let vals = clone_values(&self.map[d].1);
                        self.excl_pos = Some(d + 1);
                        proof {
                            assert(self.remaining() == drain_rem(m3.skip(d as int)).skip(1)) by {
                                assert(drain_rem(m3.skip(d as int)) == seq![m3[d as int].1]
                                    + drain_rem(m3.skip(d + 1)));
                                assert((seq![m3[d as int].1] + drain_rem(m3.skip(d + 1))).skip(1)
                                    =~= drain_rem(m3.skip(d + 1)));
                            }
                        }
                        return Some(vals);
                    }
                }
            }
        }
    }
}

/// See `hash_right_outer_join` for the semantics: matched left items
/// stream out as `Both` while marking the map; the unmatched right
/// groups drain afterwards as `Right`, in insertion order.
pub struct HashJoinRightOuter {
    left: Vec<(Vec<VarData>, String)>,
    lpos: usize,
    map: Vec<(Vec<VarData>, Vec<String>, bool)>,
    excl_pos: Option<usize>,
}

impl HashJoinRightOuter {
    /// The operator's cursors have not run past their inputs.
    pub closed spec fn wf(&self) -> bool {
        &&& self.lpos <= self.left@.len()
        &&& match self.excl_pos {
            Option::Some(d) => d <= self.map@.len(),
            Option::None => true,
        }
    }

    /// The outputs the operator has yet to yield.
    pub closed spec fn remaining(&self) -> Seq<EitherOrBoth<Seq<char>, Seq<Seq<char>>>> {
        match self.excl_pos {
            Option::None => ro_rem(
                self.left.deep_view().skip(self.lpos as int),
                strip(self.map.deep_view()),
            ) + drain_rem_right(
                mark_all(self.map.deep_view(), self.left.deep_view().skip(self.lpos as int)),
            ),
            Option::Some(d) => drain_rem_right(self.map.deep_view().skip(d as int)),
        }
    }

    /// Create a `HashJoinRightOuter` operator.  The right input is
    /// consumed into the tagged multimap here; the left input is
    /// consumed lazily.
    pub fn new(left: Vec<(Vec<VarData>, String)>, right: Vec<(Vec<VarData>, String)>) -> (r:
        Self)
        ensures
            r.wf(),
            r.remaining() == hash_right_outer_join(left.deep_view(), right.deep_view()),
    {
        let ghost rv = right.deep_view();
        let map = mmt_build(right);
        let r = HashJoinRightOuter { left, lpos: 0, map, excl_pos: None };
        proof {
            assert(r.left.deep_view().skip(0) =~= r.left.deep_view());
            lemma_mmt_of_strip(rv);
            lemma_ro_rem_init(r.left.deep_view(), rv);
            lemma_drain_init(r.left.deep_view(), rv);
        }
        r
    }

    /// Moves the operator into its drain phase once the left input is
    /// exhausted.
    fn set_excl_iter(&mut self)
        requires
            old(self).wf(),
            old(self).excl_pos is None,
            old(self).lpos == old(self).left@.len(),
        ensures
            final(self).wf(),
            final(self).remaining() == old(self).remaining(),
            final(self).left == old(self).left,
            final(self).lpos == old(self).lpos,
            final(self).map == old(self).map,
            final(self).excl_pos == Some(0usize),
    {
        proof {
            let lsuf = self.left.deep_view().skip(self.lpos as int);
            assert(lsuf.len() == 0);
            assert(ro_rem(lsuf, strip(self.map.deep_view())) == Seq::<EitherOrBoth<
                Seq<char>,
                Seq<Seq<char>>,
            >>::empty());
            assert(mark_all(self.map.deep_view(), lsuf) == self.map.deep_view());
            assert(self.map.deep_view().skip(0) =~= self.map.deep_view());
            assert(Seq::<EitherOrBoth<Seq<char>, Seq<Seq<char>>>>::empty() + drain_rem_right(
                self.map.deep_view(),
            ) =~= drain_rem_right(self.map.deep_view()));
        }
        self.excl_pos = Some(0);
    }

    /// Yields the next output, or `None` once the drain is complete.
    pub fn next(&mut self) -> (r: Option<EitherOrBoth<String, Vec<String>>>)
        requires
            old(self).wf(),
        ensures
            final(self).wf(),
            ({
                let rem = old(self).remaining();
                if rem.len() == 0 {
                    r is None && final(self).remaining() == rem
                } else {
                    &&& r is Some
                    &&& (r matches Some(x) ==> x.deep_view() == rem[0])
                    &&& final(self).remaining() == rem.skip(1)
                }
            }),
    {
        loop
            invariant
                self.wf(),
                self.remaining() == old(self).remaining(),
            decreases (match self.excl_pos {
                Option::None => self.left@.len() - self.lpos + self.map@.len() + 1,
                Option::Some(d) => self.map@.len() - d,
            }),
        {
            match self.excl_pos {
                Option::None => {
                    if self.lpos >= self.left.len() {
                        self.set_excl_iter();
                    } else {
                        let ghost lsuf = self.left.deep_view().skip(self.lpos as int);
                        let ghost m3 = self.map.deep_view();
                        proof {
                            assert(lsuf[0] == self.left.deep_view()[self.lpos as int]);
                            assert(lsuf.skip(1) =~= self.left.deep_view().skip(self.lpos + 1));
                        }
                        let idx = mmt_lookup(&self.map, &self.left[self.lpos].0);
                        match idx {
                            Option::Some(t) => {
                                let lv = self.left[self.lpos].1.clone();
                                let vals = clone_values(&self.map[t].1);
                                proof {
                                    lemma_mmt_mark_found(m3, lsuf[0].0, t as int);
                                    assert(strip(m3)[t as int] == (m3[t as int].0, m3[
                                        t as int].1));
                                    lemma_mm_get_first(strip(m3), lsuf[0].0, t as int) ;
                                }
                                mmt_mark_at(&mut self.map, t);
                                self.lpos = self.lpos + 1;
                                proof {
                                    assert(self.map.deep_view() == mmt_mark(m3, lsuf[0].0));
                                    lemma_mmt_mark_strip(m3, lsuf[0].0);
                                    assert(mark_all(m3, lsuf) == mark_all(
                                        mmt_mark(m3, lsuf[0].0),
                                        lsuf.skip(1),
                                    ));
                                    let old_rem = ro_rem(lsuf, strip(m3)) + drain_rem_right(
                                        mark_all(m3, lsuf),
                                    );
                                    assert(ro_rem(lsuf, strip(m3)) == seq![EitherOrBoth::Both(
                                        lsuf[0].1,
                                        mm_get(strip(m3), lsuf[0].0),
                                    )] + ro_rem(lsuf.skip(1), strip(m3)));
                                    assert(old_rem.skip(1) =~= ro_rem(lsuf.skip(1), strip(m3))
                                        + drain_rem_right(mark_all(m3, lsuf)));
                                }
                                return Some(EitherOrBoth::Both(lv, vals));
                            }
                            Option::None => {
                                proof {
                                    lemma_mmt_mark_missing(m3, lsuf[0].0);
                                    assert(mark_all(m3, lsuf) == mark_all(m3, lsuf.skip(1)));
                                    assert(!mm_contains(strip(m3), lsuf[0].0)) by {
                                        lemma_mm_contains_index(strip(m3), lsuf[0].0);
                                        assert(forall|j: int|
                                            0 <= j < strip(m3).len() ==> (#[trigger] strip(
                                                m3,
                                            )[j]).0 == m3[j].0);
                                    }
                                    assert(ro_rem(lsuf, strip(m3)) == ro_rem(
                                        lsuf.skip(1),
                                        strip(m3),
                                    ));
                                }
                                self.lpos = self.lpos + 1;
                            }
                        }
                    }
                }
                Option::Some(d) => {
                    let ghost m3 = self.map.deep_view();
                    if d >= self.map.len() {
                        proof {
                            assert(m3.skip(d as int).len() == 0);
                        }
                        return None;
                    }
                    proof {
                        assert(m3.skip(d as int)[0] == m3[d as int]);
                        assert(m3.skip(d as int).skip(1) =~= m3.skip(d + 1));
                    }
                    if self.map[d].2 {
                        self.excl_pos = Some(d + 1);
                    } else {
                        let vals = clone_values(&self.map[d].1);
                        self.excl_pos = Some(d + 1);
                        proof {
                            assert(self.remaining() == drain_rem_right(
                                m3.skip(d as int),
                            ).skip(1)) by {
                                assert(drain_rem_right(m3.skip(d as int))
                                    == seq![EitherOrBoth::Right(m3[d as int].1)]
                                    + drain_rem_right(m3.skip(d + 1)));
                                assert((seq![EitherOrBoth::Right(m3[d as int].1)]
                                    + drain_rem_right(m3.skip(d + 1))).skip(1)
                                    =~= drain_rem_right(m3.skip(d + 1)));
                            }
                        }
                        return Some(EitherOrBoth::Right(vals));
                    }
                }
            }
        }
    }
}

/// See `hash_full_outer_join` for the semantics: every left item streams
/// out as `Both` or `Left` while marking the map; the unmatched right
/// groups drain afterwards as `Right`, in insertion order.
pub struct HashJoinFullOuter {
    left: Vec<(Vec<VarData>, String)>,
    lpos: usize,
    map: Vec<(Vec<VarData>, Vec<String>, bool)>,
    excl_pos: Option<usize>,
}

impl HashJoinFullOuter {
    /// The operator's cursors have not run past their inputs.
    pub closed spec fn wf(&self) -> bool {
        &&& self.lpos <= self.left@.len()
        &&& match self.excl_pos {
            Option::Some(d) => d <= self.map@.len(),
            Option::None => true,
        }
    }

    /// The outputs the operator has yet to yield.
    pub closed spec fn remaining(&self) -> Seq<EitherOrBoth<Seq<char>, Seq<Seq<char>>>> {
        match self.excl_pos {
            Option::None => left_outer_rem(
                self.left.deep_view().skip(self.lpos as int),
                strip(self.map.deep_view()),
            ) + drain_rem_right(
                mark_all(self.map.deep_view(), self.left.deep_view().skip(self.lpos as int)),
            ),
            Option::Some(d) => drain_rem_right(self.map.deep_view().skip(d as int)),
        }
    }

    /// Create a `HashJoinFullOuter` operator.  The right input is
    /// consumed into the tagged multimap here; the left input is
    /// consumed lazily.
    pub fn new(left: Vec<(Vec<VarData>, String)>, right: Vec<(Vec<VarData>, String)>) -> (r:
        Self)
        ensures
            r.wf(),
            r.remaining() == hash_full_outer_join(left.deep_view(), right.deep_view()),
    {
        let ghost rv = right.deep_view();
        let map = mmt_build(right);
        let r = HashJoinFullOuter { left, lpos: 0, map, excl_pos: None };
        proof {
            assert(r.left.deep_view().skip(0) =~= r.left.deep_view());
            lemma_mmt_of_strip(rv);
            lemma_left_outer_rem_init(r.left.deep_view(), rv);
            lemma_drain_init(r.left.deep_view(), rv);
        }
        r
    }

    /// Moves the operator into its drain phase once the left input is
    /// exhausted.
    fn set_excl_iter(&mut self)
        requires
            old(self).wf(),
            old(self).excl_pos is None,
            old(self).lpos == old(self).left@.len(),
        ensures
            final(self).wf(),
            final(self).remaining() == old(self).remaining(),
            final(self).left == old(self).left,
            final(self).lpos == old(self).lpos,
            final(self).map == old(self).map,
            final(self).excl_pos == Some(0usize),
    {
        proof {
            let lsuf = self.left.deep_view().skip(self.lpos as int);
            assert(lsuf.len() == 0);
            assert(left_outer_rem(lsuf, strip(self.map.deep_view())) == Seq::<EitherOrBoth<
                Seq<char>,
                Seq<Seq<char>>,
            >>::empty());
            assert(mark_all(self.map.deep_view(), lsuf) == self.map.deep_view());
            assert(self.map.deep_view().skip(0) =~= self.map.deep_view());
            assert(Seq::<EitherOrBoth<Seq<char>, Seq<Seq<char>>>>::empty() + drain_rem_right(
                self.map.deep_view(),
            ) =~= drain_rem_right(self.map.deep_view()));
        }
        self.excl_pos = Some(0);
    }

    /// Yields the next output, or `None` once the drain is complete.
    pub fn next(&mut self) -> (r: Option<EitherOrBoth<String, Vec<String>>>)
        requires
            old(self).wf(),
        ensures
            final(self).wf(),
            ({
                let rem = old(self).remaining();
                if rem.len() == 0 {
                    r is None && final(self).remaining() == rem
                } else {
                    &&& r is Some
                    &&& (r matches Some(x) ==> x.deep_view() == rem[0])
                    &&& final(self).remaining() == rem.skip(1)
                }
            }),
    {
        loop
            invariant
                self.wf(),
                self.remaining() == old(self).remaining(),
            decreases (match self.excl_pos {
                Option::None => self.left@.len() - self.lpos + self.map@.len() + 1,
                Option::Some(d) => self.map@.len() - d,
            }),
        {
            match self.excl_pos {
                Option::None => {
                    if self.lpos >= self.left.len() {
                        self.set_excl_iter();
                    } else {
                        let ghost lsuf = self.left.deep_view().skip(self.lpos as int);
                        let ghost m3 = self.map.deep_view();
                        proof {
                            assert(lsuf[0] == self.left.deep_view()[self.lpos as int]);
                            assert(lsuf.skip(1) =~= self.left.deep_view().skip(self.lpos + 1));
                        }
                        let idx = mmt_lookup(&self.map, &self.left[self.lpos].0);
                        match idx {
                            Option::Some(t) => {
                                let lv = self.left[self.lpos].1.clone();
                                let vals = clone_values(&self.map[t].1);
                                proof {
                                    lemma_mmt_mark_found(m3, lsuf[0].0, t as int);
                                    assert(strip(m3)[t as int] == (m3[t as int].0, m3[
                                        t as int].1));
                                    lemma_mm_get_first(strip(m3), lsuf[0].0, t as int);
                                }
                                mmt_mark_at(&mut self.map, t);
                                self.lpos = self.lpos + 1;
                                proof {
                                    assert(self.map.deep_view() == mmt_mark(m3, lsuf[0].0));
                                    lemma_mmt_mark_strip(m3, lsuf[0].0);
                                    assert(mark_all(m3, lsuf) == mark_all(
                                        mmt_mark(m3, lsuf[0].0),
                                        lsuf.skip(1),
                                    ));
                                    let old_rem = left_outer_rem(lsuf, strip(m3))
                                        + drain_rem_right(mark_all(m3, lsuf));
                                    assert(left_outer_rem(lsuf, strip(m3))
                                        == seq![EitherOrBoth::Both(
                                        lsuf[0].1,
                                        mm_get(strip(m3), lsuf[0].0),
                                    )] + left_outer_rem(lsuf.skip(1), strip(m3)));
                                    assert(old_rem.skip(1) =~= left_outer_rem(
                                        lsuf.skip(1),
                                        strip(m3),
                                    ) + drain_rem_right(mark_all(m3, lsuf)));
                                }
                                return Some(EitherOrBoth::Both(lv, vals));
                            }
                            Option::None => {
                                let lv = self.left[self.lpos].1.clone();
                                proof {
                                    lemma_mmt_mark_missing(m3, lsuf[0].0);
                                    assert(mark_all(m3, lsuf) == mark_all(m3, lsuf.skip(1)));
                                    assert(!mm_contains(strip(m3), lsuf[0].0)) by {
                                        lemma_mm_contains_index(strip(m3), lsuf[0].0);
                                        assert(forall|j: int|
                                            0 <= j < strip(m3).len() ==> (#[trigger] strip(
                                                m3,
                                            )[j]).0 == m3[j].0);
                                    }
                                }
                                self.lpos = self.lpos + 1;
                                proof {
                                    let old_rem = left_outer_rem(lsuf, strip(m3))
                                        + drain_rem_right(mark_all(m3, lsuf));
                                    assert(left_outer_rem(lsuf, strip(m3))
                                        == seq![EitherOrBoth::Left(lsuf[0].1)]
                                        + left_outer_rem(lsuf.skip(1), strip(m3)));
                                    assert(old_rem.skip(1) =~= left_outer_rem(
                                        lsuf.skip(1),
                                        strip(m3),
                                    ) + drain_rem_right(mark_all(m3, lsuf)));
                                }
                                return Some(EitherOrBoth::Left(lv));
                            }
                        }
                    }
                }
                Option::Some(d) => {
                    let ghost m3 = self.map.deep_view();
                    if d >= self.map.len() {
                        proof {
                            assert(m3.skip(d as int).len() == 0);
                        }
                        return None;
                    }
                    proof {
                        assert(m3.skip(d as int)[0] == m3[d as int]);
                        assert(m3.skip(d as int).skip(1) =~= m3.skip(d + 1));
                    }
                    if self.map[d].2 {
                        self.excl_pos = Some(d + 1);
                    } else {
                        let vals = clone_values(&self.map[d].1);
                        self.excl_pos = Some(d + 1);
                        proof {
                            assert(self.remaining() == drain_rem_right(
                                m3.skip(d as int),
                            ).skip(1)) by {
                                assert(drain_rem_right(m3.skip(d as int))
                                    == seq![EitherOrBoth::Right(m3[d as int].1)]
                                    + drain_rem_right(m3.skip(d + 1)));
                                assert((seq![EitherOrBoth::Right(m3[d as int].1)]
                                    + drain_rem_right(m3.skip(d + 1))).skip(1)
                                    =~= drain_rem_right(m3.skip(d + 1)));
                            }
                        }
                        return Some(EitherOrBoth::Right(vals));
                    }
                }
            }
        }
    }
}

/// Hash inner completeness: a left item whose key occurs in the right
/// input yields exactly one inner-join element, at the position its
/// matched predecessors determine, pairing its record with that key's
/// right values in arrival order.
pub proof fn lemma_hash_inner_completeness(
    lv: Seq<(Seq<Atom>, Seq<char>)>,
    rv: Seq<(Seq<Atom>, Seq<char>)>,
    i: int,
)
    requires
        0 <= i < lv.len(),
        has_key(rv, lv[i].0),
    ensures
        ({
            let out = hash_inner_join(lv, rv);
            let pos = hash_inner_join(lv.take(i), rv).len() as int;
            &&& pos < out.len()
            &&& out[pos] == (lv[i].1, right_values(rv, lv[i].0))
        }),
    decreases i,
{
    if i == 0 {
        assert(lv.take(0).len() == 0);
        assert(hash_inner_join(lv.take(0), rv).len() == 0);
        assert(hash_inner_join(lv, rv) == seq![(lv[0].1, right_values(rv, lv[0].0))]
            + hash_inner_join(lv.skip(1), rv));
    } else {
        assert(lv.skip(1)[i - 1] == lv[i]);
        lemma_hash_inner_completeness(lv.skip(1), rv, i - 1);
        assert(lv.take(i).skip(1) =~= lv.skip(1).take(i - 1));
        assert(lv.take(i)[0] == lv[0]);
        let out1 = hash_inner_join(lv.skip(1), rv);
        let pos1 = hash_inner_join(lv.skip(1).take(i - 1), rv).len() as int;
        if has_key(rv, lv[0].0) {
            assert(hash_inner_join(lv, rv) == seq![(lv[0].1, right_values(rv, lv[0].0))]
                + out1);
            assert(hash_inner_join(lv.take(i), rv) == seq![(lv[0].1, right_values(
                rv,
                lv[0].0,
            ))] + hash_inner_join(lv.take(i).skip(1), rv));
            assert(hash_inner_join(lv, rv)[pos1 + 1] == out1[pos1]);
        } else {
            assert(hash_inner_join(lv, rv) == out1);
            assert(hash_inner_join(lv.take(i), rv) == hash_inner_join(lv.take(i).skip(1), rv));
        }
    }
}

/// The left payloads of an outer-join output, in emission order: the
/// payloads of the `Left` arms and the left components of the `Both`
/// arms.
pub open spec fn left_payloads(o: Seq<EitherOrBoth<Seq<char>, Seq<Seq<char>>>>) -> Seq<Seq<char>>
    decreases o.len(),
{
    if o.len() == 0 {
        Seq::empty()
    } else {
        let rest = left_payloads(o.skip(1));
        match o[0] {
            EitherOrBoth::Both(l, _) => seq![l] + rest,
            EitherOrBoth::Left(l) => seq![l] + rest,
            EitherOrBoth::Right(_) => rest,
        }
    }
}

/// Hash left-outer partitioning: the `Left` payloads and the left
/// components of the `Both` payloads, taken together, are exactly the
/// left input's records — as a sequence, and hence as a multiset.
pub proof fn lemma_hash_left_outer_partition(
    lv: Seq<(Seq<Atom>, Seq<char>)>,
    rv: Seq<(Seq<Atom>, Seq<char>)>,
)
    ensures
        left_payloads(hash_left_outer_join(lv, rv)) == Seq::new(lv.len(), |i: int| lv[i].1),
        left_payloads(hash_left_outer_join(lv, rv)).to_multiset() == Seq::new(
            lv.len(),
            |i: int| lv[i].1,
        ).to_multiset(),
    decreases lv.len(),
{
    if lv.len() == 0 {
        assert(left_payloads(hash_left_outer_join(lv, rv)) =~= Seq::new(
            lv.len(),
            |i: int| lv[i].1,
        ));
    } else {
        lemma_hash_left_outer_partition(lv.skip(1), rv);
        let rest = hash_left_outer_join(lv.skip(1), rv);
        let w = hash_left_outer_join(lv, rv);
        if has_key(rv, lv[0].0) {
            assert(w == seq![EitherOrBoth::Both(lv[0].1, right_values(rv, lv[0].0))] + rest);
            assert(w.skip(1) =~= rest);
            assert(left_payloads(w) == seq![lv[0].1] + left_payloads(rest));
        } else {
            assert(w == seq![EitherOrBoth::Left(lv[0].1)] + rest);
            assert(w.skip(1) =~= rest);
            assert(left_payloads(w) == seq![lv[0].1] + left_payloads(rest));
        }
        assert(Seq::new(lv.len(), |i: int| lv[i].1) =~= seq![lv[0].1] + Seq::new(
            lv.skip(1).len(),
            |i: int| lv.skip(1)[i].1,
        ));
        assert(left_payloads(w) =~= Seq::new(lv.len(), |i: int| lv[i].1));
    }
}

/// The right-outer streaming phase with each element's key attached.
pub open spec fn ro_keyed_stream(
    lv: Seq<(Seq<Atom>, Seq<char>)>,
    rv: Seq<(Seq<Atom>, Seq<char>)>,
) -> Seq<(Seq<Atom>, EitherOrBoth<Seq<char>, Seq<Seq<char>>>)>
    decreases lv.len(),
{
    if lv.len() == 0 {
        Seq::empty()
    } else {
        let rest = ro_keyed_stream(lv.skip(1), rv);
        if has_key(rv, lv[0].0) {
            seq![(lv[0].0, EitherOrBoth::Both(lv[0].1, right_values(rv, lv[0].0)))] + rest
        } else {
            rest
        }
    }
}

/// The drain phase with each element's key attached.
pub open spec fn keyed_unmatched_rights(
    ks: Seq<Seq<Atom>>,
    lv: Seq<(Seq<Atom>, Seq<char>)>,
    rv: Seq<(Seq<Atom>, Seq<char>)>,
) -> Seq<(Seq<Atom>, EitherOrBoth<Seq<char>, Seq<Seq<char>>>)>
    decreases ks.len(),
{
    if ks.len() == 0 {
        Seq::empty()
    } else {
        let rest = keyed_unmatched_rights(ks.skip(1), lv, rv);
        if has_key(lv, ks[0]) {
            rest
        } else {
            seq![(ks[0], EitherOrBoth::Right(right_values(rv, ks[0])))] + rest
        }
    }
}

/// The right-outer join with each element's key attached.
pub open spec fn hash_right_outer_keyed(
    lv: Seq<(Seq<Atom>, Seq<char>)>,
    rv: Seq<(Seq<Atom>, Seq<char>)>,
) -> Seq<(Seq<Atom>, EitherOrBoth<Seq<char>, Seq<Seq<char>>>)> {
    ro_keyed_stream(lv, rv) + keyed_unmatched_rights(distinct_keys(rv), lv, rv)
}

/// How many elements of the keyed output carry the key `k`.
pub open spec fn key_count(
    o: Seq<(Seq<Atom>, EitherOrBoth<Seq<char>, Seq<Seq<char>>>)>,
    k: Seq<Atom>,
) -> int
    decreases o.len(),
{
    if o.len() == 0 {
        0
    } else {
        (if o[0].0 == k {
            1int
        } else {
            0int
        }) + key_count(o.skip(1), k)
    }
}

/// The keyed output without its keys.
pub open spec fn keyed_payloads(
    o: Seq<(Seq<Atom>, EitherOrBoth<Seq<char>, Seq<Seq<char>>>)>,
) -> Seq<EitherOrBoth<Seq<char>, Seq<Seq<char>>>> {
    Seq::new(o.len(), |i: int| o[i].1)
}

proof fn lemma_key_count_concat(
    a: Seq<(Seq<Atom>, EitherOrBoth<Seq<char>, Seq<Seq<char>>>)>,
    b: Seq<(Seq<Atom>, EitherOrBoth<Seq<char>, Seq<Seq<char>>>)>,
    k: Seq<Atom>,
)
    ensures
        key_count(a + b, k) == key_count(a, k) + key_count(b, k),
    decreases a.len(),
{
    if a.len() == 0 {
        assert(a + b =~= b);
    } else {
        lemma_key_count_concat(a.skip(1), b, k);
        assert((a + b)[0] == a[0]);
        assert((a + b).skip(1) =~= a.skip(1) + b);
    }
}

proof fn lemma_ro_stream_payloads(lv: Seq<(Seq<Atom>, Seq<char>)>, rv: Seq<(Seq<Atom>, Seq<char>)>)
    ensures
        keyed_payloads(ro_keyed_stream(lv, rv)) == hash_right_outer_stream(lv, rv),
    decreases lv.len(),
{
    if lv.len() == 0 {
        assert(keyed_payloads(ro_keyed_stream(lv, rv)) =~= hash_right_outer_stream(lv, rv));
    } else {
        lemma_ro_stream_payloads(lv.skip(1), rv);
        if has_key(rv, lv[0].0) {
            let w = ro_keyed_stream(lv, rv);
            let rest = ro_keyed_stream(lv.skip(1), rv);
            assert(forall|i: int| 0 <= i < rest.len() ==> #[trigger] w[i + 1] == rest[i]);
            assert(keyed_payloads(w) =~= hash_right_outer_stream(lv, rv));
        } else {
            assert(keyed_payloads(ro_keyed_stream(lv, rv)) =~= hash_right_outer_stream(lv, rv));
        }
    }
}

proof fn lemma_drain_payloads(
    ks: Seq<Seq<Atom>>,
    lv: Seq<(Seq<Atom>, Seq<char>)>,
    rv: Seq<(Seq<Atom>, Seq<char>)>,
)
    ensures
        keyed_payloads(keyed_unmatched_rights(ks, lv, rv)) == unmatched_rights(ks, lv, rv),
    decreases ks.len(),
{
    if ks.len() == 0 {
        assert(keyed_payloads(keyed_unmatched_rights(ks, lv, rv)) =~= unmatched_rights(
            ks,
            lv,
            rv,
        ));
    } else {
        lemma_drain_payloads(ks.skip(1), lv, rv);
        if has_key(lv, ks[0]) {
            assert(keyed_payloads(keyed_unmatched_rights(ks, lv, rv)) =~= unmatched_rights(
                ks,
                lv,
                rv,
            ));
        } else {
            let w = keyed_unmatched_rights(ks, lv, rv);
            let rest = keyed_unmatched_rights(ks.skip(1), lv, rv);
            assert(forall|i: int| 0 <= i < rest.len() ==> #[trigger] w[i + 1] == rest[i]);
            assert(keyed_payloads(w) =~= unmatched_rights(ks, lv, rv));
        }
    }
}

proof fn lemma_ro_stream_count_absent(
    lv: Seq<(Seq<Atom>, Seq<char>)>,
    rv: Seq<(Seq<Atom>, Seq<char>)>,
    k: Seq<Atom>,
)
    requires
        forall|i: int| 0 <= i < lv.len() ==> (#[trigger] lv[i]).0 != k,
    ensures
        key_count(ro_keyed_stream(lv, rv), k) == 0,
    decreases lv.len(),
{
    if lv.len() > 0 {
        assert(forall|i: int| 0 <= i < lv.skip(1).len() ==> #[trigger] lv.skip(1)[i] == lv[i + 1]);
        lemma_ro_stream_count_absent(lv.skip(1), rv, k);
        if has_key(rv, lv[0].0) {
            let w = ro_keyed_stream(lv, rv);
            assert(w[0].0 == lv[0].0);
            assert(w.skip(1) =~= ro_keyed_stream(lv.skip(1), rv));
        }
    }
}

proof fn lemma_ro_stream_count(
    lv: Seq<(Seq<Atom>, Seq<char>)>,
    rv: Seq<(Seq<Atom>, Seq<char>)>,
    k: Seq<Atom>,
)
    requires
        forall|i: int, j: int| 0 <= i < j < lv.len() ==> (#[trigger] lv[i]).0 != (#[trigger] lv[j]).0,
    ensures
        key_count(ro_keyed_stream(lv, rv), k) == if has_key(lv, k) && has_key(rv, k) {
            1int
        } else {
            0int
        },
        has_key(lv, k) && has_key(rv, k) ==> exists|p: int|
            0 <= p < ro_keyed_stream(lv, rv).len() && #[trigger] ro_keyed_stream(lv, rv)[p] == (
                k,
                EitherOrBoth::Both(lv[first_with_key(lv, k)].1, right_values(rv, k)),
            ),
    decreases lv.len(),
{
    lemma_has_key_unfold_or_empty(lv);
    if lv.len() == 0 {
    } else {
        assert(forall|i: int| 0 <= i < lv.skip(1).len() ==> #[trigger] lv.skip(1)[i] == lv[i + 1]);
        let w = ro_keyed_stream(lv, rv);
        let rest = ro_keyed_stream(lv.skip(1), rv);
        if lv[0].0 == k {
            assert(first_with_key(lv, k) == 0);
            assert(forall|i: int| 0 <= i < lv.skip(1).len() ==> (#[trigger] lv.skip(1)[i]).0 != k);
            lemma_ro_stream_count_absent(lv.skip(1), rv, k);
            if has_key(rv, k) {
                assert(w == seq![(k, EitherOrBoth::Both(lv[0].1, right_values(rv, k)))] + rest);
                assert(w.skip(1) =~= rest);
                assert(w[0] == (k, EitherOrBoth::Both(lv[first_with_key(lv, k)].1, right_values(
                    rv,
                    k,
                ))));
                assert(key_count(w, k) == 1);
            } else {
                assert(w == rest);
            }
        } else {
            lemma_ro_stream_count(lv.skip(1), rv, k);
            if has_key(rv, lv[0].0) {
                assert(w == seq![(lv[0].0, EitherOrBoth::Both(lv[0].1, right_values(
                    rv,
                    lv[0].0,
                )))] + rest);
                assert(w[0].0 != k);
                assert(w.skip(1) =~= rest);
            } else {
                assert(w == rest);
            }
            if has_key(lv, k) && has_key(rv, k) {
                assert(has_key(lv.skip(1), k));
                assert(first_with_key(lv, k) == 1 + first_with_key(lv.skip(1), k));
                lemma_first_with_key_bounds(lv.skip(1), k);
                assert(lv[first_with_key(lv, k)].1 == lv.skip(1)[first_with_key(
                    lv.skip(1),
                    k,
                )].1);
                let p1 = choose|p: int|
                    0 <= p < rest.len() && #[trigger] rest[p] == (
                        k,
                        EitherOrBoth::Both(
                            lv.skip(1)[first_with_key(lv.skip(1), k)].1,
                            right_values(rv, k),
                        ),
                    );
                if has_key(rv, lv[0].0) {
                    assert(w[p1 + 1] == rest[p1]);
                } else {
                    assert(w[p1] == rest[p1]);
                }
            }
            if has_key(lv, k) {
                assert(lv[0].0 != k);
                assert(has_key(lv.skip(1), k));
            }
            if has_key(lv.skip(1), k) {
                assert(has_key(lv, k));
            }
        }
    }
}

/// Position of the first left item with key `k`.
pub open spec fn first_with_key(lv: Seq<(Seq<Atom>, Seq<char>)>, k: Seq<Atom>) -> int
    decreases lv.len(),
{
    if lv.len() == 0 {
        0
    } else if lv[0].0 == k {
        0
    } else {
        1 + first_with_key(lv.skip(1), k)
    }
}

proof fn lemma_first_with_key_bounds(lv: Seq<(Seq<Atom>, Seq<char>)>, k: Seq<Atom>)
    requires
        has_key(lv, k),
    ensures
        0 <= first_with_key(lv, k) < lv.len(),
        lv[first_with_key(lv, k)].0 == k,
    decreases lv.len(),
{
    let i = choose|i: int| 0 <= i < lv.len() && (#[trigger] lv[i]).0 == k;
    if lv[0].0 == k {
    } else {
        assert(forall|t: int| 0 <= t < lv.skip(1).len() ==> #[trigger] lv.skip(1)[t] == lv[t + 1]);
        assert(lv.skip(1)[i - 1].0 == k);
        assert(has_key(lv.skip(1), k));
        lemma_first_with_key_bounds(lv.skip(1), k);
    }
}

proof fn lemma_has_key_unfold_or_empty(lv: Seq<(Seq<Atom>, Seq<char>)>)
    ensures
        lv.len() == 0 ==> forall|k: Seq<Atom>| !has_key(lv, k),
        lv.len() > 0 ==> forall|k: Seq<Atom>|
            has_key(lv, k) <==> (lv[0].0 == k || has_key(lv.skip(1), k)),
{
    if lv.len() > 0 {
        lemma_has_key_unfold(lv);
    }
}

proof fn lemma_drain_count_absent(
    ks: Seq<Seq<Atom>>,
    lv: Seq<(Seq<Atom>, Seq<char>)>,
    rv: Seq<(Seq<Atom>, Seq<char>)>,
    k: Seq<Atom>,
)
    requires
        forall|i: int| 0 <= i < ks.len() ==> ks[i] != k,
    ensures
        key_count(keyed_unmatched_rights(ks, lv, rv), k) == 0,
    decreases ks.len(),
{
    if ks.len() > 0 {
        assert(forall|i: int| 0 <= i < ks.skip(1).len() ==> ks.skip(1)[i] == ks[i + 1]);
        lemma_drain_count_absent(ks.skip(1), lv, rv, k);
        if !has_key(lv, ks[0]) {
            let w = keyed_unmatched_rights(ks, lv, rv);
            assert(w[0].0 == ks[0]);
            assert(w.skip(1) =~= keyed_unmatched_rights(ks.skip(1), lv, rv));
        }
    }
}

proof fn lemma_drain_count(
    ks: Seq<Seq<Atom>>,
    lv: Seq<(Seq<Atom>, Seq<char>)>,
    rv: Seq<(Seq<Atom>, Seq<char>)>,
    k: Seq<Atom>,
)
    requires
        ks.no_duplicates(),
    ensures
        key_count(keyed_unmatched_rights(ks, lv, rv), k) == if ks.contains(k) && !has_key(
            lv,
            k,
        ) {
            1int
        } else {
            0int
        },
        ks.contains(k) && !has_key(lv, k) ==> exists|p: int|
            0 <= p < keyed_unmatched_rights(ks, lv, rv).len()
                && #[trigger] keyed_unmatched_rights(ks, lv, rv)[p] == (
                k,
                EitherOrBoth::<Seq<char>, Seq<Seq<char>>>::Right(right_values(rv, k)),
            ),
    decreases ks.len(),
{
    if ks.len() == 0 {
        assert(!ks.contains(k)) by {
            if ks.contains(k) {
                let i = choose|i: int| 0 <= i < ks.len() && ks[i] == k;
            }
        }
    } else {
        assert(forall|i: int| 0 <= i < ks.skip(1).len() ==> ks.skip(1)[i] == ks[i + 1]);
        assert(ks.skip(1).no_duplicates());
        let w = keyed_unmatched_rights(ks, lv, rv);
        let rest = keyed_unmatched_rights(ks.skip(1), lv, rv);
        assert(ks.contains(k) <==> (ks[0] == k || ks.skip(1).contains(k))) by {
            if ks.contains(k) {
                let i = choose|i: int| 0 <= i < ks.len() && ks[i] == k;
                if i > 0 {
                    assert(ks.skip(1)[i - 1] == k);
                }
            }
            if ks.skip(1).contains(k) {
                let i = choose|i: int| 0 <= i < ks.skip(1).len() && ks.skip(1)[i] == k;
                assert(ks[i + 1] == k);
            }
        }
        if ks[0] == k {
            assert(forall|i: int| 0 <= i < ks.skip(1).len() ==> ks.skip(1)[i] != k);
            lemma_drain_count_absent(ks.skip(1), lv, rv, k);
            if !has_key(lv, k) {
                assert(w == seq![(k, EitherOrBoth::Right(right_values(rv, k)))] + rest);
                assert(w[0] == (k, EitherOrBoth::<Seq<char>, Seq<Seq<char>>>::Right(right_values(rv, k))));
                assert(w.skip(1) =~= rest);
                assert(key_count(w, k) == 1);
            } else {
                assert(w == rest);
            }
        } else {
            lemma_drain_count(ks.skip(1), lv, rv, k);
            if !has_key(lv, ks[0]) {
                assert(w == seq![(ks[0], EitherOrBoth::Right(right_values(rv, ks[0])))] + rest);
                assert(w[0].0 != k);
                assert(w.skip(1) =~= rest);
            } else {
                assert(w == rest);
            }
            if ks.skip(1).contains(k) && !has_key(lv, k) {
                let p1 = choose|p: int|
                    0 <= p < rest.len() && #[trigger] rest[p] == (
                        k,
                        EitherOrBoth::<Seq<char>, Seq<Seq<char>>>::Right(right_values(rv, k)),
                    );
                if !has_key(lv, ks[0]) {
                    assert(w[p1 + 1] == rest[p1]);
                } else {
                    assert(w[p1] == rest[p1]);
                }
            }
        }
    }
}

/// Hash right-outer completeness: with pairwise-distinct left keys,
/// every distinct right key appears in the output exactly once across
/// the `Both` and `Right` arms — as a `Both` when the left input has the
/// key, and as `Right` with that key's values when it does not — and a
/// key absent from the right input never appears at all.  The keyed view
/// projects to the join output itself, element for element.
pub proof fn lemma_hash_right_outer_completeness(
    lv: Seq<(Seq<Atom>, Seq<char>)>,
    rv: Seq<(Seq<Atom>, Seq<char>)>,
    k: Seq<Atom>,
)
    requires
        forall|i: int, j: int| 0 <= i < j < lv.len() ==> (#[trigger] lv[i]).0 != (#[trigger] lv[j]).0,
    ensures
        keyed_payloads(hash_right_outer_keyed(lv, rv)) == hash_right_outer_join(lv, rv),
        has_key(rv, k) ==> key_count(hash_right_outer_keyed(lv, rv), k) == 1,
        !has_key(rv, k) ==> key_count(hash_right_outer_keyed(lv, rv), k) == 0,
        has_key(rv, k) && has_key(lv, k) ==> exists|p: int|
            0 <= p < hash_right_outer_keyed(lv, rv).len()
                && #[trigger] hash_right_outer_keyed(lv, rv)[p] == (
                k,
                EitherOrBoth::Both(lv[first_with_key(lv, k)].1, right_values(rv, k)),
            ),
        has_key(rv, k) && !has_key(lv, k) ==> exists|p: int|
            0 <= p < hash_right_outer_keyed(lv, rv).len()
                && #[trigger] hash_right_outer_keyed(lv, rv)[p] == (
                k,
                EitherOrBoth::<Seq<char>, Seq<Seq<char>>>::Right(right_values(rv, k)),
            ),
{
    let ks = distinct_keys(rv);
    let s = ro_keyed_stream(lv, rv);
    let d = keyed_unmatched_rights(ks, lv, rv);
    let w = hash_right_outer_keyed(lv, rv);
    lemma_distinct_keys(rv);
    lemma_ro_stream_payloads(lv, rv);
    lemma_drain_payloads(ks, lv, rv);
    assert(keyed_payloads(w) =~= keyed_payloads(s) + keyed_payloads(d));
    lemma_key_count_concat(s, d, k);
    lemma_ro_stream_count(lv, rv, k);
    lemma_drain_count(ks, lv, rv, k);
    if has_key(rv, k) && has_key(lv, k) {
        let p = choose|p: int|
            0 <= p < s.len() && #[trigger] s[p] == (
                k,
                EitherOrBoth::Both(lv[first_with_key(lv, k)].1, right_values(rv, k)),
            );
        assert(w[p] == s[p]);
    }
    if has_key(rv, k) && !has_key(lv, k) {
        assert(ks.contains(k));
        let p = choose|p: int|
            0 <= p < d.len() && #[trigger] d[p] == (
                k,
                EitherOrBoth::<Seq<char>, Seq<Seq<char>>>::Right(right_values(rv, k)),
            );
        assert(w[s.len() + p] == d[p]);
    }
}

proof fn lemma_flatten_cons(g: Seq<Seq<char>>, rest: Seq<Seq<Seq<char>>>)
    ensures
        (seq![g] + rest).flatten() == g + rest.flatten(),
{
    let w = seq![g] + rest;
    assert(w.first() == g);
    assert(w.drop_first() =~= rest);
}

proof fn lemma_groups_other(
    ks: Seq<Seq<Atom>>,
    lv: Seq<(Seq<Atom>, Seq<char>)>,
    rv: Seq<(Seq<Atom>, Seq<char>)>,
    k: Seq<Atom>,
)
    requires
        rv.len() > 0,
        rv.last().0 == k,
        forall|i: int| 0 <= i < ks.len() ==> ks[i] != k,
    ensures
        unmatched_groups(ks, lv, rv) == unmatched_groups(ks, lv, rv.drop_last()),
    decreases ks.len(),
{
    if ks.len() > 0 {
        assert(forall|i: int| 0 <= i < ks.skip(1).len() ==> ks.skip(1)[i] == ks[i + 1]);
        lemma_groups_other(ks.skip(1), lv, rv, k);
        lemma_right_values_other(rv, ks[0]);
    }
}

proof fn lemma_groups_same(
    ks: Seq<Seq<Atom>>,
    lv: Seq<(Seq<Atom>, Seq<char>)>,
    rv: Seq<(Seq<Atom>, Seq<char>)>,
    k: Seq<Atom>,
)
    requires
        rv.len() > 0,
        rv.last().0 == k,
        has_key(lv, k),
    ensures
        unmatched_groups(ks, lv, rv) == unmatched_groups(ks, lv, rv.drop_last()),
    decreases ks.len(),
{
    if ks.len() > 0 {
        lemma_groups_same(ks.skip(1), lv, rv, k);
        if ks[0] == k {
        } else {
            lemma_right_values_other(rv, ks[0]);
        }
    }
}

proof fn lemma_unmatched_snoc(
    ks: Seq<Seq<Atom>>,
    k: Seq<Atom>,
    lv: Seq<(Seq<Atom>, Seq<char>)>,
    rv: Seq<(Seq<Atom>, Seq<char>)>,
)
    ensures
        unmatched_groups(ks.push(k), lv, rv) == unmatched_groups(ks, lv, rv) + (if has_key(
            lv,
            k,
        ) {
            Seq::<Seq<Seq<char>>>::empty()
        } else {
            seq![right_values(rv, k)]
        }),
    decreases ks.len(),
{
    let w = ks.push(k);
    if ks.len() == 0 {
        assert(w[0] == k);
        assert(w.skip(1) =~= Seq::<Seq<Atom>>::empty());
        assert(unmatched_groups(Seq::<Seq<Atom>>::empty(), lv, rv)
            == Seq::<Seq<Seq<char>>>::empty());
        assert(unmatched_groups(w.skip(1), lv, rv) == Seq::<Seq<Seq<char>>>::empty());
        if has_key(lv, k) {
            assert(unmatched_groups(w, lv, rv) =~= unmatched_groups(ks, lv, rv)
                + Seq::<Seq<Seq<char>>>::empty());
        } else {
            assert(unmatched_groups(w, lv, rv) =~= unmatched_groups(ks, lv, rv) + seq![
                right_values(rv, k),
            ]);
        }
    } else {
        assert(w[0] == ks[0]);
        assert(w.skip(1) =~= ks.skip(1).push(k));
        lemma_unmatched_snoc(ks.skip(1), k, lv, rv);
        let tail = if has_key(lv, k) {
            Seq::<Seq<Seq<char>>>::empty()
        } else {
            seq![right_values(rv, k)]
        };
        if has_key(lv, ks[0]) {
            assert(unmatched_groups(w, lv, rv) == unmatched_groups(ks.skip(1), lv, rv) + tail);
            assert(unmatched_groups(ks, lv, rv) == unmatched_groups(ks.skip(1), lv, rv));
        } else {
            let g0 = right_values(rv, ks[0]);
            assert(unmatched_groups(w, lv, rv) == seq![g0] + (unmatched_groups(
                ks.skip(1),
                lv,
                rv,
            ) + tail));
            assert(unmatched_groups(ks, lv, rv) == seq![g0] + unmatched_groups(
                ks.skip(1),
                lv,
                rv,
            ));
            assert(seq![g0] + (unmatched_groups(ks.skip(1), lv, rv) + tail) =~= (seq![g0]
                + unmatched_groups(ks.skip(1), lv, rv)) + tail);
        }
    }
}

proof fn lemma_groups_multiset(
    ks: Seq<Seq<Atom>>,
    lv: Seq<(Seq<Atom>, Seq<char>)>,
    rv: Seq<(Seq<Atom>, Seq<char>)>,
    k: Seq<Atom>,
    v: Seq<char>,
)
    requires
        rv.len() > 0,
        rv.last() == (k, v),
        !has_key(lv, k),
        ks.no_duplicates(),
    ensures
        ks.contains(k) ==> unmatched_groups(ks, lv, rv).flatten().to_multiset()
            == unmatched_groups(ks, lv, rv.drop_last()).flatten().to_multiset().insert(v),
        !ks.contains(k) ==> unmatched_groups(ks, lv, rv).flatten().to_multiset()
            == unmatched_groups(ks, lv, rv.drop_last()).flatten().to_multiset(),
    decreases ks.len(),
{
    let rv0 = rv.drop_last();
    if ks.len() == 0 {
        assert(!ks.contains(k)) by {
            if ks.contains(k) {
                let i = choose|i: int| 0 <= i < ks.len() && ks[i] == k;
            }
        }
    } else {
        assert(forall|i: int| 0 <= i < ks.skip(1).len() ==> ks.skip(1)[i] == ks[i + 1]);
        assert(ks.skip(1).no_duplicates());
        assert(ks.contains(k) <==> (ks[0] == k || ks.skip(1).contains(k))) by {
            if ks.contains(k) {
                let i = choose|i: int| 0 <= i < ks.len() && ks[i] == k;
                if i > 0 {
                    assert(ks.skip(1)[i - 1] == k);
                }
            }
            if ks.skip(1).contains(k) {
                let i = choose|i: int| 0 <= i < ks.skip(1).len() && ks.skip(1)[i] == k;
                assert(ks[i + 1] == k);
            }
        }
        let a_rest = unmatched_groups(ks.skip(1), lv, rv);
        let a0_rest = unmatched_groups(ks.skip(1), lv, rv0);
        if has_key(lv, ks[0]) {
            assert(ks[0] != k);
            lemma_groups_multiset(ks.skip(1), lv, rv, k, v);
        } else {
            let g = right_values(rv, ks[0]);
            let g0 = right_values(rv0, ks[0]);
            lemma_flatten_cons(g, a_rest);
            lemma_flatten_cons(g0, a0_rest);
            lemma_multiset_commutative(g, a_rest.flatten());
            lemma_multiset_commutative(g0, a0_rest.flatten());
            if ks[0] == k {
                assert(g == g0.push(v));
                assert forall|i: int| 0 <= i < ks.skip(1).len() implies ks.skip(1)[i] != k by {
                    assert(ks.skip(1)[i] == ks[i + 1]);
                    assert(ks[i + 1] != ks[0]);
                }
                lemma_groups_other(ks.skip(1), lv, rv, k);
                assert(a_rest == a0_rest);
                assert(g.to_multiset() =~= g0.to_multiset().insert(v));
                assert(g.to_multiset().add(a_rest.flatten().to_multiset()) =~= g0.to_multiset()
                    .add(a0_rest.flatten().to_multiset()).insert(v));
            } else {
                lemma_right_values_other(rv, ks[0]);
                assert(g == g0);
                lemma_groups_multiset(ks.skip(1), lv, rv, k, v);
                if ks.skip(1).contains(k) {
                    assert(a_rest.flatten().to_multiset() == a0_rest.flatten().to_multiset()
                        .insert(v));
                    assert(g.to_multiset().add(a_rest.flatten().to_multiset())
                        =~= g0.to_multiset().add(a0_rest.flatten().to_multiset()).insert(v));
                } else {
                    assert(a_rest.flatten().to_multiset() == a0_rest.flatten().to_multiset());
                }
            }
        }
    }
}

proof fn lemma_left_excl_snoc(rv: Seq<(Seq<Atom>, Seq<char>)>, lv: Seq<(Seq<Atom>, Seq<char>)>)
    requires
        rv.len() > 0,
    ensures
        hash_left_excl_join(rv, lv) == hash_left_excl_join(rv.drop_last(), lv) + (if has_key(
            lv,
            rv.last().0,
        ) {
            Seq::<Seq<char>>::empty()
        } else {
            seq![rv.last().1]
        }),
    decreases rv.len(),
{
    let rv0 = rv.drop_last();
    let tail = if has_key(lv, rv.last().0) {
        Seq::<Seq<char>>::empty()
    } else {
        seq![rv.last().1]
    };
    if rv.len() == 1 {
        assert(rv.skip(1) =~= Seq::<(Seq<Atom>, Seq<char>)>::empty());
        assert(rv0.len() == 0);
        assert(hash_left_excl_join(Seq::<(Seq<Atom>, Seq<char>)>::empty(), lv)
            == Seq::<Seq<char>>::empty());
        assert(hash_left_excl_join(rv.skip(1), lv) == Seq::<Seq<char>>::empty());
        if has_key(lv, rv[0].0) {
            assert(hash_left_excl_join(rv, lv) =~= hash_left_excl_join(rv0, lv) + tail);
        } else {
            assert(hash_left_excl_join(rv, lv) == seq![rv[0].1] + hash_left_excl_join(
                rv.skip(1),
                lv,
            ));
            assert(hash_left_excl_join(rv, lv) =~= hash_left_excl_join(rv0, lv) + tail);
        }
    } else {
        assert(rv.skip(1).len() > 0);
        assert(rv.skip(1).last() == rv.last());
        assert(rv0[0] == rv[0]);
        assert(rv0.skip(1) =~= rv.skip(1).drop_last());
        lemma_left_excl_snoc(rv.skip(1), lv);
        if has_key(lv, rv[0].0) {
            assert(hash_left_excl_join(rv, lv) == hash_left_excl_join(rv.skip(1), lv));
            assert(hash_left_excl_join(rv0, lv) == hash_left_excl_join(rv0.skip(1), lv));
        } else {
            assert(hash_left_excl_join(rv, lv) == seq![rv[0].1] + hash_left_excl_join(
                rv.skip(1),
                lv,
            ));
            assert(hash_left_excl_join(rv0, lv) == seq![rv[0].1] + hash_left_excl_join(
                rv0.skip(1),
                lv,
            ));
            assert(seq![rv[0].1] + (hash_left_excl_join(rv.skip(1).drop_last(), lv) + tail)
                =~= (seq![rv[0].1] + hash_left_excl_join(rv.skip(1).drop_last(), lv)) + tail);
        }
    }
}

/// Exclusive-join duality: the right-exclusive join of the pair `(L, R)`
/// holds, once its per-key groups are flattened, exactly the records of
/// the left-exclusive join of the swapped pair `(R, L)` — the same
/// multiset; only the regrouping by key can reorder them.
pub proof fn lemma_hash_excl_duality(
    lv: Seq<(Seq<Atom>, Seq<char>)>,
    rv: Seq<(Seq<Atom>, Seq<char>)>,
)
    ensures
        hash_right_excl_join(lv, rv).flatten().to_multiset() == hash_left_excl_join(
            rv,
            lv,
        ).to_multiset(),
    decreases rv.len(),
{
    if rv.len() == 0 {
        assert(distinct_keys(rv).len() == 0);
        assert(hash_right_excl_join(lv, rv).flatten() =~= hash_left_excl_join(rv, lv));
    } else {
        let rv0 = rv.drop_last();
        let k = rv.last().0;
        let v = rv.last().1;
        lemma_hash_excl_duality(lv, rv0);
        lemma_distinct_keys(rv0);
        lemma_left_excl_snoc(rv, lv);
        let ks0 = distinct_keys(rv0);
        let ks = distinct_keys(rv);
        if has_key(lv, k) {
            if ks0.contains(k) {
                assert(ks == ks0);
                lemma_groups_same(ks0, lv, rv, k);
            } else {
                assert(ks == ks0.push(k));
                lemma_unmatched_snoc(ks0, k, lv, rv);
                assert(unmatched_groups(ks, lv, rv) =~= unmatched_groups(ks0, lv, rv));
                lemma_groups_same(ks0, lv, rv, k);
            }
            assert(hash_left_excl_join(rv, lv) =~= hash_left_excl_join(rv0, lv));
        } else {
            assert(rv.last() == (k, v));
            if ks0.contains(k) {
                assert(ks == ks0);
                lemma_groups_multiset(ks0, lv, rv, k, v);
                assert(hash_left_excl_join(rv, lv) =~= hash_left_excl_join(rv0, lv).push(v));
                assert(hash_left_excl_join(rv, lv).to_multiset() =~= hash_left_excl_join(
                    rv0,
                    lv,
                ).to_multiset().insert(v));
            } else {
                assert(ks == ks0.push(k));
                lemma_unmatched_snoc(ks0, k, lv, rv);
                lemma_groups_other(ks0, lv, rv, k);
                let g = right_values(rv, k);
                assert(!has_key(rv0, k));
                lemma_right_values_empty(rv0, k);
                assert(g == right_values(rv0, k).push(v));
                assert(g =~= seq![v]);
                assert(unmatched_groups(ks, lv, rv) == unmatched_groups(ks0, lv, rv0) + seq![
                    g,
                ]);
                assert(unmatched_groups(ks0, lv, rv0) + seq![g] =~= unmatched_groups(
                    ks0,
                    lv,
                    rv0,
                ).push(g));
                assert(unmatched_groups(ks0, lv, rv0).push(g).flatten()
                    =~= unmatched_groups(ks0, lv, rv0).flatten() + g) by {
                    broadcast use vstd::seq::Seq::lemma_flatten_push;

                }
                lemma_multiset_commutative(unmatched_groups(ks0, lv, rv0).flatten(), g);
                assert(g.to_multiset() =~= Multiset::<Seq<char>>::empty().insert(v)) by {
                    assert(g =~= Seq::<Seq<char>>::empty().push(v));
                    assert(Seq::<Seq<char>>::empty().to_multiset() =~= Multiset::<
                        Seq<char>,
                    >::empty());
                }
                assert(hash_right_excl_join(lv, rv).flatten().to_multiset()
                    =~= hash_right_excl_join(lv, rv0).flatten().to_multiset().insert(v));
                assert(hash_left_excl_join(rv, lv) =~= hash_left_excl_join(rv0, lv).push(v));
                assert(hash_left_excl_join(rv, lv).to_multiset() =~= hash_left_excl_join(
                    rv0,
                    lv,
                ).to_multiset().insert(v));
            }
        }
    }
}

/// Exclusive-join duality, exact form: when the right input's keys are
/// pairwise distinct, the flattened right-exclusive join of `(L, R)` is
/// the left-exclusive join of the swapped pair `(R, L)`, element for
/// element.
pub proof fn lemma_hash_excl_duality_unique(
    lv: Seq<(Seq<Atom>, Seq<char>)>,
    rv: Seq<(Seq<Atom>, Seq<char>)>,
)
    requires
        forall|i: int, j: int| 0 <= i < j < rv.len() ==> (#[trigger] rv[i]).0 != (#[trigger] rv[j]).0,
    ensures
        hash_right_excl_join(lv, rv).flatten() == hash_left_excl_join(rv, lv),
    decreases rv.len(),
{
    if rv.len() == 0 {
        assert(hash_right_excl_join(lv, rv).flatten() =~= hash_left_excl_join(rv, lv));
    } else {
        let rv0 = rv.drop_last();
        let k = rv.last().0;
        let v = rv.last().1;
        assert(forall|i: int| 0 <= i < rv0.len() ==> #[trigger] rv0[i] == rv[i]);
        lemma_hash_excl_duality_unique(lv, rv0);
        lemma_distinct_keys(rv0);
        lemma_left_excl_snoc(rv, lv);
        let ks0 = distinct_keys(rv0);
        assert(!has_key(rv0, k)) by {
            if has_key(rv0, k) {
                let i = choose|i: int| 0 <= i < rv0.len() && (#[trigger] rv0[i]).0 == k;
                assert(rv[i].0 == rv[rv.len() - 1].0);
            }
        }
        assert(!ks0.contains(k));
        assert(distinct_keys(rv) == ks0.push(k));
        lemma_unmatched_snoc(ks0, k, lv, rv);
        lemma_groups_other(ks0, lv, rv, k);
        if has_key(lv, k) {
            assert(unmatched_groups(ks0.push(k), lv, rv) =~= unmatched_groups(ks0, lv, rv0));
            assert(hash_left_excl_join(rv, lv) =~= hash_left_excl_join(rv0, lv));
        } else {
            let g = right_values(rv, k);
            lemma_right_values_empty(rv0, k);
            assert(g == right_values(rv0, k).push(v));
            assert(g =~= seq![v]);
            assert(unmatched_groups(ks0.push(k), lv, rv) == unmatched_groups(ks0, lv, rv0)
                + seq![g]);
            assert(unmatched_groups(ks0, lv, rv0) + seq![g] =~= unmatched_groups(
                ks0,
                lv,
                rv0,
            ).push(g));
            assert(unmatched_groups(ks0, lv, rv0).push(g).flatten() =~= unmatched_groups(
                ks0,
                lv,
                rv0,
            ).flatten() + g) by {
                broadcast use vstd::seq::Seq::lemma_flatten_push;

            }
            assert(hash_right_excl_join(lv, rv).flatten() =~= hash_right_excl_join(
                lv,
                rv0,
            ).flatten() + seq![v]);
            assert(hash_left_excl_join(rv, lv) =~= hash_left_excl_join(rv0, lv) + seq![v]);
        }
    }
}

} // verus!
