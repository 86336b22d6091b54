//! SQL-like joins of two sorted keyed group streams under the merge
//! strategy: both inputs must be sorted ascending by key and unique on
//! the key; the operators walk the two cursors in lockstep, holding only
//! the cursor positions and the one-shot fused register that remembers
//! which side ran out first.

use core::cmp::Ordering;
use vstd::prelude::*;
use crate::hash_join::clone_values;
use crate::key::{clone_key, key_cmp, key_le, key_lt, lemma_key_le_trans, lemma_key_lt_trichotomy,
    Atom, VarData};
use crate::EitherOrBoth;

verus! {

/// The merge inner join: on equal heads both items come out as a pair;
/// the smaller head is dropped otherwise; the join ends when either side
/// ends.
pub open spec fn merge_inner_join(
    l: Seq<(Seq<Atom>, Seq<Seq<char>>)>,
    r: Seq<(Seq<Atom>, Seq<Seq<char>>)>,
) -> Seq<((Seq<Atom>, Seq<Seq<char>>), (Seq<Atom>, Seq<Seq<char>>))>
    decreases l.len() + r.len(),
{
    if l.len() == 0 || r.len() == 0 {
        Seq::empty()
    } else if key_lt(l[0].0, r[0].0) {
        merge_inner_join(l.skip(1), r)
    } else if key_lt(r[0].0, l[0].0) {
        merge_inner_join(l, r.skip(1))
    } else {
        seq![(l[0], r[0])] + merge_inner_join(l.skip(1), r.skip(1))
    }
}

/// The merge left-exclusive join: left items smaller than the right head
/// come out; equal heads are both dropped; once the right side ends the
/// rest of the left side comes out.
pub open spec fn merge_left_excl_join(
    l: Seq<(Seq<Atom>, Seq<Seq<char>>)>,
    r: Seq<(Seq<Atom>, Seq<Seq<char>>)>,
) -> Seq<(Seq<Atom>, Seq<Seq<char>>)>
    decreases l.len() + r.len(),
{
    if l.len() == 0 {
        Seq::empty()
    } else if r.len() == 0 {
        seq![l[0]] + merge_left_excl_join(l.skip(1), r)
    } else if key_lt(l[0].0, r[0].0) {
        seq![l[0]] + merge_left_excl_join(l.skip(1), r)
    } else if key_lt(r[0].0, l[0].0) {
        merge_left_excl_join(l, r.skip(1))
    } else {
        merge_left_excl_join(l.skip(1), r.skip(1))
    }
}

/// The merge left-outer join: every left item comes out, as `Both` when
/// the right side holds an equal key and as `Left` otherwise.
pub open spec fn merge_left_outer_join(
    l: Seq<(Seq<Atom>, Seq<Seq<char>>)>,
    r: Seq<(Seq<Atom>, Seq<Seq<char>>)>,
) -> Seq<EitherOrBoth<(Seq<Atom>, Seq<Seq<char>>), (Seq<Atom>, Seq<Seq<char>>)>>
    decreases l.len() + r.len(),
{
    if l.len() == 0 {
        Seq::empty()
    } else if r.len() == 0 {
        seq![EitherOrBoth::Left(l[0])] + merge_left_outer_join(l.skip(1), r)
    } else if key_lt(l[0].0, r[0].0) {
        seq![EitherOrBoth::Left(l[0])] + merge_left_outer_join(l.skip(1), r)
    } else if key_lt(r[0].0, l[0].0) {
        merge_left_outer_join(l, r.skip(1))
    } else {
        seq![EitherOrBoth::Both(l[0], r[0])] + merge_left_outer_join(l.skip(1), r.skip(1))
    }
}

/// The merge full-outer join: every item of both sides comes out, paired
/// as `Both` on equal keys and alone as `Left` or `Right` otherwise.
pub open spec fn merge_full_outer_join(
    l: Seq<(Seq<Atom>, Seq<Seq<char>>)>,
    r: Seq<(Seq<Atom>, Seq<Seq<char>>)>,
) -> Seq<EitherOrBoth<(Seq<Atom>, Seq<Seq<char>>), (Seq<Atom>, Seq<Seq<char>>)>>
    decreases l.len() + r.len(),
{
    if l.len() == 0 && r.len() == 0 {
        Seq::empty()
    } else if r.len() == 0 {
        seq![EitherOrBoth::Left(l[0])] + merge_full_outer_join(l.skip(1), r)
    } else if l.len() == 0 {
        seq![EitherOrBoth::Right(r[0])] + merge_full_outer_join(l, r.skip(1))
    } else if key_lt(l[0].0, r[0].0) {
        seq![EitherOrBoth::Left(l[0])] + merge_full_outer_join(l.skip(1), r)
    } else if key_lt(r[0].0, l[0].0) {
        seq![EitherOrBoth::Right(r[0])] + merge_full_outer_join(l, r.skip(1))
    } else {
        seq![EitherOrBoth::Both(l[0], r[0])] + merge_full_outer_join(l.skip(1), r.skip(1))
    }
}

/// A copy of one keyed group with the same contents.
fn clone_item(it: &(Vec<VarData>, Vec<String>)) -> (r: (Vec<VarData>, Vec<String>))
    ensures
        r.deep_view() == it.deep_view(),
{
    (clone_key(&it.0), clone_values(&it.1))
}

/// See `merge_inner_join` for the semantics.
pub struct MergeJoinInner {
    left: Vec<(Vec<VarData>, Vec<String>)>,
    lpos: usize,
    right: Vec<(Vec<VarData>, Vec<String>)>,
    rpos: usize,
}

impl MergeJoinInner {
    /// The operator's cursors have not run past their inputs.
    pub closed spec fn wf(&self) -> bool {
        self.lpos <= self.left@.len() && self.rpos <= self.right@.len()
    }

    /// The outputs the operator has yet to yield.
    pub closed spec fn remaining(&self) -> Seq<
        ((Seq<Atom>, Seq<Seq<char>>), (Seq<Atom>, Seq<Seq<char>>)),
    > {
        merge_inner_join(
            self.left.deep_view().skip(self.lpos as int),
            self.right.deep_view().skip(self.rpos as int),
        )
    }

    /// Create a `MergeJoinInner` operator over two sorted inputs.
    pub fn new(left: Vec<(Vec<VarData>, Vec<String>)>, right: Vec<(Vec<VarData>, Vec<String>)>)
        -> (r: Self)
        ensures
            r.wf(),
            r.remaining() == merge_inner_join(left.deep_view(), right.deep_view()),
    {
        let r = MergeJoinInner { left, lpos: 0, right, rpos: 0 };
        proof {
            assert(r.left.deep_view().skip(0) =~= r.left.deep_view());
            assert(r.right.deep_view().skip(0) =~= r.right.deep_view());
        }
        r
    }

    /// Yields the next pair of equal-keyed items, or `None` once either
    /// side is exhausted.
    pub fn next(&mut self) -> (r: Option<
        ((Vec<VarData>, Vec<String>), (Vec<VarData>, Vec<String>)),
    >)
        requires
            old(self).wf(),
        ensures
            final(self).wf(),
            ({
                let rem = old(self).remaining();
                if rem.len() == 0 {
                    r is None && final(self).remaining() == rem
                } else {
                    &&& r is Some
                    &&& (r matches Some(x) ==> x.deep_view() == rem[0])
                    &&& final(self).remaining() == rem.skip(1)
                }
            }),
    {
        loop
            invariant
                self.wf(),
                self.remaining() == old(self).remaining(),
            decreases (self.left@.len() - self.lpos) + (self.right@.len() - self.rpos),
        {
            if self.lpos >= self.left.len() || self.rpos >= self.right.len() {
                return None;
            }
            let ghost lsuf = self.left.deep_view().skip(self.lpos as int);
            let ghost rsuf = self.right.deep_view().skip(self.rpos as int);
            proof {
                assert(lsuf[0] == self.left.deep_view()[self.lpos as int]);
                assert(rsuf[0] == self.right.deep_view()[self.rpos as int]);
                assert(lsuf.skip(1) =~= self.left.deep_view().skip(self.lpos + 1));
                assert(rsuf.skip(1) =~= self.right.deep_view().skip(self.rpos + 1));
            }
            let ord = key_cmp(&self.left[self.lpos].0, &self.right[self.rpos].0);
            match ord {
                Ordering::Less => {
                    self.lpos = self.lpos + 1;
                }
                Ordering::Greater => {
                    self.rpos = self.rpos + 1;
                }
                Ordering::Equal => {
                    let li = clone_item(&self.left[self.lpos]);
                    let ri = clone_item(&self.right[self.rpos]);
                    self.lpos = self.lpos + 1;
                    self.rpos = self.rpos + 1;
                    proof {
                        lemma_key_lt_trichotomy(lsuf[0].0, rsuf[0].0);
                        assert(self.remaining() == merge_inner_join(lsuf, rsuf).skip(1)) by {
                            assert(merge_inner_join(lsuf, rsuf) == seq![(lsuf[0], rsuf[0])]
                                + merge_inner_join(lsuf.skip(1), rsuf.skip(1)));
                            assert((seq![(lsuf[0], rsuf[0])] + merge_inner_join(
                                lsuf.skip(1),
                                rsuf.skip(1),
                            )).skip(1) =~= merge_inner_join(lsuf.skip(1), rsuf.skip(1)));
                        }
                    }
                    return Some((li, ri));
                }
            }
        }
    }
}

/// See `merge_left_excl_join` for the semantics.
pub struct MergeJoinLeftExcl {
    left: Vec<(Vec<VarData>, Vec<String>)>,
    lpos: usize,
    right: Vec<(Vec<VarData>, Vec<String>)>,
    rpos: usize,
    fused: Option<Ordering>,
}

impl MergeJoinLeftExcl {
    /// The operator's cursors have not run past their inputs, and the
    /// fused register only ever records an exhausted side.
    pub closed spec fn wf(&self) -> bool {
        &&& self.lpos <= self.left@.len()
        &&& self.rpos <= self.right@.len()
        &&& match self.fused {
            Option::Some(o) => {
                &&& (o == Ordering::Less ==> self.rpos == self.right@.len())
                &&& (o == Ordering::Greater ==> self.lpos == self.left@.len())
                &&& o != Ordering::Equal
            },
            Option::None => true,
        }
    }

    /// The outputs the operator has yet to yield.
    pub closed spec fn remaining(&self) -> Seq<(Seq<Atom>, Seq<Seq<char>>)> {
        merge_left_excl_join(
            self.left.deep_view().skip(self.lpos as int),
            self.right.deep_view().skip(self.rpos as int),
        )
    }

    /// Create a `MergeJoinLeftExcl` operator over two sorted inputs.
    pub fn new(left: Vec<(Vec<VarData>, Vec<String>)>, right: Vec<(Vec<VarData>, Vec<String>)>)
        -> (r: Self)
        ensures
            r.wf(),
            r.remaining() == merge_left_excl_join(left.deep_view(), right.deep_view()),
    {
        let r = MergeJoinLeftExcl { left, lpos: 0, right, rpos: 0, fused: None };
        proof {
            assert(r.left.deep_view().skip(0) =~= r.left.deep_view());
            assert(r.right.deep_view().skip(0) =~= r.right.deep_view());
        }
        r
    }

    /// Yields the next left item that matches nothing on the right, or
    /// `None` once the left side is exhausted.
    pub fn next(&mut self) -> (r: Option<(Vec<VarData>, Vec<String>)>)
        requires
            old(self).wf(),
        ensures
            final(self).wf(),
            ({
                let rem = old(self).remaining();
                if rem.len() == 0 {
                    r is None && final(self).remaining() == rem
                } else {
                    &&& r is Some
                    &&& (r matches Some(x) ==> x.deep_view() == rem[0])
                    &&& final(self).remaining() == rem.skip(1)
                }
            }),
    {
        loop
            invariant
                self.wf(),
                self.remaining() == old(self).remaining(),
            decreases (self.left@.len() - self.lpos) + (self.right@.len() - self.rpos),
        {
            if self.lpos >= self.left.len() {
                return None;
            }
            let ghost lsuf = self.left.deep_view().skip(self.lpos as int);
            let ghost rsuf = self.right.deep_view().skip(self.rpos as int);
            proof {
                assert(lsuf[0] == self.left.deep_view()[self.lpos as int]);
                assert(lsuf.skip(1) =~= self.left.deep_view().skip(self.lpos + 1));
            }
            let ord = match self.fused {
                Option::Some(o) => o,
                Option::None => {
                    if self.rpos >= self.right.len() {
                        self.fused = Some(Ordering::Less);
                        Ordering::Less
                    } else {
                        proof {
                            assert(rsuf[0] == self.right.deep_view()[self.rpos as int]);
                        }
                        key_cmp(&self.left[self.lpos].0, &self.right[self.rpos].0)
                    }
                }
            };
            match ord {
                Ordering::Less => {
                    let li = clone_item(&self.left[self.lpos]);
                    self.lpos = self.lpos + 1;
                    proof {
                        assert(self.remaining() == merge_left_excl_join(lsuf, rsuf).skip(1))
                            by {
                            assert(merge_left_excl_join(lsuf, rsuf) == seq![lsuf[0]]
                                + merge_left_excl_join(lsuf.skip(1), rsuf));
                            assert((seq![lsuf[0]] + merge_left_excl_join(lsuf.skip(1), rsuf))
                                .skip(1) =~= merge_left_excl_join(lsuf.skip(1), rsuf));
                        }
                    }
                    return Some(li);
                }
                Ordering::Greater => {
                    proof {
                        assert(rsuf[0] == self.right.deep_view()[self.rpos as int]);
                        assert(rsuf.skip(1) =~= self.right.deep_view().skip(self.rpos + 1));
                    }
                    self.rpos = self.rpos + 1;
                }
                Ordering::Equal => {
                    proof {
                        assert(rsuf[0] == self.right.deep_view()[self.rpos as int]);
                        assert(rsuf.skip(1) =~= self.right.deep_view().skip(self.rpos + 1));
                        lemma_key_lt_trichotomy(lsuf[0].0, rsuf[0].0);
                    }
                    self.lpos = self.lpos + 1;
                    self.rpos = self.rpos + 1;
                }
            }
        }
    }
}

/// See `merge_left_outer_join` for the semantics.
pub struct MergeJoinLeftOuter {
    left: Vec<(Vec<VarData>, Vec<String>)>,
    lpos: usize,
    right: Vec<(Vec<VarData>, Vec<String>)>,
    rpos: usize,
    fused: Option<Ordering>,
}

impl MergeJoinLeftOuter {
    /// The operator's cursors have not run past their inputs, and the
    /// fused register only ever records an exhausted side.
    pub closed spec fn wf(&self) -> bool {
        &&& self.lpos <= self.left@.len()
        &&& self.rpos <= self.right@.len()
        &&& match self.fused {
            Option::Some(o) => {
                &&& (o == Ordering::Less ==> self.rpos == self.right@.len())
                &&& (o == Ordering::Greater ==> self.lpos == self.left@.len())
                &&& o != Ordering::Equal
            },
            Option::None => true,
        }
    }

    /// The outputs the operator has yet to yield.
    pub closed spec fn remaining(&self) -> Seq<
        EitherOrBoth<(Seq<Atom>, Seq<Seq<char>>), (Seq<Atom>, Seq<Seq<char>>)>,
    > {
        merge_left_outer_join(
            self.left.deep_view().skip(self.lpos as int),
            self.right.deep_view().skip(self.rpos as int),
        )
    }

    /// Create a `MergeJoinLeftOuter` operator over two sorted inputs.
    pub fn new(left: Vec<(Vec<VarData>, Vec<String>)>, right: Vec<(Vec<VarData>, Vec<String>)>)
        -> (r: Self)
        ensures
            r.wf(),
            r.remaining() == merge_left_outer_join(left.deep_view(), right.deep_view()),
    {
        let r = MergeJoinLeftOuter { left, lpos: 0, right, rpos: 0, fused: None };
        proof {
            assert(r.left.deep_view().skip(0) =~= r.left.deep_view());
            assert(r.right.deep_view().skip(0) =~= r.right.deep_view());
        }
        r
    }

    /// Yields the next output, or `None` once the left side is
    /// exhausted.
    pub fn next(&mut self) -> (r: Option<
        EitherOrBoth<(Vec<VarData>, Vec<String>), (Vec<VarData>, Vec<String>)>,
    >)
        requires
            old(self).wf(),
        ensures
            final(self).wf(),
            ({
                let rem = old(self).remaining();
                if rem.len() == 0 {
                    r is None && final(self).remaining() == rem
                } else {
                    &&& r is Some
                    &&& (r matches Some(x) ==> x.deep_view() == rem[0])
                    &&& final(self).remaining() == rem.skip(1)
                }
            }),
    {
        loop
            invariant
                self.wf(),
                self.remaining() == old(self).remaining(),
            decreases (self.left@.len() - self.lpos) + (self.right@.len() - self.rpos),
        {
            if self.lpos >= self.left.len() {
                return None;
            }
            let ghost lsuf = self.left.deep_view().skip(self.lpos as int);
            let ghost rsuf = self.right.deep_view().skip(self.rpos as int);
            proof {
                assert(lsuf[0] == self.left.deep_view()[self.lpos as int]);
                assert(lsuf.skip(1) =~= self.left.deep_view().skip(self.lpos + 1));
            }
            let ord = match self.fused {
                Option::Some(o) => o,
                Option::None => {
                    if self.rpos >= self.right.len() {
                        self.fused = Some(Ordering::Less);
                        Ordering::Less
                    } else {
                        proof {
                            assert(rsuf[0] == self.right.deep_view()[self.rpos as int]);
                        }
                        key_cmp(&self.left[self.lpos].0, &self.right[self.rpos].0)
                    }
                }
            };
            match ord {
                Ordering::Less => {
                    let li = clone_item(&self.left[self.lpos]);
                    self.lpos = self.lpos + 1;
                    proof {
                        assert(self.remaining() == merge_left_outer_join(lsuf, rsuf).skip(1))
                            by {
                            assert(merge_left_outer_join(lsuf, rsuf)
                                == seq![EitherOrBoth::Left(lsuf[0])] + merge_left_outer_join(
                                lsuf.skip(1),
                                rsuf,
                            ));
                            assert((seq![EitherOrBoth::Left(lsuf[0])] + merge_left_outer_join(
                                lsuf.skip(1),
                                rsuf,
                            )).skip(1) =~= merge_left_outer_join(lsuf.skip(1), rsuf));
                        }
                    }
                    return Some(EitherOrBoth::Left(li));
                }
                Ordering::Greater => {
                    proof {
                        assert(rsuf[0] == self.right.deep_view()[self.rpos as int]);
                        assert(rsuf.skip(1) =~= self.right.deep_view().skip(self.rpos + 1));
                    }
                    self.rpos = self.rpos + 1;
                }
                Ordering::Equal => {
                    proof {
                        assert(rsuf[0] == self.right.deep_view()[self.rpos as int]);
                        assert(rsuf.skip(1) =~= self.right.deep_view().skip(self.rpos + 1));
                        lemma_key_lt_trichotomy(lsuf[0].0, rsuf[0].0);
                    }
                    let li = clone_item(&self.left[self.lpos]);
                    let ri = clone_item(&self.right[self.rpos]);
                    self.lpos = self.lpos + 1;
                    self.rpos = self.rpos + 1;
                    proof {
                        assert(self.remaining() == merge_left_outer_join(lsuf, rsuf).skip(1))
                            by {
                            assert(merge_left_outer_join(lsuf, rsuf)
                                == seq![EitherOrBoth::Both(lsuf[0], rsuf[0])]
                                + merge_left_outer_join(lsuf.skip(1), rsuf.skip(1)));
                            assert((seq![EitherOrBoth::Both(lsuf[0], rsuf[0])]
                                + merge_left_outer_join(lsuf.skip(1), rsuf.skip(1))).skip(1)
                                =~= merge_left_outer_join(lsuf.skip(1), rsuf.skip(1)));
                        }
                    }
                    return Some(EitherOrBoth::Both(li, ri));
                }
            }
        }
    }
}

/// See `merge_full_outer_join` for the semantics.
pub struct MergeJoinFullOuter {
    left: Vec<(Vec<VarData>, Vec<String>)>,
    lpos: usize,
    right: Vec<(Vec<VarData>, Vec<String>)>,
    rpos: usize,
    fused: Option<Ordering>,
}

impl MergeJoinFullOuter {
    /// The operator's cursors have not run past their inputs, and the
    /// fused register only ever records an exhausted side.
    pub closed spec fn wf(&self) -> bool {
        &&& self.lpos <= self.left@.len()
        &&& self.rpos <= self.right@.len()
        &&& match self.fused {
            Option::Some(o) => {
                &&& (o == Ordering::Less ==> self.rpos == self.right@.len())
                &&& (o == Ordering::Greater ==> self.lpos == self.left@.len())
                &&& o != Ordering::Equal
            },
            Option::None => true,
        }
    }

    /// The outputs the operator has yet to yield.
    pub closed spec fn remaining(&self) -> Seq<
        EitherOrBoth<(Seq<Atom>, Seq<Seq<char>>), (Seq<Atom>, Seq<Seq<char>>)>,
    > {
        merge_full_outer_join(
            self.left.deep_view().skip(self.lpos as int),
            self.right.deep_view().skip(self.rpos as int),
        )
    }

    /// Create a `MergeJoinFullOuter` operator over two sorted inputs.
    pub fn new(left: Vec<(Vec<VarData>, Vec<String>)>, right: Vec<(Vec<VarData>, Vec<String>)>)
        -> (r: Self)
        ensures
            r.wf(),
            r.remaining() == merge_full_outer_join(left.deep_view(), right.deep_view()),
    {
        let r = MergeJoinFullOuter { left, lpos: 0, right, rpos: 0, fused: None };
        proof {
            assert(r.left.deep_view().skip(0) =~= r.left.deep_view());
            assert(r.right.deep_view().skip(0) =~= r.right.deep_view());
        }
        r
    }

    /// Yields the next output, or `None` once both sides are exhausted.
    pub fn next(&mut self) -> (r: Option<
        EitherOrBoth<(Vec<VarData>, Vec<String>), (Vec<VarData>, Vec<String>)>,
    >)
        requires
            old(self).wf(),
        ensures
            final(self).wf(),
            ({
                let rem = old(self).remaining();
                if rem.len() == 0 {
                    r is None && final(self).remaining() == rem
                } else {
                    &&& r is Some
                    &&& (r matches Some(x) ==> x.deep_view() == rem[0])
                    &&& final(self).remaining() == rem.skip(1)
                }
            }),
    {
        loop
            invariant
                self.wf(),
                self.remaining() == old(self).remaining(),
            decreases (self.left@.len() - self.lpos) + (self.right@.len() - self.rpos),
        {
            let ghost lsuf = self.left.deep_view().skip(self.lpos as int);
            let ghost rsuf = self.right.deep_view().skip(self.rpos as int);
            let ord = match self.fused {
                Option::Some(o) => o,
                Option::None => {
                    if self.lpos >= self.left.len() && self.rpos >= self.right.len() {
                        return None;
                    } else if self.rpos >= self.right.len() {
                        self.fused = Some(Ordering::Less);
                        Ordering::Less
                    } else if self.lpos >= self.left.len() {
                        self.fused = Some(Ordering::Greater);
                        Ordering::Greater
                    } else {
                        proof {
                            assert(lsuf[0] == self.left.deep_view()[self.lpos as int]);
                            assert(rsuf[0] == self.right.deep_view()[self.rpos as int]);
                        }
                        key_cmp(&self.left[self.lpos].0, &self.right[self.rpos].0)
                    }
                }
            };
            match ord {
                Ordering::Less => {
                    if self.lpos >= self.left.len() {
                        return None;
                    }
                    proof {
                        assert(lsuf[0] == self.left.deep_view()[self.lpos as int]);
                        assert(lsuf.skip(1) =~= self.left.deep_view().skip(self.lpos + 1));
                    }
                    let li = clone_item(&self.left[self.lpos]);
                    self.lpos = self.lpos + 1;
                    proof {
                        assert(self.remaining() == merge_full_outer_join(lsuf, rsuf).skip(1))
                            by {
                            assert(merge_full_outer_join(lsuf, rsuf)
                                == seq![EitherOrBoth::Left(lsuf[0])] + merge_full_outer_join(
                                lsuf.skip(1),
                                rsuf,
                            ));
                            assert((seq![EitherOrBoth::Left(lsuf[0])] + merge_full_outer_join(
                                lsuf.skip(1),
                                rsuf,
                            )).skip(1) =~= merge_full_outer_join(lsuf.skip(1), rsuf));
                        }
                    }
                    return Some(EitherOrBoth::Left(li));
                }
                Ordering::Greater => {
                    if self.rpos >= self.right.len() {
                        return None;
                    }
                    proof {
                        assert(rsuf[0] == self.right.deep_view()[self.rpos as int]);
                        assert(rsuf.skip(1) =~= self.right.deep_view().skip(self.rpos + 1));
                    }
                    let ri = clone_item(&self.right[self.rpos]);
                    self.rpos = self.rpos + 1;
                    proof {
                        assert(self.remaining() == merge_full_outer_join(lsuf, rsuf).skip(1))
                            by {
                            assert(merge_full_outer_join(lsuf, rsuf)
                                == seq![EitherOrBoth::Right(rsuf[0])] + merge_full_outer_join(
                                lsuf,
                                rsuf.skip(1),
                            ));
                            assert((seq![EitherOrBoth::Right(rsuf[0])] + merge_full_outer_join(
                                lsuf,
                                rsuf.skip(1),
                            )).skip(1) =~= merge_full_outer_join(lsuf, rsuf.skip(1)));
                        }
                    }
                    return Some(EitherOrBoth::Right(ri));
                }
                Ordering::Equal => {
                    proof {
                        assert(lsuf[0] == self.left.deep_view()[self.lpos as int]);
                        assert(rsuf[0] == self.right.deep_view()[self.rpos as int]);
                        assert(lsuf.skip(1) =~= self.left.deep_view().skip(self.lpos + 1));
                        assert(rsuf.skip(1) =~= self.right.deep_view().skip(self.rpos + 1));
                        lemma_key_lt_trichotomy(lsuf[0].0, rsuf[0].0);
                    }
                    let li = clone_item(&self.left[self.lpos]);
                    let ri = clone_item(&self.right[self.rpos]);
                    self.lpos = self.lpos + 1;
                    self.rpos = self.rpos + 1;
                    proof {
                        assert(self.remaining() == merge_full_outer_join(lsuf, rsuf).skip(1))
                            by {
                            assert(merge_full_outer_join(lsuf, rsuf)
                                == seq![EitherOrBoth::Both(lsuf[0], rsuf[0])]
                                + merge_full_outer_join(lsuf.skip(1), rsuf.skip(1)));
                            assert((seq![EitherOrBoth::Both(lsuf[0], rsuf[0])]
                                + merge_full_outer_join(lsuf.skip(1), rsuf.skip(1))).skip(1)
                                =~= merge_full_outer_join(lsuf.skip(1), rsuf.skip(1)));
                        }
                    }
                    return Some(EitherOrBoth::Both(li, ri));
                }
            }
        }
    }
}

/// An input sorted ascending by key under the composite-key order.
pub open spec fn sorted_by_key(s: Seq<(Seq<Atom>, Seq<Seq<char>>)>) -> bool {
    forall|i: int, j: int|
        0 <= i < j < s.len() ==> key_le((#[trigger] s[i]).0, (#[trigger] s[j]).0)
}

/// The key an outer-join output element carries.
pub open spec fn eob_key(
    e: EitherOrBoth<(Seq<Atom>, Seq<Seq<char>>), (Seq<Atom>, Seq<Seq<char>>)>,
) -> Seq<Atom> {
    match e {
        EitherOrBoth::Both(l, _) => l.0,
        EitherOrBoth::Left(l) => l.0,
        EitherOrBoth::Right(r) => r.0,
    }
}

/// The keys of an inner-join output, in emission order.
pub open spec fn inner_keys(
    o: Seq<((Seq<Atom>, Seq<Seq<char>>), (Seq<Atom>, Seq<Seq<char>>))>,
) -> Seq<Seq<Atom>> {
    Seq::new(o.len(), |i: int| o[i].0.0)
}

/// The keys of a stream of keyed items, in emission order.
pub open spec fn item_keys(o: Seq<(Seq<Atom>, Seq<Seq<char>>)>) -> Seq<Seq<Atom>> {
    Seq::new(o.len(), |i: int| o[i].0)
}

/// The keys of an outer-join output, in emission order.
pub open spec fn eob_keys(
    o: Seq<EitherOrBoth<(Seq<Atom>, Seq<Seq<char>>), (Seq<Atom>, Seq<Seq<char>>)>>,
) -> Seq<Seq<Atom>> {
    Seq::new(o.len(), |i: int| eob_key(o[i]))
}

/// A key sequence that never decreases.
pub open spec fn keys_nondecreasing(ks: Seq<Seq<Atom>>) -> bool {
    forall|i: int, j: int| 0 <= i < j < ks.len() ==> key_le(#[trigger] ks[i], #[trigger] ks[j])
}

proof fn lemma_sorted_skip(s: Seq<(Seq<Atom>, Seq<Seq<char>>)>)
    requires
        sorted_by_key(s),
        s.len() > 0,
    ensures
        sorted_by_key(s.skip(1)),
        forall|i: int| 0 <= i < s.skip(1).len() ==> key_le(s[0].0, (#[trigger] s.skip(1)[i]).0),
{
    assert(forall|i: int| 0 <= i < s.skip(1).len() ==> #[trigger] s.skip(1)[i] == s[i + 1]);
}

proof fn lemma_inner_mono_aux(
    l: Seq<(Seq<Atom>, Seq<Seq<char>>)>,
    r: Seq<(Seq<Atom>, Seq<Seq<char>>)>,
)
    requires
        sorted_by_key(l),
        sorted_by_key(r),
    ensures
        keys_nondecreasing(inner_keys(merge_inner_join(l, r))),
        merge_inner_join(l, r).len() > 0 ==> l.len() > 0 && r.len() > 0 && key_le(
            l[0].0,
            inner_keys(merge_inner_join(l, r))[0],
        ) && key_le(r[0].0, inner_keys(merge_inner_join(l, r))[0]),
    decreases l.len() + r.len(),
{
    if l.len() == 0 || r.len() == 0 {
    } else {
        lemma_sorted_skip(l);
        lemma_sorted_skip(r);
        let k0 = l[0].0;
        let q0 = r[0].0;
        if key_lt(k0, q0) {
            lemma_inner_mono_aux(l.skip(1), r);
            let o = merge_inner_join(l.skip(1), r);
            if o.len() > 0 {
                assert(key_le(l.skip(1)[0].0, inner_keys(o)[0]));
                assert(key_le(k0, l.skip(1)[0].0));
                lemma_key_le_trans(k0, l.skip(1)[0].0, inner_keys(o)[0]);
            }
        } else if key_lt(q0, k0) {
            lemma_inner_mono_aux(l, r.skip(1));
            let o = merge_inner_join(l, r.skip(1));
            if o.len() > 0 {
                assert(key_le(r.skip(1)[0].0, inner_keys(o)[0]));
                assert(key_le(q0, r.skip(1)[0].0));
                lemma_key_le_trans(q0, r.skip(1)[0].0, inner_keys(o)[0]);
            }
        } else {
            lemma_key_lt_trichotomy(k0, q0);
            assert(k0 == q0);
            lemma_inner_mono_aux(l.skip(1), r.skip(1));
            let o = merge_inner_join(l.skip(1), r.skip(1));
            let w = merge_inner_join(l, r);
            assert(w == seq![(l[0], r[0])] + o);
            let ks = inner_keys(w);
            assert(ks[0] == k0);
            assert(forall|i: int| 0 <= i < o.len() ==> ks[i + 1] == inner_keys(o)[i]);
            assert forall|i: int| 0 < i < ks.len() implies key_le(ks[0], #[trigger] ks[i]) by {
                assert(ks[i] == inner_keys(o)[i - 1]);
                if o.len() > 0 {
                    let b = inner_keys(o)[0];
                    if l.skip(1).len() > 0 && key_le(l.skip(1)[0].0, b) {
                        lemma_key_le_trans(k0, l.skip(1)[0].0, b);
                    } else {
                        assert(key_le(r.skip(1)[0].0, b));
                        lemma_key_le_trans(q0, r.skip(1)[0].0, b);
                    }
                    assert(key_le(k0, b));
                    if i - 1 > 0 {
                        assert(key_le(b, inner_keys(o)[i - 1]));
                    }
                    lemma_key_le_trans(k0, b, inner_keys(o)[i - 1]);
                }
            }
            assert forall|i: int, j: int|
                0 <= i < j < ks.len() implies key_le(#[trigger] ks[i], #[trigger] ks[j]) by {
                if i > 0 {
                    assert(ks[i] == inner_keys(o)[i - 1]);
                    assert(ks[j] == inner_keys(o)[j - 1]);
                }
            }
        }
    }
}

/// Merge monotonicity, inner mode: on sorted inputs, the emitted keys
/// never decrease.
pub proof fn lemma_merge_inner_monotonic(
    l: Seq<(Seq<Atom>, Seq<Seq<char>>)>,
    r: Seq<(Seq<Atom>, Seq<Seq<char>>)>,
)
    requires
        sorted_by_key(l),
        sorted_by_key(r),
    ensures
        keys_nondecreasing(inner_keys(merge_inner_join(l, r))),
{
    lemma_inner_mono_aux(l, r);
}

proof fn lemma_left_excl_mono_aux(
    l: Seq<(Seq<Atom>, Seq<Seq<char>>)>,
    r: Seq<(Seq<Atom>, Seq<Seq<char>>)>,
)
    requires
        sorted_by_key(l),
        sorted_by_key(r),
    ensures
        keys_nondecreasing(item_keys(merge_left_excl_join(l, r))),
        merge_left_excl_join(l, r).len() > 0 ==> l.len() > 0 && key_le(
            l[0].0,
            item_keys(merge_left_excl_join(l, r))[0],
        ),
    decreases l.len() + r.len(),
{
    if l.len() == 0 {
    } else if r.len() == 0 || key_lt(l[0].0, r[0].0) {
        lemma_sorted_skip(l);
        lemma_left_excl_mono_aux(l.skip(1), r);
        let o = merge_left_excl_join(l.skip(1), r);
        let w = merge_left_excl_join(l, r);
        let k0 = l[0].0;
        assert(w == seq![l[0]] + o);
        let ks = item_keys(w);
        assert(ks[0] == k0);
        assert(forall|i: int| 0 <= i < o.len() ==> ks[i + 1] == item_keys(o)[i]);
        assert forall|i: int| 0 < i < ks.len() implies key_le(ks[0], #[trigger] ks[i]) by {
            assert(ks[i] == item_keys(o)[i - 1]);
            if o.len() > 0 {
                let b = item_keys(o)[0];
                assert(key_le(l.skip(1)[0].0, b));
                lemma_key_le_trans(k0, l.skip(1)[0].0, b);
                if i - 1 > 0 {
                    assert(key_le(b, item_keys(o)[i - 1]));
                }
                lemma_key_le_trans(k0, b, item_keys(o)[i - 1]);
            }
        }
        assert forall|i: int, j: int|
            0 <= i < j < ks.len() implies key_le(#[trigger] ks[i], #[trigger] ks[j]) by {
            if i > 0 {
                assert(ks[i] == item_keys(o)[i - 1]);
                assert(ks[j] == item_keys(o)[j - 1]);
            }
        }
    } else if key_lt(r[0].0, l[0].0) {
        lemma_sorted_skip(r);
        lemma_left_excl_mono_aux(l, r.skip(1));
    } else {
        lemma_sorted_skip(l);
        lemma_sorted_skip(r);
        lemma_left_excl_mono_aux(l.skip(1), r.skip(1));
        let o = merge_left_excl_join(l.skip(1), r.skip(1));
        if o.len() > 0 {
            assert(key_le(l.skip(1)[0].0, item_keys(o)[0]));
            lemma_key_le_trans(l[0].0, l.skip(1)[0].0, item_keys(o)[0]);
        }
    }
}

/// Merge monotonicity, left-exclusive mode: on sorted inputs, the
/// emitted keys never decrease.
pub proof fn lemma_merge_left_excl_monotonic(
    l: Seq<(Seq<Atom>, Seq<Seq<char>>)>,
    r: Seq<(Seq<Atom>, Seq<Seq<char>>)>,
)
    requires
        sorted_by_key(l),
        sorted_by_key(r),
    ensures
        keys_nondecreasing(item_keys(merge_left_excl_join(l, r))),
{
    lemma_left_excl_mono_aux(l, r);
}

proof fn lemma_left_outer_mono_aux(
    l: Seq<(Seq<Atom>, Seq<Seq<char>>)>,
    r: Seq<(Seq<Atom>, Seq<Seq<char>>)>,
)
    requires
        sorted_by_key(l),
        sorted_by_key(r),
    ensures
        keys_nondecreasing(eob_keys(merge_left_outer_join(l, r))),
        merge_left_outer_join(l, r).len() > 0 ==> l.len() > 0 && key_le(
            l[0].0,
            eob_keys(merge_left_outer_join(l, r))[0],
        ),
    decreases l.len() + r.len(),
{
    if l.len() == 0 {
    } else if r.len() == 0 || key_lt(l[0].0, r[0].0) {
        lemma_sorted_skip(l);
        lemma_left_outer_mono_aux(l.skip(1), r);
        let o = merge_left_outer_join(l.skip(1), r);
        let w = merge_left_outer_join(l, r);
        let k0 = l[0].0;
        assert(w == seq![EitherOrBoth::Left(l[0])] + o);
        let ks = eob_keys(w);
        assert(ks[0] == k0);
        assert(forall|i: int| 0 <= i < o.len() ==> ks[i + 1] == eob_keys(o)[i]);
        assert forall|i: int| 0 < i < ks.len() implies key_le(ks[0], #[trigger] ks[i]) by {
            assert(ks[i] == eob_keys(o)[i - 1]);
            if o.len() > 0 {
                let b = eob_keys(o)[0];
                assert(key_le(l.skip(1)[0].0, b));
                lemma_key_le_trans(k0, l.skip(1)[0].0, b);
                if i - 1 > 0 {
                    assert(key_le(b, eob_keys(o)[i - 1]));
                }
                lemma_key_le_trans(k0, b, eob_keys(o)[i - 1]);
            }
        }
        assert forall|i: int, j: int|
            0 <= i < j < ks.len() implies key_le(#[trigger] ks[i], #[trigger] ks[j]) by {
            if i > 0 {
                assert(ks[i] == eob_keys(o)[i - 1]);
                assert(ks[j] == eob_keys(o)[j - 1]);
            }
        }
    } else if key_lt(r[0].0, l[0].0) {
        lemma_sorted_skip(r);
        lemma_left_outer_mono_aux(l, r.skip(1));
    } else {
        lemma_key_lt_trichotomy(l[0].0, r[0].0);
        lemma_sorted_skip(l);
        lemma_sorted_skip(r);
        lemma_left_outer_mono_aux(l.skip(1), r.skip(1));
        let o = merge_left_outer_join(l.skip(1), r.skip(1));
        let w = merge_left_outer_join(l, r);
        let k0 = l[0].0;
        assert(w == seq![EitherOrBoth::Both(l[0], r[0])] + o);
        let ks = eob_keys(w);
        assert(ks[0] == k0);
        assert(forall|i: int| 0 <= i < o.len() ==> ks[i + 1] == eob_keys(o)[i]);
        assert forall|i: int| 0 < i < ks.len() implies key_le(ks[0], #[trigger] ks[i]) by {
            assert(ks[i] == eob_keys(o)[i - 1]);
            if o.len() > 0 {
                let b = eob_keys(o)[0];
                assert(key_le(l.skip(1)[0].0, b));
                lemma_key_le_trans(k0, l.skip(1)[0].0, b);
                if i - 1 > 0 {
                    assert(key_le(b, eob_keys(o)[i - 1]));
                }
                lemma_key_le_trans(k0, b, eob_keys(o)[i - 1]);
            }
        }
        assert forall|i: int, j: int|
            0 <= i < j < ks.len() implies key_le(#[trigger] ks[i], #[trigger] ks[j]) by {
            if i > 0 {
                assert(ks[i] == eob_keys(o)[i - 1]);
                assert(ks[j] == eob_keys(o)[j - 1]);
            }
        }
    }
}

/// Merge monotonicity, left-outer mode: on sorted inputs, the emitted
/// keys never decrease.
pub proof fn lemma_merge_left_outer_monotonic(
    l: Seq<(Seq<Atom>, Seq<Seq<char>>)>,
    r: Seq<(Seq<Atom>, Seq<Seq<char>>)>,
)
    requires
        sorted_by_key(l),
        sorted_by_key(r),
    ensures
        keys_nondecreasing(eob_keys(merge_left_outer_join(l, r))),
{
    lemma_left_outer_mono_aux(l, r);
}

proof fn lemma_full_outer_mono_aux(
    l: Seq<(Seq<Atom>, Seq<Seq<char>>)>,
    r: Seq<(Seq<Atom>, Seq<Seq<char>>)>,
)
    requires
        sorted_by_key(l),
        sorted_by_key(r),
    ensures
        keys_nondecreasing(eob_keys(merge_full_outer_join(l, r))),
        merge_full_outer_join(l, r).len() > 0 ==> (l.len() > 0 && key_le(
            l[0].0,
            eob_keys(merge_full_outer_join(l, r))[0],
        )) || (r.len() > 0 && key_le(r[0].0, eob_keys(merge_full_outer_join(l, r))[0])),
    decreases l.len() + r.len(),
{
    if l.len() == 0 && r.len() == 0 {
    } else {
        let w = merge_full_outer_join(l, r);
        let ks = eob_keys(w);
        if r.len() == 0 || (l.len() > 0 && key_lt(l[0].0, r[0].0)) {
            lemma_sorted_skip(l);
            lemma_full_outer_mono_aux(l.skip(1), r);
            let o = merge_full_outer_join(l.skip(1), r);
            let k0 = l[0].0;
            assert(w == seq![EitherOrBoth::Left(l[0])] + o);
            assert(ks[0] == k0);
            assert(forall|i: int| 0 <= i < o.len() ==> ks[i + 1] == eob_keys(o)[i]);
            assert forall|i: int| 0 < i < ks.len() implies key_le(ks[0], #[trigger] ks[i]) by {
                assert(ks[i] == eob_keys(o)[i - 1]);
                if o.len() > 0 {
                    let b = eob_keys(o)[0];
                    if l.skip(1).len() > 0 && key_le(l.skip(1)[0].0, b) {
                        lemma_key_le_trans(k0, l.skip(1)[0].0, b);
                    } else {
                        assert(r.len() > 0 && key_le(r[0].0, b));
                        lemma_key_le_trans(k0, r[0].0, b);
                    }
                    assert(key_le(k0, b));
                    if i - 1 > 0 {
                        assert(key_le(b, eob_keys(o)[i - 1]));
                    }
                    lemma_key_le_trans(k0, b, eob_keys(o)[i - 1]);
                }
            }
            assert forall|i: int, j: int|
                0 <= i < j < ks.len() implies key_le(#[trigger] ks[i], #[trigger] ks[j]) by {
                if i > 0 {
                    assert(ks[i] == eob_keys(o)[i - 1]);
                    assert(ks[j] == eob_keys(o)[j - 1]);
                }
            }
        } else if l.len() == 0 || (r.len() > 0 && key_lt(r[0].0, l[0].0)) {
            lemma_sorted_skip(r);
            lemma_full_outer_mono_aux(l, r.skip(1));
            let o = merge_full_outer_join(l, r.skip(1));
            let q0 = r[0].0;
            assert(w == seq![EitherOrBoth::Right(r[0])] + o);
            assert(ks[0] == q0);
            assert(forall|i: int| 0 <= i < o.len() ==> ks[i + 1] == eob_keys(o)[i]);
            assert forall|i: int| 0 < i < ks.len() implies key_le(ks[0], #[trigger] ks[i]) by {
                assert(ks[i] == eob_keys(o)[i - 1]);
                if o.len() > 0 {
                    let b = eob_keys(o)[0];
                    if r.skip(1).len() > 0 && key_le(r.skip(1)[0].0, b) {
                        lemma_key_le_trans(q0, r.skip(1)[0].0, b);
                    } else {
                        assert(l.len() > 0 && key_le(l[0].0, b));
                        lemma_key_le_trans(q0, l[0].0, b);
                    }
                    assert(key_le(q0, b));
                    if i - 1 > 0 {
                        assert(key_le(b, eob_keys(o)[i - 1]));
                    }
                    lemma_key_le_trans(q0, b, eob_keys(o)[i - 1]);
                }
            }
            assert forall|i: int, j: int|
                0 <= i < j < ks.len() implies key_le(#[trigger] ks[i], #[trigger] ks[j]) by {
                if i > 0 {
                    assert(ks[i] == eob_keys(o)[i - 1]);
                    assert(ks[j] == eob_keys(o)[j - 1]);
                }
            }
        } else {
            lemma_key_lt_trichotomy(l[0].0, r[0].0);
            assert(l[0].0 == r[0].0);
            lemma_sorted_skip(l);
            lemma_sorted_skip(r);
            lemma_full_outer_mono_aux(l.skip(1), r.skip(1));
            let o = merge_full_outer_join(l.skip(1), r.skip(1));
            let k0 = l[0].0;
            assert(w == seq![EitherOrBoth::Both(l[0], r[0])] + o);
            assert(ks[0] == k0);
            assert(forall|i: int| 0 <= i < o.len() ==> ks[i + 1] == eob_keys(o)[i]);
            assert forall|i: int| 0 < i < ks.len() implies key_le(ks[0], #[trigger] ks[i]) by {
                assert(ks[i] == eob_keys(o)[i - 1]);
                if o.len() > 0 {
                    let b = eob_keys(o)[0];
                    if l.skip(1).len() > 0 && key_le(l.skip(1)[0].0, b) {
                        lemma_key_le_trans(k0, l.skip(1)[0].0, b);
                    } else {
                        assert(r.skip(1).len() > 0 && key_le(r.skip(1)[0].0, b));
                        lemma_key_le_trans(k0, r.skip(1)[0].0, b);
                    }
                    assert(key_le(k0, b));
                    if i - 1 > 0 {
                        assert(key_le(b, eob_keys(o)[i - 1]));
                    }
                    lemma_key_le_trans(k0, b, eob_keys(o)[i - 1]);
                }
            }
            assert forall|i: int, j: int|
                0 <= i < j < ks.len() implies key_le(#[trigger] ks[i], #[trigger] ks[j]) by {
                if i > 0 {
                    assert(ks[i] == eob_keys(o)[i - 1]);
                    assert(ks[j] == eob_keys(o)[j - 1]);
                }
            }
        }
    }
}

/// Merge monotonicity, full-outer mode: on sorted inputs, the emitted
/// keys never decrease.
pub proof fn lemma_merge_full_outer_monotonic(
    l: Seq<(Seq<Atom>, Seq<Seq<char>>)>,
    r: Seq<(Seq<Atom>, Seq<Seq<char>>)>,
)
    requires
        sorted_by_key(l),
        sorted_by_key(r),
    ensures
        keys_nondecreasing(eob_keys(merge_full_outer_join(l, r))),
{
    lemma_full_outer_mono_aux(l, r);
}

} // verus!
