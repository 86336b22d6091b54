//! SQL-like join operators over keyed record streams.
//!
//! Two complementary strategies are provided:
//!
//! - **Hash join** (`hash_join`): the right input is drained eagerly into an
//!   insertion-ordered multimap, the left input is consumed one element per
//!   `next` call.  Inputs need not be sorted.
//! - **Merge join** (`merge_join`): both inputs must be sorted ascending by
//!   key and unique on the key; the operators walk the two cursors in
//!   lockstep and hold only constant state.
//!
//! Records are extracted into composite keys by the field-plan machinery in
//! `plan` and `extract`, and the padded text output of the command-line
//! front-ends is produced by the functions in `output`.

use vstd::prelude::*;

pub mod extract;
pub mod hash_join;
pub mod key;
pub mod merge_join;
pub mod multimap;
pub mod numbers;
pub mod output;
pub mod plan;
pub mod tokenize;

pub use hash_join::{
    HashJoinFullOuter, HashJoinInner, HashJoinLeftExcl, HashJoinLeftOuter, HashJoinRightExcl,
    HashJoinRightOuter,
};
pub use merge_join::{MergeJoinFullOuter, MergeJoinInner, MergeJoinLeftExcl, MergeJoinLeftOuter};

verus! {

/// A value yielded by the outer-join operators.
/// Contains one or two values, depending on which input is exhausted.
#[derive(Clone, PartialEq, Eq, Debug)]
pub enum EitherOrBoth<L, R> {
    /// Neither input is exhausted yet, yielding a value from each side.
    Both(L, R),
    /// Only the left input contributed a value.
    Left(L),
    /// Only the right input contributed a value.
    Right(R),
}

impl<L: DeepView, R: DeepView> DeepView for EitherOrBoth<L, R> {
    type V = EitherOrBoth<L::V, R::V>;

    open spec fn deep_view(&self) -> EitherOrBoth<L::V, R::V> {
        match self {
            EitherOrBoth::Both(l, r) => EitherOrBoth::Both(l.deep_view(), r.deep_view()),
            EitherOrBoth::Left(l) => EitherOrBoth::Left(l.deep_view()),
            EitherOrBoth::Right(r) => EitherOrBoth::Right(r.deep_view()),
        }
    }
}

} // verus!
