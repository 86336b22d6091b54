//! Composite-key atoms, their total order, and the executable comparisons
//! that the join operators and the merge front-end rely on.

use core::cmp::Ordering;
use vstd::prelude::*;
use vstd::string::StrSliceExecFns;

verus! {

/// Recognized data types for key fields.
#[derive(Debug, PartialEq, Eq)]
pub enum DataType {
    /// Signed integer 64.
    I,
    /// Unsigned integer 64.
    U,
    /// String.
    S,
}

/// Union of numeric and character types; one component of a composite key.
#[derive(Debug, PartialEq, Eq, PartialOrd, Ord, Hash)]
pub enum VarData {
    /// Contains a number represented by `i64`.
    I(i64),
    /// Contains a number represented by `u64`.
    U(u64),
    /// Contains a string.
    S(String),
}

/// Mathematical model of a single key atom.  The string case carries the
/// character sequence, so two atoms are equal exactly when their contents
/// are, regardless of which `String` allocation holds them.
pub enum Atom {
    /// A signed number.
    I(i64),
    /// An unsigned number.
    U(u64),
    /// A character sequence.
    S(Seq<char>),
}

impl View for VarData {
    type V = Atom;

    open spec fn view(&self) -> Atom {
        match self {
            VarData::I(x) => Atom::I(*x),
            VarData::U(x) => Atom::U(*x),
            VarData::S(s) => Atom::S(s@),
        }
    }
}

impl DeepView for VarData {
    type V = Atom;

    open spec fn deep_view(&self) -> Atom {
        self.view()
    }
}

/// Rank of an atom's variant: numeric variants order before strings.
pub open spec fn atom_rank(a: Atom) -> int {
    match a {
        Atom::I(_) => 0,
        Atom::U(_) => 1,
        Atom::S(_) => 2,
    }
}

/// Strict lexicographic order on character sequences, by code point; a
/// proper prefix orders before its extensions.
pub open spec fn chars_lt(x: Seq<char>, y: Seq<char>) -> bool
    decreases x.len(),
{
    if y.len() == 0 {
        false
    } else if x.len() == 0 {
        true
    } else if x[0] != y[0] {
        x[0] < y[0]
    } else {
        chars_lt(x.skip(1), y.skip(1))
    }
}

/// Strict total order on atoms: by variant rank, then by the natural order
/// of the variant's contents.
pub open spec fn atom_lt(a: Atom, b: Atom) -> bool {
    match (a, b) {
        (Atom::I(x), Atom::I(y)) => x < y,
        (Atom::U(x), Atom::U(y)) => x < y,
        (Atom::S(x), Atom::S(y)) => chars_lt(x, y),
        _ => atom_rank(a) < atom_rank(b),
    }
}

/// Strict lexicographic order on composite keys.
pub open spec fn key_lt(a: Seq<Atom>, b: Seq<Atom>) -> bool
    decreases a.len(),
{
    if b.len() == 0 {
        false
    } else if a.len() == 0 {
        true
    } else if a[0] != b[0] {
        atom_lt(a[0], b[0])
    } else {
        key_lt(a.skip(1), b.skip(1))
    }
}

/// Non-strict order on composite keys.
pub open spec fn key_le(a: Seq<Atom>, b: Seq<Atom>) -> bool {
    key_lt(a, b) || a == b
}

/// The order on character sequences is trichotomous: exactly one of
/// `x < y`, `x == y`, `y < x` holds.
pub proof fn lemma_chars_lt_trichotomy(x: Seq<char>, y: Seq<char>)
    ensures
        chars_lt(x, y) || x == y || chars_lt(y, x),
        chars_lt(x, y) ==> x != y && !chars_lt(y, x),
        x == y ==> !chars_lt(x, y),
    decreases x.len(),
{
    if y.len() == 0 {
        if x.len() == 0 {
            assert(x =~= y);
        } else {
            assert(chars_lt(y, x));
        }
    } else if x.len() == 0 {
        assert(chars_lt(x, y));
    } else if x[0] != y[0] {
        if x[0] < y[0] {
            assert(chars_lt(x, y));
        } else {
            assert(chars_lt(y, x));
        }
    } else {
        lemma_chars_lt_trichotomy(x.skip(1), y.skip(1));
        if x.skip(1) == y.skip(1) {
            assert forall|i: int| 0 <= i < x.len() implies x[i] == y[i] by {
                if i >= 1 {
                    assert(x.skip(1)[i - 1] == y.skip(1)[i - 1]);
                    assert(x.skip(1)[i - 1] == x[i]);
                    assert(y.skip(1)[i - 1] == y[i]);
                }
            }
            assert(x =~= y);
        }
        if x == y {
            assert(x.skip(1) =~= y.skip(1));
        }
    }
}

/// The order on character sequences is transitive.
pub proof fn lemma_chars_lt_trans(x: Seq<char>, y: Seq<char>, z: Seq<char>)
    requires
        chars_lt(x, y),
        chars_lt(y, z),
    ensures
        chars_lt(x, z),
    decreases x.len(),
{
    assert(z.len() > 0);
    assert(y.len() > 0);
    if x.len() == 0 {
    } else if x[0] == y[0] {
        if y[0] == z[0] {
            assert(x[0] == z[0]);
            lemma_chars_lt_trans(x.skip(1), y.skip(1), z.skip(1));
        } else {
            assert(y[0] < z[0]);
            assert(x[0] < z[0]);
        }
    } else {
        assert(x[0] < y[0]);
        if y[0] == z[0] {
            assert(x[0] < z[0]);
        } else {
            assert(y[0] < z[0]);
            assert(x[0] < z[0]);
        }
        assert(x[0] != z[0]);
    }
}

/// The order on atoms is trichotomous.
pub proof fn lemma_atom_lt_trichotomy(a: Atom, b: Atom)
    ensures
        atom_lt(a, b) || a == b || atom_lt(b, a),
        atom_lt(a, b) ==> a != b && !atom_lt(b, a),
        a == b ==> !atom_lt(a, b),
{
    match (a, b) {
        (Atom::S(x), Atom::S(y)) => {
            lemma_chars_lt_trichotomy(x, y);
        }
        _ => {}
    }
}

/// The order on atoms is transitive.
pub proof fn lemma_atom_lt_trans(a: Atom, b: Atom, c: Atom)
    requires
        atom_lt(a, b),
        atom_lt(b, c),
    ensures
        atom_lt(a, c),
{
    match (a, b, c) {
        (Atom::S(x), Atom::S(y), Atom::S(z)) => {
            lemma_chars_lt_trans(x, y, z);
        }
        _ => {}
    }
}

/// The order on composite keys is trichotomous.
pub proof fn lemma_key_lt_trichotomy(a: Seq<Atom>, b: Seq<Atom>)
    ensures
        key_lt(a, b) || a == b || key_lt(b, a),
        key_lt(a, b) ==> a != b && !key_lt(b, a),
        a == b ==> !key_lt(a, b),
    decreases a.len(),
{
    if b.len() == 0 {
        if a.len() == 0 {
            assert(a =~= b);
        }
    } else if a.len() == 0 {
    } else if a[0] != b[0] {
        lemma_atom_lt_trichotomy(a[0], b[0]);
    } else {
        lemma_key_lt_trichotomy(a.skip(1), b.skip(1));
        if a.skip(1) == b.skip(1) {
            assert forall|i: int| 0 <= i < a.len() implies a[i] == b[i] by {
                if i >= 1 {
                    assert(a.skip(1)[i - 1] == b.skip(1)[i - 1]);
                    assert(a.skip(1)[i - 1] == a[i]);
                    assert(b.skip(1)[i - 1] == b[i]);
                }
            }
            assert(a =~= b);
        }
        if a == b {
            assert(a.skip(1) =~= b.skip(1));
        }
    }
}

/// The order on composite keys is transitive.
pub proof fn lemma_key_lt_trans(a: Seq<Atom>, b: Seq<Atom>, c: Seq<Atom>)
    requires
        key_lt(a, b),
        key_lt(b, c),
    ensures
        key_lt(a, c),
    decreases a.len(),
{
    assert(c.len() > 0);
    assert(b.len() > 0);
    if a.len() == 0 {
    } else if a[0] == b[0] {
        if b[0] == c[0] {
            assert(a[0] == c[0]);
            lemma_key_lt_trans(a.skip(1), b.skip(1), c.skip(1));
        } else {
            assert(atom_lt(b[0], c[0]));
            assert(atom_lt(a[0], c[0]));
        }
    } else {
        assert(atom_lt(a[0], b[0]));
        if b[0] == c[0] {
            assert(atom_lt(a[0], c[0]));
        } else {
            assert(atom_lt(b[0], c[0]));
            lemma_atom_lt_trans(a[0], b[0], c[0]);
        }
        lemma_atom_lt_trichotomy(a[0], c[0]);
        assert(a[0] != c[0]);
    }
}

/// The non-strict order on composite keys is transitive.
pub proof fn lemma_key_le_trans(a: Seq<Atom>, b: Seq<Atom>, c: Seq<Atom>)
    requires
        key_le(a, b),
        key_le(b, c),
    ensures
        key_le(a, c),
{
    if a == b || b == c {
    } else {
        lemma_key_lt_trans(a, b, c);
    }
}

/// If two sequences agree on their first `i` characters, their relative
/// order is decided by the remainders.
proof fn lemma_chars_lt_common_prefix(x: Seq<char>, y: Seq<char>, i: int)
    requires
        0 <= i <= x.len(),
        i <= y.len(),
        forall|j: int| 0 <= j < i ==> x[j] == y[j],
    ensures
        chars_lt(x, y) == chars_lt(x.skip(i), y.skip(i)),
    decreases i,
{
    if i == 0 {
        assert(x.skip(0) =~= x);
        assert(y.skip(0) =~= y);
    } else {
        assert(x[0] == y[0]);
        lemma_chars_lt_common_prefix(x.skip(1), y.skip(1), i - 1);
        assert(x.skip(1).skip(i - 1) =~= x.skip(i));
        assert(y.skip(1).skip(i - 1) =~= y.skip(i));
    }
}

/// If two keys agree on their first `i` atoms, their relative order is
/// decided by the remainders.
proof fn lemma_key_lt_common_prefix(a: Seq<Atom>, b: Seq<Atom>, i: int)
    requires
        0 <= i <= a.len(),
        i <= b.len(),
        forall|j: int| 0 <= j < i ==> a[j] == b[j],
    ensures
        key_lt(a, b) == key_lt(a.skip(i), b.skip(i)),
    decreases i,
{
    if i == 0 {
        assert(a.skip(0) =~= a);
        assert(b.skip(0) =~= b);
    } else {
        assert(a[0] == b[0]);
        lemma_key_lt_common_prefix(a.skip(1), b.skip(1), i - 1);
        assert(a.skip(1).skip(i - 1) =~= a.skip(i));
        assert(b.skip(1).skip(i - 1) =~= b.skip(i));
    }
}

/// Three-way comparison of two strings by code point.
pub fn str_cmp(a: &str, b: &str) -> (r: Ordering)
    ensures
        r == Ordering::Less <==> chars_lt(a@, b@),
        r == Ordering::Equal <==> a@ == b@,
        r == Ordering::Greater <==> chars_lt(b@, a@),
{
    let a_len = a.unicode_len();
    let b_len = b.unicode_len();
    let mut i: usize = 0;
    loop
        invariant
            i <= a_len,
            i <= b_len,
            a_len == a@.len(),
            b_len == b@.len(),
            forall|j: int| 0 <= j < i ==> a@[j] == b@[j],
        decreases a_len - i,
    {
        proof {
            lemma_chars_lt_common_prefix(a@, b@, i as int);
            lemma_chars_lt_common_prefix(b@, a@, i as int);
        }
        if i >= a_len || i >= b_len {
            if a_len < b_len {
                return Ordering::Less;
            } else if a_len > b_len {
                return Ordering::Greater;
            } else {
                proof {
                    assert(a@ =~= b@);
                    lemma_chars_lt_trichotomy(a@, b@);
                }
                return Ordering::Equal;
            }
        }
        let ca = a.get_char(i);
        let cb = b.get_char(i);
        if ca != cb {
            proof {
                lemma_chars_lt_trichotomy(a@, b@);
            }
            if ca < cb {
                return Ordering::Less;
            } else {
                return Ordering::Greater;
            }
        }
        i = i + 1;
    }
}

/// Exec-visible rank of a `VarData` variant.
fn data_rank(a: &VarData) -> (r: u32)
    ensures
        r as int == atom_rank(a@),
{
    match a {
        VarData::I(_) => 0,
        VarData::U(_) => 1,
        VarData::S(_) => 2,
    }
}

/// Three-way comparison of two key atoms under the total atom order.
pub fn var_data_cmp(a: &VarData, b: &VarData) -> (r: Ordering)
    ensures
        r == Ordering::Less <==> atom_lt(a@, b@),
        r == Ordering::Equal <==> a@ == b@,
        r == Ordering::Greater <==> atom_lt(b@, a@),
{
    match (a, b) {
        (VarData::I(x), VarData::I(y)) => {
            if *x < *y {
                Ordering::Less
            } else if *x == *y {
                Ordering::Equal
            } else {
                Ordering::Greater
            }
        }
        (VarData::U(x), VarData::U(y)) => {
            if *x < *y {
                Ordering::Less
            } else if *x == *y {
                Ordering::Equal
            } else {
                Ordering::Greater
            }
        }
        (VarData::S(x), VarData::S(y)) => str_cmp(x.as_str(), y.as_str()),
        _ => {
            let ra = data_rank(a);
            let rb = data_rank(b);
            proof {
                lemma_atom_lt_trichotomy(a@, b@);
            }
            if ra < rb {
                Ordering::Less
            } else {
                Ordering::Greater
            }
        }
    }
}

/// Three-way comparison of two composite keys under the lexicographic order.
pub fn key_cmp(a: &Vec<VarData>, b: &Vec<VarData>) -> (r: Ordering)
    ensures
        r == Ordering::Less <==> key_lt(a.deep_view(), b.deep_view()),
        r == Ordering::Equal <==> a.deep_view() == b.deep_view(),
        r == Ordering::Greater <==> key_lt(b.deep_view(), a.deep_view()),
{
    let a_len = a.len();
    let b_len = b.len();
    let mut i: usize = 0;
    loop
        invariant
            i <= a_len,
            i <= b_len,
            a_len == a.deep_view().len(),
            b_len == b.deep_view().len(),
            forall|j: int| 0 <= j < i ==> a.deep_view()[j] == b.deep_view()[j],
        decreases a_len - i,
    {
        proof {
            lemma_key_lt_common_prefix(a.deep_view(), b.deep_view(), i as int);
            lemma_key_lt_common_prefix(b.deep_view(), a.deep_view(), i as int);
        }
        if i >= a_len || i >= b_len {
            if a_len < b_len {
                return Ordering::Less;
            } else if a_len > b_len {
                return Ordering::Greater;
            } else {
                proof {
                    assert(a.deep_view() =~= b.deep_view());
                    lemma_key_lt_trichotomy(a.deep_view(), b.deep_view());
                }
                return Ordering::Equal;
            }
        }
        let r = var_data_cmp(&a[i], &b[i]);
        match r {
            Ordering::Equal => {
                i = i + 1;
            }
            _ => {
                proof {
                    lemma_key_lt_trichotomy(a.deep_view(), b.deep_view());
                }
                return r;
            }
        }
    }
}

/// A copy of one key atom with the same contents.
pub fn clone_var_data(v: &VarData) -> (r: VarData)
    ensures
        r@ == v@,
{
    match v {
        VarData::I(x) => VarData::I(*x),
        VarData::U(x) => VarData::U(*x),
        VarData::S(s) => VarData::S(s.clone()),
    }
}

/// A copy of a composite key with the same contents.
pub fn clone_key(k: &Vec<VarData>) -> (r: Vec<VarData>)
    ensures
        r.deep_view() == k.deep_view(),
{
    let mut r: Vec<VarData> = Vec::new();
    let mut i: usize = 0;
    while i < k.len()
        invariant
            i <= k@.len(),
            r.deep_view() =~= k.deep_view().take(i as int),
        decreases k@.len() - i,
    {
        let ghost dv0 = r.deep_view();
        let ghost s0 = r@;
        let a = clone_var_data(&k[i]);
        let ghost av = a@;
        r.push(a);
        proof {
            assert(dv0.len() == i as int);
            assert(s0.len() == i as int);
            assert(r@ == s0.push(a));
            assert forall|j: int|
                0 <= j < i + 1 implies r.deep_view()[j] == k.deep_view().take(i + 1)[j] by {
                if j < i {
                    assert(r@[j] == s0[j]);
                    assert(r.deep_view()[j] == dv0[j]);
                    assert(dv0[j] == k.deep_view().take(i as int)[j]);
                } else {
                    assert(r@[j] == a);
                    assert(r.deep_view()[j] == av);
                }
            }
            assert(r.deep_view() =~= k.deep_view().take(i + 1));
        }
        i = i + 1;
    }
    proof {
        assert(k.deep_view().take(k@.len() as int) =~= k.deep_view());
    }
    r
}

/// Equality of two composite keys, consistent with `key_cmp`.
pub fn key_eq(a: &Vec<VarData>, b: &Vec<VarData>) -> (r: bool)
    ensures
        r == (a.deep_view() == b.deep_view()),
{
    let c = key_cmp(a, b);
    match c {
        Ordering::Equal => true,
        _ => false,
    }
}

} // verus!
