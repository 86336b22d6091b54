//! Field-list parsing: from the user's comma-separated list of 1-based
//! field indices with optional type tags to a canonical extraction plan,
//! sorted by source index while remembering each field's declared
//! position, and back again.

use vstd::prelude::*;
use vstd::string::{StrSliceExecFns, StringExecFns};
use crate::key::DataType;
use crate::numbers::{
    all_digits, dec_rep, digits_val, lemma_dec_rep_of_digits, num_body, parse_uint_ok,
    parse_uint_val, parse_usize, u64_to_string,
};
use crate::tokenize::{join_fields, lemma_split_join, lemma_split_from_len, spec_split, split_record};

verus! {

broadcast use vstd::seq_lib::group_to_multiset_ensures, vstd::multiset::group_multiset_axioms;

/// Configuration failures raised before any records are read.
#[derive(Debug, PartialEq, Eq)]
pub enum ConfigError {
    /// The record separator does not encode to exactly one byte.
    SeparatorNotSingleByte,
    /// A field index could not be parsed as a positive integer.
    InvalidFieldIndex,
    /// A type tag is neither `i` nor `u`.
    InvalidDataType,
    /// The field list is empty.
    EmptyFieldList,
    /// The same field index appears twice.
    DuplicateField,
}

/// Converts a record separator to a single byte: the separator must be
/// one character that encodes to one byte.
pub fn rec_sep_as_byte(rec_str: &str) -> (r: Result<u8, ConfigError>)
    ensures
        r == if rec_str@.len() == 1 && (rec_str@[0] as int) < 128 {
            Result::<u8, ConfigError>::Ok(rec_str@[0] as u8)
        } else {
            Result::<u8, ConfigError>::Err(ConfigError::SeparatorNotSingleByte)
        },
{
    if rec_str.unicode_len() == 1 {
        let c = rec_str.get_char(0);
        let cu = c as u32;
        if cu < 128 {
            Ok(cu as u8)
        } else {
            Err(ConfigError::SeparatorNotSingleByte)
        }
    } else {
        Err(ConfigError::SeparatorNotSingleByte)
    }
}

/// The dash-separated parts of one field specification.
pub open spec fn field_parts(s: Seq<char>) -> Seq<Seq<char>> {
    spec_split(s, seq!['-'])
}

/// The index part parses as an integer that is at least one.
pub open spec fn field_index_ok(s: Seq<char>) -> bool {
    &&& parse_uint_ok(field_parts(s)[0], usize::MAX as int)
    &&& parse_uint_val(field_parts(s)[0]) >= 1
}

/// The type tag, when present, is `i` or `u`.  Anything after a second
/// dash is ignored.
pub open spec fn field_tag_ok(s: Seq<char>) -> bool {
    field_parts(s).len() >= 2 ==> (field_parts(s)[1] == seq!['i'] || field_parts(s)[1]
        == seq!['u'])
}

/// One field specification parses in full.
pub open spec fn field_ok(s: Seq<char>) -> bool {
    field_index_ok(s) && field_tag_ok(s)
}

/// Zero-based source index of one field specification.
pub open spec fn field_idx(s: Seq<char>) -> int {
    parse_uint_val(field_parts(s)[0]) - 1
}

/// Declared data type of one field specification.
pub open spec fn field_tag(s: Seq<char>) -> DataType {
    if field_parts(s).len() >= 2 {
        if field_parts(s)[1] == seq!['i'] {
            DataType::I
        } else {
            DataType::U
        }
    } else {
        DataType::S
    }
}

/// A well-formed field list: at least one field, every specification
/// parses, and no source index repeats.
pub open spec fn fields_wf(fv: Seq<Seq<char>>) -> bool {
    &&& fv.len() >= 1
    &&& forall|i: int| 0 <= i < fv.len() ==> field_ok(#[trigger] fv[i])
    &&& forall|i: int, j: int|
        0 <= i < j < fv.len() ==> field_idx(#[trigger] fv[i]) != field_idx(#[trigger] fv[j])
}

/// Position of the first specification that does not parse.
pub open spec fn first_bad_field(fv: Seq<Seq<char>>) -> int
    decreases fv.len(),
{
    if fv.len() == 0 {
        0
    } else if !field_ok(fv[0]) {
        0
    } else {
        1 + first_bad_field(fv.skip(1))
    }
}

/// The error reported for a field list that is not well formed: parse
/// failures are reported for the first offending field, with its index
/// part checked before its tag; an empty list and a duplicated index are
/// reported after all fields have parsed.
pub open spec fn spec_fields_err(fv: Seq<Seq<char>>) -> ConfigError {
    if fv.len() == 0 {
        ConfigError::EmptyFieldList
    } else if exists|i: int| 0 <= i < fv.len() && !field_ok(#[trigger] fv[i]) {
        if !field_index_ok(fv[first_bad_field(fv)]) {
            ConfigError::InvalidFieldIndex
        } else {
            ConfigError::InvalidDataType
        }
    } else {
        ConfigError::DuplicateField
    }
}

proof fn lemma_first_bad_field(fv: Seq<Seq<char>>, i: int)
    requires
        0 <= i < fv.len(),
        !field_ok(fv[i]),
        forall|j: int| 0 <= j < i ==> field_ok(#[trigger] fv[j]),
    ensures
        first_bad_field(fv) == i,
    decreases i,
{
    if i == 0 {
    } else {
        assert(field_ok(fv[0]));
        assert(fv.skip(1)[i - 1] == fv[i]);
        assert(forall|j: int| 0 <= j < i - 1 ==> #[trigger] fv.skip(1)[j] == fv[j + 1]);
        lemma_first_bad_field(fv.skip(1), i - 1);
    }
}

/// A well-formed extraction plan: source indices strictly increasing and
/// unique, output positions a permutation of the entry indices.
pub open spec fn wf_plan(p: Seq<(usize, isize, DataType)>) -> bool {
    &&& forall|i: int, j: int|
        0 <= i < j < p.len() ==> (#[trigger] p[i]).0 < (#[trigger] p[j]).0
    &&& forall|i: int| 0 <= i < p.len() ==> 0 <= (#[trigger] p[i]).1 < p.len()
    &&& forall|i: int, j: int|
        0 <= i < j < p.len() ==> (#[trigger] p[i]).1 != (#[trigger] p[j]).1
}

/// The plan corresponding to a field list: one entry per field, holding
/// its zero-based source index, its position in the user's declared
/// order, and its tag, sorted ascending by source index.
pub open spec fn plan_matches(fv: Seq<Seq<char>>, p: Seq<(usize, isize, DataType)>) -> bool {
    &&& p.len() == fv.len()
    &&& wf_plan(p)
    &&& forall|i: int|
        0 <= i < fv.len() ==> exists|j: int|
            0 <= j < p.len() && #[trigger] p[j] == (
                field_idx(#[trigger] fv[i]) as usize,
                i as isize,
                field_tag(fv[i]),
            )
}

/// True when `s` consists of the single character `c`.
fn is_one_char(s: &str, c: char) -> (r: bool)
    ensures
        r == (s@ == seq![c]),
{
    if s.unicode_len() == 1 {
        let r = s.get_char(0) == c;
        proof {
            if r {
                assert(s@ =~= seq![c]);
            } else {
                if s@ == seq![c] {
                    assert(s@[0] == c);
                }
            }
        }
        r
    } else {
        proof {
            if s@ == seq![c] {
                assert(s@.len() == 1);
            }
        }
        false
    }
}

/// Converts the field indices, in base 1 and with optional `i`/`u` data
/// type tags, into an extraction plan sorted on the source index, with
/// each entry remembering the position the user declared it at.  Rejects
/// unparseable indices, unknown tags, an empty list, and duplicates.
pub fn fields_to_idx(f: Vec<&str>) -> (r: Result<Vec<(usize, isize, DataType)>, ConfigError>)
    requires
        f@.len() <= isize::MAX as int,
    ensures
        r is Ok <==> fields_wf(f.deep_view()),
        (r matches Ok(p) ==> plan_matches(f.deep_view(), p@)),
        (r matches Err(e) ==> e == spec_fields_err(f.deep_view())),
{
    let ghost fv = f.deep_view();
    proof {
        assert(fv.len() == f@.len());
    }
    let n = f.len();
    if n == 0 {
        return Err(ConfigError::EmptyFieldList);
    }
    let mut parsed: Vec<(usize, isize, DataType)> = Vec::new();
    let mut i: usize = 0;
    while i < n
        invariant
            i <= n,
            n == fv.len(),
            fv == f.deep_view(),
            n == f@.len(),
            1 <= n <= isize::MAX as int,
            parsed@.len() == i as int,
            forall|j: int| 0 <= j < i ==> field_ok(#[trigger] fv[j]),
            forall|j: int|
                0 <= j < i ==> #[trigger] parsed@[j] == (
                    field_idx(fv[j]) as usize,
                    j as isize,
                    field_tag(fv[j]),
                ),
        decreases n - i,
    {
        let s: &str = f[i];
        proof {
            assert(s@ == fv[i as int]);
            reveal_strlit("-");
            assert("-"@ =~= seq!['-']);
        }
        let parts = split_record(s, "-");
        proof {
            lemma_split_from_len(s@, seq!['-'], Seq::empty());
            assert(parts.deep_view() == field_parts(fv[i as int]));
            assert(parts.deep_view().len() == parts@.len());
            assert(parts.deep_view()[0] == parts@[0]@);
        }
        let idx_opt = parse_usize(parts[0].as_str());
        let source: usize;
        match idx_opt {
            Option::None => {
                proof {
                    assert(!field_index_ok(fv[i as int]));
                    lemma_first_bad_field(fv, i as int);
                }
                return Err(ConfigError::InvalidFieldIndex);
            }
            Option::Some(u) => {
                if u == 0 {
                    proof {
                        assert(!field_index_ok(fv[i as int]));
                        lemma_first_bad_field(fv, i as int);
                    }
                    return Err(ConfigError::InvalidFieldIndex);
                }
                source = u - 1;
            }
        }
        let dt: DataType;
        if parts.len() >= 2 {
            proof {
                assert(parts.deep_view()[1] == parts@[1]@);
            }
            if is_one_char(parts[1].as_str(), 'i') {
                dt = DataType::I;
            } else if is_one_char(parts[1].as_str(), 'u') {
                dt = DataType::U;
            } else {
                proof {
                    assert(field_index_ok(fv[i as int]));
                    assert(!field_tag_ok(fv[i as int]));
                    lemma_first_bad_field(fv, i as int);
                }
                return Err(ConfigError::InvalidDataType);
            }
        } else {
            dt = DataType::S;
        }
        proof {
            assert(field_ok(fv[i as int]));
            assert(source as int == field_idx(fv[i as int]));
            assert(dt == field_tag(fv[i as int]));
        }
        parsed.push((source, i as isize, dt));
        i = i + 1;
    }
    let ghost parsed0 = parsed@;
    proof {
        assert(forall|j: int|
            0 <= j < n ==> #[trigger] parsed0[j] == (
                field_idx(fv[j]) as usize,
                j as isize,
                field_tag(fv[j]),
            ));
        assert(parsed0.no_duplicates()) by {
            assert(forall|a: int, b: int|
                0 <= a < b < parsed0.len() ==> (#[trigger] parsed0[a]).1 != (
                #[trigger] parsed0[b]).1);
        }
        parsed0.lemma_multiset_has_no_duplicates();
    }
    // Sort ascending by source index: repeatedly move the least remaining
    // entry to the output.
    let mut rest = parsed;
    let mut out: Vec<(usize, isize, DataType)> = Vec::new();
    proof {
        assert(out@ + rest@ =~= rest@);
    }
    while rest.len() > 0
        invariant
            (out@ + rest@).to_multiset() == parsed0.to_multiset(),
            out@.len() + rest@.len() == n,
            parsed0.len() == n,
            forall|a: int, b: int|
                0 <= a < b < out@.len() ==> (#[trigger] out@[a]).0 <= (#[trigger] out@[b]).0,
            forall|a: int, t: int|
                0 <= a < out@.len() && 0 <= t < rest@.len() ==> (#[trigger] out@[a]).0 <= (
                #[trigger] rest@[t]).0,
        decreases rest@.len(),
    {
        let mut m: usize = 0;
        let mut jj: usize = 1;
        while jj < rest.len()
            invariant
                m < jj <= rest@.len(),
                forall|t: int| 0 <= t < jj ==> (#[trigger] rest@[t]).0 >= rest@[m as int].0,
            decreases rest@.len() - jj,
        {
            if rest[jj].0 < rest[m].0 {
                m = jj;
            }
            jj = jj + 1;
        }
        let ghost out_before = out@;
        let ghost rest_before = rest@;
        let e = rest.remove(m);
        out.push(e);
        proof {
            assert(rest_before.contains(e));
            assert((out_before + rest_before).to_multiset().count(e) >= 1) by {
                lemma_multiset_commutative_pair(out_before, rest_before);
                assert(rest_before.to_multiset().count(e) >= 1);
            }
            lemma_multiset_commutative_pair(out_before, rest_before);
            lemma_multiset_commutative_pair(out@, rest@);
            assert(out@.to_multiset() =~= out_before.to_multiset().insert(e));
            assert(rest@.to_multiset() =~= rest_before.to_multiset().remove(e));
            assert((out@ + rest@).to_multiset() =~= (out_before + rest_before).to_multiset());
            assert(forall|t: int|
                0 <= t < rest@.len() ==> #[trigger] rest@[t] == if t < m {
                    rest_before[t]
                } else {
                    rest_before[t + 1]
                });
            assert(forall|a: int|
                0 <= a < out@.len() ==> #[trigger] out@[a] == if a < out_before.len() {
                    out_before[a]
                } else {
                    e
                });
        }
    }
    proof {
        assert(out@ + rest@ =~= out@);
        assert(out@.to_multiset() == parsed0.to_multiset());
        assert(out@.len() == n);
    }
    // Reject duplicated source indices, now adjacent after sorting.
    let mut k: usize = 1;
    while k < out.len()
        invariant
            1 <= k,
            out@.len() == n,
            out@.to_multiset() == parsed0.to_multiset(),
            parsed0.len() == n,
            n == fv.len(),
            fv == f.deep_view(),
            1 <= n <= isize::MAX as int,
            forall|j: int| 0 <= j < n ==> field_ok(#[trigger] fv[j]),
            forall|j: int|
                0 <= j < n ==> #[trigger] parsed0[j] == (
                    field_idx(fv[j]) as usize,
                    j as isize,
                    field_tag(fv[j]),
                ),
            forall|x: (usize, isize, DataType)|
                parsed0.to_multiset().contains(x) ==> parsed0.to_multiset().count(x) == 1,
            forall|a: int, b: int|
                0 <= a < b < out@.len() ==> (#[trigger] out@[a]).0 <= (#[trigger] out@[b]).0,
            forall|a: int| 1 <= a < k ==> (#[trigger] out@[a]).0 != out@[a - 1].0,
        decreases out@.len() - k,
    {
        if out[k - 1].0 == out[k].0 {
            proof {
                lemma_entry_source(parsed0, out@, fv, k - 1);
                lemma_entry_source(parsed0, out@, fv, k as int);
                let a = out@[k - 1].1 as int;
                let b = out@[k as int].1 as int;
                assert(out@[k - 1] == parsed0[a]);
                assert(out@[k as int] == parsed0[b]);
                assert(a != b) by {
                    if a == b {
                        assert(out@[k - 1] == out@[k as int]);
                        assert(out@.to_multiset().count(out@[k as int]) >= 2) by {
                            lemma_count_two(out@, k - 1, k as int);
                        }
                    }
                }
                assert(field_idx(fv[a]) == field_idx(fv[b]));
                assert(!fields_wf(fv));
            }
            return Err(ConfigError::DuplicateField);
        }
        k = k + 1;
    }
    proof {
        // Strictly sorted: non-strict order plus distinct neighbours.
        assert forall|a: int, b: int|
            0 <= a < b < out@.len() implies (#[trigger] out@[a]).0 < (#[trigger] out@[b]).0 by {
            assert(out@[a].0 <= out@[b - 1].0);
            assert(out@[b - 1].0 <= out@[b].0);
            assert(out@[b].0 != out@[b - 1].0);
        }
        assert forall|i: int| 0 <= i < out@.len() implies 0 <= (#[trigger] out@[i]).1 < n by {
            lemma_entry_source(parsed0, out@, fv, i);
        }
        assert forall|i: int, j: int| 0 <= i < j < out@.len() implies (#[trigger] out@[i]).1 != (
        #[trigger] out@[j]).1 by {
            lemma_entry_source(parsed0, out@, fv, i);
            lemma_entry_source(parsed0, out@, fv, j);
            if out@[i].1 == out@[j].1 {
                assert(out@[i] == parsed0[out@[i].1 as int]);
                assert(out@[j] == parsed0[out@[j].1 as int]);
                assert(out@[i] == out@[j]);
                lemma_count_two(out@, i, j);
            }
        }
        assert(wf_plan(out@));
        // Every input field has its entry somewhere in the sorted plan.
        assert forall|i: int| 0 <= i < fv.len() implies exists|j: int|
            0 <= j < out@.len() && #[trigger] out@[j] == (
                field_idx(#[trigger] fv[i]) as usize,
                i as isize,
                field_tag(fv[i]),
            ) by {
            let e = (field_idx(fv[i]) as usize, i as isize, field_tag(fv[i]));
            assert(parsed0[i] == e);
            assert(parsed0.contains(e));
            assert(parsed0.to_multiset().count(e) > 0);
            assert(out@.to_multiset().count(e) > 0);
            assert(out@.contains(e));
            let j = choose|j: int| 0 <= j < out@.len() && out@[j] == e;
            assert(out@[j] == e);
        }
        assert(plan_matches(fv, out@));
        // Well-formed input: distinct sources, since the plan is strict.
        assert forall|i: int, j: int| 0 <= i < j < fv.len() implies field_idx(
            #[trigger] fv[i],
        ) != field_idx(#[trigger] fv[j]) by {
            let ei = (field_idx(fv[i]) as usize, i as isize, field_tag(fv[i]));
            let ej = (field_idx(fv[j]) as usize, j as isize, field_tag(fv[j]));
            assert(parsed0[i] == ei && parsed0[j] == ej);
            assert(parsed0.contains(ei) && parsed0.contains(ej));
            assert(out@.to_multiset().count(ei) > 0 && out@.to_multiset().count(ej) > 0);
            assert(out@.contains(ei) && out@.contains(ej));
            let a = choose|a: int| 0 <= a < out@.len() && out@[a] == ei;
            let b = choose|b: int| 0 <= b < out@.len() && out@[b] == ej;
            assert(a != b);
            if field_idx(fv[i]) == field_idx(fv[j]) {
                assert(out@[a].0 == out@[b].0);
            }
        }
        assert(fields_wf(fv));
    }
    Ok(out)
}

/// Two distinct positions holding the same value give it a count of two.
proof fn lemma_count_two<T>(s: Seq<T>, i: int, j: int)
    requires
        0 <= i < j < s.len(),
        s[i] == s[j],
    ensures
        s.to_multiset().count(s[i]) >= 2,
{
    let s0 = s.subrange(0, j);
    let s1 = s.subrange(j, s.len() as int);
    assert(s =~= s0 + s1);
    lemma_multiset_commutative_pair(s0, s1);
    assert(s0[i] == s[i]);
    assert(s0.contains(s[i]));
    assert(s1[0] == s[j]);
    assert(s1.contains(s[j]));
    assert(s0.to_multiset().count(s[i]) >= 1);
    assert(s1.to_multiset().count(s[j]) >= 1);
}

/// Concatenation turns into multiset addition.
proof fn lemma_multiset_commutative_pair<T>(a: Seq<T>, b: Seq<T>)
    ensures
        (a + b).to_multiset() == a.to_multiset().add(b.to_multiset()),
{
    vstd::seq_lib::lemma_multiset_commutative(a, b);
}

/// Every entry of the sorted plan is the parsed entry of the input field
/// its position component names.
proof fn lemma_entry_source(
    parsed0: Seq<(usize, isize, DataType)>,
    out: Seq<(usize, isize, DataType)>,
    fv: Seq<Seq<char>>,
    i: int,
)
    requires
        0 <= i < out.len(),
        out.to_multiset() == parsed0.to_multiset(),
        parsed0.len() == fv.len(),
        fv.len() <= isize::MAX as int,
        forall|j: int|
            0 <= j < fv.len() ==> #[trigger] parsed0[j] == (
                field_idx(fv[j]) as usize,
                j as isize,
                field_tag(fv[j]),
            ),
    ensures
        0 <= out[i].1 < fv.len(),
        out[i] == parsed0[out[i].1 as int],
{
    broadcast use vstd::seq_lib::group_to_multiset_ensures, vstd::multiset::group_multiset_axioms;

    assert(out.contains(out[i]));
    assert(out.to_multiset().count(out[i]) > 0);
    assert(parsed0.to_multiset().count(out[i]) > 0);
    assert(parsed0.contains(out[i]));
    let j = choose|j: int| 0 <= j < parsed0.len() && parsed0[j] == out[i];
    assert(parsed0[j] == out[i]);
    assert(out[i].1 == j as isize);
}

/// The canonical text of one plan entry: the 1-based source index in
/// decimal, then `-i` or `-u` for the numeric tags.
pub open spec fn render_field(e: (usize, isize, DataType)) -> Seq<char> {
    dec_rep(e.0 as int + 1) + match e.2 {
        DataType::S => Seq::<char>::empty(),
        DataType::I => seq!['-', 'i'],
        DataType::U => seq!['-', 'u'],
    }
}

/// A field specification in canonical form: the index written without a
/// sign or leading zeros, and nothing after the tag part.
pub open spec fn canonical_field(s: Seq<char>) -> bool {
    &&& field_parts(s).len() <= 2
    &&& field_parts(s)[0].len() >= 1
    &&& field_parts(s)[0][0] != '+'
    &&& (field_parts(s)[0].len() == 1 || field_parts(s)[0][0] != '0')
}

/// Serializes a plan back into a field list, each entry written at the
/// position the user declared it at.
pub fn plan_to_fields(plan: &Vec<(usize, isize, DataType)>) -> (r: Vec<String>)
    requires
        forall|j: int| 0 <= j < plan@.len() ==> 0 <= (#[trigger] plan@[j]).1 < plan@.len(),
        forall|j: int, k: int|
            0 <= j < k < plan@.len() ==> (#[trigger] plan@[j]).1 != (#[trigger] plan@[k]).1,
        forall|j: int| 0 <= j < plan@.len() ==> (#[trigger] plan@[j]).0 < usize::MAX,
    ensures
        r.deep_view().len() == plan@.len(),
        forall|j: int|
            0 <= j < plan@.len() ==> r.deep_view()[(#[trigger] plan@[j]).1 as int]
                == render_field(plan@[j]),
{
    let n = plan.len();
    let mut r: Vec<String> = Vec::new();
    while r.len() < n
        invariant
            r@.len() <= n,
        decreases n - r@.len(),
    {
        r.push(String::new());
    }
    let mut j: usize = 0;
    while j < n
        invariant
            j <= n,
            r@.len() == n,
            n == plan@.len(),
            forall|t: int| 0 <= t < n ==> 0 <= (#[trigger] plan@[t]).1 < n,
            forall|t: int, k: int|
                0 <= t < k < n ==> (#[trigger] plan@[t]).1 != (#[trigger] plan@[k]).1,
            forall|t: int| 0 <= t < n ==> (#[trigger] plan@[t]).0 < usize::MAX,
            forall|t: int|
                0 <= t < j ==> r.deep_view()[(#[trigger] plan@[t]).1 as int] == render_field(
                    plan@[t],
                ),
        decreases n - j,
    {
        let src = plan[j].0;
        let mut t = u64_to_string(src as u64 + 1);
        proof {
            reveal_strlit("-i");
            reveal_strlit("-u");
            assert("-i"@ =~= seq!['-', 'i']);
            assert("-u"@ =~= seq!['-', 'u']);
        }
        match &plan[j].2 {
            DataType::S => {
                proof {
                    assert(t@ =~= render_field(plan@[j as int]));
                }
            }
            DataType::I => {
                t.append("-i");
                proof {
                    assert(t@ =~= render_field(plan@[j as int]));
                }
            }
            DataType::U => {
                t.append("-u");
                proof {
                    assert(t@ =~= render_field(plan@[j as int]));
                }
            }
        }
        let pos = plan[j].1;
        let ghost dv0 = r.deep_view();
        r.set(pos as usize, t);
        proof {
            assert(r.deep_view() =~= dv0.update(plan@[j as int].1 as int, t@));
        }
        j = j + 1;
    }
    r
}

/// For a canonical, parseable field specification, rendering its parsed
/// entry gives back the specification, whatever position it carries.
proof fn lemma_render_field_inverse(s: Seq<char>, pos: isize)
    requires
        field_ok(s),
        canonical_field(s),
        field_idx(s) < usize::MAX as int,
    ensures
        render_field((field_idx(s) as usize, pos, field_tag(s))) == s,
{
    let sep = seq!['-'];
    let parts = field_parts(s);
    lemma_split_from_len(s, sep, Seq::<char>::empty());
    lemma_split_join(s, sep);
    let p0 = parts[0];
    assert(num_body(p0) == p0);
    assert(all_digits(p0) && digits_val(p0) == parse_uint_val(p0));
    lemma_dec_rep_of_digits(p0);
    assert(field_idx(s) as usize as int + 1 == parse_uint_val(p0));
    assert(dec_rep(field_idx(s) as usize as int + 1) == p0);
    if parts.len() == 1 {
        assert(join_fields(parts, sep) == p0);
        assert(field_tag(s) == DataType::S);
        assert(render_field((field_idx(s) as usize, pos, field_tag(s))) =~= p0);
    } else {
        assert(parts.len() == 2);
        assert(parts.skip(1).len() == 1);
        assert(parts.skip(1)[0] == parts[1]);
        assert(join_fields(parts.skip(1), sep) == parts[1]);
        assert(join_fields(parts, sep) == p0 + sep + parts[1]);
        if parts[1] == seq!['i'] {
            assert(field_tag(s) == DataType::I);
            assert(render_field((field_idx(s) as usize, pos, field_tag(s))) =~= p0 + sep
                + parts[1]);
        } else {
            assert(parts[1] == seq!['u']);
            assert(field_tag(s) == DataType::U);
            assert(render_field((field_idx(s) as usize, pos, field_tag(s))) =~= p0 + sep
                + parts[1]);
        }
    }
}

/// Parsing a canonical field list and then serializing the resulting
/// plan reproduces the list exactly: on canonical input, parsing
/// followed by serialization is a fixed point.
pub proof fn lemma_plan_round_trip(
    fv: Seq<Seq<char>>,
    p: Seq<(usize, isize, DataType)>,
    rv: Seq<Seq<char>>,
)
    requires
        fields_wf(fv),
        fv.len() <= isize::MAX as int,
        forall|i: int| 0 <= i < fv.len() ==> canonical_field(#[trigger] fv[i]),
        plan_matches(fv, p),
        rv.len() == p.len(),
        forall|j: int|
            0 <= j < p.len() ==> rv[(#[trigger] p[j]).1 as int] == render_field(p[j]),
    ensures
        rv == fv,
{
    assert forall|i: int| 0 <= i < fv.len() implies rv[i] == fv[i] by {
        let e = (field_idx(fv[i]) as usize, i as isize, field_tag(fv[i]));
        let j = choose|j: int| 0 <= j < p.len() && #[trigger] p[j] == e;
        assert(p[j] == e);
        assert(rv[i] == render_field(e));
        assert(field_idx(fv[i]) < usize::MAX as int) by {
            assert(parse_uint_ok(field_parts(fv[i])[0], usize::MAX as int));
        }
        lemma_render_field_inverse(fv[i], i as isize);
    }
    assert(rv =~= fv);
}

} // verus!
