//! Extracting a composite key from a record: tokenize the record, walk
//! the plan, parse each selected field per its type tag, and place the
//! atom at the output position the plan declares.

use vstd::pervasive::unreached;
use vstd::prelude::*;
use crate::key::{Atom, DataType, VarData};
use crate::numbers::{parse_i64, parse_i64_ok, parse_i64_val, parse_u64, parse_uint_ok,
    parse_uint_val};
use crate::plan::wf_plan;
use crate::tokenize::{spec_split, split_record};

verus! {

/// The atom a token yields under a type tag.
pub open spec fn parse_atom(tok: Seq<char>, dt: DataType) -> Atom {
    match dt {
        DataType::I => Atom::I(parse_i64_val(tok) as i64),
        DataType::U => Atom::U(parse_uint_val(tok) as u64),
        DataType::S => Atom::S(tok),
    }
}

/// The token a plan entry selects parses under the entry's tag.
pub open spec fn entry_parses(toks: Seq<Seq<char>>, e: (usize, isize, DataType)) -> bool {
    match e.2 {
        DataType::I => parse_i64_ok(toks[e.0 as int]),
        DataType::U => parse_uint_ok(toks[e.0 as int], u64::MAX as int),
        DataType::S => true,
    }
}

/// A record fits a plan when it has enough fields and each selected
/// numeric field parses under its tag.
pub open spec fn record_fits(toks: Seq<Seq<char>>, plan: Seq<(usize, isize, DataType)>) -> bool {
    &&& forall|j: int| 0 <= j < plan.len() ==> (#[trigger] plan[j]).0 < toks.len()
    &&& forall|j: int| 0 <= j < plan.len() ==> entry_parses(toks, #[trigger] plan[j])
}

/// Extracts a key from the record.  The plan must be well formed — as
/// produced by `fields_to_idx` — and the record must have enough fields,
/// with every numeric field parsing under its tag.
pub fn extract_key(record: &str, field_sep: &str, key_idx: &[(usize, isize, DataType)]) -> (r:
    Vec<VarData>)
    requires
        field_sep@.len() > 0,
        wf_plan(key_idx@),
        record_fits(spec_split(record@, field_sep@), key_idx@),
    ensures
        r.deep_view().len() == key_idx@.len(),
        forall|j: int|
            0 <= j < key_idx@.len() ==> r.deep_view()[(#[trigger] key_idx@[j]).1 as int]
                == parse_atom(
                spec_split(record@, field_sep@)[key_idx@[j].0 as int],
                key_idx@[j].2,
            ),
{
    let toks = split_record(record, field_sep);
    let plan_len = key_idx.len();
    let mut out: Vec<VarData> = Vec::new();
    while out.len() < plan_len
        invariant
            out@.len() <= plan_len,
        decreases plan_len - out@.len(),
    {
        out.push(VarData::U(0));
    }
    let mut j: usize = 0;
    while j < plan_len
        invariant
            j <= plan_len,
            plan_len == key_idx@.len(),
            out@.len() == plan_len,
            toks.deep_view() == spec_split(record@, field_sep@),
            wf_plan(key_idx@),
            record_fits(toks.deep_view(), key_idx@),
            forall|t: int|
                0 <= t < j ==> out.deep_view()[(#[trigger] key_idx@[t]).1 as int] == parse_atom(
                    toks.deep_view()[key_idx@[t].0 as int],
                    key_idx@[t].2,
                ),
        decreases plan_len - j,
    {
        let src = key_idx[j].0;
        let pos = key_idx[j].1;
        proof {
            assert(toks.deep_view()[src as int] == toks@[src as int]@);
        }
        let v: VarData = match &key_idx[j].2 {
            DataType::S => VarData::S(toks[src].clone()),
            DataType::I => {
                match parse_i64(toks[src].as_str()) {
                    Option::Some(x) => VarData::I(x),
                    Option::None => unreached(),
                }
            }
            DataType::U => {
                match parse_u64(toks[src].as_str()) {
                    Option::Some(x) => VarData::U(x),
                    Option::None => unreached(),
                }
            }
        };
        proof {
            assert(v.deep_view() == parse_atom(
                toks.deep_view()[key_idx@[j as int].0 as int],
                key_idx@[j as int].2,
            ));
        }
        let ghost dv0 = out.deep_view();
        out.set(pos as usize, v);
        proof {
            assert(out.deep_view() =~= dv0.update(key_idx@[j as int].1 as int, v.deep_view()));
        }
        j = j + 1;
    }
    out
}

/// Extracts a key from the record and returns both the key and the
/// record, so the caller can emit the full record on a match.
pub fn extract_key_value(record: String, field_sep: &str, key_idx: &[(usize, isize, DataType)])
    -> (r: (Vec<VarData>, String))
    requires
        field_sep@.len() > 0,
        wf_plan(key_idx@),
        record_fits(spec_split(record@, field_sep@), key_idx@),
    ensures
        r.1 == record,
        r.0.deep_view().len() == key_idx@.len(),
        forall|j: int|
            0 <= j < key_idx@.len() ==> r.0.deep_view()[(#[trigger] key_idx@[j]).1 as int]
                == parse_atom(
                spec_split(record@, field_sep@)[key_idx@[j].0 as int],
                key_idx@[j].2,
            ),
{
    let key = extract_key(record.as_str(), field_sep, key_idx);
    (key, record)
}

/// For a plan whose tags are all strings, extraction alters nothing: the
/// atom placed at each declared position is exactly the source token.
pub proof fn lemma_string_atoms_round_trip(
    toks: Seq<Seq<char>>,
    plan: Seq<(usize, isize, DataType)>,
    key: Seq<Atom>,
)
    requires
        forall|j: int| 0 <= j < plan.len() ==> (#[trigger] plan[j]).2 == DataType::S,
        key.len() == plan.len(),
        forall|j: int|
            0 <= j < plan.len() ==> 0 <= (#[trigger] plan[j]).1 < plan.len(),
        forall|j: int|
            0 <= j < plan.len() ==> key[(#[trigger] plan[j]).1 as int] == parse_atom(
                toks[plan[j].0 as int],
                plan[j].2,
            ),
    ensures
        forall|j: int|
            0 <= j < plan.len() ==> key[(#[trigger] plan[j]).1 as int] == Atom::S(
                toks[plan[j].0 as int],
            ),
{
}

} // verus!
