//! Tokenizing a record into fields, delimited by an arbitrary non-empty
//! separator string; leftmost separator match wins.

use vstd::prelude::*;
use vstd::string::{StrSliceExecFns, StringExecFns};

verus! {

/// True when `sep` occurs in `s` starting at position `i`.
pub open spec fn is_match_at(s: Seq<char>, sep: Seq<char>, i: int) -> bool {
    &&& 0 <= i
    &&& i + sep.len() <= s.len()
    &&& s.subrange(i, i + sep.len() as int) == sep
}

/// Splitting, one character at a time: `cur` is the token accumulated so
/// far; a separator match flushes it and starts a fresh token.
pub open spec fn split_from(s: Seq<char>, sep: Seq<char>, cur: Seq<char>) -> Seq<Seq<char>>
    decreases s.len(),
{
    if s.len() == 0 {
        seq![cur]
    } else if sep.len() > 0 && s.len() >= sep.len() && s.take(sep.len() as int) == sep {
        seq![cur] + split_from(s.skip(sep.len() as int), sep, Seq::empty())
    } else {
        split_from(s.skip(1), sep, cur.push(s[0]))
    }
}

/// The fields of `s` delimited by `sep`.  An empty record yields one empty
/// field, and a trailing separator yields a trailing empty field.
pub open spec fn spec_split(s: Seq<char>, sep: Seq<char>) -> Seq<Seq<char>> {
    split_from(s, sep, Seq::empty())
}

/// A split yields at least one field.
pub proof fn lemma_split_from_len(s: Seq<char>, sep: Seq<char>, cur: Seq<char>)
    ensures
        split_from(s, sep, cur).len() >= 1,
    decreases s.len(),
{
    if s.len() == 0 {
    } else if sep.len() > 0 && s.len() >= sep.len() && s.take(sep.len() as int) == sep {
    } else {
        lemma_split_from_len(s.skip(1), sep, cur.push(s[0]));
    }
}

/// The fields joined back together with the separator in between.
pub open spec fn join_fields(parts: Seq<Seq<char>>, sep: Seq<char>) -> Seq<char>
    decreases parts.len(),
{
    if parts.len() == 0 {
        Seq::empty()
    } else if parts.len() == 1 {
        parts[0]
    } else {
        parts[0] + sep + join_fields(parts.skip(1), sep)
    }
}

/// Joining undoes splitting: the fields of `s`, interspersed with the
/// separator, are `s` itself.
pub proof fn lemma_split_join(s: Seq<char>, sep: Seq<char>)
    requires
        sep.len() > 0,
    ensures
        join_fields(spec_split(s, sep), sep) == s,
{
    lemma_split_from_join(s, sep, Seq::empty());
    assert(Seq::empty() + s =~= s);
}

proof fn lemma_split_from_join(s: Seq<char>, sep: Seq<char>, cur: Seq<char>)
    requires
        sep.len() > 0,
    ensures
        join_fields(split_from(s, sep, cur), sep) == cur + s,
    decreases s.len(),
{
    if s.len() == 0 {
        assert(split_from(s, sep, cur) == seq![cur]);
        assert(cur + s =~= cur);
    } else if s.len() >= sep.len() && s.take(sep.len() as int) == sep {
        let rest = split_from(s.skip(sep.len() as int), sep, Seq::empty());
        lemma_split_from_len(s.skip(sep.len() as int), sep, Seq::empty());
        lemma_split_from_join(s.skip(sep.len() as int), sep, Seq::empty());
        let whole = seq![cur] + rest;
        assert(whole.len() >= 2);
        assert(whole[0] == cur);
        assert(whole.skip(1) =~= rest);
        assert(join_fields(whole, sep) == cur + sep + join_fields(rest, sep));
        assert(Seq::empty() + s.skip(sep.len() as int) =~= s.skip(sep.len() as int));
        assert(cur + sep + s.skip(sep.len() as int) =~= cur + s);
    } else {
        lemma_split_from_join(s.skip(1), sep, cur.push(s[0]));
        assert(cur.push(s[0]) + s.skip(1) =~= cur + s);
    }
}

/// True when `sep` occurs starting at `i`, decided by character comparison.
fn matches_at(record: &str, rec_len: usize, field_sep: &str, sep_len: usize, i: usize) -> (m:
    bool)
    requires
        rec_len == record@.len(),
        sep_len == field_sep@.len(),
        i <= rec_len,
    ensures
        m == is_match_at(record@, field_sep@, i as int),
{
    if sep_len > rec_len - i {
        return false;
    }
    let mut j: usize = 0;
    while j < sep_len
        invariant
            j <= sep_len,
            sep_len == field_sep@.len(),
            rec_len == record@.len(),
            i + sep_len <= rec_len,
            forall|t: int| 0 <= t < j ==> record@[i + t] == field_sep@[t],
        decreases sep_len - j,
    {
        if record.get_char(i + j) != field_sep.get_char(j) {
            proof {
                if is_match_at(record@, field_sep@, i as int) {
                    assert(record@.subrange(i as int, i + field_sep@.len() as int)[j as int]
                        == field_sep@[j as int]);
                }
            }
            return false;
        }
        j = j + 1;
    }
    proof {
        assert(record@.subrange(i as int, i + field_sep@.len() as int) =~= field_sep@);
    }
    true
}

/// Splits `record` into its fields.  Mirrors `spec_split` exactly.
pub fn split_record(record: &str, field_sep: &str) -> (r: Vec<String>)
    requires
        field_sep@.len() > 0,
    ensures
        r.deep_view() == spec_split(record@, field_sep@),
{
    let rec_len = record.unicode_len();
    let sep_len = field_sep.unicode_len();
    let mut r: Vec<String> = Vec::new();
    let mut start: usize = 0;
    let mut i: usize = 0;
    proof {
        assert(record@.skip(0) =~= record@);
        assert(record@.subrange(0, 0) =~= Seq::<char>::empty());
        assert(r.deep_view() =~= Seq::<Seq<char>>::empty());
        assert(Seq::<Seq<char>>::empty() + split_from(record@, field_sep@, Seq::empty())
            =~= split_from(record@, field_sep@, Seq::empty()));
    }
    loop
        invariant
            start <= i <= rec_len,
            rec_len == record@.len(),
            sep_len == field_sep@.len(),
            sep_len > 0,
            spec_split(record@, field_sep@) == r.deep_view() + split_from(
                record@.skip(i as int),
                field_sep@,
                record@.subrange(start as int, i as int),
            ),
        decreases rec_len - i,
    {
        if i >= rec_len {
            let tok = String::from_str(record.substring_char(start, i));
            let ghost dv0 = r.deep_view();
            let ghost cur = record@.subrange(start as int, i as int);
            r.push(tok);
            proof {
                assert(record@.skip(i as int).len() == 0);
                assert(split_from(record@.skip(i as int), field_sep@, cur) == seq![cur]);
                assert(r.deep_view() =~= dv0 + seq![cur]);
            }
            return r;
        }
        let ghost s = record@;
        let ghost sep = field_sep@;
        let ghost cur = record@.subrange(start as int, i as int);
        if matches_at(record, rec_len, field_sep, sep_len, i) {
            let tok = String::from_str(record.substring_char(start, i));
            let ghost dv0 = r.deep_view();
            r.push(tok);
            proof {
                assert(s.skip(i as int).take(sep.len() as int) =~= s.subrange(
                    i as int,
                    i + sep.len() as int,
                ));
                assert(s.skip(i as int).skip(sep.len() as int) =~= s.skip(
                    i + sep.len() as int,
                ));
                assert(s.skip(i as int).len() > 0);
                assert(split_from(s.skip(i as int), sep, cur) == seq![cur] + split_from(
                    s.skip(i + sep.len() as int),
                    sep,
                    Seq::empty(),
                ));
                assert(r.deep_view() =~= dv0 + seq![cur]);
                assert(s.subrange(
                    (i + sep.len()) as int,
                    (i + sep.len()) as int,
                ) =~= Seq::<char>::empty());
                assert((dv0 + seq![cur]) + split_from(s.skip(i + sep.len() as int), sep, Seq::empty())
                    =~= dv0 + (seq![cur] + split_from(s.skip(i + sep.len() as int), sep, Seq::empty())));
            }
            i = i + sep_len;
            start = i;
        } else {
            proof {
                assert(s.skip(i as int).len() > 0);
                if i + sep.len() <= s.len() {
                    assert(s.skip(i as int).take(sep.len() as int) =~= s.subrange(
                        i as int,
                        i + sep.len() as int,
                    ));
                    assert(s.skip(i as int).take(sep.len() as int) != sep);
                } else {
                    assert(s.skip(i as int).len() < sep.len());
                }
                assert(s.skip(i as int).skip(1) =~= s.skip(i + 1));
                assert(s.skip(i as int)[0] == s[i as int]);
                assert(split_from(s.skip(i as int), sep, cur) == split_from(
                    s.skip(i + 1),
                    sep,
                    cur.push(s[i as int]),
                ));
                assert(cur.push(s[i as int]) =~= s.subrange(start as int, i + 1));
            }
            i = i + 1;
        }
    }
}

/// Returns the number of fields in the record.
pub fn num_fields(record: &str, field_sep: &str) -> (n: usize)
    requires
        field_sep@.len() > 0,
    ensures
        n == spec_split(record@, field_sep@).len(),
{
    let v = split_record(record, field_sep);
    v.len()
}

} // verus!
