//! Formatting join outputs into the delimited text the command-line
//! front-ends write: matched pairs joined by the field separator, and
//! one-sided emissions padded with field separators standing in for the
//! missing side.

use vstd::prelude::*;
use vstd::string::StringExecFns;

verus! {

/// `n` copies of the separator, concatenated.
pub open spec fn sep_pad(fs: Seq<char>, n: int) -> Seq<char>
    decreases n,
{
    if n <= 0 {
        Seq::empty()
    } else {
        sep_pad(fs, n - 1) + fs
    }
}

/// Appends the left value and the right value to the output stream,
/// separated by the field separator and closed with the record
/// separator.
pub fn write_both(stream: &mut String, lv: &str, rv: &str, fs: &str, rs: &str)
    ensures
        final(stream)@ == old(stream)@ + lv@ + fs@ + rv@ + rs@,
{
    stream.append(lv);
    stream.append(fs);
    stream.append(rv);
    stream.append(rs);
}

/// Appends only the left value, with `r_len` field separators padded in
/// place of the missing right value.
pub fn write_left(stream: &mut String, lv: &str, r_len: usize, fs: &str, rs: &str)
    ensures
        final(stream)@ == old(stream)@ + lv@ + sep_pad(fs@, r_len as int) + rs@,
{
    let ghost s0 = stream@;
    stream.append(lv);
    let mut i: usize = 0;
    proof {
        assert(stream@ + sep_pad(fs@, 0) =~= stream@);
    }
    while i < r_len
        invariant
            i <= r_len,
            stream@ == s0 + lv@ + sep_pad(fs@, i as int),
        decreases r_len - i,
    {
        stream.append(fs);
        proof {
            assert((s0 + lv@ + sep_pad(fs@, i as int)) + fs@ =~= s0 + lv@ + (sep_pad(
                fs@,
                i as int,
            ) + fs@));
        }
        i = i + 1;
    }
    stream.append(rs);
    proof {
        assert(stream@ =~= s0 + lv@ + sep_pad(fs@, r_len as int) + rs@);
    }
}

/// Appends only the right value, with `l_len` field separators padded in
/// place of the missing left value.
pub fn write_right(stream: &mut String, rv: &str, l_len: usize, fs: &str, rs: &str)
    ensures
        final(stream)@ == old(stream)@ + sep_pad(fs@, l_len as int) + rv@ + rs@,
{
    let ghost s0 = stream@;
    let mut i: usize = 0;
    proof {
        assert(stream@ + sep_pad(fs@, 0) =~= stream@);
    }
    while i < l_len
        invariant
            i <= l_len,
            stream@ == s0 + sep_pad(fs@, i as int),
        decreases l_len - i,
    {
        stream.append(fs);
        proof {
            assert((s0 + sep_pad(fs@, i as int)) + fs@ =~= s0 + (sep_pad(fs@, i as int) + fs@));
        }
        i = i + 1;
    }
    stream.append(rv);
    stream.append(rs);
    proof {
        assert(stream@ =~= s0 + sep_pad(fs@, l_len as int) + rv@ + rs@);
    }
}

} // verus!
