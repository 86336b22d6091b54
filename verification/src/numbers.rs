//! Decimal parsing and rendering of the integer key atoms, with exact
//! character-level specifications.

use vstd::prelude::*;
use vstd::string::{StrSliceExecFns, StringExecFns};

verus! {

/// True for the ten decimal digit characters.
pub open spec fn is_digit(c: char) -> bool {
    '0' <= c && c <= '9'
}

/// Numeric value of a digit character.
pub open spec fn digit_val(c: char) -> int {
    c as int - '0' as int
}

/// True when every character of `s` is a decimal digit.
pub open spec fn all_digits(s: Seq<char>) -> bool {
    forall|i: int| 0 <= i < s.len() ==> is_digit(s[i])
}

/// Value of a digit string, most significant digit first.
pub open spec fn digits_val(s: Seq<char>) -> int
    decreases s.len(),
{
    if s.len() == 0 {
        0
    } else {
        digits_val(s.drop_last()) * 10 + digit_val(s.last())
    }
}

/// The digits of an unsigned number, after an optional leading plus sign.
pub open spec fn num_body(s: Seq<char>) -> Seq<char> {
    if s.len() > 0 && s[0] == '+' {
        s.skip(1)
    } else {
        s
    }
}

/// True when `s` parses as an unsigned decimal number no greater than `max`:
/// an optional plus sign, then at least one digit.
pub open spec fn parse_uint_ok(s: Seq<char>, max: int) -> bool {
    let t = num_body(s);
    t.len() > 0 && all_digits(t) && digits_val(t) <= max
}

/// The value `s` parses to as an unsigned decimal number.
pub open spec fn parse_uint_val(s: Seq<char>) -> int {
    digits_val(num_body(s))
}

/// True when the signed number `s` starts with a minus sign.
pub open spec fn int_negative(s: Seq<char>) -> bool {
    s.len() > 0 && s[0] == '-'
}

/// The digits of a signed number, after an optional sign character.
pub open spec fn int_body(s: Seq<char>) -> Seq<char> {
    if s.len() > 0 && (s[0] == '-' || s[0] == '+') {
        s.skip(1)
    } else {
        s
    }
}

/// True when `s` parses as a signed 64-bit decimal number: an optional
/// sign, then at least one digit, with the value in the `i64` range.
pub open spec fn parse_i64_ok(s: Seq<char>) -> bool {
    let t = int_body(s);
    &&& t.len() > 0
    &&& all_digits(t)
    &&& if int_negative(s) {
        digits_val(t) <= -(i64::MIN as int)
    } else {
        digits_val(t) <= i64::MAX as int
    }
}

/// The value `s` parses to as a signed decimal number.
pub open spec fn parse_i64_val(s: Seq<char>) -> int {
    if int_negative(s) {
        -digits_val(int_body(s))
    } else {
        digits_val(int_body(s))
    }
}

/// A digit string has a non-negative value.
pub proof fn lemma_digits_val_nonneg(s: Seq<char>)
    requires
        all_digits(s),
    ensures
        digits_val(s) >= 0,
    decreases s.len(),
{
    if s.len() > 0 {
        assert(all_digits(s.drop_last())) by {
            assert(forall|i: int|
                0 <= i < s.len() - 1 ==> s.drop_last()[i] == s[i]);
        }
        lemma_digits_val_nonneg(s.drop_last());
    }
}

/// Extending a digit string can only increase its value.
pub proof fn lemma_digits_val_prefix(s: Seq<char>, j: int)
    requires
        all_digits(s),
        0 <= j <= s.len(),
    ensures
        digits_val(s.take(j)) <= digits_val(s),
    decreases s.len() - j,
{
    assert(all_digits(s.take(j))) by {
        assert(forall|i: int| 0 <= i < j ==> s.take(j)[i] == s[i]);
    }
    if j == s.len() {
        assert(s.take(j) =~= s);
    } else {
        lemma_digits_val_nonneg(s.take(j));
        assert(s.take(j + 1).drop_last() =~= s.take(j));
        assert(s.take(j + 1).last() == s[j]);
        assert(digits_val(s.take(j + 1)) == digits_val(s.take(j)) * 10 + digit_val(s[j]));
        lemma_digits_val_prefix(s, j + 1);
    }
}

/// Parses the digits of `s` from position `from` to the end.
fn parse_digits(s: &str, from: usize) -> (r: Option<u64>)
    requires
        from <= s@.len(),
    ensures
        ({
            let t = s@.skip(from as int);
            &&& (r is Some <==> t.len() > 0 && all_digits(t) && digits_val(t) <= u64::MAX)
            &&& (r is Some ==> r.unwrap() as int == digits_val(t))
        }),
{
    let n = s.unicode_len();
    let ghost t = s@.skip(from as int);
    if from >= n {
        return None;
    }
    let mut i: usize = from;
    let mut acc: u64 = 0;
    while i < n
        invariant
            from <= i <= n,
            n == s@.len(),
            t == s@.skip(from as int),
            t.len() > 0,
            all_digits(t.take(i - from)),
            acc as int == digits_val(t.take(i - from)),
        decreases n - i,
    {
        let c = s.get_char(i);
        proof {
            assert(t[i - from] == s@[i as int]);
        }
        if c < '0' || c > '9' {
            proof {
                assert(!is_digit(t[i - from]));
            }
            return None;
        }
        let d: u64 = (c as u32 - 48) as u64;
        proof {
            assert(d as int == digit_val(t[i - from]));
        }
        if acc > (u64::MAX - d) / 10 {
            proof {
                assert(t.take(i - from + 1).drop_last() =~= t.take(i - from));
                assert(t.take(i - from + 1).last() == t[i - from]);
                assert(digits_val(t.take(i - from + 1)) == acc as int * 10 + d as int);
                assert(acc as int * 10 + d as int > u64::MAX as int) by (nonlinear_arith)
                    requires
                        acc as int > (u64::MAX as int - d as int) / 10,
                        0 <= d as int && (d as int) < 10;
                if all_digits(t) {
                    assert(all_digits(t.take(i - from + 1))) by {
                        assert(forall|k: int|
                            0 <= k < i - from + 1 ==> t.take(i - from + 1)[k] == t[k]);
                    }
                    lemma_digits_val_prefix(t, i - from + 1);
                }
            }
            return None;
        }
        proof {
            assert(t.take(i - from + 1).drop_last() =~= t.take(i - from));
            assert(t.take(i - from + 1).last() == t[i - from]);
        }
        acc = acc * 10 + d;
        i = i + 1;
    }
    proof {
        assert(t.take(n - from) =~= t);
    }
    Some(acc)
}

/// Parses an unsigned 64-bit decimal number: an optional plus sign, then
/// at least one digit.  Returns `None` on any other input, including
/// values beyond the `u64` range.
pub fn parse_u64(s: &str) -> (r: Option<u64>)
    ensures
        r is Some <==> parse_uint_ok(s@, u64::MAX as int),
        r is Some ==> r.unwrap() as int == parse_uint_val(s@),
{
    let n = s.unicode_len();
    let from: usize = if n > 0 && s.get_char(0) == '+' {
        1
    } else {
        0
    };
    proof {
        assert(s@.skip(0) =~= s@);
        assert(num_body(s@) == s@.skip(from as int));
    }
    parse_digits(s, from)
}

/// Parses a non-negative decimal number that fits in `usize`.
pub fn parse_usize(s: &str) -> (r: Option<usize>)
    ensures
        r is Some <==> parse_uint_ok(s@, usize::MAX as int),
        r is Some ==> r.unwrap() as int == parse_uint_val(s@),
{
    let v = parse_u64(s);
    match v {
        Some(x) => {
            if x <= usize::MAX as u64 {
                Some(x as usize)
            } else {
                None
            }
        }
        None => {
            proof {
                if parse_uint_ok(s@, usize::MAX as int) {
                    assert(parse_uint_ok(s@, u64::MAX as int));
                }
            }
            None
        }
    }
}

/// Parses a signed 64-bit decimal number: an optional sign, then at least
/// one digit.  Returns `None` on any other input, including values beyond
/// the `i64` range.
pub fn parse_i64(s: &str) -> (r: Option<i64>)
    ensures
        r is Some <==> parse_i64_ok(s@),
        r is Some ==> r.unwrap() as int == parse_i64_val(s@),
{
    let n = s.unicode_len();
    let mut neg = false;
    let mut from: usize = 0;
    if n > 0 {
        let c = s.get_char(0);
        if c == '-' {
            neg = true;
            from = 1;
        } else if c == '+' {
            from = 1;
        }
    }
    proof {
        assert(s@.skip(0) =~= s@);
        assert(int_body(s@) == s@.skip(from as int));
        assert(neg == int_negative(s@));
    }
    let m = parse_digits(s, from);
    match m {
        Some(mag) => {
            if neg {
                if mag <= 9223372036854775808u64 {
                    if mag == 9223372036854775808u64 {
                        Some(i64::MIN)
                    } else {
                        Some(-(mag as i64))
                    }
                } else {
                    None
                }
            } else {
                if mag <= i64::MAX as u64 {
                    Some(mag as i64)
                } else {
                    None
                }
            }
        }
        None => None,
    }
}

/// Character for a single decimal digit value.
pub open spec fn digit_char(d: int) -> char {
    (48 + d) as char
}

/// Decimal rendering of a non-negative number, most significant digit
/// first and without leading zeros.
pub open spec fn dec_rep(n: int) -> Seq<char>
    decreases n,
{
    if n < 10 {
        seq![digit_char(if n >= 0 { n } else { 0 })]
    } else {
        dec_rep(n / 10).push(digit_char(n % 10))
    }
}

/// The rendering of a number consists of digits, has no leading zero
/// unless it is the single digit zero, and parses back to the number.
pub proof fn lemma_dec_rep_val(n: int)
    requires
        n >= 0,
    ensures
        all_digits(dec_rep(n)),
        dec_rep(n).len() >= 1,
        digits_val(dec_rep(n)) == n,
        n >= 1 ==> dec_rep(n)[0] != '0',
        n < 10 ==> dec_rep(n).len() == 1,
    decreases n,
{
    if n < 10 {
        assert(dec_rep(n) == seq![digit_char(n)]);
        assert(dec_rep(n).drop_last() =~= Seq::<char>::empty());
        assert(digits_val(Seq::<char>::empty()) == 0);
        assert(digit_char(n) as int == 48 + n);
        assert(digit_val(digit_char(n)) == n);
    } else {
        lemma_dec_rep_val(n / 10);
        assert(dec_rep(n).drop_last() =~= dec_rep(n / 10));
        assert(dec_rep(n).last() == digit_char(n % 10));
        assert(dec_rep(n)[0] == dec_rep(n / 10)[0]);
    }
}

/// A digit string without a leading zero is the rendering of its value.
pub proof fn lemma_dec_rep_of_digits(s: Seq<char>)
    requires
        all_digits(s),
        s.len() >= 1,
        s.len() == 1 || s[0] != '0',
    ensures
        dec_rep(digits_val(s)) == s,
    decreases s.len(),
{
    lemma_digits_val_nonneg(s);
    if s.len() == 1 {
        assert(s.drop_last() =~= Seq::<char>::empty());
        assert(digits_val(Seq::<char>::empty()) == 0);
        assert(digits_val(s) == digit_val(s[0]));
        assert(dec_rep(digits_val(s)) =~= s);
    } else {
        let u = s.drop_last();
        assert(all_digits(u)) by {
            assert(forall|i: int| 0 <= i < u.len() ==> u[i] == s[i]);
        }
        assert(u[0] == s[0]);
        lemma_digits_val_leading_nonzero(u);
        lemma_dec_rep_of_digits(u);
        let v = digits_val(s);
        let d = digit_val(s.last());
        assert(v == digits_val(u) * 10 + d);
        assert(v / 10 == digits_val(u) && v % 10 == d) by (nonlinear_arith)
            requires
                v == digits_val(u) * 10 + d,
                0 <= d < 10,
                digits_val(u) >= 0;
        assert(v >= 10) by (nonlinear_arith)
            requires
                v == digits_val(u) * 10 + d,
                digits_val(u) >= 1,
                d >= 0;
        assert(dec_rep(v) == dec_rep(digits_val(u)).push(digit_char(d)));
        assert(dec_rep(v) =~= s) by {
            assert(digit_char(d) == s.last());
            assert(u.push(s.last()) =~= s);
        }
    }
}

/// A digit string with a non-zero leading digit has value at least one.
pub proof fn lemma_digits_val_leading_nonzero(s: Seq<char>)
    requires
        all_digits(s),
        s.len() >= 1,
        s[0] != '0',
    ensures
        digits_val(s) >= 1,
    decreases s.len(),
{
    if s.len() == 1 {
        assert(s.drop_last() =~= Seq::<char>::empty());
        assert(digits_val(Seq::<char>::empty()) == 0);
        assert(digits_val(s) == digit_val(s[0]));
        assert(digit_val(s[0]) >= 1);
    } else {
        let u = s.drop_last();
        assert(all_digits(u)) by {
            assert(forall|i: int| 0 <= i < u.len() ==> u[i] == s[i]);
        }
        assert(u[0] == s[0]);
        lemma_digits_val_leading_nonzero(u);
        assert(digit_val(s.last()) >= 0);
        assert(digits_val(s) == digits_val(u) * 10 + digit_val(s.last()));
        assert(digits_val(s) >= 10) by (nonlinear_arith)
            requires
                digits_val(s) == digits_val(u) * 10 + digit_val(s.last()),
                digits_val(u) >= 1,
                digit_val(s.last()) >= 0;
    }
}

/// A single-digit string slice for each digit value.
fn digit_str(d: u64) -> (r: &'static str)
    requires
        d < 10,
    ensures
        r@ == seq![digit_char(d as int)],
{
    proof {
        reveal_strlit("0");
        reveal_strlit("1");
        reveal_strlit("2");
        reveal_strlit("3");
        reveal_strlit("4");
        reveal_strlit("5");
        reveal_strlit("6");
        reveal_strlit("7");
        reveal_strlit("8");
        reveal_strlit("9");
    }
    let r = match d {
        0 => "0",
        1 => "1",
        2 => "2",
        3 => "3",
        4 => "4",
        5 => "5",
        6 => "6",
        7 => "7",
        8 => "8",
        _ => "9",
    };
    proof {
        assert(r@ =~= seq![digit_char(d as int)]);
    }
    r
}

/// Renders an unsigned number in decimal, mirroring `dec_rep`.
pub fn u64_to_string(n: u64) -> (r: String)
    ensures
        r@ == dec_rep(n as int),
    decreases n,
{
    if n < 10 {
        String::from_str(digit_str(n))
    } else {
        let mut r = u64_to_string(n / 10);
        r.append(digit_str(n % 10));
        proof {
            assert(dec_rep((n / 10) as int) + seq![digit_char((n % 10) as int)] =~= dec_rep(
                (n / 10) as int,
            ).push(digit_char((n % 10) as int)));
        }
        r
    }
}

} // verus!
