//! Decimal text for integers: rendering an `i32` the way the rest of the
//! crate prints it, and reading one back with the parse-or-zero policy
//! (a malformed or out-of-range field counts as zero, never an error).

use vstd::prelude::*;
use vstd::string::StrSliceExecFns;
use vstd::string::StringExecFns;

verus! {

/// The character for one decimal digit.
pub open spec fn digit_char(d: int) -> char {
    if d == 0 {
        '0'
    } else if d == 1 {
        '1'
    } else if d == 2 {
        '2'
    } else if d == 3 {
        '3'
    } else if d == 4 {
        '4'
    } else if d == 5 {
        '5'
    } else if d == 6 {
        '6'
    } else if d == 7 {
        '7'
    } else if d == 8 {
        '8'
    } else {
        '9'
    }
}

/// Whether a character is a decimal digit.
pub open spec fn is_dec_digit(c: char) -> bool {
    c == '0' || c == '1' || c == '2' || c == '3' || c == '4' || c == '5' || c == '6' || c == '7'
        || c == '8' || c == '9'
}

/// The value of a decimal digit character; zero for any other character.
pub open spec fn digit_val(c: char) -> int {
    if c == '1' {
        1
    } else if c == '2' {
        2
    } else if c == '3' {
        3
    } else if c == '4' {
        4
    } else if c == '5' {
        5
    } else if c == '6' {
        6
    } else if c == '7' {
        7
    } else if c == '8' {
        8
    } else if c == '9' {
        9
    } else {
        0
    }
}

/// The decimal digits of a nonnegative integer, most significant first,
/// with no padding and no sign.
pub open spec fn dec_digits(n: nat) -> Seq<char>
    decreases n,
{
    if n < 10 {
        seq![digit_char(n as int)]
    } else {
        dec_digits(n / 10).push(digit_char((n % 10) as int))
    }
}

/// The decimal text of an integer: the digits of its magnitude, with a
/// leading minus sign when it is negative.
pub open spec fn int_text(v: int) -> Seq<char> {
    if v < 0 {
        seq!['-'] + dec_digits((-v) as nat)
    } else {
        dec_digits(v as nat)
    }
}

/// The value of a sequence read as decimal digits (each non-digit counts
/// as zero).
pub open spec fn digits_val(s: Seq<char>) -> int
    decreases s.len(),
{
    if s.len() == 0 {
        0
    } else {
        digits_val(s.drop_last()) * 10 + digit_val(s.last())
    }
}

/// Whether every character of a sequence is a decimal digit.
pub open spec fn all_dec_digits(s: Seq<char>) -> bool {
    forall|i: int| 0 <= i < s.len() ==> is_dec_digit(s[i])
}

/// The integer a piece of text denotes: an optional sign followed by at
/// least one digit.  Anything else denotes no integer at all.
pub open spec fn signed_text_val(s: Seq<char>) -> Option<int> {
    if s.len() == 0 {
        None
    } else if s[0] == '-' || s[0] == '+' {
        if s.len() >= 2 && all_dec_digits(s.subrange(1, s.len() as int)) {
            if s[0] == '-' {
                Some(-digits_val(s.subrange(1, s.len() as int)))
            } else {
                Some(digits_val(s.subrange(1, s.len() as int)))
            }
        } else {
            None
        }
    } else if all_dec_digits(s) {
        Some(digits_val(s))
    } else {
        None
    }
}

/// The parse-or-zero reading of a piece of text: its integer value when it
/// denotes one that fits an `i32`, and zero otherwise.
pub open spec fn parse_i32_or_zero(s: Seq<char>) -> i32 {
    match signed_text_val(s) {
        Some(v) => if i32::MIN <= v <= i32::MAX {
            v as i32
        } else {
            0
        },
        None => 0,
    }
}

pub proof fn lemma_digits_val_nonneg(s: Seq<char>)
    ensures
        digits_val(s) >= 0,
    decreases s.len(),
{
    if s.len() > 0 {
        lemma_digits_val_nonneg(s.drop_last());
    }
}

pub proof fn lemma_digits_val_push(s: Seq<char>, c: char)
    ensures
        digits_val(s.push(c)) == digits_val(s) * 10 + digit_val(c),
{
    assert(s.push(c).drop_last() =~= s);
    assert(s.push(c).last() == c);
}

/// The digits of a magnitude are nonempty and are digits.
pub proof fn lemma_dec_digits_shape(n: nat)
    ensures
        dec_digits(n).len() >= 1,
        all_dec_digits(dec_digits(n)),
    decreases n,
{
    if n >= 10 {
        lemma_dec_digits_shape(n / 10);
        assert forall|i: int| 0 <= i < dec_digits(n).len() implies is_dec_digit(
            dec_digits(n)[i],
        ) by {
            if i < dec_digits(n / 10).len() {
                assert(dec_digits(n)[i] == dec_digits(n / 10)[i]);
            }
        }
    }
}

/// Reading the digits of a magnitude back gives the magnitude.
pub proof fn lemma_dec_digits_val(n: nat)
    ensures
        digits_val(dec_digits(n)) == n,
    decreases n,
{
    if n < 10 {
        assert(dec_digits(n) =~= Seq::empty().push(digit_char(n as int)));
        lemma_digits_val_push(Seq::empty(), digit_char(n as int));
    } else {
        lemma_dec_digits_val(n / 10);
        lemma_digits_val_push(dec_digits(n / 10), digit_char((n % 10) as int));
        vstd::arithmetic::div_mod::lemma_fundamental_div_mod(n as int, 10);
    }
}

/// Every character of an integer's text is a sign or a digit.
pub proof fn lemma_int_text_chars(v: int)
    ensures
        forall|i: int|
            0 <= i < int_text(v).len() ==> (int_text(v)[i] == '-' || is_dec_digit(int_text(v)[i])),
{
    if v < 0 {
        lemma_dec_digits_shape((-v) as nat);
        assert forall|i: int| 0 <= i < int_text(v).len() implies (int_text(v)[i] == '-'
            || is_dec_digit(int_text(v)[i])) by {
            if i >= 1 {
                assert(int_text(v)[i] == dec_digits((-v) as nat)[i - 1]);
            }
        }
    } else {
        lemma_dec_digits_shape(v as nat);
    }
}

/// The text of an integer denotes that integer.
pub proof fn lemma_int_text_val(v: int)
    ensures
        signed_text_val(int_text(v)) == Some(v),
{
    if v < 0 {
        lemma_dec_digits_shape((-v) as nat);
        lemma_dec_digits_val((-v) as nat);
        let s = int_text(v);
        assert(s[0] == '-');
        assert(s.subrange(1, s.len() as int) =~= dec_digits((-v) as nat));
    } else {
        lemma_dec_digits_shape(v as nat);
        lemma_dec_digits_val(v as nat);
        let s = int_text(v);
        assert(s[0] == dec_digits(v as nat)[0]);
        assert(is_dec_digit(s[0]));
    }
}

/// The parse-or-zero reading inverts the rendering of any `i32`.
pub proof fn lemma_parse_int_round_trip(v: i32)
    ensures
        parse_i32_or_zero(int_text(v as int)) == v,
{
    lemma_int_text_val(v as int);
}

/// Appends one decimal digit character.
fn push_digit(out: &mut String, d: u8)
    requires
        d < 10,
    ensures
        final(out)@ == old(out)@.push(digit_char(d as int)),
{
    proof {
        reveal_strlit("0");
        reveal_strlit("1");
        reveal_strlit("2");
        reveal_strlit("3");
        reveal_strlit("4");
        reveal_strlit("5");
        reveal_strlit("6");
        reveal_strlit("7");
        reveal_strlit("8");
        reveal_strlit("9");
    }
    match d {
        0 => out.append("0"),
        1 => out.append("1"),
        2 => out.append("2"),
        3 => out.append("3"),
        4 => out.append("4"),
        5 => out.append("5"),
        6 => out.append("6"),
        7 => out.append("7"),
        8 => out.append("8"),
        _ => out.append("9"),
    }
    proof {
        assert(out@ =~= old(out)@.push(digit_char(d as int)));
    }
}

/// Appends the decimal digits of a magnitude, most significant first.
fn push_u64_digits(out: &mut String, n: u64)
    ensures
        final(out)@ == old(out)@ + dec_digits(n as nat),
    decreases n,
{
    if n >= 10 {
        push_u64_digits(out, n / 10);
        push_digit(out, (n % 10) as u8);
        proof {
            assert(out@ =~= old(out)@ + dec_digits(n as nat));
        }
    } else {
        push_digit(out, n as u8);
        proof {
            assert(out@ =~= old(out)@ + dec_digits(n as nat));
        }
    }
}

/// Appends the decimal text of an `i32`.
pub fn push_i32_text(out: &mut String, v: i32)
    ensures
        final(out)@ == old(out)@ + int_text(v as int),
{
    if v < 0 {
        proof {
            reveal_strlit("-");
        }
        out.append("-");
        let mag: u64 = (-(v as i64)) as u64;
        push_u64_digits(out, mag);
        proof {
            assert(out@ =~= old(out)@ + int_text(v as int));
        }
    } else {
        push_u64_digits(out, v as u64);
    }
}

/// Classifies a character as a decimal digit with its value.
pub fn char_digit(c: char) -> (r: Option<u8>)
    ensures
        match r {
            Some(d) => is_dec_digit(c) && d < 10 && d == digit_val(c),
            None => !is_dec_digit(c),
        },
{
    match c {
        '0' => Some(0),
        '1' => Some(1),
        '2' => Some(2),
        '3' => Some(3),
        '4' => Some(4),
        '5' => Some(5),
        '6' => Some(6),
        '7' => Some(7),
        '8' => Some(8),
        '9' => Some(9),
        _ => None,
    }
}

/// Reads the value of a region of digit characters; `None` when the value
/// is too large for the callers' range checks to care about its exact size.
pub fn digits_region_val(s: &str, lo: usize, hi: usize) -> (r: Option<u64>)
    requires
        lo <= hi <= s@.len(),
        all_dec_digits(s@.subrange(lo as int, hi as int)),
    ensures
        digits_val(s@.subrange(lo as int, hi as int)) <= 0xFFFF_FFFF ==> r == Some(
            digits_val(s@.subrange(lo as int, hi as int)) as u64,
        ),
        digits_val(s@.subrange(lo as int, hi as int)) > 0xFFFF_FFFF ==> r is None,
{
    let ghost region = s@.subrange(lo as int, hi as int);
    let mut acc: u64 = 0;
    let mut sat: bool = false;
    let mut i: usize = lo;
    proof {
        assert(region.subrange(0, 0) =~= Seq::<char>::empty());
    }
    while i < hi
        invariant
            lo <= i <= hi <= s@.len(),
            region == s@.subrange(lo as int, hi as int),
            all_dec_digits(region),
            !sat ==> acc == digits_val(region.subrange(0, i - lo)) && acc <= 0xFFFF_FFFF,
            sat ==> digits_val(region.subrange(0, i - lo)) > 0xFFFF_FFFF,
        decreases hi - i,
    {
        let c = s.get_char(i);
        proof {
            assert(region[i - lo] == s@[i as int]);
            assert(region.subrange(0, i - lo + 1) =~= region.subrange(0, i - lo).push(c));
            lemma_digits_val_push(region.subrange(0, i - lo), c);
            lemma_digits_val_nonneg(region.subrange(0, i - lo));
        }
        let d: u8 = match char_digit(c) {
            Some(d) => d,
            None => {
                proof {
                    assert(is_dec_digit(region[i - lo]));
                }
                return None;
            },
        };
        if !sat {
            let next: u64 = acc * 10 + (d as u64);
            if next > 0xFFFF_FFFF {
                sat = true;
            } else {
                acc = next;
            }
        }
        i += 1;
    }
    proof {
        assert(region.subrange(0, hi - lo) =~= region);
    }
    if sat {
        None
    } else {
        Some(acc)
    }
}

/// Reads the region `[lo, hi)` of `s` with the parse-or-zero policy: its
/// integer value when it is an optionally signed run of digits whose value
/// fits an `i32`, and zero otherwise.
pub fn parse_i32_region(s: &str, lo: usize, hi: usize) -> (r: i32)
    requires
        lo <= hi <= s@.len(),
    ensures
        r == parse_i32_or_zero(s@.subrange(lo as int, hi as int)),
{
    let ghost seg = s@.subrange(lo as int, hi as int);
    if lo == hi {
        return 0;
    }
    let c0 = s.get_char(lo);
    proof {
        assert(seg[0] == s@[lo as int]);
    }
    let neg: bool = c0 == '-';
    let ds: usize = if c0 == '-' || c0 == '+' {
        lo + 1
    } else {
        lo
    };
    if ds == hi {
        // A bare sign denotes nothing.
        return 0;
    }
    let ghost body = s@.subrange(ds as int, hi as int);
    proof {
        if ds > lo {
            assert(body =~= seg.subrange(1, seg.len() as int));
        } else {
            assert(body =~= seg);
        }
    }
    // First pass: the body must be digits throughout.
    let mut i: usize = ds;
    while i < hi
        invariant
            ds <= i <= hi <= s@.len(),
            lo <= ds <= lo + 1,
            lo < hi,
            seg == s@.subrange(lo as int, hi as int),
            body == s@.subrange(ds as int, hi as int),
            ds == lo + 1 ==> (seg[0] == '-' || seg[0] == '+') && body == seg.subrange(
                1,
                seg.len() as int,
            ),
            ds == lo ==> body == seg && seg[0] != '-' && seg[0] != '+',
            forall|j: int| 0 <= j < i - ds ==> is_dec_digit(body[j]),
        decreases hi - i,
    {
        let c = s.get_char(i);
        proof {
            assert(body[i - ds] == s@[i as int]);
        }
        if char_digit(c).is_none() {
            proof {
                assert(!is_dec_digit(body[i - ds]));
                assert(!all_dec_digits(body));
                assert(signed_text_val(seg) is None);
            }
            return 0;
        }
        i += 1;
    }
    proof {
        assert(all_dec_digits(body));
        lemma_digits_val_nonneg(body);
    }
    // Second pass: the value of the digits, watched for overflow.
    let val: Option<u64> = digits_region_val(s, ds, hi);
    match val {
        None => 0,
        Some(a) => {
            if neg {
                if a <= 0x8000_0000 {
                    (-(a as i64)) as i32
                } else {
                    0
                }
            } else {
                if a <= 0x7FFF_FFFF {
                    a as i32
                } else {
                    0
                }
            }
        },
    }
}

} // verus!
