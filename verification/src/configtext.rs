//! The configuration file's structured text form: a single flat object in
//! braces holding quoted keys and scalar values (booleans, integers,
//! quoted strings), as the persistence layer writes it.
//!
//! The reading side is deliberately forgiving at the field level: a value
//! is kept together with the three typed readings of it (as a boolean, as
//! an integer, as a string), and a reading that does not apply is simply
//! absent, so a field with a value of the wrong shape falls back to its
//! default on its own.  Text that does not have the object shape at all
//! denotes nothing, and the caller falls back to a fully defaulted
//! configuration.

use vstd::prelude::*;
use vstd::string::StrSliceExecFns;
use crate::digits::{
    is_dec_digit, digits_val, char_digit, digits_region_val, lemma_digits_val_nonneg,
};

verus! {

/// The three typed readings of one scalar value: as a boolean, as an
/// integer, and as a string.  A reading that does not apply is `None`.
pub type ScalarView = (Option<bool>, Option<i32>, Option<Seq<char>>);

/// The readings of the four configuration keys, in file order: enabled,
/// backlighting level, start time, end time.  A key never seen is `None`.
pub type FieldsView = (Option<bool>, Option<i32>, Option<Seq<char>>, Option<Seq<char>>);

/// Reads the characters of a quoted string after its opening quote, up to
/// and past the closing quote.  An escape or a missing close denotes
/// nothing.
pub open spec fn parse_str_chars(s: Seq<char>, i: int) -> Option<(Seq<char>, int)>
    decreases s.len() - i,
{
    if 0 <= i < s.len() {
        if s[i] == '"' {
            Some((Seq::empty(), i + 1))
        } else if s[i] == '\\' {
            None
        } else {
            match parse_str_chars(s, i + 1) {
                Some((t, j)) => Some((seq![s[i]] + t, j)),
                None => None,
            }
        }
    } else {
        None
    }
}

/// Reads a quoted string at `i`: its content and the position after it.
pub open spec fn parse_string(s: Seq<char>, i: int) -> Option<(Seq<char>, int)> {
    if 0 <= i < s.len() && s[i] == '"' {
        parse_str_chars(s, i + 1)
    } else {
        None
    }
}

/// The end of the run of digit characters beginning at `i`.
pub open spec fn digit_run_end(s: Seq<char>, i: int) -> int
    decreases s.len() - i,
{
    if 0 <= i < s.len() && is_dec_digit(s[i]) {
        digit_run_end(s, i + 1)
    } else {
        i
    }
}

/// Reads a number at `i`: an optional minus sign, digits, and an optional
/// fraction.  The integer reading is present when the number is a whole
/// one that fits an `i32`.
pub open spec fn parse_number(s: Seq<char>, i: int) -> Option<(Option<i32>, int)> {
    let ds = if 0 <= i < s.len() && s[i] == '-' {
        i + 1
    } else {
        i
    };
    let de = digit_run_end(s, ds);
    if de == ds {
        None
    } else {
        let mag = digits_val(s.subrange(ds, de));
        let v = if ds > i {
            -mag
        } else {
            mag
        };
        if de < s.len() && s[de] == '.' {
            let fe = digit_run_end(s, de + 1);
            if fe == de + 1 {
                None
            } else {
                Some((None, fe))
            }
        } else {
            Some(
                (
                    if i32::MIN <= v && v <= i32::MAX {
                        Some(v as i32)
                    } else {
                        None
                    },
                    de,
                ),
            )
        }
    }
}

/// Whether the word `w` stands letter for letter at position `i` of `s`.
pub open spec fn lit_at(s: Seq<char>, i: int, w: Seq<char>) -> bool {
    0 <= i && i + w.len() <= s.len() && s.subrange(i, i + w.len()) == w
}

/// Reads one scalar value at `i`: a quoted string, one of the words
/// `true`, `false` and `null`, or a number.
pub open spec fn parse_value(s: Seq<char>, i: int) -> Option<(ScalarView, int)> {
    if !(0 <= i < s.len()) {
        None
    } else if s[i] == '"' {
        match parse_string(s, i) {
            Some((t, j)) => Some(((None, None, Some(t)), j)),
            None => None,
        }
    } else if s[i] == 't' {
        if lit_at(s, i, "true"@) {
            Some(((Some(true), None, None), i + 4))
        } else {
            None
        }
    } else if s[i] == 'f' {
        if lit_at(s, i, "false"@) {
            Some(((Some(false), None, None), i + 5))
        } else {
            None
        }
    } else if s[i] == 'n' {
        if lit_at(s, i, "null"@) {
            Some(((None, None, None), i + 4))
        } else {
            None
        }
    } else {
        match parse_number(s, i) {
            Some((v, j)) => Some(((None, v, None), j)),
            None => None,
        }
    }
}

/// Reads one `"key":value` pair at `i`.
pub open spec fn parse_pair(s: Seq<char>, i: int) -> Option<((Seq<char>, ScalarView), int)> {
    match parse_string(s, i) {
        Some((k, j)) => {
            if j < s.len() && s[j] == ':' {
                match parse_value(s, j + 1) {
                    Some((v, e)) => Some(((k, v), e)),
                    None => None,
                }
            } else {
                None
            }
        },
        None => None,
    }
}

/// Records one pair in the four field readings; a later pair under the
/// same key overwrites an earlier one, and an unknown key changes nothing.
pub open spec fn apply_pair(c: FieldsView, k: Seq<char>, v: ScalarView) -> FieldsView {
    if k == "enabled"@ {
        (v.0, c.1, c.2, c.3)
    } else if k == "backlighting_level"@ {
        (c.0, v.1, c.2, c.3)
    } else if k == "start_time"@ {
        (c.0, c.1, v.2, c.3)
    } else if k == "end_time"@ {
        (c.0, c.1, c.2, v.2)
    } else {
        c
    }
}

/// Reads a comma-separated run of pairs beginning at `i` into the field
/// readings `c`, ending before the character that follows the last pair.
pub open spec fn parse_members(s: Seq<char>, i: int, c: FieldsView) -> Option<(FieldsView, int)>
    decreases s.len() - i,
    via parse_members_dec
{
    match parse_pair(s, i) {
        Some(((k, v), j)) => {
            let c2 = apply_pair(c, k, v);
            if j < s.len() && s[j] == ',' {
                parse_members(s, j + 1, c2)
            } else {
                Some((c2, j))
            }
        },
        None => None,
    }
}

#[via_fn]
proof fn parse_members_dec(s: Seq<char>, i: int, c: FieldsView) {
    lemma_parse_pair_advances(s, i);
}

/// Reads a whole configuration object: braces around the pairs, with
/// nothing before or after.
pub open spec fn parse_config_fields(s: Seq<char>) -> Option<FieldsView> {
    if s.len() == 2 && s[0] == '{' && s[1] == '}' {
        Some((None, None, None, None))
    } else if s.len() >= 2 && s[0] == '{' {
        match parse_members(s, 1, (None, None, None, None)) {
            Some((c, j)) => {
                if j + 1 == s.len() && s[j] == '}' {
                    Some(c)
                } else {
                    None
                }
            },
            None => None,
        }
    } else {
        None
    }
}

pub proof fn lemma_parse_str_chars_advances(s: Seq<char>, i: int)
    ensures
        parse_str_chars(s, i) matches Some((t, j)) ==> i < j <= s.len(),
    decreases s.len() - i,
{
    if 0 <= i < s.len() && s[i] != '"' && s[i] != '\\' {
        lemma_parse_str_chars_advances(s, i + 1);
    }
}

pub proof fn lemma_digit_run_end_bounds(s: Seq<char>, i: int)
    ensures
        i <= digit_run_end(s, i),
        i <= s.len() ==> digit_run_end(s, i) <= s.len(),
    decreases s.len() - i,
{
    if 0 <= i < s.len() && is_dec_digit(s[i]) {
        lemma_digit_run_end_bounds(s, i + 1);
    }
}

pub proof fn lemma_parse_value_advances(s: Seq<char>, i: int)
    ensures
        parse_value(s, i) matches Some((v, j)) ==> i < j <= s.len(),
{
    if 0 <= i < s.len() {
        if s[i] == '"' {
            lemma_parse_str_chars_advances(s, i + 1);
        } else if s[i] == 't' || s[i] == 'f' || s[i] == 'n' {
            reveal_strlit("true");
            reveal_strlit("false");
            reveal_strlit("null");
        } else {
            let ds = if s[i] == '-' {
                i + 1
            } else {
                i
            };
            lemma_digit_run_end_bounds(s, ds);
            let de = digit_run_end(s, ds);
            if de != ds && de < s.len() && s[de] == '.' {
                lemma_digit_run_end_bounds(s, de + 1);
            }
        }
    }
}

pub proof fn lemma_parse_pair_advances(s: Seq<char>, i: int)
    ensures
        parse_pair(s, i) matches Some((kv, j)) ==> i < j <= s.len(),
{
    lemma_parse_str_chars_advances(s, i + 1);
    match parse_string(s, i) {
        Some((k, j)) => {
            lemma_parse_value_advances(s, j + 1);
        },
        None => {},
    }
}

/// A clean run of characters closed by a quote reads back as itself.
pub proof fn lemma_str_chars_closed(s: Seq<char>, a: int, b: int)
    requires
        0 <= a <= b < s.len(),
        s[b] == '"',
        forall|j: int| a <= j < b ==> s[j] != '"' && s[j] != '\\',
    ensures
        parse_str_chars(s, a) == Some((s.subrange(a, b), b + 1)),
    decreases b - a,
{
    if a == b {
        assert(s.subrange(a, b) =~= Seq::<char>::empty());
    } else {
        lemma_str_chars_closed(s, a + 1, b);
        assert(s.subrange(a, b) =~= seq![s[a]] + s.subrange(a + 1, b));
    }
}

/// A string without a proper close reads back as nothing.
pub proof fn lemma_str_chars_fails(s: Seq<char>, a: int, b: int)
    requires
        0 <= a <= b <= s.len(),
        forall|j: int| a <= j < b ==> s[j] != '"' && s[j] != '\\',
        b == s.len() || s[b] == '\\',
    ensures
        parse_str_chars(s, a) is None,
    decreases b - a,
{
    if a < b {
        lemma_str_chars_fails(s, a + 1, b);
    }
}

/// A run of digits bounded by a non-digit ends exactly at the bound.
pub proof fn lemma_digit_run_scan(s: Seq<char>, a: int, b: int)
    requires
        0 <= a <= b <= s.len(),
        forall|j: int| a <= j < b ==> is_dec_digit(s[j]),
        b == s.len() || !is_dec_digit(s[b]),
    ensures
        digit_run_end(s, a) == b,
    decreases b - a,
{
    if a < b {
        lemma_digit_run_scan(s, a + 1, b);
    }
}

/// Finds the closing quote of the string opened at `i`: the content is the
/// region between the quotes.
fn take_string(s: &str, i: usize) -> (r: Option<usize>)
    requires
        i <= s@.len(),
    ensures
        match r {
            Some(ce) => i < ce < s@.len() && parse_string(s@, i as int) == Some(
                (s@.subrange(i + 1, ce as int), ce + 1),
            ),
            None => parse_string(s@, i as int) is None,
        },
{
    let n: usize = s.unicode_len();
    if i >= n {
        return None;
    }
    if s.get_char(i) != '"' {
        return None;
    }
    let mut j: usize = i + 1;
    while j < n
        invariant
            i + 1 <= j <= n == s@.len(),
            s@[i as int] == '"',
            forall|k: int| i + 1 <= k < j ==> s@[k] != '"' && s@[k] != '\\',
        decreases n - j,
    {
        let c = s.get_char(j);
        if c == '"' {
            proof {
                lemma_str_chars_closed(s@, i + 1, j as int);
            }
            return Some(j);
        }
        if c == '\\' {
            proof {
                lemma_str_chars_fails(s@, i + 1, j as int);
            }
            return None;
        }
        j += 1;
    }
    proof {
        lemma_str_chars_fails(s@, i + 1, n as int);
    }
    None
}

/// Finds the end of the digit run beginning at `from`.
fn digit_end(s: &str, from: usize) -> (e: usize)
    requires
        from <= s@.len(),
    ensures
        from <= e <= s@.len(),
        digit_run_end(s@, from as int) == e as int,
        forall|k: int| from <= k < e ==> is_dec_digit(s@[k]),
{
    let n: usize = s.unicode_len();
    let mut e: usize = from;
    while e < n
        invariant
            from <= e <= n == s@.len(),
            forall|k: int| from <= k < e ==> is_dec_digit(s@[k]),
        decreases n - e,
    {
        let c = s.get_char(e);
        if char_digit(c).is_none() {
            proof {
                lemma_digit_run_scan(s@, from as int, e as int);
            }
            return e;
        }
        e += 1;
    }
    proof {
        lemma_digit_run_scan(s@, from as int, n as int);
    }
    e
}

/// Reads a number beginning at `i`, as the grammar has it.
fn take_number(s: &str, i: usize) -> (r: Option<(Option<i32>, usize)>)
    requires
        i < s@.len(),
    ensures
        match r {
            Some((v, nxt)) => i < nxt <= s@.len() && parse_number(s@, i as int) == Some(
                (v, nxt as int),
            ),
            None => parse_number(s@, i as int) is None,
        },
{
    let n: usize = s.unicode_len();
    let neg: bool = s.get_char(i) == '-';
    let ds: usize = if neg {
        i + 1
    } else {
        i
    };
    let de: usize = digit_end(s, ds);
    if de == ds {
        return None;
    }
    let ghost digs = s@.subrange(ds as int, de as int);
    proof {
        lemma_digits_val_nonneg(digs);
    }
    let v: Option<u64> = digits_region_val(s, ds, de);
    if de < n && s.get_char(de) == '.' {
        let fe: usize = digit_end(s, de + 1);
        if fe == de + 1 {
            return None;
        }
        return Some((None, fe));
    }
    match v {
        None => Some((None, de)),
        Some(a) => {
            if neg {
                if a <= 0x8000_0000 {
                    Some((Some((-(a as i64)) as i32), de))
                } else {
                    Some((None, de))
                }
            } else {
                if a <= 0x7FFF_FFFF {
                    Some((Some(a as i32), de))
                } else {
                    Some((None, de))
                }
            }
        },
    }
}

/// Whether the word `w` stands letter for letter at position `i`.
fn expect_lit(s: &str, i: usize, w: &str) -> (r: bool)
    requires
        i <= s@.len(),
    ensures
        r == lit_at(s@, i as int, w@),
{
    let n: usize = s.unicode_len();
    let wn: usize = w.unicode_len();
    if n - i < wn {
        return false;
    }
    let mut j: usize = 0;
    while j < wn
        invariant
            j <= wn == w@.len(),
            i + wn <= n == s@.len(),
            forall|k: int| 0 <= k < j ==> s@[i + k] == w@[k],
        decreases wn - j,
    {
        if s.get_char(i + j) != w.get_char(j) {
            proof {
                assert(s@.subrange(i as int, i + wn) != w@) by {
                    assert(s@.subrange(i as int, i + wn)[j as int] != w@[j as int]);
                }
            }
            return false;
        }
        j += 1;
    }
    proof {
        assert(s@.subrange(i as int, i + wn) =~= w@);
    }
    true
}

/// Reads one scalar value at `i`: the typed readings (string content as a
/// region of `s`) and the position after the value.
fn take_value(s: &str, i: usize) -> (r: Option<
    ((Option<bool>, Option<i32>, Option<(usize, usize)>), usize),
>)
    requires
        i <= s@.len(),
    ensures
        match r {
            Some(((vb, vn, vs), nxt)) => {
                &&& i < nxt <= s@.len()
                &&& match vs {
                    Some((lo, hi)) => lo <= hi <= s@.len() && parse_value(s@, i as int) == Some(
                        ((vb, vn, Some(s@.subrange(lo as int, hi as int))), nxt as int),
                    ),
                    None => parse_value(s@, i as int) == Some(
                        ((vb, vn, None::<Seq<char>>), nxt as int),
                    ),
                }
            },
            None => parse_value(s@, i as int) is None,
        },
{
    let n: usize = s.unicode_len();
    if i >= n {
        return None;
    }
    let c = s.get_char(i);
    if c == '"' {
        match take_string(s, i) {
            Some(ce) => Some(((None, None, Some((i + 1, ce))), ce + 1)),
            None => None,
        }
    } else if c == 't' {
        proof {
            reveal_strlit("true");
        }
        if expect_lit(s, i, "true") {
            Some(((Some(true), None, None), i + 4))
        } else {
            None
        }
    } else if c == 'f' {
        proof {
            reveal_strlit("false");
        }
        if expect_lit(s, i, "false") {
            Some(((Some(false), None, None), i + 5))
        } else {
            None
        }
    } else if c == 'n' {
        proof {
            reveal_strlit("null");
        }
        if expect_lit(s, i, "null") {
            Some(((None, None, None), i + 4))
        } else {
            None
        }
    } else {
        match take_number(s, i) {
            Some((v, nxt)) => Some(((None, v, None), nxt)),
            None => None,
        }
    }
}

/// The four field readings with string contents as regions of `s`.
pub open spec fn fields_view(
    s: Seq<char>,
    f: (Option<bool>, Option<i32>, Option<(usize, usize)>, Option<(usize, usize)>),
) -> FieldsView {
    (
        f.0,
        f.1,
        match f.2 {
            Some((lo, hi)) => Some(s.subrange(lo as int, hi as int)),
            None => None,
        },
        match f.3 {
            Some((lo, hi)) => Some(s.subrange(lo as int, hi as int)),
            None => None,
        },
    )
}

/// Whether the regions held in the field readings lie inside `s`.
pub open spec fn fields_wf(
    s: Seq<char>,
    f: (Option<bool>, Option<i32>, Option<(usize, usize)>, Option<(usize, usize)>),
) -> bool {
    &&& match f.2 {
        Some((lo, hi)) => lo <= hi <= s.len(),
        None => true,
    }
    &&& match f.3 {
        Some((lo, hi)) => lo <= hi <= s.len(),
        None => true,
    }
}

/// Reads the run of pairs beginning at `start` into the four field
/// readings, with string contents as regions of `s`.
pub fn take_members(s: &str, start: usize) -> (r: Option<
    ((Option<bool>, Option<i32>, Option<(usize, usize)>, Option<(usize, usize)>), usize),
>)
    requires
        start <= s@.len(),
    ensures
        match r {
            Some((f, nxt)) => {
                &&& nxt <= s@.len()
                &&& fields_wf(s@, f)
                &&& parse_members(s@, start as int, (None, None, None, None)) == Some(
                    (fields_view(s@, f), nxt as int),
                )
            },
            None => parse_members(s@, start as int, (None, None, None, None)) is None,
        },
{
    let n: usize = s.unicode_len();
    let mut cur: (Option<bool>, Option<i32>, Option<(usize, usize)>, Option<(usize, usize)>) = (
        None,
        None,
        None,
        None,
    );
    let mut i: usize = start;
    loop
        invariant
            start <= i <= n == s@.len(),
            fields_wf(s@, cur),
            parse_members(s@, start as int, (None, None, None, None)) == parse_members(
                s@,
                i as int,
                fields_view(s@, cur),
            ),
        decreases n - i,
    {
        let ghost prev = cur;
        let ks = match take_string(s, i) {
            Some(ce) => ce,
            None => {
                proof {
                    assert(parse_pair(s@, i as int) is None);
                    assert(parse_members(s@, i as int, fields_view(s@, prev)) is None);
                }
                return None;
            },
        };
        let ghost key = s@.subrange(i + 1, ks as int);
        let j: usize = ks + 1;
        if j >= n || s.get_char(j) != ':' {
            proof {
                assert(parse_pair(s@, i as int) is None);
                assert(parse_members(s@, i as int, fields_view(s@, prev)) is None);
            }
            return None;
        }
        let (val, nxt) = match take_value(s, j + 1) {
            Some((v, e)) => (v, e),
            None => {
                proof {
                    assert(parse_pair(s@, i as int) is None);
                    assert(parse_members(s@, i as int, fields_view(s@, prev)) is None);
                }
                return None;
            },
        };
        let ghost sv: ScalarView = (
            val.0,
            val.1,
            match val.2 {
                Some((lo, hi)) => Some(s@.subrange(lo as int, hi as int)),
                None => None,
            },
        );
        proof {
            assert(parse_pair(s@, i as int) == Some(((key, sv), nxt as int)));
            reveal_strlit("enabled");
            reveal_strlit("backlighting_level");
            reveal_strlit("start_time");
            reveal_strlit("end_time");
        }
        // Record the pair under whichever known key it names.
        if region_eq_lit(s, i + 1, ks, "enabled") {
            cur = (val.0, cur.1, cur.2, cur.3);
        } else if region_eq_lit(s, i + 1, ks, "backlighting_level") {
            cur = (cur.0, val.1, cur.2, cur.3);
        } else if region_eq_lit(s, i + 1, ks, "start_time") {
            cur = (cur.0, cur.1, val.2, cur.3);
        } else if region_eq_lit(s, i + 1, ks, "end_time") {
            cur = (cur.0, cur.1, cur.2, val.2);
        }
        proof {
            assert(fields_view(s@, cur) == apply_pair(fields_view(s@, prev), key, sv));
        }
        if nxt < n && s.get_char(nxt) == ',' {
            proof {
                assert(parse_members(s@, i as int, fields_view(s@, prev)) == parse_members(
                    s@,
                    nxt + 1,
                    fields_view(s@, cur),
                ));
            }
            i = nxt + 1;
        } else {
            proof {
                assert(parse_members(s@, i as int, fields_view(s@, prev)) == Some(
                    (fields_view(s@, cur), nxt as int),
                ));
            }
            return Some((cur, nxt));
        }
    }
}

/// Whether the region `[lo, hi)` of `s` spells the word `w`.
fn region_eq_lit(s: &str, lo: usize, hi: usize, w: &str) -> (r: bool)
    requires
        lo <= hi <= s@.len(),
    ensures
        r == (s@.subrange(lo as int, hi as int) == w@),
{
    let wn: usize = w.unicode_len();
    if hi - lo != wn {
        proof {
            assert(s@.subrange(lo as int, hi as int).len() != w@.len());
        }
        return false;
    }
    let mut j: usize = 0;
    while j < wn
        invariant
            j <= wn == w@.len(),
            lo <= hi <= s@.len(),
            hi - lo == wn,
            forall|k: int| 0 <= k < j ==> s@[lo + k] == w@[k],
        decreases wn - j,
    {
        if s.get_char(lo + j) != w.get_char(j) {
            proof {
                assert(s@.subrange(lo as int, hi as int)[j as int] != w@[j as int]);
            }
            return false;
        }
        j += 1;
    }
    proof {
        assert(s@.subrange(lo as int, hi as int) =~= w@);
    }
    true
}

} // verus!
