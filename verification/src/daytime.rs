//! The time-of-day value and the night-window membership predicate.
//!
//! A window runs from a start time to an end time and may wrap past
//! midnight (start hour greater than end hour).  Membership follows the
//! branch structure below to the letter: on a same-day window the boundary
//! hours check one minute bound each, every other hour falls through to a
//! check of both minute bounds, and on a wrapping window only the hour is
//! consulted.

use vstd::prelude::*;
use vstd::string::StrSliceExecFns;
use vstd::string::StringExecFns;
use crate::digits::{
    int_text, is_dec_digit, parse_i32_or_zero, push_i32_text, parse_i32_region,
    lemma_int_text_chars, lemma_parse_int_round_trip,
};

verus! {

/// An hour/minute pair.  Values outside the conventional clock ranges are
/// accepted and compared arithmetically; callers supply sane clock values.
#[derive(Clone, Copy, Debug, PartialEq, Eq, Structural)]
pub struct Time {
    pub hours: i32,
    pub minutes: i32,
}

/// The compact text form of a time: hours, a colon, minutes, each in
/// plain decimal with no padding.
pub open spec fn time_text(t: Time) -> Seq<char> {
    int_text(t.hours as int) + seq![':'] + int_text(t.minutes as int)
}

/// Whether position `i` splits `s` into exactly two colon-free fields.
pub open spec fn is_colon_split(s: Seq<char>, i: int) -> bool {
    &&& 0 <= i < s.len()
    &&& s[i] == ':'
    &&& forall|j: int| 0 <= j < i ==> s[j] != ':'
    &&& forall|j: int| i < j < s.len() ==> s[j] != ':'
}

/// The time a piece of text denotes.  Text that does not split into
/// exactly two fields denotes the zero time; each field falls back to
/// zero on its own when it is not an integer.
pub open spec fn time_of_text(s: Seq<char>) -> Time {
    if exists|i: int| is_colon_split(s, i) {
        let i = choose|i: int| is_colon_split(s, i);
        Time {
            hours: parse_i32_or_zero(s.subrange(0, i)),
            minutes: parse_i32_or_zero(s.subrange(i + 1, s.len() as int)),
        }
    } else {
        Time { hours: 0, minutes: 0 }
    }
}

/// A colon splits a sequence in at most one place.
pub proof fn lemma_colon_split_unique(s: Seq<char>, i: int, j: int)
    requires
        is_colon_split(s, i),
        is_colon_split(s, j),
    ensures
        i == j,
{
    if i < j {
        assert(s[j] != ':');
    } else if j < i {
        assert(s[i] != ':');
    }
}

impl Time {
    /// The zero time, midnight.
    pub fn new() -> (t: Time)
        ensures
            t == (Time { hours: 0, minutes: 0 }),
    {
        Time { hours: 0, minutes: 0 }
    }

    /// Renders the time as its compact text form.
    pub fn to_string(&self) -> (r: String)
        ensures
            r@ == time_text(*self),
    {
        let mut out = String::new();
        push_i32_text(&mut out, self.hours);
        proof {
            reveal_strlit(":");
        }
        out.append(":");
        push_i32_text(&mut out, self.minutes);
        proof {
            assert(out@ =~= time_text(*self));
        }
        out
    }

    /// Reads a time back from text: the two colon-separated fields each
    /// parse or fall back to zero; text without exactly two fields gives
    /// the zero time.
    pub fn from_string(text: String) -> (t: Time)
        ensures
            t == time_of_text(text@),
    {
        let s = text.as_str();
        let n: usize = s.unicode_len();
        let mut split: Option<usize> = None;
        let mut i: usize = 0;
        while i < n
            invariant
                i <= n == s@.len(),
                s@ == text@,
                match split {
                    None => forall|j: int| 0 <= j < i ==> s@[j] != ':',
                    Some(p) => {
                        &&& p < i
                        &&& s@[p as int] == ':'
                        &&& forall|j: int| 0 <= j < p ==> s@[j] != ':'
                        &&& forall|j: int| p < j < i ==> s@[j] != ':'
                    },
                },
            decreases n - i,
        {
            let c = s.get_char(i);
            if c == ':' {
                match split {
                    None => {
                        split = Some(i);
                    },
                    Some(p) => {
                        // A second colon: more than two fields.
                        proof {
                            assert forall|k: int| !is_colon_split(s@, k) by {
                                if is_colon_split(s@, k) {
                                    if k < i {
                                        assert(s@[i as int] == ':');
                                    } else {
                                        assert(s@[p as int] == ':');
                                    }
                                }
                            }
                        }
                        return Time { hours: 0, minutes: 0 };
                    },
                }
            }
            i += 1;
        }
        match split {
            None => {
                proof {
                    assert forall|k: int| !is_colon_split(s@, k) by {
                        if is_colon_split(s@, k) {
                            assert(s@[k] == ':');
                        }
                    }
                }
                Time { hours: 0, minutes: 0 }
            },
            Some(p) => {
                let hours: i32 = parse_i32_region(s, 0, p);
                let minutes: i32 = parse_i32_region(s, p + 1, n);
                proof {
                    assert(is_colon_split(s@, p as int));
                    let q = choose|k: int| is_colon_split(s@, k);
                    lemma_colon_split_unique(s@, p as int, q);
                }
                Time { hours, minutes }
            },
        }
    }
}

/// Every character of a time's text is a sign, a colon or a digit; in
/// particular none is a quote or a backslash.
pub proof fn lemma_time_text_chars(t: Time)
    ensures
        forall|j: int|
            0 <= j < time_text(t).len() ==> (time_text(t)[j] == '-' || time_text(t)[j] == ':'
                || is_dec_digit(time_text(t)[j])),
{
    lemma_int_text_chars(t.hours as int);
    lemma_int_text_chars(t.minutes as int);
    let a = int_text(t.hours as int);
    let b = int_text(t.minutes as int);
    let s = time_text(t);
    assert forall|j: int| 0 <= j < s.len() implies (s[j] == '-' || s[j] == ':' || is_dec_digit(
        s[j],
    )) by {
        if j < a.len() {
            assert(s[j] == a[j]);
        } else if j == a.len() {
            assert(s[j] == ':');
        } else {
            assert(s[j] == b[j - a.len() - 1]);
        }
    }
}

/// Reading a time's text back gives the time: the round trip holds for
/// every hour/minute pair, well-formed clock values included.
pub proof fn lemma_time_text_round_trip(t: Time)
    ensures
        time_of_text(time_text(t)) == t,
{
    let a = int_text(t.hours as int);
    let b = int_text(t.minutes as int);
    let s = time_text(t);
    lemma_int_text_chars(t.hours as int);
    lemma_int_text_chars(t.minutes as int);
    let p = a.len() as int;
    assert(s[p] == ':');
    assert(is_colon_split(s, p)) by {
        assert forall|j: int| 0 <= j < p implies s[j] != ':' by {
            assert(s[j] == a[j]);
        }
        assert forall|j: int| p < j < s.len() implies s[j] != ':' by {
            assert(s[j] == b[j - p - 1]);
        }
    }
    let q = choose|k: int| is_colon_split(s, k);
    lemma_colon_split_unique(s, p, q);
    assert(s.subrange(0, p) =~= a);
    assert(s.subrange(p + 1, s.len() as int) =~= b);
    lemma_parse_int_round_trip(t.hours);
    lemma_parse_int_round_trip(t.minutes);
}

/// Whether a clock reading `(hour, minute)` lies inside the window from
/// `start` to `end`, by the literal branch logic:
/// - same-day window (`start.hours <= end.hours`):
///   - at the start hour of a strictly later-ending window, inside iff the
///     minute has reached the start minute;
///   - at the end hour past the start hour, inside iff the minute has not
///     passed the end minute;
///   - at any other hour, inside iff the minute lies between the start and
///     end minutes (a fallback kept as it stands, even where the hour alone
///     would settle the question);
/// - wrapping window (`start.hours > end.hours`): inside iff the hour has
///   reached the start hour or not passed the end hour; minutes are ignored.
pub open spec fn in_window(hour: int, minute: int, start: Time, end: Time) -> bool {
    if start.hours <= end.hours {
        if hour == start.hours && hour < end.hours {
            minute >= start.minutes
        } else if hour > start.hours && hour == end.hours {
            minute <= end.minutes
        } else {
            minute >= start.minutes && minute <= end.minutes
        }
    } else {
        hour >= start.hours || hour <= end.hours
    }
}

/// A clock reading that can be tested against a window.
pub trait IsBetween {
    spec fn spec_hours(&self) -> int;

    spec fn spec_minutes(&self) -> int;

    fn is_between(&self, start: &Time, end: &Time) -> (r: bool)
        ensures
            r == in_window(self.spec_hours(), self.spec_minutes(), *start, *end),
    ;
}

impl IsBetween for Time {
    open spec fn spec_hours(&self) -> int {
        self.hours as int
    }

    open spec fn spec_minutes(&self) -> int {
        self.minutes as int
    }

    fn is_between(&self, start: &Time, end: &Time) -> (r: bool) {
        if start.hours <= end.hours {
            if self.hours == start.hours && self.hours < end.hours {
                return self.minutes >= start.minutes;
            }
            if self.hours > start.hours && self.hours == end.hours {
                return self.minutes <= end.minutes;
            }
            return self.minutes >= start.minutes && self.minutes <= end.minutes;
        }
        start.hours > end.hours && (self.hours >= start.hours || self.hours <= end.hours)
    }
}

/// Whether `now` falls inside the night window from `start` to `end`.
pub fn is_night_time(now: &Time, start: &Time, end: &Time) -> (r: bool)
    ensures
        r == in_window(now.hours as int, now.minutes as int, *start, *end),
{
    now.is_between(start, end)
}

} // verus!
