//! The user's persisted configuration: the enabled flag, the backlight
//! level, and the night window's start and end times.
//!
//! Loading is fault tolerant and never fails: text without the object
//! shape falls back to a fully defaulted configuration, and a field that
//! is absent or of the wrong shape falls back to its own default while
//! its siblings are kept.

use vstd::prelude::*;
use vstd::string::StrSliceExecFns;
use vstd::string::StringExecFns;
use crate::daytime::{
    Time, time_text, time_of_text, lemma_time_text_chars, lemma_time_text_round_trip,
};
use crate::digits::{
    int_text, push_i32_text, dec_digits, digits_val, is_dec_digit, lemma_dec_digits_shape,
    lemma_dec_digits_val,
};
use crate::configtext::{
    parse_config_fields, take_members, parse_string, parse_number, parse_value, parse_pair,
    parse_members, apply_pair, digit_run_end, lemma_str_chars_closed, lemma_digit_run_scan,
    FieldsView,
};

verus! {

/// The four user-tunable values.
#[derive(Clone, Copy, Debug, PartialEq, Eq, Structural)]
pub struct Configuration {
    pub enabled: bool,
    pub backlighting_level: i32,
    pub start_time: Time,
    pub end_time: Time,
}

/// The configuration assumed when nothing usable is stored: night mode
/// off, level zero, window from 21:00 to 7:00.
pub open spec fn default_configuration() -> Configuration {
    Configuration {
        enabled: false,
        backlighting_level: 0,
        start_time: Time { hours: 21, minutes: 0 },
        end_time: Time { hours: 7, minutes: 0 },
    }
}

/// The configuration a piece of stored text denotes.  Text without the
/// object shape denotes the full defaults; within the object shape, the
/// enabled flag falls back to false, the level to zero, and each time
/// field to the zero time, each on its own.
pub open spec fn config_of_text(s: Seq<char>) -> Configuration {
    match parse_config_fields(s) {
        Some(f) => Configuration {
            enabled: match f.0 {
                Some(b) => b,
                None => false,
            },
            backlighting_level: match f.1 {
                Some(v) => v,
                None => 0,
            },
            start_time: match f.2 {
                Some(t) => time_of_text(t),
                None => Time { hours: 0, minutes: 0 },
            },
            end_time: match f.3 {
                Some(t) => time_of_text(t),
                None => Time { hours: 0, minutes: 0 },
            },
        },
        None => default_configuration(),
    }
}

/// The text of a boolean value.
pub open spec fn bool_text(b: bool) -> Seq<char> {
    if b {
        "true"@
    } else {
        "false"@
    }
}

/// The stored text form of a configuration: one flat object holding the
/// four keys, the times quoted in their compact text form.
pub open spec fn config_text(c: Configuration) -> Seq<char> {
    "{\"enabled\":"@ + bool_text(c.enabled) + ",\"backlighting_level\":"@ + int_text(
        c.backlighting_level as int,
    ) + ",\"start_time\":\""@ + time_text(c.start_time) + "\",\"end_time\":\""@ + time_text(
        c.end_time,
    ) + "\"}"@
}

/// The full defaults as a value.
fn default_configuration_exec() -> (c: Configuration)
    ensures
        c == default_configuration(),
{
    Configuration {
        enabled: false,
        backlighting_level: 0,
        start_time: Time { hours: 21, minutes: 0 },
        end_time: Time { hours: 7, minutes: 0 },
    }
}

impl Configuration {
    /// Renders the configuration as its stored text form.
    pub fn to_json(&self) -> (r: String)
        ensures
            r@ == config_text(*self),
    {
        proof {
            reveal_strlit("{\"enabled\":");
            reveal_strlit("true");
            reveal_strlit("false");
            reveal_strlit(",\"backlighting_level\":");
            reveal_strlit(",\"start_time\":\"");
            reveal_strlit("\",\"end_time\":\"");
            reveal_strlit("\"}");
        }
        let mut out = String::new();
        out.append("{\"enabled\":");
        if self.enabled {
            out.append("true");
        } else {
            out.append("false");
        }
        out.append(",\"backlighting_level\":");
        push_i32_text(&mut out, self.backlighting_level);
        out.append(",\"start_time\":\"");
        let st = self.start_time.to_string();
        out.append(st.as_str());
        out.append("\",\"end_time\":\"");
        let et = self.end_time.to_string();
        out.append(et.as_str());
        out.append("\"}");
        proof {
            assert(out@ =~= config_text(*self));
        }
        out
    }

    /// Decodes stored text into a configuration, with the fallbacks the
    /// format promises.
    pub fn from_text(text: &str) -> (c: Configuration)
        ensures
            c == config_of_text(text@),
    {
        let n: usize = text.unicode_len();
        if n < 2 || text.get_char(0) != '{' {
            return default_configuration_exec();
        }
        if n == 2 && text.get_char(1) == '}' {
            // An empty object: every field falls back on its own.
            return Configuration {
                enabled: false,
                backlighting_level: 0,
                start_time: Time::new(),
                end_time: Time::new(),
            };
        }
        match take_members(text, 1) {
            Some((f, j)) => {
                if j == n - 1 && text.get_char(j) == '}' {
                    let enabled: bool = match f.0 {
                        Some(b) => b,
                        None => false,
                    };
                    let backlighting_level: i32 = match f.1 {
                        Some(v) => v,
                        None => 0,
                    };
                    let start_time: Time = match f.2 {
                        Some((lo, hi)) => Time::from_string(
                            String::from_str(text.substring_char(lo, hi)),
                        ),
                        None => Time::new(),
                    };
                    let end_time: Time = match f.3 {
                        Some((lo, hi)) => Time::from_string(
                            String::from_str(text.substring_char(lo, hi)),
                        ),
                        None => Time::new(),
                    };
                    Configuration { enabled, backlighting_level, start_time, end_time }
                } else {
                    default_configuration_exec()
                }
            },
            None => default_configuration_exec(),
        }
    }
}

/// Collects the four values, each starting from its default, and hands
/// out the finished configuration.
pub struct ConfigurationBuilder {
    pub enabled: bool,
    pub backlighting_level: i32,
    pub start_time: Time,
    pub end_time: Time,
}

impl ConfigurationBuilder {
    /// Starts from the defaults: disabled, level zero, 21:00 to 7:00.
    pub fn new() -> (b: ConfigurationBuilder)
        ensures
            b.enabled == false,
            b.backlighting_level == 0,
            b.start_time == (Time { hours: 21, minutes: 0 }),
            b.end_time == (Time { hours: 7, minutes: 0 }),
    {
        ConfigurationBuilder {
            enabled: false,
            backlighting_level: 0,
            start_time: Time { hours: 21, minutes: 0 },
            end_time: Time { hours: 7, minutes: 0 },
        }
    }

    /// Sets the enabled flag.
    pub fn enabled(self, enabled: bool) -> (b: ConfigurationBuilder)
        ensures
            b.enabled == enabled,
            b.backlighting_level == self.backlighting_level,
            b.start_time == self.start_time,
            b.end_time == self.end_time,
    {
        ConfigurationBuilder {
            enabled,
            backlighting_level: self.backlighting_level,
            start_time: self.start_time,
            end_time: self.end_time,
        }
    }

    /// Sets the backlight level.
    pub fn backlight_level(self, backlighting_level: i32) -> (b: ConfigurationBuilder)
        ensures
            b.enabled == self.enabled,
            b.backlighting_level == backlighting_level,
            b.start_time == self.start_time,
            b.end_time == self.end_time,
    {
        ConfigurationBuilder {
            enabled: self.enabled,
            backlighting_level,
            start_time: self.start_time,
            end_time: self.end_time,
        }
    }

    /// Sets the window's start time.
    pub fn start_time(self, start_time: Time) -> (b: ConfigurationBuilder)
        ensures
            b.enabled == self.enabled,
            b.backlighting_level == self.backlighting_level,
            b.start_time == start_time,
            b.end_time == self.end_time,
    {
        ConfigurationBuilder {
            enabled: self.enabled,
            backlighting_level: self.backlighting_level,
            start_time,
            end_time: self.end_time,
        }
    }

    /// Sets the window's end time.
    pub fn end_time(self, end_time: Time) -> (b: ConfigurationBuilder)
        ensures
            b.enabled == self.enabled,
            b.backlighting_level == self.backlighting_level,
            b.start_time == self.start_time,
            b.end_time == end_time,
    {
        ConfigurationBuilder {
            enabled: self.enabled,
            backlighting_level: self.backlighting_level,
            start_time: self.start_time,
            end_time,
        }
    }

    /// The configuration as collected so far.
    pub fn finalize(&self) -> (c: Configuration)
        ensures
            c.enabled == self.enabled,
            c.backlighting_level == self.backlighting_level,
            c.start_time == self.start_time,
            c.end_time == self.end_time,
    {
        Configuration {
            enabled: self.enabled,
            backlighting_level: self.backlighting_level,
            start_time: self.start_time,
            end_time: self.end_time,
        }
    }
}

/// The offset of the comma before the level key in a configuration's
/// text.
spec fn off_e1(c: Configuration) -> int {
    11 + bool_text(c.enabled).len() as int
}

/// The offset of the comma before the start key.
spec fn off_m0(c: Configuration) -> int {
    off_e1(c) + 22 + int_text(c.backlighting_level as int).len() as int
}

/// The offset of the quote closing the start time.
spec fn off_t1e(c: Configuration) -> int {
    off_m0(c) + 15 + time_text(c.start_time).len() as int
}

/// The offset of the quote closing the end time.
spec fn off_t2e(c: Configuration) -> int {
    off_t1e(c) + 14 + time_text(c.end_time).len() as int
}

#[verifier::rlimit(100)]
proof fn lemma_round_trip_pair1(c: Configuration)
    ensures
        config_text(c)[0] == '{',
        config_text(c).len() == off_t2e(c) + 2,
        parse_pair(config_text(c), 1) == Some(
            (("enabled"@, (Some(c.enabled), None::<i32>, None::<Seq<char>>)), off_e1(c)),
        ),
{
    reveal_strlit("{\"enabled\":");
    reveal_strlit("true");
    reveal_strlit("false");
    reveal_strlit(",\"backlighting_level\":");
    reveal_strlit(",\"start_time\":\"");
    reveal_strlit("\",\"end_time\":\"");
    reveal_strlit("\"}");
    reveal_strlit("enabled");
    let s = config_text(c);
    let e1 = off_e1(c);
    assert(s.subrange(0, 11) =~= "{\"enabled\":"@);
    assert(s.subrange(11, e1) =~= bool_text(c.enabled));
    assert(s[0] == s.subrange(0, 11)[0] && s[1] == s.subrange(0, 11)[1]);
    assert(s[9] == s.subrange(0, 11)[9] && s[10] == s.subrange(0, 11)[10]);
    assert forall|j: int| 2 <= j < 9 implies s[j] != '"' && s[j] != '\\' by {
        assert(s[j] == s.subrange(0, 11)[j]);
    }
    lemma_str_chars_closed(s, 2, 9);
    assert(s.subrange(2, 9) =~= "enabled"@);
    assert(parse_string(s, 1) == Some(("enabled"@, 10int)));
    assert(s[11] == s.subrange(11, e1)[0]);
    let vb = (Some(c.enabled), None::<i32>, None::<Seq<char>>);
    assert(parse_value(s, 11) == Some((vb, e1))) by {
        if c.enabled {
            assert(s.subrange(11, 15) =~= "true"@);
        } else {
            assert(s.subrange(11, 16) =~= "false"@);
        }
    }
}

#[verifier::rlimit(100)]
proof fn lemma_round_trip_pair2(c: Configuration)
    ensures
        config_text(c)[off_e1(c)] == ',',
        parse_pair(config_text(c), off_e1(c) + 1) == Some(
            (
                ("backlighting_level"@, (None::<bool>, Some(c.backlighting_level), None::<
                    Seq<char>,
                >)),
                off_m0(c),
            ),
        ),
{
    reveal_strlit("{\"enabled\":");
    reveal_strlit("true");
    reveal_strlit("false");
    reveal_strlit(",\"backlighting_level\":");
    reveal_strlit(",\"start_time\":\"");
    reveal_strlit("\",\"end_time\":\"");
    reveal_strlit("\"}");
    reveal_strlit("backlighting_level");
    let s = config_text(c);
    let e1 = off_e1(c);
    let e2 = e1 + 22;
    let m0 = off_m0(c);
    let nt = int_text(c.backlighting_level as int);
    assert(s.subrange(e1, e2) =~= ",\"backlighting_level\":"@);
    assert(s.subrange(e2, m0) =~= nt);
    assert(s.subrange(m0, m0 + 15) =~= ",\"start_time\":\""@);
    assert(s[e1] == s.subrange(e1, e2)[0] && s[e1 + 1] == s.subrange(e1, e2)[1]);
    assert(s[e1 + 20] == s.subrange(e1, e2)[20] && s[e1 + 21] == s.subrange(e1, e2)[21]);
    assert forall|j: int| e1 + 2 <= j < e1 + 20 implies s[j] != '"' && s[j] != '\\' by {
        assert(s[j] == s.subrange(e1, e2)[j - e1]);
    }
    lemma_str_chars_closed(s, e1 + 2, e1 + 20);
    assert(s.subrange(e1 + 2, e1 + 20) =~= "backlighting_level"@);
    assert(parse_string(s, e1 + 1) == Some(("backlighting_level"@, e1 + 21)));
    let lvl = c.backlighting_level as int;
    let mag: int = if lvl < 0 {
        -lvl
    } else {
        lvl
    };
    let dd = dec_digits(mag as nat);
    lemma_dec_digits_shape(mag as nat);
    lemma_dec_digits_val(mag as nat);
    let ds = if lvl < 0 {
        e2 + 1
    } else {
        e2
    };
    assert(s[e2] == s.subrange(e2, m0)[0]);
    assert(s[m0] == s.subrange(m0, m0 + 15)[0]);
    assert forall|j: int| ds <= j < m0 implies is_dec_digit(s[j]) by {
        assert(s[j] == s.subrange(e2, m0)[j - e2]);
        if lvl < 0 {
            assert(nt[j - e2] == dd[j - e2 - 1]);
        }
    }
    assert(s.subrange(ds, m0) =~= dd);
    lemma_digit_run_scan(s, ds, m0);
    let vn = (None::<bool>, Some(c.backlighting_level), None::<Seq<char>>);
    assert(parse_number(s, e2) == Some((Some(c.backlighting_level), m0))) by {
        if lvl < 0 {
            assert(s[e2] == '-');
            assert(digit_run_end(s, e2 + 1) == m0);
            assert(digits_val(s.subrange(e2 + 1, m0)) == mag);
        } else {
            assert(is_dec_digit(s[e2]) && s[e2] != '-');
            assert(digit_run_end(s, e2) == m0);
            assert(digits_val(s.subrange(e2, m0)) == mag);
        }
        assert(s[m0] == ',');
    }
    assert(parse_value(s, e2) == Some((vn, m0))) by {
        assert(is_dec_digit(s[e2]) || s[e2] == '-');
    }
}

#[verifier::rlimit(100)]
proof fn lemma_round_trip_pair3(c: Configuration)
    ensures
        config_text(c)[off_m0(c)] == ',',
        parse_pair(config_text(c), off_m0(c) + 1) == Some(
            (
                ("start_time"@, (None::<bool>, None::<i32>, Some(time_text(c.start_time)))),
                off_t1e(c) + 1,
            ),
        ),
{
    reveal_strlit("{\"enabled\":");
    reveal_strlit("true");
    reveal_strlit("false");
    reveal_strlit(",\"backlighting_level\":");
    reveal_strlit(",\"start_time\":\"");
    reveal_strlit("\",\"end_time\":\"");
    reveal_strlit("\"}");
    reveal_strlit("start_time");
    let s = config_text(c);
    let m0 = off_m0(c);
    let t1s = m0 + 15;
    let t1 = time_text(c.start_time);
    let t1e = off_t1e(c);
    lemma_time_text_chars(c.start_time);
    assert(s.subrange(m0, t1s) =~= ",\"start_time\":\""@);
    assert(s.subrange(t1s, t1e) =~= t1);
    assert(s.subrange(t1e, t1e + 14) =~= "\",\"end_time\":\""@);
    assert(s[m0] == s.subrange(m0, t1s)[0]);
    assert(s[m0 + 1] == s.subrange(m0, t1s)[1]);
    assert(s[m0 + 12] == s.subrange(m0, t1s)[12] && s[m0 + 13] == s.subrange(m0, t1s)[13]);
    assert(s[m0 + 14] == s.subrange(m0, t1s)[14]);
    assert forall|j: int| m0 + 2 <= j < m0 + 12 implies s[j] != '"' && s[j] != '\\' by {
        assert(s[j] == s.subrange(m0, t1s)[j - m0]);
    }
    lemma_str_chars_closed(s, m0 + 2, m0 + 12);
    assert(s.subrange(m0 + 2, m0 + 12) =~= "start_time"@);
    assert(parse_string(s, m0 + 1) == Some(("start_time"@, m0 + 13)));
    assert(s[t1e] == s.subrange(t1e, t1e + 14)[0]);
    assert forall|j: int| t1s <= j < t1e implies s[j] != '"' && s[j] != '\\' by {
        assert(s[j] == s.subrange(t1s, t1e)[j - t1s]);
    }
    lemma_str_chars_closed(s, t1s, t1e);
    let vs = (None::<bool>, None::<i32>, Some(t1));
    assert(parse_value(s, m0 + 14) == Some((vs, t1e + 1))) by {
        assert(s.subrange(m0 + 15, t1e) =~= t1);
    }
}

#[verifier::rlimit(100)]
proof fn lemma_round_trip_pair4(c: Configuration)
    ensures
        config_text(c)[off_t1e(c) + 1] == ',',
        config_text(c)[off_t2e(c) + 1] == '}',
        parse_pair(config_text(c), off_t1e(c) + 2) == Some(
            (
                ("end_time"@, (None::<bool>, None::<i32>, Some(time_text(c.end_time)))),
                off_t2e(c) + 1,
            ),
        ),
{
    reveal_strlit("{\"enabled\":");
    reveal_strlit("true");
    reveal_strlit("false");
    reveal_strlit(",\"backlighting_level\":");
    reveal_strlit(",\"start_time\":\"");
    reveal_strlit("\",\"end_time\":\"");
    reveal_strlit("\"}");
    reveal_strlit("end_time");
    let s = config_text(c);
    let t1e = off_t1e(c);
    let t2s = t1e + 14;
    let t2 = time_text(c.end_time);
    let t2e = off_t2e(c);
    lemma_time_text_chars(c.end_time);
    assert(s.subrange(t1e, t2s) =~= "\",\"end_time\":\""@);
    assert(s.subrange(t2s, t2e) =~= t2);
    assert(s.subrange(t2e, t2e + 2) =~= "\"}"@);
    assert(s[t1e + 1] == s.subrange(t1e, t2s)[1]);
    assert(s[t1e + 2] == s.subrange(t1e, t2s)[2]);
    assert(s[t1e + 11] == s.subrange(t1e, t2s)[11] && s[t1e + 12] == s.subrange(t1e, t2s)[12]);
    assert(s[t1e + 13] == s.subrange(t1e, t2s)[13]);
    assert forall|j: int| t1e + 3 <= j < t1e + 11 implies s[j] != '"' && s[j] != '\\' by {
        assert(s[j] == s.subrange(t1e, t2s)[j - t1e]);
    }
    lemma_str_chars_closed(s, t1e + 3, t1e + 11);
    assert(s.subrange(t1e + 3, t1e + 11) =~= "end_time"@);
    assert(parse_string(s, t1e + 2) == Some(("end_time"@, t1e + 12)));
    assert(s[t2e] == s.subrange(t2e, t2e + 2)[0]);
    assert(s[t2e + 1] == s.subrange(t2e, t2e + 2)[1]);
    assert forall|j: int| t2s <= j < t2e implies s[j] != '"' && s[j] != '\\' by {
        assert(s[j] == s.subrange(t2s, t2e)[j - t2s]);
    }
    lemma_str_chars_closed(s, t2s, t2e);
    let ve = (None::<bool>, None::<i32>, Some(t2));
    assert(parse_value(s, t1e + 13) == Some((ve, t2e + 1))) by {
        assert(s.subrange(t1e + 14, t2e) =~= t2);
    }
}

/// Saving a configuration and loading the saved text back gives the
/// configuration unchanged, field for field, for every configuration.
#[verifier::rlimit(100)]
pub proof fn lemma_config_round_trip(c: Configuration)
    ensures
        config_of_text(config_text(c)) == c,
{
    reveal_strlit("{\"enabled\":");
    reveal_strlit("true");
    reveal_strlit("false");
    reveal_strlit(",\"backlighting_level\":");
    reveal_strlit(",\"start_time\":\"");
    reveal_strlit("\",\"end_time\":\"");
    reveal_strlit("\"}");
    reveal_strlit("enabled");
    reveal_strlit("backlighting_level");
    reveal_strlit("start_time");
    reveal_strlit("end_time");
    let s = config_text(c);
    let t1 = time_text(c.start_time);
    let t2 = time_text(c.end_time);
    let e1 = off_e1(c);
    let m0 = off_m0(c);
    let t1e = off_t1e(c);
    let t2e = off_t2e(c);
    lemma_round_trip_pair1(c);
    lemma_round_trip_pair2(c);
    lemma_round_trip_pair3(c);
    lemma_round_trip_pair4(c);
    let vb = (Some(c.enabled), None::<i32>, None::<Seq<char>>);
    let vn = (None::<bool>, Some(c.backlighting_level), None::<Seq<char>>);
    let vs = (None::<bool>, None::<i32>, Some(t1));
    let ve = (None::<bool>, None::<i32>, Some(t2));
    let c0: FieldsView = (None, None, None, None);
    let c1 = apply_pair(c0, "enabled"@, vb);
    let c2 = apply_pair(c1, "backlighting_level"@, vn);
    let c3 = apply_pair(c2, "start_time"@, vs);
    let c4 = apply_pair(c3, "end_time"@, ve);
    assert("enabled"@.len() == 7 && "backlighting_level"@.len() == 18);
    assert("start_time"@.len() == 10 && "end_time"@.len() == 8);
    assert(c1 == (Some(c.enabled), None::<i32>, None::<Seq<char>>, None::<Seq<char>>));
    assert(c2 == (Some(c.enabled), Some(c.backlighting_level), None::<Seq<char>>, None::<Seq<char>>));
    assert(c3 == (Some(c.enabled), Some(c.backlighting_level), Some(t1), None::<Seq<char>>));
    assert(c4 == (Some(c.enabled), Some(c.backlighting_level), Some(t1), Some(t2)));
    assert(parse_members(s, 1, c0) == parse_members(s, e1 + 1, c1));
    assert(parse_members(s, e1 + 1, c1) == parse_members(s, m0 + 1, c2));
    assert(parse_members(s, m0 + 1, c2) == parse_members(s, t1e + 2, c3));
    assert(parse_members(s, t1e + 2, c3) == Some((c4, t2e + 1)));
    assert(parse_config_fields(s) == Some(c4));
    lemma_time_text_round_trip(c.start_time);
    lemma_time_text_round_trip(c.end_time);
}

/// Decides the configuration from what the store read: the decoded text
/// when the file could be read, the full defaults when it could not.
pub fn get_configuration(contents: Option<&str>) -> (c: Configuration)
    ensures
        match contents {
            Some(s) => c == config_of_text(s@),
            None => c == default_configuration(),
        },
{
    match contents {
        Some(s) => Configuration::from_text(s),
        None => default_configuration_exec(),
    }
}

} // verus!
