use vstd::prelude::*;
use chrono::{Datelike, Timelike};
use std::fmt::Write;

verus! {

// ----------------------------------------------------------------------------
// Timestamp handling. The dump carries timestamps in a fixed
// `YYYY-MM-DDTHH:MM:SSZ` layout, with an optional leading sign; the chrono
// crate parses the layout and renders the configured date pattern.
// ----------------------------------------------------------------------------

/// The calendar parts a timestamp string parses to under the fixed layout:
/// year, month, day, hour, minute, second; nothing when the string does not
/// match the layout or names no real date.
pub uninterp spec fn timestamp_parts(s: Seq<char>) -> Option<(int, int, int, int, int, int)>;

/// Relies on chrono's NaiveDateTime::parse_from_str with the fixed
/// `%Y-%m-%dT%H:%M:%SZ` layout: whether a string parses, and to which
/// calendar parts, depends on the string alone.
#[verifier::external_body]
pub fn parse_fixed_timestamp(s: &str) -> (r: Option<(i32, u32, u32, u32, u32, u32)>)
    ensures
        (match r {
            Some(p) => timestamp_parts(s@) == Some(
                (p.0 as int, p.1 as int, p.2 as int, p.3 as int, p.4 as int, p.5 as int),
            ),
            None => timestamp_parts(s@) is None,
        }),
{
    match chrono::NaiveDateTime::parse_from_str(s, "%Y-%m-%dT%H:%M:%SZ") {
        Ok(dt) => Some((dt.year(), dt.month(), dt.day(), dt.hour(), dt.minute(), dt.second())),
        Err(_) => None,
    }
}

/// What calendar parts render to under a date pattern; nothing when the
/// parts name no real date or the pattern is unusable.
pub uninterp spec fn rendered_date(
    y: int,
    mo: int,
    d: int,
    h: int,
    mi: int,
    s: int,
    fmt: Seq<char>,
) -> Option<Seq<char>>;

/// Relies on chrono's NaiveDate::from_ymd_opt, NaiveDate::and_hms_opt and
/// NaiveDateTime::format: what a date renders to under a pattern depends on
/// the parts and the pattern alone; unrepresentable parts or a bad pattern
/// yield nothing rather than a fault.
#[verifier::external_body]
pub fn render_timestamp(y: i32, mo: u32, d: u32, h: u32, mi: u32, s: u32, fmt: &str) -> (r: Option<
    String,
>)
    ensures
        (match r {
            Some(t) => rendered_date(
                y as int,
                mo as int,
                d as int,
                h as int,
                mi as int,
                s as int,
                fmt@,
            ) == Some(t@),
            None => rendered_date(
                y as int,
                mo as int,
                d as int,
                h as int,
                mi as int,
                s as int,
                fmt@,
            ) is None,
        }),
{
    let date = chrono::NaiveDate::from_ymd_opt(y, mo, d);
    match date.and_then(|dd| dd.and_hms_opt(h, mi, s)) {
        None => None,
        Some(dt) => {
            let mut out = String::new();
            match write!(out, "{}", dt.format(fmt)) {
                Ok(()) => Some(out),
                Err(_) => None,
            }
        },
    }
}

/// `s` with every leading `+` sign removed.
pub open spec fn strip_plus(s: Seq<char>) -> Seq<char>
    decreases s.len(),
{
    if s.len() > 0 && s[0] == '+' {
        strip_plus(s.drop_first())
    } else {
        s
    }
}

/// What `format_date` returns: the cleaned timestamp rendered under the
/// pattern when it parses and renders, the fallback marker otherwise.
pub open spec fn format_date_spec(date: Seq<char>, fmt: Seq<char>, fallback: Seq<char>) -> Seq<
    char,
> {
    match timestamp_parts(strip_plus(date)) {
        Some(p) => match rendered_date(p.0, p.1, p.2, p.3, p.4, p.5, fmt) {
            Some(t) => t,
            None => fallback,
        },
        None => fallback,
    }
}

/// Formats a dump timestamp under the configured date pattern. A timestamp
/// that cannot be parsed or rendered degrades to the configured fallback
/// marker, never to an empty field or a fault.
pub fn format_date(date_str: &str, date_format: &str, missing_date: &str) -> (r: String)
    ensures
        r@ == format_date_spec(date_str@, date_format@, missing_date@),
{
    let n = date_str.unicode_len();
    let mut i: usize = 0;
    proof {
        assert(crate::utils::suffix_of(date_str@, 0) =~= date_str@);
    }
    while i < n && date_str.get_char(i) == '+'
        invariant
            i <= n,
            n == date_str@.len(),
            strip_plus(date_str@) == strip_plus(crate::utils::suffix_of(date_str@, i as int)),
        decreases n - i,
    {
        proof {
            let suf = crate::utils::suffix_of(date_str@, i as int);
            assert(suf[0] == date_str@[i as int]);
            assert(suf.drop_first() =~= crate::utils::suffix_of(date_str@, i + 1));
        }
        i += 1;
    }
    let cleaned = date_str.substring_char(i, n);
    proof {
        let suf = crate::utils::suffix_of(date_str@, i as int);
        if i < n {
            assert(suf[0] == date_str@[i as int]);
        }
        assert(strip_plus(suf) == suf);
        assert(cleaned@ =~= suf);
    }
    match parse_fixed_timestamp(cleaned) {
        Some(p) => match render_timestamp(p.0, p.1, p.2, p.3, p.4, p.5, date_format) {
            Some(t) => t,
            None => missing_date.to_owned(),
        },
        None => missing_date.to_owned(),
    }
}

/// Law: a timestamp the fixed layout cannot read always formats to the
/// configured fallback marker, whatever the pattern.
pub proof fn lemma_date_fallback(date: Seq<char>, fmt: Seq<char>, fallback: Seq<char>)
    requires
        timestamp_parts(strip_plus(date)) is None,
    ensures
        format_date_spec(date, fmt, fallback) == fallback,
{
}

} // verus!
