//! Time and query strings, as outside crates read and write them.

use chrono::{DateTime, NaiveDateTime, SecondsFormat, Utc};
use std::collections::BTreeMap;
use vstd::prelude::*;

verus! {

/// A moment in UTC: seconds and nanoseconds since the epoch, and the moment
/// written as RFC 3339.
#[derive(Debug, Clone)]
pub struct Moment {
    pub secs: i64,
    pub nanos: u32,
    pub text: String,
}

/// What a moment stands for.
pub struct MomentView {
    pub secs: i64,
    pub nanos: u32,
    pub text: Seq<char>,
}

impl View for Moment {
    type V = MomentView;

    open spec fn view(&self) -> MomentView {
        MomentView { secs: self.secs, nanos: self.nanos, text: self.text@ }
    }
}

impl DeepView for Moment {
    type V = MomentView;

    open spec fn deep_view(&self) -> MomentView {
        self.view()
    }
}

/// The first second that a date can name.
pub const FIRST_SECOND: i64 = -8334601228800;

/// The last second that a date can name.
pub const LAST_SECOND: i64 = 8210266876799;

/// The milliseconds since the epoch of a moment, as an unsigned number; those
/// of an earlier moment wrap around.
pub open spec fn millis_of(m: MomentView) -> u64 {
    (m.secs * 1000 + m.nanos as int / 1000000) as u64
}

/// The milliseconds since the epoch of a moment.
pub fn moment_millis(m: &Moment) -> (r: u64)
    ensures
        r == millis_of(m@),
{
    let ms: i128 = m.secs as i128 * 1000 + (m.nanos / 1000000) as i128;
    #[verifier::truncate]
    let r: u64 = ms as u64;
    r
}

/// What `DateTime::to_rfc3339` writes for a moment in UTC, given in seconds and
/// nanoseconds since the epoch.
pub uninterp spec fn rfc3339_text(secs: i64, nanos: u32) -> Seq<char>;

/// The moment of now, by `Utc::now`: it reads the system's clock, which it
/// takes to stand after the epoch, and yields a date within its range and less
/// than a second's worth of nanoseconds. Which moment it is, is left open. Its
/// text is that same moment as `DateTime::to_rfc3339` writes it, which has just
/// a name.
#[verifier::external_body]
fn utc_now() -> (r: Moment)
    ensures
        0 <= r.secs <= LAST_SECOND,
        r.nanos < 1000000000,
        r.text@ == rfc3339_text(r.secs, r.nanos),
{
    let t = Utc::now();
    Moment { secs: t.timestamp(), nanos: t.timestamp_subsec_nanos(), text: t.to_rfc3339() }
}

/// The moment of now, and that same moment written as RFC 3339.
pub fn now() -> (r: Moment)
    ensures
        0 <= r.secs <= LAST_SECOND,
        r.nanos < 1000000000,
        r.text@ == rfc3339_text(r.secs, r.nanos),
{
    utc_now()
}

/// The moment that a text names as RFC 3339, if it is one, by
/// `DateTime::parse_from_rfc3339`.
pub uninterp spec fn rfc3339_moment(s: Seq<char>) -> Option<MomentView>;

/// Reads a moment written as RFC 3339, by `DateTime::parse_from_rfc3339`; the
/// text of the result is the moment written again with its own offset. What
/// comes out of a text has just a name.
#[verifier::external_body]
fn parse_rfc3339(s: &str) -> (r: Option<Moment>)
    ensures
        r.deep_view() == rfc3339_moment(s@),
{
    match DateTime::parse_from_rfc3339(s) {
        Ok(t) => Some(
            Moment { secs: t.timestamp(), nanos: t.timestamp_subsec_nanos(), text: t.to_rfc3339() },
        ),
        Err(_) => None,
    }
}

/// The moment in UTC that a text names in the form `20260313T100000Z`, if it is
/// one, by `NaiveDateTime::parse_from_str`.
pub uninterp spec fn basic_moment(s: Seq<char>) -> Option<MomentView>;

/// Reads a moment in the form `20260313T100000Z` as UTC, by
/// `NaiveDateTime::parse_from_str`. What comes out of a text has just a name;
/// its text is that same moment as `DateTime::to_rfc3339` writes it.
#[verifier::external_body]
fn parse_basic(s: &str) -> (r: Option<Moment>)
    ensures
        r.deep_view() == basic_moment(s@),
        r matches Some(m) ==> m.text@ == rfc3339_text(m.secs, m.nanos),
{
    match NaiveDateTime::parse_from_str(s, "%Y%m%dT%H%M%SZ") {
        Ok(n) => {
            let t = n.and_utc();
            let (secs, nanos) = (t.timestamp(), t.timestamp_subsec_nanos());
            Some(Moment { secs, nanos, text: t.to_rfc3339() })
        },
        Err(_) => None,
    }
}

/// The moment that a text names as RFC 3339.
pub fn read_rfc3339(s: &str) -> (r: Option<Moment>)
    ensures
        r.deep_view() == rfc3339_moment(s@),
{
    parse_rfc3339(s)
}

/// The moment that a request names: as RFC 3339, or else in the basic form as
/// UTC.
pub open spec fn request_moment(s: Seq<char>) -> Option<MomentView> {
    match rfc3339_moment(s) {
        Some(m) => Some(m),
        None => basic_moment(s),
    }
}

/// The moment that a request names.
pub fn parse_moment(s: &str) -> (r: Option<Moment>)
    ensures
        r.deep_view() == request_moment(s@),
{
    match parse_rfc3339(s) {
        Some(t) => Some(t),
        None => parse_basic(s),
    }
}

/// The seconds since the epoch written as RFC 3339, by
/// `DateTime::from_timestamp` and `DateTime::to_rfc3339_opts`; nothing where
/// they lie outside the range of dates.
pub uninterp spec fn rfc3339_seconds(secs: i64) -> Option<Seq<char>>;

/// Writes seconds since the epoch as RFC 3339 with whole seconds and `Z`, by
/// `DateTime::from_timestamp` and `DateTime::to_rfc3339_opts`: there is a text
/// just for seconds that a date can name. Which text it is has just a name.
#[verifier::external_body]
fn format_seconds(secs: i64) -> (r: Option<String>)
    ensures
        r.deep_view() == rfc3339_seconds(secs),
        r is Some == (FIRST_SECOND <= secs <= LAST_SECOND),
{
    match DateTime::from_timestamp(secs, 0) {
        Some(t) => Some(t.to_rfc3339_opts(SecondsFormat::Secs, true)),
        None => None,
    }
}

/// The seconds since the epoch written as RFC 3339.
pub fn seconds_text(secs: i64) -> (r: Option<String>)
    ensures
        r.deep_view() == rfc3339_seconds(secs),
        r is Some == (FIRST_SECOND <= secs <= LAST_SECOND),
{
    format_seconds(secs)
}

/// The parameters of a query string by rising name, as
/// `serde_urlencoded::from_str` reads them into a map; none where it fails.
pub uninterp spec fn query_pairs(raw: Seq<char>) -> Seq<(Seq<char>, Seq<char>)>;

/// Reads a query string with `serde_urlencoded::from_str` into a `BTreeMap`;
/// one that cannot be read counts as empty. The parameters have just a name.
#[verifier::external_body]
fn read_query(raw: &str) -> (r: Vec<(String, String)>)
    ensures
        r.deep_view() == query_pairs(raw@),
{
    let m: BTreeMap<String, String> = serde_urlencoded::from_str(raw).unwrap_or_default();
    m.into_iter().collect()
}

/// The parameters of a query string by rising name.
pub fn parse_query(raw: &str) -> (r: Vec<(String, String)>)
    ensures
        r.deep_view() == query_pairs(raw@),
{
    read_query(raw)
}

} // verus!
