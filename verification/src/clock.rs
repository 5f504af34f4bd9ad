//! Timestamps, taken from the `jiff` crate.
use vstd::prelude::*;

verus! {

/// The instant an RFC 3339 text denotes, as `jiff` reads it: whole seconds since the Unix epoch
/// and the fraction in nanoseconds, which has the sign of the seconds; `None` where it is not a
/// timestamp.
pub uninterp spec fn instant(s: Seq<char>) -> Option<(i64, i32)>;

/// Parsing a `jiff::Timestamp` and reading it with `as_second` and `subsec_nanosecond`.
#[verifier::external_body]
pub(crate) fn parse_instant(s: &str) -> (r: Option<(i64, i32)>)
    ensures
        r == instant(s@),
{
    s.parse::<jiff::Timestamp>().ok().map(|t| (t.as_second(), t.subsec_nanosecond()))
}

/// The text of the timestamp at a number of whole seconds, as `jiff` prints it; `None` where it is
/// out of range.
pub uninterp spec fn second_text(s: i64) -> Option<Seq<char>>;

/// `jiff::Timestamp::from_second`, printed.
#[verifier::external_body]
pub(crate) fn show_second(s: i64) -> (r: Option<String>)
    ensures
        crate::text::opt_view(r) == second_text(s),
{
    jiff::Timestamp::from_second(s).ok().map(|t| t.to_string())
}

/// `jiff::Timestamp::now`, printed: the current time as RFC 3339 text in UTC. Nothing is said of
/// the text: it depends on the clock.
#[verifier::external_body]
pub fn now_iso_utc() -> (r: String) {
    jiff::Timestamp::now().to_string()
}

/// `jiff::Timestamp::now` in whole seconds since the Unix epoch. Nothing is said of the number: it
/// depends on the clock.
#[verifier::external_body]
pub fn now_epoch() -> (r: i64) {
    jiff::Timestamp::now().as_second()
}

/// The whole seconds of a timestamp text.
pub open spec fn epoch_of(s: Seq<char>) -> Option<i64> {
    match instant(s) {
        Some(t) => Some(t.0),
        None => None,
    }
}

/// Epoch seconds of a timestamp, or `None` where it cannot be read, so that the caller drops the
/// record rather than placing it at the epoch.
pub fn ts_epoch(ts: &str) -> (r: Option<i64>)
    ensures
        r == epoch_of(ts@),
{
    match parse_instant(ts) {
        Some(t) => Some(t.0),
        None => None,
    }
}

/// `a` is not later than `b`; a missing instant is earlier than any other.
pub open spec fn not_later(a: Option<(i64, i32)>, b: Option<(i64, i32)>) -> bool {
    match (a, b) {
        (None, _) => true,
        (Some(_), None) => false,
        (Some(x), Some(y)) => x.0 < y.0 || (x.0 == y.0 && x.1 <= y.1),
    }
}

/// Compare two instants.
pub fn is_not_later(a: Option<(i64, i32)>, b: Option<(i64, i32)>) -> (r: bool)
    ensures
        r == not_later(a, b),
{
    match a {
        None => true,
        Some(x) => match b {
            None => false,
            Some(y) => x.0 < y.0 || (x.0 == y.0 && x.1 <= y.1),
        },
    }
}

} // verus!
