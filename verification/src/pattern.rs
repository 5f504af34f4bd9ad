//! Regular expressions, taken from the `regex` crate.
use vstd::prelude::*;
use crate::text::opt_view;

verus! {

/// `regex::Regex`, carried opaquely.
#[verifier::external_type_specification]
#[verifier::external_body]
pub struct ExRegex(regex::Regex);

/// The pattern a compiled expression came from.
pub uninterp spec fn pattern_of(re: regex::Regex) -> Seq<char>;

/// The message with which `Regex::new` refuses a pattern; `None` where it compiles.
pub uninterp spec fn refusal(pattern: Seq<char>) -> Option<Seq<char>>;

/// How many groups a pattern has, the whole match included.
pub uninterp spec fn group_count(pattern: Seq<char>) -> nat;

/// The text of group 1 of the leftmost match of a pattern in `text`; `None` where nothing matches
/// or the group takes no part in the match.
pub uninterp spec fn group_one(pattern: Seq<char>, text: Seq<char>) -> Option<Seq<char>>;

/// `regex::Regex::new`: compiles the pattern, or says why not. The archive pattern compiles.
#[verifier::external_body]
pub(crate) fn compile(pattern: &str) -> (r: Result<regex::Regex, String>)
    ensures
        match r {
            Ok(re) => refusal(pattern@) is None && pattern_of(re) == pattern@,
            Err(e) => refusal(pattern@) == Some(e@),
        },
        pattern@ == ARCHIVE_PATTERN@ ==> r is Ok,
{
    regex::Regex::new(pattern).map_err(|e| e.to_string())
}

/// `regex::Regex::captures_len`: the number of groups, at least one.
#[verifier::external_body]
pub(crate) fn groups(re: &regex::Regex) -> (r: usize)
    ensures
        r == group_count(pattern_of(*re)),
        r >= 1,
{
    re.captures_len()
}

/// `regex::Regex::captures` and group 1 of its answer by `regex::Captures::get`.
#[verifier::external_body]
pub(crate) fn capture(re: &regex::Regex, text: &str) -> (r: Option<String>)
    ensures
        opt_view(r) == group_one(pattern_of(*re), text@),
{
    re.captures(text).and_then(|c| c.get(1)).map(|m| m.as_str().to_string())
}

/// The suffix of an archive's name: a date stamp, a process id and any collision sequence.
pub const ARCHIVE_PATTERN: &'static str = r"\.\d{8}\.\d+(?:\.\d+)*$";

/// A pattern matches somewhere in `text`.
pub uninterp spec fn matches_in(pattern: Seq<char>, text: Seq<char>) -> bool;

/// `regex::Regex::is_match`. The archive pattern matches every name that ends as rotation writes
/// it, and never one that ends in a letter; `\d` also matches digits outside ASCII, so only for an
/// ASCII text does it match exactly those names.
#[verifier::external_body]
pub(crate) fn is_match(re: &regex::Regex, text: &str) -> (r: bool)
    ensures
        r == matches_in(pattern_of(*re), text@),
        pattern_of(*re) == ARCHIVE_PATTERN@ ==> archive_facts(text@, r),
{
    re.is_match(text)
}

/// What the archive pattern says of a text.
pub open spec fn archive_facts(text: Seq<char>, r: bool) -> bool {
    &&& crate::rolling::archive_form(text) ==> r
    &&& r ==> text.len() > 0 && !('a' <= text.last() <= 'z')
    &&& vstd::utf8::is_ascii_chars(text) ==> r == crate::rolling::archive_form(text)
}

} // verus!
