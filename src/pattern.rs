//! Regular-expression matching, done by the `regex` crate.
use vstd::prelude::*;

verus! {

/// Text `text` after the first match of regular expression `pattern` is
/// replaced by `rep` (with `$name` expanded to capture groups); nothing when
/// `pattern` is not a valid regular expression.
pub uninterp spec fn regex_replace_first(pattern: Seq<char>, text: Seq<char>, rep: Seq<char>) -> Option<Seq<char>>;

/// The text that capture group `group` of the first match of `pattern` in
/// `text` covers; nothing when `pattern` is not valid, nothing matches, or
/// the group takes no part in the match.
pub uninterp spec fn regex_capture(pattern: Seq<char>, text: Seq<char>, group: nat) -> Option<Seq<char>>;

/// `s` in upper case, by Unicode case mapping.
pub uninterp spec fn upper_of(s: Seq<char>) -> Seq<char>;

/// Relies on `regex::Regex::new` and `regex::Regex::replace`: compiles
/// `pattern` and replaces its first match in `text` by `rep`.
#[verifier::external_body]
pub(crate) fn replace_first(pattern: &str, text: &str, rep: &str) -> (r: Option<String>)
    ensures
        r is Some == regex_replace_first(pattern@, text@, rep@) is Some,
        r matches Some(s) ==> regex_replace_first(pattern@, text@, rep@) == Some(s@),
{
    match regex::Regex::new(pattern) {
        Ok(re) => Some(re.replace(text, rep).into_owned()),
        Err(_) => None,
    }
}

/// Relies on `regex::Regex::new`, `regex::Regex::captures` and
/// `regex::Captures::get`: compiles `pattern` and takes capture group
/// `group` of its first match in `text`.
#[verifier::external_body]
pub(crate) fn capture(pattern: &str, text: &str, group: usize) -> (r: Option<String>)
    ensures
        r is Some == regex_capture(pattern@, text@, group as nat) is Some,
        r matches Some(s) ==> regex_capture(pattern@, text@, group as nat) == Some(s@),
{
    match regex::Regex::new(pattern) {
        Ok(re) => match re.captures(text) {
            Some(caps) => match caps.get(group) {
                Some(m) => Some(m.as_str().to_string()),
                None => None,
            },
            None => None,
        },
        Err(_) => None,
    }
}

/// Relies on `str::to_uppercase`: the result depends on the characters alone.
#[verifier::external_body]
pub(crate) fn uppercase(s: &str) -> (r: String)
    ensures
        r@ == upper_of(s@),
{
    s.to_uppercase()
}

} // verus!
