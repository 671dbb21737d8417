//! Regular expressions, by the `regex` crate.
use vstd::prelude::*;

verus! {

/// The texts of the successive non-overlapping matches of `pattern` in
/// `text` (`Regex::new`, `Regex::captures_iter`, group 0), or `None` when the
/// pattern does not compile.
pub uninterp spec fn regex_matches_of(pattern: Seq<char>, text: Seq<char>) -> Option<Seq<Seq<char>>>;

/// The message of the error `Regex::new` reports for a pattern.
pub uninterp spec fn regex_error_of(pattern: Seq<char>) -> Seq<char>;

/// Compiles `pattern` with `Regex::new` and lists group 0 of every match of
/// `captures_iter` on `text`; on a compile error, that error's message
/// (`to_string`). The contract names the results only.
#[verifier::external_body]
pub(crate) fn regex_find_all(pattern: &str, text: &str) -> (r: Result<Vec<String>, String>)
    ensures
        match r {
            Ok(found) => regex_matches_of(pattern@, text@) == Some(found@.map_values(|t: String| t@)),
            Err(msg) => regex_matches_of(pattern@, text@) is None && msg@ == regex_error_of(pattern@),
        },
{
    match regex::Regex::new(pattern) {
        Ok(re) => Ok(re.captures_iter(text).map(|c| c[0].to_string()).collect()),
        Err(e) => Err(e.to_string()),
    }
}

} // verus!
