//! Regular expressions, matched without regard to case.
use crate::text::{occurs, texts};
use vstd::prelude::*;

verus! {

/// Whether `regex::RegexBuilder`, set to ignore case, builds a regular expression from `pattern`.
pub uninterp spec fn compiles(pattern: Seq<char>) -> bool;

/// What `regex::Regex::find` finds in `text` for `pattern`, case ignored.
pub uninterp spec fn first_match(pattern: Seq<char>, text: Seq<char>) -> Option<Seq<char>>;

/// What `regex::Regex::find_iter` yields in `text` for `pattern`, case ignored.
pub uninterp spec fn all_matches(pattern: Seq<char>, text: Seq<char>) -> Seq<Seq<char>>;

/// `regex::RegexBuilder::build`: whether the pattern is a regular expression within the default
/// size limit is a fixed function of the pattern.
#[verifier::external_body]
pub(crate) fn is_pattern(pattern: &str) -> (r: bool)
    ensures
        r == compiles(pattern@),
{
    regex::RegexBuilder::new(pattern).case_insensitive(true).build().is_ok()
}

/// `regex::Regex::find`: the text of the first match, a run of characters of the text searched.
/// Which run it is, is a fixed function of pattern and text. A pattern that does not compile
/// finds nothing.
#[verifier::external_body]
pub(crate) fn find(pattern: &str, text: &str) -> (r: Option<String>)
    ensures
        match r {
            Some(m) => first_match(pattern@, text@) == Some(m@),
            None => first_match(pattern@, text@) is None,
        },
        r is Some ==> compiles(pattern@) && occurs(r->Some_0@, text@),
{
    let re = regex::RegexBuilder::new(pattern).case_insensitive(true).build().ok()?;
    re.find(text).map(|m| m.as_str().to_string())
}

/// `regex::Regex::find_iter`: the texts of the successive matches, each a run of characters of the
/// text searched. Which runs they are, is a fixed function of pattern and text. A pattern that
/// does not compile finds nothing.
#[verifier::external_body]
pub(crate) fn find_all(pattern: &str, text: &str) -> (r: Vec<String>)
    ensures
        texts(r@) == all_matches(pattern@, text@),
        forall|i: int| 0 <= i < r@.len() ==> compiles(pattern@) && occurs(#[trigger] r@[i]@, text@),
{
    match regex::RegexBuilder::new(pattern).case_insensitive(true).build() {
        Ok(re) => re.find_iter(text).map(|m| m.as_str().to_string()).collect(),
        Err(_) => Vec::new(),
    }
}

} // verus!
