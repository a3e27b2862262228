use vstd::prelude::*;

verus! {

use crate::text::{lower_of, text_views};

/// What the regular-expression engine says of a pattern and a text:
/// nothing when the pattern does not compile, else whether the pattern
/// matches somewhere in the text. A function of pattern and text alone.
pub uninterp spec fn regex_eval(p: Seq<char>, t: Seq<char>) -> Option<bool>;

/// Relies on `fancy_regex::Regex::new` and `fancy_regex::Regex::is_match`:
/// compilation fails on exactly the patterns the engine rejects, and the
/// match outcome depends on pattern and text alone (a run-time error from
/// the backtracking matcher counts as no match).
#[verifier::external_body]
pub(crate) fn regex_is_match(pattern: &str, text: &str) -> (r: Option<bool>)
    ensures
        r == regex_eval(pattern@, text@),
{
    match fancy_regex::Regex::new(pattern) {
        Ok(re) => Some(re.is_match(text).unwrap_or(false)),
        Err(_) => None,
    }
}

/// The pattern matches the text, verbatim or after lowercasing the text.
pub open spec fn hits_text(p: Seq<char>, t: Seq<char>) -> bool {
    regex_eval(p, t) == Some(true) || regex_eval(p, lower_of(t)) == Some(true)
}

/// The pattern matches at least one of the texts.
pub open spec fn hits_any(p: Seq<char>, texts: Seq<Seq<char>>) -> bool {
    exists|k: int| 0 <= k < texts.len() && hits_text(p, #[trigger] texts[k])
}

/// Whether the pattern matches one of the texts, verbatim or lowercased.
/// A pattern that does not compile matches nothing.
pub(crate) fn pattern_matches_any(pattern: &str, texts: &Vec<String>) -> (r: bool)
    ensures
        r == hits_any(pattern@, text_views(texts@)),
{
    let ghost tv = text_views(texts@);
    let mut k: usize = 0;
    while k < texts.len()
        invariant
            k <= texts@.len(),
            tv == text_views(texts@),
            forall|j: int| 0 <= j < k ==> !hits_text(pattern@, #[trigger] tv[j]),
        decreases texts@.len() - k,
    {
        proof {
            assert(tv[k as int] == texts@[k as int]@);
        }
        let direct = regex_is_match(pattern, texts[k].as_str());
        if let Some(true) = direct {
            return true;
        }
        let low = crate::text::lowercase(texts[k].as_str());
        let lowered = regex_is_match(pattern, low.as_str());
        if let Some(true) = lowered {
            return true;
        }
        k += 1;
    }
    false
}

} // verus!
