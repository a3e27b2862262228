use vstd::prelude::*;

verus! {

/// How a tag's text is interpreted when the tag is held against a message.
#[derive(Clone, Copy, Debug, PartialEq, Eq, Structural)]
pub enum TagKind {
    /// The text is a regular-expression pattern and must match exactly.
    Exact,
    /// The text is a plain phrase, compared by normalized edit distance.
    FuzzyCandidate,
}

/// Whether a tag is evaluated against the whole message text or against
/// each token on its own.
#[derive(Clone, Copy, Debug, PartialEq, Eq, Structural)]
pub enum TagScope {
    WholeMessage,
    PerToken,
}

/// A configured trigger: a pattern or phrase that, when it matches an
/// incoming message, names the reply to attach.
#[derive(Clone, Debug)]
pub struct Tag {
    pub text: String,
    pub kind: TagKind,
    pub scope: TagScope,
}

/// The largest acceptable normalized edit distance for a fuzzy match,
/// kept as the exact fraction `num / den`, which lies in `[0, 1]`.
#[derive(Clone, Copy, Debug, PartialEq, Eq, Structural)]
pub struct Threshold {
    pub num: usize,
    pub den: usize,
}

impl Threshold {
    /// A threshold is a fraction with a positive denominator, at most one.
    pub open spec fn wf(self) -> bool {
        1 <= self.den && self.num <= self.den
    }

    pub fn new(num: usize, den: usize) -> (r: Threshold)
        requires
            1 <= den,
            num <= den,
        ensures
            r.num == num,
            r.den == den,
            r.wf(),
    {
        Threshold { num, den }
    }
}

} // verus!
