use vstd::prelude::*;

verus! {

/// Configuration for the log filter that silences one noisy library;
/// the filter needs no settings.
#[derive(Clone, Copy, PartialEq, Eq, Structural, Debug)]
pub struct HyperFilterConfig {}

/// A log filter that rejects records coming from the `hyper` module
/// tree and stays neutral on every other record.
#[derive(Clone, Copy, PartialEq, Eq, Structural, Debug)]
pub struct HyperFilter {}

/// Builds `HyperFilter` values for a logging framework's registry.
#[derive(Clone, Copy, PartialEq, Eq, Structural, Debug)]
pub struct HyperFilterDeserializer;

/// The module path starts with `hyper`.
pub open spec fn hyper_path(s: Seq<char>) -> bool {
    s.len() >= 5 && s[0] == 'h' && s[1] == 'y' && s[2] == 'p' && s[3] == 'e' && s[4] == 'r'
}

impl HyperFilter {
    /// Whether a record with the given module path is rejected.
    pub fn rejects(&self, source_path: &str) -> (r: bool)
        ensures
            r == hyper_path(source_path@),
    {
        let chars = crate::text::chars_vec(source_path);
        chars.len() >= 5 && chars[0] == 'h' && chars[1] == 'y' && chars[2] == 'p' && chars[3]
            == 'e' && chars[4] == 'r'
    }
}

} // verus!
