//! Glob pattern syntax.

use vstd::prelude::*;

verus! {

/// Whether `glob::Pattern::new` compiles the pattern. The crate's grammar
/// (`?`, `*`, `**` as a whole component, bracketed character classes) decides
/// this from the pattern's characters alone; it is not restated here. Which
/// characters part components is fixed when the crate is built: `/`, and `\`
/// as well where the target is Windows.
pub uninterp spec fn glob_accepts(pattern: Seq<char>) -> bool;

/// Calls `glob::Pattern::new` and tells whether it returned a pattern rather
/// than a `PatternError`. Trusted: the answer is [`glob_accepts`] of the
/// pattern's characters.
#[verifier::external_body]
pub(crate) fn pattern_parses(pattern: &str) -> (accepted: bool)
    ensures
        accepted == glob_accepts(pattern@),
{
    glob::Pattern::new(pattern).is_ok()
}

} // verus!
