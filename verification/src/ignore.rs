//! Exclusion rules: glob patterns matched against a path relative to the
//! root, written with `/` between its segments.

use vstd::prelude::*;
use vstd::string::*;
use crate::text::chars_of;

verus! {

/// What compiling `pattern` as a glob and matching `path` against it gives:
/// `None` where the pattern is not a valid glob, else whether it matches.
pub uninterp spec fn glob_outcome(pattern: Seq<char>, path: Seq<char>) -> Option<bool>;

/// A text without a backslash. Only on such texts does glob matching treat
/// the same characters as separators on every platform.
pub open spec fn portable(s: Seq<char>) -> bool {
    forall|i: int| 0 <= i < s.len() ==> s[i] != '\\'
}

/// Whether every pattern is portable.
pub open spec fn all_portable(patterns: Seq<String>) -> bool {
    forall|i: int| 0 <= i < patterns.len() ==> portable(#[trigger] patterns[i]@)
}

/// Whether one rule is known to exclude `path` on every platform.
pub open spec fn rule_hits(pattern: Seq<char>, path: Seq<char>) -> bool {
    portable(pattern) && portable(path) && glob_outcome(pattern, path) == Some(true)
}

/// Whether one of `patterns` is known to exclude `path` on every platform.
/// Where all the texts are portable, this is whether `path` is excluded.
pub open spec fn excluded(patterns: Seq<String>, path: Seq<char>) -> bool {
    exists|i: int| 0 <= i < patterns.len() && rule_hits(#[trigger] patterns[i]@, path)
}

/// Compiles `pattern` with `glob::Pattern::new` and matches `path` with
/// `Pattern::matches` under the default options. Both are functions of
/// their text arguments alone once no backslash occurs, the one character
/// that the glob crate treats differently from platform to platform.
#[verifier::external_body]
pub(crate) fn glob_match(pattern: &str, path: &str) -> (r: Option<bool>)
    requires
        portable(pattern@),
        portable(path@),
    ensures
        r == glob_outcome(pattern@, path@),
{
    match glob::Pattern::new(pattern) {
        Ok(p) => Some(p.matches(path)),
        Err(_) => None,
    }
}

/// The same two calls, `glob::Pattern::new` and `Pattern::matches`, on
/// texts that may hold a backslash. What comes back then depends on the
/// platform, so nothing is claimed of it.
#[verifier::external_body]
pub(crate) fn glob_match_here(pattern: &str, path: &str) -> (r: Option<bool>) {
    match glob::Pattern::new(pattern) {
        Ok(p) => Some(p.matches(path)),
        Err(_) => None,
    }
}

/// Whether `s` holds no backslash.
pub fn is_portable(s: &str) -> (r: bool)
    ensures
        r == portable(s@),
{
    let v = chars_of(s);
    let mut i: usize = 0;
    while i < v.len()
        invariant
            i <= v@.len(),
            v@ == s@,
            forall|j: int| 0 <= j < i ==> s@[j] != '\\',
        decreases v@.len() - i,
    {
        if v[i] == '\\' {
            return false;
        }
        i += 1;
    }
    true
}

/// Whether a match outcome excludes the path: only a valid pattern that
/// matched does.
pub fn is_hit(outcome: Option<bool>) -> (r: bool)
    ensures
        r == (outcome == Some(true)),
{
    match outcome {
        Some(b) => b,
        None => false,
    }
}

/// Whether any of `patterns` matches `path` and so excludes it. A pattern
/// that is no valid glob excludes nothing. Where no text holds a backslash
/// the answer is the same on every platform and is stated exactly; a
/// pattern or path with a backslash is matched as the platform matches it.
pub fn is_excluded(patterns: &Vec<String>, path: &str) -> (r: bool)
    ensures
        excluded(patterns@, path@) ==> r,
        all_portable(patterns@) && portable(path@) ==> r == excluded(patterns@, path@),
        patterns@.len() == 0 ==> !r,
{
    let plain_path = is_portable(path);
    let mut i: usize = 0;
    while i < patterns.len()
        invariant
            i <= patterns@.len(),
            plain_path == portable(path@),
            forall|j: int| 0 <= j < i ==> !rule_hits(#[trigger] patterns@[j]@, path@),
        decreases patterns@.len() - i,
    {
        let pattern = patterns[i].as_str();
        let plain = plain_path && is_portable(pattern);
        let hit = if plain {
            is_hit(glob_match(pattern, path))
        } else {
            is_hit(glob_match_here(pattern, path))
        };
        if hit {
            assert(!plain ==> !(all_portable(patterns@) && portable(path@))) by {
                if !plain && portable(path@) {
                    assert(!portable(patterns@[i as int]@));
                }
            }
            return true;
        }
        i += 1;
    }
    false
}

} // verus!
