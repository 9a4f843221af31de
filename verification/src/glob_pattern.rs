//! Shell-style patterns (`*`, `?`, `[...]`) from the `glob` crate, used to
//! select benches and agents by name.
use crate::text::has_char;
use vstd::prelude::*;

verus! {

/// Whether `glob::Pattern::new` accepts a pattern.
pub uninterp spec fn glob_valid(pattern: Seq<char>) -> bool;

/// What `glob::Pattern::matches` answers, with default options, for a
/// pattern compiled from `pattern` and the candidate `s`. The crate decides
/// it from the two texts alone, the one exception being that a Windows build
/// takes `/` and `\` for the same character.
pub uninterp spec fn glob_matches(pattern: Seq<char>, s: Seq<char>) -> bool;

/// A glob metacharacter: `*`, `?` or `[`.
pub open spec fn is_glob_meta(c: char) -> bool {
    c == '*' || c == '?' || c == '['
}

/// `s` holds at least one glob metacharacter.
pub open spec fn has_glob_meta(s: Seq<char>) -> bool {
    exists|i: int| 0 <= i < s.len() && is_glob_meta(#[trigger] s[i])
}

/// `glob::Pattern::new` on `pattern`, then `glob::Pattern::matches` of the
/// compiled pattern on `s`: `None` when the pattern does not compile, else
/// whether `s` matches. The crate's parser only fails inside `*` runs and
/// `[...]` classes, so a pattern without `*`, `?` or `[` always compiles, and
/// so does a lone `*`. Its default options are case sensitive, so a pattern
/// without metacharacters matches exactly the string equal to it, and `*`
/// matches every string; all else is named by `glob_valid` and
/// `glob_matches`. On Windows the crate also takes `/` and `\` for the same
/// character, so the equality is stated only for texts without `\`.
#[verifier::external_body]
fn glob_match(pattern: &str, s: &str) -> (r: Option<bool>)
    ensures
        r is Some <==> glob_valid(pattern@),
        r matches Some(b) ==> b == glob_matches(pattern@, s@),
        !has_glob_meta(pattern@) ==> r is Some,
        pattern@ == seq!['*'] ==> r == Some(true),
        !has_glob_meta(pattern@) && !has_char(pattern@, '\\') && !has_char(s@, '\\') ==> r == Some(
            pattern@ == s@,
        ),
{
    match glob::Pattern::new(pattern) {
        Ok(compiled) => Some(compiled.matches(s)),
        Err(_) => None,
    }
}

/// A pattern that compiles, kept as its text.
pub struct GlobPattern {
    source: String,
}

impl GlobPattern {
    /// The text of the pattern.
    pub closed spec fn source(&self) -> Seq<char> {
        self.source@
    }

    #[verifier::type_invariant]
    spec fn compiles(&self) -> bool {
        glob_valid(self.source@)
    }

    /// Checks that `pattern` compiles; `None` when its syntax is invalid.
    pub fn new(pattern: &str) -> (r: Option<GlobPattern>)
        ensures
            r is Some <==> glob_valid(pattern@),
            !has_glob_meta(pattern@) ==> r is Some,
            pattern@ == seq!['*'] ==> r is Some,
            r matches Some(g) ==> g.source() == pattern@,
    {
        // Compiling decides validity; the candidate matched does not matter.
        match glob_match(pattern, "") {
            Some(_) => Some(GlobPattern { source: pattern.to_owned() }),
            None => None,
        }
    }

    /// Whether `s` matches the pattern.
    pub fn matches(&self, s: &str) -> (r: bool)
        ensures
            r == glob_matches(self.source(), s@),
            !has_glob_meta(self.source()) && !has_char(self.source(), '\\') && !has_char(s@, '\\')
                ==> (r <==> self.source() == s@),
            self.source() == seq!['*'] ==> r,
    {
        proof {
            use_type_invariant(self);
        }
        match glob_match(self.source.as_str(), s) {
            Some(b) => b,
            None => false,
        }
    }
}

/// `pattern` compiles and matches `s`.
pub open spec fn pattern_accepts(pattern: Seq<char>, s: Seq<char>) -> bool {
    glob_valid(pattern) && glob_matches(pattern, s)
}

/// True when `pattern` is a valid glob that matches `id`; an invalid pattern
/// matches nothing.
pub fn matches_pattern(id: &str, pattern: &str) -> (r: bool)
    ensures
        r == pattern_accepts(pattern@, id@),
        !has_glob_meta(pattern@) && !has_char(pattern@, '\\') && !has_char(id@, '\\') ==> (r <==> pattern@
            == id@),
        pattern@ == seq!['*'] ==> r,
{
    match glob_match(pattern, id) {
        Some(b) => b,
        None => false,
    }
}

/// Whether `s` holds a glob metacharacter (`*`, `?` or `[`).
pub fn contains_glob_chars(s: &str) -> (r: bool)
    ensures
        r == has_glob_meta(s@),
{
    let v = crate::text::chars_of(s);
    let mut i: usize = 0;
    while i < v.len()
        invariant
            v@ == s@,
            i <= v.len(),
            forall|k: int| 0 <= k < i ==> !is_glob_meta(#[trigger] v@[k]),
        decreases v.len() - i,
    {
        let c = v[i];
        if c == '*' || c == '?' || c == '[' {
            assert(is_glob_meta(s@[i as int]));
            return true;
        }
        i += 1;
    }
    false
}

} // verus!
