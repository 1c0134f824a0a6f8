//! Task definitions as the loader hands them to the core, and the
//! wildcard pattern matching used to resolve targets and dependencies.

use vstd::prelude::*;

verus! {

/// A dependency pattern of a task definition. `is_task` distinguishes a
/// reference to another task (by identifier or by one of its declared
/// targets) from a file pattern matched against the file universe.
/// A `mandatory` pattern that matches nothing fails the build.
pub struct Dep {
    pub pattern: String,
    pub is_task: bool,
    pub mandatory: bool,
}

/// One task definition, as resolved by the external loader: an identifier,
/// declared target patterns, dependency patterns, an opaque action
/// descriptor, and the flags the engine consults.
pub struct TaskDef {
    pub id: String,
    pub targets: Vec<String>,
    pub deps: Vec<Dep>,
    pub action: String,
    pub engine: String,
    pub serial: bool,
    pub watch: bool,
}

/// Whether `pat` matches `text`, where `*` in the pattern matches any
/// (possibly empty) sequence of characters and every other character
/// matches itself only.
pub open spec fn glob_matches(pat: Seq<char>, text: Seq<char>) -> bool
    decreases pat.len(), text.len(),
{
    if pat.len() == 0 {
        text.len() == 0
    } else if pat[0] == '*' {
        glob_matches(pat.skip(1), text) || (text.len() > 0 && glob_matches(pat, text.skip(1)))
    } else {
        text.len() > 0 && pat[0] == text[0] && glob_matches(pat.skip(1), text.skip(1))
    }
}

/// Whether a pattern contains a wildcard at all; a pattern without one
/// matches exactly itself.
#[verifier::opaque]
pub open spec fn has_wildcard(pat: Seq<char>) -> bool {
    exists|i: int| 0 <= i < pat.len() && pat[i] == '*'
}

fn glob_match_at(pat: &str, pi: usize, text: &str, ti: usize) -> (r: bool)
    requires
        pi <= pat@.len(),
        ti <= text@.len(),
    ensures
        r == glob_matches(pat@.skip(pi as int), text@.skip(ti as int)),
    decreases pat@.len() - pi, text@.len() - ti,
{
    let plen = pat.unicode_len();
    let tlen = text.unicode_len();
    if pi == plen {
        ti == tlen
    } else if pat.get_char(pi) == '*' {
        proof {
            assert(pat@.skip(pi as int).skip(1) =~= pat@.skip(pi as int + 1));
        }
        if glob_match_at(pat, pi + 1, text, ti) {
            true
        } else if ti < tlen {
            proof {
                assert(text@.skip(ti as int).skip(1) =~= text@.skip(ti as int + 1));
            }
            glob_match_at(pat, pi, text, ti + 1)
        } else {
            false
        }
    } else if ti < tlen && pat.get_char(pi) == text.get_char(ti) {
        proof {
            assert(pat@.skip(pi as int).skip(1) =~= pat@.skip(pi as int + 1));
            assert(text@.skip(ti as int).skip(1) =~= text@.skip(ti as int + 1));
        }
        glob_match_at(pat, pi + 1, text, ti + 1)
    } else {
        false
    }
}

/// Matches a wildcard pattern against a string.
pub fn glob_match(pat: &str, text: &str) -> (r: bool)
    ensures
        r == glob_matches(pat@, text@),
{
    proof {
        assert(pat@.skip(0) =~= pat@);
        assert(text@.skip(0) =~= text@);
    }
    glob_match_at(pat, 0, text, 0)
}

/// Whether a pattern string contains a `*` wildcard.
#[verifier::loop_isolation(false)]
pub fn pattern_has_wildcard(pat: &str) -> (r: bool)
    ensures
        r == has_wildcard(pat@),
{
    proof {
        reveal(has_wildcard);
    }
    let len = pat.unicode_len();
    let mut i: usize = 0;
    while i < len
        invariant
            i <= len,
            len == pat@.len(),
            forall|j: int| 0 <= j < i ==> pat@[j] != '*',
        decreases len - i,
    {
        if pat.get_char(i) == '*' {
            proof {
                reveal(has_wildcard);
            }
            return true;
        }
        i += 1;
    }
    false
}

} // verus!
