//! Glob matching of paths and package names, through `globset`.

use vstd::prelude::*;

use crate::error::{AffectError, ErrorView};
use crate::text::string_views;

verus! {

/// Whether `globset::Glob::new` accepts `pattern` and a
/// `globset::GlobSetBuilder` holding that glob builds into a set.
pub uninterp spec fn glob_valid(pattern: Seq<char>) -> bool;

/// Whether the `globset::GlobSet` built from the single glob `pattern`
/// matches `value`.
pub uninterp spec fn glob_match(pattern: Seq<char>, value: Seq<char>) -> bool;

/// The first `]` of `p` at or after `k`, or the end of `p`.
pub open spec fn next_close(p: Seq<char>, k: int) -> int
    decreases p.len() - k,
{
    if k >= p.len() {
        p.len() as int
    } else if p[k] == ']' {
        k
    } else {
        next_close(p, k + 1)
    }
}

/// Where a character class opened by a `[` at `j` would end: at the first
/// `]` that can close it (a `]` right after `[`, `[!` or `[^` is a member,
/// not the end).
pub open spec fn class_end(p: Seq<char>, j: int) -> int {
    if j + 1 < p.len() && (p[j + 1] == '!' || p[j + 1] == '^') {
        next_close(p, j + 3)
    } else {
        next_close(p, j + 2)
    }
}

/// An upper bound on how deeply `p` nests alternations, scanned from `j`
/// with `depth` open so far, `deepest` the largest depth met, and `cover`
/// the last position that some `[` could hold inside a class. Every `{`
/// may open a level; a `}` is taken to close one only where it can be
/// neither escaped (right after `\`) nor inside a class.
pub open spec fn nesting_scan(p: Seq<char>, j: int, depth: int, deepest: int, cover: int) -> int
    decreases p.len() - j,
{
    if j >= p.len() {
        deepest
    } else if p[j] == '[' {
        nesting_scan(p, j + 1, depth, deepest, if class_end(p, j) > cover { class_end(p, j) } else { cover })
    } else if p[j] == '{' {
        nesting_scan(p, j + 1, depth + 1, if depth + 1 > deepest { depth + 1 } else { deepest }, cover)
    } else if p[j] == '}' && j > cover && !(j > 0 && p[j - 1] == '\\') {
        nesting_scan(p, j + 1, depth - 1, deepest, cover)
    } else {
        nesting_scan(p, j + 1, depth, deepest, cover)
    }
}

/// An upper bound on the depth of nested alternations in `p`.
pub open spec fn nesting_bound(p: Seq<char>) -> int {
    nesting_scan(p, 0, 0, 0, -1)
}

/// The longest pattern handed to globset, in bytes (and so in characters):
/// below the `aho-corasick` limit of 2^31 automaton states that globset's
/// literal strategies build, one state per byte.
pub const GLOB_MAX_BYTES: usize = 0x7FFF_0000;

/// The deepest nesting of alternations handed to globset. Globset recurses
/// once per nesting level while it turns a glob into a regex (and the regex
/// parser refuses nesting deeper than 250, so deeper globs fail to build
/// anyway); the limit keeps that recursion far from the stack's end.
pub const GLOB_MAX_NESTING: usize = 1000;

/// The patterns handed to globset: within the machine limits on length and
/// on nesting depth (as bounded by `nesting_bound`).
pub open spec fn glob_bounded(pattern: Seq<char>) -> bool {
    &&& crate::selection::byte_len(pattern) <= GLOB_MAX_BYTES
    &&& pattern.len() <= GLOB_MAX_BYTES
    &&& nesting_bound(pattern) <= GLOB_MAX_NESTING
}

/// A pattern that the planner accepts: within bounds, and valid for globset.
pub open spec fn glob_ok(pattern: Seq<char>) -> bool {
    glob_bounded(pattern) && glob_valid(pattern)
}

/// `globset::Glob::new(pattern)`, added to a `globset::GlobSetBuilder`,
/// built, then `GlobSet::is_match(value)`; an error is converted to its
/// message. Trusted: the result is an error exactly when the glob does not
/// parse or the set does not build (regex errors, such as nesting the regex
/// parser refuses, are returned by `build`), which depends on the pattern
/// alone; otherwise it is `glob_match`, a function of the pattern and the
/// value. Nothing is said of the message. Patterns beyond the machine
/// limits of `glob_bounded` are not handed over.
#[verifier::external_body]
fn glob_is_match(pattern: &str, value: &str) -> (res: Result<bool, String>)
    requires
        glob_bounded(pattern@),
    ensures
        res is Ok <==> glob_valid(pattern@),
        res matches Ok(b) ==> b == glob_match(pattern@, value@),
{
    let glob = match globset::Glob::new(pattern) {
        Ok(glob) => glob,
        Err(e) => return Err(e.to_string()),
    };
    let mut builder = globset::GlobSetBuilder::new();
    builder.add(glob);
    match builder.build() {
        Ok(set) => Ok(set.is_match(value)),
        Err(e) => Err(e.to_string()),
    }
}

/// The first `]` of `chars` at or after `k`, or its length.
fn next_close_at(chars: &Vec<char>, k: usize) -> (res: usize)
    ensures
        res as int == next_close(chars@, k as int),
        res <= chars.len(),
{
    let mut i = k;
    while i < chars.len()
        invariant
            k <= i,
            next_close(chars@, k as int) == next_close(chars@, i as int),
        decreases chars.len() - i,
    {
        if chars[i] == ']' {
            return i;
        }
        i = i + 1;
    }
    chars.len()
}

/// Whether `pattern` is within the machine limits for globset.
fn is_bounded_glob(pattern: &str) -> (res: bool)
    ensures
        res == glob_bounded(pattern@),
{
    if pattern.len() > GLOB_MAX_BYTES {
        return false;
    }
    let chars = crate::text::chars_of(pattern);
    if chars.len() > GLOB_MAX_BYTES {
        return false;
    }
    let ghost p = pattern@;
    let n = chars.len();
    let mut depth: i64 = 0;
    let mut deepest: i64 = 0;
    let mut cover: i64 = -1;
    let mut j: usize = 0;
    while j < n
        invariant
            chars@ == p,
            n == p.len(),
            n <= GLOB_MAX_BYTES,
            j <= n,
            -(j as int) <= depth <= j,
            0 <= deepest <= j,
            -1 <= cover <= n,
            nesting_bound(p) == nesting_scan(p, j as int, depth as int, deepest as int, cover as int),
        decreases n - j,
    {
        let c = chars[j];
        if c == '[' {
            let k = if j + 1 < n && (chars[j + 1] == '!' || chars[j + 1] == '^') {
                j + 3
            } else {
                j + 2
            };
            let end = next_close_at(&chars, k);
            if end as i64 > cover {
                cover = end as i64;
            }
        } else if c == '{' {
            depth = depth + 1;
            if depth > deepest {
                deepest = depth;
            }
        } else if c == '}' && (j as i64) > cover && !(j > 0 && chars[j - 1] == '\\') {
            depth = depth - 1;
        }
        j = j + 1;
    }
    deepest <= GLOB_MAX_NESTING as i64
}

/// What matching one pattern gives: an error for a pattern that is out of
/// bounds or does not parse, else whether it matches.
pub open spec fn glob_result(pattern: Seq<char>, value: Seq<char>) -> Result<bool, ErrorView> {
    if glob_ok(pattern) {
        Ok(glob_match(pattern, value))
    } else {
        Err(ErrorView::InvalidGlob(pattern))
    }
}

/// Whether `pattern` matches `value`; an error for a pattern that is out of
/// bounds or does not parse, with globset's message as its cause.
pub fn glob_matches(pattern: &str, value: &str) -> (res: Result<bool, AffectError>)
    ensures
        match res {
            Ok(b) => glob_result(pattern@, value@) == Ok::<bool, ErrorView>(b),
            Err(e) => glob_result(pattern@, value@) == Err::<bool, ErrorView>(e@),
        },
{
    if !is_bounded_glob(pattern) {
        return Err(
            AffectError::InvalidGlob {
                pattern: pattern.to_string(),
                cause: "the pattern is beyond the planner's limits on length or nesting".to_string(),
            },
        );
    }
    match glob_is_match(pattern, value) {
        Ok(b) => Ok(b),
        Err(cause) => Err(AffectError::InvalidGlob { pattern: pattern.to_string(), cause }),
    }
}

/// Patterns tried in order: the first that is not accepted is an error, the
/// first that matches gives `true`, and none matching gives `false`.
pub open spec fn any_glob(patterns: Seq<Seq<char>>, value: Seq<char>) -> Result<bool, ErrorView>
    decreases patterns.len(),
{
    if patterns.len() == 0 {
        Ok(false)
    } else if !glob_ok(patterns[0]) {
        Err(ErrorView::InvalidGlob(patterns[0]))
    } else if glob_match(patterns[0], value) {
        Ok(true)
    } else {
        any_glob(patterns.drop_first(), value)
    }
}

/// Whether any of `patterns` matches `value`, trying them in order.
pub fn matches_glob_patterns(patterns: &Vec<String>, value: &str) -> (res: Result<bool, AffectError>)
    ensures
        match res {
            Ok(b) => any_glob(string_views(patterns@), value@) == Ok::<bool, ErrorView>(b),
            Err(e) => any_glob(string_views(patterns@), value@) == Err::<bool, ErrorView>(e@),
        },
{
    let ghost all = string_views(patterns@);
    let mut i: usize = 0;
    assert(all.skip(0) =~= all);
    while i < patterns.len()
        invariant
            all == string_views(patterns@),
            i <= patterns.len(),
            any_glob(all, value@) == any_glob(all.skip(i as int), value@),
        decreases patterns.len() - i,
    {
        assert(all.skip(i as int)[0] == patterns@[i as int]@);
        assert(all.skip(i as int).drop_first() =~= all.skip(i + 1));
        let m = glob_matches(patterns[i].as_str(), value);
        match m {
            Err(e) => {
                return Err(e);
            },
            Ok(true) => {
                return Ok(true);
            },
            Ok(false) => {},
        }
        i = i + 1;
    }
    assert(all.skip(i as int).len() == 0);
    Ok(false)
}

} // verus!
