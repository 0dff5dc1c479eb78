use vstd::prelude::*;
use crate::error::RepoError;
use crate::text::{chars_of, lines_of, pieces_view, string_of, text_lines, trim, trimmed};

verus! {

/// Whether glob accepts a pattern.
pub uninterp spec fn glob_compiles(pattern: Seq<char>) -> bool;

/// Whether a glob pattern matches a path.
pub uninterp spec fn glob_matches(pattern: Seq<char>, path: Seq<char>) -> bool;

/// Relies on glob::Pattern::new, which fails on a malformed pattern, and on
/// glob::Pattern::matches, which tests the compiled pattern against a path.
#[verifier::external_body]
fn glob_match(pattern: &str, path: &str) -> (r: Option<bool>)
    ensures
        r is None <==> !glob_compiles(pattern@),
        r matches Some(b) ==> b == glob_matches(pattern@, path@),
{
    match glob::Pattern::new(pattern) {
        Ok(p) => Some(p.matches(path)),
        Err(_) => None,
    }
}

/// The patterns of an ignore file: each line that is neither empty nor a
/// `#` comment, trimmed.
pub open spec fn patterns_of_lines(ls: Seq<Seq<char>>) -> Seq<Seq<char>>
    decreases ls.len(),
{
    if ls.len() == 0 {
        Seq::<Seq<char>>::empty()
    } else {
        let prev = patterns_of_lines(ls.drop_last());
        let l = ls.last();
        if l.len() == 0 || l[0] == '#' {
            prev
        } else {
            prev.push(trim(l))
        }
    }
}

pub open spec fn patterns_spec(text: Seq<char>) -> Seq<Seq<char>> {
    patterns_of_lines(lines_of(text))
}

/// Whether a pattern starts with `!`, which negates it.
pub open spec fn negated(p: Seq<char>) -> bool {
    p.len() > 0 && p[0] == '!'
}

/// The glob that a pattern stands for: without its `!`, and with `**`
/// after a trailing `/` so that it covers the directory's contents.
pub open spec fn pattern_body(p: Seq<char>) -> Seq<char> {
    let b = if negated(p) {
        p.drop_first()
    } else {
        p
    };
    if b.len() > 0 && b.last() == '/' {
        b + seq!['*', '*']
    } else {
        b
    }
}

/// Whether `path` is ignored: the last pattern that matches decides; `None`
/// when some pattern is not a valid glob.
pub open spec fn ignore_verdict(pats: Seq<Seq<char>>, path: Seq<char>) -> Option<bool>
    decreases pats.len(),
{
    if pats.len() == 0 {
        Some(false)
    } else {
        match ignore_verdict(pats.drop_last(), path) {
            None => None,
            Some(t) => {
                let p = pats.last();
                if !glob_compiles(pattern_body(p)) {
                    None
                } else if glob_matches(pattern_body(p), path) {
                    Some(!negated(p))
                } else {
                    Some(t)
                }
            },
        }
    }
}

/// A path with every `\` turned into `/`.
pub open spec fn slashed(path: Seq<char>) -> Seq<char> {
    path.map_values(|c: char| if c == '\\' { '/' } else { c })
}

/// The patterns that an ignore file's text holds.
pub fn ignore_patterns(text: &str) -> (r: Vec<String>)
    ensures
        crate::index::strings_view(r@) == patterns_spec(text@),
{
    let ls = text_lines(text);
    assert(pieces_view(ls@) =~= lines_of(text@));
    let mut out: Vec<String> = Vec::new();
    let mut i: usize = 0;
    while i < ls.len()
        invariant
            i <= ls@.len(),
            pieces_view(ls@) == lines_of(text@),
            crate::index::strings_view(out@) == patterns_of_lines(
                lines_of(text@).subrange(0, i as int),
            ),
        decreases ls@.len() - i,
    {
        let ghost lines = lines_of(text@);
        assert(lines.subrange(0, i + 1).drop_last() =~= lines.subrange(0, i as int));
        assert(lines[i as int] == ls@[i as int]@);
        let l = &ls[i];
        if !(l.len() == 0 || l[0] == '#') {
            let ghost before = out@;
            let t = trimmed(l.as_slice());
            out.push(t);
            assert(crate::index::strings_view(out@) =~= crate::index::strings_view(before).push(
                t@,
            ));
        }
        i = i + 1;
    }
    assert(lines_of(text@).subrange(0, i as int) =~= lines_of(text@));
    out
}

/// The glob of a pattern, as `pattern_body` says.
fn body_of(p: &String) -> (r: String)
    ensures
        r@ == pattern_body(p@),
{
    let cs = chars_of(p.as_str());
    let start: usize = if cs.len() > 0 && cs[0] == '!' {
        1
    } else {
        0
    };
    let mut b = string_of(&cs[start..cs.len()]);
    assert(b@ =~= if negated(p@) {
        p@.drop_first()
    } else {
        p@
    });
    if cs.len() > start && cs[cs.len() - 1] == '/' {
        b.push('*');
        b.push('*');
        assert(b@ =~= pattern_body(p@));
    }
    b
}

/// Whether `path` (relative to the repository root) is ignored under
/// `patterns`. Fails with `InvalidData` when some pattern is not a valid glob.
pub fn is_ignored(path: &str, patterns: &Vec<String>) -> (r: Result<bool, RepoError>)
    ensures
        match ignore_verdict(crate::index::strings_view(patterns@), slashed(path@)) {
            None => r == Err::<bool, RepoError>(RepoError::InvalidData),
            Some(b) => r == Ok::<bool, RepoError>(b),
        },
{
    let cs = chars_of(path);
    let mut norm: Vec<char> = Vec::new();
    let mut k: usize = 0;
    while k < cs.len()
        invariant
            k <= cs@.len(),
            norm@ == slashed(cs@.subrange(0, k as int)),
        decreases cs@.len() - k,
    {
        let c = cs[k];
        norm.push(if c == '\\' { '/' } else { c });
        k = k + 1;
        assert(norm@ =~= slashed(cs@.subrange(0, k as int)));
    }
    assert(cs@.subrange(0, k as int) =~= cs@);
    let norm_s = string_of(norm.as_slice());
    let ghost pats = crate::index::strings_view(patterns@);
    let mut tracker = false;
    let mut i: usize = 0;
    while i < patterns.len()
        invariant
            i <= patterns@.len(),
            pats == crate::index::strings_view(patterns@),
            norm_s@ == slashed(path@),
            ignore_verdict(pats.subrange(0, i as int), slashed(path@)) == Some(tracker),
        decreases patterns@.len() - i,
    {
        assert(pats.subrange(0, i + 1).drop_last() =~= pats.subrange(0, i as int));
        let p = &patterns[i];
        let body = body_of(p);
        match glob_match(body.as_str(), norm_s.as_str()) {
            None => {
                proof {
                    lemma_verdict_none_extends(pats, slashed(path@), i as int + 1);
                }
                return Err(RepoError::InvalidData);
            },
            Some(m) => {
                if m {
                    let cp = chars_of(p.as_str());
                    tracker = !(cp.len() > 0 && cp[0] == '!');
                }
            },
        }
        i = i + 1;
    }
    assert(pats.subrange(0, i as int) =~= pats);
    Ok(tracker)
}

proof fn lemma_verdict_none_extends(pats: Seq<Seq<char>>, path: Seq<char>, k: int)
    requires
        0 <= k <= pats.len(),
        ignore_verdict(pats.subrange(0, k), path) is None,
    ensures
        ignore_verdict(pats, path) is None,
    decreases pats.len() - k,
{
    if k < pats.len() {
        assert(pats.subrange(0, k + 1).drop_last() =~= pats.subrange(0, k));
        lemma_verdict_none_extends(pats, path, k + 1);
    } else {
        assert(pats.subrange(0, k) =~= pats);
    }
}

/// Whether `path` is ignored under the patterns of the ignore file `ignore_text`.
pub fn should_ignore(path: &str, ignore_text: &str) -> (r: Result<bool, RepoError>)
    ensures
        match ignore_verdict(patterns_spec(ignore_text@), slashed(path@)) {
            None => r == Err::<bool, RepoError>(RepoError::InvalidData),
            Some(b) => r == Ok::<bool, RepoError>(b),
        },
{
    let pats = ignore_patterns(ignore_text);
    is_ignored(path, &pats)
}

} // verus!
