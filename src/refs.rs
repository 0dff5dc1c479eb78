use vstd::prelude::*;
use crate::error::RepoError;
use crate::index::strings_view;
use crate::tree::{lex_lt, name_lt};
use crate::text::{
    chars_of, is_space, join_on, lemma_split_append, lemma_split_free, lemma_split_nonempty,
    pieces_view, push_all, split_chars, split_on, starts_with_chars, string_of, trim, trim_end,
    trim_start, trimmed,
};

verus! {

/// Whether `s` begins with `prefix`.
pub open spec fn starts(s: Seq<char>, prefix: Seq<char>) -> bool {
    prefix.len() <= s.len() && s.subrange(0, prefix.len() as int) == prefix
}

pub open spec fn refs_prefix() -> Seq<char> {
    seq!['r', 'e', 'f', 's', '/']
}

pub open spec fn heads_prefix() -> Seq<char> {
    refs_prefix() + seq!['h', 'e', 'a', 'd', 's', '/']
}

pub open spec fn symbolic_prefix() -> Seq<char> {
    seq!['r', 'e', 'f', ':', ' ']
}

/// The full ref path of a name: a bare name lives under `refs/heads/`.
pub open spec fn ref_path_spec(name: Seq<char>) -> Seq<char> {
    if starts(name, refs_prefix()) {
        name
    } else {
        heads_prefix() + name
    }
}

/// The full ref path of `name`.
pub fn full_ref_name(name: &str) -> (r: String)
    ensures
        r@ == ref_path_spec(name@),
{
    let cs = chars_of(name);
    let p = chars_of("refs/");
    proof {
        reveal_strlit("refs/");
    }
    assert(p@ =~= refs_prefix());
    if starts_with_chars(cs.as_slice(), p.as_slice()) {
        string_of(cs.as_slice())
    } else {
        let mut r = String::new();
        push_all(&mut r, "refs/heads/");
        proof {
            reveal_strlit("refs/heads/");
        }
        assert(r@ =~= heads_prefix());
        push_all(&mut r, name);
        r
    }
}

/// What HEAD points at.
#[derive(Debug)]
pub enum HeadRef {
    /// Attached: the ref path of the current branch.
    Symbolic(String),
    /// Detached: a commit id.
    Detached(String),
}

/// HEAD's trimmed text: after a `ref: ` prefix, a ref path (`true`);
/// otherwise a bare commit id (`false`).
pub open spec fn head_spec(text: Seq<char>) -> (bool, Seq<char>) {
    let t = trim(text);
    if starts(t, symbolic_prefix()) {
        (true, t.subrange(5, t.len() as int))
    } else {
        (false, t)
    }
}

/// Reads HEAD's text.
pub fn parse_head(text: &str) -> (r: HeadRef)
    ensures
        match r {
            HeadRef::Symbolic(p) => head_spec(text@) == (true, p@),
            HeadRef::Detached(o) => head_spec(text@) == (false, o@),
        },
{
    let cs = chars_of(text);
    let t = trimmed(cs.as_slice());
    let tc = chars_of(t.as_str());
    let p = chars_of("ref: ");
    proof {
        reveal_strlit("ref: ");
    }
    assert(p@ =~= symbolic_prefix());
    if starts_with_chars(tc.as_slice(), p.as_slice()) {
        HeadRef::Symbolic(string_of(&tc[5..tc.len()]))
    } else {
        HeadRef::Detached(t)
    }
}

/// The last `/`-separated component of a path.
pub open spec fn last_component(p: Seq<char>) -> Seq<char> {
    split_on(p, '/').last()
}

/// The branch name that a ref path ends in.
pub fn branch_of_ref(path: &str) -> (r: String)
    ensures
        r@ == last_component(path@),
{
    let cs = chars_of(path);
    let parts = split_chars(cs.as_slice(), '/');
    proof {
        lemma_split_nonempty(path@, '/');
    }
    assert(pieces_view(parts@)[parts@.len() - 1] == parts@[parts@.len() - 1]@);
    string_of(parts[parts.len() - 1].as_slice())
}

/// What HEAD resolves to, given HEAD's text and the text of the ref it
/// points at (unused when HEAD is detached): the branch name, if attached,
/// and the commit id.
pub open spec fn resolve_spec(head_text: Seq<char>, ref_text: Seq<char>) -> (
    Option<Seq<char>>,
    Seq<char>,
) {
    let (attached, p) = head_spec(head_text);
    if attached {
        (Some(last_component(p)), trim(ref_text))
    } else {
        (None, p)
    }
}

/// Resolves HEAD: the branch name (the last component of the ref path) and
/// the trimmed commit id of the ref when attached; `None` and HEAD's own
/// trimmed text when detached.
pub fn resolve_head(head_text: &str, ref_text: &str) -> (r: (Option<String>, String))
    ensures
        ({
            let (b, o) = resolve_spec(head_text@, ref_text@);
            &&& o == r.1@
            &&& match r.0 {
                Some(n) => b == Some(n@),
                None => b is None,
            }
        }),
{
    match parse_head(head_text) {
        HeadRef::Symbolic(p) => {
            let name = branch_of_ref(p.as_str());
            let cs = chars_of(ref_text);
            (Some(name), trimmed(cs.as_slice()))
        },
        HeadRef::Detached(o) => (None, o),
    }
}

/// HEAD's text when attached to `branch`.
pub open spec fn symbolic_head_spec(branch: Seq<char>) -> Seq<char> {
    symbolic_prefix() + heads_prefix() + branch + seq!['\n']
}

/// HEAD's text when attached to `branch`.
pub fn symbolic_head_text(branch: &str) -> (r: String)
    ensures
        r@ == symbolic_head_spec(branch@),
{
    let mut r = String::new();
    push_all(&mut r, "ref: refs/heads/");
    proof {
        reveal_strlit("ref: refs/heads/");
    }
    assert(r@ =~= symbolic_prefix() + heads_prefix());
    push_all(&mut r, branch);
    r.push('\n');
    r
}

/// A branch name that HEAD can name: no whitespace at its ends.
pub open spec fn plain_branch(b: Seq<char>) -> bool {
    b.len() > 0 ==> !is_space(b[0]) && !is_space(b.last())
}

/// Attaching HEAD to a branch and resolving it gives back the branch's
/// last component (the branch itself when it has no `/`) and the trimmed
/// commit id of its ref.
pub proof fn lemma_attached_head_resolves(branch: Seq<char>, ref_text: Seq<char>)
    requires
        plain_branch(branch),
    ensures
        resolve_spec(symbolic_head_spec(branch), ref_text) == (
            Some(last_component(branch)),
            trim(ref_text),
        ),
        !branch.contains('/') ==> last_component(branch) == branch,
{
    let full = symbolic_head_spec(branch);
    let body = symbolic_prefix() + heads_prefix() + branch;
    assert(full =~= body.push('\n'));
    assert(trim_start(full) == full);
    assert(full.drop_last() =~= body);
    assert(!is_space(body.last())) by {
        if branch.len() > 0 {
            assert(body.last() == branch.last());
        } else {
            assert(body.last() == '/');
        }
    }
    assert(full.last() == '\n');
    assert(trim_end(body) == body);
    assert(trim_end(full) == trim_end(body));
    assert(trim(full) == body);
    assert(body.subrange(0, 5) =~= symbolic_prefix());
    let p = body.subrange(5, body.len() as int);
    assert(p =~= seq!['r', 'e', 'f', 's'] + seq!['/'] + (seq!['h', 'e', 'a', 'd', 's'] + seq!['/']
        + branch));
    lemma_split_append(seq!['r', 'e', 'f', 's'], seq!['h', 'e', 'a', 'd', 's'] + seq!['/'] + branch, '/');
    lemma_split_append(seq!['h', 'e', 'a', 'd', 's'], branch, '/');
    lemma_split_nonempty(branch, '/');
    assert(last_component(p) == last_component(branch));
    if !branch.contains('/') {
        lemma_split_free(branch, '/');
    }
}

/// The lowercase form of a text.
pub uninterp spec fn lower_of(s: Seq<char>) -> Seq<char>;

/// Relies on str::to_lowercase: the lowercase mapping of each character,
/// which depends on the text alone.
#[verifier::external_body]
fn lowercase(s: &str) -> (r: String)
    ensures
        r@ == lower_of(s@),
{
    s.to_lowercase()
}

/// `x` placed into `s` after the last name whose lowercase form is not greater.
pub open spec fn insert_name(s: Seq<Seq<char>>, x: Seq<char>) -> Seq<Seq<char>>
    decreases s.len(),
{
    if s.len() == 0 {
        seq![x]
    } else if lex_lt(lower_of(x), lower_of(s.last())) {
        insert_name(s.drop_last(), x).push(s.last())
    } else {
        s.push(x)
    }
}

/// Names sorted by their lowercase forms; names with equal forms keep their order.
pub open spec fn sort_names(ns: Seq<Seq<char>>) -> Seq<Seq<char>>
    decreases ns.len(),
{
    if ns.len() == 0 {
        ns
    } else {
        insert_name(sort_names(ns.drop_last()), ns.last())
    }
}

proof fn lemma_insert_name_at(s: Seq<Seq<char>>, x: Seq<char>, j: int)
    requires
        0 <= j <= s.len(),
        forall|k: int| j <= k < s.len() ==> lex_lt(lower_of(x), lower_of(#[trigger] s[k])),
        j == 0 || !lex_lt(lower_of(x), lower_of(s[j - 1])),
    ensures
        insert_name(s, x) == s.insert(j, x),
    decreases s.len(),
{
    if s.len() == 0 {
        assert(s.insert(j, x) =~= seq![x]);
    } else if j == s.len() {
        assert(s.insert(j, x) =~= s.push(x));
    } else {
        let q = s.drop_last();
        assert(lex_lt(lower_of(x), lower_of(s[s.len() - 1])));
        lemma_insert_name_at(q, x, j);
        assert(q.insert(j, x).push(s.last()) =~= s.insert(j, x));
    }
}

/// Ref names in case-insensitive order.
pub fn list_refs(names: Vec<String>) -> (r: Vec<String>)
    ensures
        strings_view(r@) == sort_names(strings_view(names@)),
{
    let ghost nv = strings_view(names@);
    let mut out: Vec<String> = Vec::new();
    let mut names = names;
    let n = names.len();
    let mut i: usize = 0;
    assert(strings_view(out@) =~= sort_names(nv.subrange(0, 0)));
    while names.len() > 0
        invariant
            i + names@.len() == n,
            n == nv.len(),
            forall|k: int| 0 <= k < names@.len() ==> #[trigger] names@[k]@ == nv[i + k],
            strings_view(out@) == sort_names(nv.subrange(0, i as int)),
        decreases names@.len(),
    {
        let ghost before = names@;
        let x = names.remove(0);
        assert(x@ == nv[i as int]);
        assert forall|k: int| 0 <= k < names@.len() implies #[trigger] names@[k]@ == nv[i + 1 + k] by {
            assert(names@[k] == before[k + 1]);
        }
        let ghost s = strings_view(out@);
        let xl = chars_of(lowercase(x.as_str()).as_str());
        let mut j: usize = out.len();
        while j > 0 && name_lt(xl.as_slice(), chars_of(lowercase(out[j - 1].as_str()).as_str()).as_slice())
            invariant
                j <= out@.len(),
                s == strings_view(out@),
                xl@ == lower_of(x@),
                forall|k: int| j <= k < s.len() ==> lex_lt(lower_of(x@), lower_of(#[trigger] s[k])),
            decreases j,
        {
            j = j - 1;
        }
        proof {
            lemma_insert_name_at(s, x@, j as int);
            assert(nv.subrange(0, i + 1).drop_last() =~= nv.subrange(0, i as int));
        }
        let ghost xv = x@;
        out.insert(j, x);
        assert(strings_view(out@) =~= s.insert(j as int, xv));
        i = i + 1;
    }
    assert(nv.subrange(0, i as int) =~= nv);
    out
}

/// The name of a ref found at `name` inside the directory reached by the
/// components `prefix` (empty at the top of the namespace).
pub fn nested_ref_name(prefix: &str, name: &str) -> (r: String)
    ensures
        r@ == if prefix@.len() == 0 {
            name@
        } else {
            prefix@ + seq!['/'] + name@
        },
{
    let mut r = String::new();
    push_all(&mut r, prefix);
    if prefix.unicode_len() > 0 {
        r.push('/');
    }
    push_all(&mut r, name);
    r
}

/// Joining the pieces of a text with the separator gives the text back.
pub proof fn lemma_join_split(s: Seq<char>, sep: char)
    ensures
        join_on(split_on(s, sep), sep) == s,
    decreases s.len(),
{
    if s.len() > 0 {
        let p = s.drop_last();
        lemma_join_split(p, sep);
        lemma_split_nonempty(p, sep);
        let ps = split_on(p, sep);
        if s.last() == sep {
            let qs = ps.push(Seq::<char>::empty());
            assert(qs.drop_last() =~= ps);
            assert(join_on(qs, sep) == join_on(ps, sep) + seq![sep] + Seq::<char>::empty());
            assert(p.push(sep) =~= s);
        } else {
            let qs = ps.update(ps.len() - 1, ps.last().push(s.last()));
            lemma_join_push_last(ps, s.last(), sep);
            assert(p.push(s.last()) =~= s);
        }
    } else {
        assert(split_on(s, sep) =~= seq![Seq::<char>::empty()]);
    }
}

proof fn lemma_join_push_last(ps: Seq<Seq<char>>, c: char, sep: char)
    requires
        ps.len() >= 1,
    ensures
        join_on(ps.update(ps.len() - 1, ps.last().push(c)), sep) == join_on(ps, sep).push(c),
{
    let qs = ps.update(ps.len() - 1, ps.last().push(c));
    if ps.len() == 1 {
    } else {
        assert(qs.drop_last() =~= ps.drop_last());
        assert(join_on(qs, sep) == join_on(ps.drop_last(), sep) + seq![sep] + ps.last().push(c));
        assert(join_on(ps.drop_last(), sep) + seq![sep] + ps.last().push(c) =~= (join_on(
            ps.drop_last(),
            sep,
        ) + seq![sep] + ps.last()).push(c));
    }
}

/// A nested branch is stored under one directory per component of its
/// name, and listing joins the components back with `/`: the name comes
/// back unchanged.
pub proof fn lemma_nested_name_recovered(name: Seq<char>)
    ensures
        join_on(split_on(name, '/'), '/') == name,
{
    lemma_join_split(name, '/');
}

/// The commit id that a ref file's text holds.
pub fn read_ref(ref_text: &str) -> (r: String)
    ensures
        r@ == trim(ref_text@),
{
    let cs = chars_of(ref_text);
    trimmed(cs.as_slice())
}

/// HEAD's new text when attaching it to `branch`; fails with `NotFound`
/// when the branch does not exist.
pub fn set_head_ref(branch: &str, branch_exists: bool) -> (r: Result<String, RepoError>)
    ensures
        match r {
            Ok(t) => branch_exists && t@ == symbolic_head_spec(branch@),
            Err(e) => !branch_exists && e == RepoError::NotFound,
        },
{
    if !branch_exists {
        return Err(RepoError::NotFound);
    }
    Ok(symbolic_head_text(branch))
}

/// HEAD's new text when detaching it at the commit `oid`; fails with
/// `NotFound` when the commit object is not stored.
pub fn set_head_detached(oid: &str, object_exists: bool) -> (r: Result<String, RepoError>)
    ensures
        match r {
            Ok(t) => object_exists && t@ == oid@,
            Err(e) => !object_exists && e == RepoError::NotFound,
        },
{
    if !object_exists {
        return Err(RepoError::NotFound);
    }
    let cs = chars_of(oid);
    Ok(string_of(cs.as_slice()))
}

} // verus!
