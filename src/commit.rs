use vstd::prelude::*;
use crate::hash::{is_hex_digit, is_oid};
use crate::refs::starts;
use crate::text::{
    chars_of, is_space, lemma_split_append, lemma_split_free, lemma_split_nonempty, lines_of,
    pieces_view, push_all, split_on, starts_with_chars, string_of, text_lines, trim, trim_end,
    trim_start, trimmed,
};

verus! {

pub open spec fn tree_prefix() -> Seq<char> {
    seq!['t', 'r', 'e', 'e', ' ']
}

pub open spec fn parent_prefix() -> Seq<char> {
    seq!['p', 'a', 'r', 'e', 'n', 't', ' ']
}

pub open spec fn object_prefix() -> Seq<char> {
    seq!['o', 'b', 'j', 'e', 'c', 't', ' ']
}

/// The payload of a commit: its tree line, a parent line when the trimmed
/// `parent` is not empty, a blank line, and the trimmed message with a
/// final newline.
pub open spec fn commit_spec(tree: Seq<char>, parent: Seq<char>, message: Seq<char>) -> Seq<char> {
    let head = tree_prefix() + tree + seq!['\n'];
    let parents = if trim(parent).len() > 0 {
        parent_prefix() + trim(parent) + seq!['\n']
    } else {
        Seq::<char>::empty()
    };
    head + parents + seq!['\n'] + trim(message) + seq!['\n']
}

/// Builds a commit payload.
pub fn commit_payload(tree: &str, parent: &str, message: &str) -> (r: String)
    ensures
        r@ == commit_spec(tree@, parent@, message@),
{
    let mut r = String::new();
    push_all(&mut r, "tree ");
    proof {
        reveal_strlit("tree ");
        reveal_strlit("parent ");
    }
    push_all(&mut r, tree);
    r.push('\n');
    assert(r@ =~= tree_prefix() + tree@ + seq!['\n']);
    let pc = chars_of(parent);
    let p = trimmed(pc.as_slice());
    if p.as_str().unicode_len() > 0 {
        push_all(&mut r, "parent ");
        push_all(&mut r, p.as_str());
        r.push('\n');
    }
    let mc = chars_of(message);
    let m = trimmed(mc.as_slice());
    r.push('\n');
    push_all(&mut r, m.as_str());
    r.push('\n');
    assert(r@ =~= commit_spec(tree@, parent@, message@));
    r
}

/// The payload of an annotated tag.
pub open spec fn tag_spec(oid: Seq<char>, message: Seq<char>) -> Seq<char> {
    object_prefix() + oid + seq!['\n', '\n'] + message
}

/// Builds an annotated tag payload: an object line, a blank line, the message.
pub fn tag_payload(oid: &str, message: &str) -> (r: String)
    ensures
        r@ == tag_spec(oid@, message@),
{
    let mut r = String::new();
    push_all(&mut r, "object ");
    proof {
        reveal_strlit("object ");
    }
    push_all(&mut r, oid);
    r.push('\n');
    r.push('\n');
    push_all(&mut r, message);
    assert(r@ =~= tag_spec(oid@, message@));
    r
}

/// The tree id of the first line that starts with `tree `, trimmed.
pub open spec fn tree_of_lines(ls: Seq<Seq<char>>) -> Option<Seq<char>>
    decreases ls.len(),
{
    if ls.len() == 0 {
        None
    } else if starts(ls[0], tree_prefix()) {
        Some(trim(ls[0].subrange(5, ls[0].len() as int)))
    } else {
        tree_of_lines(ls.drop_first())
    }
}

/// The tree id that a commit payload names, if any.
pub open spec fn commit_tree_spec(text: Seq<char>) -> Option<Seq<char>> {
    tree_of_lines(lines_of(text))
}

/// The tree id of a commit payload.
pub fn commit_tree(text: &str) -> (r: Option<String>)
    ensures
        match r {
            Some(t) => commit_tree_spec(text@) == Some(t@),
            None => commit_tree_spec(text@) is None,
        },
{
    let ls = text_lines(text);
    let p = chars_of("tree ");
    proof {
        reveal_strlit("tree ");
    }
    assert(p@ =~= tree_prefix());
    let ghost all = pieces_view(ls@);
    let mut i: usize = 0;
    assert(all.subrange(0, all.len() as int) =~= all);
    while i < ls.len()
        invariant
            i <= ls@.len(),
            all == pieces_view(ls@),
            all == lines_of(text@),
            p@ == tree_prefix(),
            tree_of_lines(all) == tree_of_lines(all.subrange(i as int, all.len() as int)),
        decreases ls@.len() - i,
    {
        let ghost rest = all.subrange(i as int, all.len() as int);
        assert(rest.drop_first() =~= all.subrange(i + 1, all.len() as int));
        assert(rest[0] == ls@[i as int]@);
        let l = &ls[i];
        if starts_with_chars(l.as_slice(), p.as_slice()) {
            let sub = &l[5..l.len()];
            assert(sub@ == rest[0].subrange(5, rest[0].len() as int));
            assert(starts(rest[0], tree_prefix()));
            return Some(trimmed(sub));
        }
        i = i + 1;
    }
    None
}

/// The parent ids of a commit: the rest of each line of the trimmed
/// payload that starts with `parent `.
pub open spec fn parents_of_lines(ls: Seq<Seq<char>>) -> Seq<Seq<char>>
    decreases ls.len(),
{
    if ls.len() == 0 {
        Seq::<Seq<char>>::empty()
    } else {
        let prev = parents_of_lines(ls.drop_last());
        if starts(ls.last(), parent_prefix()) {
            prev.push(ls.last().subrange(7, ls.last().len() as int))
        } else {
            prev
        }
    }
}

pub open spec fn commit_parents_spec(text: Seq<char>) -> Seq<Seq<char>> {
    parents_of_lines(lines_of(trim(text)))
}

/// The parent ids of a commit payload, in order.
pub fn commit_parents(text: &str) -> (r: Vec<String>)
    ensures
        crate::index::strings_view(r@) == commit_parents_spec(text@),
{
    let tc = chars_of(text);
    let t = trimmed(tc.as_slice());
    let ls = text_lines(t.as_str());
    let p = chars_of("parent ");
    proof {
        reveal_strlit("parent ");
    }
    assert(p@ =~= parent_prefix());
    let ghost all = pieces_view(ls@);
    let mut out: Vec<String> = Vec::new();
    let mut i: usize = 0;
    while i < ls.len()
        invariant
            i <= ls@.len(),
            all == pieces_view(ls@),
            all == lines_of(trim(text@)),
            p@ == parent_prefix(),
            crate::index::strings_view(out@) == parents_of_lines(all.subrange(0, i as int)),
        decreases ls@.len() - i,
    {
        assert(all.subrange(0, i + 1).drop_last() =~= all.subrange(0, i as int));
        assert(all.subrange(0, i + 1).last() == ls@[i as int]@);
        let l = &ls[i];
        if starts_with_chars(l.as_slice(), p.as_slice()) {
            let ghost before = out@;
            let s = string_of(&l[7..l.len()]);
            out.push(s);
            assert(crate::index::strings_view(out@) =~= crate::index::strings_view(before).push(
                s@,
            ));
        }
        i = i + 1;
    }
    assert(all.subrange(0, i as int) =~= all);
    out
}

proof fn lemma_oid_plain(o: Seq<char>)
    requires
        is_oid(o),
    ensures
        trim(o) == o,
        !o.contains('\n'),
{
    assert(!is_space(o[0])) by {
        assert(is_hex_digit(o[0]));
    }
    assert(!is_space(o.last())) by {
        assert(is_hex_digit(o[o.len() - 1]));
    }
    assert(trim_start(o) == o);
    assert(trim_end(o) == o);
    if o.contains('\n') {
        let i = choose|i: int| 0 <= i < o.len() && o[i] == '\n';
        assert(is_hex_digit(o[i]));
    }
}

/// The commit that a payload built for a tree names that tree again.
pub proof fn lemma_commit_names_its_tree(tree: Seq<char>, parent: Seq<char>, message: Seq<char>)
    requires
        is_oid(tree),
    ensures
        commit_tree_spec(commit_spec(tree, parent, message)) == Some(tree),
{
    lemma_oid_plain(tree);
    let first = tree_prefix() + tree;
    let c = commit_spec(tree, parent, message);
    let rest = c.subrange(first.len() as int + 1, c.len() as int);
    assert(c =~= first + seq!['\n'] + rest);
    assert(!first.contains('\n')) by {
        if first.contains('\n') {
            let i = choose|i: int| 0 <= i < first.len() && first[i] == '\n';
            if i >= 5 {
                assert(tree[i - 5] == '\n');
            }
        }
    }
    lemma_split_append(first, rest, '\n');
    lemma_split_free(first, '\n');
    lemma_split_nonempty(rest, '\n');
    let ps = split_on(c, '\n');
    assert(ps.len() >= 2);
    assert(ps[0] == first);
    let ls = lines_of(c);
    assert(ls[0] == first);
    assert(first.subrange(0, 5) =~= tree_prefix());
    assert(first.subrange(5, first.len() as int) =~= tree);
}

} // verus!
