use vstd::prelude::*;
use crate::commit::{
    commit_parents, commit_parents_spec, commit_tree, commit_tree_spec, tree_prefix,
};
use crate::error::RepoError;
use crate::index::{is_lit, strings_view};
use crate::merge::{classify_ancestry, contains_string, dir_mode, Ancestor};
use crate::refs::starts;
use crate::text::{
    chars_of, lemma_split_nonempty, lines_of, pieces_view, split_chars, starts_with_chars,
    string_of, text_lines,
};
use crate::tree::{
    file_mode_644, file_mode_755, lookup_object, lookup_text, texts_view, tree_line,
    TextObject, TreeLine,
};

verus! {

/// The ids that the rows of a tree's lines name, or `None` when a row is
/// malformed.
pub open spec fn row_ids_of_lines(ls: Seq<Seq<char>>) -> Option<Seq<Seq<char>>>
    decreases ls.len(),
{
    if ls.len() == 0 {
        Some(Seq::<Seq<char>>::empty())
    } else {
        match row_ids_of_lines(ls.drop_last()) {
            None => None,
            Some(prev) => match tree_line(ls.last()) {
                TreeLine::Bad => None,
                TreeLine::Skip => Some(prev),
                TreeLine::File(e) => Some(prev.push(e.oids[0])),
                TreeLine::Dir(_, o) => Some(prev.push(o)),
            },
        }
    }
}

/// The ids that a payload names when read as a tree; none when it does not
/// read as one.
pub open spec fn row_ids(text: Seq<char>) -> Seq<Seq<char>> {
    match row_ids_of_lines(lines_of(text)) {
        Some(ids) => ids,
        None => Seq::<Seq<char>>::empty(),
    }
}

/// The objects that an object's payload names: for a commit (a payload
/// that starts with `tree `) its tree and parents, or only its parents when
/// `parents_only`; for anything else the ids of its tree rows.
pub open spec fn kids(text: Seq<char>, parents_only: bool) -> Seq<Seq<char>> {
    if parents_only {
        commit_parents_spec(text)
    } else if starts(text, tree_prefix()) {
        match commit_tree_spec(text) {
            Some(t) => seq![t] + commit_parents_spec(text),
            None => commit_parents_spec(text),
        }
    } else {
        row_ids(text)
    }
}

/// Whether every element of `xs` is in `s`.
pub open spec fn covers(s: Set<Seq<char>>, xs: Seq<Seq<char>>) -> bool {
    forall|i: int| 0 <= i < xs.len() ==> s.contains(#[trigger] xs[i])
}

/// Whether `s` holds what each of its stored, not already known members names.
pub open spec fn closed_set(
    store: Seq<(Seq<char>, Seq<char>)>,
    known: Seq<Seq<char>>,
    s: Set<Seq<char>>,
    parents_only: bool,
) -> bool {
    forall|x: Seq<char>|
        #![trigger s.contains(x)]
        s.contains(x) && !known.contains(x) ==> match lookup_text(store, x) {
            None => true,
            Some(t) => covers(s, kids(t, parents_only)),
        }
}

/// Whether `xs` lies in every closed set that holds `roots`: each element
/// is reachable from the roots.
pub open spec fn reached(
    store: Seq<(Seq<char>, Seq<char>)>,
    known: Seq<Seq<char>>,
    roots: Seq<Seq<char>>,
    parents_only: bool,
    xs: Seq<Seq<char>>,
) -> bool {
    forall|s: Set<Seq<char>>|
        #[trigger] closed_set(store, known, s, parents_only) && covers(s, roots) ==> covers(s, xs)
}

/// The number of unset marks.
pub open spec fn unset(marks: Seq<bool>) -> nat
    decreases marks.len(),
{
    if marks.len() == 0 {
        0
    } else {
        unset(marks.drop_last()) + if marks.last() {
            0nat
        } else {
            1nat
        }
    }
}

proof fn lemma_unset_set(marks: Seq<bool>, i: int)
    requires
        0 <= i < marks.len(),
        !marks[i],
    ensures
        unset(marks.update(i, true)) + 1 == unset(marks),
    decreases marks.len(),
{
    let m2 = marks.update(i, true);
    if i == marks.len() - 1 {
        assert(m2.drop_last() =~= marks.drop_last());
    } else {
        assert(m2.drop_last() =~= marks.drop_last().update(i, true));
        lemma_unset_set(marks.drop_last(), i);
    }
}

proof fn lemma_unset_bound(marks: Seq<bool>)
    ensures
        unset(marks) <= marks.len(),
    decreases marks.len(),
{
    if marks.len() > 0 {
        lemma_unset_bound(marks.drop_last());
    }
}

/// The first position of `oid` among the stored objects, or -1.
pub open spec fn first_at(store: Seq<(Seq<char>, Seq<char>)>, oid: Seq<char>) -> int
    decreases store.len(),
{
    if store.len() == 0 {
        -1
    } else if store[0].0 == oid {
        0
    } else {
        let k = first_at(store.drop_first(), oid);
        if k < 0 {
            -1
        } else {
            k + 1
        }
    }
}

proof fn lemma_first_at(store: Seq<(Seq<char>, Seq<char>)>, oid: Seq<char>)
    ensures
        -1 <= first_at(store, oid) < store.len(),
        first_at(store, oid) >= 0 ==> store[first_at(store, oid)].0 == oid && lookup_text(store, oid)
            == Some(store[first_at(store, oid)].1),
        first_at(store, oid) == -1 <==> lookup_text(store, oid) is None,
    decreases store.len(),
{
    if store.len() > 0 && store[0].0 != oid {
        lemma_first_at(store.drop_first(), oid);
    }
}

fn find_object(objs: &Vec<TextObject>, oid: &String) -> (r: Option<usize>)
    ensures
        match r {
            Some(i) => first_at(texts_view(objs@), oid@) == i,
            None => first_at(texts_view(objs@), oid@) == -1,
        },
{
    let ghost tv = texts_view(objs@);
    let mut i: usize = 0;
    assert(tv.subrange(0, tv.len() as int) =~= tv);
    while i < objs.len()
        invariant
            i <= objs@.len(),
            tv == texts_view(objs@),
            first_at(tv, oid@) == if first_at(tv.subrange(i as int, tv.len() as int), oid@) < 0 {
                -1
            } else {
                first_at(tv.subrange(i as int, tv.len() as int), oid@) + i
            },
        decreases objs@.len() - i,
    {
        let ghost rest = tv.subrange(i as int, tv.len() as int);
        assert(rest.drop_first() =~= tv.subrange(i + 1, tv.len() as int));
        assert(rest[0] == (objs@[i as int].oid@, objs@[i as int].text@));
        if objs[i].oid == *oid {
            return Some(i);
        }
        i = i + 1;
    }
    None
}

proof fn lemma_row_ids_none_extends(ls: Seq<Seq<char>>, k: int)
    requires
        0 <= k <= ls.len(),
        row_ids_of_lines(ls.subrange(0, k)) is None,
    ensures
        row_ids_of_lines(ls) is None,
    decreases ls.len() - k,
{
    if k < ls.len() {
        assert(ls.subrange(0, k + 1).drop_last() =~= ls.subrange(0, k));
        lemma_row_ids_none_extends(ls, k + 1);
    } else {
        assert(ls.subrange(0, k) =~= ls);
    }
}

/// The ids that the rows of a tree payload name.
fn tree_row_ids(text: &str) -> (r: Vec<String>)
    ensures
        strings_view(r@) == row_ids(text@),
{
    let ls = text_lines(text);
    let ghost lines = lines_of(text@);
    assert(pieces_view(ls@) =~= lines);
    let mut out: Vec<String> = Vec::new();
    assert(strings_view(out@) =~= Seq::<Seq<char>>::empty());
    let mut i: usize = 0;
    while i < ls.len()
        invariant
            i <= ls@.len(),
            pieces_view(ls@) == lines,
            lines == lines_of(text@),
            row_ids_of_lines(lines.subrange(0, i as int)) == Some(strings_view(out@)),
        decreases ls@.len() - i,
    {
        assert(lines.subrange(0, i + 1).drop_last() =~= lines.subrange(0, i as int));
        assert(lines.subrange(0, i + 1).last() == ls@[i as int]@);
        let f = split_chars(ls[i].as_slice(), '\t');
        proof {
            lemma_split_nonempty(ls@[i as int]@, '\t');
        }
        assert(pieces_view(f@)[0] == f@[0]@);
        proof {
            reveal_strlit("X");
            reveal_strlit("C");
            reveal_strlit("100644");
            reveal_strlit("100755");
            reveal_strlit("040000");
        }
        assert("X"@ =~= seq!['X']);
        assert("C"@ =~= seq!['C']);
        if is_lit(&f[0], "X") {
        } else if is_lit(&f[0], "C") {
            if f.len() < 4 {
                proof {
                    lemma_row_ids_none_extends(lines, i as int + 1);
                }
                return Vec::new();
            }
            assert(pieces_view(f@)[1] == f@[1]@);
            assert(pieces_view(f@)[3] == f@[3]@);
            assert("100644"@ =~= file_mode_644());
            assert("100755"@ =~= file_mode_755());
            assert("040000"@ =~= dir_mode());
            if is_lit(&f[1], "100644") || is_lit(&f[1], "100755") || is_lit(&f[1], "040000") {
                let ghost before = out@;
                let o = string_of(f[3].as_slice());
                out.push(o);
                assert(strings_view(out@) =~= strings_view(before).push(o@));
            }
        } else {
            proof {
                lemma_row_ids_none_extends(lines, i as int + 1);
            }
            return Vec::new();
        }
        i = i + 1;
    }
    assert(lines.subrange(0, i as int) =~= lines);
    out
}

/// What an object's payload names, as `kids` says.
fn object_kids(text: &String, parents_only: bool) -> (r: Vec<String>)
    ensures
        strings_view(r@) == kids(text@, parents_only),
{
    if parents_only {
        return commit_parents(text.as_str());
    }
    let cs = chars_of(text.as_str());
    let p = chars_of("tree ");
    proof {
        reveal_strlit("tree ");
    }
    assert(p@ =~= tree_prefix());
    if starts_with_chars(cs.as_slice(), p.as_slice()) {
        let parents = commit_parents(text.as_str());
        match commit_tree(text.as_str()) {
            Some(t) => {
                let mut r: Vec<String> = Vec::new();
                r.push(t);
                let mut i: usize = 0;
                while i < parents.len()
                    invariant
                        i <= parents@.len(),
                        strings_view(r@) == seq![t@] + strings_view(parents@).subrange(0, i as int),
                    decreases parents@.len() - i,
                {
                    let ghost before = r@;
                    let c = parents[i].clone();
                    r.push(c);
                    i = i + 1;
                    assert(strings_view(r@) =~= strings_view(before).push(c@));
                    assert(strings_view(r@) =~= seq![t@] + strings_view(parents@).subrange(0, i as int));
                }
                assert(strings_view(parents@).subrange(0, i as int) =~= strings_view(parents@));
                r
            },
            None => parents,
        }
    } else {
        tree_row_ids(text.as_str())
    }
}

/// Whether `x` is known, visited or still to visit.
pub open spec fn seen(k: Seq<Seq<char>>, v: Seq<Seq<char>>, w: Seq<Seq<char>>, x: Seq<char>) -> bool {
    k.contains(x) || v.contains(x) || w.contains(x)
}

/// What a walk from `roots` returns: the objects reachable from them that
/// are not known, each once and each stored, with everything that one of
/// them names known or returned too.
pub open spec fn walk_result(
    st: Seq<(Seq<char>, Seq<char>)>,
    kn: Seq<Seq<char>>,
    rt: Seq<Seq<char>>,
    parents_only: bool,
    vs: Seq<Seq<char>>,
) -> bool {
    &&& reached(st, kn, rt, parents_only, vs)
    &&& vs.no_duplicates()
    &&& forall|i: int|
        0 <= i < vs.len() ==> !kn.contains(#[trigger] vs[i]) && lookup_text(st, vs[i]) is Some
    &&& forall|i: int| 0 <= i < rt.len() ==> kn.contains(#[trigger] rt[i]) || vs.contains(rt[i])
    &&& forall|i: int, j: int|
        0 <= i < vs.len() && 0 <= j < kids(lookup_text(st, vs[i])->0, parents_only).len()
            ==> kn.contains(#[trigger] kids(lookup_text(st, #[trigger] vs[i])->0, parents_only)[j])
            || vs.contains(kids(lookup_text(st, vs[i])->0, parents_only)[j])
}

/// Why a walk fails: a reachable object that is neither known nor stored.
pub open spec fn walk_failure(
    st: Seq<(Seq<char>, Seq<char>)>,
    kn: Seq<Seq<char>>,
    rt: Seq<Seq<char>>,
    parents_only: bool,
) -> bool {
    exists|x: Seq<char>|
        reached(st, kn, rt, parents_only, seq![x]) && !kn.contains(x) && #[trigger] lookup_text(
            st,
            x,
        ) is None
}

/// The objects reachable from `roots` through `store` by what each names
/// (`kids`), not walking past ids in `known`: the smallest set that holds
/// the roots and is closed. Each is returned once. Fails with `NotFound`
/// when a reachable object that is not known is missing from the store.
pub fn walk_objects(
    store: &Vec<TextObject>,
    roots: &Vec<String>,
    known: &Vec<String>,
    parents_only: bool,
) -> (r: Result<Vec<String>, RepoError>)
    ensures
        match r {
            Ok(v) => walk_result(
                texts_view(store@),
                strings_view(known@),
                strings_view(roots@),
                parents_only,
                strings_view(v@),
            ),
            Err(e) => e == RepoError::NotFound && walk_failure(
                texts_view(store@),
                strings_view(known@),
                strings_view(roots@),
                parents_only,
            ),
        },
{
    let ghost st = texts_view(store@);
    let ghost kn = strings_view(known@);
    let ghost rt = strings_view(roots@);
    let mut work: Vec<String> = Vec::new();
    let mut i: usize = 0;
    while i < roots.len()
        invariant
            i <= roots@.len(),
            rt == strings_view(roots@),
            strings_view(work@) == rt.subrange(0, i as int),
        decreases roots@.len() - i,
    {
        let ghost before = work@;
        let c = roots[i].clone();
        work.push(c);
        i = i + 1;
        assert(strings_view(work@) =~= strings_view(before).push(c@));
        assert(strings_view(work@) =~= rt.subrange(0, i as int));
    }
    assert(rt.subrange(0, i as int) =~= rt);
    let mut visited: Vec<String> = Vec::new();
    let mut marks: Vec<bool> = Vec::new();
    let mut j: usize = 0;
    while j < store.len()
        invariant
            j <= store@.len(),
            marks@.len() == j,
            forall|k: int| 0 <= k < j ==> !(#[trigger] marks@[k]),
        decreases store@.len() - j,
    {
        marks.push(false);
        j = j + 1;
    }
    assert(strings_view(visited@) =~= Seq::<Seq<char>>::empty());
    assert(reached(st, kn, rt, parents_only, strings_view(work@))) by {
        assert forall|s: Set<Seq<char>>|
            #[trigger] closed_set(st, kn, s, parents_only) && covers(s, rt) implies covers(
            s,
            strings_view(work@),
        ) by {}
    }
    while work.len() > 0
        invariant
            st == texts_view(store@),
            kn == strings_view(known@),
            rt == strings_view(roots@),
            marks@.len() == store@.len(),
            reached(st, kn, rt, parents_only, strings_view(visited@)),
            reached(st, kn, rt, parents_only, strings_view(work@)),
            strings_view(visited@).no_duplicates(),
            forall|a: int|
                0 <= a < visited@.len() ==> !kn.contains(#[trigger] strings_view(visited@)[a])
                    && lookup_text(st, strings_view(visited@)[a]) is Some,
            forall|b: int|
                0 <= b < marks@.len() ==> (#[trigger] marks@[b] <==> (strings_view(visited@).contains(
                    st[b].0,
                ) && first_at(st, st[b].0) == b)),
            forall|a: int|
                0 <= a < rt.len() ==> seen(
                    kn,
                    strings_view(visited@),
                    strings_view(work@),
                    #[trigger] rt[a],
                ),
            forall|a: int, c: int|
                0 <= a < visited@.len() && 0 <= c < kids(
                    lookup_text(st, strings_view(visited@)[a])->0,
                    parents_only,
                ).len() ==> seen(
                    kn,
                    strings_view(visited@),
                    strings_view(work@),
                    #[trigger] kids(lookup_text(st, #[trigger] strings_view(visited@)[a])->0, parents_only)[c],
                ),
        decreases unset(marks@), work@.len(),
    {
        let ghost v0 = strings_view(visited@);
        let ghost w0 = strings_view(work@);
        let x = work.pop().unwrap();
        let ghost w1 = strings_view(work@);
        assert(w0 =~= w1.push(x@));
        assert(w0.last() == x@);
        if contains_string(known, &x) || contains_string(&visited, &x) {
            assert forall|s: Set<Seq<char>>|
                #[trigger] closed_set(st, kn, s, parents_only) && covers(s, rt) implies covers(s, w1) by {
                assert(covers(s, w0));
                assert forall|a: int| 0 <= a < w1.len() implies s.contains(#[trigger] w1[a]) by {
                    assert(w1[a] == w0[a]);
                }
            }
            assert forall|a: int| 0 <= a < rt.len() implies seen(kn, v0, w1, #[trigger] rt[a]) by {
                assert(seen(kn, v0, w0, rt[a]));
                if w0.contains(rt[a]) && !kn.contains(rt[a]) && !v0.contains(rt[a]) {
                    let q = choose|q: int| 0 <= q < w0.len() && w0[q] == rt[a];
                    if q < w1.len() {
                        assert(w1[q] == rt[a]);
                    }
                }
            }
            assert forall|a: int, c: int|
                0 <= a < v0.len() && 0 <= c < kids(lookup_text(st, v0[a])->0, parents_only).len()
                    implies seen(kn, v0, w1, #[trigger] kids(lookup_text(st, #[trigger] v0[a])->0, parents_only)[c]) by {
                let y = kids(lookup_text(st, v0[a])->0, parents_only)[c];
                assert(seen(kn, v0, w0, y));
                if w0.contains(y) && !kn.contains(y) && !v0.contains(y) {
                    let q = choose|q: int| 0 <= q < w0.len() && w0[q] == y;
                    if q < w1.len() {
                        assert(w1[q] == y);
                    }
                }
            }
            continue;
        }
        let found = find_object(store, &x);
        proof {
            lemma_first_at(st, x@);
        }
        let at = match found {
            Some(at) => at,
            None => {
                assert(reached(st, kn, rt, parents_only, seq![x@])) by {
                    assert forall|s: Set<Seq<char>>|
                        #[trigger] closed_set(st, kn, s, parents_only) && covers(s, rt) implies covers(
                        s,
                        seq![x@],
                    ) by {
                        assert(covers(s, w0));
                        assert(s.contains(w0[w0.len() - 1]));
                    }
                }
                return Err(RepoError::NotFound);
            },
        };
        assert(!marks@[at as int]) by {
            if marks@[at as int] {
                assert(st[at as int].0 == x@);
            }
        }
        let ghost m0 = marks@;
        marks.set(at, true);
        proof {
            lemma_unset_set(m0, at as int);
        }
        let kids_x = object_kids(&store[at].text, parents_only);
        let ghost t = lookup_text(st, x@)->0;
        assert(store@[at as int].text@ == t);
        let ghost ks = strings_view(kids_x@);
        visited.push(x);
        let ghost v1 = strings_view(visited@);
        assert(v1 =~= v0.push(x@));
        let mut k: usize = 0;
        while k < kids_x.len()
            invariant
                k <= kids_x@.len(),
                ks == strings_view(kids_x@),
                strings_view(work@) == w1 + ks.subrange(0, k as int),
            decreases kids_x@.len() - k,
        {
            let ghost before = work@;
            let c = kids_x[k].clone();
            work.push(c);
            k = k + 1;
            assert(strings_view(work@) =~= strings_view(before).push(c@));
            assert(strings_view(work@) =~= w1 + ks.subrange(0, k as int));
        }
        assert(ks.subrange(0, k as int) =~= ks);
        let ghost w2 = strings_view(work@);
        assert(w2 =~= w1 + ks);
        assert forall|s: Set<Seq<char>>|
            #[trigger] closed_set(st, kn, s, parents_only) && covers(s, rt) implies covers(s, v1)
                && covers(s, w2) by {
            assert(covers(s, w0));
            assert(covers(s, v0));
            assert(s.contains(w0[w0.len() - 1]));
            assert(s.contains(x@));
            assert(covers(s, ks));
            assert forall|a: int| 0 <= a < v1.len() implies s.contains(#[trigger] v1[a]) by {
                if a < v0.len() {
                    assert(v1[a] == v0[a]);
                }
            }
            assert forall|a: int| 0 <= a < w2.len() implies s.contains(#[trigger] w2[a]) by {
                if a < w1.len() {
                    assert(w2[a] == w0[a]);
                } else {
                    assert(w2[a] == ks[a - w1.len()]);
                }
            }
        }
        assert forall|y: Seq<char>| seen(kn, v0, w0, y) implies seen(kn, v1, w2, y) by {
            if v0.contains(y) {
                let q = choose|q: int| 0 <= q < v0.len() && v0[q] == y;
                assert(v1[q] == y);
            }
            if w0.contains(y) && !kn.contains(y) && !v0.contains(y) {
                let q = choose|q: int| 0 <= q < w0.len() && w0[q] == y;
                if q < w1.len() {
                    assert(w2[q] == y);
                } else {
                    assert(v1[v0.len() as int] == y);
                }
            }
        }
        assert forall|a: int| 0 <= a < rt.len() implies seen(kn, v1, w2, #[trigger] rt[a]) by {
            assert(seen(kn, v0, w0, rt[a]));
        }
        assert forall|a: int, c: int|
            0 <= a < v1.len() && 0 <= c < kids(lookup_text(st, v1[a])->0, parents_only).len()
                implies seen(kn, v1, w2, #[trigger] kids(lookup_text(st, #[trigger] v1[a])->0, parents_only)[c]) by {
            if a < v0.len() {
                assert(v1[a] == v0[a]);
                let y = kids(lookup_text(st, v0[a])->0, parents_only)[c];
                assert(seen(kn, v0, w0, y));
            } else {
                assert(v1[a] == x@);
                assert(w2[w1.len() + c] == ks[c]);
            }
        }
        assert forall|b: int|
            0 <= b < marks@.len() implies (#[trigger] marks@[b] <==> (v1.contains(st[b].0)
                && first_at(st, st[b].0) == b)) by {
            if b != at {
                assert(marks@[b] == m0[b]);
                if v1.contains(st[b].0) && !v0.contains(st[b].0) {
                    assert(st[b].0 == x@);
                }
                if v0.contains(st[b].0) {
                    let q = choose|q: int| 0 <= q < v0.len() && v0[q] == st[b].0;
                    assert(v1[q] == st[b].0);
                }
            } else {
                assert(v1[v0.len() as int] == x@);
            }
        }
        assert forall|a: int| 0 <= a < v1.len() implies !kn.contains(#[trigger] v1[a])
            && lookup_text(st, v1[a]) is Some by {
            if a < v0.len() {
                assert(v1[a] == v0[a]);
            }
        }
        assert(v1.no_duplicates()) by {
            assert forall|a: int, b: int| 0 <= a < b < v1.len() implies v1[a] != v1[b] by {
                if b == v0.len() {
                    assert(v1[a] == v0[a]);
                } else {
                    assert(v1[a] == v0[a] && v1[b] == v0[b]);
                }
            }
        }
    }
    Ok(visited)
}

/// The ancestors of the commit `oid`: every commit reachable through
/// parent links, the commit itself excluded unless a cycle leads back to
/// it. Fails with `NotFound` when `oid` or a reachable commit is not stored.
pub fn collect_all_ancestors(store: &Vec<TextObject>, oid: &String) -> (r: Result<
    Vec<String>,
    RepoError,
>)
    ensures
        ({
            let st = texts_view(store@);
            match lookup_text(st, oid@) {
                None => r == Err::<Vec<String>, RepoError>(RepoError::NotFound),
                Some(t) => match r {
                    Ok(v) => walk_result(
                        st,
                        Seq::<Seq<char>>::empty(),
                        commit_parents_spec(t),
                        true,
                        strings_view(v@),
                    ),
                    Err(e) => e == RepoError::NotFound && walk_failure(
                        st,
                        Seq::<Seq<char>>::empty(),
                        commit_parents_spec(t),
                        true,
                    ),
                },
            }
        }),
{
    let text = match lookup_object(store, oid.as_str()) {
        Some(t) => t,
        None => {
            return Err(RepoError::NotFound);
        },
    };
    let roots = commit_parents(text.as_str());
    let none: Vec<String> = Vec::new();
    assert(strings_view(none@) =~= Seq::<Seq<char>>::empty());
    walk_objects(store, &roots, &none, true)
}

/// How `base` relates to `target` in the commit graph of `store`, as
/// `classify_ancestry` decides from the ancestors of each. Fails with
/// `NotFound` only when one of the two commits, or a commit reachable from
/// it, is not stored.
pub fn find_ancestor_type(store: &Vec<TextObject>, base: &String, target: &String) -> (r: Result<
    Ancestor,
    RepoError,
>)
    ensures
        ({
            let st = texts_view(store@);
            match r {
                Ok(a) => exists|ta: Seq<Seq<char>>, ba: Seq<Seq<char>>|
                    #![trigger walk_result(st, Seq::<Seq<char>>::empty(), commit_parents_spec(lookup_text(st, target@)->0), true, ta), walk_result(st, Seq::<Seq<char>>::empty(), commit_parents_spec(lookup_text(st, base@)->0), true, ba)]
                    walk_result(
                        st,
                        Seq::<Seq<char>>::empty(),
                        commit_parents_spec(lookup_text(st, target@)->0),
                        true,
                        ta,
                    ) && walk_result(
                        st,
                        Seq::<Seq<char>>::empty(),
                        commit_parents_spec(lookup_text(st, base@)->0),
                        true,
                        ba,
                    ) && lookup_text(st, target@) is Some && lookup_text(st, base@) is Some && match a {
                        Ancestor::Direct => ta.contains(base@),
                        Ancestor::DirectReverse => !ta.contains(base@) && ba.contains(target@),
                        Ancestor::Shared(c) => !ta.contains(base@) && !ba.contains(target@)
                            && crate::merge::first_shared(ba, ta) == Some(c@),
                        Ancestor::NotFound => !ta.contains(base@) && !ba.contains(target@)
                            && crate::merge::first_shared(ba, ta) is None,
                    },
                Err(e) => e == RepoError::NotFound && (lookup_text(st, target@) is None
                    || walk_failure(
                    st,
                    Seq::<Seq<char>>::empty(),
                    commit_parents_spec(lookup_text(st, target@)->0),
                    true,
                ) || lookup_text(st, base@) is None || walk_failure(
                    st,
                    Seq::<Seq<char>>::empty(),
                    commit_parents_spec(lookup_text(st, base@)->0),
                    true,
                )),
            }
        }),
{
    let target_anc = collect_all_ancestors(store, target)?;
    let base_anc = collect_all_ancestors(store, base)?;
    let r = classify_ancestry(base, target, &base_anc, &target_anc);
    proof {
        let st = texts_view(store@);
        let empty = Seq::<Seq<char>>::empty();
        assert(walk_result(st, empty, commit_parents_spec(lookup_text(st, target@)->0), true, strings_view(target_anc@)));
        assert(walk_result(st, empty, commit_parents_spec(lookup_text(st, base@)->0), true, strings_view(base_anc@)));
    }
    Ok(r)
}

/// The ids of the objects that a fetch of the commit `tip` copies from the
/// remote `store` into a repository that holds `local`: everything
/// reachable from the tip (commits, trees, blobs) that is not held yet.
pub fn fetch_remote(store: &Vec<TextObject>, local: &Vec<String>, tip: &String) -> (r: Result<
    Vec<String>,
    RepoError,
>)
    ensures
        match r {
            Ok(v) => walk_result(
                texts_view(store@),
                strings_view(local@),
                seq![tip@],
                false,
                strings_view(v@),
            ),
            Err(e) => e == RepoError::NotFound && walk_failure(
                texts_view(store@),
                strings_view(local@),
                seq![tip@],
                false,
            ),
        },
{
    let roots = vec![tip.clone()];
    assert(strings_view(roots@) =~= seq![tip@]);
    walk_objects(store, &roots, local, false)
}

/// Fetching is idempotent: a second fetch of the same tip, into a
/// repository that now also holds what the first one copied, copies nothing.
pub proof fn lemma_fetch_idempotent(
    st: Seq<(Seq<char>, Seq<char>)>,
    local: Seq<Seq<char>>,
    tip: Seq<char>,
    first: Seq<Seq<char>>,
    second: Seq<Seq<char>>,
)
    requires
        walk_result(st, local, seq![tip], false, first),
        walk_result(st, local + first, seq![tip], false, second),
    ensures
        second.len() == 0,
{
    let kn = local + first;
    assert(kn.contains(tip)) by {
        assert(seq![tip][0] == tip);
        if local.contains(tip) {
            let q = choose|q: int| 0 <= q < local.len() && local[q] == tip;
            assert(kn[q] == tip);
        } else {
            let q = choose|q: int| 0 <= q < first.len() && first[q] == tip;
            assert(kn[local.len() + q] == tip);
        }
    }
    let s = Set::<Seq<char>>::empty().insert(tip);
    assert(closed_set(st, kn, s, false));
    assert(covers(s, seq![tip]));
    if second.len() > 0 {
        assert(covers(s, second));
        assert(s.contains(second[0]));
        assert(!kn.contains(second[0]));
    }
}

/// A fast-forward keeps history: when the current commit `base` is among
/// the ancestors that a walk from `target` found (the `Direct` case), it
/// lies on every parent chain closure of the target, so the new tip
/// descends from it.
pub proof fn lemma_fast_forward_keeps_history(
    st: Seq<(Seq<char>, Seq<char>)>,
    base: Seq<char>,
    target: Seq<char>,
    ta: Seq<Seq<char>>,
)
    requires
        walk_result(st, Seq::<Seq<char>>::empty(), commit_parents_spec(lookup_text(st, target)->0), true, ta),
        ta.contains(base),
    ensures
        reached(st, Seq::<Seq<char>>::empty(), commit_parents_spec(lookup_text(st, target)->0), true, seq![base]),
{
    let rt = commit_parents_spec(lookup_text(st, target)->0);
    let q = choose|q: int| 0 <= q < ta.len() && ta[q] == base;
    assert forall|s: Set<Seq<char>>|
        #[trigger] closed_set(st, Seq::<Seq<char>>::empty(), s, true) && covers(s, rt) implies covers(s, seq![base]) by {
        assert(covers(s, ta));
        assert(s.contains(ta[q]));
    }
}

} // verus!
