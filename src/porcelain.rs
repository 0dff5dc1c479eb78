use vstd::prelude::*;
use crate::commit::{commit_payload, commit_spec, commit_tree, commit_tree_spec};
use crate::diff::{
    added_spec, deleted_spec, entry_paths_where, modified_spec, oid_for, on_disk,
    staged_delete_spec, staged_spec, tracks, untracked_spec, working_paths_where, WorkingView,
};
use crate::error::RepoError;
use crate::hash::{is_oid, sha256_hex};
use crate::index::{
    first_oid, index_view, lemma_position_bounds, position_of, strings_view, EntryView, IndexEntry,
};
use crate::merge::contains_string;
use crate::refs::{head_spec, parse_head, symbolic_head_spec, symbolic_head_text, HeadRef};
use crate::text::{chars_of, trim, trimmed};
use crate::tree::{
    blobs_present, clean_only, hash_text, lookup_text, object_ok, read_tree_spec,
    read_tree_to_index, root_tree_text, text_oid, texts_view, tree_fuel, tree_objects,
    write_tree_from_index, TextObject,
};

verus! {

/// Whether `p` is `path` itself or lies below it.
pub open spec fn under_path(p: Seq<char>, path: Seq<char>) -> bool {
    p == path || (p.len() > path.len() && p.subrange(0, path.len() as int) == path
        && p[path.len() as int] == '/')
}

/// The entries of `es` at or below `path`, in order.
pub open spec fn entries_under(es: Seq<EntryView>, path: Seq<char>) -> Seq<EntryView>
    decreases es.len(),
{
    if es.len() == 0 {
        es
    } else if under_path(es.last().path, path) {
        entries_under(es.drop_last(), path).push(es.last())
    } else {
        entries_under(es.drop_last(), path)
    }
}

fn under_path_exec(p: &String, path: &String) -> (r: bool)
    ensures
        r == under_path(p@, path@),
{
    let pc = chars_of(p.as_str());
    let qc = chars_of(path.as_str());
    if crate::text::chars_eq(pc.as_slice(), qc.as_slice()) {
        return true;
    }
    if pc.len() > qc.len() && crate::text::starts_with_chars(pc.as_slice(), qc.as_slice()) {
        return pc[qc.len()] == '/';
    }
    false
}

/// The entries of HEAD's tree that restoring `path` rewrites: those at or
/// below it. Fails with `NotFound` when there is none.
pub fn restore(head_tree: &Vec<IndexEntry>, path: &String) -> (r: Result<
    Vec<IndexEntry>,
    RepoError,
>)
    ensures
        ({
            let sel = entries_under(index_view(head_tree@), path@);
            match r {
                Ok(es) => sel.len() > 0 && index_view(es@) == sel,
                Err(e) => sel.len() == 0 && e == RepoError::NotFound,
            }
        }),
{
    let ghost hv = index_view(head_tree@);
    let mut out: Vec<IndexEntry> = Vec::new();
    let mut i: usize = 0;
    assert(index_view(out@) =~= Seq::<EntryView>::empty());
    while i < head_tree.len()
        invariant
            i <= head_tree@.len(),
            hv == index_view(head_tree@),
            index_view(out@) == entries_under(hv.subrange(0, i as int), path@),
        decreases head_tree@.len() - i,
    {
        assert(hv.subrange(0, i + 1).drop_last() =~= hv.subrange(0, i as int));
        assert(hv.subrange(0, i + 1).last() == head_tree@[i as int]@);
        if under_path_exec(&head_tree[i].path, path) {
            let ghost before = out@;
            let e = head_tree[i].duplicate();
            out.push(e);
            assert(index_view(out@) =~= index_view(before).push(e@));
        }
        i = i + 1;
    }
    assert(hv.subrange(0, i as int) =~= hv);
    if out.len() == 0 {
        return Err(RepoError::NotFound);
    }
    Ok(out)
}

/// The commit id that a new branch starts at: `source` when given, HEAD's
/// commit otherwise. Fails with `AlreadyExists` when `name` is among the
/// existing branches.
pub fn branch(
    existing: &Vec<String>,
    name: &String,
    source: Option<String>,
    head_oid: String,
) -> (r: Result<String, RepoError>)
    ensures
        strings_view(existing@).contains(name@) ==> r == Err::<String, RepoError>(
            RepoError::AlreadyExists,
        ),
        !strings_view(existing@).contains(name@) ==> match r {
            Ok(o) => o@ == match source {
                Some(s) => s@,
                None => head_oid@,
            },
            Err(_) => false,
        },
{
    if contains_string(existing, name) {
        return Err(RepoError::AlreadyExists);
    }
    match source {
        Some(s) => Ok(s),
        None => Ok(head_oid),
    }
}

/// What a tag writes: an optional annotated tag object, and the id the tag
/// ref holds.
#[derive(Debug)]
pub struct TagPlan {
    pub object: Option<TextObject>,
    pub target: String,
}

/// Plans a tag of `commit` (HEAD's commit when `None`). An explicit commit
/// must be stored (`commit_stored`), or the tag fails with `NotFound`. With
/// a message the tag is annotated: a tag object naming the commit is made
/// and the ref points at it; without, the ref points at the commit.
pub fn tag(
    commit: Option<String>,
    commit_stored: bool,
    message: Option<String>,
    head_oid: String,
) -> (r: Result<TagPlan, RepoError>)
    ensures
        commit is Some && !commit_stored ==> r == Err::<TagPlan, RepoError>(RepoError::NotFound),
        !(commit is Some && !commit_stored) ==> match r {
            Ok(p) => {
                let c = match commit {
                    Some(c) => c@,
                    None => head_oid@,
                };
                match message {
                    Some(m) => p.object matches Some(o) && o.text@ == crate::commit::tag_spec(
                        c,
                        m@,
                    ) && object_ok(o) && p.target@ == o.oid@,
                    None => p.object is None && p.target@ == c,
                }
            },
            Err(_) => false,
        },
{
    let c = match commit {
        Some(c) => {
            if !commit_stored {
                return Err(RepoError::NotFound);
            }
            c
        },
        None => head_oid,
    };
    match message {
        Some(m) => {
            let text = crate::commit::tag_payload(c.as_str(), m.as_str());
            let oid = hash_text(&text);
            Ok(TagPlan { object: Some(TextObject { oid: oid.clone(), text }), target: oid })
        },
        None => Ok(TagPlan { object: None, target: c }),
    }
}

/// What a commit writes.
#[derive(Debug)]
pub struct CommitResult {
    /// The ref that HEAD is attached to, which now names the commit.
    pub ref_path: String,
    /// The root tree's id.
    pub tree: String,
    /// The new commit's id.
    pub commit_oid: String,
    /// The objects to store: the trees, then the commit itself.
    pub objects: Vec<TextObject>,
    /// The index as the commit's tree gives it back.
    pub index: Vec<IndexEntry>,
}

fn append_objects(dst: &mut Vec<TextObject>, src: &Vec<TextObject>)
    ensures
        final(dst)@.len() == old(dst)@.len() + src@.len(),
        forall|k: int| 0 <= k < old(dst)@.len() ==> #[trigger] final(dst)@[k] == old(dst)@[k],
        forall|k: int|
            0 <= k < src@.len() ==> (#[trigger] final(dst)@[old(dst)@.len() + k]).oid@ == src@[k].oid@
                && final(dst)@[old(dst)@.len() + k].text@ == src@[k].text@,
{
    let ghost start = dst@;
    let mut i: usize = 0;
    while i < src.len()
        invariant
            i <= src@.len(),
            dst@.len() == start.len() + i,
            forall|k: int| 0 <= k < start.len() ==> #[trigger] dst@[k] == start[k],
            forall|k: int|
                0 <= k < i ==> (#[trigger] dst@[start.len() + k]).oid@ == src@[k].oid@
                    && dst@[start.len() + k].text@ == src@[k].text@,
        decreases src@.len() - i,
    {
        dst.push(TextObject { oid: src[i].oid.clone(), text: src[i].text.clone() });
        i = i + 1;
    }
}

/// Records the index as a commit on the branch HEAD is attached to.
/// `existing` holds the ids of the stored objects, `objs` the stored text
/// objects, `head_text` HEAD's text and `ref_text` the text of the ref it
/// names. Fails with `DetachedHeadForbidden` on a detached HEAD and with
/// `NotFound` when a staged blob is not stored; the index is then read
/// back from the new tree, new trees first, and a failure there is returned.
pub fn commit(
    index: &Vec<IndexEntry>,
    existing: &Vec<String>,
    objs: &Vec<TextObject>,
    head_text: &str,
    ref_text: &str,
    message: &str,
) -> (r: Result<CommitResult, RepoError>)
    ensures
        ({
            let iv = index_view(index@);
            let (attached, ref_path) = head_spec(head_text@);
            match r {
                Ok(c) => {
                    &&& attached && c.ref_path@ == ref_path
                    &&& blobs_present(iv, strings_view(existing@))
                    &&& c.tree@ == text_oid(root_tree_text(iv))
                    &&& is_oid(c.tree@)
                    &&& c.objects@.len() >= 2
                    &&& forall|k: int| 0 <= k < c.objects@.len() ==> object_ok(#[trigger] c.objects@[k])
                    &&& c.objects@.last().oid@ == c.commit_oid@
                    &&& c.objects@.last().text@ == commit_spec(c.tree@, ref_text@, message@)
                    &&& texts_view(c.objects@.drop_last()) == tree_objects(clean_only(iv), tree_fuel(iv))
                    &&& read_tree_spec(
                        texts_view(c.objects@.drop_last()) + texts_view(objs@),
                        c.tree@,
                        (c.objects@.len() - 1 + objs@.len()) as nat,
                    ) == Ok::<Seq<EntryView>, RepoError>(index_view(c.index@))
                },
                Err(e) => {
                    ||| !attached && e == RepoError::DetachedHeadForbidden
                    ||| attached && !blobs_present(iv, strings_view(existing@)) && e
                        == RepoError::NotFound
                    ||| attached && blobs_present(iv, strings_view(existing@)) && read_tree_spec(
                        tree_objects(clean_only(iv), tree_fuel(iv)) + texts_view(objs@),
                        text_oid(root_tree_text(iv)),
                        (tree_objects(clean_only(iv), tree_fuel(iv)).len() + objs@.len()) as nat,
                    ) == Err::<Seq<EntryView>, RepoError>(e)
                },
            }
        }),
{
    let ref_path = match parse_head(head_text) {
        HeadRef::Symbolic(p) => p,
        HeadRef::Detached(_) => {
            return Err(RepoError::DetachedHeadForbidden);
        },
    };
    let (tree, trees) = write_tree_from_index(index, existing)?;
    let mut store: Vec<TextObject> = Vec::new();
    append_objects(&mut store, &trees);
    let ghost mid = store@;
    append_objects(&mut store, objs);
    let ghost sv = texts_view(store@);
    assert(sv =~= texts_view(trees@) + texts_view(objs@)) by {
        assert forall|k: int| 0 <= k < sv.len() implies sv[k] == (texts_view(trees@) + texts_view(objs@))[k] by {
            if k >= trees@.len() {
                let j = k - trees@.len();
                assert(store@[trees@.len() + j].oid@ == objs@[j].oid@);
            } else {
                assert(store@[k] == mid[k]);
                assert(mid[0 + k].oid@ == trees@[k].oid@);
            }
        }
    }
    let read = read_tree_to_index(&store, tree.as_str());
    let new_index = match read {
        Ok(es) => es,
        Err(e) => {
            return Err(e);
        },
    };
    let text = commit_payload(tree.as_str(), ref_text, message);
    let commit_oid = hash_text(&text);
    let mut objects = trees;
    let ghost tv = objects@;
    objects.push(TextObject { oid: commit_oid.clone(), text });
    assert(objects@.drop_last() =~= tv);
    Ok(CommitResult { ref_path, tree, commit_oid, objects, index: new_index })
}

/// What a checkout writes: the index of the branch's tree (whose files
/// make up the new working tree) and HEAD's new text.
#[derive(Debug)]
pub struct CheckoutPlan {
    pub index: Vec<IndexEntry>,
    pub head_text: String,
}

/// The tree id of the commit that a ref's text names, if the commit is
/// stored.
pub open spec fn ref_tree(objs: Seq<(Seq<char>, Seq<char>)>, ref_text: Seq<char>) -> Option<
    Option<Seq<char>>,
> {
    match lookup_text(objs, trim(ref_text)) {
        None => None,
        Some(c) => Some(commit_tree_spec(c)),
    }
}

/// Plans a checkout of `branch`, whose ref holds `ref_text` (`None` when
/// the branch does not exist). Refuses a dirty working tree with
/// `DirtyWorkingTree`; a missing branch or commit is `NotFound`, a commit
/// without a tree line `InvalidData`; reading the tree may fail as
/// `read_tree_to_index` does.
pub fn checkout(
    clean: bool,
    branch: &str,
    ref_text: Option<&str>,
    objs: &Vec<TextObject>,
) -> (r: Result<CheckoutPlan, RepoError>)
    ensures
        !clean ==> r == Err::<CheckoutPlan, RepoError>(RepoError::DirtyWorkingTree),
        clean && ref_text is None ==> r == Err::<CheckoutPlan, RepoError>(RepoError::NotFound),
        clean && ref_text is Some ==> match ref_tree(texts_view(objs@), ref_text->0@) {
            None => r == Err::<CheckoutPlan, RepoError>(RepoError::NotFound),
            Some(None) => r == Err::<CheckoutPlan, RepoError>(RepoError::InvalidData),
            Some(Some(t)) => match r {
                Ok(p) => p.head_text@ == symbolic_head_spec(branch@) && read_tree_spec(
                    texts_view(objs@),
                    t,
                    objs@.len(),
                ) == Ok::<Seq<EntryView>, RepoError>(index_view(p.index@)),
                Err(e) => read_tree_spec(texts_view(objs@), t, objs@.len()) == Err::<
                    Seq<EntryView>,
                    RepoError,
                >(e),
            },
        },
{
    if !clean {
        return Err(RepoError::DirtyWorkingTree);
    }
    let rt = match ref_text {
        Some(t) => t,
        None => {
            return Err(RepoError::NotFound);
        },
    };
    let rc = chars_of(rt);
    let commit_oid = trimmed(rc.as_slice());
    let commit_text = match crate::tree::lookup_object(objs, commit_oid.as_str()) {
        Some(t) => t,
        None => {
            return Err(RepoError::NotFound);
        },
    };
    let tree = match commit_tree(commit_text.as_str()) {
        Some(t) => t,
        None => {
            return Err(RepoError::InvalidData);
        },
    };
    let index = read_tree_to_index(objs, tree.as_str())?;
    Ok(CheckoutPlan { index, head_text: symbolic_head_text(branch) })
}

/// The working tree that a checkout of the index `es` leaves: one file per
/// entry, holding its first blob.
pub open spec fn checkout_files(es: Seq<EntryView>) -> Seq<WorkingView> {
    es.map_values(|e: EntryView| WorkingView { oid: first_oid(e), path: e.path })
}

/// Whether no two entries share a path.
pub open spec fn distinct_paths(es: Seq<EntryView>) -> bool {
    forall|i: int, j: int| 0 <= i < j < es.len() ==> (#[trigger] es[i]).path != (#[trigger] es[j]).path
}

proof fn lemma_position_of_entry(es: Seq<EntryView>, j: int)
    requires
        distinct_paths(es),
        0 <= j < es.len(),
    ensures
        position_of(es, es[j].path) == j,
{
    lemma_position_bounds(es, es[j].path);
    let p = position_of(es, es[j].path);
    if p != j {
        if p < j {
            assert(es[p].path != es[j].path);
        } else {
            assert(p >= 0 ==> es[p].path == es[j].path);
        }
    }
}

proof fn lemma_working_none(w: Seq<WorkingView>, keep: spec_fn(WorkingView) -> bool)
    requires
        forall|k: int| 0 <= k < w.len() ==> !keep(#[trigger] w[k]),
    ensures
        working_paths_where(w, keep) == Seq::<Seq<char>>::empty(),
    decreases w.len(),
{
    if w.len() > 0 {
        let q = w.drop_last();
        assert forall|k: int| 0 <= k < q.len() implies !keep(#[trigger] q[k]) by {
            assert(q[k] == w[k]);
        }
        lemma_working_none(q, keep);
        assert(!keep(w[w.len() - 1]));
    }
}

proof fn lemma_entries_none(es: Seq<EntryView>, keep: spec_fn(EntryView) -> bool)
    requires
        forall|k: int| 0 <= k < es.len() ==> !keep(#[trigger] es[k]),
    ensures
        entry_paths_where(es, keep) == Seq::<Seq<char>>::empty(),
    decreases es.len(),
{
    if es.len() > 0 {
        let q = es.drop_last();
        assert forall|k: int| 0 <= k < q.len() implies !keep(#[trigger] q[k]) by {
            assert(q[k] == es[k]);
        }
        lemma_entries_none(q, keep);
        assert(!keep(es[es.len() - 1]));
    }
}

/// After a checkout the repository is clean: with the branch's tree as
/// both HEAD's tree and the index, and its files as the working tree,
/// every status bucket is empty.
pub proof fn lemma_checkout_leaves_clean(es: Seq<EntryView>, pats: Seq<Seq<char>>)
    requires
        distinct_paths(es),
    ensures
        untracked_spec(checkout_files(es), es, pats) == Seq::<Seq<char>>::empty(),
        modified_spec(checkout_files(es), es, pats) == Seq::<Seq<char>>::empty(),
        deleted_spec(checkout_files(es), es, pats) == Seq::<Seq<char>>::empty(),
        added_spec(es, es, pats) == Seq::<Seq<char>>::empty(),
        staged_spec(es, es, pats) == Seq::<Seq<char>>::empty(),
        staged_delete_spec(es, es, pats) == Seq::<Seq<char>>::empty(),
{
    let w = checkout_files(es);
    assert forall|k: int| 0 <= k < es.len() implies tracks(es, #[trigger] es[k].path) && oid_for(
        es,
        es[k].path,
    ) == first_oid(es[k]) && on_disk(w, es[k].path) by {
        lemma_position_of_entry(es, k);
        assert(w[k].path == es[k].path);
    }
    assert forall|k: int| 0 <= k < w.len() implies #[trigger] w[k] == (WorkingView {
        oid: first_oid(es[k]),
        path: es[k].path,
    }) by {}
    lemma_working_none(
        w,
        |f: WorkingView| !crate::diff::ignored(pats, f.path) && !tracks(es, f.path),
    );
    lemma_working_none(
        w,
        |f: WorkingView|
            !crate::diff::ignored(pats, f.path) && tracks(es, f.path) && oid_for(es, f.path)
                != f.oid,
    );
    lemma_entries_none(es, |e: EntryView| !crate::diff::ignored(pats, e.path) && !on_disk(w, e.path));
    lemma_entries_none(es, |e: EntryView| !crate::diff::ignored(pats, e.path) && !tracks(es, e.path));
    lemma_entries_none(
        es,
        |e: EntryView|
            !crate::diff::ignored(pats, e.path) && tracks(es, e.path) && oid_for(es, e.path)
                != first_oid(e),
    );
}

/// What scanning a path found.
#[derive(Debug)]
pub enum Scanned {
    /// Nothing exists at the path.
    Missing,
    /// A regular file whose blob is `oid`, with the mode a new entry gets.
    File { oid: String, mode: String },
}

/// Stages one path: a missing path loses its index entries; an ignored
/// file is left alone; any other file is staged with `update_or_insert`.
/// Fails with `InvalidData`, changing nothing, when an ignore pattern is
/// not a valid glob.
pub fn add(
    entries: &mut Vec<IndexEntry>,
    path: &String,
    scanned: Scanned,
    patterns: &Vec<String>,
) -> (r: Result<(), RepoError>)
    ensures
        ({
            let old_es = index_view(old(entries)@);
            let new_es = index_view(final(entries)@);
            match scanned {
                Scanned::Missing => r is Ok && new_es == crate::index::without_path(old_es, path@),
                Scanned::File { oid, mode } => match crate::ignore::ignore_verdict(
                    strings_view(patterns@),
                    crate::ignore::slashed(path@),
                ) {
                    None => r == Err::<(), RepoError>(RepoError::InvalidData) && new_es == old_es,
                    Some(true) => r is Ok && new_es == old_es,
                    Some(false) => r is Ok && ({
                        let i = position_of(old_es, path@);
                        if i >= 0 {
                            new_es == old_es.update(i, crate::index::with_single_oid(old_es[i], oid@))
                        } else {
                            new_es == old_es.push(crate::index::clean_entry(path@, mode@, oid@))
                        }
                    }),
                },
            }
        }),
{
    match scanned {
        Scanned::Missing => {
            crate::index::remove_path(path, entries);
            Ok(())
        },
        Scanned::File { oid, mode } => {
            let ignored = crate::ignore::is_ignored(path.as_str(), patterns)?;
            if ignored {
                return Ok(());
            }
            crate::index::update_or_insert(oid, path.clone(), mode, entries);
            Ok(())
        },
    }
}

/// Whether storing the object `oid` writes anything: an object that is
/// already stored is never rewritten.
pub fn write_object(existing: &Vec<String>, oid: &String) -> (r: bool)
    ensures
        r == !strings_view(existing@).contains(oid@),
{
    !contains_string(existing, oid)
}

/// The text that records a remote at `url`; fails with `NotFound` when no
/// repository is there.
pub fn add_remote(url: &str, url_is_repo: bool) -> (r: Result<String, RepoError>)
    ensures
        match r {
            Ok(t) => url_is_repo && t@ == url@,
            Err(e) => !url_is_repo && e == RepoError::NotFound,
        },
{
    if !url_is_repo {
        return Err(RepoError::NotFound);
    }
    let cs = chars_of(url);
    Ok(crate::text::string_of(cs.as_slice()))
}

/// The branch that HEAD's text names: the trimmed text without a leading
/// `ref: refs/heads/`.
pub open spec fn active_branch(head_text: Seq<char>) -> Seq<char> {
    let t = trim(head_text);
    let p = crate::refs::symbolic_prefix() + crate::refs::heads_prefix();
    if crate::refs::starts(t, p) {
        t.subrange(p.len() as int, t.len() as int)
    } else {
        t
    }
}

/// The listing lines: one per branch, `*` before the active one.
pub open spec fn branch_lines(ns: Seq<Seq<char>>, active: Seq<char>) -> Seq<char>
    decreases ns.len(),
{
    if ns.len() == 0 {
        Seq::<char>::empty()
    } else {
        branch_lines(ns.drop_last(), active) + if ns.last() == active {
            seq!['*']
        } else {
            Seq::<char>::empty()
        } + ns.last() + seq!['\n']
    }
}

/// Lists the branches `names` in case-insensitive order, one per line, the
/// one HEAD is attached to marked with `*`.
pub fn branch_list(names: Vec<String>, head_text: &str) -> (r: String)
    ensures
        r@ == branch_lines(crate::refs::sort_names(strings_view(names@)), active_branch(head_text@)),
{
    let sorted = crate::refs::list_refs(names);
    let hc = chars_of(head_text);
    let t = trimmed(hc.as_slice());
    let tc = chars_of(t.as_str());
    let p = chars_of("ref: refs/heads/");
    proof {
        reveal_strlit("ref: refs/heads/");
    }
    assert(p@ =~= crate::refs::symbolic_prefix() + crate::refs::heads_prefix());
    let active = if crate::text::starts_with_chars(tc.as_slice(), p.as_slice()) {
        crate::text::string_of(&tc[p.len()..tc.len()])
    } else {
        t
    };
    let ghost sv = strings_view(sorted@);
    let mut out = String::new();
    let mut i: usize = 0;
    while i < sorted.len()
        invariant
            i <= sorted@.len(),
            sv == strings_view(sorted@),
            active@ == active_branch(head_text@),
            out@ == branch_lines(sv.subrange(0, i as int), active@),
        decreases sorted@.len() - i,
    {
        assert(sv.subrange(0, i + 1).drop_last() =~= sv.subrange(0, i as int));
        assert(sv.subrange(0, i + 1).last() == sorted@[i as int]@);
        let ghost before = out@;
        if sorted[i] == active {
            out.push('*');
        }
        crate::text::push_all(&mut out, sorted[i].as_str());
        out.push('\n');
        i = i + 1;
        assert(out@ =~= branch_lines(sv.subrange(0, i as int), active@));
    }
    assert(sv.subrange(0, i as int) =~= sv);
    out
}

/// A commit's tree gives back the index that the commit leaves behind:
/// the new commit names its tree, and reading that tree yields the index
/// that was read back from it.
pub proof fn lemma_commit_reproduces_index(
    store: Seq<(Seq<char>, Seq<char>)>,
    tree: Seq<char>,
    parent: Seq<char>,
    message: Seq<char>,
    fuel: nat,
    index: Seq<EntryView>,
)
    requires
        is_oid(tree),
        read_tree_spec(store, tree, fuel) == Ok::<Seq<EntryView>, RepoError>(index),
    ensures
        commit_tree_spec(commit_spec(tree, parent, message)) == Some(tree),
        read_tree_spec(store, commit_tree_spec(commit_spec(tree, parent, message))->0, fuel) == Ok::<
            Seq<EntryView>,
            RepoError,
        >(index),
{
    crate::commit::lemma_commit_names_its_tree(tree, parent, message);
}

/// Whether every stored object's id is the digest of its bytes.
pub open spec fn store_keyed(store: Seq<(Seq<char>, Seq<u8>)>) -> bool {
    forall|i: int| 0 <= i < store.len() ==> (#[trigger] store[i]).0 == sha256_hex(store[i].1)
}

/// The store after putting `data` under `oid`: nothing changes when the id
/// is already there (`write_object` says no write), else the object is added.
pub open spec fn put_spec(store: Seq<(Seq<char>, Seq<u8>)>, oid: Seq<char>, data: Seq<u8>) -> Seq<
    (Seq<char>, Seq<u8>),
> {
    if exists|i: int| 0 <= i < store.len() && (#[trigger] store[i]).0 == oid {
        store
    } else {
        store.push((oid, data))
    }
}

/// Putting objects under their digests keeps the store keyed: reading an
/// id's bytes and hashing them gives the id back, before and after.
pub proof fn lemma_store_stays_keyed(store: Seq<(Seq<char>, Seq<u8>)>, oid: Seq<char>, data: Seq<u8>)
    requires
        store_keyed(store),
        oid == sha256_hex(data),
    ensures
        store_keyed(put_spec(store, oid, data)),
{
    let s2 = put_spec(store, oid, data);
    assert forall|i: int| 0 <= i < s2.len() implies (#[trigger] s2[i]).0 == sha256_hex(s2[i].1) by {
        if i < store.len() {
            assert(s2[i] == store[i]);
        }
    }
}

} // verus!
