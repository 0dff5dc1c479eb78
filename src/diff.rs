use vstd::prelude::*;
use crate::error::RepoError;
use crate::ignore::{glob_compiles, ignore_verdict, is_ignored, pattern_body, slashed};
use crate::index::{
    find_entry, first_oid, first_oid_of, index_view, lemma_position_bounds, position_of,
    strings_view, EntryView, IndexEntry,
};

verus! {

/// The six disjoint buckets of a status report.
#[derive(Clone, Copy, Debug, PartialEq, Eq, Structural)]
pub enum DiffType {
    Added,
    Modified,
    Deleted,
    Untracked,
    Staged,
    StagedDelete,
}

/// A regular file found in the working tree: its blob id and its path
/// relative to the repository root.
#[derive(Clone, Debug)]
pub struct WorkingFile {
    pub oid: String,
    pub path: String,
}

pub struct WorkingView {
    pub oid: Seq<char>,
    pub path: Seq<char>,
}

impl View for WorkingFile {
    type V = WorkingView;

    open spec fn view(&self) -> WorkingView {
        WorkingView { oid: self.oid@, path: self.path@ }
    }
}

pub open spec fn working_view(w: Seq<WorkingFile>) -> Seq<WorkingView> {
    w.map_values(|f: WorkingFile| f@)
}

/// The paths of a status report, bucket by bucket.
#[derive(Debug)]
pub struct Diffs {
    pub added: Vec<String>,
    pub modified: Vec<String>,
    pub deleted: Vec<String>,
    pub untracked: Vec<String>,
    pub staged: Vec<String>,
    pub staged_delete: Vec<String>,
}

/// Whether the index `es` has an entry for `p`.
pub open spec fn tracks(es: Seq<EntryView>, p: Seq<char>) -> bool {
    position_of(es, p) >= 0
}

/// The content id that `es` records for `p`: that of its first entry for `p`.
pub open spec fn oid_for(es: Seq<EntryView>, p: Seq<char>) -> Seq<char> {
    first_oid(es[position_of(es, p)])
}

/// Whether the working tree has a file at `p`.
pub open spec fn on_disk(w: Seq<WorkingView>, p: Seq<char>) -> bool {
    exists|j: int| 0 <= j < w.len() && (#[trigger] w[j]).path == p
}

/// Whether every pattern is a valid glob.
pub open spec fn patterns_valid(pats: Seq<Seq<char>>) -> bool {
    forall|i: int| 0 <= i < pats.len() ==> glob_compiles(pattern_body(#[trigger] pats[i]))
}

/// Whether the patterns ignore `p`.
pub open spec fn ignored(pats: Seq<Seq<char>>, p: Seq<char>) -> bool {
    ignore_verdict(pats, slashed(p)) == Some(true)
}

/// The paths of the working files that `keep` selects, in order.
pub open spec fn working_paths_where(
    w: Seq<WorkingView>,
    keep: spec_fn(WorkingView) -> bool,
) -> Seq<Seq<char>>
    decreases w.len(),
{
    if w.len() == 0 {
        Seq::<Seq<char>>::empty()
    } else {
        let prev = working_paths_where(w.drop_last(), keep);
        if keep(w.last()) {
            prev.push(w.last().path)
        } else {
            prev
        }
    }
}

/// The paths of the index entries that `keep` selects, in order.
pub open spec fn entry_paths_where(es: Seq<EntryView>, keep: spec_fn(EntryView) -> bool) -> Seq<
    Seq<char>,
>
    decreases es.len(),
{
    if es.len() == 0 {
        Seq::<Seq<char>>::empty()
    } else {
        let prev = entry_paths_where(es.drop_last(), keep);
        if keep(es.last()) {
            prev.push(es.last().path)
        } else {
            prev
        }
    }
}

/// Working files that the index does not track.
pub open spec fn untracked_spec(
    w: Seq<WorkingView>,
    i: Seq<EntryView>,
    pats: Seq<Seq<char>>,
) -> Seq<Seq<char>> {
    working_paths_where(w, |f: WorkingView| !ignored(pats, f.path) && !tracks(i, f.path))
}

/// Working files whose content differs from what the index records.
pub open spec fn modified_spec(
    w: Seq<WorkingView>,
    i: Seq<EntryView>,
    pats: Seq<Seq<char>>,
) -> Seq<Seq<char>> {
    working_paths_where(
        w,
        |f: WorkingView| !ignored(pats, f.path) && tracks(i, f.path) && oid_for(i, f.path) != f.oid,
    )
}

/// Indexed paths with no file in the working tree.
pub open spec fn deleted_spec(
    w: Seq<WorkingView>,
    i: Seq<EntryView>,
    pats: Seq<Seq<char>>,
) -> Seq<Seq<char>> {
    entry_paths_where(i, |e: EntryView| !ignored(pats, e.path) && !on_disk(w, e.path))
}

/// Indexed paths that HEAD's tree does not have.
pub open spec fn added_spec(h: Seq<EntryView>, i: Seq<EntryView>, pats: Seq<Seq<char>>) -> Seq<
    Seq<char>,
> {
    entry_paths_where(i, |e: EntryView| !ignored(pats, e.path) && !tracks(h, e.path))
}

/// Indexed paths whose content differs from HEAD's tree.
pub open spec fn staged_spec(h: Seq<EntryView>, i: Seq<EntryView>, pats: Seq<Seq<char>>) -> Seq<
    Seq<char>,
> {
    entry_paths_where(
        i,
        |e: EntryView| !ignored(pats, e.path) && tracks(h, e.path) && oid_for(h, e.path) != first_oid(e),
    )
}

/// Paths of HEAD's tree that the index no longer has.
pub open spec fn staged_delete_spec(
    h: Seq<EntryView>,
    i: Seq<EntryView>,
    pats: Seq<Seq<char>>,
) -> Seq<Seq<char>> {
    entry_paths_where(h, |e: EntryView| !ignored(pats, e.path) && !tracks(i, e.path))
}

proof fn lemma_verdict_some(pats: Seq<Seq<char>>, p: Seq<char>)
    requires
        patterns_valid(pats),
    ensures
        ignore_verdict(pats, p) is Some,
    decreases pats.len(),
{
    if pats.len() > 0 {
        let q = pats.drop_last();
        assert forall|i: int| 0 <= i < q.len() implies glob_compiles(pattern_body(#[trigger] q[i])) by {
            assert(q[i] == pats[i]);
        }
        lemma_verdict_some(q, p);
        assert(glob_compiles(pattern_body(pats[pats.len() - 1])));
    }
}

/// Whether every pattern is a valid glob.
pub fn patterns_ok(patterns: &Vec<String>) -> (r: bool)
    ensures
        r == patterns_valid(strings_view(patterns@)),
{
    let ghost pats = strings_view(patterns@);
    let mut i: usize = 0;
    while i < patterns.len()
        invariant
            i <= patterns@.len(),
            pats == strings_view(patterns@),
            patterns_valid(pats.subrange(0, i as int)),
        decreases patterns@.len() - i,
    {
        // a pattern on its own fails exactly when it does not compile
        let one = vec![patterns[i].clone()];
        let ghost single = strings_view(one@);
        assert(single =~= seq![pats[i as int]]);
        assert(single.drop_last() =~= Seq::<Seq<char>>::empty());
        let r = is_ignored("", &one);
        assert(single.last() == pats[i as int]);
        assert(ignore_verdict(single.drop_last(), slashed(""@)) == Some(false));
        if r.is_err() {
            assert(!patterns_valid(pats)) by {
                assert(!glob_compiles(pattern_body(pats[i as int])));
            }
            return false;
        }
        i = i + 1;
        assert forall|k: int| 0 <= k < i implies glob_compiles(
            pattern_body(#[trigger] pats.subrange(0, i as int)[k]),
        ) by {
            if k < i - 1 {
                assert(pats.subrange(0, i as int)[k] == pats.subrange(0, i - 1)[k]);
            }
        }
    }
    assert(pats.subrange(0, i as int) =~= pats);
    true
}

/// Whether `p` is ignored, for patterns known to be valid.
fn ignored_exec(p: &String, patterns: &Vec<String>) -> (r: bool)
    requires
        patterns_valid(strings_view(patterns@)),
    ensures
        r == ignored(strings_view(patterns@), p@),
{
    proof {
        lemma_verdict_some(strings_view(patterns@), slashed(p@));
    }
    match is_ignored(p.as_str(), patterns) {
        Ok(b) => b,
        Err(_) => false,
    }
}

fn on_disk_exec(w: &Vec<WorkingFile>, p: &String) -> (r: bool)
    ensures
        r == on_disk(working_view(w@), p@),
{
    let ghost wv = working_view(w@);
    let mut j: usize = 0;
    while j < w.len()
        invariant
            j <= w@.len(),
            wv == working_view(w@),
            forall|k: int| 0 <= k < j ==> wv[k].path != p@,
        decreases w@.len() - j,
    {
        if w[j].path == *p {
            assert(wv[j as int].path == p@);
            return true;
        }
        j = j + 1;
    }
    false
}

/// Classifies the working tree against the index: `untracked` and
/// `modified` are filled, the other buckets stay empty. Fails with
/// `InvalidData` when an ignore pattern is not a valid glob.
pub fn diff_working_to_index(
    index: &Vec<IndexEntry>,
    working: &Vec<WorkingFile>,
    patterns: &Vec<String>,
) -> (r: Result<Diffs, RepoError>)
    ensures
        ({
            let pats = strings_view(patterns@);
            let w = working_view(working@);
            let i = index_view(index@);
            match r {
                Ok(d) => {
                    &&& patterns_valid(pats)
                    &&& strings_view(d.untracked@) == untracked_spec(w, i, pats)
                    &&& strings_view(d.modified@) == modified_spec(w, i, pats)
                    &&& d.added@.len() == 0 && d.deleted@.len() == 0
                    &&& d.staged@.len() == 0 && d.staged_delete@.len() == 0
                },
                Err(e) => e == RepoError::InvalidData && !patterns_valid(pats),
            }
        }),
{
    if !patterns_ok(patterns) {
        return Err(RepoError::InvalidData);
    }
    let ghost pats = strings_view(patterns@);
    let ghost w = working_view(working@);
    let ghost iv = index_view(index@);
    let mut untracked: Vec<String> = Vec::new();
    let mut modified: Vec<String> = Vec::new();
    let mut k: usize = 0;
    while k < working.len()
        invariant
            k <= working@.len(),
            patterns_valid(pats),
            pats == strings_view(patterns@),
            w == working_view(working@),
            iv == index_view(index@),
            strings_view(untracked@) == untracked_spec(w.subrange(0, k as int), iv, pats),
            strings_view(modified@) == modified_spec(w.subrange(0, k as int), iv, pats),
        decreases working@.len() - k,
    {
        assert(w.subrange(0, k + 1).drop_last() =~= w.subrange(0, k as int));
        let f = &working[k];
        assert(w.subrange(0, k + 1).last() == f@);
        if !ignored_exec(&f.path, patterns) {
            match find_entry(index, &f.path) {
                Some(at) => {
                    proof {
                        lemma_position_bounds(iv, f.path@);
                    }
                    let io = first_oid_of(&index[at]);
                    if f.oid != io {
                        let ghost before = modified@;
                        modified.push(f.path.clone());
                        assert(strings_view(modified@) =~= strings_view(before).push(f.path@));
                    }
                },
                None => {
                    let ghost before = untracked@;
                    untracked.push(f.path.clone());
                    assert(strings_view(untracked@) =~= strings_view(before).push(f.path@));
                },
            }
        }
        k = k + 1;
    }
    assert(w.subrange(0, k as int) =~= w);
    Ok(
        Diffs {
            added: Vec::new(),
            modified,
            deleted: Vec::new(),
            untracked,
            staged: Vec::new(),
            staged_delete: Vec::new(),
        },
    )
}

/// Classifies the index against HEAD's tree and the working tree: `added`,
/// `staged`, `deleted` and `staged_delete` are filled, the other buckets stay
/// empty. Fails with `InvalidData` when an ignore pattern is not a valid glob.
pub fn diff_index_to_head(
    head: &Vec<IndexEntry>,
    index: &Vec<IndexEntry>,
    working: &Vec<WorkingFile>,
    patterns: &Vec<String>,
) -> (r: Result<Diffs, RepoError>)
    ensures
        ({
            let pats = strings_view(patterns@);
            let w = working_view(working@);
            let i = index_view(index@);
            let h = index_view(head@);
            match r {
                Ok(d) => {
                    &&& patterns_valid(pats)
                    &&& strings_view(d.added@) == added_spec(h, i, pats)
                    &&& strings_view(d.staged@) == staged_spec(h, i, pats)
                    &&& strings_view(d.deleted@) == deleted_spec(w, i, pats)
                    &&& strings_view(d.staged_delete@) == staged_delete_spec(h, i, pats)
                    &&& d.untracked@.len() == 0 && d.modified@.len() == 0
                },
                Err(e) => e == RepoError::InvalidData && !patterns_valid(pats),
            }
        }),
{
    if !patterns_ok(patterns) {
        return Err(RepoError::InvalidData);
    }
    let ghost pats = strings_view(patterns@);
    let ghost w = working_view(working@);
    let ghost iv = index_view(index@);
    let ghost hv = index_view(head@);
    let mut added: Vec<String> = Vec::new();
    let mut staged: Vec<String> = Vec::new();
    let mut deleted: Vec<String> = Vec::new();
    let mut k: usize = 0;
    while k < index.len()
        invariant
            k <= index@.len(),
            patterns_valid(pats),
            pats == strings_view(patterns@),
            w == working_view(working@),
            iv == index_view(index@),
            hv == index_view(head@),
            strings_view(added@) == added_spec(hv, iv.subrange(0, k as int), pats),
            strings_view(staged@) == staged_spec(hv, iv.subrange(0, k as int), pats),
            strings_view(deleted@) == deleted_spec(w, iv.subrange(0, k as int), pats),
        decreases index@.len() - k,
    {
        assert(iv.subrange(0, k + 1).drop_last() =~= iv.subrange(0, k as int));
        let e = &index[k];
        assert(iv.subrange(0, k + 1).last() == e@);
        if !ignored_exec(&e.path, patterns) {
            if !on_disk_exec(working, &e.path) {
                let ghost before = deleted@;
                deleted.push(e.path.clone());
                assert(strings_view(deleted@) =~= strings_view(before).push(e.path@));
            }
            match find_entry(head, &e.path) {
                Some(at) => {
                    proof {
                        lemma_position_bounds(hv, e.path@);
                    }
                    let ho = first_oid_of(&head[at]);
                    let io = first_oid_of(e);
                    if ho != io {
                        let ghost before = staged@;
                        staged.push(e.path.clone());
                        assert(strings_view(staged@) =~= strings_view(before).push(e.path@));
                    }
                },
                None => {
                    let ghost before = added@;
                    added.push(e.path.clone());
                    assert(strings_view(added@) =~= strings_view(before).push(e.path@));
                },
            }
        }
        k = k + 1;
    }
    assert(iv.subrange(0, k as int) =~= iv);
    let mut staged_delete: Vec<String> = Vec::new();
    let mut k: usize = 0;
    while k < head.len()
        invariant
            k <= head@.len(),
            patterns_valid(pats),
            pats == strings_view(patterns@),
            iv == index_view(index@),
            hv == index_view(head@),
            strings_view(staged_delete@) == staged_delete_spec(hv.subrange(0, k as int), iv, pats),
        decreases head@.len() - k,
    {
        assert(hv.subrange(0, k + 1).drop_last() =~= hv.subrange(0, k as int));
        let e = &head[k];
        assert(hv.subrange(0, k + 1).last() == e@);
        if !ignored_exec(&e.path, patterns) {
            if find_entry(index, &e.path).is_none() {
                let ghost before = staged_delete@;
                staged_delete.push(e.path.clone());
                assert(strings_view(staged_delete@) =~= strings_view(before).push(e.path@));
            }
        }
        k = k + 1;
    }
    assert(hv.subrange(0, k as int) =~= hv);
    Ok(Diffs { added, modified: Vec::new(), deleted, untracked: Vec::new(), staged, staged_delete })
}

/// The full status classification: the working tree against the index, and
/// the index against HEAD's tree.
pub fn get_all_diffs(
    head: &Vec<IndexEntry>,
    index: &Vec<IndexEntry>,
    working: &Vec<WorkingFile>,
    patterns: &Vec<String>,
) -> (r: Result<Diffs, RepoError>)
    ensures
        ({
            let pats = strings_view(patterns@);
            let w = working_view(working@);
            let i = index_view(index@);
            let h = index_view(head@);
            match r {
                Ok(d) => {
                    &&& patterns_valid(pats)
                    &&& strings_view(d.untracked@) == untracked_spec(w, i, pats)
                    &&& strings_view(d.modified@) == modified_spec(w, i, pats)
                    &&& strings_view(d.deleted@) == deleted_spec(w, i, pats)
                    &&& strings_view(d.added@) == added_spec(h, i, pats)
                    &&& strings_view(d.staged@) == staged_spec(h, i, pats)
                    &&& strings_view(d.staged_delete@) == staged_delete_spec(h, i, pats)
                },
                Err(e) => e == RepoError::InvalidData && !patterns_valid(pats),
            }
        }),
{
    let wd = diff_working_to_index(index, working, patterns)?;
    let hd = diff_index_to_head(head, index, working, patterns)?;
    Ok(
        Diffs {
            added: hd.added,
            modified: wd.modified,
            deleted: hd.deleted,
            untracked: wd.untracked,
            staged: hd.staged,
            staged_delete: hd.staged_delete,
        },
    )
}

impl Diffs {
    /// The paths in one bucket.
    pub fn paths(&self, kind: DiffType) -> (r: &Vec<String>)
        ensures
            r == match kind {
                DiffType::Added => &self.added,
                DiffType::Modified => &self.modified,
                DiffType::Deleted => &self.deleted,
                DiffType::Untracked => &self.untracked,
                DiffType::Staged => &self.staged,
                DiffType::StagedDelete => &self.staged_delete,
            },
    {
        match kind {
            DiffType::Added => &self.added,
            DiffType::Modified => &self.modified,
            DiffType::Deleted => &self.deleted,
            DiffType::Untracked => &self.untracked,
            DiffType::Staged => &self.staged,
            DiffType::StagedDelete => &self.staged_delete,
        }
    }

    /// Whether every bucket is empty: the repository is clean.
    pub fn is_clean(&self) -> (r: bool)
        ensures
            r == (self.added@.len() == 0 && self.modified@.len() == 0 && self.deleted@.len() == 0
                && self.untracked@.len() == 0 && self.staged@.len() == 0
                && self.staged_delete@.len() == 0),
    {
        self.added.len() == 0 && self.modified.len() == 0 && self.deleted.len() == 0
            && self.untracked.len() == 0 && self.staged.len() == 0 && self.staged_delete.len()
            == 0
    }
}

} // verus!
