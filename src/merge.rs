use vstd::prelude::*;
use crate::diff::tracks;
use crate::error::RepoError;
use crate::index::{
    find_entry, first_oid, first_oid_of, index_view, lemma_position_bounds, literal, position_of,
    strings_view, EntryType, EntryView, IndexEntry,
};

verus! {

/// The sentinel that stands for the missing side of a modify/delete conflict.
pub open spec fn empty_side() -> Seq<char> {
    seq!['e', 'm', 'p', 't', 'y']
}

/// The directory mode.
pub open spec fn dir_mode() -> Seq<char> {
    seq!['0', '4', '0', '0', '0', '0']
}

/// An entry built from `e`'s path and mode: conflicted exactly when it
/// carries more than one content id.
pub open spec fn quick(e: EntryView, oids: Seq<Seq<char>>) -> EntryView {
    EntryView {
        entry_type: if oids.len() > 1 {
            EntryType::X
        } else {
            EntryType::C
        },
        path: e.path,
        mode: e.mode,
        oids,
    }
}

pub open spec fn is_dir_side(s: Option<EntryView>) -> bool {
    s matches Some(e) && e.mode == dir_mode()
}

/// The three-way merge table for one path, with `a` the common ancestor's
/// entry, `b` the current branch's and `t` the target's: the merged entry,
/// or `None` when the path leaves the merged index.
pub open spec fn merge_cell(a: Option<EntryView>, b: Option<EntryView>, t: Option<EntryView>) -> Option<
    EntryView,
> {
    if is_dir_side(a) || is_dir_side(b) || is_dir_side(t) {
        None
    } else {
        match (a, b, t) {
            (Some(a), Some(b), Some(t)) => {
                let (ao, bo, to) = (first_oid(a), first_oid(b), first_oid(t));
                if ao == bo && ao == to {
                    Some(quick(a, seq![ao]))
                } else if ao == bo {
                    Some(quick(t, seq![to]))
                } else if ao == to || bo == to {
                    Some(quick(b, seq![bo]))
                } else {
                    Some(quick(b, seq![bo, to]))
                }
            },
            (Some(a), Some(b), None) => {
                if first_oid(a) == first_oid(b) {
                    None
                } else {
                    Some(quick(b, seq![first_oid(b), empty_side()]))
                }
            },
            (None, Some(b), None) => Some(quick(b, seq![first_oid(b)])),
            (Some(a), None, Some(t)) => {
                if first_oid(a) == first_oid(t) {
                    None
                } else {
                    Some(quick(t, seq![first_oid(t), empty_side()]))
                }
            },
            (None, None, Some(t)) => Some(quick(t, seq![first_oid(t)])),
            (None, Some(b), Some(t)) => {
                if first_oid(b) == first_oid(t) {
                    Some(quick(b, seq![first_oid(b)]))
                } else {
                    Some(quick(b, seq![first_oid(b), first_oid(t)]))
                }
            },
            _ => None,
        }
    }
}

/// The first entry of `es` for `p`, if any.
pub open spec fn side(es: Seq<EntryView>, p: Seq<char>) -> Option<EntryView> {
    if tracks(es, p) {
        Some(es[position_of(es, p)])
    } else {
        None
    }
}

/// `acc` followed by the paths of `es` that it does not hold yet, in order
/// of first appearance.
pub open spec fn add_new_paths(acc: Seq<Seq<char>>, es: Seq<EntryView>) -> Seq<Seq<char>>
    decreases es.len(),
{
    if es.len() == 0 {
        acc
    } else {
        let prev = add_new_paths(acc, es.drop_last());
        if prev.contains(es.last().path) {
            prev
        } else {
            prev.push(es.last().path)
        }
    }
}

/// Every path of the three sides once: the ancestor's first, then the
/// current branch's, then the target's.
pub open spec fn merge_paths(a: Seq<EntryView>, b: Seq<EntryView>, t: Seq<EntryView>) -> Seq<
    Seq<char>,
> {
    add_new_paths(add_new_paths(add_new_paths(Seq::<Seq<char>>::empty(), a), b), t)
}

/// The merged entries for the given paths, in their order.
pub open spec fn merged_for(
    paths: Seq<Seq<char>>,
    a: Seq<EntryView>,
    b: Seq<EntryView>,
    t: Seq<EntryView>,
) -> Seq<EntryView>
    decreases paths.len(),
{
    if paths.len() == 0 {
        Seq::<EntryView>::empty()
    } else {
        let prev = merged_for(paths.drop_last(), a, b, t);
        let p = paths.last();
        match merge_cell(side(a, p), side(b, p), side(t, p)) {
            Some(e) => prev.push(e),
            None => prev,
        }
    }
}

/// The index that a three-way merge produces.
pub open spec fn three_way_spec(a: Seq<EntryView>, b: Seq<EntryView>, t: Seq<EntryView>) -> Seq<
    EntryView,
> {
    merged_for(merge_paths(a, b, t), a, b, t)
}

/// Whether `v` holds `s`.
pub fn contains_string(v: &Vec<String>, s: &String) -> (r: bool)
    ensures
        r == strings_view(v@).contains(s@),
{
    let mut i: usize = 0;
    while i < v.len()
        invariant
            i <= v@.len(),
            forall|k: int| 0 <= k < i ==> strings_view(v@)[k] != s@,
        decreases v@.len() - i,
    {
        if v[i] == *s {
            assert(strings_view(v@)[i as int] == s@);
            return true;
        }
        i = i + 1;
    }
    false
}

fn add_new_paths_exec(acc: &mut Vec<String>, es: &Vec<IndexEntry>)
    ensures
        strings_view(final(acc)@) == add_new_paths(strings_view(old(acc)@), index_view(es@)),
{
    let ghost start = strings_view(acc@);
    let ghost ev = index_view(es@);
    let mut i: usize = 0;
    while i < es.len()
        invariant
            i <= es@.len(),
            ev == index_view(es@),
            strings_view(acc@) == add_new_paths(start, ev.subrange(0, i as int)),
        decreases es@.len() - i,
    {
        assert(ev.subrange(0, i + 1).drop_last() =~= ev.subrange(0, i as int));
        assert(ev.subrange(0, i + 1).last() == es@[i as int]@);
        if !contains_string(acc, &es[i].path) {
            let ghost before = acc@;
            acc.push(es[i].path.clone());
            assert(strings_view(acc@) =~= strings_view(before).push(es@[i as int].path@));
        }
        i = i + 1;
    }
    assert(ev.subrange(0, i as int) =~= ev);
}

/// An entry with `e`'s path and mode and the given content ids; conflicted
/// exactly when there is more than one.
pub fn quick_entry(e: &IndexEntry, oids: Vec<String>) -> (r: IndexEntry)
    ensures
        r@ == quick(e@, strings_view(oids@)),
{
    IndexEntry {
        entry_type: if oids.len() > 1 {
            EntryType::X
        } else {
            EntryType::C
        },
        path: e.path.clone(),
        mode: e.mode.clone(),
        oids,
    }
}

fn one(x: String) -> (r: Vec<String>)
    ensures
        strings_view(r@) == seq![x@],
{
    let r = vec![x];
    assert(strings_view(r@) =~= seq![x@]);
    r
}

fn two(x: String, y: String) -> (r: Vec<String>)
    ensures
        strings_view(r@) == seq![x@, y@],
{
    let r = vec![x, y];
    assert(strings_view(r@) =~= seq![x@, y@]);
    r
}

fn is_dir_entry(s: Option<&IndexEntry>) -> (r: bool)
    ensures
        r == is_dir_side(
            match s {
                Some(e) => Some(e@),
                None => None,
            },
        ),
{
    match s {
        Some(e) => {
            let d = literal("040000");
            proof {
                reveal_strlit("040000");
            }
            assert(d@ =~= dir_mode());
            e.mode == d
        },
        None => false,
    }
}

/// One cell of the three-way merge table.
pub fn merge_entry(a: Option<&IndexEntry>, b: Option<&IndexEntry>, t: Option<&IndexEntry>) -> (r:
    Option<IndexEntry>)
    ensures
        ({
            let av = match a {
                Some(e) => Some(e@),
                None => None,
            };
            let bv = match b {
                Some(e) => Some(e@),
                None => None,
            };
            let tv = match t {
                Some(e) => Some(e@),
                None => None,
            };
            match r {
                Some(e) => merge_cell(av, bv, tv) == Some(e@),
                None => merge_cell(av, bv, tv) is None,
            }
        }),
{
    if is_dir_entry(a) || is_dir_entry(b) || is_dir_entry(t) {
        return None;
    }
    let empty = literal("empty");
    proof {
        reveal_strlit("empty");
    }
    assert(empty@ =~= empty_side());
    match (a, b, t) {
        (Some(a), Some(b), Some(t)) => {
            let ao = first_oid_of(a);
            let bo = first_oid_of(b);
            let to = first_oid_of(t);
            if ao == bo && ao == to {
                Some(quick_entry(a, one(ao)))
            } else if ao == bo {
                Some(quick_entry(t, one(to)))
            } else if ao == to || bo == to {
                Some(quick_entry(b, one(bo)))
            } else {
                Some(quick_entry(b, two(bo, to)))
            }
        },
        (Some(a), Some(b), None) => {
            let ao = first_oid_of(a);
            let bo = first_oid_of(b);
            if ao == bo {
                None
            } else {
                Some(quick_entry(b, two(bo, empty)))
            }
        },
        (None, Some(b), None) => Some(quick_entry(b, one(first_oid_of(b)))),
        (Some(a), None, Some(t)) => {
            let ao = first_oid_of(a);
            let to = first_oid_of(t);
            if ao == to {
                None
            } else {
                Some(quick_entry(t, two(to, empty)))
            }
        },
        (None, None, Some(t)) => Some(quick_entry(t, one(first_oid_of(t)))),
        (None, Some(b), Some(t)) => {
            let bo = first_oid_of(b);
            let to = first_oid_of(t);
            if bo == to {
                Some(quick_entry(b, one(bo)))
            } else {
                Some(quick_entry(b, two(bo, to)))
            }
        },
        _ => None,
    }
}

fn side_exec<'a>(es: &'a Vec<IndexEntry>, p: &String) -> (r: Option<&'a IndexEntry>)
    ensures
        match r {
            Some(e) => side(index_view(es@), p@) == Some(e@),
            None => side(index_view(es@), p@) is None,
        },
{
    proof {
        lemma_position_bounds(index_view(es@), p@);
    }
    match find_entry(es, p) {
        Some(i) => Some(&es[i]),
        None => None,
    }
}

/// The merged index of a three-way merge of `base` (the current branch's
/// tree) and `target` against their common `ancestor`, path by path.
pub fn three_way_merge(
    ancestor: &Vec<IndexEntry>,
    base: &Vec<IndexEntry>,
    target: &Vec<IndexEntry>,
) -> (r: Vec<IndexEntry>)
    ensures
        index_view(r@) == three_way_spec(
            index_view(ancestor@),
            index_view(base@),
            index_view(target@),
        ),
{
    let ghost (av, bv, tv) = (index_view(ancestor@), index_view(base@), index_view(target@));
    let mut paths: Vec<String> = Vec::new();
    assert(strings_view(paths@) =~= Seq::<Seq<char>>::empty());
    add_new_paths_exec(&mut paths, ancestor);
    add_new_paths_exec(&mut paths, base);
    add_new_paths_exec(&mut paths, target);
    let ghost ps = strings_view(paths@);
    assert(ps == merge_paths(av, bv, tv));
    let mut out: Vec<IndexEntry> = Vec::new();
    let mut i: usize = 0;
    while i < paths.len()
        invariant
            i <= paths@.len(),
            ps == strings_view(paths@),
            av == index_view(ancestor@),
            bv == index_view(base@),
            tv == index_view(target@),
            index_view(out@) == merged_for(ps.subrange(0, i as int), av, bv, tv),
        decreases paths@.len() - i,
    {
        assert(ps.subrange(0, i + 1).drop_last() =~= ps.subrange(0, i as int));
        assert(ps.subrange(0, i + 1).last() == paths@[i as int]@);
        let p = &paths[i];
        let sa = side_exec(ancestor, p);
        let sb = side_exec(base, p);
        let st = side_exec(target, p);
        match merge_entry(sa, sb, st) {
            Some(e) => {
                let ghost before = out@;
                out.push(e);
                assert(index_view(out@) =~= index_view(before).push(e@));
            },
            None => {},
        }
        i = i + 1;
    }
    assert(ps.subrange(0, i as int) =~= ps);
    out
}

/// The line that opens a conflict file.
pub open spec fn base_marker() -> Seq<u8> {
    seq![60u8, 60, 60, 32, 66, 97, 115, 101, 32, 60, 60, 60, 10]
}

/// The line between the two sides of a conflict file.
pub open spec fn middle_marker() -> Seq<u8> {
    seq![61u8, 61, 61, 61, 61, 61, 61, 61, 61, 61, 61, 61, 61, 61, 10]
}

/// The line that closes a conflict file.
pub open spec fn target_marker() -> Seq<u8> {
    seq![62u8, 62, 62, 32, 84, 97, 114, 103, 101, 116, 32, 62, 62, 62, 10]
}

/// A side's bytes as whole lines: a newline is added after a last line
/// that lacks one.
pub open spec fn as_lines(b: Seq<u8>) -> Seq<u8> {
    if b.len() > 0 && b.last() != 10u8 {
        b.push(10u8)
    } else {
        b
    }
}

/// The bytes of a conflict file: both sides between the three marker
/// lines, each marker on a line of its own.
pub open spec fn conflict_bytes(base: Seq<u8>, target: Seq<u8>) -> Seq<u8> {
    base_marker() + as_lines(base) + middle_marker() + as_lines(target) + target_marker()
}

fn append_bytes(out: &mut Vec<u8>, b: &[u8])
    ensures
        final(out)@ == old(out)@ + b@,
{
    let ghost start = out@;
    let mut i: usize = 0;
    while i < b.len()
        invariant
            i <= b@.len(),
            out@ == start + b@.subrange(0, i as int),
        decreases b@.len() - i,
    {
        out.push(b[i]);
        i = i + 1;
        assert(out@ =~= start + b@.subrange(0, i as int));
    }
    assert(b@.subrange(0, i as int) =~= b@);
}

/// The conflict file for a path whose sides hold `base` and `target`.
pub fn build_conflict_file(base: &Vec<u8>, target: &Vec<u8>) -> (r: Vec<u8>)
    ensures
        r@ == conflict_bytes(base@, target@),
{
    let head: Vec<u8> = vec![60u8, 60, 60, 32, 66, 97, 115, 101, 32, 60, 60, 60, 10];
    let mid: Vec<u8> = vec![61u8, 61, 61, 61, 61, 61, 61, 61, 61, 61, 61, 61, 61, 61, 10];
    let tail: Vec<u8> = vec![62u8, 62, 62, 32, 84, 97, 114, 103, 101, 116, 32, 62, 62, 62, 10];
    assert(head@ =~= base_marker());
    assert(mid@ =~= middle_marker());
    assert(tail@ =~= target_marker());
    let mut out: Vec<u8> = Vec::new();
    append_bytes(&mut out, head.as_slice());
    append_bytes(&mut out, base.as_slice());
    if base.len() > 0 && base[base.len() - 1] != 10u8 {
        out.push(10u8);
    }
    append_bytes(&mut out, mid.as_slice());
    append_bytes(&mut out, target.as_slice());
    if target.len() > 0 && target[target.len() - 1] != 10u8 {
        out.push(10u8);
    }
    append_bytes(&mut out, tail.as_slice());
    assert(out@ =~= conflict_bytes(base@, target@));
    out
}

/// Whether a content id is the sentinel of a deleted side.
pub fn is_empty_side(oid: &String) -> (r: bool)
    ensures
        r == (oid@ == empty_side()),
{
    let e = literal("empty");
    proof {
        reveal_strlit("empty");
    }
    assert(e@ =~= empty_side());
    *oid == e
}

/// What a merge writes into the working tree for one merged entry.
#[derive(Debug)]
pub enum WorkWrite {
    /// The blob `oid` goes to `path`.
    Blob { path: String, oid: String },
    /// A conflict file built from the blobs `base` and `target` goes to `path`.
    Conflict { path: String, base: String, target: String },
}

/// The working-tree write that an entry stands for: a conflict file for
/// an entry with more than one content id, its blob otherwise.
pub open spec fn write_for(w: WorkWrite, e: EntryView) -> bool {
    if e.oids.len() > 1 {
        w matches WorkWrite::Conflict { path, base, target } && path@ == e.path && base@ == e.oids[0]
            && target@ == e.oids[1]
    } else {
        w matches WorkWrite::Blob { path, oid } && path@ == e.path && oid@ == first_oid(e)
    }
}

/// The working-tree writes of a merged index, one per entry, in order.
pub fn merge_writes(merged: &Vec<IndexEntry>) -> (r: Vec<WorkWrite>)
    ensures
        r@.len() == merged@.len(),
        forall|i: int| 0 <= i < r@.len() ==> write_for(#[trigger] r@[i], merged@[i]@),
{
    let mut r: Vec<WorkWrite> = Vec::new();
    let mut i: usize = 0;
    while i < merged.len()
        invariant
            i <= merged@.len(),
            r@.len() == i,
            forall|k: int| 0 <= k < i ==> write_for(#[trigger] r@[k], merged@[k]@),
        decreases merged@.len() - i,
    {
        let e = &merged[i];
        if e.oids.len() > 1 {
            r.push(
                WorkWrite::Conflict {
                    path: e.path.clone(),
                    base: e.oids[0].clone(),
                    target: e.oids[1].clone(),
                },
            );
        } else {
            r.push(WorkWrite::Blob { path: e.path.clone(), oid: first_oid_of(e) });
        }
        i = i + 1;
    }
    r
}

/// Whether any entry is conflicted.
pub fn has_conflicts(entries: &Vec<IndexEntry>) -> (r: bool)
    ensures
        r == exists|i: int|
            0 <= i < entries@.len() && (#[trigger] entries@[i]).entry_type == EntryType::X,
{
    let mut i: usize = 0;
    while i < entries.len()
        invariant
            i <= entries@.len(),
            forall|k: int| 0 <= k < i ==> (#[trigger] entries@[k]).entry_type != EntryType::X,
        decreases entries@.len() - i,
    {
        if entries[i].entry_type == EntryType::X {
            return true;
        }
        i = i + 1;
    }
    false
}

proof fn lemma_cell_conflict(a: Option<EntryView>, b: Option<EntryView>, t: Option<EntryView>)
    requires
        merge_cell(a, b, t) is Some,
    ensures
        ({
            let e = merge_cell(a, b, t)->0;
            &&& e.oids.len() == 1 || e.oids.len() == 2
            &&& e.entry_type == EntryType::X <==> e.oids.len() == 2
        }),
{
}

proof fn lemma_merged_for_conflicts(
    paths: Seq<Seq<char>>,
    a: Seq<EntryView>,
    b: Seq<EntryView>,
    t: Seq<EntryView>,
)
    ensures
        forall|i: int|
            0 <= i < merged_for(paths, a, b, t).len() ==> {
                let e = #[trigger] merged_for(paths, a, b, t)[i];
                &&& e.oids.len() == 1 || e.oids.len() == 2
                &&& e.entry_type == EntryType::X <==> e.oids.len() == 2
            },
    decreases paths.len(),
{
    if paths.len() > 0 {
        lemma_merged_for_conflicts(paths.drop_last(), a, b, t);
        let p = paths.last();
        if merge_cell(side(a, p), side(b, p), side(t, p)) is Some {
            lemma_cell_conflict(side(a, p), side(b, p), side(t, p));
        }
    }
}

/// Every conflicted entry of a three-way merge carries exactly its two
/// sides, and every clean one a single content id; so the working-tree
/// writes of the merge put a conflict file, with both sides between the
/// markers, at the path of each conflicted entry and nowhere else.
pub proof fn lemma_conflicts_get_marker_files(
    a: Seq<EntryView>,
    b: Seq<EntryView>,
    t: Seq<EntryView>,
    merged: Seq<IndexEntry>,
    writes: Seq<WorkWrite>,
)
    requires
        index_view(merged) == three_way_spec(a, b, t),
        writes.len() == merged.len(),
        forall|i: int| 0 <= i < writes.len() ==> write_for(#[trigger] writes[i], merged[i]@),
    ensures
        forall|i: int|
            0 <= i < merged.len() ==> ((#[trigger] merged[i]).entry_type == EntryType::X <==> (
            writes[i] matches WorkWrite::Conflict { path, base, target } && path@ == merged[i].path@
                && base@ == merged[i]@.oids[0] && target@ == merged[i]@.oids[1])),
{
    lemma_merged_for_conflicts(merge_paths(a, b, t), a, b, t);
    assert forall|i: int| 0 <= i < merged.len() implies ((#[trigger] merged[i]).entry_type
        == EntryType::X <==> (writes[i] matches WorkWrite::Conflict { path, base, target } && path@
        == merged[i].path@ && base@ == merged[i]@.oids[0] && target@ == merged[i]@.oids[1])) by {
        assert(index_view(merged)[i] == merged[i]@);
        assert(write_for(writes[i], merged[i]@));
    }
}

/// How two commits relate in the commit graph.
#[derive(Debug)]
pub enum Ancestor {
    /// The target descends from the base: a fast-forward.
    Direct,
    /// The base descends from the target: nothing to merge.
    DirectReverse,
    /// The two share the given ancestor.
    Shared(String),
    /// Unrelated histories.
    NotFound,
}

/// The first element of `xs` that `ys` holds, if any.
pub open spec fn first_shared(xs: Seq<Seq<char>>, ys: Seq<Seq<char>>) -> Option<Seq<char>>
    decreases xs.len(),
{
    if xs.len() == 0 {
        None
    } else if ys.contains(xs[0]) {
        Some(xs[0])
    } else {
        first_shared(xs.drop_first(), ys)
    }
}

/// Classifies `base` against `target`: `Direct` when `base` is an ancestor
/// of `target`, else `DirectReverse` when `target` is one of `base`, else
/// `Shared` with the first ancestor of `base` (in the given order) that is
/// also one of `target`, else `NotFound`.
pub fn classify_ancestry(
    base: &String,
    target: &String,
    base_anc: &Vec<String>,
    target_anc: &Vec<String>,
) -> (r: Ancestor)
    ensures
        ({
            let (b, t, ba, ta) = (base@, target@, strings_view(base_anc@), strings_view(target_anc@));
            match r {
                Ancestor::Direct => ta.contains(b),
                Ancestor::DirectReverse => !ta.contains(b) && ba.contains(t),
                Ancestor::Shared(c) => !ta.contains(b) && !ba.contains(t) && first_shared(ba, ta)
                    == Some(c@),
                Ancestor::NotFound => !ta.contains(b) && !ba.contains(t) && first_shared(ba, ta)
                    is None,
            }
        }),
{
    if contains_string(target_anc, base) {
        return Ancestor::Direct;
    }
    if contains_string(base_anc, target) {
        return Ancestor::DirectReverse;
    }
    let ghost ba = strings_view(base_anc@);
    let ghost ta = strings_view(target_anc@);
    let mut i: usize = 0;
    assert(ba.subrange(0, ba.len() as int) =~= ba);
    while i < base_anc.len()
        invariant
            i <= base_anc@.len(),
            ba == strings_view(base_anc@),
            ta == strings_view(target_anc@),
            first_shared(ba, ta) == first_shared(ba.subrange(i as int, ba.len() as int), ta),
            !ta.contains(base@),
            !ba.contains(target@),
        decreases base_anc@.len() - i,
    {
        let ghost rest = ba.subrange(i as int, ba.len() as int);
        assert(rest.drop_first() =~= ba.subrange(i + 1, ba.len() as int));
        assert(rest[0] == base_anc@[i as int]@);
        if contains_string(target_anc, &base_anc[i]) {
            let c = base_anc[i].clone();
            assert(ta.contains(rest[0]));
            assert(first_shared(rest, ta) == Some(c@));
            assert(first_shared(ba, ta) == Some(c@));
            return Ancestor::Shared(c);
        }
        i = i + 1;
    }
    Ancestor::NotFound
}

/// The step that a merge takes.
#[derive(Debug)]
pub enum MergePlan {
    /// Nothing to do.
    UpToDate,
    /// Point `branch` at `target` and check it out.
    FastForward { branch: String, target: String },
    /// Merge `base` and `target` against `ancestor`.
    ThreeWay { base: String, target: String, ancestor: String },
}

/// Decides a merge of the commit `target` into the current branch.
/// Refuses a dirty working tree with `DirtyWorkingTree` and a detached HEAD
/// with `DetachedHeadForbidden`; equal commits are up to date; otherwise
/// the relation of the two commits decides, and unrelated histories fail
/// with `NotFound`.
pub fn merge(
    clean: bool,
    head_branch: Option<String>,
    head_oid: String,
    target: String,
    relation: Ancestor,
) -> (r: Result<MergePlan, RepoError>)
    ensures
        !clean ==> r == Err::<MergePlan, RepoError>(RepoError::DirtyWorkingTree),
        clean && head_branch is None ==> r == Err::<MergePlan, RepoError>(
            RepoError::DetachedHeadForbidden,
        ),
        clean && head_branch is Some ==> match r {
            Ok(MergePlan::UpToDate) => head_oid@ == target@ || relation is DirectReverse,
            Ok(MergePlan::FastForward { branch, target: t }) => head_oid@ != target@
                && relation is Direct && branch@ == head_branch->0@ && t@ == target@,
            Ok(MergePlan::ThreeWay { base, target: t, ancestor }) => head_oid@ != target@
                && relation == Ancestor::Shared(ancestor) && base@ == head_oid@ && t@ == target@,
            Err(e) => head_oid@ != target@ && relation is NotFound && e == RepoError::NotFound,
        },
{
    if !clean {
        return Err(RepoError::DirtyWorkingTree);
    }
    let branch = match head_branch {
        Some(b) => b,
        None => {
            return Err(RepoError::DetachedHeadForbidden);
        },
    };
    if head_oid == target {
        return Ok(MergePlan::UpToDate);
    }
    match relation {
        Ancestor::Direct => Ok(MergePlan::FastForward { branch, target }),
        Ancestor::DirectReverse => Ok(MergePlan::UpToDate),
        Ancestor::Shared(ancestor) => Ok(MergePlan::ThreeWay { base: head_oid, target, ancestor }),
        Ancestor::NotFound => Err(RepoError::NotFound),
    }
}

} // verus!
