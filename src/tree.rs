use vstd::prelude::*;
use crate::error::RepoError;
use crate::hash::{is_oid, sha256_hex};
use crate::index::{
    first_oid, first_oid_of, index_view, is_lit, literal, strings_view, type_code, EntryType,
    EntryView, IndexEntry,
};
use crate::merge::{contains_string, dir_mode};
use crate::text::{
    chars_of, join_on, lemma_join_free, lemma_split_join, lemma_split_nonempty, lines_of,
    pieces_view, push_all, split_chars, split_on, string_of, text_lines,
};
use vstd::utf8::encode_utf8;

verus! {

/// One row of a tree object.
#[derive(Debug)]
pub struct TreeRow {
    pub entry_type: EntryType,
    pub mode: String,
    pub name: String,
    pub oid: String,
}

pub struct RowView {
    pub entry_type: EntryType,
    pub mode: Seq<char>,
    pub name: Seq<char>,
    pub oid: Seq<char>,
}

impl View for TreeRow {
    type V = RowView;

    open spec fn view(&self) -> RowView {
        RowView { entry_type: self.entry_type, mode: self.mode@, name: self.name@, oid: self.oid@ }
    }
}

pub open spec fn rows_view(rs: Seq<TreeRow>) -> Seq<RowView> {
    rs.map_values(|r: TreeRow| r@)
}

/// The tab-separated fields of a tree row.
pub open spec fn row_fields(r: RowView) -> Seq<Seq<char>> {
    seq![type_code(r.entry_type), r.mode, r.name, r.oid]
}

/// A tree row's line: `type<TAB>mode<TAB>name<TAB>oid` and a newline.
pub open spec fn row_line(r: RowView) -> Seq<char> {
    join_on(row_fields(r), '\t') + seq!['\n']
}

/// The payload of a tree object: its rows' lines in order.
pub open spec fn rows_text(rs: Seq<RowView>) -> Seq<char>
    decreases rs.len(),
{
    if rs.len() == 0 {
        Seq::<char>::empty()
    } else {
        rows_text(rs.drop_last()) + row_line(rs.last())
    }
}

/// One tree line.
pub fn format_entry(entry_type: EntryType, perms: &str, name: &str, oid: &str) -> (r: String)
    ensures
        r@ == row_line(RowView { entry_type, mode: perms@, name: name@, oid: oid@ }),
{
    let mut r = String::new();
    match entry_type {
        EntryType::C => r.push('C'),
        EntryType::X => r.push('X'),
    }
    r.push('\t');
    push_all(&mut r, perms);
    r.push('\t');
    push_all(&mut r, name);
    r.push('\t');
    push_all(&mut r, oid);
    r.push('\n');
    let ghost f = row_fields(RowView { entry_type, mode: perms@, name: name@, oid: oid@ });
    assert(join_on(f, '\t') =~= type_code(entry_type) + seq!['\t'] + perms@ + seq!['\t'] + name@
        + seq!['\t'] + oid@) by {
        let f3 = seq![type_code(entry_type), perms@, name@];
        let f2 = seq![type_code(entry_type), perms@];
        let f1 = seq![type_code(entry_type)];
        assert(f.drop_last() =~= f3);
        assert(f3.drop_last() =~= f2);
        assert(f2.drop_last() =~= f1);
        assert(join_on(f1, '\t') == type_code(entry_type));
        assert(join_on(f2, '\t') == join_on(f1, '\t') + seq!['\t'] + perms@);
        assert(join_on(f3, '\t') == join_on(f2, '\t') + seq!['\t'] + name@);
        assert(join_on(f, '\t') == join_on(f3, '\t') + seq!['\t'] + oid@);
    }
    assert(r@ =~= row_line(RowView { entry_type, mode: perms@, name: name@, oid: oid@ }));
    r
}

/// Strict lexicographic order on names, character by character.
pub open spec fn lex_lt(a: Seq<char>, b: Seq<char>) -> bool
    decreases a.len(),
{
    if b.len() == 0 {
        false
    } else if a.len() == 0 {
        true
    } else if a[0] != b[0] {
        a[0] < b[0]
    } else {
        lex_lt(a.drop_first(), b.drop_first())
    }
}

/// Whether `a` sorts strictly before `b`.
pub fn name_lt(a: &[char], b: &[char]) -> (r: bool)
    ensures
        r == lex_lt(a@, b@),
{
    let mut i: usize = 0;
    assert(a@.subrange(0, a@.len() as int) =~= a@);
    assert(b@.subrange(0, b@.len() as int) =~= b@);
    while i < a.len() && i < b.len() && a[i] == b[i]
        invariant
            i <= a@.len(),
            i <= b@.len(),
            lex_lt(a@, b@) == lex_lt(
                a@.subrange(i as int, a@.len() as int),
                b@.subrange(i as int, b@.len() as int),
            ),
        decreases a@.len() - i,
    {
        assert(a@.subrange(i as int, a@.len() as int).drop_first() =~= a@.subrange(
            i + 1,
            a@.len() as int,
        ));
        assert(b@.subrange(i as int, b@.len() as int).drop_first() =~= b@.subrange(
            i + 1,
            b@.len() as int,
        ));
        i = i + 1;
    }
    if i == b.len() {
        false
    } else if i == a.len() {
        true
    } else {
        a[i] < b[i]
    }
}

/// `x` placed into `s` after the last row whose name is not greater.
pub open spec fn insert_row(s: Seq<RowView>, x: RowView) -> Seq<RowView>
    decreases s.len(),
{
    if s.len() == 0 {
        seq![x]
    } else if lex_lt(x.name, s.last().name) {
        insert_row(s.drop_last(), x).push(s.last())
    } else {
        s.push(x)
    }
}

/// The rows in name order; rows with equal names keep their order.
pub open spec fn sort_rows(rs: Seq<RowView>) -> Seq<RowView>
    decreases rs.len(),
{
    if rs.len() == 0 {
        rs
    } else {
        insert_row(sort_rows(rs.drop_last()), rs.last())
    }
}

proof fn lemma_insert_at(s: Seq<RowView>, x: RowView, j: int)
    requires
        0 <= j <= s.len(),
        forall|k: int| j <= k < s.len() ==> lex_lt(x.name, #[trigger] s[k].name),
        j == 0 || !lex_lt(x.name, s[j - 1].name),
    ensures
        insert_row(s, x) == s.insert(j, x),
    decreases s.len(),
{
    if s.len() == 0 {
        assert(s.insert(j, x) =~= seq![x]);
    } else if j == s.len() {
        assert(s.insert(j, x) =~= s.push(x));
    } else {
        let q = s.drop_last();
        assert(lex_lt(x.name, s[s.len() - 1].name));
        lemma_insert_at(q, x, j);
        assert(q.insert(j, x).push(s.last()) =~= s.insert(j, x));
    }
}

fn sort_tree_rows(rows: Vec<TreeRow>) -> (r: Vec<TreeRow>)
    ensures
        rows_view(r@) == sort_rows(rows_view(rows@)),
{
    let ghost rv = rows_view(rows@);
    let mut out: Vec<TreeRow> = Vec::new();
    let mut rows = rows;
    assert(rows_view(out@) =~= sort_rows(rv.subrange(0, 0)));
    let mut i: usize = 0;
    let n = rows.len();
    while rows.len() > 0
        invariant
            i + rows@.len() == n,
            n == rv.len(),
            forall|k: int| 0 <= k < rows@.len() ==> #[trigger] rows@[k]@ == rv[i + k],
            rows_view(out@) == sort_rows(rv.subrange(0, i as int)),
        decreases rows@.len(),
    {
        let ghost before = rows@;
        let x = rows.remove(0);
        assert(x@ == rv[i as int]);
        assert forall|k: int| 0 <= k < rows@.len() implies #[trigger] rows@[k]@ == rv[i + 1 + k] by {
            assert(rows@[k] == before[k + 1]);
        }
        let ghost s = rows_view(out@);
        let mut j: usize = out.len();
        while j > 0 && name_lt(chars_of(x.name.as_str()).as_slice(), chars_of(out[j - 1].name.as_str()).as_slice())
            invariant
                j <= out@.len(),
                s == rows_view(out@),
                forall|k: int| j <= k < s.len() ==> lex_lt(x@.name, #[trigger] s[k].name),
            decreases j,
        {
            j = j - 1;
        }
        proof {
            lemma_insert_at(s, x@, j as int);
            assert(rv.subrange(0, i + 1).drop_last() =~= rv.subrange(0, i as int));
        }
        let ghost xv = x@;
        out.insert(j, x);
        assert(rows_view(out@) =~= s.insert(j as int, xv));
        i = i + 1;
    }
    assert(rv.subrange(0, i as int) =~= rv);
    out
}

/// The position of the first `/` in a path, or -1 when it has none.
pub open spec fn first_slash(p: Seq<char>) -> int
    decreases p.len(),
{
    if p.len() == 0 {
        -1
    } else if p[0] == '/' {
        0
    } else {
        let k = first_slash(p.drop_first());
        if k < 0 {
            -1
        } else {
            k + 1
        }
    }
}

/// The first component of a path that holds a `/`.
pub open spec fn head_of(p: Seq<char>) -> Seq<char> {
    p.subrange(0, first_slash(p))
}

/// What follows the first `/` of a path.
pub open spec fn tail_of(p: Seq<char>) -> Seq<char> {
    p.subrange(first_slash(p) + 1, p.len() as int)
}

/// The clean entries of an index, in order.
pub open spec fn clean_only(es: Seq<EntryView>) -> Seq<EntryView>
    decreases es.len(),
{
    if es.len() == 0 {
        es
    } else if es.last().entry_type == EntryType::C {
        clean_only(es.drop_last()).push(es.last())
    } else {
        clean_only(es.drop_last())
    }
}

/// The rows for the entries that sit directly in this tree.
pub open spec fn file_rows(es: Seq<EntryView>) -> Seq<RowView>
    decreases es.len(),
{
    if es.len() == 0 {
        Seq::<RowView>::empty()
    } else {
        let prev = file_rows(es.drop_last());
        let e = es.last();
        if first_slash(e.path) < 0 {
            prev.push(RowView { entry_type: e.entry_type, mode: e.mode, name: e.path, oid: first_oid(e) })
        } else {
            prev
        }
    }
}

/// The names of the subdirectories, in order of first appearance.
pub open spec fn dir_names(es: Seq<EntryView>) -> Seq<Seq<char>>
    decreases es.len(),
{
    if es.len() == 0 {
        Seq::<Seq<char>>::empty()
    } else {
        let prev = dir_names(es.drop_last());
        let e = es.last();
        if first_slash(e.path) >= 0 && !prev.contains(head_of(e.path)) {
            prev.push(head_of(e.path))
        } else {
            prev
        }
    }
}

/// The entries under the subdirectory `d`, with paths relative to it.
pub open spec fn sub_entries(es: Seq<EntryView>, d: Seq<char>) -> Seq<EntryView>
    decreases es.len(),
{
    if es.len() == 0 {
        Seq::<EntryView>::empty()
    } else {
        let prev = sub_entries(es.drop_last(), d);
        let e = es.last();
        if first_slash(e.path) >= 0 && head_of(e.path) == d {
            prev.push(
                EntryView {
                    entry_type: e.entry_type,
                    mode: e.mode,
                    path: tail_of(e.path),
                    oids: seq![first_oid(e)],
                },
            )
        } else {
            prev
        }
    }
}

/// The rows for the subdirectories of `es`, each naming the id of the
/// subtree built from its entries; none at fuel 0.
pub open spec fn dir_rows(es: Seq<EntryView>, fuel: nat) -> Seq<RowView>
    decreases fuel, 0nat,
{
    if fuel == 0 {
        Seq::<RowView>::empty()
    } else {
        let names = dir_names(es);
        Seq::new(
            names.len(),
            |i: int|
                RowView {
                    entry_type: EntryType::C,
                    mode: dir_mode(),
                    name: names[i],
                    oid: sha256_hex(
                        encode_utf8(tree_text_spec(sub_entries(es, names[i]), (fuel - 1) as nat)),
                    ),
                },
        )
    }
}

/// The payload of the tree for the entries `es`: the file rows and one
/// row per subdirectory, sorted by name. Below `fuel` levels no
/// subdirectory rows are made.
pub open spec fn tree_text_spec(es: Seq<EntryView>, fuel: nat) -> Seq<char>
    decreases fuel, 1nat,
{
    rows_text(sort_rows(file_rows(es) + dir_rows(es, fuel)))
}

/// The id of a text object: the digest of its UTF-8 bytes.
pub open spec fn text_oid(text: Seq<char>) -> Seq<char> {
    sha256_hex(encode_utf8(text))
}

/// A text object (a tree, commit or tag) with its id.
#[derive(Clone, Debug)]
pub struct TextObject {
    pub oid: String,
    pub text: String,
}

/// An object whose id is the digest of its payload.
pub open spec fn object_ok(o: TextObject) -> bool {
    o.oid@ == text_oid(o.text@)
}

/// The id of a text payload.
pub fn hash_text(text: &String) -> (r: String)
    ensures
        r@ == text_oid(text@),
        is_oid(r@),
{
    let b = text.as_str().as_bytes();
    crate::hash::hash_slice(b)
}

proof fn lemma_first_slash(p: Seq<char>)
    ensures
        -1 <= first_slash(p) < p.len(),
        first_slash(p) >= 0 ==> p[first_slash(p)] == '/',
        first_slash(p) == -1 ==> !p.contains('/'),
        forall|j: int| 0 <= j < first_slash(p) ==> p[j] != '/',
    decreases p.len(),
{
    if p.len() > 0 && p[0] != '/' {
        lemma_first_slash(p.drop_first());
        if first_slash(p) == -1 && p.contains('/') {
            let j = choose|j: int| 0 <= j < p.len() && p[j] == '/';
            assert(p.drop_first()[j - 1] == '/');
        }
        assert forall|j: int| 0 <= j < first_slash(p) implies p[j] != '/' by {
            if j > 0 {
                assert(p[j] == p.drop_first()[j - 1]);
            }
        }
    }
}

fn find_slash(p: &[char]) -> (r: Option<usize>)
    ensures
        match r {
            Some(k) => first_slash(p@) == k,
            None => first_slash(p@) == -1,
        },
{
    let mut i: usize = 0;
    assert(p@.subrange(0, p@.len() as int) =~= p@);
    while i < p.len()
        invariant
            i <= p@.len(),
            first_slash(p@) == if first_slash(p@.subrange(i as int, p@.len() as int)) < 0 {
                -1
            } else {
                first_slash(p@.subrange(i as int, p@.len() as int)) + i
            },
        decreases p@.len() - i,
    {
        let ghost rest = p@.subrange(i as int, p@.len() as int);
        assert(rest.drop_first() =~= p@.subrange(i + 1, p@.len() as int));
        if p[i] == '/' {
            return Some(i);
        }
        i = i + 1;
    }
    None
}

fn collect_file_rows(es: &Vec<IndexEntry>) -> (r: Vec<TreeRow>)
    ensures
        rows_view(r@) == file_rows(index_view(es@)),
{
    let ghost ev = index_view(es@);
    let mut out: Vec<TreeRow> = Vec::new();
    let mut i: usize = 0;
    assert(rows_view(out@) =~= Seq::<RowView>::empty());
    while i < es.len()
        invariant
            i <= es@.len(),
            ev == index_view(es@),
            rows_view(out@) == file_rows(ev.subrange(0, i as int)),
        decreases es@.len() - i,
    {
        assert(ev.subrange(0, i + 1).drop_last() =~= ev.subrange(0, i as int));
        assert(ev.subrange(0, i + 1).last() == es@[i as int]@);
        let e = &es[i];
        let pc = chars_of(e.path.as_str());
        if find_slash(pc.as_slice()).is_none() {
            let ghost before = out@;
            let row = TreeRow {
                entry_type: e.entry_type,
                mode: e.mode.clone(),
                name: e.path.clone(),
                oid: first_oid_of(e),
            };
            out.push(row);
            assert(rows_view(out@) =~= rows_view(before).push(row@));
        }
        i = i + 1;
    }
    assert(ev.subrange(0, i as int) =~= ev);
    out
}

fn collect_dir_names(es: &Vec<IndexEntry>) -> (r: Vec<String>)
    ensures
        strings_view(r@) == dir_names(index_view(es@)),
{
    let ghost ev = index_view(es@);
    let mut out: Vec<String> = Vec::new();
    let mut i: usize = 0;
    assert(strings_view(out@) =~= Seq::<Seq<char>>::empty());
    while i < es.len()
        invariant
            i <= es@.len(),
            ev == index_view(es@),
            strings_view(out@) == dir_names(ev.subrange(0, i as int)),
        decreases es@.len() - i,
    {
        assert(ev.subrange(0, i + 1).drop_last() =~= ev.subrange(0, i as int));
        assert(ev.subrange(0, i + 1).last() == es@[i as int]@);
        let e = &es[i];
        let pc = chars_of(e.path.as_str());
        match find_slash(pc.as_slice()) {
            Some(k) => {
                proof {
                    lemma_first_slash(pc@);
                }
                let head = string_of(&pc[0..k]);
                if !contains_string(&out, &head) {
                    let ghost before = out@;
                    out.push(head);
                    assert(strings_view(out@) =~= strings_view(before).push(head@));
                }
            },
            None => {},
        }
        i = i + 1;
    }
    assert(ev.subrange(0, i as int) =~= ev);
    out
}

fn collect_sub_entries(es: &Vec<IndexEntry>, d: &String) -> (r: Vec<IndexEntry>)
    ensures
        index_view(r@) == sub_entries(index_view(es@), d@),
{
    let ghost ev = index_view(es@);
    let mut out: Vec<IndexEntry> = Vec::new();
    let mut i: usize = 0;
    assert(index_view(out@) =~= Seq::<EntryView>::empty());
    while i < es.len()
        invariant
            i <= es@.len(),
            ev == index_view(es@),
            index_view(out@) == sub_entries(ev.subrange(0, i as int), d@),
        decreases es@.len() - i,
    {
        assert(ev.subrange(0, i + 1).drop_last() =~= ev.subrange(0, i as int));
        assert(ev.subrange(0, i + 1).last() == es@[i as int]@);
        let e = &es[i];
        let pc = chars_of(e.path.as_str());
        match find_slash(pc.as_slice()) {
            Some(k) => {
                proof {
                    lemma_first_slash(pc@);
                }
                let head = string_of(&pc[0..k]);
                let n = pc.len();
                assert(k < n);
                let after: usize = k + 1;
                if head == *d {
                    let ghost before = out@;
                    let mut oids: Vec<String> = Vec::new();
                    oids.push(first_oid_of(e));
                    assert(strings_view(oids@) =~= seq![first_oid(e@)]);
                    let sub = IndexEntry {
                        entry_type: e.entry_type,
                        mode: e.mode.clone(),
                        path: string_of(&pc[after..pc.len()]),
                        oids,
                    };
                    out.push(sub);
                    assert(index_view(out@) =~= index_view(before).push(sub@));
                }
            },
            None => {},
        }
        i = i + 1;
    }
    assert(ev.subrange(0, i as int) =~= ev);
    out
}

fn rows_to_text(rows: &Vec<TreeRow>) -> (r: String)
    ensures
        r@ == rows_text(rows_view(rows@)),
{
    let ghost rv = rows_view(rows@);
    let mut out = String::new();
    let mut i: usize = 0;
    while i < rows.len()
        invariant
            i <= rows@.len(),
            rv == rows_view(rows@),
            out@ == rows_text(rv.subrange(0, i as int)),
        decreases rows@.len() - i,
    {
        assert(rv.subrange(0, i + 1).drop_last() =~= rv.subrange(0, i as int));
        assert(rv.subrange(0, i + 1).last() == rows@[i as int]@);
        let r = &rows[i];
        let line = format_entry(r.entry_type, r.mode.as_str(), r.name.as_str(), r.oid.as_str());
        push_all(&mut out, line.as_str());
        i = i + 1;
    }
    assert(rv.subrange(0, i as int) =~= rv);
    out
}

/// The ids and payloads of the trees built for `es`: those of its
/// subdirectories, in order of first appearance, each with its own
/// subtrees first, and last the tree itself.
pub open spec fn tree_objects(es: Seq<EntryView>, fuel: nat) -> Seq<(Seq<char>, Seq<char>)>
    decreases fuel, 1nat, 0nat,
{
    subtree_objects(es, dir_names(es), fuel) + seq![
        (text_oid(tree_text_spec(es, fuel)), tree_text_spec(es, fuel)),
    ]
}

/// The trees built for the subdirectories `names` of `es`, in order; none
/// at fuel 0.
pub open spec fn subtree_objects(es: Seq<EntryView>, names: Seq<Seq<char>>, fuel: nat) -> Seq<
    (Seq<char>, Seq<char>),
>
    decreases fuel, 0nat, names.len(),
{
    if fuel == 0 || names.len() == 0 {
        Seq::<(Seq<char>, Seq<char>)>::empty()
    } else {
        subtree_objects(es, names.drop_last(), fuel) + tree_objects(
            sub_entries(es, names.last()),
            (fuel - 1) as nat,
        )
    }
}

/// Builds the tree for `es` and the trees below it, appending each to
/// `out` (subtrees before their parents, the tree itself last), and
/// returns its id.
fn build_tree(es: &Vec<IndexEntry>, fuel: usize, out: &mut Vec<TextObject>) -> (r: String)
    ensures
        r@ == text_oid(tree_text_spec(index_view(es@), fuel as nat)),
        is_oid(r@),
        final(out)@.len() > old(out)@.len(),
        final(out)@.subrange(0, old(out)@.len() as int) == old(out)@,
        forall|k: int|
            old(out)@.len() <= k < final(out)@.len() ==> object_ok(#[trigger] final(out)@[k]),
        final(out)@.last().oid@ == r@,
        final(out)@.last().text@ == tree_text_spec(index_view(es@), fuel as nat),
        texts_view(final(out)@.subrange(old(out)@.len() as int, final(out)@.len() as int))
            == tree_objects(index_view(es@), fuel as nat),
    decreases fuel,
{
    let ghost ev = index_view(es@);
    let ghost start = out@;
    let mut rows = collect_file_rows(es);
    let ghost files = rows_view(rows@);
    let ghost spec_dirs = dir_rows(ev, fuel as nat);
    assert(tree_text_spec(ev, fuel as nat) == rows_text(sort_rows(files + spec_dirs)));
    if fuel > 0 {
        let names = collect_dir_names(es);
        let ghost nv = strings_view(names@);
        let ghost dirs = spec_dirs;
        let mut i: usize = 0;
        while i < names.len()
            invariant
                i <= names@.len(),
                fuel > 0,
                nv == strings_view(names@),
                ev == index_view(es@),
                dirs.len() == nv.len(),
                forall|j: int| 0 <= j < nv.len() ==> #[trigger] dirs[j] == (RowView {
                    entry_type: EntryType::C,
                    mode: dir_mode(),
                    name: nv[j],
                    oid: text_oid(tree_text_spec(sub_entries(ev, nv[j]), (fuel - 1) as nat)),
                }),
                rows_view(rows@) == files + dirs.subrange(0, i as int),
                out@.len() >= start.len(),
                out@.subrange(0, start.len() as int) == start,
                forall|k: int| start.len() <= k < out@.len() ==> object_ok(#[trigger] out@[k]),
                texts_view(out@.subrange(start.len() as int, out@.len() as int)) == subtree_objects(
                    ev,
                    nv.subrange(0, i as int),
                    fuel as nat,
                ),
            decreases names@.len() - i,
        {
            let sub = collect_sub_entries(es, &names[i]);
            let ghost mid = out@;
            let sub_oid = build_tree(&sub, fuel - 1, out);
            proof {
                let a = mid.subrange(start.len() as int, mid.len() as int);
                let b = out@.subrange(mid.len() as int, out@.len() as int);
                assert(out@.subrange(start.len() as int, out@.len() as int) =~= a + b) by {
                    assert(out@.subrange(0, mid.len() as int) == mid);
                }
                assert(texts_view(a + b) =~= texts_view(a) + texts_view(b));
                let names_i = nv.subrange(0, i + 1);
                assert(names_i.drop_last() =~= nv.subrange(0, i as int));
                assert(names_i.last() == names@[i as int]@);
            }
            assert(out@.subrange(0, start.len() as int) =~= mid.subrange(0, start.len() as int));
            assert forall|k: int| start.len() <= k < out@.len() implies object_ok(#[trigger] out@[k]) by {
                if k < mid.len() {
                    assert(out@[k] == out@.subrange(0, mid.len() as int)[k]);
                }
            }
            let mode = literal("040000");
            proof {
                reveal_strlit("040000");
            }
            assert(mode@ =~= dir_mode());
            let row = TreeRow { entry_type: EntryType::C, mode, name: names[i].clone(), oid: sub_oid };
            let ghost before = rows@;
            rows.push(row);
            assert(row@ == dirs[i as int]);
            assert(rows_view(rows@) =~= rows_view(before).push(row@));
            i = i + 1;
            assert(files + dirs.subrange(0, i as int) =~= (files + dirs.subrange(0, i - 1)).push(
                dirs[i - 1],
            ));
        }
        assert(dirs.subrange(0, i as int) =~= dirs);
        assert(nv.subrange(0, i as int) =~= nv);
    } else {
        assert(files + Seq::<RowView>::empty() =~= files);
        assert(out@.subrange(start.len() as int, out@.len() as int) =~= Seq::<TextObject>::empty());
    }
    let ghost subs = out@;
    assert(rows_view(rows@) == files + spec_dirs);
    let sorted = sort_tree_rows(rows);
    let text = rows_to_text(&sorted);
    let oid = hash_text(&text);
    assert(text@ == tree_text_spec(ev, fuel as nat));
    let ghost before = out@;
    let ghost tv = text@;
    out.push(TextObject { oid: oid.clone(), text });
    assert(out@.subrange(0, start.len() as int) =~= before.subrange(0, start.len() as int));
    assert(out@.subrange(start.len() as int, out@.len() as int) =~= subs.subrange(
        start.len() as int,
        subs.len() as int,
    ).push(out@.last()));
    assert(texts_view(out@.subrange(start.len() as int, out@.len() as int)) =~= texts_view(
        subs.subrange(start.len() as int, subs.len() as int),
    ) + seq![(oid@, tv)]);
    oid
}

/// The length of the longest path: more levels than the index has
/// directories.
pub open spec fn tree_fuel(es: Seq<EntryView>) -> nat
    decreases es.len(),
{
    if es.len() == 0 {
        0
    } else {
        let prev = tree_fuel(es.drop_last());
        let here = es.last().path.len();
        if here > prev {
            here
        } else {
            prev
        }
    }
}

/// Whether the blob of every clean entry is among the stored objects.
pub open spec fn blobs_present(es: Seq<EntryView>, existing: Seq<Seq<char>>) -> bool {
    forall|i: int|
        0 <= i < es.len() && (#[trigger] es[i]).entry_type == EntryType::C ==> existing.contains(
            first_oid(es[i]),
        )
}

/// The id of the root tree that an index produces.
pub open spec fn root_tree_text(es: Seq<EntryView>) -> Seq<char> {
    tree_text_spec(clean_only(es), tree_fuel(es))
}

/// Materializes the clean entries of an index as tree objects. Returns the
/// root tree's id and the trees to store, subtrees first and the root
/// last; conflicted entries are left out. Fails with `NotFound` when the
/// blob of a clean entry is not among the `existing` object ids.
pub fn write_tree_from_index(index: &Vec<IndexEntry>, existing: &Vec<String>) -> (r: Result<
    (String, Vec<TextObject>),
    RepoError,
>)
    ensures
        ({
            let iv = index_view(index@);
            match r {
                Ok((root, objs)) => {
                    &&& blobs_present(iv, strings_view(existing@))
                    &&& root@ == text_oid(root_tree_text(iv))
                    &&& is_oid(root@)
                    &&& objs@.len() > 0
                    &&& objs@.last().oid@ == root@
                    &&& objs@.last().text@ == root_tree_text(iv)
                    &&& texts_view(objs@) == tree_objects(clean_only(iv), tree_fuel(iv))
                    &&& forall|k: int| 0 <= k < objs@.len() ==> object_ok(#[trigger] objs@[k])
                },
                Err(e) => e == RepoError::NotFound && !blobs_present(iv, strings_view(existing@)),
            }
        }),
{
    let ghost iv = index_view(index@);
    let mut clean: Vec<IndexEntry> = Vec::new();
    let mut fuel: usize = 0;
    let mut i: usize = 0;
    assert(index_view(clean@) =~= Seq::<EntryView>::empty());
    while i < index.len()
        invariant
            i <= index@.len(),
            iv == index_view(index@),
            index_view(clean@) == clean_only(iv.subrange(0, i as int)),
            fuel as nat == tree_fuel(iv.subrange(0, i as int)),
            blobs_present(iv.subrange(0, i as int), strings_view(existing@)),
        decreases index@.len() - i,
    {
        let ghost pre = iv.subrange(0, i as int);
        assert(iv.subrange(0, i + 1).drop_last() =~= pre);
        assert(iv.subrange(0, i + 1).last() == index@[i as int]@);
        let e = &index[i];
        let len = e.path.as_str().unicode_len();
        if len > fuel {
            fuel = len;
        }
        if e.entry_type == EntryType::C {
            let o = first_oid_of(e);
            if !contains_string(existing, &o) {
                assert(!blobs_present(iv, strings_view(existing@))) by {
                    assert(iv[i as int] == e@);
                }
                return Err(RepoError::NotFound);
            }
            let ghost before = clean@;
            let d = e.duplicate();
            clean.push(d);
            assert(index_view(clean@) =~= index_view(before).push(d@));
        }
        i = i + 1;
        assert forall|k: int|
            0 <= k < iv.subrange(0, i as int).len() && (#[trigger] iv.subrange(0, i as int)[k]).entry_type
                == EntryType::C implies strings_view(existing@).contains(
            first_oid(iv.subrange(0, i as int)[k]),
        ) by {
            if k < i - 1 {
                assert(iv.subrange(0, i as int)[k] == pre[k]);
            }
        }
    }
    assert(iv.subrange(0, i as int) =~= iv);
    let mut objs: Vec<TextObject> = Vec::new();
    let root = build_tree(&clean, fuel, &mut objs);
    assert(objs@.subrange(0, objs@.len() as int) =~= objs@);
    Ok((root, objs))
}

/// An index without clean entries produces the tree with the empty payload.
pub proof fn lemma_empty_index_empty_tree(es: Seq<EntryView>)
    requires
        forall|i: int| 0 <= i < es.len() ==> (#[trigger] es[i]).entry_type == EntryType::X,
    ensures
        root_tree_text(es) == Seq::<char>::empty(),
{
    lemma_clean_only_empty(es);
    let c = clean_only(es);
    let f = tree_fuel(es);
    assert(file_rows(c) =~= Seq::<RowView>::empty());
    assert(dir_names(c) =~= Seq::<Seq<char>>::empty());
    assert(dir_rows(c, f) =~= Seq::<RowView>::empty());
    assert(file_rows(c) + dir_rows(c, f) =~= Seq::<RowView>::empty());
}

proof fn lemma_clean_only_empty(es: Seq<EntryView>)
    requires
        forall|i: int| 0 <= i < es.len() ==> (#[trigger] es[i]).entry_type == EntryType::X,
    ensures
        clean_only(es) == Seq::<EntryView>::empty(),
    decreases es.len(),
{
    if es.len() > 0 {
        let q = es.drop_last();
        assert forall|i: int| 0 <= i < q.len() implies (#[trigger] q[i]).entry_type == EntryType::X by {
            assert(q[i] == es[i]);
        }
        lemma_clean_only_empty(q);
        assert(es[es.len() - 1].entry_type == EntryType::X);
    }
}

/// What one line of a tree payload stands for.
pub enum TreeLine {
    Skip,
    Bad,
    File(EntryView),
    Dir(Seq<char>, Seq<char>),
}

pub open spec fn file_mode_644() -> Seq<char> {
    seq!['1', '0', '0', '6', '4', '4']
}

pub open spec fn file_mode_755() -> Seq<char> {
    seq!['1', '0', '0', '7', '5', '5']
}

/// A tree line: a `C` row of file mode is an entry and one of directory
/// mode a subtree; a `C` row of another mode and an `X` row are skipped; a
/// `C` row of fewer than four fields or an unknown type is malformed.
pub open spec fn tree_line(l: Seq<char>) -> TreeLine {
    let f = split_on(l, '\t');
    if f[0] == seq!['X'] {
        TreeLine::Skip
    } else if f[0] == seq!['C'] {
        if f.len() < 4 {
            TreeLine::Bad
        } else if f[1] == file_mode_644() || f[1] == file_mode_755() {
            TreeLine::File(
                EntryView { entry_type: EntryType::C, mode: f[1], path: f[2], oids: seq![f[3]] },
            )
        } else if f[1] == dir_mode() {
            TreeLine::Dir(f[2], f[3])
        } else {
            TreeLine::Skip
        }
    } else {
        TreeLine::Bad
    }
}

/// The ids and payloads of text objects.
pub open spec fn texts_view(objs: Seq<TextObject>) -> Seq<(Seq<char>, Seq<char>)> {
    objs.map_values(|o: TextObject| (o.oid@, o.text@))
}

/// The payload of the first object with id `oid`.
pub open spec fn lookup_text(objs: Seq<(Seq<char>, Seq<char>)>, oid: Seq<char>) -> Option<Seq<char>>
    decreases objs.len(),
{
    if objs.len() == 0 {
        None
    } else if objs[0].0 == oid {
        Some(objs[0].1)
    } else {
        lookup_text(objs.drop_first(), oid)
    }
}

/// Entries of a subtree, with `name/` put before their paths.
pub open spec fn under_dir(name: Seq<char>, es: Seq<EntryView>) -> Seq<EntryView> {
    es.map_values(|e: EntryView| EntryView { path: name + seq!['/'] + e.path, ..e })
}

/// The index that the tree `oid` holds, reading subtrees at most `fuel`
/// levels deep: `NotFound` for a missing tree, `InvalidData` for a
/// malformed line or a deeper subtree.
pub open spec fn read_tree_spec(objs: Seq<(Seq<char>, Seq<char>)>, oid: Seq<char>, fuel: nat) -> Result<
    Seq<EntryView>,
    RepoError,
>
    decreases fuel, 1nat, 0nat,
{
    match lookup_text(objs, oid) {
        None => Err(RepoError::NotFound),
        Some(text) => read_lines_spec(objs, lines_of(text), fuel),
    }
}

pub open spec fn read_lines_spec(objs: Seq<(Seq<char>, Seq<char>)>, ls: Seq<Seq<char>>, fuel: nat) -> Result<
    Seq<EntryView>,
    RepoError,
>
    decreases fuel, 0nat, ls.len(),
{
    if ls.len() == 0 {
        Ok(Seq::<EntryView>::empty())
    } else {
        match read_lines_spec(objs, ls.drop_last(), fuel) {
            Err(e) => Err(e),
            Ok(acc) => match tree_line(ls.last()) {
                TreeLine::Skip => Ok(acc),
                TreeLine::Bad => Err(RepoError::InvalidData),
                TreeLine::File(e) => Ok(acc.push(e)),
                TreeLine::Dir(name, sub) => if fuel == 0 {
                    Err(RepoError::InvalidData)
                } else {
                    match read_tree_spec(objs, sub, (fuel - 1) as nat) {
                        Err(e) => Err(e),
                        Ok(subs) => Ok(acc + under_dir(name, subs)),
                    }
                },
            },
        }
    }
}

/// The payload of the first stored object with id `oid`.
pub fn lookup_object<'a>(objs: &'a Vec<TextObject>, oid: &str) -> (r: Option<&'a String>)
    ensures
        match r {
            Some(t) => lookup_text(texts_view(objs@), oid@) == Some(t@),
            None => lookup_text(texts_view(objs@), oid@) is None,
        },
{
    let key = string_of(chars_of(oid).as_slice());
    let mut i: usize = 0;
    let ghost tv = texts_view(objs@);
    assert(tv.subrange(0, tv.len() as int) =~= tv);
    while i < objs.len()
        invariant
            i <= objs@.len(),
            key@ == oid@,
            tv == texts_view(objs@),
            lookup_text(tv, oid@) == lookup_text(tv.subrange(i as int, tv.len() as int), oid@),
        decreases objs@.len() - i,
    {
        let ghost rest = tv.subrange(i as int, tv.len() as int);
        assert(rest.drop_first() =~= tv.subrange(i + 1, tv.len() as int));
        assert(rest[0] == (objs@[i as int].oid@, objs@[i as int].text@));
        if objs[i].oid == key {
            return Some(&objs[i].text);
        }
        i = i + 1;
    }
    None
}

/// Reads the index that the tree `oid` holds, from the text objects `objs`,
/// descending at most `fuel` levels.
fn read_walk(objs: &Vec<TextObject>, oid: &str, fuel: usize) -> (r: Result<Vec<IndexEntry>, RepoError>)
    ensures
        match r {
            Ok(es) => read_tree_spec(texts_view(objs@), oid@, fuel as nat) == Ok::<Seq<EntryView>, RepoError>(
                index_view(es@),
            ),
            Err(e) => read_tree_spec(texts_view(objs@), oid@, fuel as nat) == Err::<Seq<EntryView>, RepoError>(
                e,
            ),
        },
    decreases fuel, 1nat, 0nat,
{
    let text = match lookup_object(objs, oid) {
        Some(t) => t,
        None => {
            return Err(RepoError::NotFound);
        },
    };
    let ls = text_lines(text.as_str());
    let ghost lines = lines_of(text@);
    let mut out: Vec<IndexEntry> = Vec::new();
    let mut i: usize = 0;
    assert(index_view(out@) =~= Seq::<EntryView>::empty());
    while i < ls.len()
        invariant
            i <= ls@.len(),
            pieces_view(ls@) == lines,
            read_tree_spec(texts_view(objs@), oid@, fuel as nat) == read_lines_spec(texts_view(objs@), lines, fuel as nat),
            read_lines_spec(texts_view(objs@), lines.subrange(0, i as int), fuel as nat) == Ok::<
                Seq<EntryView>,
                RepoError,
            >(index_view(out@)),
        decreases ls@.len() - i,
    {
        assert(lines.subrange(0, i + 1).drop_last() =~= lines.subrange(0, i as int));
        assert(lines.subrange(0, i + 1).last() == ls@[i as int]@);
        let f = split_chars(ls[i].as_slice(), '\t');
        proof {
            lemma_split_nonempty(ls@[i as int]@, '\t');
        }
        assert(pieces_view(f@)[0] == f@[0]@);
        if is_lit(&f[0], "X") {
            proof { reveal_strlit("X"); }
            assert(f@[0]@ =~= seq!['X']);
        } else if is_lit(&f[0], "C") {
            proof {
                reveal_strlit("X");
                reveal_strlit("C");
                assert(f@[0]@ != seq!['X']) by {
                    if f@[0]@ == seq!['X'] {
                        assert(f@[0]@ =~= "X"@);
                    }
                }
                assert(f@[0]@ =~= seq!['C']);
            }
            if f.len() < 4 {
                proof {
                    lemma_read_err_extends(texts_view(objs@), lines, i as int + 1, fuel as nat);
                }
                return Err(RepoError::InvalidData);
            }
            assert(pieces_view(f@)[1] == f@[1]@);
            assert(pieces_view(f@)[2] == f@[2]@);
            assert(pieces_view(f@)[3] == f@[3]@);
            proof {
                reveal_strlit("100644");
                reveal_strlit("100755");
                reveal_strlit("040000");
            }
            let m644 = is_lit(&f[1], "100644");
            let m755 = is_lit(&f[1], "100755");
            let m040 = is_lit(&f[1], "040000");
            assert(m644 == (f@[1]@ == file_mode_644())) by {
                assert("100644"@ =~= file_mode_644());
            }
            assert(m755 == (f@[1]@ == file_mode_755())) by {
                assert("100755"@ =~= file_mode_755());
            }
            assert(m040 == (f@[1]@ == dir_mode())) by {
                assert("040000"@ =~= dir_mode());
            }
            if m644 || m755 {
                let mut oids: Vec<String> = Vec::new();
                oids.push(string_of(f[3].as_slice()));
                assert(strings_view(oids@) =~= seq![f@[3]@]);
                let e = IndexEntry {
                    entry_type: EntryType::C,
                    mode: string_of(f[1].as_slice()),
                    path: string_of(f[2].as_slice()),
                    oids,
                };
                let ghost before = out@;
                out.push(e);
                assert(index_view(out@) =~= index_view(before).push(e@));
            } else if m040 {
                if fuel == 0 {
                    proof {
                        lemma_read_err_extends(texts_view(objs@), lines, i as int + 1, fuel as nat);
                    }
                    return Err(RepoError::InvalidData);
                }
                let name = string_of(f[2].as_slice());
                let sub_oid = string_of(f[3].as_slice());
                match read_walk(objs, sub_oid.as_str(), fuel - 1) {
                    Err(e) => {
                        proof {
                            lemma_read_err_extends(texts_view(objs@), lines, i as int + 1, fuel as nat);
                        }
                        return Err(e);
                    },
                    Ok(subs) => {
                        let ghost before = out@;
                        let ghost sv = index_view(subs@);
                        let mut k: usize = 0;
                        while k < subs.len()
                            invariant
                                k <= subs@.len(),
                                sv == index_view(subs@),
                                index_view(out@) == index_view(before) + under_dir(
                                    name@,
                                    sv.subrange(0, k as int),
                                ),
                            decreases subs@.len() - k,
                        {
                            let s = &subs[k];
                            let mut p = name.clone();
                            p.push('/');
                            push_all(&mut p, s.path.as_str());
                            let e = IndexEntry {
                                entry_type: s.entry_type,
                                mode: s.mode.clone(),
                                path: p,
                                oids: crate::index::copy_strings(&s.oids),
                            };
                            assert(e@.path =~= name@ + seq!['/'] + s.path@);
                            assert(sv[k as int] == s@);
                            assert(e@ == (EntryView { path: name@ + seq!['/'] + sv[k as int].path, ..sv[k as int] }));
                            let ghost mid = out@;
                            out.push(e);
                            k = k + 1;
                            assert(index_view(out@) =~= index_view(mid).push(e@));
                            assert(under_dir(name@, sv.subrange(0, k as int)) =~= under_dir(
                                name@,
                                sv.subrange(0, k - 1),
                            ).push(e@));
                            assert(index_view(out@) =~= index_view(before) + under_dir(
                                name@,
                                sv.subrange(0, k as int),
                            ));
                        }
                        assert(sv.subrange(0, k as int) =~= sv);
                    },
                }
            }
        } else {
            proof {
                reveal_strlit("X");
                reveal_strlit("C");
                assert(f@[0]@ != seq!['X']) by {
                    if f@[0]@ == seq!['X'] {
                        assert(f@[0]@ =~= "X"@);
                    }
                }
                assert(f@[0]@ != seq!['C']) by {
                    if f@[0]@ == seq!['C'] {
                        assert(f@[0]@ =~= "C"@);
                    }
                }
                lemma_read_err_extends(texts_view(objs@), lines, i as int + 1, fuel as nat);
            }
            return Err(RepoError::InvalidData);
        }
        i = i + 1;
    }
    assert(lines.subrange(0, i as int) =~= lines);
    Ok(out)
}

proof fn lemma_read_err_extends(objs: Seq<(Seq<char>, Seq<char>)>, ls: Seq<Seq<char>>, k: int, fuel: nat)
    requires
        0 <= k <= ls.len(),
        read_lines_spec(objs, ls.subrange(0, k), fuel) is Err,
    ensures
        read_lines_spec(objs, ls, fuel) == read_lines_spec(objs, ls.subrange(0, k), fuel),
    decreases ls.len() - k,
{
    if k < ls.len() {
        assert(ls.subrange(0, k + 1).drop_last() =~= ls.subrange(0, k));
        lemma_read_err_extends(objs, ls, k + 1, fuel);
    } else {
        assert(ls.subrange(0, k) =~= ls);
    }
}

/// The index that the tree `tree_oid` holds, read from the text objects
/// `objs`; subtrees are followed at most as many levels deep as there are
/// objects.
pub fn read_tree_to_index(objs: &Vec<TextObject>, tree_oid: &str) -> (r: Result<
    Vec<IndexEntry>,
    RepoError,
>)
    ensures
        match r {
            Ok(es) => read_tree_spec(texts_view(objs@), tree_oid@, objs@.len()) == Ok::<
                Seq<EntryView>,
                RepoError,
            >(index_view(es@)),
            Err(e) => read_tree_spec(texts_view(objs@), tree_oid@, objs@.len()) == Err::<
                Seq<EntryView>,
                RepoError,
            >(e),
        },
{
    read_walk(objs, tree_oid, objs.len())
}

/// The index entries that file rows stand for.
pub open spec fn entries_of_rows(rs: Seq<RowView>) -> Seq<EntryView> {
    rs.map_values(
        |r: RowView| EntryView { entry_type: EntryType::C, mode: r.mode, path: r.name, oids: seq![r.oid] },
    )
}

/// A clean file entry that sits at the top of a tree and that a tree row
/// can carry: no `/` in its path, a file mode, one content id, and no tab
/// or newline in a field.
pub open spec fn flat_file_entry(e: EntryView) -> bool {
    &&& e.entry_type == EntryType::C
    &&& first_slash(e.path) < 0
    &&& e.mode == file_mode_644() || e.mode == file_mode_755()
    &&& e.oids.len() == 1
    &&& crate::index::plain_field(e.path)
    &&& crate::index::plain_field(e.oids[0])
}

proof fn lemma_flat_dirs_empty(es: Seq<EntryView>)
    requires
        forall|i: int| 0 <= i < es.len() ==> first_slash((#[trigger] es[i]).path) < 0,
    ensures
        dir_names(es) == Seq::<Seq<char>>::empty(),
        file_rows(es) == es.map_values(
            |e: EntryView| RowView { entry_type: e.entry_type, mode: e.mode, name: e.path, oid: first_oid(e) },
        ),
    decreases es.len(),
{
    if es.len() > 0 {
        let q = es.drop_last();
        assert forall|i: int| 0 <= i < q.len() implies first_slash((#[trigger] q[i]).path) < 0 by {
            assert(q[i] == es[i]);
        }
        lemma_flat_dirs_empty(q);
        assert(first_slash(es[es.len() - 1].path) < 0);
        assert(file_rows(es) =~= es.map_values(
            |e: EntryView| RowView { entry_type: e.entry_type, mode: e.mode, name: e.path, oid: first_oid(e) },
        ));
    }
}

/// A row line without its newline.
pub open spec fn row_body(r: RowView) -> Seq<char> {
    join_on(row_fields(r), '\t')
}

proof fn lemma_rows_text_join(rs: Seq<RowView>)
    ensures
        rows_text(rs) == join_on(rs.map_values(|r: RowView| row_body(r)).push(Seq::<char>::empty()), '\n'),
    decreases rs.len(),
{
    let ls = rs.map_values(|r: RowView| row_body(r));
    if rs.len() == 0 {
        assert(ls.push(Seq::<char>::empty()) =~= seq![Seq::<char>::empty()]);
    } else {
        let q = rs.drop_last();
        let lq = q.map_values(|r: RowView| row_body(r));
        lemma_rows_text_join(q);
        assert(ls =~= lq.push(row_body(rs.last())));
        let full = ls.push(Seq::<char>::empty());
        assert(full.drop_last() =~= ls);
        assert(join_on(full, '\n') == join_on(ls, '\n') + seq!['\n'] + Seq::<char>::empty());
        if q.len() == 0 {
            assert(ls =~= seq![row_body(rs.last())]);
            assert(rows_text(q) =~= Seq::<char>::empty());
            assert(rows_text(rs) =~= row_body(rs.last()) + seq!['\n']);
        } else {
            assert(ls.drop_last() =~= lq);
            assert(join_on(ls, '\n') == join_on(lq, '\n') + seq!['\n'] + row_body(rs.last()));
            let lq2 = lq.push(Seq::<char>::empty());
            assert(lq2.drop_last() =~= lq);
            assert(join_on(lq2, '\n') == join_on(lq, '\n') + seq!['\n'] + Seq::<char>::empty());
            assert(rows_text(rs) =~= join_on(full, '\n'));
        }
    }
}

proof fn lemma_row_reads_back(r: RowView)
    requires
        r.entry_type == EntryType::C,
        r.mode == file_mode_644() || r.mode == file_mode_755(),
        crate::index::plain_field(r.name),
        crate::index::plain_field(r.oid),
    ensures
        tree_line(row_body(r)) == TreeLine::File(
            EntryView { entry_type: EntryType::C, mode: r.mode, path: r.name, oids: seq![r.oid] },
        ),
        !row_body(r).contains('\n'),
{
    let f = row_fields(r);
    assert forall|i: int| 0 <= i < f.len() implies !(#[trigger] f[i]).contains('\t') by {
        if i == 0 {
            assert(f[0] == seq!['C']);
            assert(!seq!['C'].contains('\t')) by {
                if seq!['C'].contains('\t') {
                    let k = choose|k: int| 0 <= k < 1 && seq!['C'][k] == '\t';
                }
            }
        }
        if i == 1 {
            if r.mode.contains('\t') {
                let k = choose|k: int| 0 <= k < r.mode.len() && r.mode[k] == '\t';
            }
        }
    }
    lemma_split_join(f, '\t');
    assert forall|i: int| 0 <= i < f.len() implies !(#[trigger] f[i]).contains('\n') by {
        if i == 0 {
            if seq!['C'].contains('\n') {
                let k = choose|k: int| 0 <= k < 1 && seq!['C'][k] == '\n';
            }
        }
        if i == 1 {
            if r.mode.contains('\n') {
                let k = choose|k: int| 0 <= k < r.mode.len() && r.mode[k] == '\n';
            }
        }
    }
    lemma_join_free(f, '\t', '\n');
    assert(seq!['C'] != seq!['X']) by {
        assert(seq!['C'][0] != seq!['X'][0]);
    }
    assert(file_mode_644() != dir_mode()) by {
        assert(file_mode_644()[0] != dir_mode()[0]);
    }
}

proof fn lemma_read_flat_lines(objs: Seq<(Seq<char>, Seq<char>)>, rs: Seq<RowView>, fuel: nat)
    requires
        forall|i: int|
            0 <= i < rs.len() ==> (#[trigger] rs[i]).entry_type == EntryType::C && (rs[i].mode
                == file_mode_644() || rs[i].mode == file_mode_755()) && crate::index::plain_field(
                rs[i].name,
            ) && crate::index::plain_field(rs[i].oid),
    ensures
        read_lines_spec(objs, rs.map_values(|r: RowView| row_body(r)), fuel) == Ok::<
            Seq<EntryView>,
            RepoError,
        >(entries_of_rows(rs)),
    decreases rs.len(),
{
    let ls = rs.map_values(|r: RowView| row_body(r));
    if rs.len() > 0 {
        let q = rs.drop_last();
        assert forall|i: int|
            0 <= i < q.len() implies (#[trigger] q[i]).entry_type == EntryType::C && (q[i].mode
                == file_mode_644() || q[i].mode == file_mode_755()) && crate::index::plain_field(
                q[i].name,
            ) && crate::index::plain_field(q[i].oid) by {
            assert(q[i] == rs[i]);
        }
        lemma_read_flat_lines(objs, q, fuel);
        assert(ls.drop_last() =~= q.map_values(|r: RowView| row_body(r)));
        lemma_row_reads_back(rs[rs.len() - 1]);
        assert(entries_of_rows(rs) =~= entries_of_rows(q).push(
            EntryView { entry_type: EntryType::C, mode: rs.last().mode, path: rs.last().name, oids: seq![rs.last().oid] },
        ));
    } else {
        assert(entries_of_rows(rs) =~= Seq::<EntryView>::empty());
    }
}

proof fn lemma_insert_row_members(s: Seq<RowView>, x: RowView, p: spec_fn(RowView) -> bool)
    requires
        forall|i: int| 0 <= i < s.len() ==> p(#[trigger] s[i]),
        p(x),
    ensures
        forall|i: int| 0 <= i < insert_row(s, x).len() ==> p(#[trigger] insert_row(s, x)[i]),
    decreases s.len(),
{
    if s.len() > 0 && lex_lt(x.name, s.last().name) {
        let q = s.drop_last();
        assert forall|i: int| 0 <= i < q.len() implies p(#[trigger] q[i]) by {
            assert(q[i] == s[i]);
        }
        lemma_insert_row_members(q, x, p);
        let r = insert_row(s, x);
        assert forall|i: int| 0 <= i < r.len() implies p(#[trigger] r[i]) by {
            if i < r.len() - 1 {
                assert(r[i] == insert_row(q, x)[i]);
            } else {
                assert(r[i] == s[s.len() - 1]);
            }
        }
    } else if s.len() > 0 {
        let r = s.push(x);
        assert forall|i: int| 0 <= i < r.len() implies p(#[trigger] r[i]) by {
            if i < s.len() {
                assert(r[i] == s[i]);
            }
        }
    }
}

proof fn lemma_sort_members(rs: Seq<RowView>, p: spec_fn(RowView) -> bool)
    requires
        forall|i: int| 0 <= i < rs.len() ==> p(#[trigger] rs[i]),
    ensures
        forall|i: int| 0 <= i < sort_rows(rs).len() ==> p(#[trigger] sort_rows(rs)[i]),
    decreases rs.len(),
{
    if rs.len() > 0 {
        let q = rs.drop_last();
        assert forall|i: int| 0 <= i < q.len() implies p(#[trigger] q[i]) by {
            assert(q[i] == rs[i]);
        }
        lemma_sort_members(q, p);
        lemma_insert_row_members(sort_rows(q), rs.last(), p);
    }
}

/// The tree codec gives back a flat index: the tree written for clean
/// file entries without `/` in their paths, read again, yields those
/// entries sorted by path (entries with equal paths in their order).
pub proof fn lemma_flat_tree_round_trip(es: Seq<EntryView>, fuel: nat)
    requires
        forall|i: int| 0 <= i < es.len() ==> flat_file_entry(#[trigger] es[i]),
    ensures
        read_tree_spec(
            seq![(text_oid(tree_text_spec(es, fuel)), tree_text_spec(es, fuel))],
            text_oid(tree_text_spec(es, fuel)),
            fuel,
        ) == Ok::<Seq<EntryView>, RepoError>(entries_of_rows(sort_rows(file_rows(es)))),
{
    assert forall|i: int| 0 <= i < es.len() implies first_slash((#[trigger] es[i]).path) < 0 by {
        assert(flat_file_entry(es[i]));
    }
    lemma_flat_dirs_empty(es);
    assert(dir_rows(es, fuel) =~= Seq::<RowView>::empty());
    let rows = file_rows(es);
    assert(rows + dir_rows(es, fuel) =~= rows);
    let good = |r: RowView|
        r.entry_type == EntryType::C && (r.mode == file_mode_644() || r.mode == file_mode_755())
            && crate::index::plain_field(r.name) && crate::index::plain_field(r.oid);
    assert forall|i: int| 0 <= i < rows.len() implies good(#[trigger] rows[i]) by {
        assert(flat_file_entry(es[i]));
        assert(rows[i].oid == es[i].oids[0]);
    }
    lemma_sort_members(rows, good);
    let sorted = sort_rows(rows);
    let text = tree_text_spec(es, fuel);
    assert(text == rows_text(sorted));
    lemma_rows_text_join(sorted);
    let ls = sorted.map_values(|r: RowView| row_body(r));
    assert forall|i: int| 0 <= i < ls.push(Seq::<char>::empty()).len() implies !(#[trigger] ls.push(
        Seq::<char>::empty(),
    )[i]).contains('\n') by {
        if i < ls.len() {
            assert(good(sorted[i]));
            lemma_row_reads_back(sorted[i]);
        } else {
            let e = ls.push(Seq::<char>::empty())[i];
            assert(e =~= Seq::<char>::empty());
        }
    }
    lemma_split_join(ls.push(Seq::<char>::empty()), '\n');
    assert(lines_of(text) =~= ls);
    assert forall|i: int|
        0 <= i < sorted.len() implies (#[trigger] sorted[i]).entry_type == EntryType::C && (sorted[i].mode
            == file_mode_644() || sorted[i].mode == file_mode_755()) && crate::index::plain_field(
            sorted[i].name,
        ) && crate::index::plain_field(sorted[i].oid) by {
        assert(good(sorted[i]));
    }
    lemma_read_flat_lines(seq![(text_oid(text), text)], sorted, fuel);
}

} // verus!
