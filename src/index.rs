use vstd::prelude::*;
use crate::error::RepoError;
use crate::text::{
    chars_eq, chars_of, join_on, lemma_join_free, lemma_split_join, lines_of, pieces_view, push_all,
    split_chars, split_on, string_of, text_lines,
};

verus! {

/// Whether an index entry is clean (`C`) or carries an unresolved merge (`X`).
#[derive(Clone, Copy, Debug, PartialEq, Eq, Structural)]
pub enum EntryType {
    C,
    X,
}

/// One staged path: its state, file mode, path and content ids.
#[derive(Clone, Debug)]
pub struct IndexEntry {
    pub entry_type: EntryType,
    pub path: String,
    pub mode: String,
    pub oids: Vec<String>,
}

/// The mathematical value of an index entry.
pub struct EntryView {
    pub entry_type: EntryType,
    pub path: Seq<char>,
    pub mode: Seq<char>,
    pub oids: Seq<Seq<char>>,
}

pub open spec fn strings_view(v: Seq<String>) -> Seq<Seq<char>> {
    v.map_values(|s: String| s@)
}

impl View for IndexEntry {
    type V = EntryView;

    open spec fn view(&self) -> EntryView {
        EntryView {
            entry_type: self.entry_type,
            path: self.path@,
            mode: self.mode@,
            oids: strings_view(self.oids@),
        }
    }
}

pub open spec fn index_view(es: Seq<IndexEntry>) -> Seq<EntryView> {
    es.map_values(|e: IndexEntry| e@)
}

/// The one-letter code of an entry type.
pub open spec fn type_code(t: EntryType) -> Seq<char> {
    match t {
        EntryType::C => seq!['C'],
        EntryType::X => seq!['X'],
    }
}

/// The tab-separated fields of an entry's line.
pub open spec fn entry_fields(e: EntryView) -> Seq<Seq<char>> {
    seq![type_code(e.entry_type), e.mode, e.path] + e.oids
}

pub open spec fn entry_line(e: EntryView) -> Seq<char> {
    join_on(entry_fields(e), '\t')
}

/// The on-disk text of an index: one newline-terminated line per entry.
pub open spec fn index_text(es: Seq<EntryView>) -> Seq<char>
    decreases es.len(),
{
    if es.len() == 0 {
        Seq::<char>::empty()
    } else {
        index_text(es.drop_last()) + entry_line(es.last()) + seq!['\n']
    }
}

/// What one line of index text stands for.
pub enum LineParse {
    Skip,
    Bad,
    Entry(EntryView),
}

pub open spec fn parse_line(l: Seq<char>) -> LineParse {
    let f = split_on(l, '\t');
    if f.len() < 4 {
        LineParse::Skip
    } else if f[0] == seq!['C'] || f[0] == seq!['X'] {
        LineParse::Entry(
            EntryView {
                entry_type: if f[0] == seq!['C'] {
                    EntryType::C
                } else {
                    EntryType::X
                },
                mode: f[1],
                path: f[2],
                oids: f.subrange(3, f.len() as int),
            },
        )
    } else {
        LineParse::Bad
    }
}

pub open spec fn parse_lines(ls: Seq<Seq<char>>) -> Option<Seq<EntryView>>
    decreases ls.len(),
{
    if ls.len() == 0 {
        Some(Seq::<EntryView>::empty())
    } else {
        match parse_lines(ls.drop_last()) {
            None => None,
            Some(acc) => match parse_line(ls.last()) {
                LineParse::Skip => Some(acc),
                LineParse::Bad => None,
                LineParse::Entry(e) => Some(acc.push(e)),
            },
        }
    }
}

/// The entries that an index text holds, or `None` when a line of four or
/// more fields has an unknown entry type.
pub open spec fn parse_index_spec(t: Seq<char>) -> Option<Seq<EntryView>> {
    parse_lines(lines_of(t))
}

/// A field that can stand in a tab-separated line.
pub open spec fn plain_field(s: Seq<char>) -> bool {
    !s.contains('\t') && !s.contains('\n')
}

/// An entry that the index text can carry: at least one oid, and no tab or
/// newline inside a field.
pub open spec fn encodable_entry(e: EntryView) -> bool {
    &&& e.oids.len() >= 1
    &&& plain_field(e.mode)
    &&& plain_field(e.path)
    &&& forall|i: int| 0 <= i < e.oids.len() ==> plain_field(#[trigger] e.oids[i])
}

/// Whether two vectors of strings hold the same strings in the same order.
pub fn strings_eq(a: &Vec<String>, b: &Vec<String>) -> (r: bool)
    ensures
        r == (strings_view(a@) == strings_view(b@)),
{
    if a.len() != b.len() {
        assert(strings_view(a@).len() != strings_view(b@).len());
        return false;
    }
    let mut i: usize = 0;
    while i < a.len()
        invariant
            i <= a@.len(),
            a@.len() == b@.len(),
            forall|k: int| 0 <= k < i ==> a@[k]@ == b@[k]@,
        decreases a@.len() - i,
    {
        if a[i] != b[i] {
            assert(strings_view(a@)[i as int] != strings_view(b@)[i as int]);
            return false;
        }
        i = i + 1;
    }
    assert(strings_view(a@) =~= strings_view(b@));
    true
}

impl PartialEq for IndexEntry {
    fn eq(&self, o: &IndexEntry) -> (r: bool) {
        self.entry_type == o.entry_type && self.path == o.path && self.mode == o.mode
            && strings_eq(&self.oids, &o.oids)
    }
}

impl vstd::std_specs::cmp::PartialEqSpecImpl for IndexEntry {
    open spec fn obeys_eq_spec() -> bool {
        true
    }

    open spec fn eq_spec(&self, o: &IndexEntry) -> bool {
        self@ == o@
    }
}

impl IndexEntry {
    /// A copy of the entry.
    pub fn duplicate(&self) -> (r: IndexEntry)
        ensures
            r@ == self@,
    {
        IndexEntry {
            entry_type: self.entry_type,
            path: self.path.clone(),
            mode: self.mode.clone(),
            oids: copy_strings(&self.oids),
        }
    }
}

/// A copy of a vector of strings.
pub fn copy_strings(v: &Vec<String>) -> (r: Vec<String>)
    ensures
        strings_view(r@) == strings_view(v@),
{
    let mut r: Vec<String> = Vec::new();
    let mut i: usize = 0;
    while i < v.len()
        invariant
            i <= v@.len(),
            strings_view(r@) == strings_view(v@.subrange(0, i as int)),
        decreases v@.len() - i,
    {
        let ghost before = r@;
        let c = v[i].clone();
        r.push(c);
        i = i + 1;
        assert(r@ =~= before.push(c));
        assert(strings_view(r@) =~= strings_view(before).push(c@));
        assert(strings_view(r@) =~= strings_view(v@.subrange(0, i as int)));
    }
    assert(v@.subrange(0, v@.len() as int) =~= v@);
    r
}

/// Appends one entry's line, with its newline, to `out`.
fn push_entry_line(out: &mut String, e: &IndexEntry)
    ensures
        final(out)@ == old(out)@ + entry_line(e@) + seq!['\n'],
{
    let ghost start = out@;
    match e.entry_type {
        EntryType::C => out.push('C'),
        EntryType::X => out.push('X'),
    }
    out.push('\t');
    push_all(out, e.mode.as_str());
    out.push('\t');
    push_all(out, e.path.as_str());
    let ghost head = seq![type_code(e.entry_type), e.mode@, e.path@];
    assert(join_on(head, '\t') =~= type_code(e.entry_type) + seq!['\t'] + e.mode@ + seq!['\t']
        + e.path@) by {
        let h2 = seq![type_code(e.entry_type), e.mode@];
        let h1 = seq![type_code(e.entry_type)];
        assert(head.drop_last() =~= h2);
        assert(h2.drop_last() =~= h1);
        assert(join_on(h1, '\t') == type_code(e.entry_type));
        assert(join_on(h2, '\t') == join_on(h1, '\t') + seq!['\t'] + e.mode@);
        assert(join_on(head, '\t') == join_on(h2, '\t') + seq!['\t'] + e.path@);
    }
    assert(out@ =~= start + join_on(head, '\t'));
    let mut i: usize = 0;
    while i < e.oids.len()
        invariant
            i <= e.oids@.len(),
            head == seq![type_code(e.entry_type), e.mode@, e.path@],
            out@ == start + join_on(head + strings_view(e.oids@.subrange(0, i as int)), '\t'),
        decreases e.oids@.len() - i,
    {
        let ghost fs = head + strings_view(e.oids@.subrange(0, i as int));
        out.push('\t');
        push_all(out, e.oids[i].as_str());
        i = i + 1;
        let ghost fs2 = head + strings_view(e.oids@.subrange(0, i as int));
        assert(fs2 =~= fs.push(e.oids@[i - 1]@));
        assert(fs2.drop_last() =~= fs);
        assert(fs2.len() >= 2);
        assert(fs2.last() == e.oids@[i - 1]@);
        assert(join_on(fs2, '\t') == join_on(fs, '\t') + seq!['\t'] + e.oids@[i - 1]@);
        assert(out@ =~= start + join_on(fs2, '\t'));
    }
    assert(head + strings_view(e.oids@.subrange(0, e.oids@.len() as int)) =~= entry_fields(e@));
    out.push('\n');
}

/// The text of an index, one line per entry in order.
pub fn write_index(entries: &Vec<IndexEntry>) -> (r: String)
    ensures
        r@ == index_text(index_view(entries@)),
{
    let mut out = String::new();
    let mut i: usize = 0;
    while i < entries.len()
        invariant
            i <= entries@.len(),
            out@ == index_text(index_view(entries@.subrange(0, i as int))),
        decreases entries@.len() - i,
    {
        push_entry_line(&mut out, &entries[i]);
        i = i + 1;
        let ghost es = index_view(entries@.subrange(0, i as int));
        assert(es.drop_last() =~= index_view(entries@.subrange(0, i - 1)));
    }
    assert(entries@.subrange(0, entries@.len() as int) =~= entries@);
    out
}

/// Strings holding the given pieces.
fn strings_of(ps: &[Vec<char>], from: usize) -> (r: Vec<String>)
    requires
        from <= ps@.len(),
    ensures
        strings_view(r@) == pieces_view(ps@).subrange(from as int, ps@.len() as int),
{
    let mut r: Vec<String> = Vec::new();
    let mut i: usize = from;
    while i < ps.len()
        invariant
            from <= i <= ps@.len(),
            strings_view(r@) == pieces_view(ps@).subrange(from as int, i as int),
        decreases ps@.len() - i,
    {
        let ghost before = r@;
        let c = string_of(ps[i].as_slice());
        r.push(c);
        i = i + 1;
        assert(r@ =~= before.push(c));
        assert(strings_view(r@) =~= strings_view(before).push(c@));
        assert(strings_view(r@) =~= pieces_view(ps@).subrange(from as int, i as int));
    }
    r
}

proof fn lemma_parse_none_extends(ls: Seq<Seq<char>>, k: int)
    requires
        0 <= k <= ls.len(),
        parse_lines(ls.subrange(0, k)) is None,
    ensures
        parse_lines(ls) is None,
    decreases ls.len() - k,
{
    if k < ls.len() {
        assert(ls.subrange(0, k + 1).drop_last() =~= ls.subrange(0, k));
        lemma_parse_none_extends(ls, k + 1);
    } else {
        assert(ls.subrange(0, k) =~= ls);
    }
}

/// Reads the entries of an index text. A line of fewer than four fields is
/// skipped; one whose type is neither `C` nor `X` makes the text invalid.
pub fn read_index(text: &str) -> (r: Result<Vec<IndexEntry>, RepoError>)
    ensures
        match r {
            Ok(es) => parse_index_spec(text@) == Some(index_view(es@)),
            Err(e) => e == RepoError::InvalidData && parse_index_spec(text@) is None,
        },
{
    let ls = text_lines(text);
    let mut out: Vec<IndexEntry> = Vec::new();
    let mut i: usize = 0;
    while i < ls.len()
        invariant
            i <= ls@.len(),
            pieces_view(ls@) == lines_of(text@),
            parse_lines(lines_of(text@).subrange(0, i as int)) == Some(index_view(out@)),
        decreases ls@.len() - i,
    {
        let ghost lines = lines_of(text@);
        assert(lines.subrange(0, i + 1).drop_last() =~= lines.subrange(0, i as int));
        assert(lines[i as int] == ls@[i as int]@);
        let f = split_chars(ls[i].as_slice(), '\t');
        if f.len() >= 4 {
            let is_c = f[0].len() == 1 && f[0][0] == 'C';
            let is_x = f[0].len() == 1 && f[0][0] == 'X';
            assert(is_c == (pieces_view(f@)[0] == seq!['C'])) by {
                if pieces_view(f@)[0] == seq!['C'] {
                    assert(f@[0]@[0] == 'C');
                }
                if is_c {
                    assert(f@[0]@ =~= seq!['C']);
                }
            }
            assert(is_x == (pieces_view(f@)[0] == seq!['X'])) by {
                if pieces_view(f@)[0] == seq!['X'] {
                    assert(f@[0]@[0] == 'X');
                }
                if is_x {
                    assert(f@[0]@ =~= seq!['X']);
                }
            }
            if !is_c && !is_x {
                proof {
                    lemma_parse_none_extends(lines, i as int + 1);
                }
                return Err(RepoError::InvalidData);
            }
            let entry = IndexEntry {
                entry_type: if is_c {
                    EntryType::C
                } else {
                    EntryType::X
                },
                mode: string_of(f[1].as_slice()),
                path: string_of(f[2].as_slice()),
                oids: strings_of(f.as_slice(), 3),
            };
            let ghost before = out@;
            out.push(entry);
            assert(index_view(out@) =~= index_view(before).push(out@.last()@));
            assert(pieces_view(f@).subrange(3, f@.len() as int) =~= split_on(lines[i as int], '\t').subrange(3, f@.len() as int));
        }
        i = i + 1;
    }
    assert(lines_of(text@).subrange(0, i as int) =~= lines_of(text@));
    Ok(out)
}


/// The position of the first entry for `p`, or -1 when there is none.
pub open spec fn position_of(es: Seq<EntryView>, p: Seq<char>) -> int
    decreases es.len(),
{
    if es.len() == 0 {
        -1
    } else {
        let q = position_of(es.drop_last(), p);
        if q >= 0 {
            q
        } else if es.last().path == p {
            es.len() - 1
        } else {
            -1
        }
    }
}

/// The entries whose path differs from `p`, in order.
pub open spec fn without_path(es: Seq<EntryView>, p: Seq<char>) -> Seq<EntryView>
    decreases es.len(),
{
    if es.len() == 0 {
        es
    } else if es.last().path == p {
        without_path(es.drop_last(), p)
    } else {
        without_path(es.drop_last(), p).push(es.last())
    }
}

/// The entry `e` with its content ids replaced by the single `oid`.
pub open spec fn with_single_oid(e: EntryView, oid: Seq<char>) -> EntryView {
    EntryView { oids: seq![oid], ..e }
}

/// A fresh clean entry.
pub open spec fn clean_entry(path: Seq<char>, mode: Seq<char>, oid: Seq<char>) -> EntryView {
    EntryView { entry_type: EntryType::C, path, mode, oids: seq![oid] }
}

pub proof fn lemma_position_bounds(es: Seq<EntryView>, p: Seq<char>)
    ensures
        -1 <= position_of(es, p) < es.len(),
        position_of(es, p) >= 0 ==> es[position_of(es, p)].path == p,
        position_of(es, p) == -1 <==> forall|j: int| 0 <= j < es.len() ==> es[j].path != p,
        forall|j: int| 0 <= j < position_of(es, p) ==> es[j].path != p,
    decreases es.len(),
{
    if es.len() > 0 {
        lemma_position_bounds(es.drop_last(), p);
        let q = es.drop_last();
        assert forall|j: int| 0 <= j < q.len() implies q[j] == es[j] by {}
    }
}

/// The first position is found by a scan that stops at the first match.
proof fn lemma_position_step(es: Seq<EntryView>, p: Seq<char>, i: int)
    requires
        0 <= i < es.len(),
        forall|j: int| 0 <= j < i ==> es[j].path != p,
    ensures
        es[i].path == p ==> position_of(es, p) == i,
    decreases es.len(),
{
    if es[i].path == p {
        if i < es.len() - 1 {
            let q = es.drop_last();
            assert forall|j: int| 0 <= j < i implies q[j].path != p by {
                assert(q[j] == es[j]);
            }
            lemma_position_step(q, p, i);
        } else {
            lemma_position_bounds(es.drop_last(), p);
            let q = es.drop_last();
            assert forall|j: int| 0 <= j < q.len() implies q[j].path != p by {
                assert(q[j] == es[j]);
            }
        }
    }
}

/// A string with the characters of a literal.
pub fn literal(s: &str) -> (r: String)
    ensures
        r@ == s@,
{
    let mut r = String::new();
    push_all(&mut r, s);
    r
}

/// The mode recorded for a new path: `040000` for a directory, `100755` for
/// a file with an execute bit, `100644` otherwise.
pub open spec fn mode_spec(is_dir: bool, executable: bool) -> Seq<char> {
    if is_dir {
        seq!['0', '4', '0', '0', '0', '0']
    } else if executable {
        seq!['1', '0', '0', '7', '5', '5']
    } else {
        seq!['1', '0', '0', '6', '4', '4']
    }
}

pub fn mode_for(is_dir: bool, executable: bool) -> (r: String)
    ensures
        r@ == mode_spec(is_dir, executable),
{
    let r = if is_dir {
        literal("040000")
    } else if executable {
        literal("100755")
    } else {
        literal("100644")
    };
    proof {
        reveal_strlit("040000");
        reveal_strlit("100755");
        reveal_strlit("100644");
    }
    assert(r@ =~= mode_spec(is_dir, executable));
    r
}

/// Finds the first entry for `path`.
pub fn find_entry(entries: &Vec<IndexEntry>, path: &String) -> (r: Option<usize>)
    ensures
        match r {
            Some(i) => position_of(index_view(entries@), path@) == i,
            None => position_of(index_view(entries@), path@) == -1,
        },
{
    let ghost es = index_view(entries@);
    let mut i: usize = 0;
    while i < entries.len()
        invariant
            i <= entries@.len(),
            es == index_view(entries@),
            forall|j: int| 0 <= j < i ==> es[j].path != path@,
        decreases entries@.len() - i,
    {
        if entries[i].path == *path {
            proof {
                lemma_position_step(es, path@, i as int);
            }
            return Some(i);
        }
        i = i + 1;
    }
    proof {
        lemma_position_bounds(es, path@);
    }
    None
}

/// Stages `oid` for `path`: the first entry for the path gets `oid` as its
/// only content id; without one, a clean entry with `mode` is appended.
pub fn update_or_insert(oid: String, path: String, mode: String, entries: &mut Vec<IndexEntry>)
    ensures
        ({
            let old_es = index_view(old(entries)@);
            let i = position_of(old_es, path@);
            if i >= 0 {
                index_view(final(entries)@) == old_es.update(i, with_single_oid(old_es[i], oid@))
            } else {
                index_view(final(entries)@) == old_es.push(clean_entry(path@, mode@, oid@))
            }
        }),
{
    let ghost old_es = index_view(entries@);
    match find_entry(entries, &path) {
        Some(i) => {
            proof {
                lemma_position_bounds(old_es, path@);
            }
            let mut e = entries[i].duplicate();
            let mut oids: Vec<String> = Vec::new();
            oids.push(oid);
            e.oids = oids;
            assert(strings_view(e.oids@) =~= seq![oid@]);
            entries.set(i, e);
            assert(index_view(entries@) =~= old_es.update(i as int, with_single_oid(old_es[i as int], oid@)));
        },
        None => {
            let mut oids: Vec<String> = Vec::new();
            oids.push(oid);
            assert(strings_view(oids@) =~= seq![oid@]);
            entries.push(IndexEntry { entry_type: EntryType::C, path, mode, oids });
            assert(index_view(entries@) =~= old_es.push(clean_entry(path@, mode@, oid@)));
        },
    }
}

/// Drops every entry for `path`: how the deletion of a path is staged.
pub fn remove_path(path: &String, entries: &mut Vec<IndexEntry>)
    ensures
        index_view(final(entries)@) == without_path(index_view(old(entries)@), path@),
{
    let ghost old_es = index_view(entries@);
    let mut kept: Vec<IndexEntry> = Vec::new();
    let mut i: usize = 0;
    while i < entries.len()
        invariant
            i <= entries@.len(),
            old_es == index_view(entries@),
            index_view(kept@) == without_path(old_es.subrange(0, i as int), path@),
        decreases entries@.len() - i,
    {
        let ghost pre = old_es.subrange(0, i as int);
        assert(old_es.subrange(0, i + 1).drop_last() =~= pre);
        if entries[i].path != *path {
            let ghost before = kept@;
            let e = entries[i].duplicate();
            kept.push(e);
            assert(index_view(kept@) =~= index_view(before).push(e@));
        }
        i = i + 1;
    }
    assert(old_es.subrange(0, i as int) =~= old_es);
    *entries = kept;
}

/// Marks the entry for `path` as resolved with the single content id `oid`.
/// Fails with `NotFound` when no entry has that path.
pub fn resolve(path: &String, oid: String, entries: &mut Vec<IndexEntry>) -> (r: Result<
    (),
    RepoError,
>)
    ensures
        ({
            let old_es = index_view(old(entries)@);
            let i = position_of(old_es, path@);
            match r {
                Ok(()) => i >= 0 && index_view(final(entries)@) == old_es.update(
                    i,
                    EntryView { entry_type: EntryType::C, oids: seq![oid@], ..old_es[i] },
                ),
                Err(e) => i == -1 && e == RepoError::NotFound && final(entries)@ == old(
                    entries,
                )@,
            }
        }),
{
    let ghost old_es = index_view(entries@);
    match find_entry(entries, path) {
        Some(i) => {
            proof {
                lemma_position_bounds(old_es, path@);
            }
            let mut e = entries[i].duplicate();
            let mut oids: Vec<String> = Vec::new();
            oids.push(oid);
            e.oids = oids;
            e.entry_type = EntryType::C;
            assert(strings_view(e.oids@) =~= seq![oid@]);
            entries.set(i, e);
            assert(index_view(entries@) =~= old_es.update(
                i as int,
                EntryView { entry_type: EntryType::C, oids: seq![oid@], ..old_es[i as int] },
            ));
            Ok(())
        },
        None => Err(RepoError::NotFound),
    }
}

proof fn lemma_index_text_join(es: Seq<EntryView>)
    ensures
        index_text(es) == join_on(es.map_values(|e: EntryView| entry_line(e)).push(Seq::<char>::empty()), '\n'),
    decreases es.len(),
{
    let ls = es.map_values(|e: EntryView| entry_line(e));
    if es.len() == 0 {
        assert(ls.push(Seq::<char>::empty()) =~= seq![Seq::<char>::empty()]);
    } else {
        let q = es.drop_last();
        let lq = q.map_values(|e: EntryView| entry_line(e));
        lemma_index_text_join(q);
        assert(ls =~= lq.push(entry_line(es.last())));
        let full = ls.push(Seq::<char>::empty());
        assert(full.drop_last() =~= ls);
        assert(join_on(full, '\n') == join_on(ls, '\n') + seq!['\n'] + Seq::<char>::empty());
        if q.len() == 0 {
            assert(ls =~= seq![entry_line(es.last())]);
            assert(index_text(es) =~= entry_line(es.last()) + seq!['\n']);
        } else {
            assert(ls.drop_last() =~= lq);
            assert(join_on(ls, '\n') == join_on(lq, '\n') + seq!['\n'] + entry_line(es.last()));
            let lq2 = lq.push(Seq::<char>::empty());
            assert(lq2.drop_last() =~= lq);
            assert(join_on(lq2, '\n') == join_on(lq, '\n') + seq!['\n'] + Seq::<char>::empty());
            assert(index_text(es) =~= join_on(full, '\n'));
        }
    }
}

proof fn lemma_entry_line_reads_back(e: EntryView)
    requires
        encodable_entry(e),
    ensures
        parse_line(entry_line(e)) == LineParse::Entry(e),
        !entry_line(e).contains('\n'),
{
    let f = entry_fields(e);
    let code = type_code(e.entry_type);
    assert(!code.contains('\t') && !code.contains('\n')) by {
        if code.contains('\t') || code.contains('\n') {
            let k = choose|k: int| 0 <= k < code.len() && (code[k] == '\t' || code[k] == '\n');
        }
    }
    assert forall|i: int| 0 <= i < f.len() implies plain_field(#[trigger] f[i]) by {
        if i >= 3 {
            assert(f[i] == e.oids[i - 3]);
        }
    }
    assert forall|i: int| 0 <= i < f.len() implies !(#[trigger] f[i]).contains('\t') by {
        assert(plain_field(f[i]));
    }
    assert forall|i: int| 0 <= i < f.len() implies !(#[trigger] f[i]).contains('\n') by {
        assert(plain_field(f[i]));
    }
    lemma_split_join(f, '\t');
    lemma_join_free(f, '\t', '\n');
    assert(f.subrange(3, f.len() as int) =~= e.oids);
    assert(seq!['C'] != seq!['X']) by {
        assert(seq!['C'][0] != seq!['X'][0]);
    }
}

proof fn lemma_parse_entry_lines(es: Seq<EntryView>)
    requires
        forall|i: int| 0 <= i < es.len() ==> encodable_entry(#[trigger] es[i]),
    ensures
        parse_lines(es.map_values(|e: EntryView| entry_line(e))) == Some(es),
    decreases es.len(),
{
    if es.len() > 0 {
        let q = es.drop_last();
        assert forall|i: int| 0 <= i < q.len() implies encodable_entry(#[trigger] q[i]) by {
            assert(q[i] == es[i]);
        }
        lemma_parse_entry_lines(q);
        assert(es.map_values(|e: EntryView| entry_line(e)).drop_last() =~= q.map_values(
            |e: EntryView| entry_line(e),
        ));
        lemma_entry_line_reads_back(es[es.len() - 1]);
        assert(q.push(es.last()) =~= es);
    } else {
        assert(es =~= Seq::<EntryView>::empty());
    }
}

/// Writing an index and reading the text back gives the same entries, for
/// entries that the text can carry.
pub proof fn lemma_index_round_trip(es: Seq<EntryView>)
    requires
        forall|i: int| 0 <= i < es.len() ==> encodable_entry(#[trigger] es[i]),
    ensures
        parse_index_spec(index_text(es)) == Some(es),
{
    lemma_index_text_join(es);
    let ls = es.map_values(|e: EntryView| entry_line(e));
    let full = ls.push(Seq::<char>::empty());
    assert forall|i: int| 0 <= i < full.len() implies !(#[trigger] full[i]).contains('\n') by {
        if i < ls.len() {
            lemma_entry_line_reads_back(es[i]);
        } else {
            assert(full[i] =~= Seq::<char>::empty());
        }
    }
    lemma_split_join(full, '\n');
    assert(lines_of(index_text(es)) =~= ls);
    lemma_parse_entry_lines(es);
}

/// The first content id of an entry (the empty text for an entry without one).
pub open spec fn first_oid(e: EntryView) -> Seq<char> {
    if e.oids.len() > 0 {
        e.oids[0]
    } else {
        Seq::<char>::empty()
    }
}

/// The first content id of an entry, as `first_oid` says.
pub fn first_oid_of(e: &IndexEntry) -> (r: String)
    ensures
        r@ == first_oid(e@),
{
    if e.oids.len() > 0 {
        e.oids[0].clone()
    } else {
        String::new()
    }
}

/// Whether a character vector holds exactly the characters of `lit`.
pub fn is_lit(v: &Vec<char>, lit: &str) -> (r: bool)
    ensures
        r == (v@ == lit@),
{
    let l = chars_of(lit);
    chars_eq(v.as_slice(), l.as_slice())
}

/// A working-tree path in index form: each `\` turned into `/`, and one
/// leading `./` dropped.
pub open spec fn normalized_path(p: Seq<char>) -> Seq<char> {
    let s = crate::ignore::slashed(p);
    if s.len() >= 2 && s[0] == '.' && s[1] == '/' {
        s.subrange(2, s.len() as int)
    } else {
        s
    }
}

/// The index form of a repository-relative path.
pub fn normalize_path(p: &str) -> (r: String)
    ensures
        r@ == normalized_path(p@),
{
    let cs = chars_of(p);
    let mut out: Vec<char> = Vec::new();
    let mut k: usize = 0;
    while k < cs.len()
        invariant
            k <= cs@.len(),
            out@ == crate::ignore::slashed(cs@.subrange(0, k as int)),
        decreases cs@.len() - k,
    {
        let c = cs[k];
        out.push(if c == '\\' { '/' } else { c });
        k = k + 1;
        assert(out@ =~= crate::ignore::slashed(cs@.subrange(0, k as int)));
    }
    assert(cs@.subrange(0, k as int) =~= cs@);
    if out.len() >= 2 && out[0] == '.' && out[1] == '/' {
        string_of(&out[2..out.len()])
    } else {
        string_of(out.as_slice())
    }
}

} // verus!
