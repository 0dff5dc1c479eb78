use nag::commit::commit_tree;
use nag::diff::{diff_index_to_head, diff_working_to_index, get_all_diffs, Diffs, WorkingFile};
use nag::error::RepoError;
use nag::graph::{fetch_remote, find_ancestor_type};
use nag::hash::hash;
use nag::index::{read_index, resolve, write_index, EntryType, IndexEntry};
use nag::merge::{has_conflicts, merge, merge_writes, three_way_merge, Ancestor, MergePlan, WorkWrite};
use nag::porcelain::{self, Scanned};
use nag::refs::{
    full_ref_name, parse_head, read_ref, resolve_head, set_head_detached, set_head_ref,
    symbolic_head_text, HeadRef,
};
use nag::tree::{lookup_object, read_tree_to_index, write_tree_from_index, TextObject};

/// A repository held in memory, driven through the library the way the
/// command line drives it on disk.
struct Mem {
    blobs: Vec<(String, Vec<u8>)>,
    texts: Vec<TextObject>,
    refs: Vec<(String, String)>,
    head: String,
    index: Vec<IndexEntry>,
    work: Vec<(String, Vec<u8>)>,
    patterns: Vec<String>,
}

impl Mem {
    fn init() -> Mem {
        Mem {
            blobs: Vec::new(),
            texts: Vec::new(),
            refs: vec![("refs/heads/main".to_string(), String::new())],
            head: symbolic_head_text("main"),
            index: Vec::new(),
            work: Vec::new(),
            patterns: Vec::new(),
        }
    }

    fn ids(&self) -> Vec<String> {
        self.blobs.iter().map(|(o, _)| o.clone()).collect()
    }

    fn put(&mut self, data: &[u8]) -> String {
        let oid = hash(&data.to_vec());
        if porcelain::write_object(&self.ids(), &oid) {
            self.blobs.push((oid.clone(), data.to_vec()));
            self.texts.push(TextObject { oid: oid.clone(), text: String::from_utf8_lossy(data).to_string() });
        }
        oid
    }

    fn blob(&self, oid: &str) -> Vec<u8> {
        self.blobs.iter().find(|(o, _)| o == oid).map(|(_, b)| b.clone()).unwrap_or_default()
    }

    fn write(&mut self, path: &str, content: &str) {
        self.work.retain(|(p, _)| p != path);
        self.work.push((path.to_string(), content.as_bytes().to_vec()));
    }

    fn delete(&mut self, path: &str) {
        self.work.retain(|(p, _)| p != path);
    }

    fn add(&mut self, path: &str) -> Result<(), RepoError> {
        let files: Vec<(String, Vec<u8>)> = self
            .work
            .iter()
            .filter(|(p, _)| p == path || p.starts_with(&format!("{}/", path)))
            .cloned()
            .collect();
        if files.is_empty() {
            return porcelain::add(&mut self.index, &path.to_string(), Scanned::Missing, &self.patterns);
        }
        for (p, data) in files {
            let oid = self.put(&data);
            let scanned = Scanned::File { oid, mode: "100644".to_string() };
            porcelain::add(&mut self.index, &p, scanned, &self.patterns)?;
        }
        Ok(())
    }

    fn ref_text(&self, path: &str) -> Option<String> {
        self.refs.iter().find(|(p, _)| p == path).map(|(_, t)| t.clone())
    }

    fn set_ref(&mut self, path: &str, text: &str) {
        self.refs.retain(|(p, _)| p != path);
        self.refs.push((path.to_string(), text.to_string()));
    }

    fn head_ref_text(&self) -> String {
        match parse_head(&self.head) {
            HeadRef::Symbolic(p) => self.ref_text(&p).unwrap_or_default(),
            HeadRef::Detached(_) => String::new(),
        }
    }

    fn head(&self) -> (Option<String>, String) {
        resolve_head(&self.head, &self.head_ref_text())
    }

    fn commit(&mut self, message: &str) -> Result<String, RepoError> {
        let c = porcelain::commit(&self.index, &self.ids(), &self.texts, &self.head, &self.head_ref_text(), message)?;
        for o in &c.objects {
            self.put(o.text.as_bytes());
        }
        self.set_ref(&c.ref_path, &c.commit_oid);
        self.index = c.index;
        Ok(c.commit_oid)
    }

    fn commit_helper(&mut self, path: &str, content: &str, message: &str) -> String {
        self.write(path, content);
        self.add(path).unwrap();
        self.commit(message).unwrap()
    }

    fn tree_of(&self, commit_oid: &str) -> Vec<IndexEntry> {
        if commit_oid.is_empty() {
            return Vec::new();
        }
        let text = lookup_object(&self.texts, commit_oid).unwrap();
        read_tree_to_index(&self.texts, &commit_tree(text).unwrap()).unwrap()
    }

    fn working(&self) -> Vec<WorkingFile> {
        self.work.iter().map(|(p, d)| WorkingFile { oid: hash(d), path: p.clone() }).collect()
    }

    fn diffs(&self) -> Diffs {
        let (_, head_oid) = self.head();
        get_all_diffs(&self.tree_of(&head_oid), &self.index, &self.working(), &self.patterns).unwrap()
    }

    fn branch_names(&self) -> Vec<String> {
        self.refs
            .iter()
            .filter_map(|(p, _)| p.strip_prefix("refs/heads/").map(|s| s.to_string()))
            .collect()
    }

    fn branch(&mut self, name: &str, source: Option<String>) -> Result<(), RepoError> {
        let (_, head_oid) = self.head();
        let oid = porcelain::branch(&self.branch_names(), &name.to_string(), source, head_oid)?;
        self.set_ref(&full_ref_name(name), &oid);
        Ok(())
    }

    fn materialize(&mut self, index: &Vec<IndexEntry>) {
        self.work = index.iter().map(|e| (e.path.clone(), self.blob(&e.oids[0]))).collect();
    }

    fn checkout(&mut self, name: &str) -> Result<(), RepoError> {
        let clean = self.diffs().is_clean();
        let rt = self.ref_text(&full_ref_name(name));
        let plan = porcelain::checkout(clean, name, rt.as_deref(), &self.texts)?;
        self.materialize(&plan.index);
        self.index = plan.index;
        self.head = plan.head_text;
        Ok(())
    }

    fn restore(&mut self, path: &str) -> Result<(), RepoError> {
        let (_, head_oid) = self.head();
        let tree = self.tree_of(&head_oid);
        for e in porcelain::restore(&tree, &path.to_string())? {
            let data = self.blob(&e.oids[0]);
            self.work.retain(|(p, _)| *p != e.path);
            self.work.push((e.path.clone(), data));
        }
        Ok(())
    }

    fn resolve(&mut self, path: &str) -> Result<(), RepoError> {
        let data = self.work.iter().find(|(p, _)| p == path).map(|(_, d)| d.clone()).ok_or(RepoError::NotFound)?;
        let oid = self.put(&data);
        resolve(&path.to_string(), oid, &mut self.index)
    }

    fn fetch(&mut self, remote: &Mem, name: &str) -> Result<(), RepoError> {
        for (path, text) in &remote.refs {
            let branch = match path.strip_prefix("refs/heads/") {
                Some(b) => b,
                None => continue,
            };
            let tip = read_ref(text);
            if tip.is_empty() {
                continue;
            }
            for oid in fetch_remote(&remote.texts, &self.ids(), &tip)? {
                let data = remote.blob(&oid);
                self.put(&data);
            }
            self.set_ref(&format!("refs/remotes/{}/{}", name, branch), &tip);
        }
        Ok(())
    }

    fn add_remote(&mut self, name: &str, url: &str, url_is_repo: bool) -> Result<(), RepoError> {
        let text = porcelain::add_remote(url, url_is_repo)?;
        self.set_ref(&format!("remotes/{}", name), &text);
        Ok(())
    }

    fn tag(&mut self, name: &str, commit: Option<String>, message: Option<String>) -> Result<(), RepoError> {
        let stored = commit.as_ref().map(|c| self.ids().contains(c)).unwrap_or(false);
        let (_, head_oid) = self.head();
        let plan = porcelain::tag(commit, stored, message, head_oid)?;
        if let Some(o) = &plan.object {
            self.put(o.text.as_bytes());
        }
        self.set_ref(&format!("refs/tags/{}", name), &plan.target);
        Ok(())
    }

    fn work_text(&self, path: &str) -> Option<String> {
        self.work.iter().find(|(p, _)| p == path).map(|(_, d)| String::from_utf8_lossy(d).to_string())
    }

    fn merge(&mut self, target_branch: &str) -> Result<(), RepoError> {
        let clean = self.diffs().is_clean();
        let (branch, head_oid) = self.head();
        let target = read_ref(&self.ref_text(&full_ref_name(target_branch)).ok_or(RepoError::NotFound)?);
        let relation = if clean && branch.is_some() && head_oid != target {
            find_ancestor_type(&self.texts, &head_oid, &target)?
        } else {
            Ancestor::NotFound
        };
        match merge(clean, branch, head_oid, target, relation)? {
            MergePlan::UpToDate => Ok(()),
            MergePlan::FastForward { branch, target } => {
                self.set_ref(&full_ref_name(&branch), &target);
                self.head = set_head_ref(&branch, true)?;
                let index = self.tree_of(&target);
                self.materialize(&index);
                self.index = index;
                Ok(())
            }
            MergePlan::ThreeWay { base, target, ancestor } => {
                let merged = three_way_merge(&self.tree_of(&ancestor), &self.tree_of(&base), &self.tree_of(&target));
                for w in merge_writes(&merged) {
                    match w {
                        WorkWrite::Blob { path, oid } => {
                            let data = self.blob(&oid);
                            self.work.retain(|(p, _)| *p != path);
                            self.work.push((path, data));
                        }
                        WorkWrite::Conflict { path, base, target } => {
                            let data = nag::merge::build_conflict_file(&self.blob(&base), &self.blob(&target));
                            self.work.retain(|(p, _)| *p != path);
                            self.work.push((path, data));
                        }
                    }
                }
                let conflicted = has_conflicts(&merged);
                self.index = merged;
                if conflicted {
                    Err(RepoError::MergeConflict)
                } else {
                    Ok(())
                }
            }
        }
    }
}

fn clean(path: &str, oid: &str) -> IndexEntry {
    IndexEntry {
        entry_type: EntryType::C,
        path: path.to_string(),
        mode: "100644".to_string(),
        oids: vec![oid.to_string()],
    }
}

#[test]
fn add_single_file_creates_blob_and_index_entry() {
    let mut m = Mem::init();
    m.write("hello.txt", "hello world");
    m.add("hello.txt").unwrap();
    assert_eq!(m.index.len(), 1);
    let e = &m.index[0];
    assert_eq!(e.path, "hello.txt");
    assert_eq!(e.entry_type, EntryType::C);
    assert_eq!(e.oids.len(), 1);
    assert!(m.ids().contains(&e.oids[0]));
}

#[test]
fn add_directory_recurses_into_children() {
    let mut m = Mem::init();
    m.write("src/a.rs", "fn a() {}");
    m.write("src/b.rs", "fn b() {}");
    m.add("src").unwrap();
    let paths: Vec<_> = m.index.iter().map(|e| e.path.clone()).collect();
    assert!(paths.contains(&"src/a.rs".to_string()));
    assert!(paths.contains(&"src/b.rs".to_string()));
}

#[test]
fn add_updates_oid_for_modified_file() {
    let mut m = Mem::init();
    m.write("hello.txt", "v1");
    m.add("hello.txt").unwrap();
    let first = m.index[0].oids[0].clone();
    m.write("hello.txt", "v2");
    m.add("hello.txt").unwrap();
    assert_ne!(m.index[0].oids[0], first);
}

#[test]
fn add_is_idempotent_for_unmodified_file() {
    let mut m = Mem::init();
    m.write("hello.txt", "static content");
    m.add("hello.txt").unwrap();
    let once = m.index.clone();
    m.add("hello.txt").unwrap();
    assert_eq!(m.index, once);
}

#[test]
fn add_multiple_files_writes_all_entries_once() {
    let mut m = Mem::init();
    m.write("a.txt", "aaa");
    m.write("b.txt", "bbb");
    m.add("a.txt").unwrap();
    m.add("b.txt").unwrap();
    m.add("a.txt").unwrap();
    assert_eq!(m.index.len(), 2);
    assert_eq!(m.index.iter().filter(|e| e.path == "a.txt").count(), 1);
    assert_eq!(m.index.iter().filter(|e| e.path == "b.txt").count(), 1);
}

#[test]
fn add_skips_ignored_files() {
    let mut m = Mem::init();
    m.patterns = nag::ignore::ignore_patterns("*.log\n");
    m.write("main.rs", "fn main() {}");
    m.write("debug.log", "temporary logs");
    m.add("main.rs").unwrap();
    m.add("debug.log").unwrap();
    let paths: Vec<_> = m.index.iter().map(|e| e.path.clone()).collect();
    assert!(paths.contains(&"main.rs".to_string()));
    assert!(!paths.contains(&"debug.log".to_string()));
}

#[test]
fn branch_creates_new_branch_file_with_correct_oid() {
    let mut m = Mem::init();
    m.commit_helper("file.txt", "data", "initial commit");
    m.branch("dev", None).unwrap();
    assert_eq!(m.ref_text("refs/heads/dev"), m.ref_text("refs/heads/main"));
}

#[test]
fn branch_can_be_created_from_specific_oid() {
    let mut m = Mem::init();
    let first = m.commit_helper("specific.txt", "v1", "first commit");
    m.commit_helper("specific.txt", "v2", "second commit");
    m.branch("retro", Some(first.clone())).unwrap();
    assert_eq!(m.ref_text("refs/heads/retro"), Some(first));
}

#[test]
fn branch_fails_on_duplicate_name() {
    let mut m = Mem::init();
    m.commit_helper("dup.txt", "data", "first commit");
    m.branch("feature", None).unwrap();
    assert_eq!(m.branch("feature", None), Err(RepoError::AlreadyExists));
}

#[test]
fn branch_list_shows_all_and_marks_current() {
    let mut m = Mem::init();
    m.commit_helper("alpha.txt", "content", "init");
    m.branch("beta", None).unwrap();
    m.branch("gamma", None).unwrap();
    let output = porcelain::branch_list(m.branch_names(), &m.head);
    let lines: Vec<&str> = output.lines().collect();
    assert_eq!(lines, vec!["beta", "gamma", "*main"]);
}

#[test]
fn branch_does_not_affect_current_head() {
    let mut m = Mem::init();
    m.commit_helper("check.txt", "hello", "commit");
    m.branch("alt", None).unwrap();
    assert!(m.head.contains("refs/heads/main"));
}

#[test]
fn branch_creates_correct_directory_structure_if_nested() {
    let mut m = Mem::init();
    m.commit_helper("nested.txt", "ok", "commit");
    m.branch("feature/ui", None).unwrap();
    assert!(m.ref_text("refs/heads/feature/ui").is_some());
    let list_out = porcelain::branch_list(m.branch_names(), &m.head);
    assert!(list_out.contains("ui"));
    assert!(list_out.contains("feature"));
}

#[test]
fn checkout_switches_branches_cleanly() {
    let mut m = Mem::init();
    m.commit_helper("file.txt", "main content", "main commit");
    m.branch("feature", None).unwrap();
    m.checkout("feature").unwrap();
    m.commit_helper("file.txt", "feature content", "feature commit");
    m.checkout("main").unwrap();
    assert_eq!(m.work, vec![("file.txt".to_string(), b"main content".to_vec())]);
}

#[test]
fn checkout_refuses_with_uncommitted_changes() {
    let mut m = Mem::init();
    m.commit_helper("file.txt", "v1", "c1");
    m.branch("other", None).unwrap();
    m.write("file.txt", "dirty");
    assert_eq!(m.checkout("other"), Err(RepoError::DirtyWorkingTree));
}

#[test]
fn checkout_fails_on_nonexistent_branch() {
    let mut m = Mem::init();
    m.commit_helper("file.txt", "v1", "c1");
    assert_eq!(m.checkout("does-not-exist"), Err(RepoError::NotFound));
}

#[test]
fn checkout_updates_head_to_target_branch() {
    let mut m = Mem::init();
    m.commit_helper("file.txt", "v1", "c1");
    m.branch("dev", None).unwrap();
    m.checkout("dev").unwrap();
    assert_eq!(m.head.trim(), "ref: refs/heads/dev");
    assert_eq!(m.head(), (Some("dev".to_string()), m.ref_text("refs/heads/dev").unwrap()));
}

#[test]
fn checkout_produces_clean_status_after_switch() {
    let mut m = Mem::init();
    m.commit_helper("file.txt", "v1", "c1");
    m.branch("dev", None).unwrap();
    m.checkout("dev").unwrap();
    assert!(m.diffs().is_clean());
}

#[test]
fn first_commit_creates_commit_object_and_branch() {
    let mut m = Mem::init();
    let oid = m.commit_helper("file.txt", "content", "first commit");
    assert_eq!(m.ref_text("refs/heads/main"), Some(oid.clone()));
    let text = lookup_object(&m.texts, &oid).unwrap();
    assert!(text.starts_with("tree "));
    assert!(!text.contains("parent "));
}

#[test]
fn commit_records_parent_oid() {
    let mut m = Mem::init();
    let first = m.commit_helper("file.txt", "v1", "first");
    let second = m.commit_helper("file.txt", "v2", "second");
    let text = lookup_object(&m.texts, &second).unwrap();
    assert!(text.contains(&format!("parent {}", first)));
}

#[test]
fn commit_message_is_preserved() {
    let mut m = Mem::init();
    let oid = m.commit_helper("file.txt", "v1", "a meaningful message");
    assert!(lookup_object(&m.texts, &oid).unwrap().contains("a meaningful message"));
}

#[test]
fn different_content_different_hash() {
    assert_ne!(hash(&b"content A".to_vec()), hash(&b"content B".to_vec()));
}

#[test]
fn writes_new_blob_once() {
    let mut m = Mem::init();
    let a = m.put(b"same");
    let b = m.put(b"same");
    assert_eq!(a, b);
    assert_eq!(m.blobs.len(), 1);
}

#[test]
fn ff_merge_succeeds_on_direct_descendant() {
    let mut m = Mem::init();
    m.commit_helper("file.txt", "v1", "c1");
    m.branch("feature", None).unwrap();
    m.checkout("feature").unwrap();
    m.commit_helper("file.txt", "v2", "c2");
    m.checkout("main").unwrap();
    m.merge("feature").unwrap();
    assert_eq!(m.ref_text("refs/heads/main"), m.ref_text("refs/heads/feature"));
    assert_eq!(m.work, vec![("file.txt".to_string(), b"v2".to_vec())]);
}

#[test]
fn ff_merge_reports_already_up_to_date() {
    let mut m = Mem::init();
    m.commit_helper("file.txt", "v1", "c1");
    assert!(m.merge("main").is_ok());
}

#[test]
fn ff_merge_fails_on_diverged_history() {
    let mut m = Mem::init();
    m.commit_helper("file.txt", "base", "base");
    m.branch("alt", None).unwrap();
    m.checkout("alt").unwrap();
    m.commit_helper("file.txt", "alt change", "alt");
    m.checkout("main").unwrap();
    m.commit_helper("file.txt", "main change", "main");
    assert!(m.merge("alt").is_err());
}

#[test]
fn ff_merge_fails_on_dirty_working_directory() {
    let mut m = Mem::init();
    m.commit_helper("dirty.txt", "clean", "commit clean");
    m.branch("dirty", None).unwrap();
    m.checkout("dirty").unwrap();
    m.commit_helper("dirty.txt", "new", "new commit");
    m.checkout("main").unwrap();
    m.write("dirty.txt", "unsaved");
    let result = m.merge("dirty");
    assert!(result.is_err());
    assert_eq!(result, Err(RepoError::DirtyWorkingTree));
}

#[test]
fn ff_merge_fails_on_detached_head() {
    let mut m = Mem::init();
    let oid = m.commit_helper("file.txt", "v1", "c1");
    m.head = set_head_detached(&oid, true).unwrap();
    assert_eq!(m.merge("main"), Err(RepoError::DetachedHeadForbidden));
}

#[test]
fn merge_simple_conflict() {
    let mut m = Mem::init();
    m.commit_helper("file.txt", "X", "base");
    m.branch("feature", None).unwrap();
    m.commit_helper("file.txt", "X+main", "main edit");
    m.checkout("feature").unwrap();
    m.commit_helper("file.txt", "X+alt", "feature edit");
    m.checkout("main").unwrap();
    assert_eq!(m.merge("feature"), Err(RepoError::MergeConflict));
    assert_eq!(m.index[0].entry_type, EntryType::X);
    let conflict = &m.work.iter().find(|(p, _)| p == "file.txt").unwrap().1;
    assert_eq!(conflict, &b"<<< Base <<<\nX+main\n==============\nX+alt\n>>> Target >>>\n".to_vec());
    m.write("file.txt", "settled");
    let oid = m.put(b"settled");
    resolve(&"file.txt".to_string(), oid.clone(), &mut m.index).unwrap();
    assert_eq!(m.index[0].entry_type, EntryType::C);
    assert_eq!(m.index[0].oids, vec![oid]);
}

#[test]
fn merge_only_one_side_edits() {
    let mut m = Mem::init();
    m.commit_helper("file.txt", "base", "base");
    m.commit_helper("other.txt", "o", "other");
    m.branch("alt", None).unwrap();
    m.checkout("alt").unwrap();
    m.commit_helper("alt.txt", "alt only", "alt");
    m.checkout("main").unwrap();
    m.commit_helper("file.txt", "main edit", "main");
    assert!(m.merge("alt").is_ok());
    assert!(m.index.iter().any(|e| e.path == "alt.txt"));
    assert!(!has_conflicts(&m.index));
}

#[test]
fn merge_both_add_same_file_conflict() {
    let mut m = Mem::init();
    m.commit_helper("base.txt", "base", "base");
    m.branch("f", None).unwrap();
    m.commit_helper("new.txt", "main version", "main add");
    m.checkout("f").unwrap();
    m.commit_helper("new.txt", "f version", "f add");
    m.checkout("main").unwrap();
    assert!(m.merge("f").is_err());
}

#[test]
fn merge_delete_vs_edit_conflict() {
    let mut m = Mem::init();
    m.commit_helper("file.txt", "base", "base");
    m.commit_helper("keep.txt", "k", "keep");
    m.branch("alt", None).unwrap();
    m.delete("file.txt");
    m.add("file.txt").unwrap();
    m.commit("main delete").unwrap();
    m.checkout("alt").unwrap();
    m.commit_helper("file.txt", "edited", "alt edit");
    m.checkout("main").unwrap();
    assert!(m.merge("alt").is_err());
    let e = m.index.iter().find(|e| e.path == "file.txt").unwrap();
    assert_eq!(e.oids[1], "empty");
}

#[test]
fn resolve_errors_on_missing_path() {
    let mut index = vec![clean("a.txt", "o")];
    assert_eq!(resolve(&"missing.txt".to_string(), "x".to_string(), &mut index), Err(RepoError::NotFound));
}

#[test]
fn restore_fails_on_untracked_path() {
    let mut m = Mem::init();
    m.commit_helper("tracked.txt", "t", "c1");
    let (_, head_oid) = m.head();
    assert_eq!(porcelain::restore(&m.tree_of(&head_oid), &"untracked.txt".to_string()).unwrap_err(), RepoError::NotFound);
}

#[test]
fn status_reports_untracked() {
    let mut m = Mem::init();
    m.write("new.txt", "hello");
    assert_eq!(m.diffs().untracked, vec!["new.txt"]);
}

#[test]
fn status_reports_staged_before_commit() {
    let mut m = Mem::init();
    m.write("stage_me.txt", "first version");
    m.add("stage_me.txt").unwrap();
    assert_eq!(m.diffs().added, vec!["stage_me.txt"]);
}

#[test]
fn status_reports_modified() {
    let mut m = Mem::init();
    m.commit_helper("mod.txt", "v1", "initial commit");
    m.write("mod.txt", "v2");
    assert_eq!(m.diffs().modified, vec!["mod.txt"]);
}

#[test]
fn status_reports_deleted() {
    let mut m = Mem::init();
    m.commit_helper("gone.txt", "present", "add gone.txt");
    m.delete("gone.txt");
    assert_eq!(m.diffs().deleted, vec!["gone.txt"]);
}

#[test]
fn status_reports_clean_repo() {
    let mut m = Mem::init();
    m.commit_helper("clean_repo.txt", "content", "initial commit");
    assert!(m.diffs().is_clean());
}

#[test]
fn tag_creates_lightweight_tag_for_head_commit() {
    let mut m = Mem::init();
    m.commit_helper("file.txt", "v1", "first commit");
    let (_, head_oid) = m.head();
    let plan = porcelain::tag(None, false, None, head_oid.clone()).unwrap();
    assert!(!plan.target.trim().is_empty());
    assert_eq!(plan.target, head_oid);
}

#[test]
fn tag_creates_lightweight_tag_for_specific_commit() {
    let mut m = Mem::init();
    let first = m.commit_helper("file.txt", "v1", "first commit");
    m.commit_helper("file.txt", "v2", "second commit");
    let (_, head_oid) = m.head();
    let plan = porcelain::tag(Some(first.clone()), m.ids().contains(&first), None, head_oid).unwrap();
    assert_eq!(plan.target, first);
}

#[test]
fn tag_creates_annotated_tag_with_message() {
    let mut m = Mem::init();
    let c = m.commit_helper("note.txt", "data", "commit message");
    let plan = porcelain::tag(None, false, Some("stable release".to_string()), c.clone()).unwrap();
    let o = plan.object.unwrap();
    assert_eq!(o.text, format!("object {}\n\nstable release", c));
    assert_eq!(plan.target, o.oid);
}

#[test]
fn tag_fails_when_commit_oid_does_not_exist() {
    let mut m = Mem::init();
    m.commit_helper("file.txt", "v1", "first commit");
    let bogus = "deadbeef".to_string();
    let (_, head_oid) = m.head();
    assert!(porcelain::tag(Some(bogus.clone()), m.ids().contains(&bogus), None, head_oid).is_err());
}

#[test]
fn diff_working_to_index_detects_untracked() {
    let w = vec![WorkingFile { oid: "o".to_string(), path: "new.txt".to_string() }];
    let d = diff_working_to_index(&Vec::new(), &w, &Vec::new()).unwrap();
    assert_eq!(d.untracked, vec!["new.txt"]);
}

#[test]
fn diff_working_to_index_detects_modified_file() {
    let w = vec![WorkingFile { oid: "o2".to_string(), path: "f.txt".to_string() }];
    let d = diff_working_to_index(&vec![clean("f.txt", "o1")], &w, &Vec::new()).unwrap();
    assert_eq!(d.modified, vec!["f.txt"]);
}

#[test]
fn diff_index_to_head_detects_added_file_in_index() {
    let w = vec![WorkingFile { oid: "o".to_string(), path: "added.txt".to_string() }];
    let d = diff_index_to_head(&Vec::new(), &vec![clean("added.txt", "o")], &w, &Vec::new()).unwrap();
    assert_eq!(d.added, vec!["added.txt"]);
}

#[test]
fn diff_index_to_head_detects_staged_modified_file() {
    let w = vec![WorkingFile { oid: "o2".to_string(), path: "f.txt".to_string() }];
    let d = diff_index_to_head(&vec![clean("f.txt", "o1")], &vec![clean("f.txt", "o2")], &w, &Vec::new()).unwrap();
    assert_eq!(d.staged, vec!["f.txt"]);
}

#[test]
fn get_all_diffs_combines_results() {
    let head = vec![clean("a.txt", "oa")];
    let index = vec![clean("a.txt", "oa2")];
    let w = vec![
        WorkingFile { oid: "oa3".to_string(), path: "a.txt".to_string() },
        WorkingFile { oid: "on".to_string(), path: "n.txt".to_string() },
    ];
    let d = get_all_diffs(&head, &index, &w, &Vec::new()).unwrap();
    assert_eq!(d.staged, vec!["a.txt"]);
    assert_eq!(d.modified, vec!["a.txt"]);
    assert_eq!(d.untracked, vec!["n.txt"]);
}

#[test]
fn read_index_not_found() {
    assert!(read_index("").unwrap().is_empty());
}

#[test]
fn write_and_read_round_trip() {
    let es = vec![clean("a.txt", "o1"), clean("dir/b.txt", "o2")];
    assert_eq!(read_index(&write_index(&es)).unwrap(), es);
}

#[test]
fn resolve_head_returns_branch_and_oid_when_symbolic() {
    let (branch_name, oid) = resolve_head("ref: refs/heads/main", "abcd1234deadbeef");
    assert_eq!(branch_name, Some("main".to_string()));
    assert_eq!(oid, "abcd1234deadbeef");
}

#[test]
fn resolve_head_returns_none_and_oid_when_detached() {
    let (branch_name, oid) = resolve_head("cafebabe12345678", "");
    assert_eq!(branch_name, None);
    assert_eq!(oid, "cafebabe12345678");
}

#[test]
fn resolve_head_trims_newlines_and_whitespace() {
    let (branch_name, oid) = resolve_head("ref: refs/heads/main\n", "deadbeef1234abcd\n\n");
    assert_eq!(branch_name, Some("main".to_string()));
    assert_eq!(oid, "deadbeef1234abcd");
}

#[test]
fn read_ref_reads_full_ref_path() {
    assert_eq!(full_ref_name("refs/heads/dev"), "refs/heads/dev");
    assert_eq!(read_ref("cafebabe1234abcd"), "cafebabe1234abcd");
}

#[test]
fn read_ref_reads_short_branch_name() {
    assert_eq!(full_ref_name("main"), "refs/heads/main");
    assert_eq!(read_ref("deadbeef9876feed"), "deadbeef9876feed");
}

#[test]
fn read_ref_trims_whitespace_and_newlines() {
    assert_eq!(read_ref("abcd1234efef5678\n\n"), "abcd1234efef5678");
}

#[test]
fn set_head_ref_points_to_existing_branch() {
    assert_eq!(set_head_ref("dev", true).unwrap().trim(), "ref: refs/heads/dev");
}

#[test]
fn set_head_ref_fails_on_missing_branch() {
    assert!(set_head_ref("nope", false).is_err());
}

#[test]
fn set_head_detached_writes_oid_to_head() {
    assert_eq!(set_head_detached("xyz789", true).unwrap(), "xyz789");
}

#[test]
fn set_head_detached_fails_on_missing_object() {
    assert!(set_head_detached("missing", false).is_err());
}

#[test]
fn add_remote_errors_if_not_a_nag_repo() {
    assert_eq!(porcelain::add_remote("/not/a/repo", false), Err(RepoError::NotFound));
}

#[test]
fn write_tree_from_index_missing_blob_errors() {
    let index = vec![clean("a.txt", "0000")];
    assert_eq!(write_tree_from_index(&index, &Vec::new()).unwrap_err(), RepoError::NotFound);
}

#[test]
fn write_tree_from_index_nested_directories() {
    let mut m = Mem::init();
    m.write("a/b/c.txt", "deep");
    m.write("a/d.txt", "shallow");
    m.add("a").unwrap();
    let (root, objs) = write_tree_from_index(&m.index, &m.ids()).unwrap();
    assert_eq!(objs.len(), 3);
    let back = read_tree_to_index(&objs, &root).unwrap();
    let paths: Vec<&str> = back.iter().map(|e| e.path.as_str()).collect();
    assert_eq!(paths, vec!["a/b/c.txt", "a/d.txt"]);
}

#[test]
fn checkout_refuses_to_overwrite_dirty_working_dir() {
    let mut m = Mem::init();
    m.commit_helper("file.txt", "committed", "c1");
    m.branch("feature", None).unwrap();
    m.write("new_untracked.txt", "dirty");
    assert!(m.checkout("feature").is_err());
    assert_eq!(m.work_text("new_untracked.txt"), Some("dirty".to_string()));
}

#[test]
fn preexisting_object_dedupe() {
    let mut m = Mem::init();
    let oid = m.put(b"dedupe me");
    assert!(!porcelain::write_object(&m.ids(), &oid));
    m.put(b"dedupe me");
    assert_eq!(m.blobs.len(), 1);
}

#[test]
fn write_object_is_idempotent() {
    let mut m = Mem::init();
    let a = m.put(b"payload");
    let b = m.put(b"payload");
    assert_eq!(a, b);
    assert_eq!(m.ids(), vec![a]);
}

#[test]
fn merge_directory_merge() {
    let mut m = Mem::init();
    m.commit_helper("src/a.rs", "v1", "init");
    m.branch("feature", None).unwrap();
    m.commit_helper("src/b.rs", "b content", "b add");
    assert!(m.merge("feature").is_ok());
}

#[test]
fn merge_nested_directories() {
    let mut m = Mem::init();
    m.commit_helper("src/utils/a.txt", "v1", "c1");
    m.branch("other", None).unwrap();
    m.commit_helper("src/utils/b.txt", "v2", "c2");
    assert!(m.merge("other").is_ok());
}

#[test]
fn merge_nested_file_conflict() {
    let mut m = Mem::init();
    m.commit_helper("src/core/lib.rs", "v1", "c1");
    m.branch("work", None).unwrap();
    m.commit_helper("src/core/lib.rs", "main edit", "main edit");
    m.checkout("work").unwrap();
    m.commit_helper("src/core/lib.rs", "work edit", "work edit");
    m.checkout("main").unwrap();
    assert!(m.merge("work").is_err());
}

#[test]
fn merge_add_directory_one_side() {
    let mut m = Mem::init();
    m.commit_helper("x.txt", "base", "c1");
    m.branch("side", None).unwrap();
    m.commit_helper("docs/intro.txt", "intro", "add docs");
    assert!(m.merge("side").is_ok());
}

#[test]
fn merge_both_add_dirs() {
    let mut m = Mem::init();
    m.commit_helper("b.txt", "b", "c1");
    m.branch("other", None).unwrap();
    m.commit_helper("a/a1.txt", "aaa", "add a1");
    m.checkout("other").unwrap();
    m.commit_helper("b/b1.txt", "bbb", "add b1");
    m.checkout("main").unwrap();
    assert!(m.merge("other").is_ok());
    assert_eq!(m.work_text("a/a1.txt"), Some("aaa".to_string()));
    assert_eq!(m.work_text("b/b1.txt"), Some("bbb".to_string()));
}

#[test]
fn fetch_copies_new_branch_commit_and_tree() {
    let mut local = Mem::init();
    let mut remote = Mem::init();
    let remote_oid = remote.commit_helper("hello.txt", "hi", "initial");
    local.fetch(&remote, "origin").unwrap();
    assert!(local.ids().contains(&remote_oid));
    assert_eq!(local.ref_text("refs/remotes/origin/main"), Some(remote_oid));
}

#[test]
fn fetch_is_idempotent_and_does_not_duplicate_objects() {
    let mut local = Mem::init();
    let mut remote = Mem::init();
    remote.commit_helper("t.txt", "abc", "msg");
    local.fetch(&remote, "o").unwrap();
    let first_count = local.ids().len();
    assert_eq!(first_count, 3);
    local.fetch(&remote, "o").unwrap();
    assert_eq!(local.ids().len(), first_count);
}

#[test]
fn fetch_copies_parent_commits() {
    let mut local = Mem::init();
    let mut remote = Mem::init();
    let first = remote.commit_helper("f.txt", "v1", "first");
    remote.commit_helper("f.txt", "v2", "second");
    local.fetch(&remote, "r").unwrap();
    assert!(local.ids().contains(&first));
}

#[test]
fn fetch_multiple_branches() {
    let mut local = Mem::init();
    let mut remote = Mem::init();
    remote.commit_helper("m.txt", "main", "on main");
    remote.branch("dev", None).unwrap();
    remote.checkout("dev").unwrap();
    let dev_tip = remote.commit_helper("d.txt", "dev", "on dev");
    local.fetch(&remote, "origin").unwrap();
    assert!(local.ref_text("refs/remotes/origin/main").is_some());
    assert_eq!(local.ref_text("refs/remotes/origin/dev"), Some(dev_tip));
}

#[test]
fn resolve_clears_conflict_and_updates_index() {
    let mut m = Mem::init();
    m.commit_helper("a.txt", "one", "c1");
    m.branch("feature", None).unwrap();
    m.checkout("feature").unwrap();
    m.commit_helper("a.txt", "two", "c2");
    m.checkout("main").unwrap();
    m.commit_helper("a.txt", "THREE", "c3");
    assert!(m.merge("feature").is_err());
    assert!(!m.diffs().is_clean());
    m.write("a.txt", "RESOLVED");
    m.resolve("a.txt").unwrap();
    let entry = m.index.iter().find(|e| e.path == "a.txt").unwrap();
    assert_eq!(entry.entry_type, EntryType::C);
    assert_eq!(entry.oids.len(), 1);
}

#[test]
fn resolve_only_modifies_target_entry() {
    let mut m = Mem::init();
    m.commit_helper("a.txt", "AAA", "c1");
    m.commit_helper("b.txt", "BBB", "c2");
    let b_before = m.index.iter().find(|e| e.path == "b.txt").unwrap().clone();
    m.index.iter_mut().find(|e| e.path == "a.txt").unwrap().entry_type = EntryType::X;
    m.write("a.txt", "FIXED_A");
    m.resolve("a.txt").unwrap();
    let a = m.index.iter().find(|e| e.path == "a.txt").unwrap();
    let b = m.index.iter().find(|e| e.path == "b.txt").unwrap();
    assert_eq!(a.entry_type, EntryType::C);
    assert_ne!(a.oids.len(), 0);
    assert_eq!(*b, b_before);
}

#[test]
fn restore_brings_back_deleted_file() {
    let mut m = Mem::init();
    m.commit_helper("hello.txt", "hello world", "first commit");
    m.delete("hello.txt");
    m.restore("hello.txt").unwrap();
    assert_eq!(m.work_text("hello.txt"), Some("hello world".to_string()));
}

#[test]
fn restore_recovers_entire_directory() {
    let mut m = Mem::init();
    m.commit_helper("src/main.rs", "fn main() {}", "commit a");
    m.commit_helper("src/lib.rs", "pub fn util() {}", "commit b");
    m.delete("src/main.rs");
    m.delete("src/lib.rs");
    m.restore("src").unwrap();
    assert_eq!(m.work_text("src/main.rs"), Some("fn main() {}".to_string()));
    assert_eq!(m.work_text("src/lib.rs"), Some("pub fn util() {}".to_string()));
}

#[test]
fn restore_is_noop_when_file_matches_head() {
    let mut m = Mem::init();
    m.commit_helper("noop.txt", "data", "commit");
    let before = m.work_text("noop.txt");
    m.restore("noop.txt").unwrap();
    assert_eq!(m.work_text("noop.txt"), before);
}

#[test]
fn restore_partially_missing_directory() {
    let mut m = Mem::init();
    m.commit_helper("docs/intro.txt", "intro", "a");
    m.commit_helper("docs/guide.txt", "guide", "b");
    m.delete("docs/intro.txt");
    m.restore("docs").unwrap();
    assert_eq!(m.work_text("docs/intro.txt"), Some("intro".to_string()));
    assert_eq!(m.work_text("docs/guide.txt"), Some("guide".to_string()));
}

#[test]
fn diff_index_to_head_detects_deleted_index_file() {
    let index = vec![clean("gone.txt", "o")];
    let d = diff_index_to_head(&index, &index, &Vec::new(), &Vec::new()).unwrap();
    assert_eq!(d.deleted, vec!["gone.txt"]);
}

#[test]
fn diff_index_to_head_detects_staged_delete_against_head() {
    let head = vec![clean("old.txt", "o")];
    let d = diff_index_to_head(&head, &Vec::new(), &Vec::new(), &Vec::new()).unwrap();
    assert_eq!(d.staged_delete, vec!["old.txt"]);
}

#[test]
fn diff_excludes_ignored_files() {
    let pats = nag::ignore::ignore_patterns("*.log\n");
    let w = vec![
        WorkingFile { oid: "o".to_string(), path: "debug.log".to_string() },
        WorkingFile { oid: "p".to_string(), path: "main.rs".to_string() },
    ];
    let d = get_all_diffs(&Vec::new(), &Vec::new(), &w, &pats).unwrap();
    assert_eq!(d.untracked, vec!["main.rs"]);
}

#[test]
fn should_ignore_returns_false_if_no_ignore_file() {
    assert_eq!(nag::ignore::should_ignore("foo.txt", ""), Ok(false));
}

#[test]
fn should_ignore_matches_simple_pattern() {
    assert_eq!(nag::ignore::should_ignore("test.log", "*.log\n"), Ok(true));
    assert_eq!(nag::ignore::should_ignore("notes.txt", "*.log\n"), Ok(false));
}

#[test]
fn should_ignore_honors_negation_patterns() {
    let text = "*.log\n!important.log\n";
    assert_eq!(nag::ignore::should_ignore("debug.log", text), Ok(true));
    assert_eq!(nag::ignore::should_ignore("important.log", text), Ok(false));
}

#[test]
fn should_ignore_entire_directory() {
    assert_eq!(nag::ignore::should_ignore("build/output/main.o", "build/\n"), Ok(true));
    assert_eq!(nag::ignore::should_ignore("src/main.rs", "build/\n"), Ok(false));
}

#[test]
fn should_ignore_returns_error_on_invalid_pattern() {
    assert_eq!(nag::ignore::should_ignore("foo.txt", "[]foo\n"), Err(RepoError::InvalidData));
}

#[test]
fn should_ignore_skips_comments_and_blank_lines() {
    let text = "# comment line\n\n*.tmp\n";
    assert_eq!(nag::ignore::should_ignore("junk.tmp", text), Ok(true));
    assert_eq!(nag::ignore::should_ignore("data.txt", text), Ok(false));
}

#[test]
fn read_index_success() {
    let entries = read_index("C\t100644\tfile.txt\tabc123\nC\t100644\tsrc/main.rs\txyz789\n").unwrap();
    assert_eq!(entries, vec![clean("file.txt", "abc123"), clean("src/main.rs", "xyz789")]);
}

#[test]
fn read_index_ignores_malformed_lines() {
    let entries = read_index("C\t100644\tgood.txt\tabc123\nmalformed-line\n").unwrap();
    assert_eq!(entries, vec![clean("good.txt", "abc123")]);
}

#[test]
fn write_index_success() {
    let entries = vec![clean("file.txt", "abc123")];
    assert_eq!(write_index(&entries), "C\t100644\tfile.txt\tabc123\n");
}

#[test]
fn write_index_empty_creates_file() {
    assert_eq!(write_index(&Vec::new()), "");
}

#[test]
fn write_tree_from_index_single_file() {
    let mut m = Mem::init();
    m.write("file.txt", "hello");
    m.add("file.txt").unwrap();
    let (root, objs) = write_tree_from_index(&m.index, &m.ids()).unwrap();
    assert_eq!(objs.len(), 1);
    assert_eq!(objs[0].text, format!("C\t100644\tfile.txt\t{}\n", hash(&b"hello".to_vec())));
    assert_eq!(root, objs[0].oid);
}

#[test]
fn write_tree_from_index_multiple_directories() {
    let mut m = Mem::init();
    m.write("a/x.txt", "x");
    m.write("b/y.txt", "y");
    m.add("a").unwrap();
    m.add("b").unwrap();
    let (root, objs) = write_tree_from_index(&m.index, &m.ids()).unwrap();
    assert_eq!(objs.len(), 3);
    let root_text = &objs[2].text;
    assert!(root_text.starts_with("C\t040000\ta\t"));
    assert!(root_text.contains("\nC\t040000\tb\t"));
    assert_eq!(root, objs[2].oid);
}

#[test]
fn write_tree_from_index_empty_index_creates_empty_tree() {
    let (root, objs) = write_tree_from_index(&Vec::new(), &Vec::new()).unwrap();
    assert_eq!(objs[0].text, "");
    assert_eq!(root, hash(&Vec::new()));
}

#[test]
fn add_remote_creates_ref_file() {
    let mut m = Mem::init();
    let repo_path = "/srv/repos/project";
    m.add_remote("origin", repo_path, true).unwrap();
    assert_eq!(m.ref_text("remotes/origin").unwrap().trim(), repo_path);
}

#[test]
fn add_remote_overwrites_existing() {
    let mut m = Mem::init();
    let repo_path = "/srv/repos/project";
    m.add_remote("x", repo_path, true).unwrap();
    m.add_remote("x", repo_path, true).unwrap();
    assert_eq!(m.ref_text("remotes/x").unwrap().trim(), repo_path);
    assert_eq!(m.refs.iter().filter(|(p, _)| p == "remotes/x").count(), 1);
}

#[test]
fn tag_overwrites_existing_tag() {
    let mut m = Mem::init();
    m.commit_helper("data.txt", "first", "c1");
    m.tag("release", None, None).unwrap();
    m.commit_helper("data.txt", "second", "c2");
    let new_oid = read_ref(&m.ref_text("refs/heads/main").unwrap());
    m.tag("release", Some(new_oid.clone()), None).unwrap();
    assert_eq!(m.ref_text("refs/tags/release").unwrap().trim(), new_oid);
}
