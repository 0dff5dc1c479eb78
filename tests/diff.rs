use nag::diff::{diff_index_to_head, diff_working_to_index, get_all_diffs, DiffType, WorkingFile};
use nag::error::RepoError;
use nag::ignore::{ignore_patterns, is_ignored, should_ignore};
use nag::index::{EntryType, IndexEntry};

fn clean(path: &str, oid: &str) -> IndexEntry {
    IndexEntry {
        entry_type: EntryType::C,
        path: path.to_string(),
        mode: "100644".to_string(),
        oids: vec![oid.to_string()],
    }
}

fn file(path: &str, oid: &str) -> WorkingFile {
    WorkingFile { oid: oid.to_string(), path: path.to_string() }
}

#[test]
fn status_classification_scenario() {
    // committed a.txt="a", b.txt="b"; a.txt edited, b.txt deleted, c.txt new
    let head = vec![clean("a.txt", "oa"), clean("b.txt", "ob")];
    let index = vec![clean("a.txt", "oa"), clean("b.txt", "ob")];
    let working = vec![file("a.txt", "oa2"), file("c.txt", "oc")];
    let d = get_all_diffs(&head, &index, &working, &Vec::new()).unwrap();
    assert_eq!(d.untracked, vec!["c.txt"]);
    assert_eq!(d.modified, vec!["a.txt"]);
    assert_eq!(d.deleted, vec!["b.txt"]);
    assert!(d.added.is_empty() && d.staged.is_empty() && d.staged_delete.is_empty());
    assert!(!d.is_clean());
    // staging a.txt moves it to Staged
    let index = vec![clean("a.txt", "oa2"), clean("b.txt", "ob")];
    let d = get_all_diffs(&head, &index, &working, &Vec::new()).unwrap();
    assert_eq!(d.paths(DiffType::Staged), &vec!["a.txt".to_string()]);
    assert!(d.modified.is_empty());
}

#[test]
fn added_and_staged_delete() {
    let head = vec![clean("gone.txt", "og")];
    let index = vec![clean("new.txt", "on")];
    let working = vec![file("new.txt", "on")];
    let d = diff_index_to_head(&head, &index, &working, &Vec::new()).unwrap();
    assert_eq!(d.added, vec!["new.txt"]);
    assert_eq!(d.staged_delete, vec!["gone.txt"]);
    assert!(d.deleted.is_empty() && d.untracked.is_empty());
}

#[test]
fn clean_repository_has_empty_buckets() {
    let index = vec![clean("a.txt", "oa")];
    let working = vec![file("a.txt", "oa")];
    let d = get_all_diffs(&index, &index, &working, &Vec::new()).unwrap();
    assert!(d.is_clean());
}

#[test]
fn ignored_paths_are_filtered() {
    let pats = ignore_patterns("# logs\n*.log\n\nbuild/\n");
    assert_eq!(pats, vec!["*.log", "build/"]);
    let working = vec![file("debug.log", "x"), file("build/out.o", "y"), file("main.rs", "z")];
    let d = diff_working_to_index(&Vec::new(), &working, &pats).unwrap();
    assert_eq!(d.untracked, vec!["main.rs"]);
}

#[test]
fn later_patterns_override_earlier() {
    let pats = ignore_patterns("*.log\n!keep.log\n");
    assert_eq!(is_ignored("a.log", &pats), Ok(true));
    assert_eq!(is_ignored("keep.log", &pats), Ok(false));
    assert_eq!(is_ignored("src\\a.log", &pats), Ok(true));
    assert_eq!(should_ignore("main.rs", "*.log\n"), Ok(false));
}

#[test]
fn invalid_pattern_is_invalid_data() {
    let pats = ignore_patterns("[\n");
    assert_eq!(is_ignored("a", &pats), Err(RepoError::InvalidData));
    let working = vec![file("a", "x")];
    assert_eq!(
        diff_working_to_index(&Vec::new(), &working, &pats).unwrap_err(),
        RepoError::InvalidData
    );
}
