use nag::commit::{commit_parents, commit_payload, commit_tree, tag_payload};
use nag::error::RepoError;
use nag::hash::hash;
use nag::index::{mode_for, read_index, write_index, EntryType, IndexEntry};
use nag::refs::{
    branch_of_ref, full_ref_name, list_refs, nested_ref_name, parse_head, read_ref,
    resolve_head, set_head_detached, set_head_ref, symbolic_head_text, HeadRef,
};
use nag::text::{chars_of, split_chars, string_of};

fn entry(t: EntryType, mode: &str, path: &str, oids: &[&str]) -> IndexEntry {
    IndexEntry {
        entry_type: t,
        path: path.to_string(),
        mode: mode.to_string(),
        oids: oids.iter().map(|s| s.to_string()).collect(),
    }
}

#[test]
fn hash_of_known_payloads() {
    assert_eq!(
        hash(&b"hello world".to_vec()),
        "b94d27b9934d3e08a52e52d7da7dabfac484efe37a5380ee9088f7ace2efcde9"
    );
    assert_eq!(
        hash(&Vec::new()),
        "e3b0c44298fc1c149afbf4c8996fb92427ae41e4649b934ca495991b7852b855"
    );
}

#[test]
fn hash_is_64_lowercase_hex_digits() {
    let h = hash(&b"some content".to_vec());
    assert_eq!(h.len(), 64);
    assert!(h.chars().all(|c| c.is_ascii_digit() || ('a'..='f').contains(&c)));
    assert_ne!(h, hash(&b"other content".to_vec()));
}

#[test]
fn index_text_has_one_line_per_entry() {
    let es = vec![
        entry(EntryType::C, "100644", "hello.txt", &["abc"]),
        entry(EntryType::X, "100755", "src/a.rs", &["b1", "t1"]),
    ];
    assert_eq!(write_index(&es), "C\t100644\thello.txt\tabc\nX\t100755\tsrc/a.rs\tb1\tt1\n");
}

#[test]
fn index_round_trip() {
    let es = vec![
        entry(EntryType::C, "100644", "hello.txt", &["abc"]),
        entry(EntryType::X, "100644", "d/e.txt", &["b1", "empty"]),
    ];
    let back = read_index(&write_index(&es)).unwrap();
    assert_eq!(back, es);
    assert_ne!(back[0], back[1]);
}

#[test]
fn index_skips_short_lines_and_rejects_unknown_types() {
    let es = read_index("C\t100644\tonly-three\n\nC\t100644\ta\tx\n").unwrap();
    assert_eq!(es.len(), 1);
    assert_eq!(es[0].path, "a");
    assert_eq!(read_index("Z\t100644\ta\tx\n").unwrap_err(), RepoError::InvalidData);
    assert_eq!(read_index("").unwrap().len(), 0);
}

#[test]
fn modes_for_new_entries() {
    assert_eq!(mode_for(true, false), "040000");
    assert_eq!(mode_for(false, true), "100755");
    assert_eq!(mode_for(false, false), "100644");
}

#[test]
fn commit_payload_layout() {
    let p = commit_payload("t1", "  c0ffee\n", "  first  ");
    assert_eq!(p, "tree t1\nparent c0ffee\n\nfirst\n");
    let root = commit_payload("t1", "", "msg");
    assert_eq!(root, "tree t1\n\nmsg\n");
    assert_eq!(commit_tree(&p), Some("t1".to_string()));
    assert_eq!(commit_parents(&p), vec!["c0ffee".to_string()]);
    assert!(commit_parents(&root).is_empty());
    assert_eq!(commit_tree("parent x\n"), None);
}

#[test]
fn annotated_tag_payload() {
    assert_eq!(tag_payload("abc", "release"), "object abc\n\nrelease");
}

#[test]
fn ref_names_are_prefixed() {
    assert_eq!(full_ref_name("feature/ui"), "refs/heads/feature/ui");
    assert_eq!(full_ref_name("refs/tags/v1"), "refs/tags/v1");
}

#[test]
fn head_attached_and_detached() {
    match parse_head("ref: refs/heads/main\n") {
        HeadRef::Symbolic(p) => assert_eq!(p, "refs/heads/main"),
        HeadRef::Detached(_) => panic!("expected an attached HEAD"),
    }
    match parse_head("  abc123\n") {
        HeadRef::Detached(o) => assert_eq!(o, "abc123"),
        HeadRef::Symbolic(_) => panic!("expected a detached HEAD"),
    }
    assert_eq!(
        resolve_head("ref: refs/heads/main\n", "c0ffee\n"),
        (Some("main".to_string()), "c0ffee".to_string())
    );
    assert_eq!(resolve_head("c0ffee", "ignored"), (None, "c0ffee".to_string()));
    assert_eq!(branch_of_ref("refs/heads/feature/ui"), "ui");
}

#[test]
fn head_text_for_a_branch() {
    let t = symbolic_head_text("dev");
    assert_eq!(t, "ref: refs/heads/dev\n");
    assert_eq!(resolve_head(&t, "oid\n"), (Some("dev".to_string()), "oid".to_string()));
    assert_eq!(set_head_ref("dev", true), Ok("ref: refs/heads/dev\n".to_string()));
    assert_eq!(set_head_ref("dev", false), Err(RepoError::NotFound));
    assert_eq!(set_head_detached("abc", true), Ok("abc".to_string()));
    assert_eq!(set_head_detached("abc", false), Err(RepoError::NotFound));
    assert_eq!(read_ref("  abc\n"), "abc");
}

#[test]
fn refs_sort_case_insensitively() {
    let names = vec!["b".to_string(), "A".to_string(), "feature/ui".to_string(), "a2".to_string()];
    assert_eq!(list_refs(names), vec!["A", "a2", "b", "feature/ui"]);
    let mixed = vec!["b".to_string(), "C".to_string(), "a".to_string()];
    assert_eq!(list_refs(mixed), vec!["a", "b", "C"]);
}

#[test]
fn nested_names_join_with_slash() {
    assert_eq!(nested_ref_name("", "main"), "main");
    assert_eq!(nested_ref_name("feature", "ui"), "feature/ui");
    let pieces = split_chars(&chars_of("feature/ui/x"), '/');
    let names: Vec<String> = pieces.iter().map(|p| string_of(p)).collect();
    assert_eq!(names, vec!["feature", "ui", "x"]);
}

#[test]
fn paths_are_normalized() {
    assert_eq!(nag::index::normalize_path("./src\\a.rs"), "src/a.rs");
    assert_eq!(nag::index::normalize_path("dir/./x"), "dir/./x");
    assert_eq!(nag::index::normalize_path("a.txt"), "a.txt");
}
