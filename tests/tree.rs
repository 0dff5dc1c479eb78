use nag::error::RepoError;
use nag::hash::hash;
use nag::index::{EntryType, IndexEntry};
use nag::tree::{format_entry, read_tree_to_index, write_tree_from_index, TextObject};

fn clean(path: &str, oid: &str) -> IndexEntry {
    IndexEntry {
        entry_type: EntryType::C,
        path: path.to_string(),
        mode: "100644".to_string(),
        oids: vec![oid.to_string()],
    }
}

#[test]
fn tree_line_layout() {
    assert_eq!(format_entry(EntryType::C, "100644", "a.txt", "abc"), "C\t100644\ta.txt\tabc\n");
}

#[test]
fn empty_index_gives_empty_tree() {
    let (root, objs) = write_tree_from_index(&Vec::new(), &Vec::new()).unwrap();
    assert_eq!(root, "e3b0c44298fc1c149afbf4c8996fb92427ae41e4649b934ca495991b7852b855");
    assert_eq!(objs.len(), 1);
    assert_eq!(objs[0].text, "");
    let (again, _) = write_tree_from_index(&Vec::new(), &Vec::new()).unwrap();
    assert_eq!(again, root);
}

#[test]
fn tree_rows_sorted_and_nested() {
    let oa = hash(&b"a".to_vec());
    let ob = hash(&b"b".to_vec());
    let index = vec![clean("z.txt", &ob), clean("dir/b.txt", &ob), clean("a.txt", &oa)];
    let existing = vec![oa.clone(), ob.clone()];
    let (root, objs) = write_tree_from_index(&index, &existing).unwrap();
    assert_eq!(objs.len(), 2);
    let sub_text = format!("C\t100644\tb.txt\t{}\n", ob);
    assert_eq!(objs[0].text, sub_text);
    assert_eq!(objs[0].oid, hash(&sub_text.as_bytes().to_vec()));
    let root_text = format!(
        "C\t100644\ta.txt\t{}\nC\t040000\tdir\t{}\nC\t100644\tz.txt\t{}\n",
        oa, objs[0].oid, ob
    );
    assert_eq!(objs[1].text, root_text);
    assert_eq!(root, hash(&root_text.as_bytes().to_vec()));
    for o in &objs {
        assert_eq!(o.oid, hash(&o.text.as_bytes().to_vec()));
    }
}

#[test]
fn tree_round_trip_keeps_clean_entries() {
    let oa = hash(&b"a".to_vec());
    let ob = hash(&b"b".to_vec());
    let mut conflicted = clean("c.txt", &oa);
    conflicted.entry_type = EntryType::X;
    conflicted.oids.push(ob.clone());
    let index = vec![clean("dir/sub/b.txt", &ob), clean("a.txt", &oa), conflicted];
    let existing = vec![oa.clone(), ob.clone()];
    let (root, objs) = write_tree_from_index(&index, &existing).unwrap();
    let back = read_tree_to_index(&objs, &root).unwrap();
    let paths: Vec<&str> = back.iter().map(|e| e.path.as_str()).collect();
    assert_eq!(paths, vec!["a.txt", "dir/sub/b.txt"]);
    assert_eq!(back[1].oids, vec![ob]);
    assert_eq!(back[0].mode, "100644");
}

#[test]
fn tree_needs_stored_blobs() {
    let index = vec![clean("a.txt", "missing")];
    assert_eq!(write_tree_from_index(&index, &Vec::new()).unwrap_err(), RepoError::NotFound);
}

#[test]
fn reading_trees_reports_missing_and_malformed() {
    let objs = vec![
        TextObject { oid: "t1".to_string(), text: "Q\tbad\n".to_string() },
        TextObject { oid: "t2".to_string(), text: "C\t040000\tsub\tnope\n".to_string() },
        TextObject {
            oid: "t3".to_string(),
            text: "X\t100644\tc\tx\nC\t120000\tlink\ty\nC\t100755\trun.sh\tz\n".to_string(),
        },
    ];
    assert_eq!(read_tree_to_index(&objs, "absent").unwrap_err(), RepoError::NotFound);
    assert_eq!(read_tree_to_index(&objs, "t1").unwrap_err(), RepoError::InvalidData);
    assert_eq!(read_tree_to_index(&objs, "t2").unwrap_err(), RepoError::NotFound);
    let es = read_tree_to_index(&objs, "t3").unwrap();
    assert_eq!(es.len(), 1);
    assert_eq!(es[0].path, "run.sh");
    assert_eq!(es[0].mode, "100755");
}
