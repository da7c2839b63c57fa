use rgit::encode::{encode_object, put_object, put_object_raw, sha1_of, sort_key, zlib_compress};
use rgit::error::GitError;
use rgit::kind::{CommitPerson, ObjectKind, TreeEntry, TreeEntryMode};
use rgit::objects::{decode_object, parse_body, parse_object, try_parse_body, zlib_decompress};
use rgit::text::split_once_byte;

fn person(name: &str) -> CommitPerson {
    CommitPerson {
        name: name.to_string(),
        email: "me@example.com".to_string(),
        timestamp: "1700000000".to_string(),
        timezone: "+0100".to_string(),
    }
}

#[test]
fn blob_ids_match_git() {
    let s = put_object(&ObjectKind::Blob(b"hello\n".to_vec())).unwrap();
    assert_eq!(s.sha, "ce013625030ba8dba906f756967f9e9ca394464a");
    let s = put_object(&ObjectKind::Blob(Vec::new())).unwrap();
    assert_eq!(s.sha, "e69de29bb2d1d6434b8b29ae775ad8c2e48c5391");
}

#[test]
fn empty_tree_id_matches_git() {
    let s = put_object(&ObjectKind::Tree(Vec::new())).unwrap();
    assert_eq!(s.sha, "4b825dc642cb6eb9a060e54bf8d69288fbee4904");
}

#[test]
fn loose_form_of_a_blob() {
    assert_eq!(encode_object(&ObjectKind::Blob(b"hello".to_vec())), b"blob 5\0hello".to_vec());
    let big = vec![7u8; 1234];
    let enc = encode_object(&ObjectKind::Blob(big.clone()));
    assert_eq!(&enc[..10], b"blob 1234\0");
}

#[test]
fn stored_object_decompresses_to_loose_form() {
    let obj = ObjectKind::Blob(b"data".to_vec());
    let s = put_object(&obj).unwrap();
    assert_eq!(zlib_decompress(&s.compressed).unwrap(), encode_object(&obj));
    match decode_object(&s.compressed) {
        Some(Ok(ObjectKind::Blob(d))) => assert_eq!(d, b"data"),
        other => panic!("unexpected {:?}", other),
    }
    assert!(matches!(decode_object(b"not zlib"), Some(Err(GitError::Inflate))));
}

#[test]
fn stored_tree_and_commit_read_back() {
    let tree = ObjectKind::Tree(vec![
        TreeEntry { mode: TreeEntryMode::RegularFile, name: "b".to_string(), sha1: vec![2; 20] },
        TreeEntry { mode: TreeEntryMode::Directory, name: "a".to_string(), sha1: vec![1; 20] },
    ]);
    let s = put_object(&tree).unwrap();
    match decode_object(&s.compressed) {
        Some(Ok(ObjectKind::Tree(es))) => {
            let names: Vec<&str> = es.iter().map(|e| e.name.as_str()).collect();
            assert_eq!(names, vec!["a", "b"]);
            assert!(matches!(es[0].mode, TreeEntryMode::Directory));
            assert_eq!(es[1].sha1, vec![2; 20]);
        }
        other => panic!("unexpected {:?}", other),
    }
    let commit = ObjectKind::Commit {
        tree: s.sha.clone(),
        parents: vec![],
        author: person("Ann"),
        committer: person("Ann"),
        message: "init".to_string(),
    };
    let c = put_object(&commit).unwrap();
    match decode_object(&c.compressed) {
        Some(Ok(ObjectKind::Commit { tree, parents, message, .. })) => {
            assert_eq!(tree, s.sha);
            assert!(parents.is_empty());
            assert_eq!(message, "init");
        }
        other => panic!("unexpected {:?}", other),
    }
}

#[test]
fn put_object_raw_frames_the_body() {
    let c = put_object_raw("blob", b"xyz").unwrap();
    assert_eq!(zlib_decompress(&c).unwrap(), b"blob 3\0xyz".to_vec());
    assert_eq!(zlib_compress(b"blob 3\0xyz").unwrap(), c);
    assert_eq!(sha1_of(b"blob 3\0xyz"), put_object(&ObjectKind::Blob(b"xyz".to_vec())).unwrap().sha);
}

#[test]
fn tree_entries_are_sorted_with_directories_slashed() {
    let entries = vec![
        TreeEntry { mode: TreeEntryMode::Directory, name: "a".to_string(), sha1: vec![1; 20] },
        TreeEntry { mode: TreeEntryMode::RegularFile, name: "a.txt".to_string(), sha1: vec![2; 20] },
        TreeEntry { mode: TreeEntryMode::ExecutableFile, name: "0run".to_string(), sha1: vec![3; 20] },
    ];
    let enc = encode_object(&ObjectKind::Tree(entries));
    let mut body = Vec::new();
    body.extend(b"100755 0run\0");
    body.extend([3u8; 20]);
    body.extend(b"100644 a.txt\0");
    body.extend([2u8; 20]);
    body.extend(b"40000 a\0");
    body.extend([1u8; 20]);
    let mut expected = format!("tree {}\0", body.len()).into_bytes();
    expected.extend(body);
    assert_eq!(enc, expected);
}

#[test]
fn tree_entries_with_equal_keys_keep_their_order() {
    let entries = vec![
        TreeEntry { mode: TreeEntryMode::RegularFile, name: "z".to_string(), sha1: vec![7; 20] },
        TreeEntry { mode: TreeEntryMode::ExecutableFile, name: "dup".to_string(), sha1: vec![1; 20] },
        TreeEntry { mode: TreeEntryMode::RegularFile, name: "dup".to_string(), sha1: vec![2; 20] },
    ];
    let enc = encode_object(&ObjectKind::Tree(entries));
    let mut body = Vec::new();
    body.extend(b"100755 dup\0");
    body.extend([1u8; 20]);
    body.extend(b"100644 dup\0");
    body.extend([2u8; 20]);
    body.extend(b"100644 z\0");
    body.extend([7u8; 20]);
    let mut expected = format!("tree {}\0", body.len()).into_bytes();
    expected.extend(body);
    assert_eq!(enc, expected);
}

#[test]
fn permuted_tree_entries_give_the_same_object() {
    let a = TreeEntry { mode: TreeEntryMode::Directory, name: "a".to_string(), sha1: vec![2; 20] };
    let b = TreeEntry { mode: TreeEntryMode::RegularFile, name: "a.txt".to_string(), sha1: vec![1; 20] };
    let c = TreeEntry { mode: TreeEntryMode::ExecutableFile, name: "b".to_string(), sha1: vec![3; 20] };
    let copy = |e: &TreeEntry| TreeEntry {
        mode: match e.mode {
            TreeEntryMode::Directory => TreeEntryMode::Directory,
            TreeEntryMode::ExecutableFile => TreeEntryMode::ExecutableFile,
            _ => TreeEntryMode::RegularFile,
        },
        name: e.name.clone(),
        sha1: e.sha1.clone(),
    };
    let s1 = put_object(&ObjectKind::Tree(vec![copy(&a), copy(&b), copy(&c)])).unwrap();
    let s2 = put_object(&ObjectKind::Tree(vec![c, a, b])).unwrap();
    assert_eq!(s1.sha, s2.sha);
    assert_eq!(s1.compressed, s2.compressed);
    assert_eq!(s1.sha.len(), 40);
    assert!(s1.sha.chars().all(|ch| ch.is_ascii_digit() || ('a'..='f').contains(&ch)));
}

#[test]
fn sort_key_adds_slash_for_directories() {
    let d = TreeEntry { mode: TreeEntryMode::Directory, name: "src".to_string(), sha1: vec![] };
    let f = TreeEntry { mode: TreeEntryMode::RegularFile, name: "src".to_string(), sha1: vec![] };
    assert_eq!(sort_key(&d), b"src/".to_vec());
    assert_eq!(sort_key(&f), b"src".to_vec());
}

#[test]
fn tree_reads_back() {
    let entries = vec![
        TreeEntry { mode: TreeEntryMode::RegularFile, name: "b c".to_string(), sha1: vec![9; 20] },
        TreeEntry { mode: TreeEntryMode::Unsupported("120000".to_string()), name: "link".to_string(), sha1: vec![8; 20] },
    ];
    let enc = encode_object(&ObjectKind::Tree(entries));
    match parse_object(&enc).unwrap() {
        ObjectKind::Tree(es) => {
            assert_eq!(es.len(), 2);
            assert_eq!(es[0].name, "b c");
            assert!(matches!(es[0].mode, TreeEntryMode::RegularFile));
            assert_eq!(es[0].sha1, vec![9; 20]);
            assert_eq!(es[1].name, "link");
            assert!(matches!(&es[1].mode, TreeEntryMode::Unsupported(m) if m == "120000"));
        }
        other => panic!("unexpected {:?}", other),
    }
}

#[test]
fn short_tree_entry_cannot_be_read() {
    assert!(try_parse_body("tree", b"100644 name\0short").is_none());
    assert!(try_parse_body("tree", b"100644name").is_none());
    assert!(try_parse_body("tree", b"100644 name").is_none());
}

#[test]
fn tree_with_invalid_utf8_name_is_an_error() {
    let mut body = b"100644 \xff\0".to_vec();
    body.extend([0u8; 20]);
    assert!(matches!(parse_body("tree", &body), Err(GitError::InvalidUtf8)));
}

#[test]
fn commit_reads_back() {
    let obj = ObjectKind::Commit {
        tree: "4b825dc642cb6eb9a060e54bf8d69288fbee4904".to_string(),
        parents: vec!["aaaa".to_string(), "bbbb".to_string()],
        author: person("Ann Author"),
        committer: person("Carl Committer"),
        message: "first commit".to_string(),
    };
    let enc = encode_object(&obj);
    let text = String::from_utf8(enc.clone()).unwrap();
    assert!(text.contains("tree 4b825dc642cb6eb9a060e54bf8d69288fbee4904\nparent aaaa\nparent bbbb\nauthor Ann Author <me@example.com> 1700000000 +0100\n"));
    assert!(text.ends_with("\n\nfirst commit\n"));
    match parse_object(&enc).unwrap() {
        ObjectKind::Commit { tree, parents, author, committer, message } => {
            assert_eq!(tree, "4b825dc642cb6eb9a060e54bf8d69288fbee4904");
            assert_eq!(parents, vec!["aaaa".to_string(), "bbbb".to_string()]);
            assert_eq!(author.name, "Ann Author");
            assert_eq!(committer.name, "Carl Committer");
            assert_eq!(committer.timezone, "+0100");
            assert_eq!(message, "first commit");
        }
        other => panic!("unexpected {:?}", other),
    }
}

#[test]
fn commit_message_lines_are_joined() {
    let body = b"tree t\r\nauthor A <a> 1 +0\ncommitter C <c> 2 +0\n\nline one\r\nline two\n";
    match parse_body("commit", body).unwrap() {
        ObjectKind::Commit { tree, message, .. } => {
            assert_eq!(tree, "t");
            assert_eq!(message, "line oneline two");
        }
        other => panic!("unexpected {:?}", other),
    }
}

#[test]
fn commit_missing_parts() {
    assert!(matches!(parse_body("commit", b"author A <a> 1 2\ncommitter C <c> 3 4\n"), Err(GitError::MissingTree)));
    assert!(matches!(parse_body("commit", b"tree t\ncommitter C <c> 3 4\n"), Err(GitError::MissingAuthor)));
    assert!(matches!(parse_body("commit", b"tree t\nauthor A <a> 1 2\n"), Err(GitError::MissingCommitter)));
    assert!(matches!(parse_body("commit", b"tree t\nauthor A a> 1 2\n"), Err(GitError::MissingLt)));
    assert!(matches!(parse_body("commit", b"\xff"), Err(GitError::InvalidUtf8)));
}

#[test]
fn object_header_errors() {
    assert!(matches!(parse_object(b"blob 5"), Err(GitError::MissingNul)));
    assert!(matches!(parse_object(b"blob\0x"), Err(GitError::MalformedHeader)));
    assert!(matches!(parse_object(b"\xff 1\0x"), Err(GitError::InvalidUtf8)));
    match parse_object(b"tag 1\0x") {
        Err(GitError::UnsupportedObjectType(t)) => assert_eq!(t, "tag"),
        other => panic!("unexpected {:?}", other),
    }
    match parse_object(b"blob 999\0abc") {
        Ok(ObjectKind::Blob(d)) => assert_eq!(d, b"abc"),
        other => panic!("unexpected {:?}", other),
    }
}

#[test]
fn split_once_byte_splits_at_first() {
    assert_eq!(split_once_byte(b"a b c", b' '), Some((&b"a"[..], &b"b c"[..])));
    assert_eq!(split_once_byte(b"abc", b' '), None);
    assert_eq!(split_once_byte(b" x", b' '), Some((&b""[..], &b"x"[..])));
}
