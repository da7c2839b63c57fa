use rgit::checkout::{blob_data, commit_tree, head_ref, tree_steps};
use rgit::error::GitError;
use rgit::kind::{CommitPerson, ObjectKind, TreeEntry, TreeEntryMode};
use rgit::transport::check_info_refs_response;

#[test]
fn steps_of_a_tree() {
    let tree = ObjectKind::Tree(vec![
        TreeEntry { mode: TreeEntryMode::Directory, name: "src".to_string(), sha1: vec![0xab; 20] },
        TreeEntry { mode: TreeEntryMode::RegularFile, name: "README".to_string(), sha1: vec![0x01; 20] },
    ]);
    let steps = tree_steps(&tree).unwrap();
    assert_eq!(steps.len(), 2);
    assert_eq!(steps[0].name, "src");
    assert_eq!(steps[0].sha, "ab".repeat(20));
    assert!(steps[0].is_dir);
    assert_eq!(steps[1].sha, "01".repeat(20));
    assert!(!steps[1].is_dir);
    assert!(matches!(tree_steps(&ObjectKind::Blob(vec![])), Err(GitError::ExpectedTree)));
}

#[test]
fn commit_and_blob_parts() {
    let c = ObjectKind::Commit {
        tree: "t".to_string(),
        parents: vec![],
        author: CommitPerson::demo(),
        committer: CommitPerson::demo(),
        message: String::new(),
    };
    assert_eq!(commit_tree(&c).unwrap(), "t");
    assert!(matches!(commit_tree(&ObjectKind::Blob(vec![])), Err(GitError::NotACommit)));
    assert_eq!(blob_data(&ObjectKind::Blob(vec![1, 2])).unwrap(), &vec![1, 2]);
    assert!(matches!(blob_data(&c), Err(GitError::ExpectedBlob)));
}

#[test]
fn head_points_at_ref() {
    assert_eq!(head_ref("refs/heads/main"), b"ref: refs/heads/main".to_vec());
}

#[test]
fn info_refs_response_checks() {
    assert!(check_info_refs_response(200, None).is_ok());
    assert!(check_info_refs_response(200, Some(b"application/x-git-upload-pack-advertisement")).is_ok());
    assert!(matches!(check_info_refs_response(404, None), Err(GitError::BadStatus(404))));
    assert!(matches!(check_info_refs_response(200, Some(b"text/plain")), Err(GitError::BadContentType(v)) if v == b"text/plain"));
}
