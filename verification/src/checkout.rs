//! The decisions of a checkout: which tree a commit names, what each tree
//! entry becomes on disk, and what HEAD is set to.
use vstd::prelude::*;
use vstd::string::*;

use crate::codec::{hex_encode, hex_text};
use crate::error::GitError;
use crate::kind::{entries_view, ObjectKind, ObjectView, TreeEntryMode};
use crate::text::{push_all, str_bytes};

verus! {

broadcast use vstd::seq::group_seq_axioms;

/// What to do with one tree entry: descend into a directory, or write a file
/// with the content of a blob.
#[derive(Debug)]
pub struct CheckoutStep {
    pub name: String,
    pub sha: String,
    pub is_dir: bool,
}

/// The tree a commit names.
pub fn commit_tree(obj: &ObjectKind) -> (r: Result<&String, GitError>)
    ensures
        match obj@ {
            ObjectView::Commit { tree, .. } => r matches Ok(t) && str_bytes(*t) == tree,
            _ => r matches Err(GitError::NotACommit),
        },
{
    match obj {
        ObjectKind::Commit { tree, .. } => Ok(tree),
        _ => Err(GitError::NotACommit),
    }
}

/// The content of a blob.
pub fn blob_data(obj: &ObjectKind) -> (r: Result<&Vec<u8>, GitError>)
    ensures
        match obj@ {
            ObjectView::Blob(d) => r matches Ok(v) && v@ == d,
            _ => r matches Err(GitError::ExpectedBlob),
        },
{
    match obj {
        ObjectKind::Blob(data) => Ok(data),
        _ => Err(GitError::ExpectedBlob),
    }
}

/// One step per entry of a tree, in the tree's order: its name, the id of
/// its object as hexadecimal text, and whether it is a directory.
pub fn tree_steps(obj: &ObjectKind) -> (r: Result<Vec<CheckoutStep>, GitError>)
    ensures
        match obj@ {
            ObjectView::Tree(es) => r matches Ok(steps) && steps@.len() == es.len() && forall|i: int|
                0 <= i < es.len() ==> {
                    &&& str_bytes(#[trigger] steps@[i].name) == es[i].name
                    &&& steps@[i].sha@ == hex_text(es[i].sha1)
                    &&& steps@[i].is_dir == (es[i].mode is Directory)
                },
            _ => r matches Err(GitError::ExpectedTree),
        },
{
    match obj {
        ObjectKind::Tree(entries) => {
            let ghost es = entries_view(entries@);
            let mut steps: Vec<CheckoutStep> = Vec::new();
            let mut i: usize = 0;
            while i < entries.len()
                invariant
                    i <= entries@.len(),
                    es == entries_view(entries@),
                    steps@.len() == i,
                    forall|j: int|
                        0 <= j < i ==> {
                            &&& str_bytes(#[trigger] steps@[j].name) == es[j].name
                            &&& steps@[j].sha@ == hex_text(es[j].sha1)
                            &&& steps@[j].is_dir == (es[j].mode is Directory)
                        },
                decreases entries.len() - i,
            {
                let e = &entries[i];
                let is_dir = match e.mode {
                    TreeEntryMode::Directory => true,
                    _ => false,
                };
                let step = CheckoutStep {
                    name: e.name.clone(),
                    sha: hex_encode(e.sha1.as_slice()),
                    is_dir,
                };
                assert(es[i as int] == entries@[i as int]@);
                let ghost before = steps@;
                steps.push(step);
                assert forall|j: int| 0 <= j < i + 1 implies {
                    &&& str_bytes(#[trigger] steps@[j].name) == es[j].name
                    &&& steps@[j].sha@ == hex_text(es[j].sha1)
                    &&& steps@[j].is_dir == (es[j].mode is Directory)
                } by {
                    if j < i {
                        assert(steps@[j] == before[j]);
                    }
                }
                i = i + 1;
            }
            assert(steps@.len() == es.len());
            assert(obj@ == ObjectView::Tree(es));
            let r: Result<Vec<CheckoutStep>, GitError> = Ok(steps);
            assert(r matches Ok(st) && st@.len() == es.len());
            r
        },
        _ => Err(GitError::ExpectedTree),
    }
}

/// `ref: <name>`, what HEAD holds after a checkout.
pub fn head_ref(ref_name: &str) -> (r: Vec<u8>)
    ensures
        r@ == seq![0x72u8, 0x65, 0x66, 0x3a, 0x20] + ref_name.spec_bytes(),
{
    let mut out: Vec<u8> = Vec::new();
    let prefix: [u8; 5] = [0x72, 0x65, 0x66, 0x3a, 0x20];
    push_all(&mut out, prefix.as_slice());
    push_all(&mut out, ref_name.as_bytes());
    assert(out@ =~= seq![0x72u8, 0x65, 0x66, 0x3a, 0x20] + ref_name.spec_bytes());
    out
}

} // verus!
