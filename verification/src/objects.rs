//! Reading objects from their loose form: the header, then a blob, tree or
//! commit body.
use vstd::prelude::*;
use vstd::string::*;
use vstd::utf8::*;

use crate::codec::{zlib_decoded, zlib_inflate};
use crate::encode::{blob_tag, commit_tag, tree_tag};
use crate::error::GitError;
use crate::kind::{
    entries_view, mode_from_bytes, mode_from_slice, parse_person, parse_person_spec,
    person_result_view, strs_view, CommitPerson, EntryView, ObjectKind, ObjectView, PersonView,
    TreeEntry,
};
use crate::text::{
    bytes_equal, find_byte, first_index, has_prefix, lemma_first_index_facts,
    lemma_valid_utf8_drop_ascii, lemma_valid_utf8_split, push_all, split_once_byte, starts_with,
    str_bytes, valid_to_string,
};

verus! {

broadcast use {vstd::seq::group_seq_axioms, vstd::utf8::encode_utf8_valid_utf8};

/// How reading an object ends: with the object, with an error, on an
/// unsupported type (its text given), or on a tree entry too short to read.
pub enum ParseOutcome {
    Parsed(ObjectView),
    Failed(GitError),
    Unsupported(Seq<u8>),
    Malformed,
}

/// `entries` followed by the entries of a parsed tree; other outcomes pass through.
pub open spec fn prepend_entries(entries: Seq<EntryView>, o: ParseOutcome) -> ParseOutcome {
    match o {
        ParseOutcome::Parsed(ObjectView::Tree(es)) => ParseOutcome::Parsed(
            ObjectView::Tree(entries + es),
        ),
        other => other,
    }
}

/// The entries of a tree body: `<mode> <name>\0` and 20 bytes of sha1, repeated.
pub open spec fn tree_spec(s: Seq<u8>) -> ParseOutcome
    decreases s.len(),
{
    if s.len() == 0 {
        ParseOutcome::Parsed(ObjectView::Tree(seq![]))
    } else {
        match first_index(s, 0x20) {
            None => ParseOutcome::Malformed,
            Some(i) => if !(0 <= i < s.len()) {
                ParseOutcome::Malformed
            } else {
                let mode = s.subrange(0, i);
                let rest = s.subrange(i + 1, s.len() as int);
                match first_index(rest, 0) {
                    None => ParseOutcome::Malformed,
                    Some(j) => if !(0 <= j < rest.len()) {
                        ParseOutcome::Malformed
                    } else {
                        let name = rest.subrange(0, j);
                        let rest2 = rest.subrange(j + 1, rest.len() as int);
                        if rest2.len() < 20 {
                            ParseOutcome::Malformed
                        } else if !valid_utf8(mode) || !valid_utf8(name) {
                            ParseOutcome::Failed(GitError::InvalidUtf8)
                        } else {
                            let entry = EntryView {
                                mode: mode_from_bytes(mode),
                                name,
                                sha1: rest2.subrange(0, 20),
                            };
                            prepend_entries(
                                seq![entry],
                                tree_spec(rest2.subrange(20, rest2.len() as int)),
                            )
                        }
                    },
                }
            },
        }
    }
}

/// What has been read of a commit so far.
pub struct CommitState {
    pub is_message: bool,
    pub tree: Option<Seq<u8>>,
    pub parents: Seq<Seq<u8>>,
    pub author: Option<PersonView>,
    pub committer: Option<PersonView>,
    pub message: Seq<u8>,
}

/// A line without a carriage return before its newline.
pub open spec fn strip_cr(l: Seq<u8>) -> Seq<u8> {
    if l.len() > 0 && l.last() == 0x0d {
        l.drop_last()
    } else {
        l
    }
}

/// `tree `
pub open spec fn tree_kw() -> Seq<u8> {
    seq![0x74u8, 0x72, 0x65, 0x65, 0x20]
}

/// `parent `
pub open spec fn parent_kw() -> Seq<u8> {
    seq![0x70u8, 0x61, 0x72, 0x65, 0x6e, 0x74, 0x20]
}

/// `author `
pub open spec fn author_kw() -> Seq<u8> {
    seq![0x61u8, 0x75, 0x74, 0x68, 0x6f, 0x72, 0x20]
}

/// `committer `
pub open spec fn committer_kw() -> Seq<u8> {
    seq![0x63u8, 0x6f, 0x6d, 0x6d, 0x69, 0x74, 0x74, 0x65, 0x72, 0x20]
}

pub open spec fn after(line: Seq<u8>, kw: Seq<u8>) -> Seq<u8> {
    line.subrange(kw.len() as int, line.len() as int)
}

/// Reading one line of a commit. Header lines set the tree, add a parent,
/// or set the author or committer; the first empty line starts the message,
/// whose lines are joined without separators.
pub open spec fn commit_step(st: CommitState, line: Seq<u8>) -> Result<CommitState, GitError> {
    if st.is_message {
        Ok(CommitState { message: st.message + line, ..st })
    } else {
        let st1 = if starts_with(line, tree_kw()) {
            CommitState { tree: Some(after(line, tree_kw())), ..st }
        } else {
            st
        };
        let st2 = if starts_with(line, parent_kw()) {
            CommitState { parents: st1.parents.push(after(line, parent_kw())), ..st1 }
        } else {
            st1
        };
        let r3 = if starts_with(line, author_kw()) {
            match parse_person_spec(after(line, author_kw())) {
                Ok(p) => Ok(CommitState { author: Some(p), ..st2 }),
                Err(e) => Err(e),
            }
        } else {
            Ok(st2)
        };
        match r3 {
            Err(e) => Err(e),
            Ok(st3) => if starts_with(line, committer_kw()) {
                match parse_person_spec(after(line, committer_kw())) {
                    Ok(p) => Ok(CommitState { committer: Some(p), ..st3 }),
                    Err(e) => Err(e),
                }
            } else if line.len() == 0 {
                Ok(CommitState { is_message: true, ..st3 })
            } else {
                Ok(st3)
            },
        }
    }
}

/// Reads the lines of `s` (as `str::lines` splits them) from state `st`.
pub open spec fn commit_scan(s: Seq<u8>, st: CommitState) -> Result<CommitState, GitError>
    decreases s.len(),
{
    if s.len() == 0 {
        Ok(st)
    } else {
        match first_index(s, 0x0a) {
            Some(i) => if 0 <= i < s.len() {
                match commit_step(st, strip_cr(s.subrange(0, i))) {
                    Ok(st2) => commit_scan(s.subrange(i + 1, s.len() as int), st2),
                    Err(e) => Err(e),
                }
            } else {
                Ok(st)
            },
            None => commit_step(st, s),
        }
    }
}

pub open spec fn commit_start() -> CommitState {
    CommitState {
        is_message: false,
        tree: None,
        parents: seq![],
        author: None,
        committer: None,
        message: seq![],
    }
}

/// The commit a commit body describes.
pub open spec fn commit_spec(content: Seq<u8>) -> ParseOutcome {
    if !valid_utf8(content) {
        ParseOutcome::Failed(GitError::InvalidUtf8)
    } else {
        match commit_scan(content, commit_start()) {
            Err(e) => ParseOutcome::Failed(e),
            Ok(st) => match st.tree {
                None => ParseOutcome::Failed(GitError::MissingTree),
                Some(tree) => match st.author {
                    None => ParseOutcome::Failed(GitError::MissingAuthor),
                    Some(author) => match st.committer {
                        None => ParseOutcome::Failed(GitError::MissingCommitter),
                        Some(committer) => ParseOutcome::Parsed(
                            ObjectView::Commit {
                                tree,
                                parents: st.parents,
                                author,
                                committer,
                                message: st.message,
                            },
                        ),
                    },
                },
            },
        }
    }
}

/// The object a body of the given type describes.
pub open spec fn parse_body_spec(obj_type: Seq<u8>, content: Seq<u8>) -> ParseOutcome {
    if obj_type == blob_tag() {
        ParseOutcome::Parsed(ObjectView::Blob(content))
    } else if obj_type == tree_tag() {
        tree_spec(content)
    } else if obj_type == commit_tag() {
        commit_spec(content)
    } else {
        ParseOutcome::Unsupported(obj_type)
    }
}

/// The object a loose object (`<type> <size>\0<body>`) describes. The size
/// is not checked.
pub open spec fn parse_object_spec(bytes: Seq<u8>) -> ParseOutcome {
    match first_index(bytes, 0) {
        None => ParseOutcome::Failed(GitError::MissingNul),
        Some(nul) => {
            let header = bytes.subrange(0, nul);
            let content = bytes.subrange(nul + 1, bytes.len() as int);
            match first_index(header, 0x20) {
                None => ParseOutcome::Failed(GitError::MalformedHeader),
                Some(sp) => {
                    let obj_type = header.subrange(0, sp);
                    if !valid_utf8(obj_type) {
                        ParseOutcome::Failed(GitError::InvalidUtf8)
                    } else {
                        parse_body_spec(obj_type, content)
                    }
                },
            }
        },
    }
}

/// Whether a result is the one an outcome describes (`None` for a malformed tree).
pub open spec fn outcome_matches(o: ParseOutcome, r: Option<Result<ObjectKind, GitError>>) -> bool {
    match o {
        ParseOutcome::Parsed(v) => r matches Some(Ok(k)) && k@ == v,
        ParseOutcome::Failed(e) => r == Some(Err::<ObjectKind, GitError>(e)),
        ParseOutcome::Unsupported(t) => r matches Some(Err(GitError::UnsupportedObjectType(s)))
            && str_bytes(s) == t,
        ParseOutcome::Malformed => r is None,
    }
}

proof fn lemma_valid_after_ascii(line: Seq<u8>, k: int)
    requires
        valid_utf8(line),
        0 <= k <= line.len(),
        forall|i: int| 0 <= i < k ==> #[trigger] line[i] < 0x80,
    ensures
        valid_utf8(line.subrange(k, line.len() as int)),
    decreases k,
{
    if k == 0 {
        assert(line.subrange(0, line.len() as int) =~= line);
    } else {
        lemma_valid_after_ascii(line, k - 1);
        let t = line.subrange(k - 1, line.len() as int);
        lemma_valid_utf8_drop_ascii(t);
        assert(t.subrange(1, t.len() as int) =~= line.subrange(k, line.len() as int));
    }
}

/// Reads the entries of a tree body; `None` where an entry is cut short.
fn parse_tree(content: &[u8]) -> (r: Option<Result<ObjectKind, GitError>>)
    ensures
        outcome_matches(tree_spec(content@), r),
{
    let mut entries: Vec<TreeEntry> = Vec::new();
    let mut left: &[u8] = content;
    assert(entries_view(entries@) =~= Seq::<EntryView>::empty());
    assert(prepend_entries(Seq::<EntryView>::empty(), tree_spec(content@)) == tree_spec(
        content@,
    )) by {
        if let ParseOutcome::Parsed(ObjectView::Tree(es)) = tree_spec(content@) {
            assert(Seq::<EntryView>::empty() + es =~= es);
        }
    }
    loop
        invariant
            tree_spec(content@) == prepend_entries(entries_view(entries@), tree_spec(left@)),
        decreases left.len(),
    {
        let ghost pre = entries_view(entries@);
        if left.len() == 0 {
            assert(pre + Seq::<EntryView>::empty() =~= pre);
            return Some(Ok(ObjectKind::Tree(entries)));
        }
        proof {
            lemma_first_index_facts(left@, 0x20);
        }
        let (mode, rest) = match split_once_byte(left, 0x20) {
            Some(p) => p,
            None => return None,
        };
        proof {
            lemma_first_index_facts(rest@, 0);
        }
        let (name, rest2) = match split_once_byte(rest, 0) {
            Some(p) => p,
            None => return None,
        };
        if rest2.len() < 20 {
            return None;
        }
        if crate::text::bytes_to_string(mode).is_none() {
            return Some(Err(GitError::InvalidUtf8));
        }
        let name_s = match crate::text::bytes_to_string(name) {
            Some(s) => s,
            None => return Some(Err(GitError::InvalidUtf8)),
        };
        let sha1 = vstd::slice::slice_to_vec(&rest2[0..20]);
        let entry = TreeEntry { mode: mode_from_slice(mode), name: name_s, sha1 };
        let ghost e = entry@;
        entries.push(entry);
        let ghost old_left = left@;
        left = &rest2[20..rest2.len()];
        proof {
            assert(entries_view(entries@) =~= pre.push(e));
            let o = tree_spec(left@);
            assert(tree_spec(old_left) == prepend_entries(seq![e], o));
            if let ParseOutcome::Parsed(ObjectView::Tree(es)) = o {
                assert(pre + (seq![e] + es) =~= pre.push(e) + es);
            }
        }
    }
}

/// What the exec state of a commit read holds.
struct CommitReader {
    is_message: bool,
    tree: Option<String>,
    parents: Vec<String>,
    author: Option<CommitPerson>,
    committer: Option<CommitPerson>,
    message: Vec<u8>,
}

impl View for CommitReader {
    type V = CommitState;

    closed spec fn view(&self) -> CommitState {
        CommitState {
            is_message: self.is_message,
            tree: match self.tree {
                Some(t) => Some(str_bytes(t)),
                None => None,
            },
            parents: strs_view(self.parents@),
            author: match self.author {
                Some(p) => Some(p@),
                None => None,
            },
            committer: match self.committer {
                Some(p) => Some(p@),
                None => None,
            },
            message: self.message@,
        }
    }
}

/// Reads one line of a commit into `st`.
fn commit_line(st: &mut CommitReader, line: &[u8]) -> (r: Result<(), GitError>)
    requires
        valid_utf8(line@),
        valid_utf8(old(st).message@),
    ensures
        valid_utf8(final(st).message@),
        match commit_step(old(st)@, line@) {
            Ok(s2) => r is Ok && final(st)@ == s2,
            Err(e) => r == Err::<(), GitError>(e),
        },
{
    if st.is_message {
        proof {
            valid_utf8_concat(st.message@, line@);
        }
        push_all(&mut st.message, line);
        return Ok(());
    }
    let tree_w: [u8; 5] = [0x74, 0x72, 0x65, 0x65, 0x20];
    let parent_w: [u8; 7] = [0x70, 0x61, 0x72, 0x65, 0x6e, 0x74, 0x20];
    let author_w: [u8; 7] = [0x61, 0x75, 0x74, 0x68, 0x6f, 0x72, 0x20];
    let committer_w: [u8; 10] = [0x63, 0x6f, 0x6d, 0x6d, 0x69, 0x74, 0x74, 0x65, 0x72, 0x20];
    assert(tree_w@ =~= tree_kw());
    assert(parent_w@ =~= parent_kw());
    assert(author_w@ =~= author_kw());
    assert(committer_w@ =~= committer_kw());
    if has_prefix(line, tree_w.as_slice()) {
        proof {
            lemma_valid_after_ascii(line@, 5);
        }
        st.tree = Some(valid_to_string(&line[5..line.len()]));
    }
    if has_prefix(line, parent_w.as_slice()) {
        proof {
            lemma_valid_after_ascii(line@, 7);
        }
        let ghost before = strs_view(st.parents@);
        st.parents.push(valid_to_string(&line[7..line.len()]));
        assert(strs_view(st.parents@) =~= before.push(after(line@, parent_kw())));
    }
    if has_prefix(line, author_w.as_slice()) {
        proof {
            lemma_valid_after_ascii(line@, 7);
        }
        match parse_person(&line[7..line.len()]) {
            Ok(p) => {
                st.author = Some(p);
            },
            Err(e) => {
                return Err(e);
            },
        }
    }
    if has_prefix(line, committer_w.as_slice()) {
        proof {
            lemma_valid_after_ascii(line@, 10);
        }
        match parse_person(&line[10..line.len()]) {
            Ok(p) => {
                st.committer = Some(p);
            },
            Err(e) => {
                return Err(e);
            },
        }
    } else if line.len() == 0 {
        st.is_message = true;
    }
    Ok(())
}

/// Reads the first line of `left` into `st` and gives what follows it.
fn commit_next_line<'a>(st: &mut CommitReader, left: &'a [u8]) -> (r: Result<&'a [u8], GitError>)
    requires
        left@.len() > 0,
        valid_utf8(left@),
        valid_utf8(old(st).message@),
    ensures
        match r {
            Ok(rest) => {
                &&& valid_utf8(rest@)
                &&& valid_utf8(final(st).message@)
                &&& rest@.len() < left@.len()
                &&& commit_scan(left@, old(st)@) == commit_scan(rest@, final(st)@)
            },
            Err(e) => commit_scan(left@, old(st)@) == Err::<CommitState, GitError>(e),
        },
{
    proof {
        lemma_first_index_facts(left@, 0x0a);
    }
    match find_byte(left, 0x0a) {
        Some(i) => {
            proof {
                lemma_valid_utf8_split(left@, i as int);
                let tail = left@.subrange(i as int, left@.len() as int);
                lemma_valid_utf8_drop_ascii(tail);
                assert(tail.subrange(1, tail.len() as int) =~= left@.subrange(
                    i + 1,
                    left@.len() as int,
                ));
            }
            let mut end = i;
            if end > 0 && left[end - 1] == 0x0d {
                end = end - 1;
                proof {
                    let l = left@.subrange(0, i as int);
                    lemma_valid_utf8_split(l, end as int);
                    assert(l.drop_last() =~= left@.subrange(0, end as int));
                }
            }
            assert(left@.subrange(0, end as int) == strip_cr(left@.subrange(0, i as int)));
            match commit_line(st, &left[0..end]) {
                Ok(()) => Ok(&left[i + 1..left.len()]),
                Err(e) => Err(e),
            }
        },
        None => {
            match commit_line(st, left) {
                Ok(()) => {
                    let rest = &left[left.len()..left.len()];
                    assert(rest@ =~= Seq::<u8>::empty());
                    Ok(rest)
                },
                Err(e) => Err(e),
            }
        },
    }
}

/// Reads a commit body.
fn parse_commit(content: &[u8]) -> (r: Result<ObjectKind, GitError>)
    ensures
        outcome_matches(commit_spec(content@), Some(r)),
{
    if crate::text::bytes_to_string(content).is_none() {
        return Err(GitError::InvalidUtf8);
    }
    let mut st = CommitReader {
        is_message: false,
        tree: None,
        parents: Vec::new(),
        author: None,
        committer: None,
        message: Vec::new(),
    };
    assert(st@ =~= commit_start()) by {
        assert(strs_view(st.parents@) =~= Seq::<Seq<u8>>::empty());
        assert(st.message@ =~= Seq::<u8>::empty());
    }
    proof {
        lemma_ascii_empty_valid();
    }
    let mut left: &[u8] = content;
    while left.len() > 0
        invariant
            valid_utf8(content@),
            valid_utf8(left@),
            valid_utf8(st.message@),
            commit_scan(content@, commit_start()) == commit_scan(left@, st@),
        decreases left.len(),
    {
        left = match commit_next_line(&mut st, left) {
            Ok(rest) => rest,
            Err(e) => return Err(e),
        };
    }
    assert(commit_scan(left@, st@) == Ok::<CommitState, GitError>(st@));
    let ghost fin = st@;
    let tree = match st.tree {
        Some(t) => t,
        None => return Err(GitError::MissingTree),
    };
    let author = match st.author {
        Some(a) => a,
        None => return Err(GitError::MissingAuthor),
    };
    let committer = match st.committer {
        Some(c) => c,
        None => return Err(GitError::MissingCommitter),
    };
    let message = valid_to_string(st.message.as_slice());
    let r = ObjectKind::Commit { tree, parents: st.parents, author, committer, message };
    assert(r@ == ObjectView::Commit {
        tree: fin.tree.unwrap(),
        parents: fin.parents,
        author: fin.author.unwrap(),
        committer: fin.committer.unwrap(),
        message: fin.message,
    });
    Ok(r)
}

proof fn lemma_ascii_empty_valid()
    ensures
        valid_utf8(Seq::<u8>::empty()),
{
}

/// Reads an object body of the given type; `None` where a tree entry is cut short.
pub fn try_parse_body(obj_type: &str, content: &[u8]) -> (r: Option<Result<ObjectKind, GitError>>)
    ensures
        outcome_matches(parse_body_spec(obj_type.spec_bytes(), content@), r),
{
    let t = obj_type.as_bytes();
    let blob: [u8; 4] = [0x62, 0x6c, 0x6f, 0x62];
    let tree: [u8; 4] = [0x74, 0x72, 0x65, 0x65];
    let commit: [u8; 6] = [0x63, 0x6f, 0x6d, 0x6d, 0x69, 0x74];
    assert(blob@ =~= blob_tag());
    assert(tree@ =~= tree_tag());
    assert(commit@ =~= commit_tag());
    if bytes_equal(t, blob.as_slice()) {
        Some(Ok(ObjectKind::Blob(vstd::slice::slice_to_vec(content))))
    } else if bytes_equal(t, tree.as_slice()) {
        parse_tree(content)
    } else if bytes_equal(t, commit.as_slice()) {
        Some(parse_commit(content))
    } else {
        Some(Err(GitError::UnsupportedObjectType(obj_type.to_owned())))
    }
}

/// Reads an object body when its type is known (as in a pack entry).
pub fn parse_body(obj_type: &str, content: &[u8]) -> (r: Result<ObjectKind, GitError>)
    requires
        !(parse_body_spec(obj_type.spec_bytes(), content@) is Malformed),
    ensures
        outcome_matches(parse_body_spec(obj_type.spec_bytes(), content@), Some(r)),
{
    match try_parse_body(obj_type, content) {
        Some(r) => r,
        None => {
            assert(false);
            Err(GitError::InvalidUtf8)
        },
    }
}

/// Reads a loose object; `None` where a tree entry is cut short.
pub fn try_parse_object(bytes: &[u8]) -> (r: Option<Result<ObjectKind, GitError>>)
    ensures
        outcome_matches(parse_object_spec(bytes@), r),
{
    proof {
        lemma_first_index_facts(bytes@, 0);
    }
    let nul = match find_byte(bytes, 0) {
        Some(n) => n,
        None => return Some(Err(GitError::MissingNul)),
    };
    let header = &bytes[0..nul];
    let content = &bytes[nul + 1..bytes.len()];
    proof {
        lemma_first_index_facts(header@, 0x20);
    }
    let (obj_type, _size) = match split_once_byte(header, 0x20) {
        Some(p) => p,
        None => return Some(Err(GitError::MalformedHeader)),
    };
    match crate::text::utf8_text(obj_type) {
        Some(t) => try_parse_body(t, content),
        None => Some(Err(GitError::InvalidUtf8)),
    }
}

/// Reads a loose object: `<type> <size>\0` and the body.
pub fn parse_object(bytes: &[u8]) -> (r: Result<ObjectKind, GitError>)
    requires
        !(parse_object_spec(bytes@) is Malformed),
    ensures
        outcome_matches(parse_object_spec(bytes@), Some(r)),
{
    match try_parse_object(bytes) {
        Some(r) => r,
        None => {
            assert(false);
            Err(GitError::InvalidUtf8)
        },
    }
}

/// The bytes that the zlib stream at the start of `data` holds.
pub fn zlib_decompress(data: &[u8]) -> (r: Result<Vec<u8>, GitError>)
    ensures
        match r {
            Ok(out) => zlib_decoded(data@) == Some(out@),
            Err(e) => zlib_decoded(data@) is None && e is Inflate,
        },
{
    match zlib_inflate(data) {
        Some((out, _)) => Ok(out),
        None => Err(GitError::Inflate),
    }
}

/// Reads a stored (compressed) loose object; `None` where a tree entry is cut short.
pub fn decode_object(stored: &[u8]) -> (r: Option<Result<ObjectKind, GitError>>)
    ensures
        match zlib_decoded(stored@) {
            Some(bytes) => outcome_matches(parse_object_spec(bytes), r),
            None => r == Some(Err::<ObjectKind, GitError>(GitError::Inflate)),
        },
{
    match zlib_decompress(stored) {
        Ok(bytes) => try_parse_object(bytes.as_slice()),
        Err(e) => Some(Err(e)),
    }
}


/// In a commit's header, only the first empty line starts the message: an
/// empty line switches to the message, a line that is not empty never does
/// and leaves the message as it was, and a header line git's reader does
/// not know (such as `gpgsig` or `encoding`) changes nothing at all.
pub proof fn law_commit_header_lines(st: CommitState, line: Seq<u8>)
    requires
        !st.is_message,
    ensures
        line.len() == 0 ==> commit_step(st, line) == Ok::<CommitState, GitError>(
            CommitState { is_message: true, ..st },
        ),
        line.len() > 0 ==> (commit_step(st, line) matches Ok(st2) ==> !st2.is_message
            && st2.message == st.message),
        line.len() > 0 && !starts_with(line, tree_kw()) && !starts_with(line, parent_kw())
            && !starts_with(line, author_kw()) && !starts_with(line, committer_kw())
            ==> commit_step(st, line) == Ok::<CommitState, GitError>(st),
{
    if line.len() == 0 {
        assert(!starts_with(line, tree_kw()));
        assert(!starts_with(line, parent_kw()));
        assert(!starts_with(line, author_kw()));
        assert(!starts_with(line, committer_kw()));
    }
}

} // verus!
