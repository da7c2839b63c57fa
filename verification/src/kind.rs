//! The kinds of git objects and their parts: tree entry modes, tree entries,
//! the people named in commits.
use vstd::prelude::*;
use vstd::string::*;
use vstd::utf8::*;

use crate::error::GitError;
use crate::text::{
    ascii_to_string, bytes_to_string, lemma_first_index_facts, lemma_valid_utf8_drop_ascii,
    lemma_valid_utf8_split, next_token, push_all, split_once_byte, split_once_spec, str_bytes,
    string_to_bytes, token_bounds, trim, trim_bounds, valid_to_string,
};

verus! {

broadcast use {vstd::seq::group_seq_axioms, vstd::utf8::encode_utf8_valid_utf8};

/// The mode of a tree entry.
#[derive(Debug)]
pub enum TreeEntryMode {
    RegularFile,
    ExecutableFile,
    Directory,
    Unsupported(String),
}

/// One entry of a tree object.
#[derive(Debug)]
pub struct TreeEntry {
    pub mode: TreeEntryMode,
    pub name: String,
    pub sha1: Vec<u8>,
}

/// An author or committer line: `<name> <<email>> <timestamp> <timezone>`.
#[derive(Debug)]
pub struct CommitPerson {
    pub name: String,
    pub email: String,
    pub timestamp: String,
    pub timezone: String,
}

/// A git object.
#[derive(Debug)]
pub enum ObjectKind {
    Blob(Vec<u8>),
    Tree(Vec<TreeEntry>),
    Commit {
        tree: String,
        parents: Vec<String>,
        author: CommitPerson,
        committer: CommitPerson,
        message: String,
    },
}

/// A mode, with the text of an unsupported one as bytes.
pub enum ModeView {
    RegularFile,
    ExecutableFile,
    Directory,
    Unsupported(Seq<u8>),
}

/// A tree entry with its texts as bytes.
pub struct EntryView {
    pub mode: ModeView,
    pub name: Seq<u8>,
    pub sha1: Seq<u8>,
}

/// A person with its texts as bytes.
pub struct PersonView {
    pub name: Seq<u8>,
    pub email: Seq<u8>,
    pub timestamp: Seq<u8>,
    pub timezone: Seq<u8>,
}

/// An object with its texts as bytes.
pub enum ObjectView {
    Blob(Seq<u8>),
    Tree(Seq<EntryView>),
    Commit {
        tree: Seq<u8>,
        parents: Seq<Seq<u8>>,
        author: PersonView,
        committer: PersonView,
        message: Seq<u8>,
    },
}

impl View for TreeEntryMode {
    type V = ModeView;

    open spec fn view(&self) -> ModeView {
        match self {
            TreeEntryMode::RegularFile => ModeView::RegularFile,
            TreeEntryMode::ExecutableFile => ModeView::ExecutableFile,
            TreeEntryMode::Directory => ModeView::Directory,
            TreeEntryMode::Unsupported(s) => ModeView::Unsupported(str_bytes(*s)),
        }
    }
}

impl View for TreeEntry {
    type V = EntryView;

    open spec fn view(&self) -> EntryView {
        EntryView { mode: self.mode@, name: str_bytes(self.name), sha1: self.sha1@ }
    }
}

impl View for CommitPerson {
    type V = PersonView;

    open spec fn view(&self) -> PersonView {
        PersonView {
            name: str_bytes(self.name),
            email: str_bytes(self.email),
            timestamp: str_bytes(self.timestamp),
            timezone: str_bytes(self.timezone),
        }
    }
}

pub open spec fn entries_view(v: Seq<TreeEntry>) -> Seq<EntryView> {
    Seq::new(v.len(), |i: int| v[i]@)
}

pub open spec fn strs_view(v: Seq<String>) -> Seq<Seq<u8>> {
    Seq::new(v.len(), |i: int| str_bytes(v[i]))
}

impl View for ObjectKind {
    type V = ObjectView;

    open spec fn view(&self) -> ObjectView {
        match self {
            ObjectKind::Blob(d) => ObjectView::Blob(d@),
            ObjectKind::Tree(es) => ObjectView::Tree(entries_view(es@)),
            ObjectKind::Commit { tree, parents, author, committer, message } => ObjectView::Commit {
                tree: str_bytes(*tree),
                parents: strs_view(parents@),
                author: author@,
                committer: committer@,
                message: str_bytes(*message),
            },
        }
    }
}

/// `100644`
pub open spec fn regular_code() -> Seq<u8> {
    seq![0x31u8, 0x30, 0x30, 0x36, 0x34, 0x34]
}

/// `100755`
pub open spec fn executable_code() -> Seq<u8> {
    seq![0x31u8, 0x30, 0x30, 0x37, 0x35, 0x35]
}

/// `40000`
pub open spec fn directory_code() -> Seq<u8> {
    seq![0x34u8, 0x30, 0x30, 0x30, 0x30]
}

/// The mode that the text `m` names.
pub open spec fn mode_from_bytes(m: Seq<u8>) -> ModeView {
    if m == regular_code() {
        ModeView::RegularFile
    } else if m == executable_code() {
        ModeView::ExecutableFile
    } else if m == directory_code() {
        ModeView::Directory
    } else {
        ModeView::Unsupported(m)
    }
}

/// The text of a mode.
pub open spec fn mode_bytes(m: ModeView) -> Seq<u8> {
    match m {
        ModeView::RegularFile => regular_code(),
        ModeView::ExecutableFile => executable_code(),
        ModeView::Directory => directory_code(),
        ModeView::Unsupported(s) => s,
    }
}

/// `name <email> timestamp timezone`
pub open spec fn person_bytes(p: PersonView) -> Seq<u8> {
    p.name + seq![0x20u8, 0x3c] + p.email + seq![0x3eu8, 0x20] + p.timestamp + seq![0x20u8]
        + p.timezone
}

/// What `CommitPerson::parse` makes of a person line.
pub open spec fn parse_person_spec(b: Seq<u8>) -> Result<PersonView, GitError> {
    match split_once_spec(b, 0x3c) {
        None => Err(GitError::MissingLt),
        Some((name, rest)) => match split_once_spec(rest, 0x3e) {
            None => Err(GitError::MissingGt),
            Some((email, rest2)) => match next_token(rest2) {
                None => Err(GitError::MissingTimestamp),
                Some((timestamp, rest3)) => match next_token(rest3) {
                    None => Err(GitError::MissingTimezone),
                    Some((timezone, _)) => Ok(
                        PersonView { name: trim(name), email, timestamp, timezone },
                    ),
                },
            },
        },
    }
}

pub open spec fn person_result_view(r: Result<CommitPerson, GitError>) -> Result<
    PersonView,
    GitError,
> {
    match r {
        Ok(p) => Ok(p@),
        Err(e) => Err(e),
    }
}

/// Reads a person line given as valid UTF-8 bytes.
pub fn parse_person(b: &[u8]) -> (r: Result<CommitPerson, GitError>)
    requires
        valid_utf8(b@),
    ensures
        person_result_view(r) == parse_person_spec(b@),
{
    proof {
        lemma_first_index_facts(b@, 0x3c);
    }
    let (name, rest) = match split_once_byte(b, 0x3c) {
        Some(p) => p,
        None => return Err(GitError::MissingLt),
    };
    let ghost i = crate::text::first_index(b@, 0x3c).unwrap();
    proof {
        lemma_valid_utf8_split(b@, i);
        assert(b@.subrange(0, i) =~= name@);
        let tail = b@.subrange(i, b@.len() as int);
        lemma_valid_utf8_drop_ascii(tail);
        assert(tail.subrange(1, tail.len() as int) =~= rest@);
        lemma_first_index_facts(rest@, 0x3e);
    }
    let (email, rest2) = match split_once_byte(rest, 0x3e) {
        Some(p) => p,
        None => return Err(GitError::MissingGt),
    };
    let ghost j = crate::text::first_index(rest@, 0x3e).unwrap();
    proof {
        lemma_valid_utf8_split(rest@, j);
        assert(rest@.subrange(0, j) =~= email@);
        let tail = rest@.subrange(j, rest@.len() as int);
        lemma_valid_utf8_drop_ascii(tail);
        assert(tail.subrange(1, tail.len() as int) =~= rest2@);
        assert(rest2@.subrange(0, rest2@.len() as int) =~= rest2@);
    }
    let (a, e) = match token_bounds(rest2, 0) {
        Some(p) => p,
        None => return Err(GitError::MissingTimestamp),
    };
    let (c, d) = match token_bounds(rest2, e) {
        Some(p) => p,
        None => return Err(GitError::MissingTimezone),
    };
    let (n0, n1) = trim_bounds(name);
    let person = CommitPerson {
        name: valid_to_string(&name[n0..n1]),
        email: valid_to_string(email),
        timestamp: valid_to_string(&rest2[a..e]),
        timezone: valid_to_string(&rest2[c..d]),
    };
    Ok(person)
}

impl CommitPerson {
    /// A fixed example person.
    pub fn demo() -> (r: Self)
        ensures
            r@ == (PersonView {
                name: seq![0x4au8, 0x6f, 0x68, 0x6e, 0x20, 0x44, 0x6f, 0x65],
                email: seq![
                    0x6au8, 0x6f, 0x68, 0x6e, 0x40, 0x65, 0x78, 0x61, 0x6d, 0x70, 0x6c, 0x65, 0x2e,
                    0x63, 0x6f, 0x6d,
                ],
                timestamp: seq![0x31u8, 0x32, 0x33, 0x34, 0x35, 0x36, 0x37, 0x38, 0x39, 0x30],
                timezone: seq![0x2bu8, 0x30, 0x30, 0x30, 0x30],
            }),
    {
        let name: [u8; 8] = [0x4a, 0x6f, 0x68, 0x6e, 0x20, 0x44, 0x6f, 0x65];
        let email: [u8; 16] = [
            0x6a, 0x6f, 0x68, 0x6e, 0x40, 0x65, 0x78, 0x61, 0x6d, 0x70, 0x6c, 0x65, 0x2e, 0x63,
            0x6f, 0x6d,
        ];
        let timestamp: [u8; 10] = [0x31, 0x32, 0x33, 0x34, 0x35, 0x36, 0x37, 0x38, 0x39, 0x30];
        let timezone: [u8; 5] = [0x2b, 0x30, 0x30, 0x30, 0x30];
        let r = CommitPerson {
            name: ascii_to_string(name.as_slice()),
            email: ascii_to_string(email.as_slice()),
            timestamp: ascii_to_string(timestamp.as_slice()),
            timezone: ascii_to_string(timezone.as_slice()),
        };
        assert(r@.name =~= seq![0x4au8, 0x6f, 0x68, 0x6e, 0x20, 0x44, 0x6f, 0x65]);
        assert(r@.email =~= seq![
            0x6au8, 0x6f, 0x68, 0x6e, 0x40, 0x65, 0x78, 0x61, 0x6d, 0x70, 0x6c, 0x65, 0x2e, 0x63,
            0x6f, 0x6d,
        ]);
        assert(r@.timestamp =~= seq![
            0x31u8, 0x32, 0x33, 0x34, 0x35, 0x36, 0x37, 0x38, 0x39, 0x30,
        ]);
        assert(r@.timezone =~= seq![0x2bu8, 0x30, 0x30, 0x30, 0x30]);
        r
    }

    /// Reads `<name> <<email>> <timestamp> <timezone>`. The name may hold
    /// spaces: it is whatever precedes the `<`, trimmed.
    pub fn parse(input: &str) -> (r: Result<Self, GitError>)
        ensures
            person_result_view(r) == parse_person_spec(input.spec_bytes()),
    {
        parse_person(input.as_bytes())
    }

    /// The bytes of `to_str`.
    pub fn to_bytes(&self) -> (r: Vec<u8>)
        ensures
            r@ == person_bytes(self@),
    {
        let mut out = string_to_bytes(&self.name);
        out.push(0x20);
        out.push(0x3c);
        push_all(&mut out, string_to_bytes(&self.email).as_slice());
        out.push(0x3e);
        out.push(0x20);
        push_all(&mut out, string_to_bytes(&self.timestamp).as_slice());
        out.push(0x20);
        push_all(&mut out, string_to_bytes(&self.timezone).as_slice());
        assert(out@ =~= person_bytes(self@));
        out
    }

    /// `name <email> timestamp timezone`
    pub fn to_str(&self) -> (r: String)
        ensures
            str_bytes(r) == person_bytes(self@),
    {
        let out = self.to_bytes();
        proof {
            let p = self@;
            lemma_ascii_valid(seq![0x20u8, 0x3c]);
            lemma_ascii_valid(seq![0x3eu8, 0x20]);
            lemma_ascii_valid(seq![0x20u8]);
            valid_utf8_concat(p.name, seq![0x20u8, 0x3c]);
            valid_utf8_concat(p.name + seq![0x20u8, 0x3c], p.email);
            valid_utf8_concat(p.name + seq![0x20u8, 0x3c] + p.email, seq![0x3eu8, 0x20]);
            valid_utf8_concat(
                p.name + seq![0x20u8, 0x3c] + p.email + seq![0x3eu8, 0x20],
                p.timestamp,
            );
            valid_utf8_concat(
                p.name + seq![0x20u8, 0x3c] + p.email + seq![0x3eu8, 0x20] + p.timestamp,
                seq![0x20u8],
            );
            valid_utf8_concat(
                p.name + seq![0x20u8, 0x3c] + p.email + seq![0x3eu8, 0x20] + p.timestamp + seq![
                    0x20u8,
                ],
                p.timezone,
            );
        }
        valid_to_string(out.as_slice())
    }
}

proof fn lemma_ascii_valid(s: Seq<u8>)
    requires
        forall|i: int| 0 <= i < s.len() ==> s[i] < 0x80,
    ensures
        valid_utf8(s),
{
    crate::text::lemma_ascii_valid_utf8(s);
}

impl TreeEntryMode {
    /// The mode that a mode text names; any other text is kept as unsupported.
    pub fn from_mode(mode: &str) -> (r: Self)
        ensures
            r@ == mode_from_bytes(mode.spec_bytes()),
    {
        mode_from_slice(mode.as_bytes())
    }

    /// The text of the mode.
    pub fn to_mode(&self) -> (r: String)
        ensures
            str_bytes(r) == mode_bytes(self@),
    {
        match self {
            TreeEntryMode::RegularFile => {
                let b: [u8; 6] = [0x31, 0x30, 0x30, 0x36, 0x34, 0x34];
                assert(b@ =~= regular_code());
                ascii_to_string(b.as_slice())
            },
            TreeEntryMode::ExecutableFile => {
                let b: [u8; 6] = [0x31, 0x30, 0x30, 0x37, 0x35, 0x35];
                assert(b@ =~= executable_code());
                ascii_to_string(b.as_slice())
            },
            TreeEntryMode::Directory => {
                let b: [u8; 5] = [0x34, 0x30, 0x30, 0x30, 0x30];
                assert(b@ =~= directory_code());
                ascii_to_string(b.as_slice())
            },
            TreeEntryMode::Unsupported(m) => m.clone(),
        }
    }
}

/// The mode that valid UTF-8 mode text names.
pub fn mode_from_slice(m: &[u8]) -> (r: TreeEntryMode)
    requires
        valid_utf8(m@),
    ensures
        r@ == mode_from_bytes(m@),
{
    let regular: [u8; 6] = [0x31, 0x30, 0x30, 0x36, 0x34, 0x34];
    let executable: [u8; 6] = [0x31, 0x30, 0x30, 0x37, 0x35, 0x35];
    let directory: [u8; 5] = [0x34, 0x30, 0x30, 0x30, 0x30];
    assert(regular@ =~= regular_code());
    assert(executable@ =~= executable_code());
    assert(directory@ =~= directory_code());
    if crate::text::bytes_equal(m, regular.as_slice()) {
        TreeEntryMode::RegularFile
    } else if crate::text::bytes_equal(m, executable.as_slice()) {
        TreeEntryMode::ExecutableFile
    } else if crate::text::bytes_equal(m, directory.as_slice()) {
        TreeEntryMode::Directory
    } else {
        TreeEntryMode::Unsupported(valid_to_string(m))
    }
}

/// Any mode text survives reading it as a mode and writing it back.
pub proof fn law_mode_text_roundtrip(m: Seq<u8>)
    ensures
        mode_bytes(mode_from_bytes(m)) == m,
{
}

/// Writing a mode and reading it back gives the mode, unless it is an
/// unsupported mode that spells one of the known codes.
pub proof fn law_mode_roundtrip(m: ModeView)
    requires
        m matches ModeView::Unsupported(s) ==> s != regular_code() && s != executable_code() && s
            != directory_code(),
    ensures
        mode_from_bytes(mode_bytes(m)) == m,
{
    assert(regular_code() != executable_code()) by {
        assert(regular_code()[3] != executable_code()[3]);
    }
    assert(regular_code() != directory_code()) by {
        assert(regular_code().len() != directory_code().len());
    }
    assert(executable_code() != directory_code()) by {
        assert(executable_code().len() != directory_code().len());
    }
}

/// A non-empty token in which no whitespace character starts at any byte:
/// on UTF-8 text, a non-empty word without whitespace, as
/// `str::split_whitespace` yields them.
pub open spec fn ws_free_token(s: Seq<u8>) -> bool {
    &&& s.len() > 0
    &&& forall|i: int| 0 <= i < s.len() ==> #[trigger] crate::text::ws_prefix(s.subrange(i, s.len() as int)) == 0
}

/// A person whose line reads back as the same person: a name without `<`
/// and without surrounding whitespace, an email without `>`, and a
/// timestamp and timezone that are single words.
pub open spec fn well_formed_person(p: PersonView) -> bool {
    &&& forall|i: int| 0 <= i < p.name.len() ==> #[trigger] p.name[i] != 0x3c
    &&& crate::text::ws_prefix(p.name) == 0
    &&& crate::text::ws_suffix(p.name) == 0
    &&& forall|i: int| 0 <= i < p.email.len() ==> #[trigger] p.email[i] != 0x3e
    &&& ws_free_token(p.timestamp)
    &&& ws_free_token(p.timezone)
}

/// Whitespace in `t + rest` starting inside `t` starts inside `t` alone,
/// when `rest` is empty or begins with an ASCII space.
proof fn lemma_ws_prefix_joined(t: Seq<u8>, rest: Seq<u8>, i: int)
    requires
        0 <= i < t.len(),
        rest.len() == 0 || crate::text::is_ascii_space(rest[0]),
    ensures
        crate::text::ws_prefix((t + rest).subrange(i, (t + rest).len() as int))
            == crate::text::ws_prefix(t.subrange(i, t.len() as int)),
{
    let x = (t + rest).subrange(i, (t + rest).len() as int);
    let y = t.subrange(i, t.len() as int);
    assert(x[0] == y[0]);
    if y.len() >= 2 {
        assert(x[1] == y[1]);
    } else if x.len() >= 2 {
        assert(x[1] == rest[0]);
    }
    if y.len() >= 3 {
        assert(x[2] == y[2]);
    } else if y.len() == 2 && x.len() >= 3 {
        assert(x[2] == rest[0]);
    }
}

proof fn lemma_token_len_word(t: Seq<u8>, rest: Seq<u8>)
    requires
        forall|i: int| 0 <= i < t.len() ==> #[trigger] crate::text::ws_prefix(t.subrange(i, t.len() as int)) == 0,
        rest.len() == 0 || crate::text::is_ascii_space(rest[0]),
    ensures
        crate::text::token_len(t + rest) == t.len(),
    decreases t.len(),
{
    if t.len() > 0 {
        let d = t.drop_first();
        assert forall|i: int| 0 <= i < d.len() implies #[trigger] crate::text::ws_prefix(d.subrange(i, d.len() as int)) == 0 by {
            assert(d.subrange(i, d.len() as int) =~= t.subrange(i + 1, t.len() as int));
            assert(crate::text::ws_prefix(t.subrange(i + 1, t.len() as int)) == 0);
        }
        lemma_token_len_word(d, rest);
        assert((t + rest).drop_first() =~= d + rest);
        lemma_ws_prefix_joined(t, rest, 0);
        assert(t.subrange(0, t.len() as int) =~= t);
        assert((t + rest).subrange(0, (t + rest).len() as int) =~= t + rest);
        assert(crate::text::ws_prefix(t.subrange(0, t.len() as int)) == 0);
    } else {
        assert(t + rest =~= rest);
    }
}

proof fn lemma_next_token_word(t: Seq<u8>, rest: Seq<u8>)
    requires
        ws_free_token(t),
        rest.len() == 0 || crate::text::is_ascii_space(rest[0]),
    ensures
        next_token(seq![0x20u8] + t + rest) == Some((t, rest)),
{
    let s = seq![0x20u8] + t + rest;
    assert(s.subrange(1, s.len() as int) =~= t + rest);
    assert(crate::text::ws_prefix(t + rest) == 0) by {
        lemma_ws_prefix_joined(t, rest, 0);
        assert(t.subrange(0, t.len() as int) =~= t);
        assert((t + rest).subrange(0, (t + rest).len() as int) =~= t + rest);
        assert(crate::text::ws_prefix(t.subrange(0, t.len() as int)) == 0);
    }
    assert(s[0] == 0x20);
    assert(crate::text::ws_prefix(s) == 1);
    assert(crate::text::trim_start(t + rest) == t + rest);
    assert(crate::text::trim_start(s) == t + rest);
    lemma_token_len_word(t, rest);
    assert((t + rest).subrange(0, t.len() as int) =~= t);
    assert((t + rest).subrange(t.len() as int, (t + rest).len() as int) =~= rest);
}

/// A well-formed person line reads back as the person it was written from.
pub proof fn law_person_roundtrip(p: PersonView)
    requires
        well_formed_person(p),
    ensures
        parse_person_spec(person_bytes(p)) == Ok::<PersonView, GitError>(p),
{
    let b = person_bytes(p);
    let n = p.name.len() as int;
    let rest = p.email + seq![0x3eu8, 0x20] + p.timestamp + seq![0x20u8] + p.timezone;
    assert(b =~= (p.name + seq![0x20u8]) + seq![0x3cu8] + rest);
    assert(crate::text::is_first_index(b, 0x3c, n + 1));
    crate::text::lemma_first_index_is(b, 0x3c, n + 1);
    assert(b.subrange(0, n + 1) =~= p.name + seq![0x20u8]);
    assert(b.subrange(n + 2, b.len() as int) =~= rest);
    let m = p.email.len() as int;
    let rest2 = seq![0x20u8] + p.timestamp + (seq![0x20u8] + p.timezone);
    assert(crate::text::is_first_index(rest, 0x3e, m));
    crate::text::lemma_first_index_is(rest, 0x3e, m);
    assert(rest.subrange(0, m) =~= p.email);
    assert(rest.subrange(m + 1, rest.len() as int) =~= rest2);
    lemma_next_token_word(p.timestamp, seq![0x20u8] + p.timezone);
    assert(seq![0x20u8] + p.timezone =~= seq![0x20u8] + p.timezone + Seq::<u8>::empty());
    lemma_next_token_word(p.timezone, Seq::<u8>::empty());
    lemma_trim_name_space(p.name);
}

proof fn lemma_trim_name_space(name: Seq<u8>)
    requires
        crate::text::ws_prefix(name) == 0,
        crate::text::ws_suffix(name) == 0,
    ensures
        trim(name + seq![0x20u8]) == name,
{
    let s = name + seq![0x20u8];
    if name.len() == 0 {
        assert(s.subrange(1, 1) =~= name);
        assert(s[0] == 0x20);
        assert(crate::text::ws_prefix(s) == 1);
        assert(crate::text::trim_start(name) == name);
        assert(crate::text::trim_start(s) == name);
        assert(crate::text::trim_end(name) == name);
    } else {
        assert(s[0] == name[0]);
        if name.len() >= 2 {
            assert(s[1] == name[1]);
        }
        assert(crate::text::ws_prefix(s) == 0);
        assert(crate::text::trim_start(s) == s);
        assert(s.subrange(0, s.len() - 1) =~= name);
        assert(s[s.len() - 1] == 0x20);
        assert(crate::text::ws_suffix(s) == 1);
        assert(crate::text::trim_end(name) == name);
        assert(crate::text::trim_end(s) == name);
    }
}

} // verus!
