//! Writing objects in git's loose-object form: `<type> <size>\0<body>`.
use vstd::prelude::*;
use vstd::string::*;

use crate::codec::{
    hex_encode, hex_text, is_lower_hex_char, lemma_hex_text_shape, sha1, sha1_digest,
    zlib_compressed, zlib_decoded, zlib_deflate,
};
use crate::error::GitError;
use crate::kind::{
    entries_view, mode_bytes, person_bytes, strs_view, EntryView, ModeView, ObjectKind,
    ObjectView, PersonView, TreeEntry, TreeEntryMode,
};
use crate::text::{push_all, str_bytes, string_to_bytes};

verus! {

broadcast use vstd::seq::group_seq_axioms;

/// The decimal digits of `n`, as `{}` formats a number.
pub open spec fn decimal(n: nat) -> Seq<u8>
    decreases n,
{
    if n < 10 {
        seq![(0x30 + n) as u8]
    } else {
        decimal(n / 10) + seq![(0x30 + n % 10) as u8]
    }
}

/// Appends the decimal digits of `n`.
pub fn push_decimal(out: &mut Vec<u8>, n: usize)
    ensures
        final(out)@ == old(out)@ + decimal(n as nat),
    decreases n,
{
    if n >= 10 {
        push_decimal(out, n / 10);
    }
    out.push((0x30 + n % 10) as u8);
    assert(out@ =~= old(out)@ + decimal(n as nat));
}

/// `blob`
pub open spec fn blob_tag() -> Seq<u8> {
    seq![0x62u8, 0x6c, 0x6f, 0x62]
}

/// `tree`
pub open spec fn tree_tag() -> Seq<u8> {
    seq![0x74u8, 0x72, 0x65, 0x65]
}

/// `commit`
pub open spec fn commit_tag() -> Seq<u8> {
    seq![0x63u8, 0x6f, 0x6d, 0x6d, 0x69, 0x74]
}

/// `tag`
pub open spec fn tag_tag() -> Seq<u8> {
    seq![0x74u8, 0x61, 0x67]
}

/// `<type> <size>\0<body>`: a body framed by its header.
pub open spec fn framed(kind: Seq<u8>, body: Seq<u8>) -> Seq<u8> {
    kind + seq![0x20u8] + decimal(body.len()) + seq![0u8] + body
}

/// Lexicographic order of byte strings, a proper prefix first.
pub open spec fn bytes_lt(a: Seq<u8>, b: Seq<u8>) -> bool
    decreases a.len(),
{
    if a.len() == 0 {
        b.len() > 0
    } else if b.len() == 0 {
        false
    } else if a[0] != b[0] {
        a[0] < b[0]
    } else {
        bytes_lt(a.drop_first(), b.drop_first())
    }
}

/// The key git sorts tree entries by: the name, with a `/` after a directory's.
pub open spec fn sort_key_spec(e: EntryView) -> Seq<u8> {
    if e.mode is Directory {
        e.name.push(0x2f)
    } else {
        e.name
    }
}

/// `sorted` with `e` inserted after every entry whose key is not greater.
pub open spec fn insert_sorted(sorted: Seq<EntryView>, e: EntryView) -> Seq<EntryView>
    decreases sorted.len(),
{
    if sorted.len() == 0 {
        seq![e]
    } else if bytes_lt(sort_key_spec(e), sort_key_spec(sorted.last())) {
        insert_sorted(sorted.drop_last(), e).push(sorted.last())
    } else {
        sorted.push(e)
    }
}

/// The entries stably sorted by key.
pub open spec fn sort_entries(es: Seq<EntryView>) -> Seq<EntryView>
    decreases es.len(),
{
    if es.len() == 0 {
        seq![]
    } else {
        insert_sorted(sort_entries(es.drop_last()), es.last())
    }
}

/// `<mode> <name>\0<sha1>`
pub open spec fn entry_bytes(e: EntryView) -> Seq<u8> {
    mode_bytes(e.mode) + seq![0x20u8] + e.name + seq![0u8] + e.sha1
}

/// The entries written one after another, in the order given.
pub open spec fn entries_bytes(es: Seq<EntryView>) -> Seq<u8>
    decreases es.len(),
{
    if es.len() == 0 {
        seq![]
    } else {
        entries_bytes(es.drop_last()) + entry_bytes(es.last())
    }
}

/// `parent <sha>\n` for each parent.
pub open spec fn parent_lines(ps: Seq<Seq<u8>>) -> Seq<u8>
    decreases ps.len(),
{
    if ps.len() == 0 {
        seq![]
    } else {
        parent_lines(ps.drop_last()) + seq![0x70u8, 0x61, 0x72, 0x65, 0x6e, 0x74, 0x20]
            + ps.last() + seq![0x0au8]
    }
}

/// The body of a commit: tree, parents, author, committer, a blank line and
/// the message with a final newline.
pub open spec fn commit_body(
    tree: Seq<u8>,
    parents: Seq<Seq<u8>>,
    author: PersonView,
    committer: PersonView,
    message: Seq<u8>,
) -> Seq<u8> {
    seq![0x74u8, 0x72, 0x65, 0x65, 0x20] + tree + seq![0x0au8] + parent_lines(parents) + seq![
        0x61u8,
        0x75,
        0x74,
        0x68,
        0x6f,
        0x72,
        0x20,
    ] + person_bytes(author) + seq![0x0au8] + seq![
        0x63u8,
        0x6f,
        0x6d,
        0x6d,
        0x69,
        0x74,
        0x74,
        0x65,
        0x72,
        0x20,
    ] + person_bytes(committer) + seq![0x0au8, 0x0a] + message + seq![0x0au8]
}

/// The loose form of an object, before compression.
pub open spec fn object_bytes(o: ObjectView) -> Seq<u8> {
    match o {
        ObjectView::Blob(data) => framed(blob_tag(), data),
        ObjectView::Tree(es) => framed(tree_tag(), entries_bytes(sort_entries(es))),
        ObjectView::Commit { tree, parents, author, committer, message } => framed(
            commit_tag(),
            commit_body(tree, parents, author, committer, message),
        ),
    }
}

/// Whether `a` sorts before `b`.
pub fn bytes_less(a: &[u8], b: &[u8]) -> (r: bool)
    ensures
        r == bytes_lt(a@, b@),
{
    let mut i: usize = 0;
    assert(a@.subrange(0, a@.len() as int) =~= a@);
    assert(b@.subrange(0, b@.len() as int) =~= b@);
    loop
        invariant
            i <= a.len(),
            i <= b.len(),
            bytes_lt(a@, b@) == bytes_lt(
                a@.subrange(i as int, a@.len() as int),
                b@.subrange(i as int, b@.len() as int),
            ),
        decreases a.len() - i,
    {
        let ghost sa = a@.subrange(i as int, a@.len() as int);
        let ghost sb = b@.subrange(i as int, b@.len() as int);
        if i == a.len() {
            return i < b.len();
        }
        if i == b.len() {
            return false;
        }
        if a[i] != b[i] {
            assert(sa[0] == a@[i as int] && sb[0] == b@[i as int]);
            return a[i] < b[i];
        }
        assert(sa.drop_first() =~= a@.subrange(i + 1, a@.len() as int));
        assert(sb.drop_first() =~= b@.subrange(i + 1, b@.len() as int));
        i = i + 1;
    }
}

/// The key git sorts an entry by.
pub fn sort_key(entry: &TreeEntry) -> (key: Vec<u8>)
    ensures
        key@ == sort_key_spec(entry@),
{
    let mut key = string_to_bytes(&entry.name);
    if let TreeEntryMode::Directory = entry.mode {
        key.push(0x2f);
    }
    key
}

pub open spec fn pick(es: Seq<EntryView>, order: Seq<usize>) -> Seq<EntryView> {
    Seq::new(order.len(), |j: int| es[order[j] as int])
}

/// `insert_sorted` inserts at the position after which every key is greater.
proof fn lemma_insert_sorted_at(sorted: Seq<EntryView>, e: EntryView, p: int)
    requires
        0 <= p <= sorted.len(),
        forall|j: int| p <= j < sorted.len() ==> bytes_lt(sort_key_spec(e), sort_key_spec(#[trigger] sorted[j])),
        p > 0 ==> !bytes_lt(sort_key_spec(e), sort_key_spec(sorted[p - 1])),
    ensures
        insert_sorted(sorted, e) == sorted.subrange(0, p).push(e) + sorted.subrange(
            p,
            sorted.len() as int,
        ),
    decreases sorted.len(),
{
    if sorted.len() == 0 {
        assert(sorted.subrange(0, p).push(e) + sorted.subrange(p, sorted.len() as int) =~= seq![e]);
    } else if p == sorted.len() {
        assert(!bytes_lt(sort_key_spec(e), sort_key_spec(sorted.last())));
        assert(sorted.subrange(0, p).push(e) + sorted.subrange(p, sorted.len() as int) =~= sorted.push(e));
    } else {
        let d = sorted.drop_last();
        assert(bytes_lt(sort_key_spec(e), sort_key_spec(sorted[sorted.len() - 1])));
        assert forall|j: int| p <= j < d.len() implies bytes_lt(sort_key_spec(e), sort_key_spec(#[trigger] d[j])) by {
            assert(d[j] == sorted[j]);
        }
        if p > 0 {
            assert(d[p - 1] == sorted[p - 1]);
        }
        lemma_insert_sorted_at(d, e, p);
        assert(insert_sorted(sorted, e) == insert_sorted(d, e).push(sorted.last()));
        assert(d.subrange(0, p).push(e) + d.subrange(p, d.len() as int) + seq![sorted.last()]
            =~= sorted.subrange(0, p).push(e) + sorted.subrange(p, sorted.len() as int));
    }
}

/// The positions of the entries in sorted order.
fn sorted_order(entries: &Vec<TreeEntry>) -> (order: Vec<usize>)
    ensures
        forall|j: int| 0 <= j < order@.len() ==> #[trigger] order@[j] < entries@.len(),
        pick(entries_view(entries@), order@) == sort_entries(entries_view(entries@)),
{
    let ghost es = entries_view(entries@);
    let mut keys: Vec<Vec<u8>> = Vec::new();
    let mut k: usize = 0;
    while k < entries.len()
        invariant
            k <= entries.len(),
            keys@.len() == k,
            forall|j: int| 0 <= j < k ==> #[trigger] keys@[j]@ == sort_key_spec(entries@[j]@),
        decreases entries.len() - k,
    {
        keys.push(sort_key(&entries[k]));
        k = k + 1;
    }
    let mut order: Vec<usize> = Vec::new();
    let mut k: usize = 0;
    assert(es.subrange(0, 0) =~= Seq::<EntryView>::empty());
    assert(pick(es, order@) =~= Seq::<EntryView>::empty());
    while k < entries.len()
        invariant
            k <= entries.len(),
            es == entries_view(entries@),
            keys@.len() == entries@.len(),
            forall|j: int| 0 <= j < entries@.len() ==> #[trigger] keys@[j]@ == sort_key_spec(es[j]),
            forall|j: int| 0 <= j < order@.len() ==> #[trigger] order@[j] < k,
            pick(es, order@) == sort_entries(es.subrange(0, k as int)),
            order@.len() == k,
        decreases entries.len() - k,
    {
        let ghost sorted = pick(es, order@);
        let mut p: usize = order.len();
        while p > 0 && bytes_less(keys[k].as_slice(), keys[order[p - 1]].as_slice())
            invariant
                p <= order@.len(),
                k < keys@.len(),
                order@.len() == k,
                k < entries@.len(),
                sorted == pick(es, order@),
                forall|j: int| 0 <= j < order@.len() ==> #[trigger] order@[j] < k,
                forall|j: int| 0 <= j < entries@.len() ==> #[trigger] keys@[j]@ == sort_key_spec(es[j]),
                forall|j: int| p <= j < sorted.len() ==> bytes_lt(sort_key_spec(es[k as int]), sort_key_spec(#[trigger] sorted[j])),
            decreases p,
        {
            assert(sorted[p - 1] == es[order@[p - 1] as int]);
            p = p - 1;
        }
        proof {
            if p > 0 {
                assert(sorted[p - 1] == es[order@[p - 1] as int]);
            }
            lemma_insert_sorted_at(sorted, es[k as int], p as int);
        }
        order.insert(p, k);
        proof {
            let sub = es.subrange(0, k + 1);
            assert(sub.drop_last() =~= es.subrange(0, k as int));
            assert(sub.last() == es[k as int]);
            assert(pick(es, order@) =~= sorted.subrange(0, p as int).push(es[k as int]) + sorted.subrange(
                p as int,
                sorted.len() as int,
            ));
        }
        k = k + 1;
    }
    assert(es.subrange(0, k as int) =~= es);
    order
}

/// Appends `<mode> <name>\0<sha1>`.
fn push_entry(out: &mut Vec<u8>, entry: &TreeEntry)
    ensures
        final(out)@ == old(out)@ + entry_bytes(entry@),
{
    push_all(out, string_to_bytes(&entry.mode.to_mode()).as_slice());
    out.push(0x20);
    push_all(out, string_to_bytes(&entry.name).as_slice());
    out.push(0);
    push_all(out, entry.sha1.as_slice());
    assert(out@ =~= old(out)@ + entry_bytes(entry@));
}

/// The body of a tree: its entries in git's order.
pub fn tree_body(entries: &Vec<TreeEntry>) -> (body: Vec<u8>)
    ensures
        body@ == entries_bytes(sort_entries(entries_view(entries@))),
{
    let order = sorted_order(entries);
    let ghost es = entries_view(entries@);
    let ghost sorted = pick(es, order@);
    let mut body: Vec<u8> = Vec::new();
    let mut j: usize = 0;
    assert(sorted.subrange(0, 0) =~= Seq::<EntryView>::empty());
    while j < order.len()
        invariant
            j <= order@.len(),
            es == entries_view(entries@),
            sorted == pick(es, order@),
            forall|i: int| 0 <= i < order@.len() ==> #[trigger] order@[i] < entries@.len(),
            body@ == entries_bytes(sorted.subrange(0, j as int)),
        decreases order.len() - j,
    {
        let idx = order[j];
        push_entry(&mut body, &entries[idx]);
        proof {
            let sub = sorted.subrange(0, j + 1);
            assert(sub.drop_last() =~= sorted.subrange(0, j as int));
            assert(sub.last() == es[idx as int]);
        }
        j = j + 1;
    }
    assert(sorted.subrange(0, j as int) =~= sorted);
    body
}

fn push_ascii(out: &mut Vec<u8>, bytes: &[u8])
    ensures
        final(out)@ == old(out)@ + bytes@,
{
    push_all(out, bytes);
}

/// The body of a commit.
pub fn commit_body_bytes(
    tree: &String,
    parents: &Vec<String>,
    author: &crate::kind::CommitPerson,
    committer: &crate::kind::CommitPerson,
    message: &String,
) -> (body: Vec<u8>)
    ensures
        body@ == commit_body(
            str_bytes(*tree),
            strs_view(parents@),
            author@,
            committer@,
            str_bytes(*message),
        ),
{
    let mut body: Vec<u8> = Vec::new();
    let tree_kw: [u8; 5] = [0x74, 0x72, 0x65, 0x65, 0x20];
    push_ascii(&mut body, tree_kw.as_slice());
    push_all(&mut body, string_to_bytes(tree).as_slice());
    body.push(0x0a);
    let ghost head = body@;
    let ghost ps = strs_view(parents@);
    let mut i: usize = 0;
    assert(ps.subrange(0, 0) =~= Seq::<Seq<u8>>::empty());
    assert(body@ =~= head + parent_lines(ps.subrange(0, 0)));
    while i < parents.len()
        invariant
            i <= parents@.len(),
            ps == strs_view(parents@),
            body@ == head + parent_lines(ps.subrange(0, i as int)),
        decreases parents.len() - i,
    {
        let parent_kw: [u8; 7] = [0x70, 0x61, 0x72, 0x65, 0x6e, 0x74, 0x20];
        push_ascii(&mut body, parent_kw.as_slice());
        push_all(&mut body, string_to_bytes(&parents[i]).as_slice());
        body.push(0x0a);
        proof {
            let sub = ps.subrange(0, i + 1);
            assert(sub.drop_last() =~= ps.subrange(0, i as int));
            assert(sub.last() == str_bytes(parents@[i as int]));
            assert(parent_kw@ =~= seq![0x70u8, 0x61, 0x72, 0x65, 0x6e, 0x74, 0x20]);
            assert(body@ =~= head + parent_lines(sub));
        }
        i = i + 1;
    }
    assert(ps.subrange(0, i as int) =~= ps);
    let author_kw: [u8; 7] = [0x61, 0x75, 0x74, 0x68, 0x6f, 0x72, 0x20];
    push_ascii(&mut body, author_kw.as_slice());
    push_all(&mut body, author.to_bytes().as_slice());
    body.push(0x0a);
    let committer_kw: [u8; 10] = [0x63, 0x6f, 0x6d, 0x6d, 0x69, 0x74, 0x74, 0x65, 0x72, 0x20];
    push_ascii(&mut body, committer_kw.as_slice());
    push_all(&mut body, committer.to_bytes().as_slice());
    body.push(0x0a);
    body.push(0x0a);
    push_all(&mut body, string_to_bytes(message).as_slice());
    body.push(0x0a);
    assert(tree_kw@ =~= seq![0x74u8, 0x72, 0x65, 0x65, 0x20]);
    assert(author_kw@ =~= seq![0x61u8, 0x75, 0x74, 0x68, 0x6f, 0x72, 0x20]);
    assert(committer_kw@ =~= seq![0x63u8, 0x6f, 0x6d, 0x6d, 0x69, 0x74, 0x74, 0x65, 0x72, 0x20]);
    assert(body@ =~= commit_body(
        str_bytes(*tree),
        strs_view(parents@),
        author@,
        committer@,
        str_bytes(*message),
    ));
    body
}

/// `<kind> <size>\0<body>`
pub fn frame(kind: &[u8], body: &[u8]) -> (r: Vec<u8>)
    ensures
        r@ == framed(kind@, body@),
{
    let mut out: Vec<u8> = Vec::new();
    push_all(&mut out, kind);
    out.push(0x20);
    push_decimal(&mut out, body.len());
    out.push(0);
    push_all(&mut out, body);
    assert(out@ =~= framed(kind@, body@));
    out
}

/// The loose form of an object, before compression.
pub fn encode_object(obj: &ObjectKind) -> (r: Vec<u8>)
    ensures
        r@ == object_bytes(obj@),
{
    match obj {
        ObjectKind::Blob(data) => {
            let tag: [u8; 4] = [0x62, 0x6c, 0x6f, 0x62];
            assert(tag@ =~= blob_tag());
            frame(tag.as_slice(), data.as_slice())
        },
        ObjectKind::Tree(entries) => {
            let tag: [u8; 4] = [0x74, 0x72, 0x65, 0x65];
            assert(tag@ =~= tree_tag());
            let body = tree_body(entries);
            frame(tag.as_slice(), body.as_slice())
        },
        ObjectKind::Commit { tree, parents, author, committer, message } => {
            let tag: [u8; 6] = [0x63, 0x6f, 0x6d, 0x6d, 0x69, 0x74];
            assert(tag@ =~= commit_tag());
            let body = commit_body_bytes(tree, parents, author, committer, message);
            frame(tag.as_slice(), body.as_slice())
        },
    }
}

/// The name of a stored object: forty lowercase hexadecimal digits.
pub open spec fn is_object_name(s: Seq<char>) -> bool {
    &&& s.len() == 40
    &&& forall|i: int| 0 <= i < s.len() ==> is_lower_hex_char(#[trigger] s[i])
}

/// The SHA-1 of `data` as lowercase hexadecimal text.
pub fn sha1_of(data: &[u8]) -> (sha: String)
    ensures
        sha@ == hex_text(sha1_digest(data@)),
        is_object_name(sha@),
{
    let digest = sha1(data);
    let sha = hex_encode(digest.as_slice());
    proof {
        lemma_hex_text_shape(digest@);
    }
    sha
}

/// The zlib stream of `data`, compressed at the default level; it does not fail.
pub fn zlib_compress(data: &[u8]) -> (r: Result<Vec<u8>, GitError>)
    ensures
        r matches Ok(c) && c@ == zlib_compressed(data@) && zlib_decoded(c@) == Some(data@),
{
    Ok(zlib_deflate(data))
}

/// What storing an object writes: its id and its compressed loose form.
#[derive(Debug)]
pub struct StoredObject {
    pub sha: String,
    pub compressed: Vec<u8>,
}

/// The id of an object and the compressed bytes to store under it; it does not fail.
pub fn put_object(obj: &ObjectKind) -> (r: Result<StoredObject, GitError>)
    ensures
        r matches Ok(s) && s.sha@ == hex_text(sha1_digest(object_bytes(obj@)))
            && is_object_name(s.sha@) && s.compressed@ == zlib_compressed(object_bytes(obj@))
            && zlib_decoded(s.compressed@) == Some(object_bytes(obj@)),
{
    let content = encode_object(obj);
    let sha = sha1_of(content.as_slice());
    match zlib_compress(content.as_slice()) {
        Ok(compressed) => Ok(StoredObject { sha, compressed }),
        Err(e) => Err(e),
    }
}

/// The compressed loose form of a body of the given type; it does not fail.
pub fn put_object_raw(obj_type: &str, body: &[u8]) -> (r: Result<Vec<u8>, GitError>)
    ensures
        r matches Ok(c) && c@ == zlib_compressed(framed(obj_type.spec_bytes(), body@))
            && zlib_decoded(c@) == Some(framed(obj_type.spec_bytes(), body@)),
{
    let full = frame(obj_type.as_bytes(), body);
    zlib_compress(full.as_slice())
}

proof fn lemma_bytes_lt_irreflexive(a: Seq<u8>)
    ensures
        !bytes_lt(a, a),
    decreases a.len(),
{
    if a.len() > 0 {
        lemma_bytes_lt_irreflexive(a.drop_first());
    }
}

proof fn lemma_bytes_lt_transitive(a: Seq<u8>, b: Seq<u8>, c: Seq<u8>)
    requires
        bytes_lt(a, b),
        bytes_lt(b, c),
    ensures
        bytes_lt(a, c),
    decreases a.len(),
{
    if a.len() > 0 && b.len() > 0 && c.len() > 0 && a[0] == b[0] && b[0] == c[0] {
        lemma_bytes_lt_transitive(a.drop_first(), b.drop_first(), c.drop_first());
    }
}

proof fn lemma_bytes_lt_total(a: Seq<u8>, b: Seq<u8>)
    ensures
        a == b || bytes_lt(a, b) || bytes_lt(b, a),
    decreases a.len(),
{
    if a.len() > 0 && b.len() > 0 && a[0] == b[0] {
        lemma_bytes_lt_total(a.drop_first(), b.drop_first());
        if a.drop_first() == b.drop_first() {
            assert(a =~= seq![a[0]] + a.drop_first());
            assert(b =~= seq![b[0]] + b.drop_first());
        }
    } else if a.len() == 0 && b.len() == 0 {
        assert(a =~= b);
    }
}

/// Entries in order: no entry's key is below the key of an entry before it.
pub open spec fn entries_sorted(s: Seq<EntryView>) -> bool {
    forall|i: int, j: int|
        0 <= i < j < s.len() ==> !bytes_lt(sort_key_spec(#[trigger] s[j]), sort_key_spec(#[trigger] s[i]))
}

/// Not greater: the order as a relation that admits equal keys.
proof fn lemma_not_lt_transitive(a: Seq<u8>, b: Seq<u8>, c: Seq<u8>)
    requires
        !bytes_lt(b, a),
        !bytes_lt(c, b),
    ensures
        !bytes_lt(c, a),
{
    if bytes_lt(c, a) {
        lemma_bytes_lt_total(a, b);
        if a == b {
        } else if bytes_lt(a, b) {
            lemma_bytes_lt_transitive(c, a, b);
        }
    }
}

pub proof fn lemma_insert_sorted_members(s: Seq<EntryView>, e: EntryView)
    ensures
        insert_sorted(s, e).len() == s.len() + 1,
        forall|k: int| 0 <= k < insert_sorted(s, e).len() ==> (#[trigger] insert_sorted(s, e)[k]
            == e || s.contains(insert_sorted(s, e)[k])),
        insert_sorted(s, e).to_multiset() == s.to_multiset().insert(e),
    decreases s.len(),
{
    broadcast use vstd::seq_lib::group_to_multiset_ensures;

    if s.len() == 0 {
        assert(seq![e] =~= s.push(e));
    } else if bytes_lt(sort_key_spec(e), sort_key_spec(s.last())) {
        let d = s.drop_last();
        lemma_insert_sorted_members(d, e);
        let r = insert_sorted(s, e);
        assert forall|k: int| 0 <= k < r.len() implies (#[trigger] r[k] == e || s.contains(r[k])) by {
            if k < r.len() - 1 {
                let x = insert_sorted(d, e)[k];
                if x != e {
                    let m = choose|m: int| 0 <= m < d.len() && d[m] == x;
                    assert(s[m] == x);
                }
            } else {
                assert(s[s.len() - 1] == s.last());
            }
        }
        assert(s =~= d.push(s.last()));
        assert(r.to_multiset() =~= s.to_multiset().insert(e));
    } else {
        let r = insert_sorted(s, e);
        assert forall|k: int| 0 <= k < r.len() implies (#[trigger] r[k] == e || s.contains(r[k])) by {
            if k < s.len() {
                assert(r[k] == s[k]);
            }
        }
    }
}

proof fn lemma_insert_sorted_sorted(s: Seq<EntryView>, e: EntryView)
    requires
        entries_sorted(s),
    ensures
        entries_sorted(insert_sorted(s, e)),
    decreases s.len(),
{
    if s.len() == 0 {
    } else if bytes_lt(sort_key_spec(e), sort_key_spec(s.last())) {
        let d = s.drop_last();
        let last = s.last();
        assert(entries_sorted(d)) by {
            assert forall|i: int, j: int| 0 <= i < j < d.len() implies !bytes_lt(
                sort_key_spec(#[trigger] d[j]),
                sort_key_spec(#[trigger] d[i]),
            ) by {
                assert(d[i] == s[i] && d[j] == s[j]);
            }
        }
        lemma_insert_sorted_sorted(d, e);
        lemma_insert_sorted_members(d, e);
        let r0 = insert_sorted(d, e);
        let r = r0.push(last);
        assert forall|i: int, j: int| 0 <= i < j < r.len() implies !bytes_lt(
            sort_key_spec(#[trigger] r[j]),
            sort_key_spec(#[trigger] r[i]),
        ) by {
            if j < r.len() - 1 {
                assert(r[i] == r0[i] && r[j] == r0[j]);
            } else {
                assert(r[j] == last);
                assert(r[i] == r0[i]);
                if r0[i] == e {
                    if bytes_lt(sort_key_spec(last), sort_key_spec(e)) {
                        lemma_bytes_lt_transitive(sort_key_spec(e), sort_key_spec(last), sort_key_spec(e));
                        lemma_bytes_lt_irreflexive(sort_key_spec(e));
                    }
                } else {
                    let m = choose|m: int| 0 <= m < d.len() && d[m] == r0[i];
                    assert(s[m] == d[m]);
                    assert(s[s.len() - 1] == last);
                }
            }
        }
    } else {
        let r = s.push(e);
        assert forall|i: int, j: int| 0 <= i < j < r.len() implies !bytes_lt(
            sort_key_spec(#[trigger] r[j]),
            sort_key_spec(#[trigger] r[i]),
        ) by {
            if j < s.len() {
                assert(r[i] == s[i] && r[j] == s[j]);
            } else {
                assert(r[i] == s[i]);
                if i < s.len() - 1 {
                    assert(s[s.len() - 1] == s.last());
                    lemma_not_lt_transitive(sort_key_spec(s[i]), sort_key_spec(s.last()), sort_key_spec(e));
                }
            }
        }
    }
}

/// The entries whose key is `k`.
pub open spec fn with_key(k: Seq<u8>) -> spec_fn(EntryView) -> bool {
    |e: EntryView| sort_key_spec(e) == k
}

/// Inserting `e` puts it after every entry with the same key.
proof fn lemma_insert_sorted_stable(s: Seq<EntryView>, e: EntryView, k: Seq<u8>)
    ensures
        insert_sorted(s, e).filter(with_key(k)) == (if sort_key_spec(e) == k {
            s.filter(with_key(k)).push(e)
        } else {
            s.filter(with_key(k))
        }),
    decreases s.len(),
{
    reveal(Seq::filter);
    if s.len() == 0 {
        assert(seq![e].drop_last() =~= s);
    } else if bytes_lt(sort_key_spec(e), sort_key_spec(s.last())) {
        let d = s.drop_last();
        let last = s.last();
        lemma_insert_sorted_stable(d, e, k);
        let r0 = insert_sorted(d, e);
        assert(r0.push(last).drop_last() =~= r0);
        if sort_key_spec(e) == k && sort_key_spec(last) == k {
            lemma_bytes_lt_irreflexive(k);
        }
    } else {
        assert(s.push(e).drop_last() =~= s);
    }
}

/// Git's order of tree entries: sorting gives the same entries, each key
/// not below the one before it (a directory's name counting with a
/// trailing `/`), and entries with equal keys keep the order they came in.
pub proof fn law_tree_order(es: Seq<EntryView>)
    ensures
        entries_sorted(sort_entries(es)),
        sort_entries(es).to_multiset() == es.to_multiset(),
        forall|k: Seq<u8>| #[trigger] sort_entries(es).filter(with_key(k)) == es.filter(with_key(k)),
    decreases es.len(),
{
    broadcast use vstd::seq_lib::group_to_multiset_ensures;

    if es.len() > 0 {
        let d = es.drop_last();
        law_tree_order(d);
        lemma_insert_sorted_sorted(sort_entries(d), es.last());
        lemma_insert_sorted_members(sort_entries(d), es.last());
        assert(es =~= d.push(es.last()));
        assert forall|k: Seq<u8>| #[trigger] sort_entries(es).filter(with_key(k)) == es.filter(with_key(k)) by {
            reveal(Seq::filter);
            lemma_insert_sorted_stable(sort_entries(d), es.last(), k);
        }
    } else {
        assert(sort_entries(es) =~= es);
        reveal(Seq::filter);
    }
}

/// Some entry of `s` has key `k` when the entries with key `k` are not none.
proof fn lemma_filter_has_key(s: Seq<EntryView>, k: Seq<u8>)
    requires
        s.filter(with_key(k)).len() > 0,
    ensures
        exists|m: int| 0 <= m < s.len() && sort_key_spec(#[trigger] s[m]) == k,
{
    let f = s.filter(with_key(k));
    assert(f.contains(f[0]));
    s.lemma_filter_contains_rev(with_key(k), f[0]);
    s.lemma_filter_pred(with_key(k), 0);
    let m = choose|m: int| 0 <= m < s.len() && s[m] == f[0];
    assert(sort_key_spec(s[m]) == k);
}

/// Two sorted sequences that hold, for every key, the same entries in the
/// same order are the same sequence.
proof fn lemma_sorted_determined(s: Seq<EntryView>, t: Seq<EntryView>)
    requires
        entries_sorted(s),
        entries_sorted(t),
        forall|k: Seq<u8>| #[trigger] s.filter(with_key(k)) == t.filter(with_key(k)),
    ensures
        s == t,
    decreases s.len() + t.len(),
{
    reveal(Seq::filter);
    if s.len() == 0 && t.len() == 0 {
        assert(s =~= t);
    } else if s.len() == 0 {
        let ky = sort_key_spec(t.last());
        assert(s.filter(with_key(ky)) == t.filter(with_key(ky)));
    } else if t.len() == 0 {
        let kx = sort_key_spec(s.last());
        assert(s.filter(with_key(kx)) == t.filter(with_key(kx)));
    } else {
        let x = s.last();
        let y = t.last();
        let kx = sort_key_spec(x);
        let ky = sort_key_spec(y);
        assert(s.filter(with_key(kx)) == t.filter(with_key(kx)));
        assert(s.filter(with_key(ky)) == t.filter(with_key(ky)));
        lemma_filter_has_key(s, ky);
        lemma_filter_has_key(t, kx);
        let m = choose|m: int| 0 <= m < s.len() && sort_key_spec(#[trigger] s[m]) == ky;
        let n = choose|n: int| 0 <= n < t.len() && sort_key_spec(#[trigger] t[n]) == kx;
        assert(s[s.len() - 1] == x && t[t.len() - 1] == y);
        lemma_bytes_lt_irreflexive(kx);
        lemma_bytes_lt_irreflexive(ky);
        if m < s.len() - 1 {
            assert(!bytes_lt(sort_key_spec(s[s.len() - 1]), sort_key_spec(s[m])));
        }
        assert(!bytes_lt(kx, ky));
        if n < t.len() - 1 {
            assert(!bytes_lt(sort_key_spec(t[t.len() - 1]), sort_key_spec(t[n])));
        }
        assert(!bytes_lt(ky, kx));
        lemma_bytes_lt_total(kx, ky);
        assert(kx == ky);
        assert(s.filter(with_key(kx)).last() == x);
        assert(t.filter(with_key(kx)).last() == y);
        assert(x == y);
        let sd = s.drop_last();
        let td = t.drop_last();
        assert(entries_sorted(sd)) by {
            assert forall|i: int, j: int| 0 <= i < j < sd.len() implies !bytes_lt(
                sort_key_spec(#[trigger] sd[j]),
                sort_key_spec(#[trigger] sd[i]),
            ) by {
                assert(sd[i] == s[i] && sd[j] == s[j]);
            }
        }
        assert(entries_sorted(td)) by {
            assert forall|i: int, j: int| 0 <= i < j < td.len() implies !bytes_lt(
                sort_key_spec(#[trigger] td[j]),
                sort_key_spec(#[trigger] td[i]),
            ) by {
                assert(td[i] == t[i] && td[j] == t[j]);
            }
        }
        assert forall|k: Seq<u8>| #[trigger] sd.filter(with_key(k)) == td.filter(with_key(k)) by {
            assert(s.filter(with_key(k)) == t.filter(with_key(k)));
            if k == kx {
                assert(sd.filter(with_key(k)) == s.filter(with_key(k)).drop_last());
                assert(td.filter(with_key(k)) == t.filter(with_key(k)).drop_last());
            }
        }
        lemma_sorted_determined(sd, td);
        assert(s =~= sd.push(x));
        assert(t =~= td.push(y));
    }
}

/// Git's order is fixed by what each key holds: entries that hold, for every
/// key, the same entries in the same order are sorted to the same sequence.
pub proof fn law_tree_order_determined(es1: Seq<EntryView>, es2: Seq<EntryView>)
    requires
        forall|k: Seq<u8>| #[trigger] es1.filter(with_key(k)) == es2.filter(with_key(k)),
    ensures
        sort_entries(es1) == sort_entries(es2),
{
    law_tree_order(es1);
    law_tree_order(es2);
    assert forall|k: Seq<u8>| #[trigger] sort_entries(es1).filter(with_key(k)) == sort_entries(
        es2,
    ).filter(with_key(k)) by {
        assert(es1.filter(with_key(k)) == es2.filter(with_key(k)));
    }
    lemma_sorted_determined(sort_entries(es1), sort_entries(es2));
}

/// No two entries share a key.
pub open spec fn distinct_keys(es: Seq<EntryView>) -> bool {
    forall|i: int, j: int|
        0 <= i < j < es.len() ==> sort_key_spec(#[trigger] es[i]) != sort_key_spec(#[trigger] es[j])
}

/// Without shared keys, at most one entry has a given key.
proof fn lemma_distinct_filter_len(es: Seq<EntryView>, k: Seq<u8>)
    requires
        distinct_keys(es),
    ensures
        es.filter(with_key(k)).len() <= 1,
    decreases es.len(),
{
    reveal(Seq::filter);
    if es.len() > 0 {
        let d = es.drop_last();
        assert(distinct_keys(d)) by {
            assert forall|i: int, j: int| 0 <= i < j < d.len() implies sort_key_spec(#[trigger] d[i])
                != sort_key_spec(#[trigger] d[j]) by {
                assert(d[i] == es[i] && d[j] == es[j]);
            }
        }
        lemma_distinct_filter_len(d, k);
        if sort_key_spec(es.last()) == k && d.filter(with_key(k)).len() > 0 {
            lemma_filter_has_key(d, k);
            let m = choose|m: int| 0 <= m < d.len() && sort_key_spec(#[trigger] d[m]) == k;
            assert(es[m] == d[m]);
            assert(sort_key_spec(es[m]) != sort_key_spec(es[es.len() - 1]));
        }
    }
}

/// The entries with key `k`, counted, are those of the whole counted with key `k`.
proof fn lemma_filter_to_multiset(s: Seq<EntryView>, k: Seq<u8>)
    ensures
        s.filter(with_key(k)).to_multiset() =~= s.to_multiset().filter(with_key(k)),
    decreases s.len(),
{
    broadcast use vstd::seq_lib::group_to_multiset_ensures, vstd::multiset::group_multiset_axioms;

    reveal(Seq::filter);
    if s.len() > 0 {
        let d = s.drop_last();
        lemma_filter_to_multiset(d, k);
        assert(s =~= d.push(s.last()));
    } else {
        assert(s.to_multiset() =~= vstd::multiset::Multiset::empty());
    }
}

/// The stored form of a tree does not depend on the order its entries come
/// in, when no two of them share a key: the same entries in any order are
/// sorted to the same sequence.
pub proof fn law_tree_order_of_permutation(es1: Seq<EntryView>, es2: Seq<EntryView>)
    requires
        es1.to_multiset() == es2.to_multiset(),
        distinct_keys(es1),
    ensures
        sort_entries(es1) == sort_entries(es2),
{
    broadcast use vstd::seq_lib::group_to_multiset_ensures;

    assert forall|k: Seq<u8>| #[trigger] es1.filter(with_key(k)) == es2.filter(with_key(k)) by {
        let f1 = es1.filter(with_key(k));
        let f2 = es2.filter(with_key(k));
        lemma_filter_to_multiset(es1, k);
        lemma_filter_to_multiset(es2, k);
        lemma_distinct_filter_len(es1, k);
        assert(f1.to_multiset() == f2.to_multiset());
        assert(f1.len() == f1.to_multiset().len());
        assert(f2.len() == f2.to_multiset().len());
        if f1.len() == 0 {
            assert(f1 =~= f2);
        } else {
            assert(f1.to_multiset().count(f1[0]) > 0) by {
                assert(f1.contains(f1[0]));
            }
            assert(f2.contains(f1[0]));
            assert(f1 =~= f2);
        }
    }
    law_tree_order_determined(es1, es2);
}


/// The order of tree keys is plain bytewise order: `a` comes before `b`
/// exactly when `a` is a proper prefix of `b`, or at the first position
/// where they differ `a`'s byte is the smaller number.
pub proof fn law_bytes_order(a: Seq<u8>, b: Seq<u8>)
    ensures
        bytes_lt(a, b) <==> (a.len() < b.len() && a == b.subrange(0, a.len() as int)) || exists|i: int|
            0 <= i < a.len() && i < b.len() && a.subrange(0, i) == b.subrange(0, i) && #[trigger] a[i]
                < b[i],
    decreases a.len(),
{
    let right = (a.len() < b.len() && a == b.subrange(0, a.len() as int)) || exists|i: int|
        0 <= i < a.len() && i < b.len() && a.subrange(0, i) == b.subrange(0, i) && #[trigger] a[i]
            < b[i];
    if a.len() == 0 {
        if b.len() > 0 {
            assert(a =~= b.subrange(0, 0));
        }
    } else if b.len() == 0 {
    } else if a[0] != b[0] {
        if a[0] < b[0] {
            assert(a.subrange(0, 0) =~= b.subrange(0, 0));
            assert(right);
        } else {
            if a.len() < b.len() && a == b.subrange(0, a.len() as int) {
                assert(a[0] == b.subrange(0, a.len() as int)[0]);
            }
            if exists|i: int|
                0 <= i < a.len() && i < b.len() && a.subrange(0, i) == b.subrange(0, i) && #[trigger] a[i]
                    < b[i] {
                let i = choose|i: int|
                    0 <= i < a.len() && i < b.len() && a.subrange(0, i) == b.subrange(0, i) && #[trigger] a[i]
                        < b[i];
                if i > 0 {
                    assert(a[0] == a.subrange(0, i)[0]);
                    assert(b[0] == b.subrange(0, i)[0]);
                }
            }
        }
    } else {
        let a1 = a.drop_first();
        let b1 = b.drop_first();
        law_bytes_order(a1, b1);
        if bytes_lt(a1, b1) {
            if a1.len() < b1.len() && a1 == b1.subrange(0, a1.len() as int) {
                assert(a =~= b.subrange(0, a.len() as int)) by {
                    assert forall|k: int| 0 <= k < a.len() implies #[trigger] a[k] == b.subrange(0, a.len() as int)[k] by {
                        if k > 0 {
                            assert(a[k] == a1[k - 1]);
                            assert(b1.subrange(0, a1.len() as int)[k - 1] == b[k]);
                        }
                    }
                }
            } else {
                let j = choose|j: int|
                    0 <= j < a1.len() && j < b1.len() && a1.subrange(0, j) == b1.subrange(0, j) && #[trigger] a1[j]
                        < b1[j];
                assert(a.subrange(0, j + 1) =~= b.subrange(0, j + 1)) by {
                    assert forall|k: int| 0 <= k < j + 1 implies #[trigger] a.subrange(0, j + 1)[k] == b.subrange(0, j + 1)[k] by {
                        if k > 0 {
                            assert(a1.subrange(0, j)[k - 1] == b1.subrange(0, j)[k - 1]);
                        }
                    }
                }
                assert(a[j + 1] == a1[j] && b[j + 1] == b1[j]);
            }
        } else {
            if a.len() < b.len() && a == b.subrange(0, a.len() as int) {
                assert(a1 =~= b1.subrange(0, a1.len() as int)) by {
                    assert forall|k: int| 0 <= k < a1.len() implies #[trigger] a1[k] == b1.subrange(0, a1.len() as int)[k] by {
                        assert(a[k + 1] == b.subrange(0, a.len() as int)[k + 1]);
                    }
                }
            }
            if exists|i: int|
                0 <= i < a.len() && i < b.len() && a.subrange(0, i) == b.subrange(0, i) && #[trigger] a[i]
                    < b[i] {
                let i = choose|i: int|
                    0 <= i < a.len() && i < b.len() && a.subrange(0, i) == b.subrange(0, i) && #[trigger] a[i]
                        < b[i];
                assert(i > 0);
                assert(a1.subrange(0, i - 1) =~= b1.subrange(0, i - 1)) by {
                    assert forall|k: int| 0 <= k < i - 1 implies #[trigger] a1.subrange(0, i - 1)[k] == b1.subrange(0, i - 1)[k] by {
                        assert(a.subrange(0, i)[k + 1] == b.subrange(0, i)[k + 1]);
                    }
                }
                assert(a1[i - 1] == a[i] && b1[i - 1] == b[i]);
            }
        }
    }
}

} // verus!
