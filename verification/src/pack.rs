//! Packfiles: the `PACK` header, the checksum trailer, and the entries in
//! between, each a zlib-compressed object or a delta against an earlier one.
use vstd::prelude::*;

use crate::codec::{
    hex_encode, hex_text, sha1, sha1_digest, zlib_consumed, zlib_decoded, zlib_inflate,
};
use crate::delta::{
    delta_spec, entry_type, parse_type_size, run_delta, type_size_len, type_size_readable,
    DeltaOutcome, DeltaRun,
};
use crate::encode::{blob_tag, commit_tag, frame, framed, tag_tag, tree_tag};
use crate::error::GitError;
use crate::text::{bytes_equal, str_bytes};

verus! {

broadcast use {vstd::seq::group_seq_axioms, vstd::map::group_map_axioms};

/// A pack checked for its header and trailer: the number of entries it
/// announces, and the bytes of the entries.
pub struct Pack<'a> {
    pub count: u32,
    pub objects: &'a [u8],
}

/// The big-endian 32-bit number at `s[i..i + 4]`.
pub open spec fn be_u32(s: Seq<u8>, i: int) -> nat {
    (s[i] as nat) * 0x1000000 + (s[i + 1] as nat) * 0x10000 + (s[i + 2] as nat) * 0x100 + (s[i
        + 3] as nat)
}

/// `PACK`
pub open spec fn pack_magic() -> Seq<u8> {
    seq![0x50u8, 0x41, 0x43, 0x4b]
}

/// What checking a pack gives.
pub enum PackCheck {
    /// The announced count and the entry bytes.
    Valid(nat, Seq<u8>),
    /// Fewer than 32 bytes.
    TooShort,
    /// Not starting with `PACK`.
    BadMagic,
    /// A version other than 2 (given).
    BadVersion(nat),
    /// A trailer that is not the SHA-1 of the rest.
    BadChecksum,
}

/// What checking a pack gives: the count and the entry bytes, or what is wrong.
pub open spec fn get_pack_spec(bytes: Seq<u8>) -> PackCheck {
    let n = bytes.len() as int;
    if n < 32 {
        PackCheck::TooShort
    } else if bytes.subrange(0, 4) != pack_magic() {
        PackCheck::BadMagic
    } else if be_u32(bytes, 4) != 2 {
        PackCheck::BadVersion(be_u32(bytes, 4))
    } else if sha1_digest(bytes.subrange(0, n - 20)) != bytes.subrange(n - 20, n) {
        PackCheck::BadChecksum
    } else {
        PackCheck::Valid(be_u32(bytes, 8), bytes.subrange(12, n - 20))
    }
}

fn read_be_u32(b: &[u8], i: usize) -> (r: u32)
    requires
        i + 4 <= b.len(),
    ensures
        r as nat == be_u32(b@, i as int),
{
    (b[i] as u32) * 0x1000000 + (b[i + 1] as u32) * 0x10000 + (b[i + 2] as u32) * 0x100 + (b[i
        + 3] as u32)
}

/// Checks a pack: at least a header and a trailer, the `PACK` magic,
/// version 2, and a trailer that is the SHA-1 of everything before it.
pub fn get_pack(bytes: &[u8]) -> (r: Result<Pack<'_>, GitError>)
    ensures
        match get_pack_spec(bytes@) {
            PackCheck::Valid(count, objects) => r matches Ok(p) && p.count == count && p.objects@
                == objects,
            PackCheck::TooShort => r matches Err(GitError::PackTooShort(n)) && n == bytes@.len(),
            PackCheck::BadMagic => r matches Err(GitError::BadPackMagic(m)) && m@ == bytes@.subrange(
                0,
                4,
            ),
            PackCheck::BadVersion(v) => r matches Err(GitError::UnsupportedPackVersion(rv)) && rv
                == v,
            PackCheck::BadChecksum => r matches Err(GitError::PackChecksumMismatch),
        },
{
    let n = bytes.len();
    if n < 32 {
        return Err(GitError::PackTooShort(n));
    }
    let magic: [u8; 4] = [0x50, 0x41, 0x43, 0x4b];
    assert(magic@ =~= pack_magic());
    if !bytes_equal(&bytes[0..4], magic.as_slice()) {
        return Err(GitError::BadPackMagic(vstd::slice::slice_to_vec(&bytes[0..4])));
    }
    let version = read_be_u32(bytes, 4);
    if version != 2 {
        return Err(GitError::UnsupportedPackVersion(version));
    }
    let count = read_be_u32(bytes, 8);
    let body = &bytes[0..n - 20];
    let trailer = &bytes[n - 20..n];
    let actual = sha1(body);
    if !bytes_equal(actual.as_slice(), trailer) {
        return Err(GitError::PackChecksumMismatch);
    }
    let objects = &body[12..body.len()];
    assert(objects@ =~= bytes@.subrange(12, n - 20));
    Ok(Pack { count, objects })
}

/// Inflates the zlib stream at the start of `data`: the bytes it holds and
/// how many bytes of `data` it took, so that a reader can move past it.
pub fn inflate(data: &[u8]) -> (r: Result<(Vec<u8>, usize), GitError>)
    ensures
        match r {
            Ok((out, n)) => zlib_decoded(data@) == Some(out@) && n == zlib_consumed(data@) && n
                <= data@.len(),
            Err(e) => zlib_decoded(data@) is None && e is Inflate,
        },
{
    match zlib_inflate(data) {
        Some(x) => Ok(x),
        None => Err(GitError::Inflate),
    }
}

/// The SHA-1, as hexadecimal text, of an object of the given type and content.
pub fn hash_object(obj_type: &[u8], content: &[u8]) -> (sha: String)
    ensures
        sha@ == hex_text(sha1_digest(framed(obj_type@, content@))),
{
    let buf = frame(obj_type, content);
    crate::encode::sha1_of(buf.as_slice())
}

/// One object read from a pack: its id, type and content.
#[derive(Debug)]
pub struct PackedObject {
    pub sha: String,
    pub kind: String,
    pub data: Vec<u8>,
}

/// The objects of a pack, by id.
pub open spec fn objects_map(s: Seq<(Seq<char>, (Seq<u8>, Seq<u8>))>) -> Map<
    Seq<char>,
    (Seq<u8>, Seq<u8>),
>
    decreases s.len(),
{
    if s.len() == 0 {
        Map::empty()
    } else {
        objects_map(s.drop_last()).insert(s.last().0, s.last().1)
    }
}

pub open spec fn distinct_keys(s: Seq<(Seq<char>, (Seq<u8>, Seq<u8>))>) -> bool {
    forall|i: int, j: int| 0 <= i < s.len() && 0 <= j < s.len() && i != j ==> s[i].0 != s[j].0
}

proof fn lemma_objects_map_dom(s: Seq<(Seq<char>, (Seq<u8>, Seq<u8>))>, k: Seq<char>)
    ensures
        objects_map(s).dom().contains(k) <==> exists|i: int| 0 <= i < s.len() && s[i].0 == k,
    decreases s.len(),
{
    if s.len() > 0 {
        lemma_objects_map_dom(s.drop_last(), k);
        if exists|i: int| 0 <= i < s.len() && s[i].0 == k {
            let i = choose|i: int| 0 <= i < s.len() && s[i].0 == k;
            if i < s.len() - 1 {
                assert(s.drop_last()[i] == s[i]);
            }
        }
        if exists|i: int| 0 <= i < s.len() - 1 && s.drop_last()[i].0 == k {
            let i = choose|i: int| 0 <= i < s.len() - 1 && s.drop_last()[i].0 == k;
            assert(s[i] == s.drop_last()[i]);
        }
    }
}

proof fn lemma_objects_map_at(s: Seq<(Seq<char>, (Seq<u8>, Seq<u8>))>, i: int)
    requires
        distinct_keys(s),
        0 <= i < s.len(),
    ensures
        objects_map(s).dom().contains(s[i].0),
        objects_map(s)[s[i].0] == s[i].1,
    decreases s.len(),
{
    if i < s.len() - 1 {
        let d = s.drop_last();
        assert(d[i] == s[i]);
        assert forall|a: int, b: int| 0 <= a < d.len() && 0 <= b < d.len() && a != b implies d[a].0
            != d[b].0 by {
            assert(d[a] == s[a] && d[b] == s[b]);
        }
        lemma_objects_map_at(d, i);
        assert(s.last().0 != s[i].0);
    }
}

proof fn lemma_objects_map_update(
    s: Seq<(Seq<char>, (Seq<u8>, Seq<u8>))>,
    i: int,
    e: (Seq<char>, (Seq<u8>, Seq<u8>)),
)
    requires
        distinct_keys(s),
        0 <= i < s.len(),
        s[i].0 == e.0,
    ensures
        objects_map(s.update(i, e)) == objects_map(s).insert(e.0, e.1),
    decreases s.len(),
{
    let u = s.update(i, e);
    if i == s.len() - 1 {
        assert(u.drop_last() =~= s.drop_last());
        assert(objects_map(u) =~= objects_map(s).insert(e.0, e.1));
    } else {
        let d = s.drop_last();
        assert forall|a: int, b: int| 0 <= a < d.len() && 0 <= b < d.len() && a != b implies d[a].0
            != d[b].0 by {
            assert(d[a] == s[a] && d[b] == s[b]);
        }
        lemma_objects_map_update(d, i, e);
        assert(u.drop_last() =~= d.update(i, e));
        assert(s.last().0 != s[i].0);
        assert(objects_map(u) =~= objects_map(s).insert(e.0, e.1));
    }
}

proof fn lemma_objects_map_len(s: Seq<(Seq<char>, (Seq<u8>, Seq<u8>))>)
    requires
        distinct_keys(s),
    ensures
        objects_map(s).dom().finite(),
        objects_map(s).dom().len() == s.len(),
    decreases s.len(),
{
    if s.len() > 0 {
        let d = s.drop_last();
        assert forall|a: int, b: int| 0 <= a < d.len() && 0 <= b < d.len() && a != b implies d[a].0
            != d[b].0 by {
            assert(d[a] == s[a] && d[b] == s[b]);
        }
        lemma_objects_map_len(d);
        lemma_objects_map_dom(d, s.last().0);
        if objects_map(d).dom().contains(s.last().0) {
            let i = choose|i: int| 0 <= i < d.len() && d[i].0 == s.last().0;
            assert(s[i] == d[i]);
        }
        assert(objects_map(s).dom() == objects_map(d).dom().insert(s.last().0));
    } else {
        assert(objects_map(s).dom() =~= Set::<Seq<char>>::empty());
    }
}

/// The objects read from a pack, by id.
#[derive(Debug)]
pub struct PackObjects {
    entries: Vec<PackedObject>,
}

pub open spec fn packed_view(o: PackedObject) -> (Seq<char>, (Seq<u8>, Seq<u8>)) {
    (o.sha@, (str_bytes(o.kind), o.data@))
}

impl PackObjects {
    pub closed spec fn pairs(self) -> Seq<(Seq<char>, (Seq<u8>, Seq<u8>))> {
        Seq::new(self.entries@.len(), |i: int| packed_view(self.entries@[i]))
    }

    #[verifier::type_invariant]
    spec fn inv(self) -> bool {
        distinct_keys(self.pairs())
    }

    /// Each object's id mapped to its type and content.
    pub closed spec fn view_map(self) -> Map<Seq<char>, (Seq<u8>, Seq<u8>)> {
        objects_map(self.pairs())
    }

    /// No objects.
    pub fn new() -> (r: Self)
        ensures
            r.view_map() == Map::<Seq<char>, (Seq<u8>, Seq<u8>)>::empty(),
    {
        let r = PackObjects { entries: Vec::new() };
        assert(r.pairs() =~= Seq::<(Seq<char>, (Seq<u8>, Seq<u8>))>::empty());
        r
    }

    /// The number of objects.
    pub fn len(&self) -> (n: usize)
        ensures
            self.view_map().dom().finite(),
            n == self.view_map().dom().len(),
    {
        proof {
            use_type_invariant(self);
            lemma_objects_map_len(self.pairs());
        }
        self.entries.len()
    }

    fn index_of(&self, sha: &String) -> (r: Option<usize>)
        ensures
            match r {
                Some(i) => i < self.entries@.len() && self.pairs()[i as int].0 == sha@,
                None => forall|i: int| 0 <= i < self.pairs().len() ==> self.pairs()[i].0 != sha@,
            },
    {
        let mut i: usize = 0;
        while i < self.entries.len()
            invariant
                i <= self.entries@.len(),
                forall|j: int| 0 <= j < i ==> self.pairs()[j].0 != sha@,
            decreases self.entries.len() - i,
        {
            if self.entries[i].sha == *sha {
                return Some(i);
            }
            i = i + 1;
        }
        None
    }

    /// The object with the given id.
    pub fn get(&self, sha: &String) -> (r: Option<&PackedObject>)
        ensures
            match r {
                Some(o) => self.view_map().dom().contains(sha@) && self.view_map()[sha@] == (
                    str_bytes(o.kind),
                    o.data@,
                ) && o.sha@ == sha@,
                None => !self.view_map().dom().contains(sha@),
            },
    {
        proof {
            use_type_invariant(self);
            lemma_objects_map_dom(self.pairs(), sha@);
        }
        match self.index_of(sha) {
            Some(i) => {
                proof {
                    lemma_objects_map_at(self.pairs(), i as int);
                }
                Some(&self.entries[i])
            },
            None => None,
        }
    }

    /// Records an object under its id, replacing one recorded before.
    pub fn insert(&mut self, obj: PackedObject)
        ensures
            final(self).view_map() == old(self).view_map().insert(obj.sha@, (str_bytes(obj.kind), obj.data@)),
    {
        proof {
            use_type_invariant(&*self);
        }
        let ghost e = packed_view(obj);
        let ghost before = self.pairs();
        match self.index_of(&obj.sha) {
            Some(i) => {
                let mut entries = Vec::new();
                std::mem::swap(&mut entries, &mut self.entries);
                entries.set(i, obj);
                proof {
                    let ps = Seq::new(entries@.len(), |j: int| packed_view(entries@[j]));
                    assert(ps =~= before.update(i as int, e));
                    lemma_objects_map_update(before, i as int, e);
                }
                self.entries = entries;
            },
            None => {
                let mut entries = Vec::new();
                std::mem::swap(&mut entries, &mut self.entries);
                entries.push(obj);
                proof {
                    let ps = Seq::new(entries@.len(), |j: int| packed_view(entries@[j]));
                    assert(ps =~= before.push(e));
                    assert(ps.drop_last() =~= before);
                }
                self.entries = entries;
            },
        }
    }

    /// The objects, in the order they were first recorded.
    pub fn objects(&self) -> (r: &[PackedObject])
        ensures
            forall|i: int| 0 <= i < r@.len() ==> self.view_map().dom().contains(#[trigger] r@[i].sha@)
                && self.view_map()[r@[i].sha@] == (str_bytes(r@[i].kind), r@[i].data@),
            r@.len() == self.view_map().dom().len(),
    {
        proof {
            use_type_invariant(self);
            lemma_objects_map_len(self.pairs());
            assert forall|i: int| 0 <= i < self.entries@.len() implies self.view_map().dom().contains(
                #[trigger] self.entries@[i].sha@,
            ) && self.view_map()[self.entries@[i].sha@] == (
                str_bytes(self.entries@[i].kind),
                self.entries@[i].data@,
            ) by {
                lemma_objects_map_at(self.pairs(), i);
            }
        }
        self.entries.as_slice()
    }
}

/// The type name of a pack entry type 1 to 4.
pub open spec fn kind_name(t: u8) -> Seq<u8> {
    if t == 1 {
        commit_tag()
    } else if t == 2 {
        tree_tag()
    } else if t == 3 {
        blob_tag()
    } else {
        tag_tag()
    }
}

/// How reading a pack ends: with the objects, with an error, at a delta
/// whose base was not seen (its id given), or where an entry reaches past
/// the end of the pack or a delta out of its bounds.
pub enum PackOutcome {
    Done(Map<Seq<char>, (Seq<u8>, Seq<u8>)>),
    Failed(GitError),
    MissingBase(Seq<char>),
    Malformed,
}

/// Reading one entry: either the next position and the objects so far, or the end.
pub enum PackStep {
    Next(int, Map<Seq<char>, (Seq<u8>, Seq<u8>)>),
    Stop(PackOutcome),
}

/// The type and content of an entry, from its type, its inflated data and
/// the base id of a ref-delta.
pub open spec fn entry_content(
    t: u8,
    raw: Seq<u8>,
    base_sha: Seq<char>,
    objs: Map<Seq<char>, (Seq<u8>, Seq<u8>)>,
) -> Result<(Seq<u8>, Seq<u8>), PackOutcome> {
    if 1 <= t <= 4 {
        Ok((kind_name(t), raw))
    } else if t == 7 {
        if objs.dom().contains(base_sha) {
            match delta_spec(objs[base_sha].1, raw) {
                DeltaOutcome::Done(c) => Ok((objs[base_sha].0, c)),
                DeltaOutcome::InvalidOpcode => Err(PackOutcome::Failed(GitError::InvalidDeltaOpcode)),
                DeltaOutcome::SizeMismatch(e, g) => Err(
                    PackOutcome::Failed(
                        GitError::DeltaSizeMismatch { expected: e as usize, got: g as usize },
                    ),
                ),
                DeltaOutcome::OutOfBounds => Err(PackOutcome::Malformed),
            }
        } else {
            Err(PackOutcome::MissingBase(base_sha))
        }
    } else if t == 6 {
        Err(PackOutcome::Failed(GitError::OfsDeltaUnsupported))
    } else {
        Err(PackOutcome::Failed(GitError::UnsupportedPackEntryType(t)))
    }
}

/// Reads the entry at `cursor`: its header, the base id of a ref-delta, the
/// zlib stream, and records the object under the SHA-1 of its loose form.
pub open spec fn pack_step(stream: Seq<u8>, cursor: int, objs: Map<Seq<char>, (Seq<u8>, Seq<u8>)>) -> PackStep {
    if !(0 <= cursor <= stream.len()) {
        PackStep::Stop(PackOutcome::Malformed)
    } else {
        let s = stream.subrange(cursor, stream.len() as int);
        if !type_size_readable(s) {
            PackStep::Stop(PackOutcome::Malformed)
        } else {
            let t = entry_type(s);
            let p1 = cursor + type_size_len(s).unwrap();
            if t == 7 && p1 + 20 > stream.len() {
                PackStep::Stop(PackOutcome::Malformed)
            } else {
                let base_sha = hex_text(stream.subrange(p1, p1 + 20));
                let p2 = if t == 7 {
                    p1 + 20
                } else {
                    p1
                };
                let z = stream.subrange(p2, stream.len() as int);
                match zlib_decoded(z) {
                    None => PackStep::Stop(PackOutcome::Failed(GitError::Inflate)),
                    Some(raw) => match entry_content(t, raw, base_sha, objs) {
                        Err(o) => PackStep::Stop(o),
                        Ok((kind, content)) => PackStep::Next(
                            p2 + zlib_consumed(z),
                            objs.insert(
                                hex_text(sha1_digest(framed(kind, content))),
                                (kind, content),
                            ),
                        ),
                    },
                }
            }
        }
    }
}

/// Reads `n` entries from `cursor` on.
pub open spec fn pack_run(
    stream: Seq<u8>,
    n: nat,
    cursor: int,
    objs: Map<Seq<char>, (Seq<u8>, Seq<u8>)>,
) -> PackOutcome
    decreases n,
{
    if n == 0 {
        PackOutcome::Done(objs)
    } else {
        match pack_step(stream, cursor, objs) {
            PackStep::Stop(o) => o,
            PackStep::Next(c, m) => pack_run(stream, (n - 1) as nat, c, m),
        }
    }
}

/// The objects of a pack's entries.
pub open spec fn parse_pack_spec(objects: Seq<u8>, count: nat) -> PackOutcome {
    pack_run(objects, count, 0, Map::empty())
}

/// Whether a result is the one an outcome describes (`None` where the pack
/// reaches out of its bounds).
pub open spec fn pack_matches(o: PackOutcome, r: Option<Result<PackObjects, GitError>>) -> bool {
    match o {
        PackOutcome::Done(m) => r matches Some(Ok(objs)) && objs.view_map() == m,
        PackOutcome::Failed(e) => r == Some(Err::<PackObjects, GitError>(e)),
        PackOutcome::MissingBase(sha) => r matches Some(Err(GitError::DeltaBaseMissing(s)))
            && s@ == sha,
        PackOutcome::Malformed => r is None,
    }
}

fn kind_bytes(t: u8) -> (r: Vec<u8>)
    requires
        1 <= t <= 4,
    ensures
        r@ == kind_name(t),
{
    if t == 1 {
        let b: [u8; 6] = [0x63, 0x6f, 0x6d, 0x6d, 0x69, 0x74];
        assert(b@ =~= commit_tag());
        vstd::slice::slice_to_vec(b.as_slice())
    } else if t == 2 {
        let b: [u8; 4] = [0x74, 0x72, 0x65, 0x65];
        assert(b@ =~= tree_tag());
        vstd::slice::slice_to_vec(b.as_slice())
    } else if t == 3 {
        let b: [u8; 4] = [0x62, 0x6c, 0x6f, 0x62];
        assert(b@ =~= blob_tag());
        vstd::slice::slice_to_vec(b.as_slice())
    } else {
        let b: [u8; 3] = [0x74, 0x61, 0x67];
        assert(b@ =~= tag_tag());
        vstd::slice::slice_to_vec(b.as_slice())
    }
}

/// How one entry was read.
enum EntryRead {
    Next(usize),
    Stop(Option<GitError>),
}

/// Reads the entry at `cursor` into `objs`.
fn read_entry(stream: &[u8], cursor: usize, objs: &mut PackObjects) -> (r: EntryRead)
    requires
        cursor <= stream.len(),
    ensures
        match pack_step(stream@, cursor as int, old(objs).view_map()) {
            PackStep::Next(c, m) => r matches EntryRead::Next(nc) && nc == c && final(objs).view_map()
                == m,
            PackStep::Stop(o) => r matches EntryRead::Stop(e) && pack_matches(
                o,
                match e {
                    Some(err) => Some(Err(err)),
                    None => None,
                },
            ),
        },
{
    let ghost s = stream@.subrange(cursor as int, stream@.len() as int);
    if !header_readable(stream, cursor) {
        return EntryRead::Stop(None);
    }
    let (obj_type, _size, p1) = parse_type_size(stream, cursor);
    if obj_type == 7 && (stream.len() < 20 || p1 > stream.len() - 20) {
        return EntryRead::Stop(None);
    }
    let mut base_sha: Option<String> = None;
    let mut p2 = p1;
    if obj_type == 7 {
        base_sha = Some(hex_encode(&stream[p1..p1 + 20]));
        p2 = p1 + 20;
    }
    let (raw, consumed) = match inflate(&stream[p2..stream.len()]) {
        Ok(x) => x,
        Err(e) => return EntryRead::Stop(Some(e)),
    };
    let ghost z = stream@.subrange(p2 as int, stream@.len() as int);
    let (kind_s, content): (String, Vec<u8>) = if 1 <= obj_type && obj_type <= 4 {
        (crate::text::ascii_to_string(kind_bytes(obj_type).as_slice()), raw)
    } else if obj_type == 7 {
        let sha = match base_sha {
            Some(s) => s,
            None => {
                assert(false);
                return EntryRead::Stop(None);
            },
        };
        match objs.get(&sha) {
            None => return EntryRead::Stop(Some(GitError::DeltaBaseMissing(sha))),
            Some(base) => {
                match run_delta(base.data.as_slice(), raw.as_slice()) {
                    DeltaRun::Done(c) => (base.kind.clone(), c),
                    DeltaRun::InvalidOpcode => return EntryRead::Stop(
                        Some(GitError::InvalidDeltaOpcode),
                    ),
                    DeltaRun::SizeMismatch(expected, got) => return EntryRead::Stop(
                        Some(GitError::DeltaSizeMismatch { expected, got }),
                    ),
                    DeltaRun::OutOfBounds => return EntryRead::Stop(None),
                }
            },
        }
    } else if obj_type == 6 {
        return EntryRead::Stop(Some(GitError::OfsDeltaUnsupported));
    } else {
        return EntryRead::Stop(Some(GitError::UnsupportedPackEntryType(obj_type)));
    };
    let kind = crate::text::string_to_bytes(&kind_s);
    let sha = hash_object(kind.as_slice(), content.as_slice());
    objs.insert(PackedObject { sha, kind: kind_s, data: content });
    EntryRead::Next(p2 + consumed)
}

/// Whether an entry header can be read at `cursor`.
fn header_readable(stream: &[u8], cursor: usize) -> (r: bool)
    requires
        cursor <= stream.len(),
    ensures
        r == type_size_readable(stream@.subrange(cursor as int, stream@.len() as int)),
{
    if cursor == stream.len() {
        return false;
    }
    let ghost s = stream@.subrange(cursor as int, stream@.len() as int);
    if stream[cursor] < 0x80 {
        assert(s[0] == stream@[cursor as int]);
        return true;
    }
    assert(s.drop_first() =~= stream@.subrange(cursor + 1, stream@.len() as int));
    match crate::delta::varint_prefix_len(stream, cursor + 1) {
        Some(m) => crate::delta::fits_shift4(m),
        None => false,
    }
}

/// Reads every entry of a pack; `None` where an entry reaches past the end
/// of the pack or a delta out of its bounds.
pub fn try_parse_pack(pack: &Pack) -> (r: Option<Result<PackObjects, GitError>>)
    ensures
        pack_matches(parse_pack_spec(pack.objects@, pack.count as nat), r),
{
    let stream = pack.objects;
    let mut cursor: usize = 0;
    let mut objs = PackObjects::new();
    let mut k: u32 = 0;
    while k < pack.count
        invariant
            k <= pack.count,
            stream@ == pack.objects@,
            parse_pack_spec(pack.objects@, pack.count as nat) == pack_run(
                stream@,
                (pack.count - k) as nat,
                cursor as int,
                objs.view_map(),
            ),
        decreases pack.count - k,
    {
        if cursor > stream.len() {
            return None;
        }
        match read_entry(stream, cursor, &mut objs) {
            EntryRead::Next(c) => {
                cursor = c;
            },
            EntryRead::Stop(Some(e)) => return Some(Err(e)),
            EntryRead::Stop(None) => return None,
        }
        k = k + 1;
    }
    Some(Ok(objs))
}

/// Reads every entry of a pack, rebuilding ref-deltas from their bases, and
/// gives the objects by id.
pub fn parse_pack(pack: &Pack) -> (r: Result<PackObjects, GitError>)
    requires
        !(parse_pack_spec(pack.objects@, pack.count as nat) is Malformed),
    ensures
        pack_matches(parse_pack_spec(pack.objects@, pack.count as nat), Some(r)),
{
    match try_parse_pack(pack) {
        Some(r) => r,
        None => {
            assert(false);
            Err(GitError::PackEntryOutOfBounds)
        },
    }
}

/// Every object is recorded under the SHA-1 of its loose form.
pub open spec fn ids_match(m: Map<Seq<char>, (Seq<u8>, Seq<u8>)>) -> bool {
    forall|k: Seq<char>| #[trigger]
        m.dom().contains(k) ==> k == hex_text(sha1_digest(framed(m[k].0, m[k].1)))
}

proof fn lemma_pack_run_ids(
    stream: Seq<u8>,
    n: nat,
    cursor: int,
    m: Map<Seq<char>, (Seq<u8>, Seq<u8>)>,
)
    requires
        ids_match(m),
    ensures
        pack_run(stream, n, cursor, m) matches PackOutcome::Done(m2) ==> ids_match(m2),
    decreases n,
{
    if n > 0 {
        match pack_step(stream, cursor, m) {
            PackStep::Stop(_) => {},
            PackStep::Next(c, m2) => {
                assert(ids_match(m2));
                lemma_pack_run_ids(stream, (n - 1) as nat, c, m2);
            },
        }
    }
}

/// Reading a pack records each object under the SHA-1 of its loose form
/// (`<type> <size>\0<content>`): the id that storing the object gives.
pub proof fn law_pack_ids(objects: Seq<u8>, count: nat)
    ensures
        parse_pack_spec(objects, count) matches PackOutcome::Done(m) ==> ids_match(m),
{
    lemma_pack_run_ids(objects, count, 0, Map::empty());
}


/// The header of a pack is read big-endian: a pack that starts with `PACK`,
/// the version bytes `00 00 00 02` and the four bytes of `c` most
/// significant first, and whose trailer is the SHA-1 of the rest, is
/// accepted with count `c` and the bytes between header and trailer.
pub proof fn law_pack_header(bytes: Seq<u8>, c: nat)
    requires
        bytes.len() >= 32,
        c < 0x100000000,
        bytes.subrange(0, 4) == seq![0x50u8, 0x41, 0x43, 0x4b],
        bytes[4] == 0 && bytes[5] == 0 && bytes[6] == 0 && bytes[7] == 2,
        bytes[8] == c / 0x1000000,
        bytes[9] == c / 0x10000 % 0x100,
        bytes[10] == c / 0x100 % 0x100,
        bytes[11] == c % 0x100,
        sha1_digest(bytes.subrange(0, bytes.len() - 20)) == bytes.subrange(
            bytes.len() - 20,
            bytes.len() as int,
        ),
    ensures
        get_pack_spec(bytes) == PackCheck::Valid(c, bytes.subrange(12, bytes.len() - 20)),
{
    assert(pack_magic() == seq![0x50u8, 0x41, 0x43, 0x4b]);
    let (b8, b9, b10, b11) = (bytes[8] as int, bytes[9] as int, bytes[10] as int, bytes[11] as int);
    assert(b8 * 0x1000000 + b9 * 0x10000 + b10 * 0x100 + b11 == c) by (nonlinear_arith)
        requires
            c < 0x100000000,
            b8 == c / 0x1000000,
            b9 == c / 0x10000 % 0x100,
            b10 == c / 0x100 % 0x100,
            b11 == c % 0x100,
    ;
}

/// A pack entry of type 1 is a commit, 2 a tree, 3 a blob and 4 a tag: a
/// pack of one such entry (a one-byte header of type `t` and any size bits,
/// then the zlib stream of the content) gives that one object, recorded
/// with its type name under the SHA-1 of `<name> <size>\0<content>`.
pub proof fn law_pack_entry_kinds(t: u8, low: u8, z: Seq<u8>, content: Seq<u8>)
    requires
        1 <= t <= 4,
        low < 16,
        zlib_decoded(z) == Some(content),
    ensures
        ({
            let name: Seq<u8> = if t == 1 {
                seq![0x63u8, 0x6f, 0x6d, 0x6d, 0x69, 0x74]
            } else if t == 2 {
                seq![0x74u8, 0x72, 0x65, 0x65]
            } else if t == 3 {
                seq![0x62u8, 0x6c, 0x6f, 0x62]
            } else {
                seq![0x74u8, 0x61, 0x67]
            };
            parse_pack_spec(seq![(t * 16 + low) as u8] + z, 1) == PackOutcome::Done(
                Map::<Seq<char>, (Seq<u8>, Seq<u8>)>::empty().insert(
                    hex_text(sha1_digest(framed(name, content))),
                    (name, content),
                ),
            )
        }),
{
    let h: u8 = (t * 16 + low) as u8;
    let stream = seq![h] + z;
    assert(stream.subrange(0, stream.len() as int) =~= stream);
    assert(stream[0] == h);
    assert(h < 0x80 && (h >> 4) & 0x07 == t) by (bit_vector)
        requires
            1 <= t <= 4,
            low < 16,
            h == t * 16 + low,
    ;
    assert(stream.subrange(1, stream.len() as int) =~= z);
    let name: Seq<u8> = if t == 1 {
        seq![0x63u8, 0x6f, 0x6d, 0x6d, 0x69, 0x74]
    } else if t == 2 {
        seq![0x74u8, 0x72, 0x65, 0x65]
    } else if t == 3 {
        seq![0x62u8, 0x6c, 0x6f, 0x62]
    } else {
        seq![0x74u8, 0x61, 0x67]
    };
    assert(kind_name(t) == name);
    assert(pack_run(stream, 0, (1 + zlib_consumed(z)) as int, Map::empty().insert(
        hex_text(sha1_digest(framed(name, content))),
        (name, content),
    )) == PackOutcome::Done(Map::<Seq<char>, (Seq<u8>, Seq<u8>)>::empty().insert(
        hex_text(sha1_digest(framed(name, content))),
        (name, content),
    )));
}

} // verus!
