use std::io::Write;

use flate2::write::ZlibEncoder;
use flate2::Compression;
use rgit::delta::{apply_delta, parse_type_size, read_varint};
use rgit::error::GitError;
use rgit::pack::{get_pack, hash_object, inflate, parse_pack, try_parse_pack, Pack};
use sha1::{Digest, Sha1};

fn zlib(data: &[u8]) -> Vec<u8> {
    let mut e = ZlibEncoder::new(Vec::new(), Compression::default());
    e.write_all(data).unwrap();
    e.finish().unwrap()
}

fn pack_of(count: u32, entries: &[u8]) -> Vec<u8> {
    let mut p = b"PACK".to_vec();
    p.extend(2u32.to_be_bytes());
    p.extend(count.to_be_bytes());
    p.extend(entries);
    let digest = Sha1::digest(&p);
    p.extend(digest.as_slice());
    p
}

const HELLO_SHA: &str = "b6fc4c620b67d95f953a5c1c1230aaab5db5a1b0";

fn hello_entry() -> Vec<u8> {
    let mut e = vec![0x35u8];
    e.extend(zlib(b"hello"));
    e
}

fn hello_world_delta() -> Vec<u8> {
    let mut d = vec![0x05u8, 0x0b, 0x90, 0x05, 0x06];
    d.extend(b" world");
    d
}

#[test]
fn read_varint_little_endian() {
    assert_eq!(read_varint(&[0x91, 0x2e], 0), (0x1711, 2));
    assert_eq!(read_varint(&[0xff, 0x05], 1), (5, 1));
    assert_eq!(read_varint(&[0x00], 0), (0, 1));
}

#[test]
fn parse_type_size_header() {
    assert_eq!(parse_type_size(&[0x95, 0x0a], 0), (1, 165, 2));
    assert_eq!(parse_type_size(&[0x00, 0x35], 1), (3, 5, 2));
    assert_eq!(parse_type_size(&[0xf0, 0x80, 0x01], 0), (7, 1 << 11, 3));
}

#[test]
fn apply_delta_copies_and_inserts() {
    assert_eq!(apply_delta(b"hello", &hello_world_delta()).unwrap(), b"hello world".to_vec());
    assert_eq!(apply_delta(b"", &[0x00, 0x03, 0x03, b'a', b'b', b'c']).unwrap(), b"abc".to_vec());
    // copy with an offset byte: offset 6, size 5
    assert_eq!(apply_delta(b"hello world", &[0x0b, 0x05, 0x91, 0x06, 0x05]).unwrap(), b"world".to_vec());
}

#[test]
fn apply_delta_errors() {
    assert!(matches!(apply_delta(b"", &[0x00, 0x00, 0x00]), Err(GitError::InvalidDeltaOpcode)));
    match apply_delta(b"", &[0x00, 0x05, 0x02, b'a', b'b']) {
        Err(GitError::DeltaSizeMismatch { expected, got }) => {
            assert_eq!(expected, 5);
            assert_eq!(got, 2);
        }
        other => panic!("unexpected {:?}", other),
    }
}

#[test]
fn hash_object_matches_git() {
    assert_eq!(hash_object(b"blob", b"hello"), HELLO_SHA);
}

#[test]
fn inflate_reports_consumed_bytes() {
    let mut data = zlib(b"abc");
    let n = data.len();
    data.extend(b"trailing");
    let (out, consumed) = inflate(&data).unwrap();
    assert_eq!(out, b"abc");
    assert_eq!(consumed, n);
    assert!(matches!(inflate(b"garbage"), Err(GitError::Inflate)));
}

#[test]
fn get_pack_checks_header_and_trailer() {
    let p = pack_of(1, &hello_entry());
    let pack = get_pack(&p).unwrap();
    assert_eq!(pack.count, 1);
    assert_eq!(pack.objects, &p[12..p.len() - 20]);
}

#[test]
fn get_pack_errors() {
    assert!(matches!(get_pack(&[0u8; 31]), Err(GitError::PackTooShort(31))));
    let mut p = pack_of(1, &hello_entry());
    p[0] = b'J';
    assert!(matches!(get_pack(&p), Err(GitError::BadPackMagic(m)) if m == b"JACK"));
    let mut p = pack_of(1, &hello_entry());
    p[7] = 3;
    assert!(matches!(get_pack(&p), Err(GitError::UnsupportedPackVersion(3))));
    let mut p = pack_of(1, &hello_entry());
    let last = p.len() - 1;
    p[last] ^= 1;
    assert!(matches!(get_pack(&p), Err(GitError::PackChecksumMismatch)));
}

#[test]
fn parse_pack_with_ref_delta() {
    let mut entries = hello_entry();
    let delta = hello_world_delta();
    entries.push(0x70 | delta.len() as u8);
    entries.extend(hex::decode(HELLO_SHA).unwrap());
    entries.extend(zlib(&delta));
    let p = pack_of(2, &entries);
    let pack = get_pack(&p).unwrap();
    let objs = parse_pack(&pack).unwrap();
    assert_eq!(objs.len(), 2);
    let hello = objs.get(&HELLO_SHA.to_string()).unwrap();
    assert_eq!(hello.kind, "blob");
    assert_eq!(hello.data, b"hello");
    let world_sha = hash_object(b"blob", b"hello world");
    let world = objs.get(&world_sha).unwrap();
    assert_eq!(world.kind, "blob");
    assert_eq!(world.data, b"hello world");
    assert_eq!(objs.objects().len(), 2);
}

#[test]
fn parse_pack_errors() {
    let mut entries = Vec::new();
    let delta = hello_world_delta();
    entries.push(0x70 | delta.len() as u8);
    entries.extend(hex::decode(HELLO_SHA).unwrap());
    entries.extend(zlib(&delta));
    let pack = Pack { count: 1, objects: &entries };
    match parse_pack(&pack) {
        Err(GitError::DeltaBaseMissing(s)) => assert_eq!(s, HELLO_SHA),
        other => panic!("unexpected {:?}", other),
    }
    let ofs = [0x60u8, 0x00];
    assert!(matches!(try_parse_pack(&Pack { count: 1, objects: &ofs }), Some(Err(GitError::Inflate))));
    let mut ofs = vec![0x60u8];
    ofs.extend(zlib(b"x"));
    assert!(matches!(parse_pack(&Pack { count: 1, objects: &ofs }), Err(GitError::OfsDeltaUnsupported)));
    let mut bad = vec![0x50u8];
    bad.extend(zlib(b"x"));
    assert!(matches!(parse_pack(&Pack { count: 1, objects: &bad }), Err(GitError::UnsupportedPackEntryType(5))));
    assert!(try_parse_pack(&Pack { count: 2, objects: &hello_entry() }).is_none());
    assert_eq!(parse_pack(&Pack { count: 0, objects: b"" }).unwrap().len(), 0);
}
