use rgit::discovery::{parse_advertisement, try_parse_advertisement};
use rgit::error::GitError;
use rgit::pktline::PktLine;

const SHA1: &str = "4b825dc642cb6eb9a060e54bf8d69288fbee4904";
const SHA2: &str = "e69de29bb2d1d6434b8b29ae775ad8c2e48c5391";

fn pkt(data: &[u8]) -> Vec<u8> {
    PktLine::data(data).encode()
}

fn advertisement(first: &[u8], second: &[u8]) -> Vec<u8> {
    let mut buf = Vec::new();
    buf.extend(pkt(b"# service=git-upload-pack\n"));
    buf.extend(PktLine::flush().encode());
    buf.extend(pkt(first));
    buf.extend(pkt(second));
    buf.extend(PktLine::flush().encode());
    buf
}

#[test]
fn advertisement_refs_and_capabilities() {
    let first = format!("{} HEAD\0multi_ack side-band\n", SHA1);
    let second = format!("{} refs/heads/main\n", SHA2);
    let buf = advertisement(first.as_bytes(), second.as_bytes());
    let adv = parse_advertisement(&buf).unwrap();
    assert_eq!(adv.refs.len(), 2);
    assert_eq!(adv.refs[0].sha, SHA1);
    assert_eq!(adv.refs[0].name, "HEAD");
    assert_eq!(adv.refs[1].sha, SHA2);
    assert_eq!(adv.refs[1].name, "refs/heads/main");
    assert_eq!(adv.capabilities, vec!["\0multi_ack".to_string(), "side-band\n".to_string()]);
}

#[test]
fn lines_outside_the_ref_section_are_ignored() {
    let first = format!("{} HEAD\0cap\n", SHA1);
    let mut buf = advertisement(first.as_bytes(), format!("{} x\n", SHA2).as_bytes());
    buf.extend(pkt(b"ignored line without space"));
    let adv = parse_advertisement(&buf).unwrap();
    assert_eq!(adv.refs.len(), 2);
}

#[test]
fn ref_line_without_space_cannot_be_read() {
    let first = format!("{}HEAD\0cap\n", SHA1);
    let buf = advertisement(first.as_bytes(), b"x y");
    assert!(try_parse_advertisement(&buf).is_none());
    let buf = advertisement(format!("{} HEAD\0c\n", SHA1).as_bytes(), b"nospace");
    assert!(try_parse_advertisement(&buf).is_none());
}

#[test]
fn first_ref_line_needs_a_nul() {
    let buf = advertisement(format!("{} HEAD\n", SHA1).as_bytes(), b"x y");
    assert!(try_parse_advertisement(&buf).is_none());
}

#[test]
fn invalid_utf8_is_an_error() {
    let mut second = format!("{} ", SHA2).into_bytes();
    second.push(0xff);
    let buf = advertisement(format!("{} HEAD\0c\n", SHA1).as_bytes(), &second);
    assert!(matches!(try_parse_advertisement(&buf), Some(Err(GitError::InvalidUtf8))));
}

#[test]
fn reading_stops_at_a_bad_line() {
    let mut buf = advertisement(format!("{} HEAD\0c\n", SHA1).as_bytes(), b"a b");
    let cut = buf.len() - 4;
    buf.truncate(cut);
    buf.extend(b"00zz");
    let adv = parse_advertisement(&buf).unwrap();
    assert_eq!(adv.refs.len(), 2);
}
