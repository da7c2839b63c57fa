use rgit::error::GitError;
use rgit::negotiate::{build_request, clone_request, strip_nak};
use rgit::pktline::{parse_len, PktLine, PktLineReader};

#[test]
fn parse_len_reads_hex() {
    assert_eq!(parse_len(b"0000").unwrap(), 0);
    assert_eq!(parse_len(b"001e").unwrap(), 30);
    assert_eq!(parse_len(b"FFFF").unwrap(), 65535);
    assert_eq!(parse_len(b"00aB").unwrap(), 0xab);
}

#[test]
fn parse_len_accepts_plus_sign() {
    assert_eq!(parse_len(b"+0ff").unwrap(), 255);
}

#[test]
fn parse_len_rejects_non_hex() {
    assert!(matches!(parse_len(b"00g0"), Err(GitError::PktBadLength)));
    assert!(matches!(parse_len(b"-001"), Err(GitError::PktBadLength)));
    assert!(matches!(parse_len(b"+"), Err(GitError::PktBadLength)));
    assert!(matches!(parse_len(b""), Err(GitError::PktBadLength)));
}

#[test]
fn reader_yields_lines_then_none() {
    let buf = b"0009hello0000000100020004";
    let mut r = PktLineReader::new(buf);
    match r.next() {
        Some(Ok(PktLine::Data(d))) => assert_eq!(d, b"hello"),
        other => panic!("unexpected {:?}", other),
    }
    assert!(matches!(r.next(), Some(Ok(PktLine::Flush))));
    assert!(matches!(r.next(), Some(Ok(PktLine::Delim))));
    assert!(matches!(r.next(), Some(Ok(PktLine::ResponseEnd))));
    match r.next() {
        Some(Ok(PktLine::Data(d))) => assert!(d.is_empty()),
        other => panic!("unexpected {:?}", other),
    }
    assert!(r.next().is_none());
    assert!(r.remaining().is_empty());
}

#[test]
fn reader_errors() {
    let mut r = PktLineReader::new(b"00");
    assert!(matches!(r.next(), Some(Err(GitError::PktHeaderTooShort))));
    assert!(r.next().is_none());

    let mut r = PktLineReader::new(b"0003abc");
    assert!(matches!(r.next(), Some(Err(GitError::PktInvalidLength))));
    assert!(r.next().is_none());

    let mut r = PktLineReader::new(b"0010abc");
    assert!(matches!(r.next(), Some(Err(GitError::PktTruncated))));
    assert!(r.next().is_none());

    let mut r = PktLineReader::new(b"zzzzabc");
    assert!(matches!(r.next(), Some(Err(GitError::PktBadLength))));
}

#[test]
fn reader_remaining_after_a_line() {
    let mut r = PktLineReader::new(b"0008NAK\nPACK");
    assert!(r.next().is_some());
    assert_eq!(r.remaining(), b"PACK");
}

#[test]
fn reading_on_reads_what_remains() {
    let buf: &[u8] = b"0009want\n00000006ab";
    let mut r = PktLineReader::new(buf);
    assert!(matches!(r.next(), Some(Ok(PktLine::Data(d))) if d == b"want\n"));
    let rest = r.remaining();
    assert_eq!(rest, b"00000006ab");
    let mut fresh = PktLineReader::new(rest);
    assert!(matches!(r.next(), Some(Ok(PktLine::Flush))));
    assert!(matches!(fresh.next(), Some(Ok(PktLine::Flush))));
    assert_eq!(r.remaining(), fresh.remaining());
    assert!(matches!(r.next(), Some(Ok(PktLine::Data(d))) if d == b"ab"));
    assert!(matches!(fresh.next(), Some(Ok(PktLine::Data(d))) if d == b"ab"));
    assert!(r.next().is_none());
}

#[test]
fn trimmed_strips_one_newline() {
    assert_eq!(PktLine::Data(b"abc\n").trimmed(), Some(&b"abc"[..]));
    assert_eq!(PktLine::Data(b"abc\n\n").trimmed(), Some(&b"abc\n"[..]));
    assert_eq!(PktLine::Data(b"abc").trimmed(), Some(&b"abc"[..]));
    assert_eq!(PktLine::Flush.trimmed(), None);
}

#[test]
fn encode_writes_length_header() {
    assert_eq!(PktLine::data(b"want x\n").encode(), b"000bwant x\n".to_vec());
    assert_eq!(PktLine::flush().encode(), b"0000".to_vec());
    assert_eq!(PktLine::Delim.encode(), b"0001".to_vec());
    assert_eq!(PktLine::ResponseEnd.encode(), b"0002".to_vec());
    assert_eq!(PktLine::data(b"").encode(), b"0004".to_vec());
}

#[test]
fn written_lines_read_back() {
    let mut buf = Vec::new();
    buf.extend(PktLine::data(b"one\n").encode());
    buf.extend(PktLine::flush().encode());
    buf.extend(PktLine::data(b"two").encode());
    let mut r = PktLineReader::new(&buf);
    assert!(matches!(r.next(), Some(Ok(PktLine::Data(d))) if d == b"one\n"));
    assert!(matches!(r.next(), Some(Ok(PktLine::Flush))));
    assert!(matches!(r.next(), Some(Ok(PktLine::Data(d))) if d == b"two"));
    assert!(r.next().is_none());
}

#[test]
fn build_request_wants_then_done() {
    let body = build_request(&["abc"]);
    assert_eq!(body, b"000dwant abc\n00000009done\n".to_vec());
    let body = build_request(&[]);
    assert_eq!(body, b"00000009done\n".to_vec());
    let body = build_request(&["a", "b"]);
    assert_eq!(body, b"000bwant a\n000bwant b\n00000009done\n".to_vec());
}

#[test]
fn strip_nak_returns_pack() {
    assert_eq!(strip_nak(b"0008NAK\nPACKDATA").unwrap(), b"PACKDATA");
    assert_eq!(strip_nak(b"0007NAKPACK").unwrap(), b"PACK");
    assert!(matches!(strip_nak(b"0008ACK\nPACK"), Err(GitError::ExpectedNak)));
    assert!(matches!(strip_nak(b"0000PACK"), Err(GitError::ExpectedNak)));
    assert!(matches!(strip_nak(b""), Err(GitError::ExpectedNak)));
}

#[test]
fn clone_request_asks_for_first_ref() {
    let adv = rgit::discovery::Advertisement {
        capabilities: vec![],
        refs: vec![
            rgit::discovery::Ref { sha: "abc".to_string(), name: "HEAD".to_string() },
            rgit::discovery::Ref { sha: "def".to_string(), name: "main".to_string() },
        ],
    };
    assert_eq!(clone_request(&adv).unwrap(), build_request(&["abc"]));
    let empty = rgit::discovery::Advertisement { capabilities: vec![], refs: vec![] };
    assert!(clone_request(&empty).is_none());
}
