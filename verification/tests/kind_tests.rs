use rgit::error::GitError;
use rgit::kind::{CommitPerson, TreeEntryMode};

#[test]
fn modes_from_text() {
    assert!(matches!(TreeEntryMode::from_mode("100644"), TreeEntryMode::RegularFile));
    assert!(matches!(TreeEntryMode::from_mode("100755"), TreeEntryMode::ExecutableFile));
    assert!(matches!(TreeEntryMode::from_mode("40000"), TreeEntryMode::Directory));
    assert!(matches!(TreeEntryMode::from_mode("040000"), TreeEntryMode::Unsupported(m) if m == "040000"));
}

#[test]
fn mode_text_roundtrip() {
    for m in ["100644", "100755", "40000", "120000", "160000", ""] {
        assert_eq!(TreeEntryMode::from_mode(m).to_mode(), m);
    }
}

#[test]
fn demo_person() {
    let p = CommitPerson::demo();
    assert_eq!(p.to_str(), "John Doe <john@example.com> 1234567890 +0000");
}

#[test]
fn parse_person_line() {
    let p = CommitPerson::parse("John Q. Doe <john@example.com> 1234567890 +0000").unwrap();
    assert_eq!(p.name, "John Q. Doe");
    assert_eq!(p.email, "john@example.com");
    assert_eq!(p.timestamp, "1234567890");
    assert_eq!(p.timezone, "+0000");
}

#[test]
fn parse_person_roundtrip() {
    let p = CommitPerson::demo();
    let q = CommitPerson::parse(&p.to_str()).unwrap();
    assert_eq!(q.name, p.name);
    assert_eq!(q.email, p.email);
    assert_eq!(q.timestamp, p.timestamp);
    assert_eq!(q.timezone, p.timezone);
}

#[test]
fn parse_person_roundtrip_non_ascii_tokens() {
    let p = CommitPerson {
        name: "Zoë Ünal".to_string(),
        email: "zoë@exämple.com".to_string(),
        timestamp: "１７００".to_string(),
        timezone: "+0ı00".to_string(),
    };
    let q = CommitPerson::parse(&p.to_str()).unwrap();
    assert_eq!(q.name, p.name);
    assert_eq!(q.email, p.email);
    assert_eq!(q.timestamp, p.timestamp);
    assert_eq!(q.timezone, p.timezone);
}

#[test]
fn parse_person_trims_unicode_whitespace() {
    let p = CommitPerson::parse("\u{3000}Zoë\u{a0} <z@e>\t42\u{2003}-0500 extra").unwrap();
    assert_eq!(p.name, "Zoë");
    assert_eq!(p.email, "z@e");
    assert_eq!(p.timestamp, "42");
    assert_eq!(p.timezone, "-0500");
}

#[test]
fn parse_person_errors() {
    assert!(matches!(CommitPerson::parse("no email"), Err(GitError::MissingLt)));
    assert!(matches!(CommitPerson::parse("a <b"), Err(GitError::MissingGt)));
    assert!(matches!(CommitPerson::parse("a <b>   "), Err(GitError::MissingTimestamp)));
    assert!(matches!(CommitPerson::parse("a <b> 123"), Err(GitError::MissingTimezone)));
}
