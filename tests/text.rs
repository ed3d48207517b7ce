use ignore::text::{chars_of, contains_chars, lines_of, string_of, trim_chars};
use ignore::{Error, ErrorKind};

fn cs(s: &str) -> Vec<char> {
    chars_of(s)
}

#[test]
fn trims_unicode_whitespace() {
    assert_eq!(string_of(&trim_chars(&cs(" \t*.log\u{3000}\r"))), "*.log");
    assert_eq!(string_of(&trim_chars(&cs("   "))), "");
    assert_eq!(string_of(&trim_chars(&cs("a b"))), "a b");
}

#[test]
fn splits_lines_like_str_lines() {
    let lines: Vec<String> = lines_of(&cs("a\n\nb\r\nc")).iter().map(string_of).collect();
    assert_eq!(lines, vec!["a", "", "b\r", "c"]);
    assert!(lines_of(&cs("")).is_empty());
    assert_eq!(lines_of(&cs("x\n")).len(), 1);
}

#[test]
fn substring_search() {
    assert!(contains_chars(&cs("foo/bar"), &cs("o/b")));
    assert!(contains_chars(&cs("foo"), &cs("")));
    assert!(!contains_chars(&cs("foo"), &cs("fooo")));
    assert!(!contains_chars(&cs("*.log"), &cs("*.lo g")));
}

#[test]
fn error_messages() {
    assert_eq!(
        Error::from_kind(ErrorKind::MissingTemplates).message(),
        "None of the requested gitignore template(s) could be found"
    );
    assert_eq!(Error::other("boom".to_string()).message(), "boom");
    assert_eq!(Error::other(String::new()).message(), "User defined error with no payload encountered");
    let e = Error::new(ErrorKind::FileUnreadable, "denied".to_string());
    assert_eq!(*e.kind(), ErrorKind::FileUnreadable);
    assert_eq!(e.source(), &Some("denied".to_string()));
}
