use patchkeeper::error::Error;
use patchkeeper::meta::serialize::Line;
use patchkeeper::meta::Metadata;

const A: &str = "aaaaaaaaaaaaaaaaaaaaaaaaaaaaaaaaaaaaaaaa";
const B: &str = "bbbbbbbbbbbbbbbbbbbbbbbbbbbbbbbbbbbbbbbb";
const C: &str = "cccccccccccccccccccccccccccccccccccccccc";

#[test]
fn from_str_reads_each_directive() {
    assert!(matches!(Line::from_str(""), Line::Empty));
    assert!(matches!(Line::from_str("   "), Line::Empty));
    assert!(matches!(Line::from_str("%flag"), Line::PropertyFlag { name } if name == "flag"));
    assert!(matches!(
        Line::from_str("%name  spaced value "),
        Line::PropertyValue { name, value } if name == "name" && value == "spaced value"
    ));
    assert!(matches!(Line::from_str("@main"), Line::Branch { name } if name == "main"));
    assert!(matches!(Line::from_str("#ab"), Line::PatchHidden { id } if id == "ab"));
    assert!(matches!(Line::from_str("-ab"), Line::PatchPopped { id } if id == "ab"));
    assert!(matches!(Line::from_str("+ab"), Line::PatchPushed { id } if id == "ab"));
    assert!(matches!(Line::from_str("junk"), Line::Invalid { text } if text == "junk"));
    assert!(matches!(Line::from_str("  @x  "), Line::Branch { name } if name == "x"));
}

#[test]
fn parse_reads_scopes_and_queues() {
    let body = format!("%revision 7\n\n@main\n%hidden\n#{A}\n-{B}\n+{C}\n");
    let meta = Metadata::parse(&body).unwrap();
    let mut meta = meta;
    assert_eq!(meta.properties.get("revision").unwrap(), Some("7".to_string()));
    let b = meta.branches.acquire("main");
    assert_eq!(b.properties.get_flag("hidden").unwrap(), true);
    assert_eq!(b.hidden.all(), vec![A.to_string()]);
    assert_eq!(b.popped.all(), vec![B.to_string()]);
    assert_eq!(b.pushed.all(), vec![C.to_string()]);
}

#[test]
fn parse_queue_lines_append_toward_the_bottom() {
    let body = format!("@main\n+{A}\n+{B}\n+{C}\n");
    let meta = Metadata::parse(&body).unwrap();
    let mut meta = meta;
    let b = meta.branches.acquire("main");
    // the first serialized line is the top of the queue
    assert_eq!(b.pushed.all(), vec![A.to_string(), B.to_string(), C.to_string()]);
}

#[test]
fn parse_rejects_syntax_errors_with_line_numbers() {
    let e = Metadata::parse("%ok\njunk line\n").unwrap_err();
    assert!(matches!(&e, Error::SyntaxError { line: 1, text } if text == "junk line"));
    assert_eq!(e.message(), "syntax error in metadata (line 1, 'junk line')");
}

#[test]
fn parse_rejects_duplicate_properties_per_scope() {
    let e = Metadata::parse("%x 1\n%x 2\n").unwrap_err();
    assert!(matches!(&e, Error::DuplicateProperty { line: 1, name } if name == "x"));
    // the same name is fine in different scopes
    let body = "%x 1\n@b\n%x 2\n";
    assert!(Metadata::parse(body).is_ok());
    let e = Metadata::parse("@b\n%x 1\n%x\n").unwrap_err();
    assert!(matches!(&e, Error::DuplicateProperty { line: 2, name } if name == "x"));
}

#[test]
fn parse_rejects_duplicate_branches() {
    let e = Metadata::parse("@b\n@c\n@b\n").unwrap_err();
    assert!(matches!(&e, Error::DuplicateBranch { line: 2, name } if name == "b"));
    assert_eq!(e.message(), "duplicate branch in metadata (line 2, 'b')");
}

#[test]
fn parse_rejects_orphaned_patches() {
    let e = Metadata::parse("#aa\n").unwrap_err();
    assert!(matches!(&e, Error::OrphanedPatch { line: 0, id } if id == "aa"));
    assert_eq!(e.message(), "orphaned patch in metadata (line 0, 'aa')");
}

#[test]
fn parse_rejects_bad_identifiers() {
    let e = Metadata::parse("@b\n#zz\n").unwrap_err();
    assert!(matches!(&e, Error::InvalidId { line: 1, id } if id == "zz"));
    let too_long = "a".repeat(41);
    let e = Metadata::parse(&format!("@b\n+{too_long}\n")).unwrap_err();
    assert!(matches!(&e, Error::InvalidId { line: 1, .. }));
}

#[test]
fn parse_canonicalizes_short_and_uppercase_ids() {
    let body = "@b\n+ABC\n";
    let meta = Metadata::parse(body).unwrap();
    let mut meta = meta;
    let b = meta.branches.acquire("b");
    let expected = format!("abc{}", "0".repeat(37));
    assert_eq!(b.pushed.all(), vec![expected]);
}

#[test]
fn to_text_writes_sorted_canonical_form() {
    let mut meta = Metadata::new();
    meta.properties.set("revision", "3".to_string());
    meta.properties.set_flag("aflag");
    let mut b = meta.branches.acquire("zeta");
    b.pushed.add_top(C.to_string());
    meta.branches.release(b);
    let mut b = meta.branches.acquire("alpha");
    b.hidden.add_top(A.to_string());
    b.popped.add_top(B.to_string());
    b.properties.set_flag("hidden");
    meta.branches.release(b);
    // an empty branch record is omitted entirely
    let b = meta.branches.acquire("empty");
    meta.branches.release(b);
    let expected = format!(
        "%aflag\n%revision 3\n\n@alpha\n%hidden\n#{A}\n-{B}\n\n@zeta\n+{C}\n"
    );
    assert_eq!(meta.to_text(), expected);
}

#[test]
fn text_round_trip_is_canonical() {
    let body = format!("\n%z 1\n%a\n@m\n+{B}\n+{A}\n%hidden\n");
    let meta = Metadata::parse(&body).unwrap();
    let text = meta.to_text();
    assert_eq!(text, format!("%a\n%z 1\n\n@m\n%hidden\n+{B}\n+{A}\n"));
    // a second round trip is exact
    let meta2 = Metadata::parse(&text).unwrap();
    assert_eq!(meta2.to_text(), text);
}

#[test]
fn release_after_acquire_keeps_serialized_form() {
    let body = format!("%revision 5\n\n@m\n-{A}\n+{B}\n");
    let mut meta = Metadata::parse(&body).unwrap();
    let before = meta.to_text();
    let b = meta.branches.acquire("m");
    meta.branches.release(b);
    assert_eq!(meta.to_text(), before);
    // acquiring a never-tracked name adds an empty record, which does
    // not serialize
    let b = meta.branches.acquire("other");
    meta.branches.release(b);
    assert_eq!(meta.to_text(), before);
}

#[test]
fn unrecognized_magic_is_refused() {
    let e = Metadata::from_commit_text(A, "NotTheMagic", "%x 1\n").unwrap_err();
    assert!(matches!(e, Error::UnrecognizedFormat));
    assert_eq!(e.message(), "metadata format not recognized");
    let meta = Metadata::from_commit_text(A, "PatchKeeper", "%x 1\n").unwrap();
    assert_eq!(meta.source.id(), Some(A.to_string()));
}
