use dns_message_parser::{DomainName, DomainNameError};
use std::collections::hash_map::DefaultHasher;
use std::convert::TryFrom;
use std::hash::{Hash, Hasher};

fn hash_of(name: &DomainName) -> u64 {
    let mut hasher = DefaultHasher::new();
    name.hash(&mut hasher);
    hasher.finish()
}

fn name_of(labels: &[&str]) -> DomainName {
    let mut name = DomainName::default();
    for label in labels {
        name.append_label(label).unwrap();
    }
    name
}

#[test]
fn default_is_the_root() {
    let name = DomainName::default();
    assert!(name.is_root());
    assert_eq!(name.to_string(), ".");
    assert_eq!(name.as_ref(), ".");
    assert_eq!(name.as_bytes(), b".");
}

#[test]
fn append_label_builds_the_text_label_by_label() {
    let mut name = DomainName::default();
    name.append_label("example").unwrap();
    assert_eq!(name.to_string(), "example.");
    assert!(!name.is_root());
    name.append_label("org").unwrap();
    assert_eq!(name.to_string(), "example.org.");
    let result = name.append_label(".");
    assert_eq!(result, Err(DomainNameError::LabelDot));
    assert_eq!(name.to_string(), "example.org.");
}

#[test]
fn append_label_takes_63_octets_on_the_root() {
    let label = "a".repeat(63);
    let mut name = DomainName::default();
    assert_eq!(name.append_label(&label), Ok(()));
    assert_eq!(name.to_string(), format!("{}.", label));
}

#[test]
fn append_label_refuses_64_octets() {
    let label = "a".repeat(64);
    let mut name = DomainName::default();
    assert_eq!(name.append_label(&label), Err(DomainNameError::LabelLength(64)));
    assert_eq!(name.to_string(), ".");
    assert_eq!(
        name.append_label(&"b".repeat(300)),
        Err(DomainNameError::LabelLength(300))
    );
    assert!(name.is_root());
}

#[test]
fn append_label_counts_octets_not_characters() {
    let mut name = DomainName::default();
    // 32 characters of two octets each
    let label = "\u{fc}".repeat(32);
    assert_eq!(name.append_label(&label), Err(DomainNameError::LabelLength(64)));
    let label = "\u{fc}".repeat(31);
    assert_eq!(name.append_label(&label), Ok(()));
    assert_eq!(name.as_bytes().len(), 63);
}

#[test]
fn append_label_checks_the_length_before_the_append() {
    let label = "a".repeat(63);
    // three labels: 192 octets of text
    let mut name = name_of(&[&label, &label, &label]);
    assert_eq!(name.as_bytes().len(), 192);
    // 192 + 64 is refused for the label first
    assert_eq!(
        name.append_label(&"a".repeat(64)),
        Err(DomainNameError::LabelLength(64))
    );
    // 192 + 63 = 255 is below the limit, and the text then has 256 octets
    assert_eq!(name.append_label(&label), Ok(()));
    assert_eq!(name.as_bytes().len(), 256);
    // 256 + 0 is not
    assert_eq!(
        name.append_label(""),
        Err(DomainNameError::DomainNameLength(256))
    );
    assert_eq!(
        name.append_label("abc"),
        Err(DomainNameError::DomainNameLength(259))
    );
    assert_eq!(name.as_bytes().len(), 256);
}

#[test]
fn append_label_refuses_at_exactly_the_limit() {
    let label = "a".repeat(63);
    let mut name = name_of(&[&label, &label, &label, &"a".repeat(61)]);
    assert_eq!(name.as_bytes().len(), 254);
    assert_eq!(
        name.append_label("ab"),
        Err(DomainNameError::DomainNameLength(256))
    );
    assert_eq!(name.append_label("a"), Ok(()));
    assert_eq!(name.as_bytes().len(), 256);
}

#[test]
fn append_label_reports_the_first_failing_check() {
    let label = "a".repeat(63);
    let mut name = name_of(&[&label, &label, &label, &label]);
    // too long, and with a dot: the label's length comes first
    let long_with_dot = format!("{}.", "a".repeat(63));
    assert_eq!(
        name.append_label(&long_with_dot),
        Err(DomainNameError::LabelLength(64))
    );
    // name too long, and a dot: the name's length comes first
    assert_eq!(
        name.append_label("a.b"),
        Err(DomainNameError::DomainNameLength(259))
    );
    let mut short = DomainName::default();
    assert_eq!(short.append_label("a.b"), Err(DomainNameError::LabelDot));
}

#[test]
fn append_label_leaves_the_name_unchanged_on_failure() {
    let mut name = name_of(&["Example", "org"]);
    let before = name.clone();
    assert!(name.append_label(&"x".repeat(64)).is_err());
    assert_eq!(name.to_string(), before.to_string());
    assert!(name.append_label("x.y").is_err());
    assert_eq!(name.to_string(), before.to_string());
    assert!(name.append_label(".").is_err());
    assert_eq!(name.to_string(), "Example.org.");
    assert_eq!(name.as_bytes(), before.as_bytes());
}

#[test]
fn append_label_empty_label() {
    let mut name = DomainName::default();
    assert_eq!(name.append_label(""), Ok(()));
    assert!(name.is_root());
    assert_eq!(name.to_string(), ".");
    name.append_label("a").unwrap();
    assert_eq!(name.append_label(""), Ok(()));
    assert_eq!(name.to_string(), "a..");
}

#[test]
fn parse_root() {
    let name = DomainName::parse(".").unwrap();
    assert!(name.is_root());
    assert_eq!(name.to_string(), ".");
    assert_eq!(name, DomainName::default());
    let name = DomainName::parse("").unwrap();
    assert!(name.is_root());
    assert_eq!(name.to_string(), ".");
}

#[test]
fn parse_with_and_without_final_dot() {
    let relative = DomainName::parse("example.org").unwrap();
    let absolute = DomainName::parse("example.org.").unwrap();
    assert_eq!(relative, absolute);
    assert_eq!(relative.to_string(), "example.org.");
    assert_eq!(absolute.to_string(), "example.org.");
    assert_eq!(relative.as_bytes(), absolute.as_bytes());
}

#[test]
fn parse_is_case_insensitive_identity() {
    let upper = DomainName::parse("Example.ORG.").unwrap();
    let lower = DomainName::parse("example.org.").unwrap();
    assert_eq!(upper, lower);
    assert_eq!(hash_of(&upper), hash_of(&lower));
    // the text keeps its case
    assert_eq!(upper.to_string(), "Example.ORG.");
    assert_ne!(upper, DomainName::parse("example.com.").unwrap());
}

#[test]
fn equality_lowercases_beyond_ascii() {
    let upper = DomainName::parse("B\u{dc}CHER.example").unwrap();
    let lower = DomainName::parse("b\u{fc}cher.example").unwrap();
    assert_eq!(upper, lower);
    assert_eq!(hash_of(&upper), hash_of(&lower));
    assert_eq!(upper.to_string(), "B\u{dc}CHER.example.");
}

#[test]
fn names_that_differ_are_not_equal() {
    let a = DomainName::parse("a.example").unwrap();
    let b = DomainName::parse("b.example").unwrap();
    assert_ne!(a, b);
    assert_ne!(a, DomainName::default());
    assert_ne!(DomainName::parse("a").unwrap(), DomainName::parse("a.a").unwrap());
}

#[test]
fn name_equals_text() {
    let name = DomainName::parse("Example.org").unwrap();
    assert!(name == "example.ORG.");
    assert!(name == "Example.org.");
    assert!(!(name == "example.org"));
    assert!(!(name == "example.com."));
}

#[test]
fn parse_splits_at_each_dot() {
    let name = DomainName::parse("a.b.c.d").unwrap();
    assert_eq!(name.to_string(), "a.b.c.d.");
    assert_eq!(name.as_bytes(), name_of(&["a", "b", "c", "d"]).as_bytes());
    // only one final dot is dropped, and an empty piece is a label
    let name = DomainName::parse("a..b").unwrap();
    assert_eq!(name.to_string(), "a..b.");
    let name = DomainName::parse("a..").unwrap();
    assert_eq!(name.to_string(), "a..");
    // empty pieces in front leave the root
    let name = DomainName::parse("..").unwrap();
    assert!(name.is_root());
    let name = DomainName::parse(".a").unwrap();
    assert_eq!(name.to_string(), "a.");
}

#[test]
fn parse_stops_at_the_first_label_that_is_refused() {
    let long = "a".repeat(64);
    assert_eq!(
        DomainName::parse(&format!("b.{}.c", long)).unwrap_err(),
        DomainNameError::LabelLength(64)
    );
    assert_eq!(
        DomainName::parse(&format!("{}.{}", "a".repeat(100), "b".repeat(70))).unwrap_err(),
        DomainNameError::LabelLength(100)
    );
    let label = "a".repeat(63);
    let text = format!("{0}.{0}.{0}.{0}.b", label);
    assert_eq!(
        DomainName::parse(&text).unwrap_err(),
        DomainNameError::DomainNameLength(257)
    );
    let text = format!("{0}.{0}.{0}.{0}", label);
    assert_eq!(DomainName::parse(&text).unwrap().as_bytes().len(), 256);
}

#[test]
fn parse_accepts_its_own_text() {
    for text in ["example.org.", ".", "a..b.", "B\u{fc}cher.example.", "a.."] {
        let name = DomainName::parse(text).unwrap();
        assert_eq!(name.to_string(), text);
        let again = DomainName::parse(&name.to_string()).unwrap();
        assert_eq!(again.as_bytes(), name.as_bytes());
    }
}

#[test]
fn parse_text_beyond_ascii() {
    let name = DomainName::parse("b\u{fc}cher.\u{4f8b}\u{3048}.jp").unwrap();
    assert_eq!(name.to_string(), "b\u{fc}cher.\u{4f8b}\u{3048}.jp.");
    assert_eq!(name.as_bytes(), "b\u{fc}cher.\u{4f8b}\u{3048}.jp.".as_bytes());
}

#[test]
fn try_from_reads_text() {
    let name = DomainName::try_from("example.org").unwrap();
    assert_eq!(name.to_string(), "example.org.");
    assert_eq!(
        DomainName::try_from("a".repeat(64).as_str()),
        Err(DomainNameError::LabelLength(64))
    );
}

#[test]
fn string_from_name() {
    let name = DomainName::parse("Example.org").unwrap();
    let text: String = String::from(name.clone());
    assert_eq!(text, "Example.org.");
    assert_eq!(name.as_ref(), "Example.org.");
}

#[test]
fn clone_is_equal() {
    let name = DomainName::parse("example.org").unwrap();
    let copy = name.clone();
    assert_eq!(name, copy);
    assert_eq!(name.as_bytes(), copy.as_bytes());
}
