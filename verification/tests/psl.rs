//! The rule trie and the suffix and domain extractors, end to end.

use addr::trie::{BuildError, Info, List};
use addr::Type;

fn rules() -> Vec<(Vec<u8>, Type)> {
    vec![
        (b"com".to_vec(), Type::Icann),
        (b"uk".to_vec(), Type::Icann),
        (b"co.uk".to_vec(), Type::Icann),
        (b"*.ck".to_vec(), Type::Icann),
        (b"!www.ck".to_vec(), Type::Icann),
        (b"platform.sh".to_vec(), Type::Private),
    ]
}

fn list() -> List {
    List::from_rules(&rules()).unwrap()
}

fn suffix_of(list: &List, name: &[u8]) -> Vec<u8> {
    addr::psl::suffix(list, name).unwrap().as_bytes().to_vec()
}

fn domain_of(list: &List, name: &[u8]) -> Vec<u8> {
    addr::psl::domain(list, name).unwrap().as_bytes().to_vec()
}

#[test]
fn end_to_end_vectors() {
    let l = list();
    assert_eq!(suffix_of(&l, b"example.com"), b"com");
    assert_eq!(domain_of(&l, b"example.com"), b"example.com");
    assert_eq!(suffix_of(&l, b"example.co.uk"), b"co.uk");
    assert_eq!(domain_of(&l, b"www.example.co.uk"), b"example.co.uk");
    assert_eq!(suffix_of(&l, b"com"), b"com");
    assert!(addr::psl::domain(&l, b"com").is_none());
    assert_eq!(suffix_of(&l, b"foo.ck"), b"foo.ck");
    assert_eq!(domain_of(&l, b"bar.foo.ck"), b"bar.foo.ck");
    assert_eq!(suffix_of(&l, b"www.ck"), b"ck");
    assert_eq!(domain_of(&l, b"www.ck"), b"www.ck");
}

#[test]
fn exception_overrides_wildcard() {
    let l = List::from_rules(&vec![
        (b"*.ck".to_vec(), Type::Icann),
        (b"!www.ck".to_vec(), Type::Icann),
    ])
    .unwrap();
    let www = addr::psl::suffix(&l, b"www.ck").unwrap();
    assert_eq!(www.as_bytes(), b"ck");
    assert!(www.is_known());
    assert_eq!(www.typ(), Some(Type::Icann));
    let foo = addr::psl::suffix(&l, b"foo.ck").unwrap();
    assert_eq!(foo.as_bytes(), b"foo.ck");
    assert!(foo.is_known());
}

#[test]
fn implicit_default() {
    let l = list();
    let s = addr::psl::suffix(&l, b"example.unknowntld").unwrap();
    assert_eq!(s.as_bytes(), b"unknowntld");
    assert!(!s.is_known());
    assert_eq!(s.typ(), None);
    assert_eq!(domain_of(&l, b"example.unknowntld"), b"example.unknowntld");
    let f = addr::psl::suffix(&l, b"example.unknowntld.").unwrap();
    assert_eq!(f.as_bytes(), b"unknowntld.");
    assert!(f.is_fqdn());
    assert!(!f.is_known());
}

#[test]
fn fully_qualified_names() {
    let l = list();
    let s = addr::psl::suffix(&l, b"example.com.").unwrap();
    assert_eq!(s.as_bytes(), b"com.");
    assert!(s.is_fqdn());
    assert_eq!(domain_of(&l, b"example.com."), b"example.com.");
    assert!(!addr::psl::suffix(&l, b"example.com").unwrap().is_fqdn());
}

#[test]
fn empty_and_trivial_names() {
    let l = list();
    assert!(addr::psl::suffix(&l, b"").is_none());
    assert!(addr::psl::suffix(&l, b".").is_none());
    assert!(addr::psl::domain(&l, b".com").is_none());
}

#[test]
fn longest_match_wins() {
    let l = list();
    // both "uk" and "co.uk" match; the longer rule decides
    assert_eq!(suffix_of(&l, b"x.co.uk"), b"co.uk");
    assert_eq!(suffix_of(&l, b"x.uk"), b"uk");
    // private rules work like any other
    let p = addr::psl::suffix(&l, b"x.platform.sh").unwrap();
    assert_eq!(p.as_bytes(), b"platform.sh");
    assert_eq!(p.typ(), Some(Type::Private));
}

#[test]
fn suffix_of_domain_agrees() {
    let l = list();
    for name in [&b"www.example.co.uk"[..], b"bar.foo.ck", b"www.ck", b"a.b.example.unknowntld"] {
        let d = addr::psl::domain(&l, name).unwrap();
        let s = addr::psl::suffix(&l, name).unwrap();
        assert_eq!(d.suffix().as_bytes(), s.as_bytes());
        assert_eq!(d.suffix().typ(), s.typ());
    }
}

#[test]
fn find_counts_labels() {
    let l = list();
    let labels: Vec<&[u8]> = vec![b"com", b"example", b"www"];
    let info = l.find(&labels);
    assert_eq!(info, Info { len: 1, typ: Some(Type::Icann) });
    let labels: Vec<&[u8]> = vec![b"uk", b"co", b"example"];
    assert_eq!(l.find(&labels), Info { len: 2, typ: Some(Type::Icann) });
    let labels: Vec<&[u8]> = vec![b"ck", b"www"];
    assert_eq!(l.find(&labels), Info { len: 1, typ: Some(Type::Icann) });
    let labels: Vec<&[u8]> = vec![b"nope"];
    assert_eq!(l.find(&labels), Info { len: 0, typ: None });
}

#[test]
fn build_errors() {
    assert!(matches!(List::from_rules(&vec![]), Err(BuildError::EmptyList)));
    assert!(matches!(
        List::from_rules(&vec![(b"!com".to_vec(), Type::Icann)]),
        Err(BuildError::RootException)
    ));
    assert!(matches!(
        List::from_rules(&vec![
            (b"com".to_vec(), Type::Icann),
            (b"com".to_vec(), Type::Private)
        ]),
        Err(BuildError::RuleConflict)
    ));
    // the same rule twice is allowed
    assert!(List::from_rules(&vec![
        (b"com".to_vec(), Type::Icann),
        (b"com".to_vec(), Type::Icann)
    ])
    .is_ok());
}

#[test]
fn lexer_to_trie_pipeline() {
    let text = "// a comment\n\
                // ===BEGIN ICANN DOMAINS===\n\
                com\n\
                uk\n\
                co.uk\n\
                *.ck\n\
                !www.ck\n\
                // ===BEGIN PRIVATE DOMAINS===\n\
                platform.sh\n";
    let parsed = addr::lexer::List::from_str(text).unwrap();
    assert_eq!(parsed.rules.len(), 4);
    let l = List::from_list(&parsed).unwrap();
    assert_eq!(suffix_of(&l, b"example.co.uk"), b"co.uk");
    assert_eq!(suffix_of(&l, b"www.ck"), b"ck");
    let p = addr::psl::suffix(&l, b"x.platform.sh").unwrap();
    assert_eq!(p.typ(), Some(Type::Private));
}

#[test]
fn lexer_details() {
    // text before the first marker is ignored; tokens stop at whitespace
    let text = "ignored.example\n\
                stuff BEGIN ICANN DOMAINS stuff\n\
                com  trailing words\n\
                \n\
                \t \n\
                uk\r\n";
    let parsed = addr::lexer::List::from_str(text).unwrap();
    assert_eq!(parsed.rules.len(), 2);
    assert_eq!(parsed.rules[0].tld, "com");
    assert_eq!(parsed.rules[0].suffixes[0].rule, "com");
    assert_eq!(parsed.rules[1].tld, "uk");
    // grouping by rightmost label
    let text2 = "x BEGIN ICANN DOMAINS\nuk\nco.uk\nac.uk\ncom\n";
    let parsed2 = addr::lexer::List::from_str(text2).unwrap();
    assert_eq!(parsed2.rules.len(), 2);
    assert_eq!(parsed2.rules[0].suffixes.len(), 3);
    assert_eq!(parsed2.rules[0].suffixes[2].rule, "ac.uk");
}

#[test]
fn rule_listings() {
    let text = "x BEGIN ICANN DOMAINS\ncom\nuk\nx BEGIN PRIVATE DOMAINS\nplatform.sh\n";
    let parsed = addr::lexer::List::from_str(text).unwrap();
    let all = parsed.all();
    assert_eq!(all.len(), 3);
    assert_eq!(all[0].as_str(), "com");
    assert_eq!(all[1].as_str(), "uk");
    assert_eq!(all[2].as_str(), "platform.sh");
    let icann = parsed.icann();
    assert_eq!(icann.len(), 2);
    assert_eq!(icann[1].as_str(), "uk");
    let private = parsed.private();
    assert_eq!(private.len(), 1);
    assert_eq!(private[0].as_str(), "platform.sh");
    let rules = parsed.to_rules();
    assert_eq!(rules.len(), 3);
    assert_eq!(rules[0].0, b"com");
    assert_eq!(rules[2].1, Type::Private);
}

#[test]
fn lexer_errors() {
    assert!(matches!(
        addr::lexer::List::from_str("// nothing here\n"),
        Err(addr::lexer::Error::InvalidList)
    ));
    match addr::lexer::List::from_str("x BEGIN ICANN DOMAINS\nbad.\n") {
        Err(addr::lexer::Error::InvalidRule(r)) => assert_eq!(r, "bad."),
        _ => panic!("expected an invalid rule"),
    }
}
