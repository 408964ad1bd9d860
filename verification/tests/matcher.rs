//! Syntax checks on domain names.

use addr::matcher::{is_dns_name, is_domain_name, is_label};

#[test]
fn single_label_domain() {
    assert!(is_domain_name("xn--example").is_ok());
}

#[test]
fn plain_domain() {
    assert!(is_domain_name("example.com").is_ok());
}

#[test]
fn subdomains() {
    assert!(is_domain_name("a.b.c.d.e.f").is_ok());
}

#[test]
fn label_bounds() {
    assert!(is_label("", true).is_err());
    let long: String = std::iter::repeat('a').take(64).collect();
    assert_eq!(is_label(&long, false), Err(addr::error::Kind::LabelTooLong));
    assert_eq!(is_label("-a", false), Err(addr::error::Kind::LabelStartNotAlnum));
    assert_eq!(is_label("a-", false), Err(addr::error::Kind::LabelEndNotAlnum));
    assert_eq!(is_label("a/b", false), Err(addr::error::Kind::IllegalCharacter));
    assert!(is_label("a-b", false).is_ok());
}

#[test]
fn numeric_tlds() {
    assert_eq!(is_label("127", true), Err(addr::error::Kind::NumericTld));
    assert_eq!(is_label("1e3", true), Err(addr::error::Kind::NumericTld));
    assert_eq!(is_label("nan", true), Err(addr::error::Kind::NumericTld));
    assert_eq!(is_label("inf", true), Err(addr::error::Kind::NumericTld));
    assert_eq!(is_label("infinity", true), Err(addr::error::Kind::NumericTld));
    assert!(is_label("127", false).is_ok());
    assert!(is_label("1f3", true).is_ok());
    assert!(is_label("e3", true).is_ok());
}

#[test]
fn name_bounds() {
    let mut long = String::from("aaaaa");
    for _ in 0..50 {
        long.push_str(".aaaaaa");
    }
    long.push_str(".com");
    assert_eq!(is_domain_name(&long), Err(addr::error::Kind::NameTooLong));

    let mut many = String::from("a");
    for _ in 0..126 {
        many.push_str(".a");
    }
    many.push_str(".com");
    assert!(is_domain_name(&many).is_err());
    // the label ceiling itself is only reachable with empty labels
    let dots: String = std::iter::repeat('.').take(127).collect();
    assert_eq!(is_domain_name(&dots), Err(addr::error::Kind::TooManyLabels));

    assert_eq!(is_domain_name("exa..mple.com"), Err(addr::error::Kind::EmptyLabel));
}

#[test]
fn dns_names() {
    assert_eq!(is_dns_name(""), Err(addr::error::Kind::EmptyName));
    assert_eq!(is_dns_name("a..b"), Err(addr::error::Kind::EmptyLabel));
    assert!(is_dns_name("_tcp.example.com.").is_ok());
    assert!(is_dns_name("*.example.com.").is_ok());
    let long: String = std::iter::repeat('a').take(64).collect();
    assert_eq!(is_dns_name(&long), Err(addr::error::Kind::LabelTooLong));
}
