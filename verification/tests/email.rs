//! Email address parsing.

use addr::email::Address;
use addr::trie::List;
use addr::Type;

fn list() -> List {
    List::from_rules(&vec![(b"com".to_vec(), Type::Icann)]).unwrap()
}

#[test]
fn parse() {
    let l = list();

    // Valid email addresses
    Address::parse(&l, "johndoe@example.com").unwrap();
    Address::parse(&l, "john.doe@example.com").unwrap();
    Address::parse(&l, "john+doe@example.com").unwrap();
    Address::parse(&l, r#""john doe"@example.com"#).unwrap();

    // Invalid email addresses
    Address::parse(&l, "@example.com").unwrap_err();
    Address::parse(&l, r#""@example.com"#).unwrap_err();
    Address::parse(&l, " @example.com").unwrap_err();
}

#[test]
fn user() {
    let email = Address::parse(&list(), "johndoe@localhost").unwrap();
    assert_eq!(email.user(), "johndoe");
}

#[test]
fn email_hosts() {
    let l = list();
    let a = Address::parse(&l, "user@[127.0.0.1]").unwrap();
    assert!(a.host().is_ip());
    let b = Address::parse(&l, "user@[fd79:cdcb:38cc:9dd:f686:e06d:32f3:c123]").unwrap();
    assert!(b.host().is_ip());
    let c = Address::parse(&l, "user@example.com").unwrap();
    assert!(c.host().is_domain());
    assert_eq!(
        Address::parse(&l, "user@[notanip]").unwrap_err(),
        addr::error::Kind::InvalidIpAddr
    );
    assert_eq!(Address::parse(&l, "user@[127.0.0.1").unwrap_err(), addr::error::Kind::IllegalCharacter);
}

#[test]
fn email_errors() {
    let l = list();
    assert_eq!(Address::parse(&l, "nosign.example.com").unwrap_err(), addr::error::Kind::NoAtSign);
    let mut long = String::new();
    for _ in 0..255 {
        long.push('a');
    }
    assert_eq!(Address::parse(&l, &long).unwrap_err(), addr::error::Kind::EmailTooLong);
    let mut local = String::new();
    for _ in 0..66 {
        local.push('a');
    }
    local.push_str("@example.com");
    assert_eq!(Address::parse(&l, &local).unwrap_err(), addr::error::Kind::EmailLocalTooLong);
    assert_eq!(
        Address::parse(&l, r#""unclosed@example.com"#).unwrap_err(),
        addr::error::Kind::QuoteUnclosed
    );
}
