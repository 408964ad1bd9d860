//! Parsing domain names, DNS names and email addresses, end to end.

use addr::net::{parse_ip, IpAddr};
use addr::parser::{DnsName, DomainName, EmailAddress};
use addr::trie::List;
use addr::Type;

fn list() -> List {
    List::from_rules(&vec![
        (b"com".to_vec(), Type::Icann),
        (b"org".to_vec(), Type::Icann),
        (b"eu".to_vec(), Type::Icann),
        (b"saarland".to_vec(), Type::Icann),
        (b"museum".to_vec(), Type::Icann),
        (b"sh".to_vec(), Type::Icann),
        (b"solutions".to_vec(), Type::Icann),
    ])
    .unwrap()
}

#[test]
fn addr_parsing() {
    let list = list();

    // a domain
    assert!(list.parse_domain_name("example.com").is_ok());
    assert!(list.parse_domain_name("example.com.").is_ok());
    assert!(list.parse_domain_name("www.example.com.").is_ok());
    assert!(list.parse_domain_name("københavn.eu").is_ok());
    assert!(list.parse_domain_name("example.com..").is_err());

    let single_label = ["com", "saarland", "museum.", "localhost", "madeup", "with-dot."];
    for domain in single_label {
        let name = list.parse_domain_name(domain).unwrap();
        assert_eq!(name.root(), None);
        assert_eq!(name.suffix(), domain);

        let name = list.parse_dns_name(domain).unwrap();
        assert_eq!(name.root(), None);
        assert_eq!(name.suffix(), Some(domain));
    }

    assert_ne!(
        list.parse_domain_name("example.com.").unwrap(),
        list.parse_domain_name("example.com").unwrap()
    );

    assert!(list.parse_domain_name("exa..mple.com").is_err());
    assert!(list.parse_domain_name("exa mple.com").is_err());
    assert!(list.parse_domain_name("-example.com").is_err());
    assert!(list.parse_domain_name("example-.com").is_err());
    assert!(list.parse_domain_name("exa/mple.com").is_err());

    let mut too_long_domain = String::from("a");
    for _ in 0..64 {
        too_long_domain.push_str("a");
    }
    too_long_domain.push_str(".com");
    assert!(list.parse_domain_name(too_long_domain.as_str()).is_err());

    assert!(list.parse_domain_name("127.38.53.247").is_err());
    assert!(list
        .parse_domain_name("fd79:cdcb:38cc:9dd:f686:e06d:32f3:c123")
        .is_err());

    assert!(list.parse_domain_name("127.com").is_ok());
    assert!(list.parse_domain_name("example.127").is_err());

    let mut too_many_labels_domain = String::from("a");
    for _ in 0..126 {
        too_many_labels_domain.push_str(".a");
    }
    too_many_labels_domain.push_str(".com");
    assert!(list.parse_domain_name(too_many_labels_domain.as_str()).is_err());

    let mut too_many_chars_domain = String::from("aaaaa");
    for _ in 0..50 {
        too_many_chars_domain.push_str(".aaaaaa");
    }
    too_many_chars_domain.push_str(".com");
    assert!(list.parse_domain_name(too_many_chars_domain.as_str()).is_err());

    // a DNS name
    for name in ["example.com.", "_tcp.example.com.", "_telnet._tcp.example.com.", "*.example.com.", "!.example.com."] {
        assert!(list.parse_dns_name(name).is_ok());
    }

    let extract = [
        ("_tcp.example.com.", Some("example.com."), Some("com.")),
        ("_telnet._tcp.example.com.", Some("example.com."), Some("com.")),
        ("example.com", Some("example.com"), Some("com")),
    ];
    for (input, root, suffix) in extract {
        let name = list.parse_dns_name(input).unwrap();
        assert_eq!(name.root(), root);
        assert_eq!(name.suffix(), suffix);
    }

    for name in ["_tcp.com.", "_telnet._tcp.com.", "*.com.", "ex!mple.com."] {
        assert!(list.parse_dns_name(name).is_ok());
    }

    assert!(list.parse_dns_name("example.com..").is_err());

    // a parsed email
    let emails = [
        "prettyandsimple@example.com",
        "prettyandsimple@1example.com",
        "very.common@example.com",
        "disposable.style.email.with+symbol@example.com",
        "other.email-with-dash@example.com",
        "x@example.com",
        "example-indeed@strange-example.com",
        "#!$%&'*+-/=?^_`{}|~@example.org",
        "example@s.solutions",
        "user@[fd79:cdcb:38cc:9dd:f686:e06d:32f3:c123]",
        "user@[127.0.0.1]",
        r#""Abc\@def"@example.com"#,
        r#""Fred Bloggs"@example.com"#,
        r#""Joe\\Blow"@example.com"#,
        r#""Abc@def"@example.com"#,
        r#"customer/department=shipping@example.com"#,
        "$A12345@example.com",
        "!def!xyz%abc@example.com",
        "_somename@example.com",
    ];
    for email in emails {
        assert_eq!(list.parse_email_address(email).unwrap().as_str(), email);
    }

    let bad_emails = [
        "Abc.example.com",
        "A@b@c@example.com",
        r#"a"b(c)d,e:f;g<h>i[j\k]l@example.com"#,
        r#""just"not"right@example.com"#,
        r#"this is"not\allowed@example.com"#,
        r#"this\ still\"not\\allowed@example.com"#,
        "1234567890123456789012345678901234567890123456789012345678901234+x@example.com",
        "john..doe@example.com",
        "john.doe@example..com",
        " prettyandsimple@example.com",
        "prettyandsimple@example.com ",
        "@example.com",
    ];
    for email in bad_emails {
        assert!(list.parse_email_address(email).is_err(), "{}", email);
    }

    let idn_emails = [
        "Pelé@example.com",
        "δοκιμή@παράδειγμα.δοκιμή",
        "我買@屋企.香港",
        "甲斐@黒川.日本",
        "二ノ宮@黒川.日本",
        "чебурашка@ящик-с-апельсинами.рф",
        "медведь@с-балалайкой.рф",
        "संपर्क@डाटामेल.भारत",
        "用户@例子.广告",
    ];
    for email in idn_emails {
        assert!(list.parse_email_address(email).is_ok(), "{}", email);
    }
}

#[test]
fn owned_names() {
    let list = list();
    let d = addr::domain_impls::DomainName::parse(&list, "www.example.com").unwrap();
    assert_eq!(d.as_str(), "www.example.com");
    assert_eq!(d.root(), "example.com");
    assert_eq!(d.suffix(), "com");
    assert!(d.suffix_is_known());

    let n = addr::dns_impls::DnsName::parse(&list, "_tcp.example.com.").unwrap();
    assert_eq!(n.root(), "example.com.");
    assert_eq!(n.suffix(), "com.");

    match addr::dns_impls::DnsName::parse(&list, "com") {
        Err(addr::errors::Error::InvalidDomain(b)) => assert_eq!(b, "com"),
        _ => panic!("a lone suffix has no registrable part"),
    }
}

#[test]
fn hosts() {
    let list = list();
    assert!(addr::host::Host::parse(&list, "example.com").unwrap().is_domain());
    assert!(addr::host::Host::parse(&list, "127.38.53.247").unwrap().is_ip());
    assert!(addr::host::Host::parse(&list, "[::1]").unwrap().is_ip());
    assert!(addr::host::Host::parse(&list, "fd79:cdcb:38cc:9dd:f686:e06d:32f3:c123")
        .unwrap()
        .is_ip());
    assert!(matches!(
        addr::host::Host::parse(&list, "!!"),
        Err(addr::errors::Error::InvalidHost)
    ));
}

#[test]
fn ip_literals() {
    assert_eq!(parse_ip("127.0.0.1"), Some(IpAddr::V4));
    assert_eq!(parse_ip("255.255.255.255"), Some(IpAddr::V4));
    assert_eq!(parse_ip("256.0.0.1"), None);
    assert_eq!(parse_ip("01.2.3.4"), None);
    assert_eq!(parse_ip("1.2.3"), None);
    assert_eq!(parse_ip("::"), Some(IpAddr::V6));
    assert_eq!(parse_ip("::1"), Some(IpAddr::V6));
    assert_eq!(parse_ip("1:2:3:4:5:6:7:8"), Some(IpAddr::V6));
    assert_eq!(parse_ip("1:2:3:4:5:6:7:8:9"), None);
    assert_eq!(parse_ip("1::2:3"), Some(IpAddr::V6));
    assert_eq!(parse_ip("1:::2"), None);
    assert_eq!(parse_ip("::ffff:192.168.0.1"), Some(IpAddr::V6));
    assert_eq!(parse_ip("1:2:3:4:5:6:77.77.88.88"), Some(IpAddr::V6));
    assert_eq!(parse_ip("fd79:cdcb:38cc:9dd:f686:e06d:32f3:c123"), Some(IpAddr::V6));
    assert_eq!(parse_ip("nothex::1"), None);
    assert_eq!(parse_ip(""), None);
}

#[test]
fn suffix_provenance() {
    let list = List::from_rules(&vec![
        (b"com".to_vec(), Type::Icann),
        (b"platform.sh".to_vec(), Type::Private),
    ])
    .unwrap();
    let name = addr::parse_domain_name(&list, "www.example.com").unwrap();
    assert!(name.has_known_suffix());
    assert!(name.is_icann());
    assert!(!name.is_private());
    assert_eq!(name.root(), Some("example.com"));
    let private = addr::parse_domain_name(&list, "www.example.platform.sh").unwrap();
    assert!(private.is_private());
    assert_eq!(private.suffix(), "platform.sh");
    let unknown = addr::parse_domain_name(&list, "example.nowhere").unwrap();
    assert!(!unknown.has_known_suffix());
    assert!(!unknown.is_icann());
    let dns = addr::parse_dns_name(&list, "www.example.com").unwrap();
    assert!(dns.has_known_suffix());
    assert!(dns.is_icann());
    assert_eq!(addr::Type::default(), Type::Icann);
}

#[test]
fn error_reporting() {
    let list = list();
    let e = addr::parse_domain_name(&list, "-bad.com").unwrap_err();
    assert_eq!(e.kind(), addr::error::Kind::LabelStartNotAlnum);
    assert_eq!(e.input(), "-bad.com");
    assert_eq!(e.message(), "label does not end with a alphanumeric character");
}
