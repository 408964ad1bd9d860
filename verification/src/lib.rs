//! Domain name parsing against the Public Suffix List.
//!
//! The heart of the crate is a rule trie built at run time from a parsed
//! rule set and walked label by label, TLD first, to find the longest
//! matching public suffix of a domain name. On top of it sit a byte-level
//! suffix and registrable-domain extractor and string-level parsers for
//! domain names, DNS names and email addresses.

pub mod bytes;
pub mod dns;
pub mod dns_impls;
pub mod domain;
pub mod domain_impls;
pub mod email;
pub mod error;
pub mod errors;
pub mod host;
pub mod lexer;
pub mod matcher;
pub mod net;
pub mod parser;
pub mod psl;
pub mod text;
pub mod trie;

use parser::{DnsName, DomainName, EmailAddress};
use vstd::prelude::*;

verus! {

/// Provenance of a public suffix rule.
#[derive(Copy, Clone, Eq, PartialEq, Ord, PartialOrd, Hash, Debug, Structural)]
pub enum Type {
    Icann,
    Private,
}

impl Default for Type {
    /// Absent a say, a rule counts as delegated by ICANN.
    fn default() -> (r: Self)
        ensures
            r == Type::Icann,
    {
        Type::Icann
    }
}

/// Parse a domain name against the list.
pub fn parse_domain_name<'a>(list: &trie::List, input: &'a str) -> (r: Result<
    domain::Name<'a>,
    error::Error<'a>,
>)
    requires
        list.wf(),
    ensures
        match r {
            Ok(n) => domain::parse_ok(list@, input, n),
            Err(e) => domain::parse_err(list@, input) == Some(e.spec_kind()) && e.spec_input()
                == input,
        },
        r is Err <==> domain::parse_err(list@, input) is Some,
{
    list.parse_domain_name(input)
}

/// Parse a DNS name against the list.
pub fn parse_dns_name<'a>(list: &trie::List, input: &'a str) -> (r: Result<
    dns::Name<'a>,
    error::Error<'a>,
>)
    requires
        list.wf(),
    ensures
        match r {
            Ok(n) => dns::parse_ok(list@, input, n),
            Err(e) => matcher::dns_error(vstd::utf8::encode_utf8(input@)) == Some(e.spec_kind())
                && e.spec_input() == input,
        },
        r is Err <==> matcher::dns_error(vstd::utf8::encode_utf8(input@)) is Some,
{
    list.parse_dns_name(input)
}

/// Parse an email address against the list.
pub fn parse_email_address<'a>(list: &trie::List, input: &'a str) -> (r: Result<
    email::Address<'a>,
    error::Error<'a>,
>)
    requires
        list.wf(),
    ensures
        match r {
            Ok(a) => email::parse_ok(list@, input, a),
            Err(e) => email::email_error(list@, input@) == Some(e.spec_kind()) && e.spec_input()
                == input,
        },
        r is Err <==> email::email_error(list@, input@) is Some,
{
    list.parse_email_address(input)
}

} // verus!
