//! Parser traits.
//!
//! Anything that can stand for a rule list — here, the compiled trie —
//! offers the three parsers through these traits.

use crate::error::Error;
use crate::trie::NodeV;
use crate::{dns, domain, email};
use vstd::prelude::*;

verus! {

/// Parses a domain name using the list.
pub trait DomainName<'a> {
    /// The rule trie the implementation matches against.
    spec fn nodes(&self) -> Seq<NodeV>;

    /// Whether the implementation is fit for lookups.
    spec fn ready(&self) -> bool;

    fn parse_domain_name(&self, name: &'a str) -> (r: Result<domain::Name<'a>, Error<'a>>)
        requires
            self.ready(),
        ensures
            match r {
                Ok(n) => domain::parse_ok(self.nodes(), name, n),
                Err(e) => domain::parse_err(self.nodes(), name) == Some(e.spec_kind())
                    && e.spec_input() == name,
            },
            r is Err <==> domain::parse_err(self.nodes(), name) is Some,
    ;
}

/// Parses any arbitrary string that can be used as a key in a DNS database.
pub trait DnsName<'a> {
    /// The rule trie the implementation matches against.
    spec fn nodes(&self) -> Seq<NodeV>;

    /// Whether the implementation is fit for lookups.
    spec fn ready(&self) -> bool;

    fn parse_dns_name(&self, name: &'a str) -> (r: Result<dns::Name<'a>, Error<'a>>)
        requires
            self.ready(),
        ensures
            match r {
                Ok(n) => dns::parse_ok(self.nodes(), name, n),
                Err(e) => crate::matcher::dns_error(
                    vstd::utf8::encode_utf8(name@),
                ) == Some(e.spec_kind()) && e.spec_input() == name,
            },
            r is Err <==> crate::matcher::dns_error(vstd::utf8::encode_utf8(name@)) is Some,
    ;
}

/// Parses an email address using the list.
pub trait EmailAddress<'a> {
    /// The rule trie the implementation matches against.
    spec fn nodes(&self) -> Seq<NodeV>;

    /// Whether the implementation is fit for lookups.
    spec fn ready(&self) -> bool;

    fn parse_email_address(&self, address: &'a str) -> (r: Result<email::Address<'a>, Error<'a>>)
        requires
            self.ready(),
        ensures
            match r {
                Ok(a) => email::parse_ok(self.nodes(), address, a),
                Err(e) => email::email_error(self.nodes(), address@) == Some(e.spec_kind())
                    && e.spec_input() == address,
            },
            r is Err <==> email::email_error(self.nodes(), address@) is Some,
    ;
}

impl<'a> DomainName<'a> for crate::trie::List {
    open spec fn nodes(&self) -> Seq<NodeV> {
        self@
    }

    open spec fn ready(&self) -> bool {
        self.wf()
    }

    fn parse_domain_name(&self, name: &'a str) -> (r: Result<domain::Name<'a>, Error<'a>>) {
        match domain::Name::parse(self, name) {
            Ok(n) => Ok(n),
            Err(k) => Err(k.error_with(name)),
        }
    }
}

impl<'a> DnsName<'a> for crate::trie::List {
    open spec fn nodes(&self) -> Seq<NodeV> {
        self@
    }

    open spec fn ready(&self) -> bool {
        self.wf()
    }

    fn parse_dns_name(&self, name: &'a str) -> (r: Result<dns::Name<'a>, Error<'a>>) {
        match dns::Name::parse(self, name) {
            Ok(n) => Ok(n),
            Err(k) => Err(k.error_with(name)),
        }
    }
}

impl<'a> EmailAddress<'a> for crate::trie::List {
    open spec fn nodes(&self) -> Seq<NodeV> {
        self@
    }

    open spec fn ready(&self) -> bool {
        self.wf()
    }

    fn parse_email_address(&self, address: &'a str) -> (r: Result<email::Address<'a>, Error<'a>>) {
        match email::Address::parse(self, address) {
            Ok(a) => Ok(a),
            Err(k) => Err(k.error_with(address)),
        }
    }
}

} // verus!
