//! An owned host: a domain name or an IP address.

use crate::domain_impls::DomainName;
use crate::errors::Error;
use crate::net::{is_ipv4_text, is_ipv6_text, parse_ip, IpAddr};
use crate::psl;
use crate::text::chars_vec;
use crate::trie::{List, NodeV};
use vstd::prelude::*;
use vstd::string::StrSliceExecFns;
use vstd::string::StringSliceAdditionalSpecFns;

verus! {

/// A host taken from free text.
#[derive(Clone, Debug)]
pub enum Host {
    Domain(DomainName),
    Ip(IpAddr),
}

/// A host in brackets has them stripped before the address check, but only
/// single ones.
pub open spec fn spec_unbracket(s: Seq<char>) -> Seq<char> {
    if s.len() >= 2 && s[0] == '[' && s.last() == ']' && !(s.len() >= 4 && s[1] == '[' && s[s.len()
        - 2] == ']') {
        s.subrange(1, s.len() - 1)
    } else {
        s
    }
}

/// Whether the text, brackets stripped, is an address literal.
pub open spec fn is_ip_text(s: Seq<char>) -> bool {
    is_ipv4_text(spec_unbracket(s)) || is_ipv6_text(spec_unbracket(s))
}

/// Whether the text can stand as an owned domain name.
pub open spec fn is_domain_text(t: Seq<NodeV>, s: &str) -> bool {
    crate::domain::parse_err(t, s) is None && psl::spec_domain(t, s.spec_bytes()) is Some
}

impl Host {
    /// Parse a host: a domain name when possible, an address literal
    /// otherwise.
    pub fn parse(list: &List, host: &str) -> (r: Result<Host, Error>)
        requires
            list.wf(),
        ensures
            match r {
                Ok(h) => match h {
                    Host::Domain(d) => is_domain_text(list@, host) && d.wf() && d.spec_full()
                        == host@,
                    Host::Ip(ip) => {
                        &&& !is_domain_text(list@, host)
                        &&& is_ip_text(host@)
                        &&& (ip == IpAddr::V4 <==> is_ipv4_text(spec_unbracket(host@)))
                    },
                },
                Err(e) => !is_domain_text(list@, host) && !is_ip_text(host@) && e
                    == Error::InvalidHost,
            },
            r is Err <==> (!is_domain_text(list@, host) && !is_ip_text(host@)),
    {
        match DomainName::parse(list, host) {
            Ok(d) => {
                return Ok(Host::Domain(d));
            },
            Err(_) => {},
        }
        let cs = chars_vec(host);
        let n = cs.len();
        let bracketed = n >= 2 && cs[0] == '[' && cs[n - 1] == ']' && !(n >= 4 && cs[1] == '['
            && cs[n - 2] == ']');
        let stripped: &str = if bracketed {
            let inner = host.substring_char(1, n - 1);
            proof {
                assert(host@.last() == ']');
                assert(inner@ == spec_unbracket(host@));
            }
            inner
        } else {
            proof {
                if n >= 2 {
                    assert(cs@[n - 1] == host@.last());
                }
                assert(host@ == spec_unbracket(host@));
            }
            host
        };
        match parse_ip(stripped) {
            Some(ip) => Ok(Host::Ip(ip)),
            None => Err(Error::InvalidHost),
        }
    }

    /// A convenient method to simply check if a host is an IP address.
    pub fn is_ip(&self) -> (r: bool)
        ensures
            r == (self is Ip),
    {
        matches!(self, Host::Ip(_))
    }

    /// A convenient method to simply check if a host is a domain name.
    pub fn is_domain(&self) -> (r: bool)
        ensures
            r == (self is Domain),
    {
        matches!(self, Host::Domain(_))
    }
}

} // verus!
