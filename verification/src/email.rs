//! Email address types.

use crate::domain::{name_error, Name};
use crate::error::Kind;
use crate::matcher::{email_local_error, is_email_local};
use crate::net::{is_ipv4_text, is_ipv6_text, parse_ip, IpAddr};
use crate::psl;
use crate::text::chars_vec;
use crate::trie::{List, NodeV};
use vstd::prelude::*;
use vstd::string::StringSliceAdditionalSpecFns;
use vstd::string::StrSliceExecFns;

verus! {

/// Information about the host part of an email address.
#[derive(Copy, Clone, Eq, PartialEq, Debug)]
pub enum Host<'a> {
    Domain(Name<'a>),
    IpAddr(IpAddr),
}

/// Index of the last `@` in the text, or `-1`.
pub open spec fn last_at(s: Seq<char>) -> int
    decreases s.len(),
{
    if s.len() == 0 {
        -1
    } else if s.last() == '@' {
        s.len() - 1
    } else {
        last_at(s.drop_last())
    }
}

/// What a well-parsed host looks like: a bracketed address literal, or a
/// domain name with a public suffix.
pub open spec fn host_ok(t: Seq<NodeV>, hc: Seq<char>, host: Host) -> bool {
    if hc.len() > 0 && hc[0] == '[' {
        &&& hc.len() >= 2
        &&& hc.last() == ']'
        &&& (host matches Host::IpAddr(ip) && {
            let inner = hc.subrange(1, hc.len() - 1);
            if is_ipv4_text(inner) {
                ip == IpAddr::V4
            } else {
                ip == IpAddr::V6 && is_ipv6_text(inner)
            }
        })
    } else {
        host matches Host::Domain(n) && {
            &&& n.spec_full()@ == hc
            &&& name_error(hc) is None
            &&& (psl::spec_suffix(t, vstd::utf8::encode_utf8(hc)) matches Some(sv) && {
                &&& n.spec_suffix_str().spec_bytes() == sv.bytes
                &&& n.spec_typ() == sv.typ
            })
        }
    }
}

/// The first complaint about a host: a bracket must be closed and hold an
/// address literal; anything else must parse as a domain name.
pub open spec fn host_error(t: Seq<NodeV>, hc: Seq<char>) -> Option<Kind> {
    if hc.len() > 0 && hc[0] == '[' {
        if hc.len() < 2 || hc.last() != ']' {
            Some(Kind::IllegalCharacter)
        } else {
            let inner = hc.subrange(1, hc.len() - 1);
            if !is_ipv4_text(inner) && !is_ipv6_text(inner) {
                Some(Kind::InvalidIpAddr)
            } else {
                None
            }
        }
    } else {
        match name_error(hc) {
            Some(k) => Some(k),
            None => if psl::spec_suffix(t, vstd::utf8::encode_utf8(hc)) is None {
                Some(Kind::InvalidDomain)
            } else {
                None
            },
        }
    }
}

/// The first complaint about a whole address: bounded length, an `@` sign,
/// a well-formed local part, then a well-formed host.
pub open spec fn email_error(t: Seq<NodeV>, s: Seq<char>) -> Option<Kind> {
    if s.len() > 254 {
        Some(Kind::EmailTooLong)
    } else if last_at(s) < 0 {
        Some(Kind::NoAtSign)
    } else {
        let at = last_at(s);
        match email_local_error(s.take(at)) {
            Some(k) => Some(k),
            None => host_error(t, s.skip(at + 1)),
        }
    }
}

/// What parsing an address owes the caller on success.
pub open spec fn parse_ok(t: Seq<NodeV>, address: &str, a: Address) -> bool {
    &&& email_error(t, address@) is None
    &&& a.spec_full() == address
    &&& a.spec_user()@ == address@.take(last_at(address@))
    &&& host_ok(t, address@.skip(last_at(address@) + 1), a.spec_host())
}

impl<'a> Host<'a> {
    /// Parse the host part of an email address: a bracketed IP address
    /// literal or a domain name.
    pub fn parse(list: &List, host: &'a str) -> (r: Result<Host<'a>, Kind>)
        requires
            list.wf(),
        ensures
            match r {
                Ok(h) => host_error(list@, host@) is None && host_ok(list@, host@, h),
                Err(k) => host_error(list@, host@) == Some(k),
            },
            r is Err <==> host_error(list@, host@) is Some,
    {
        let cs = chars_vec(host);
        let n = cs.len();
        if n > 0 && cs[0] == '[' {
            if n < 2 || cs[n - 1] != ']' {
                proof {
                    if n >= 2 {
                        assert(host@.last() != ']');
                    }
                }
                return Err(Kind::IllegalCharacter);
            }
            proof {
                assert(host@.last() == ']');
            }
            let inner = host.substring_char(1, n - 1);
            proof {
                assert(inner@ == host@.subrange(1, host@.len() - 1));
            }
            match parse_ip(inner) {
                Some(ip) => Ok(Host::IpAddr(ip)),
                None => Err(Kind::InvalidIpAddr),
            }
        } else {
            match Name::parse(list, host) {
                Ok(nm) => Ok(Host::Domain(nm)),
                Err(k) => Err(k),
            }
        }
    }

    /// Whether the host is an address literal.
    pub fn is_ip(&self) -> (r: bool)
        ensures
            r == (self is IpAddr),
    {
        matches!(self, Host::IpAddr(_))
    }

    /// Whether the host is a domain name.
    pub fn is_domain(&self) -> (r: bool)
        ensures
            r == (self is Domain),
    {
        matches!(self, Host::Domain(_))
    }
}

/// Holds information about a particular email address.
#[derive(Copy, Clone, Eq, PartialEq, Debug)]
pub struct Address<'a> {
    full: &'a str,
    user_str: &'a str,
    host: Host<'a>,
}

impl<'a> Address<'a> {
    /// The stored full address, for contracts.
    pub closed spec fn spec_full(&self) -> &'a str {
        self.full
    }

    /// The stored user part, for contracts.
    pub closed spec fn spec_user(&self) -> &'a str {
        self.user_str
    }

    /// The stored host, for contracts.
    pub closed spec fn spec_host(&self) -> Host<'a> {
        self.host
    }

    /// Parse an email address: a local part, the last `@`, and a host.
    #[verifier::loop_isolation(false)]
    pub fn parse(list: &List, address: &'a str) -> (r: Result<Address<'a>, Kind>)
        requires
            list.wf(),
        ensures
            match r {
                Ok(a) => parse_ok(list@, address, a),
                Err(k) => email_error(list@, address@) == Some(k),
            },
            r is Err <==> email_error(list@, address@) is Some,
    {
        let cs = chars_vec(address);
        let n = cs.len();
        if n > 254 {
            return Err(Kind::EmailTooLong);
        }
        // find the last at sign
        proof {
            assert(address@.take(n as int) =~= address@);
        }
        let mut i: usize = n;
        while i > 0 && cs[i - 1] != '@'
            invariant
                0 <= i <= n == cs@.len(),
                last_at(address@) == last_at(address@.take(i as int)),
            decreases i,
        {
            proof {
                assert(address@.take(i as int).last() == address@[i - 1]);
                assert(address@.take(i as int).drop_last() =~= address@.take(i - 1));
            }
            i -= 1;
        }
        if i == 0 {
            proof {
                assert(address@.take(0) =~= Seq::<char>::empty());
            }
            return Err(Kind::NoAtSign);
        }
        let at = i - 1;
        proof {
            assert(address@.take(i as int).last() == address@[at as int]);
            assert(last_at(address@) == at);
        }
        let local = address.substring_char(0, at);
        proof {
            assert(local@ == address@.subrange(0, at as int));
            assert(local@ == address@.take(at as int));
        }
        match is_email_local(local) {
            Ok(_) => {},
            Err(k) => {
                return Err(k);
            },
        }
        let rest = address.substring_char(at + 1, n);
        proof {
            assert(rest@ == address@.subrange(at + 1, address@.len() as int));
            assert(rest@ == address@.skip(at + 1));
        }
        let host = match Host::parse(list, rest) {
            Ok(h) => h,
            Err(k) => {
                return Err(k);
            },
        };
        Ok(Address { full: address, user_str: local, host })
    }

    /// The full email address as a `str`.
    pub fn as_str(&self) -> (r: &'a str)
        ensures
            r == self.spec_full(),
    {
        self.full
    }

    /// The host part of the email address.
    pub fn host(&self) -> (r: Host<'a>)
        ensures
            r == self.spec_host(),
    {
        self.host
    }

    /// The user (local) part of the email address.
    pub fn user(&self) -> (r: &'a str)
        ensures
            r == self.spec_user(),
    {
        self.user_str
    }
}

} // verus!
