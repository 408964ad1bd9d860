//! DNS types.

use crate::error::Kind;
use crate::matcher;
use crate::psl;
use crate::text::lemma_boundary_after_ascii;
use crate::trie::List;
use crate::Type;
use vstd::prelude::*;
use vstd::string::StringSliceAdditionalSpecFns;

verus! {

broadcast use vstd::utf8::encode_utf8_valid_utf8, vstd::utf8::is_char_boundary_start_end_of_seq;

/// What parsing owes the caller on success: the stored views are exactly
/// the suffix, prefix and root that the list assigns to the name, when the
/// name has a suffix at all.
pub open spec fn parse_ok(t: Seq<crate::trie::NodeV>, name: &str, n: Name) -> bool {
    &&& matcher::dns_error(name.spec_bytes()) is None
    &&& n.spec_full() == name
    &&& (match psl::spec_suffix(t, name.spec_bytes()) {
        Some(sv) => {
            &&& n.spec_known()
            &&& n.spec_typ() == sv.typ
            &&& (n.spec_suffix_str() matches Some(ss) && ss.spec_bytes() == sv.bytes)
            &&& ({
                let off = name.spec_bytes().len() - sv.bytes.len();
                if off <= 1 {
                    n.spec_prefix() is None
                } else {
                    n.spec_prefix() matches Some(p) && p.spec_bytes() == name.spec_bytes().take(
                        off - 1,
                    )
                }
            })
        },
        None => !n.spec_known() && n.spec_suffix_str() is None && n.spec_typ() is None
            && n.spec_prefix() is None,
    })
    &&& (match psl::spec_domain(t, name.spec_bytes()) {
        Some(dv) => n.spec_root() matches Some(rt) && rt.spec_bytes() == dv.bytes,
        None => n.spec_root() is None,
    })
}

/// Holds information about a particular DNS name.
#[derive(Copy, Clone, Eq, PartialEq, Ord, PartialOrd, Hash, Debug)]
pub struct Name<'a> {
    full: &'a str,
    suffix_str: Option<&'a str>,
    prefix_str: Option<&'a str>,
    root_str: Option<&'a str>,
    typ: Option<Type>,
    known: bool,
}

impl<'a> Name<'a> {
    /// The stored full name, for contracts.
    pub closed spec fn spec_full(&self) -> &'a str {
        self.full
    }

    /// The stored suffix view, for contracts.
    pub closed spec fn spec_suffix_str(&self) -> Option<&'a str> {
        self.suffix_str
    }

    /// The stored prefix view, for contracts.
    pub closed spec fn spec_prefix(&self) -> Option<&'a str> {
        self.prefix_str
    }

    /// The stored root view, for contracts.
    pub closed spec fn spec_root(&self) -> Option<&'a str> {
        self.root_str
    }

    /// The stored suffix type, for contracts.
    pub closed spec fn spec_typ(&self) -> Option<Type> {
        self.typ
    }

    /// Whether a suffix was found at all, for contracts.
    pub closed spec fn spec_known(&self) -> bool {
        self.known
    }

    /// Parse a DNS name against the list. Only the loose DNS-name syntax is
    /// demanded; a name without a public suffix is still accepted.
    pub fn parse(list: &List, name: &'a str) -> (r: Result<Name<'a>, Kind>)
        requires
            list.wf(),
        ensures
            match r {
                Ok(n) => parse_ok(list@, name, n),
                Err(k) => matcher::dns_error(name.spec_bytes()) == Some(k),
            },
            r is Err <==> matcher::dns_error(name.spec_bytes()) is Some,
    {
        let ghost bytes = name.spec_bytes();
        proof {
            assert(vstd::utf8::valid_utf8(bytes));
        }
        match matcher::is_dns_name(name) {
            Ok(_) => {},
            Err(k) => {
                return Err(k);
            },
        }
        let b = name.as_bytes();
        let n = b.len();
        let (suffix_str, prefix_str, typ, known) = match psl::suffix(list, b) {
            None => (None, None, None, false),
            Some(suffix) => {
                proof {
                    psl::lemma_suffix_in_name(list@, bytes);
                }
                let slen = suffix.as_bytes().len();
                let offset = n - slen;
                proof {
                    if offset > 0 {
                        assert(bytes[offset - 1] == crate::bytes::DOT);
                        lemma_boundary_after_ascii(bytes, offset - 1);
                    }
                }
                let ss = name.split_at(offset).1;
                proof {
                    assert(ss.spec_bytes() =~= bytes.skip(offset as int));
                }
                let ps: Option<&'a str> = if offset <= 1 {
                    None
                } else {
                    Some(name.split_at(offset - 1).0)
                };
                (Some(ss), ps, suffix.typ(), true)
            },
        };
        let root_str: Option<&'a str> = match psl::domain(list, b) {
            None => None,
            Some(d) => {
                proof {
                    psl::lemma_domain_suffix(list@, bytes);
                }
                let dlen = d.as_bytes().len();
                proof {
                    if n - dlen > 0 {
                        assert(bytes[n - dlen - 1] == crate::bytes::DOT);
                        lemma_boundary_after_ascii(bytes, n - dlen - 1);
                    }
                }
                let rt = name.split_at(n - dlen).1;
                proof {
                    assert(rt.spec_bytes() =~= bytes.skip(n - dlen));
                }
                Some(rt)
            },
        };
        Ok(Name { full: name, suffix_str, prefix_str, root_str, typ, known })
    }

    /// Full DNS name as a `str`.
    pub fn as_str(&self) -> (r: &'a str)
        ensures
            r == self.spec_full(),
    {
        self.full
    }

    /// The root domain (the registrable part).
    pub fn root(&self) -> (r: Option<&'a str>)
        ensures
            r == self.spec_root(),
    {
        self.root_str
    }

    /// What stands before the public suffix, less the separator.
    fn prefix(&self) -> (r: Option<&'a str>)
        ensures
            r == self.spec_prefix(),
    {
        self.prefix_str
    }

    /// The domain name suffix (extension), if the name has one.
    pub fn suffix(&self) -> (r: Option<&'a str>)
        ensures
            r == self.spec_suffix_str(),
    {
        self.suffix_str
    }

    /// Whether the suffix of the name is in the Public Suffix List.
    pub fn has_known_suffix(&self) -> (r: bool)
        ensures
            r == (self.spec_typ() is Some),
    {
        self.typ.is_some()
    }

    /// Whether this is an ICANN delegated suffix.
    ///
    /// ICANN domains are those delegated by ICANN or part of the IANA root
    /// zone database.
    pub fn is_icann(&self) -> (r: bool)
        ensures
            r == (self.spec_typ() == Some(Type::Icann)),
    {
        matches!(self.typ, Some(Type::Icann))
    }

    /// Whether this is a private party delegated suffix.
    ///
    /// PRIVATE domains are amendments submitted by the domain holder, as an
    /// expression of how they operate their domain security policy.
    pub fn is_private(&self) -> (r: bool)
        ensures
            r == (self.spec_typ() == Some(Type::Private)),
    {
        matches!(self.typ, Some(Type::Private))
    }
}

} // verus!
