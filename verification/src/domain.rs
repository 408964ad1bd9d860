//! Domain name types.

use crate::error::Kind;
use crate::matcher;
use crate::psl;
use crate::text::{chars_vec, lemma_boundary_after_ascii, lemma_last_byte_dot, lemma_strip_dot_bytes};
use crate::trie::List;
use crate::Type;
use vstd::prelude::*;
use vstd::string::StringSliceAdditionalSpecFns;

verus! {

broadcast use vstd::utf8::encode_utf8_valid_utf8, vstd::utf8::encode_utf8_decode_utf8, vstd::utf8::is_char_boundary_start_end_of_seq;

/// The name with one trailing separator removed, as characters.
pub open spec fn strip_chars(s: Seq<char>) -> Seq<char> {
    if s.len() > 0 && s.last() == '.' {
        s.drop_last()
    } else {
        s
    }
}

/// The syntax rule the parser applies: a dotted name must be a well-formed
/// domain, a single label a well-formed TLD.
pub open spec fn name_error(s: Seq<char>) -> Option<Kind> {
    let t = strip_chars(s);
    if exists|i: int| 0 <= i < t.len() && t[i] == '.' {
        matcher::domain_error(t)
    } else {
        matcher::label_error(t, true)
    }
}

/// What parsing owes the caller on success: the stored views are exactly
/// the suffix, prefix and root that the list assigns to the name.
pub open spec fn parse_ok(t: Seq<crate::trie::NodeV>, name: &str, n: Name) -> bool {
    &&& name_error(name@) is None
    &&& n.spec_full() == name
    &&& (psl::spec_suffix(t, name.spec_bytes()) matches Some(sv) && {
        &&& n.spec_suffix_str().spec_bytes() == sv.bytes
        &&& n.spec_typ() == sv.typ
        &&& ({
            let off = name.spec_bytes().len() - sv.bytes.len();
            if off <= 1 {
                n.spec_prefix() is None
            } else {
                n.spec_prefix() matches Some(p) && p.spec_bytes() == name.spec_bytes().take(
                    off - 1,
                )
            }
        })
    })
    &&& (match psl::spec_domain(t, name.spec_bytes()) {
        Some(dv) => n.spec_root() matches Some(rt) && rt.spec_bytes() == dv.bytes,
        None => n.spec_root() is None,
    })
}

/// When parsing fails, and how: the first syntax complaint, or a name
/// without any public suffix.
pub open spec fn parse_err(t: Seq<crate::trie::NodeV>, name: &str) -> Option<Kind> {
    match name_error(name@) {
        Some(k) => Some(k),
        None => if psl::spec_suffix(t, name.spec_bytes()) is None {
            Some(Kind::InvalidDomain)
        } else {
            None
        },
    }
}

/// Holds information about a particular domain name.
#[derive(Copy, Clone, Eq, PartialEq, Ord, PartialOrd, Hash, Debug)]
pub struct Name<'a> {
    full: &'a str,
    suffix_str: &'a str,
    prefix_str: Option<&'a str>,
    root_str: Option<&'a str>,
    typ: Option<Type>,
}

impl<'a> Name<'a> {
    /// The stored full name, for contracts.
    pub closed spec fn spec_full(&self) -> &'a str {
        self.full
    }

    /// The stored suffix view, for contracts.
    pub closed spec fn spec_suffix_str(&self) -> &'a str {
        self.suffix_str
    }

    /// The stored prefix view, for contracts.
    pub closed spec fn spec_prefix(&self) -> Option<&'a str> {
        self.prefix_str
    }

    /// The stored root view, for contracts.
    pub closed spec fn spec_root(&self) -> Option<&'a str> {
        self.root_str
    }

    /// The stored suffix type, for contracts.
    pub closed spec fn spec_typ(&self) -> Option<Type> {
        self.typ
    }

    /// Parse a domain name against the list: the name must be well-formed
    /// and have a public suffix. Errors report the first syntax complaint,
    /// or that no suffix exists.
    pub fn parse(list: &List, name: &'a str) -> (r: Result<Name<'a>, Kind>)
        requires
            list.wf(),
        ensures
            match r {
                Ok(n) => parse_ok(list@, name, n) && parse_err(list@, name) is None,
                Err(k) => parse_err(list@, name) == Some(k),
            },
            r is Err <==> parse_err(list@, name) is Some,
    {
        let ghost bytes = name.spec_bytes();
        proof {
            assert(vstd::utf8::valid_utf8(bytes));
        }
        let b = name.as_bytes();
        let n = b.len();
        // strip one trailing separator for the syntax check
        let stripped: &'a str = if n > 0 && b[n - 1] == crate::bytes::DOT {
            proof {
                lemma_boundary_after_ascii(bytes, n - 1);
            }
            name.split_at(n - 1).0
        } else {
            name
        };
        proof {
            if name@.len() == 0 {
                assert(bytes =~= Seq::<u8>::empty());
            }
            if n > 0 {
                lemma_last_byte_dot(name@);
            }
            if n > 0 && bytes[n - 1] == crate::bytes::DOT {
                assert(name@.last() == '.');
                lemma_strip_dot_bytes(name@);
                assert(stripped.spec_bytes() =~= bytes.take(n - 1));
                assert(stripped.spec_bytes() == vstd::utf8::encode_utf8(name@.drop_last()));
                assert(vstd::utf8::decode_utf8(stripped.spec_bytes()) == stripped@);
                assert(stripped@ == name@.drop_last());
                assert(stripped@ == strip_chars(name@));
            } else {
                assert(stripped@ == strip_chars(name@));
            }
        }
        // a dotted name is checked as a domain, a single label as a TLD
        let cs = chars_vec(stripped);
        let m = cs.len();
        let mut has_dot = false;
        let mut i: usize = 0;
        while i < m
            invariant
                m == cs@.len(),
                0 <= i <= m,
                has_dot == exists|j: int| 0 <= j < i && cs@[j] == '.',
            decreases m - i,
        {
            if cs[i] == '.' {
                proof {
                    assert(cs@[i as int] == '.');
                }
                has_dot = true;
            }
            i += 1;
        }
        if has_dot {
            match matcher::is_domain_name(stripped) {
                Ok(_) => {},
                Err(k) => {
                    return Err(k);
                },
            }
        } else {
            match matcher::is_label(stripped, true) {
                Ok(_) => {},
                Err(k) => {
                    return Err(k);
                },
            }
        }
        // the public suffix decides validity past syntax
        let suffix = match psl::suffix(list, b) {
            None => {
                return Err(Kind::InvalidDomain);
            },
            Some(s) => s,
        };
        proof {
            psl::lemma_suffix_in_name(list@, bytes);
        }
        let slen = suffix.as_bytes().len();
        let offset = n - slen;
        proof {
            if offset > 0 {
                assert(bytes[offset - 1] == crate::bytes::DOT);
                lemma_boundary_after_ascii(bytes, offset - 1);
            }
        }
        let suffix_str = name.split_at(offset).1;
        proof {
            assert(suffix_str.spec_bytes() =~= bytes.skip(offset as int));
        }
        let prefix_str: Option<&'a str> = if offset <= 1 {
            None
        } else {
            Some(name.split_at(offset - 1).0)
        };
        let root_str: Option<&'a str> = match psl::domain(list, b) {
            None => None,
            Some(d) => {
                proof {
                    psl::lemma_domain_suffix(list@, bytes);
                }
                let dlen = d.as_bytes().len();
                proof {
                    if n - dlen > 0 {
                        assert(bytes[n - dlen - 1] == crate::bytes::DOT);
                        lemma_boundary_after_ascii(bytes, n - dlen - 1);
                    }
                }
                let rt = name.split_at(n - dlen).1;
                proof {
                    assert(rt.spec_bytes() =~= bytes.skip(n - dlen));
                }
                Some(rt)
            },
        };
        Ok(Name { full: name, suffix_str, prefix_str, root_str, typ: suffix.typ() })
    }

    /// Full domain name as a `str`.
    pub fn as_str(&self) -> (r: &'a str)
        ensures
            r == self.spec_full(),
    {
        self.full
    }

    /// The root domain (the registrable part).
    pub fn root(&self) -> (r: Option<&'a str>)
        ensures
            r == self.spec_root(),
    {
        self.root_str
    }

    /// What stands before the public suffix, less the separator.
    fn prefix(&self) -> (r: Option<&'a str>)
        ensures
            r == self.spec_prefix(),
    {
        self.prefix_str
    }

    /// The domain name suffix (extension).
    pub fn suffix(&self) -> (r: &'a str)
        ensures
            r == self.spec_suffix_str(),
    {
        self.suffix_str
    }

    /// Whether the suffix of the domain name is in the Public Suffix List.
    pub fn has_known_suffix(&self) -> (r: bool)
        ensures
            r == (self.spec_typ() is Some),
    {
        self.typ.is_some()
    }

    /// Whether this is an ICANN delegated suffix.
    ///
    /// ICANN domains are those delegated by ICANN or part of the IANA root
    /// zone database.
    pub fn is_icann(&self) -> (r: bool)
        ensures
            r == (self.spec_typ() == Some(Type::Icann)),
    {
        matches!(self.typ, Some(Type::Icann))
    }

    /// Whether this is a private party delegated suffix.
    ///
    /// PRIVATE domains are amendments submitted by the domain holder, as an
    /// expression of how they operate their domain security policy.
    pub fn is_private(&self) -> (r: bool)
        ensures
            r == (self.spec_typ() == Some(Type::Private)),
    {
        matches!(self.typ, Some(Type::Private))
    }
}

} // verus!
