//! An owned domain name, carrying its root and suffix as offsets.

use crate::domain;
use crate::errors::Error;
use crate::psl;
use crate::text::lemma_boundary_after_ascii;
use crate::trie::List;
use vstd::prelude::*;
use vstd::string::StringExecFns;
use vstd::string::StringSliceAdditionalSpecFns;

verus! {

broadcast use vstd::utf8::encode_utf8_valid_utf8, vstd::utf8::is_char_boundary_start_end_of_seq;

/// An owned, parsed domain name with a registrable part.
#[derive(Clone, PartialEq, Eq, PartialOrd, Ord, Hash, Debug)]
pub struct DomainName {
    full: String,
    root_offset: usize,
    suffix_offset: usize,
    suffix_is_known: bool,
}

impl DomainName {
    /// The stored text, for contracts.
    pub closed spec fn spec_full(&self) -> Seq<char> {
        self.full@
    }

    /// The stored text's bytes, for contracts.
    pub closed spec fn spec_bytes(&self) -> Seq<u8> {
        vstd::utf8::encode_utf8(self.full@)
    }

    /// Where the registrable part starts, for contracts.
    pub closed spec fn spec_root_offset(&self) -> int {
        self.root_offset as int
    }

    /// Where the suffix starts, for contracts.
    pub closed spec fn spec_suffix_offset(&self) -> int {
        self.suffix_offset as int
    }

    /// Whether the suffix stands in the list, for contracts.
    pub closed spec fn spec_known(&self) -> bool {
        self.suffix_is_known
    }

    /// The offsets stay inside the text, on character boundaries.
    pub closed spec fn wf(&self) -> bool {
        &&& self.root_offset <= self.spec_bytes().len()
        &&& self.suffix_offset <= self.spec_bytes().len()
        &&& vstd::utf8::is_char_boundary(self.spec_bytes(), self.root_offset as int)
        &&& vstd::utf8::is_char_boundary(self.spec_bytes(), self.suffix_offset as int)
    }

    /// Parse an owned domain name: it must be well-formed, have a public
    /// suffix and a registrable part.
    pub fn parse(list: &List, input: &str) -> (r: Result<DomainName, Error>)
        requires
            list.wf(),
        ensures
            match r {
                Ok(d) => {
                    &&& d.wf()
                    &&& d.spec_full() == input@
                    &&& domain::parse_err(list@, input) is None
                    &&& (psl::spec_domain(list@, input.spec_bytes()) matches Some(dv) && {
                        &&& d.spec_root_offset() == input.spec_bytes().len() - dv.bytes.len()
                        &&& d.spec_suffix_offset() == input.spec_bytes().len()
                            - dv.suffix.bytes.len()
                        &&& d.spec_known() == (dv.suffix.typ is Some)
                    })
                },
                Err(e) => {
                    &&& (domain::parse_err(list@, input) is Some || psl::spec_domain(
                        list@,
                        input.spec_bytes(),
                    ) is None)
                    &&& (e matches Error::InvalidDomain(b) && b@ == input@)
                },
            },
            r is Err <==> (domain::parse_err(list@, input) is Some || psl::spec_domain(
                list@,
                input.spec_bytes(),
            ) is None),
    {
        let name = match domain::Name::parse(list, input) {
            Ok(n) => n,
            Err(_) => {
                return Err(Error::InvalidDomain(String::from_str(input)));
            },
        };
        let root = match name.root() {
            Some(rt) => rt,
            None => {
                return Err(Error::InvalidDomain(String::from_str(input)));
            },
        };
        let ghost bytes = input.spec_bytes();
        proof {
            assert(vstd::utf8::valid_utf8(bytes));
            psl::lemma_suffix_in_name(list@, bytes);
            psl::lemma_domain_suffix(list@, bytes);
        }
        let n = input.as_bytes().len();
        let root_offset = n - root.as_bytes().len();
        let suffix_offset = n - name.suffix().as_bytes().len();
        proof {
            if root_offset > 0 {
                assert(bytes[root_offset - 1] == crate::bytes::DOT);
                lemma_boundary_after_ascii(bytes, root_offset - 1);
            }
            if suffix_offset > 0 {
                assert(bytes[suffix_offset - 1] == crate::bytes::DOT);
                lemma_boundary_after_ascii(bytes, suffix_offset - 1);
            }
        }
        Ok(
            DomainName {
                full: String::from_str(input),
                root_offset,
                suffix_offset,
                suffix_is_known: name.has_known_suffix(),
            },
        )
    }

    /// The whole name.
    pub fn as_str(&self) -> (r: &str)
        requires
            self.wf(),
        ensures
            r@ == self.spec_full(),
    {
        self.full.as_str()
    }

    /// The registrable part.
    pub fn root(&self) -> (r: &str)
        requires
            self.wf(),
        ensures
            r.spec_bytes() == self.spec_bytes().skip(self.spec_root_offset()),
    {
        let r = self.full.as_str().split_at(self.root_offset).1;
        proof {
            assert(r.spec_bytes() =~= self.spec_bytes().skip(self.spec_root_offset()));
        }
        r
    }

    /// The public suffix.
    pub fn suffix(&self) -> (r: &str)
        requires
            self.wf(),
        ensures
            r.spec_bytes() == self.spec_bytes().skip(self.spec_suffix_offset()),
    {
        let r = self.full.as_str().split_at(self.suffix_offset).1;
        proof {
            assert(r.spec_bytes() =~= self.spec_bytes().skip(self.spec_suffix_offset()));
        }
        r
    }

    /// Whether the suffix stands in the list.
    pub fn suffix_is_known(&self) -> (r: bool)
        ensures
            r == self.spec_known(),
    {
        self.suffix_is_known
    }
}

} // verus!
