//! Suffix and registrable-domain extraction.
//!
//! The lookup engine counts labels; this module maps a label count back
//! onto the original byte string. A name's public suffix is its trailing
//! bytes covering the matched labels — or, when no rule matched, the last
//! label alone with unknown type. The registrable domain is the suffix plus
//! exactly one more label to its left.

use crate::bytes::{lemma_rjoin_len_bounds, lemma_rlabels_suffix, rjoin_len, rlabels, rsplit_bytes, DOT};
use crate::trie::{spec_find, List, NodeV};
use crate::Type;
use vstd::prelude::*;

verus! {

/// Mathematical counterpart of `Suffix`.
pub ghost struct SuffixV {
    pub bytes: Seq<u8>,
    pub fqdn: bool,
    pub typ: Option<Type>,
}

/// The public suffix of a domain name: a trailing view of the caller's
/// bytes, whether the name was fully qualified, and the matched rule's
/// provenance (`None` for the implicit default).
#[derive(Copy, Clone, Eq, PartialEq, Debug)]
pub struct Suffix<'a> {
    bytes: &'a [u8],
    fqdn: bool,
    typ: Option<Type>,
}

impl<'a> View for Suffix<'a> {
    type V = SuffixV;

    closed spec fn view(&self) -> SuffixV {
        SuffixV { bytes: self.bytes@, fqdn: self.fqdn, typ: self.typ }
    }
}

/// Mathematical counterpart of `Domain`.
pub ghost struct DomainV {
    pub bytes: Seq<u8>,
    pub suffix: SuffixV,
}

/// A registrable domain: the public suffix plus one label.
#[derive(Copy, Clone, Eq, PartialEq, Debug)]
pub struct Domain<'a> {
    bytes: &'a [u8],
    suffix: Suffix<'a>,
}

impl<'a> View for Domain<'a> {
    type V = DomainV;

    closed spec fn view(&self) -> DomainV {
        DomainV { bytes: self.bytes@, suffix: self.suffix@ }
    }
}

/// A fully qualified name carries a trailing separator.
pub open spec fn spec_fqdn(name: Seq<u8>) -> bool {
    name.len() > 0 && name.last() == DOT
}

/// The name with a single trailing separator conceptually stripped.
pub open spec fn spec_stripped(name: Seq<u8>) -> Seq<u8> {
    if spec_fqdn(name) {
        name.drop_last()
    } else {
        name
    }
}

/// What the public suffix of `name` is under the rules of `t`: the trailing
/// bytes covering the matched labels (re-extended over the trailing
/// separator), or the last label alone when nothing matched, or nothing at
/// all for an empty name or an empty last label.
pub open spec fn spec_suffix(t: Seq<NodeV>, name: Seq<u8>) -> Option<SuffixV> {
    let stripped = spec_stripped(name);
    let labs = rlabels(stripped);
    let info = spec_find(t, labs);
    if name.len() == 0 {
        None
    } else if info.len == 0 {
        if labs[0].len() == 0 {
            None
        } else {
            Some(
                SuffixV {
                    bytes: name.skip(stripped.len() - labs[0].len()),
                    fqdn: spec_fqdn(name),
                    typ: None,
                },
            )
        }
    } else {
        Some(
            SuffixV {
                bytes: name.skip(stripped.len() - rjoin_len(labs, info.len)),
                fqdn: spec_fqdn(name),
                typ: info.typ,
            },
        )
    }
}

/// What the registrable domain of `name` is: the suffix plus exactly one
/// non-empty label to its left, or nothing when the name is its own suffix.
pub open spec fn spec_domain(t: Seq<NodeV>, name: Seq<u8>) -> Option<DomainV> {
    match spec_suffix(t, name) {
        None => None,
        Some(suf) => {
            let slen = suf.bytes.len();
            if name.len() < slen + 2 {
                None
            } else {
                let sub = name.take(name.len() - slen - 1);
                let root_label = rlabels(sub)[0];
                if root_label.len() == 0 {
                    None
                } else {
                    Some(
                        DomainV {
                            bytes: name.skip(name.len() - (root_label.len() + 1 + slen)),
                            suffix: suf,
                        },
                    )
                }
            }
        },
    }
}

impl<'a> Suffix<'a> {
    /// The bytes of the suffix, a trailing view of the queried name.
    pub fn as_bytes(&self) -> (r: &'a [u8])
        ensures
            r@ == self@.bytes,
    {
        self.bytes
    }

    /// Whether the queried name was fully qualified.
    pub fn is_fqdn(&self) -> (r: bool)
        ensures
            r == self@.fqdn,
    {
        self.fqdn
    }

    /// The provenance of the matched rule, if any rule matched.
    pub fn typ(&self) -> (r: Option<Type>)
        ensures
            r == self@.typ,
    {
        self.typ
    }

    /// Whether the suffix comes from the list rather than the implicit
    /// default.
    pub fn is_known(&self) -> (r: bool)
        ensures
            r == (self@.typ is Some),
    {
        self.typ.is_some()
    }
}

impl<'a> Domain<'a> {
    /// The bytes of the registrable domain, a trailing view of the queried
    /// name.
    pub fn as_bytes(&self) -> (r: &'a [u8])
        ensures
            r@ == self@.bytes,
    {
        self.bytes
    }

    /// The public suffix this registrable domain was derived from.
    pub fn suffix(&self) -> (r: Suffix<'a>)
        ensures
            r@ == self@.suffix,
    {
        self.suffix
    }
}

/// A lookup never claims more labels than the input has.
proof fn lemma_spec_find_len(t: Seq<NodeV>, labs: Seq<Seq<u8>>)
    ensures
        0 <= spec_find(t, labs).len <= labs.len(),
{
    crate::trie::lemma_lookup_len(t, 0, labs, 0, crate::trie::InfoV { len: 0, typ: None });
}

/// Get the public suffix of the domain.
///
/// `name` must already be normalized: lower case, in a single consistent
/// Unicode or ASCII form.
pub fn suffix<'a>(list: &List, name: &'a [u8]) -> (r: Option<Suffix<'a>>)
    requires
        list.wf(),
    ensures
        match r {
            Some(s) => spec_suffix(list@, name@) == Some(s@),
            None => spec_suffix(list@, name@) is None,
        },
{
    let ghost stripped_g = spec_stripped(name@);
    if name.len() == 0 {
        return None;
    }
    let fqdn = name[name.len() - 1] == DOT;
    let stripped: &[u8] = if fqdn {
        vstd::slice::slice_subrange(name, 0, name.len() - 1)
    } else {
        name
    };
    proof {
        assert(fqdn == spec_fqdn(name@));
        if fqdn {
            assert(stripped@ =~= name@.drop_last());
        }
        assert(stripped@ == stripped_g);
    }
    let labels = rsplit_bytes(stripped);
    let ghost labs = rlabels(stripped_g);
    let info = list.find(&labels);
    proof {
        assert(labels.deep_view() == labs);
        assert(info@ == spec_find(list@, labs));
        assert(labs.len() == labels@.len());
    }
    let k: usize = if info.len == 0 {
        proof {
            assert(labels@[0]@ =~= labs[0]);
        }
        if labels[0].len() == 0 {
            return None;
        }
        1
    } else {
        info.len
    };
    proof {
        lemma_spec_find_len(list@, labs);
        assert(1 <= k <= labs.len());
    }
    let stripped_len = stripped.len();
    let mut sum: usize = 0;
    let mut idx: usize = 0;
    while idx < k
        invariant
            stripped_g.len() == stripped_len,
            labels.deep_view() == labs,
            labs == rlabels(stripped_g),
            labs.len() == labels@.len(),
            stripped@ == stripped_g,
            1 <= k <= labs.len(),
            0 <= idx <= k,
            sum + idx == rjoin_len(labs, idx as int) + 1,
            sum <= stripped_g.len(),
        decreases k - idx,
    {
        let lab: &[u8] = labels[idx];
        proof {
            assert(labs[idx as int] =~= lab@);
            lemma_rjoin_len_bounds(stripped_g, idx as int + 1);
            assert(rjoin_len(labs, idx as int + 1) == rjoin_len(labs, idx as int) + 1
                + labs[idx as int].len());
            assert(sum + lab@.len() == rjoin_len(labs, idx as int + 1) - idx);
            assert(sum + lab@.len() <= stripped_g.len());
        }
        sum = sum + lab.len();
        idx += 1;
    }
    proof {
        assert(sum + k == rjoin_len(labs, k as int) + 1);
        lemma_rjoin_len_bounds(stripped_g, k as int);
    }
    let byte_len = sum + (k - 1);
    let offset = stripped.len() - byte_len;
    let bytes = vstd::slice::slice_subrange(name, offset, name.len());
    proof {
        assert(bytes@ =~= name@.skip(offset as int));
        assert(offset as int == stripped_g.len() - rjoin_len(labs, k as int));
        if info.len == 0 {
            assert(rjoin_len(labs, 0) == -1);
            assert(rjoin_len(labs, 1) == labs[0].len());
        }
    }
    let typ = if info.len == 0 {
        None
    } else {
        info.typ
    };
    Some(Suffix { bytes, fqdn, typ })
}

/// Get the registrable domain: the public suffix plus one more label.
///
/// `name` must already be normalized: lower case, in a single consistent
/// Unicode or ASCII form.
pub fn domain<'a>(list: &List, name: &'a [u8]) -> (r: Option<Domain<'a>>)
    requires
        list.wf(),
    ensures
        match r {
            Some(d) => spec_domain(list@, name@) == Some(d@),
            None => spec_domain(list@, name@) is None,
        },
{
    let suf = match suffix(list, name) {
        Some(s) => s,
        None => {
            return None;
        },
    };
    proof {
        lemma_suffix_in_name(list@, name@);
    }
    let name_len = name.len();
    let suffix_len = suf.as_bytes().len();
    proof {
        assert(suffix_len <= name_len);
    }
    if name_len - suffix_len < 2 {
        return None;
    }
    let sub = vstd::slice::slice_subrange(name, 0, name_len - suffix_len - 1);
    proof {
        assert(sub@ =~= name@.take(name_len - suffix_len - 1));
    }
    let sub_labels = rsplit_bytes(sub);
    let root_label: &[u8] = sub_labels[0];
    proof {
        assert(sub_labels@[0]@ =~= rlabels(sub@)[0]);
        crate::bytes::lemma_rlabels_suffix(sub@, 1);
        assert(rjoin_len(rlabels(sub@), 0) == -1);
        assert(rlabels(sub@)[0].len() <= sub@.len());
    }
    let root_len = root_label.len();
    if root_len == 0 {
        return None;
    }
    let offset = name_len - (root_len + 1 + suffix_len);
    let bytes = vstd::slice::slice_subrange(name, offset, name_len);
    proof {
        assert(bytes@ =~= name@.skip(offset as int));
    }
    Some(Domain { bytes, suffix: suf })
}

/// A non-empty public suffix is a byte-exact trailing substring of the
/// queried name, and its label count is exactly what the lookup reported —
/// one label for the implicit default. Its labels are the very labels the
/// lookup matched.
pub proof fn lemma_suffix_in_name(t: Seq<NodeV>, name: Seq<u8>)
    requires
        spec_suffix(t, name) is Some,
    ensures
        ({
            let s = spec_suffix(t, name)->0;
            let labs = rlabels(spec_stripped(name));
            let info = spec_find(t, labs);
            let count = if info.len == 0 {
                1int
            } else {
                info.len
            };
            &&& s.bytes.len() <= name.len()
            &&& s.bytes == name.skip(name.len() - s.bytes.len())
            &&& (s.bytes.len() < name.len() ==> name[name.len() - s.bytes.len() - 1] == DOT)
            &&& rlabels(spec_stripped(s.bytes)) == labs.take(count)
            &&& rlabels(spec_stripped(s.bytes)).len() == count
        }),
{
    let s = spec_suffix(t, name)->0;
    let stripped = spec_stripped(name);
    let labs = rlabels(stripped);
    let info = spec_find(t, labs);
    lemma_spec_find_len(t, labs);
    let count = if info.len == 0 {
        1int
    } else {
        info.len
    };
    if info.len == 0 {
        assert(rjoin_len(labs, 0) == -1);
        assert(rjoin_len(labs, 1) == labs[0].len());
    }
    let n = rjoin_len(labs, count);
    lemma_rlabels_suffix(stripped, count);
    assert(s.bytes =~= name.skip(stripped.len() - n));
    assert(s.bytes.len() == name.len() - (stripped.len() - n));
    assert(s.bytes == name.skip(name.len() - s.bytes.len()));
    let region = stripped.subrange(stripped.len() - n, stripped.len() as int);
    assert(rlabels(region) =~= labs.take(count));
    if spec_fqdn(name) {
        assert(s.bytes.len() == n + 1);
        assert(s.bytes.last() == name.last());
        assert(spec_fqdn(s.bytes));
        assert(spec_stripped(s.bytes) =~= region);
    } else {
        assert(s.bytes =~= region);
        if spec_fqdn(s.bytes) {
            assert(s.bytes.last() == stripped[stripped.len() - 1]);
            assert(!spec_fqdn(name));
            assert(false);
        }
        assert(spec_stripped(s.bytes) =~= region);
    }
    assert(labs.take(count).len() == count);
}

/// Longest-match law, seen from the extractor: in a list without exception
/// rules, a literal rule that matches the name's trailing labels is never
/// undercut — the suffix covers at least as many labels as the rule.
/// Wildcard edges can divert the walk from a literal rule sharing a prefix,
/// and an exception shortens its wildcard's match by one label, so both
/// stay outside this statement.
pub proof fn lemma_rule_never_undercut(t: Seq<NodeV>, name: Seq<u8>, rule: Seq<u8>, typ: Type)
    requires
        crate::trie::trie_wf(t),
        crate::trie::rule_in(t, rule, typ),
        forall|i: int|
            0 <= i < crate::trie::rule_path(rule).len() ==> !crate::trie::is_wild(
                #[trigger] crate::trie::rule_path(rule)[i],
            ),
        forall|i: int| 0 <= i < t.len() ==> !(#[trigger] t[i]).exception,
        crate::trie::rule_path(rule).len() <= rlabels(spec_stripped(name)).len(),
        forall|i: int|
            0 <= i < crate::trie::rule_path(rule).len() ==> rlabels(spec_stripped(name))[i]
                == #[trigger] crate::trie::rule_path(rule)[i],
        name.len() > 0,
    ensures
        spec_suffix(t, name) is Some,
        rlabels(spec_stripped(spec_suffix(t, name)->0.bytes)).len() >= crate::trie::rule_path(
            rule,
        ).len(),
{
    let labs = rlabels(spec_stripped(name));
    crate::trie::lemma_literal_rule_wins(t, rule, typ, labs);
    lemma_spec_find_len(t, labs);
    let info = spec_find(t, labs);
    assert(info.len >= crate::trie::rule_path(rule).len());
    assert(info.len >= 1);
    lemma_suffix_in_name(t, name);
}

/// The suffix reachable through a registrable domain is the suffix of the
/// name itself, and both are trailing views: the domain of the name, the
/// suffix of the domain.
pub proof fn lemma_domain_suffix(t: Seq<NodeV>, name: Seq<u8>)
    requires
        spec_domain(t, name) is Some,
    ensures
        ({
            let d = spec_domain(t, name)->0;
            &&& spec_suffix(t, name) == Some(d.suffix)
            &&& d.bytes.len() <= name.len()
            &&& d.bytes == name.skip(name.len() - d.bytes.len())
            &&& (d.bytes.len() < name.len() ==> name[name.len() - d.bytes.len() - 1] == DOT)
            &&& d.suffix.bytes == d.bytes.skip(d.bytes.len() - d.suffix.bytes.len())
        }),
{
    let d = spec_domain(t, name)->0;
    let suf = spec_suffix(t, name)->0;
    lemma_suffix_in_name(t, name);
    let slen = suf.bytes.len();
    let sub = name.take(name.len() - slen - 1);
    let root_label = rlabels(sub)[0];
    lemma_rlabels_suffix(sub, 1);
    assert(rjoin_len(rlabels(sub), 0) == -1);
    assert(root_label.len() <= sub.len());
    assert(d.bytes == name.skip(name.len() - (root_label.len() + 1 + slen)));
    assert(d.bytes.len() == root_label.len() + 1 + slen);
    assert(d.bytes == name.skip(name.len() - d.bytes.len()));
    if d.bytes.len() < name.len() {
        assert(rjoin_len(rlabels(sub), 1) == root_label.len());
        if 1 == rlabels(sub).len() {
            assert(root_label.len() == sub.len());
        } else {
            assert(sub[sub.len() - root_label.len() - 1] == DOT);
            assert(name[name.len() - d.bytes.len() - 1] == sub[sub.len() - root_label.len() - 1]);
        }
    }
    assert(d.suffix.bytes =~= d.bytes.skip(d.bytes.len() - slen));
}

} // verus!
