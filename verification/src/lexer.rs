//! The Public Suffix List text format.
//!
//! The list is line oriented: comment lines open with `//`, marker lines
//! switch the provenance of what follows, blank lines say nothing, and any
//! other line carries one rule, its text running to the first whitespace.
//! Rules are grouped by their rightmost label.

use crate::text::{chars_vec, find_ch, lemma_find_ch, lemma_find_ch_position};
use crate::Type;
use vstd::prelude::*;
use vstd::string::StrSliceExecFns;
use vstd::string::StringExecFns;

verus! {

/// One rule of the list: its text and its provenance.
pub struct Suffix {
    pub rule: String,
    pub typ: Type,
}

/// The rules sharing one rightmost label.
pub struct Group {
    pub tld: String,
    pub suffixes: Vec<Suffix>,
}

/// A parsed rule set, grouped by rightmost label in order of first sight.
pub struct List {
    pub rules: Vec<Group>,
}

/// What can go wrong reading the text format.
#[derive(Debug)]
pub enum Error {
    /// No rule at all was found.
    InvalidList,
    /// A rule whose rightmost label is empty.
    InvalidRule(String),
}

/// The groups as mathematical values: rightmost label, then each rule's
/// text and provenance.
pub type GroupsV = Seq<(Seq<char>, Seq<(Seq<char>, Type)>)>;

impl View for Suffix {
    type V = (Seq<char>, Type);

    open spec fn view(&self) -> (Seq<char>, Type) {
        (self.rule@, self.typ)
    }
}

impl View for Group {
    type V = (Seq<char>, Seq<(Seq<char>, Type)>);

    open spec fn view(&self) -> (Seq<char>, Seq<(Seq<char>, Type)>) {
        (self.tld@, self.suffixes@.map_values(|x: Suffix| x@))
    }
}

impl View for List {
    type V = GroupsV;

    open spec fn view(&self) -> GroupsV {
        self.rules@.map_values(|g: Group| g@)
    }
}

/// Index of the last separator in a rule's text, or `-1`.
pub open spec fn last_dot_ch(s: Seq<char>) -> int
    decreases s.len(),
{
    if s.len() == 0 {
        -1
    } else if s.last() == '.' {
        s.len() - 1
    } else {
        last_dot_ch(s.drop_last())
    }
}

/// The rightmost label of a rule's text.
pub open spec fn tld_of(s: Seq<char>) -> Seq<char> {
    s.subrange(last_dot_ch(s) + 1, s.len() as int)
}

/// First group with this rightmost label, or `-1`.
pub open spec fn find_group(acc: GroupsV, tld: Seq<char>) -> int
    decreases acc.len(),
{
    if acc.len() == 0 {
        -1
    } else if acc[0].0 == tld {
        0
    } else if find_group(acc.drop_first(), tld) < 0 {
        -1
    } else {
        1 + find_group(acc.drop_first(), tld)
    }
}

/// File a rule under its rightmost label; a rule with an empty rightmost
/// label is refused.
pub open spec fn spec_append(acc: GroupsV, rule: Seq<char>, typ: Type) -> Result<
    GroupsV,
    Seq<char>,
> {
    let tld = tld_of(rule);
    if tld.len() == 0 {
        Err(rule)
    } else {
        let j = find_group(acc, tld);
        if j >= 0 {
            Ok(acc.update(j, (tld, acc[j].1.push((rule, typ)))))
        } else {
            Ok(acc.push((tld, seq![(rule, typ)])))
        }
    }
}

/// What `char::is_whitespace` returns: a function of the character alone.
pub uninterp spec fn white(c: char) -> bool;

/// Relies on char::is_whitespace: whether the character has the Unicode
/// whitespace property, a function of the character alone; the blank and
/// the usual control separators are among them.
#[verifier::external_body]
fn is_whitespace_char(c: char) -> (r: bool)
    ensures
        r == white(c),
        (c == ' ' || c == '\t' || c == '\n' || c == '\r') ==> r,
{
    c.is_whitespace()
}

/// First index at or after `i` whose character's whitespace-ness is `want`,
/// or the end.
pub open spec fn scan_ws(l: Seq<char>, i: int, want: bool) -> int
    decreases l.len() - i,
{
    if i < 0 || i >= l.len() {
        l.len() as int
    } else if white(l[i]) == want {
        i
    } else {
        scan_ws(l, i + 1, want)
    }
}

/// The text up to the first whitespace, leading whitespace skipped: the
/// rule a line carries, or nothing.
pub open spec fn first_token(l: Seq<char>) -> Seq<char> {
    let a = scan_ws(l, 0, false);
    let b = scan_ws(l, a, true);
    l.subrange(a, b)
}

/// Whether `p` occurs inside `l`.
pub open spec fn contains_seq(l: Seq<char>, p: Seq<char>) -> bool {
    exists|i: int| 0 <= i <= l.len() - p.len() && #[trigger] l.subrange(i, i + p.len()) =~= p
}

/// A line with its carriage return stripped.
pub open spec fn strip_cr(l: Seq<char>) -> Seq<char> {
    if l.len() > 0 && l.last() == '\r' {
        l.drop_last()
    } else {
        l
    }
}

/// One parsing step per line: markers switch the provenance, comments and
/// everything before the first marker say nothing, any other line's first
/// token is filed as a rule.
pub open spec fn spec_parse(s: Seq<char>, typ: Option<Type>, acc: GroupsV) -> Result<
    GroupsV,
    Seq<char>,
>
    decreases s.len(),
{
    if s.len() == 0 {
        Ok(acc)
    } else {
        let j = find_ch(s, '\n');
        let raw = if 0 <= j < s.len() {
            s.take(j)
        } else {
            s
        };
        let rest = if 0 <= j < s.len() {
            s.skip(j + 1)
        } else {
            Seq::<char>::empty()
        };
        let l = strip_cr(raw);
        if contains_seq(l, "BEGIN ICANN DOMAINS"@) {
            spec_parse(rest, Some(Type::Icann), acc)
        } else if contains_seq(l, "BEGIN PRIVATE DOMAINS"@) {
            spec_parse(rest, Some(Type::Private), acc)
        } else if l.len() >= 2 && l[0] == '/' && l[1] == '/' {
            spec_parse(rest, typ, acc)
        } else {
            match typ {
                None => spec_parse(rest, typ, acc),
                Some(t) => {
                    let tok = first_token(l);
                    if tok.len() == 0 {
                        spec_parse(rest, typ, acc)
                    } else {
                        match spec_append(acc, tok, t) {
                            Ok(a2) => spec_parse(rest, typ, a2),
                            Err(bad) => Err(bad),
                        }
                    }
                },
            }
        }
    }
}

proof fn lemma_last_dot_ch(s: Seq<char>)
    ensures
        -1 <= last_dot_ch(s) < s.len(),
        last_dot_ch(s) >= 0 ==> s[last_dot_ch(s)] == '.',
        forall|i: int| last_dot_ch(s) < i < s.len() ==> s[i] != '.',
    decreases s.len(),
{
    if s.len() == 0 {
    } else if s.last() == '.' {
    } else {
        lemma_last_dot_ch(s.drop_last());
        assert forall|i: int| last_dot_ch(s) < i < s.len() implies s[i] != '.' by {
            if i < s.len() - 1 {
                assert(s.drop_last()[i] == s[i]);
            }
        }
    }
}

proof fn lemma_last_dot_ch_position(s: Seq<char>, j: int)
    requires
        0 <= j < s.len(),
        s[j] == '.',
        forall|i: int| j < i < s.len() ==> s[i] != '.',
    ensures
        last_dot_ch(s) == j,
    decreases s.len(),
{
    if s.last() == '.' {
        assert(j == s.len() - 1);
    } else {
        assert forall|i: int| j < i < s.drop_last().len() implies s.drop_last()[i] != '.' by {
            assert(s.drop_last()[i] == s[i]);
        }
        assert(s.drop_last()[j] == s[j]);
        lemma_last_dot_ch_position(s.drop_last(), j);
    }
}

proof fn lemma_find_group_at(acc: GroupsV, t: Seq<char>, j: int)
    requires
        0 <= j < acc.len(),
        acc[j].0 == t,
        forall|p: int| 0 <= p < j ==> (#[trigger] acc[p]).0 != t,
    ensures
        find_group(acc, t) == j,
    decreases acc.len(),
{
    if acc[0].0 == t {
        assert(j == 0);
    } else {
        assert(acc.drop_first()[j - 1] == acc[j]);
        assert forall|p: int| 0 <= p < j - 1 implies (#[trigger] acc.drop_first()[p]).0 != t by {
            assert(acc.drop_first()[p] == acc[p + 1]);
        }
        lemma_find_group_at(acc.drop_first(), t, j - 1);
    }
}

proof fn lemma_find_group_none(acc: GroupsV, t: Seq<char>)
    requires
        forall|p: int| 0 <= p < acc.len() ==> (#[trigger] acc[p]).0 != t,
    ensures
        find_group(acc, t) == -1,
    decreases acc.len(),
{
    if acc.len() > 0 {
        assert forall|p: int| 0 <= p < acc.drop_first().len() implies (
        #[trigger] acc.drop_first()[p]).0 != t by {
            assert(acc.drop_first()[p] == acc[p + 1]);
        }
        lemma_find_group_none(acc.drop_first(), t);
    }
}

/// Whether the pattern occurs in `l` between `from` and `to`.
#[verifier::loop_isolation(false)]
fn contains_range(cs: &Vec<char>, from: usize, to: usize, pat: &Vec<char>) -> (r: bool)
    requires
        from <= to <= cs@.len(),
    ensures
        r == contains_seq(cs@.subrange(from as int, to as int), pat@),
{
    let ghost l = cs@.subrange(from as int, to as int);
    let m = pat.len();
    if to - from < m {
        proof {
            assert forall|i: int| !(0 <= i <= l.len() - pat@.len() && #[trigger] l.subrange(
                i,
                i + pat@.len(),
            ) =~= pat@) by {}
        }
        return false;
    }
    let mut i = from;
    while i <= to - m
        invariant
            from <= i,
            i <= to - m + 1,
            m <= to - from,
            m == pat@.len(),
            forall|j: int|
                0 <= j < i - from ==> !(#[trigger] l.subrange(j, j + pat@.len()) =~= pat@),
        decreases to - i,
    {
        let mut k: usize = 0;
        let mut hit = true;
        while k < m
            invariant
                0 <= k <= m,
                i + m <= to,
                hit == (forall|q: int| 0 <= q < k ==> l[i - from + q] == #[trigger] pat@[q]),
            decreases m - k,
        {
            if cs[i + k] != pat[k] {
                proof {
                    assert(l[i - from + k] != pat@[k as int]);
                }
                hit = false;
            }
            k += 1;
        }
        if hit {
            proof {
                assert(l.subrange(i - from, i - from + pat@.len()) =~= pat@);
            }
            return true;
        }
        proof {
            assert(!(l.subrange(i - from, i - from + pat@.len()) =~= pat@)) by {
                let q = choose|q: int| 0 <= q < m && l[i - from + q] != #[trigger] pat@[q];
                assert(l.subrange(i - from, i - from + pat@.len())[q] != pat@[q]);
            }
        }
        i += 1;
    }
    proof {
        assert forall|j: int| 0 <= j <= l.len() - pat@.len() implies !(#[trigger] l.subrange(
            j,
            j + pat@.len(),
        ) =~= pat@) by {
            assert(j < i - from);
        }
    }
    false
}

/// The bounds of the first whitespace-separated token of the line
/// `cs[pos..le]`.
#[verifier::loop_isolation(false)]
fn token_range(cs: &Vec<char>, pos: usize, le: usize) -> (r: (usize, usize))
    requires
        pos <= le <= cs@.len(),
    ensures
        pos <= r.0 <= r.1 <= le,
        ({
            let l = cs@.subrange(pos as int, le as int);
            &&& scan_ws(l, 0, false) == r.0 - pos
            &&& scan_ws(l, r.0 - pos, true) == r.1 - pos
            &&& first_token(l) == cs@.subrange(r.0 as int, r.1 as int)
        }),
{
    let ghost l = cs@.subrange(pos as int, le as int);
    let mut a = pos;
    while a < le && is_whitespace_char(cs[a])
        invariant
            pos <= a <= le,
            scan_ws(l, 0, false) == scan_ws(l, a - pos, false),
        decreases le - a,
    {
        proof {
            assert(l[a - pos] == cs@[a as int]);
        }
        a += 1;
    }
    let mut b = a;
    while b < le && !is_whitespace_char(cs[b])
        invariant
            a <= b <= le,
            scan_ws(l, a - pos, true) == scan_ws(l, b - pos, true),
        decreases le - b,
    {
        proof {
            assert(l[b - pos] == cs@[b as int]);
        }
        b += 1;
    }
    proof {
        if a < le {
            assert(l[a - pos] == cs@[a as int]);
            assert(scan_ws(l, a - pos, false) == a - pos);
        } else {
            assert(scan_ws(l, a - pos, false) == l.len());
        }
        if b < le {
            assert(l[b - pos] == cs@[b as int]);
            assert(scan_ws(l, b - pos, true) == b - pos);
        } else {
            assert(scan_ws(l, b - pos, true) == l.len());
        }
        assert(first_token(l) =~= cs@.subrange(a as int, b as int));
    }
    (a, b)
}

impl List {
    /// File one rule under its rightmost label.
    #[verifier::loop_isolation(false)]
    fn append(&mut self, rule: &str, rule_chars: &Vec<char>, typ: Type) -> (r: Result<(), Error>)
        requires
            rule_chars@ == rule@,
        ensures
            match r {
                Ok(_) => spec_append(old(self)@, rule@, typ) == Ok::<GroupsV, Seq<char>>(
                    final(self)@,
                ),
                Err(e) => {
                    &&& *final(self) == *old(self)
                    &&& spec_append(old(self)@, rule@, typ) == Err::<GroupsV, Seq<char>>(rule@)
                    &&& (e matches Error::InvalidRule(b) && b@ == rule@)
                },
            },
            r is Err <==> spec_append(old(self)@, rule@, typ) is Err,
    {
        let n = rule_chars.len();
        // the rightmost label starts after the last separator
        let mut i: usize = n;
        while i > 0 && rule_chars[i - 1] != '.'
            invariant
                0 <= i <= n,
                forall|j: int| i <= j < n ==> rule@[j] != '.',
            decreases i,
        {
            i -= 1;
        }
        proof {
            lemma_last_dot_ch(rule@);
            if i > 0 {
                lemma_last_dot_ch_position(rule@, i - 1);
            } else {
                if last_dot_ch(rule@) >= 0 {
                    assert(rule@[last_dot_ch(rule@)] == '.');
                }
            }
            assert(last_dot_ch(rule@) == i - 1);
        }
        if i == n {
            // empty rightmost label
            proof {
                assert(tld_of(rule@) =~= Seq::<char>::empty());
            }
            return Err(Error::InvalidRule(String::from_str(rule)));
        }
        let tld = String::from_str(rule.substring_char(i, n));
        proof {
            assert(tld@ == tld_of(rule@));
            assert(tld@.len() > 0);
        }
        let ghost acc = self@;
        let m = self.rules.len();
        let mut j: usize = 0;
        while j < m
            invariant
                0 <= j <= m == self.rules@.len(),
                self@ == acc,
                forall|p: int| 0 <= p < j ==> (#[trigger] acc[p]).0 != tld@,
            decreases m - j,
        {
            proof {
                assert(acc[j as int] == self.rules@[j as int]@);
            }
            if self.rules[j].tld == tld {
                proof {
                    lemma_find_group_at(acc, tld@, j as int);
                }
                let ghost old_sufs = self.rules@[j as int].suffixes@;
                self.rules[j].suffixes.push(Suffix { rule: String::from_str(rule), typ });
                proof {
                    assert forall|p: int| 0 <= p < self@.len() && p != j implies self@[p] == acc[p] by {
                        assert(self@[p] == self.rules@[p]@);
                    }
                    assert(self@[j as int] == self.rules@[j as int]@);
                    assert(self@[j as int].1 =~= acc[j as int].1.push((rule@, typ)));
                    assert(self@[j as int].0 == acc[j as int].0);
                    assert(self@ =~= acc.update(j as int, (tld@, acc[j as int].1.push((rule@, typ)))));
                }
                return Ok(());
            }
            j += 1;
        }
        proof {
            lemma_find_group_none(acc, tld@);
        }
        let mut sufs: Vec<Suffix> = Vec::new();
        sufs.push(Suffix { rule: String::from_str(rule), typ });
        self.rules.push(Group { tld, suffixes: sufs });
        proof {
            assert forall|p: int| 0 <= p < acc.len() implies self@[p] == acc[p] by {
                assert(self@[p] == self.rules@[p]@);
            }
            assert(self@[acc.len() as int] == self.rules@[acc.len() as int]@);
            assert(self@[acc.len() as int].1 =~= seq![(rule@, typ)]);
            assert(self@ =~= acc.push((tld@, seq![(rule@, typ)])));
        }
        Ok(())
    }

    /// Build the list from the text format. The text must yield at least
    /// one rule, and no rule may have an empty rightmost label.
    #[verifier::loop_isolation(false)]
    #[verifier::rlimit(100)]
    pub fn from_str(s: &str) -> (r: Result<List, Error>)
        ensures
            match r {
                Ok(l) => spec_parse(s@, None, Seq::empty()) == Ok::<GroupsV, Seq<char>>(l@)
                    && l@.len() > 0,
                Err(e) => match e {
                    Error::InvalidList => (spec_parse(s@, None, Seq::empty()) matches Ok(g)
                        && g.len() == 0),
                    Error::InvalidRule(bad) => (spec_parse(s@, None, Seq::empty()) matches Err(b)
                        && bad@ == b),
                },
            },
    {
        let cs = chars_vec(s);
        let n = cs.len();
        let mut list = List { rules: Vec::new() };
        let mut typ: Option<Type> = None;
        let mut pos: usize = 0;
        let ghost icann_pat = "BEGIN ICANN DOMAINS"@;
        let ghost private_pat = "BEGIN PRIVATE DOMAINS"@;
        let icann = chars_vec("BEGIN ICANN DOMAINS");
        let private = chars_vec("BEGIN PRIVATE DOMAINS");
        proof {
            assert(list@ =~= Seq::<(Seq<char>, Seq<(Seq<char>, Type)>)>::empty());
            assert(s@.skip(0) =~= s@);
        }
        while pos < n
            invariant
                n == cs@.len() == s@.len(),
                cs@ == s@,
                icann@ == icann_pat,
                private@ == private_pat,
                0 <= pos <= n,
                spec_parse(s@, None, Seq::empty()) == spec_parse(s@.skip(pos as int), typ, list@),
            decreases n - pos,
        {
            let ghost tail = s@.skip(pos as int);
            // the line runs to the next newline
            let mut e = pos;
            while e < n && cs[e] != '\n'
                invariant
                    pos <= e <= n,
                    forall|q: int| pos <= q < e ==> s@[q] != '\n',
                decreases n - e,
            {
                e += 1;
            }
            proof {
                if e < n {
                    assert(tail[e - pos] == s@[e as int]);
                    assert forall|q: int| 0 <= q < e - pos implies tail[q] != '\n' by {
                        assert(tail[q] == s@[pos + q]);
                    }
                    crate::text::lemma_find_ch_position(tail, '\n', e - pos);
                } else {
                    assert forall|q: int| 0 <= q < tail.len() implies tail[q] != '\n' by {
                        assert(tail[q] == s@[pos + q]);
                    }
                    lemma_find_ch(tail, '\n');
                    if find_ch(tail, '\n') >= 0 {
                        assert(tail[find_ch(tail, '\n')] == '\n');
                    }
                }
            }
            let le = if e > pos && cs[e - 1] == '\r' {
                e - 1
            } else {
                e
            };
            let ghost raw = if e < n {
                tail.take(e - pos)
            } else {
                tail
            };
            let ghost l = strip_cr(raw);
            proof {
                if e == n {
                    assert(tail =~= tail.take(e - pos));
                }
                assert(raw =~= s@.subrange(pos as int, e as int));
                if e > pos && s@[e - 1] == '\r' {
                    assert(raw.last() == '\r');
                    assert(l =~= s@.subrange(pos as int, le as int));
                } else {
                    if raw.len() > 0 {
                        assert(raw.last() == s@[e - 1]);
                    }
                    assert(l =~= s@.subrange(pos as int, le as int));
                }
            }
            // classify the line
            if contains_range(&cs, pos, le, &icann) {
                typ = Some(Type::Icann);
            } else if contains_range(&cs, pos, le, &private) {
                typ = Some(Type::Private);
            } else if le - pos >= 2 && cs[pos] == '/' && cs[pos + 1] == '/' {
                proof {
                    assert(l[0] == '/' && l[1] == '/');
                }
            } else {
                proof {
                    if l.len() >= 2 {
                        assert(l[0] == s@[pos as int] && l[1] == s@[pos as int + 1]);
                    }
                }
                match typ {
                    None => {},
                    Some(t) => {
                        // the rule is the line's first token
                        let (a, b) = token_range(&cs, pos, le);
                        proof {
                            assert(cs@.subrange(pos as int, le as int) == l);
                            assert(first_token(l) == s@.subrange(a as int, b as int));
                        }
                        if b > a {
                            let tok = s.substring_char(a, b);
                            let tok_chars = chars_vec(tok);
                            proof {
                                assert(tok@ == first_token(l));
                            }
                            match list.append(tok, &tok_chars, t) {
                                Ok(_) => {},
                                Err(err) => {
                                    return Err(err);
                                },
                            }
                        }
                    },
                }
            }
            proof {
                let j = find_ch(tail, '\n');
                if e < n {
                    assert(j == e - pos);
                    assert(tail.skip(j + 1) =~= s@.skip(e + 1));
                } else {
                    assert(j == -1);
                }
            }
            pos = if e < n {
                e + 1
            } else {
                n
            };
            proof {
                if pos == n {
                    assert(s@.skip(n as int) =~= Seq::<char>::empty());
                }
            }
        }
        proof {
            assert(s@.skip(n as int) =~= Seq::<char>::empty());
        }
        if list.rules.len() == 0 {
            return Err(Error::InvalidList);
        }
        Ok(list)
    }

    /// All rules in group order, each with its provenance.
    pub fn to_rules(&self) -> (r: Vec<(Vec<u8>, Type)>)
        ensures
            r@.len() == flat_rules(self@, 0).len(),
            forall|i: int|
                0 <= i < r@.len() ==> (#[trigger] r@[i]).1 == flat_rules(self@, 0)[i].1 && r@[i].0@
                    == vstd::utf8::encode_utf8(flat_rules(self@, 0)[i].0),
    {
        let ghost g = self@;
        let mut r: Vec<(Vec<u8>, Type)> = Vec::new();
        let ghost done: Seq<(Seq<char>, Type)> = Seq::empty();
        let mut done = Ghost(done);
        let ng = self.rules.len();
        proof {
            assert(flat_rules(g, 0) =~= done@ + flat_rules(g, 0));
        }
        let mut gi: usize = 0;
        while gi < ng
            invariant
                ng == self.rules@.len() == g.len(),
                g == self@,
                0 <= gi <= ng,
                flat_rules(g, 0) =~= done@ + flat_rules(g, gi as int),
                r@.len() == done@.len(),
                forall|i: int|
                    0 <= i < r@.len() ==> (#[trigger] r@[i]).1 == done@[i].1 && r@[i].0@
                        == vstd::utf8::encode_utf8(done@[i].0),
            decreases ng - gi,
        {
            proof {
                assert(g[gi as int] == self.rules@[gi as int]@);
            }
            let sufs = &self.rules[gi].suffixes;
            let ns = sufs.len();
            proof {
                assert(flat_rules(g, gi as int) == g[gi as int].1 + flat_rules(g, gi + 1));
                assert(flat_rules(g, 0) =~= done@ + g[gi as int].1 + flat_rules(g, gi + 1));
                assert(g[gi as int].1.take(0) =~= Seq::<(Seq<char>, Type)>::empty());
                assert(done@ + g[gi as int].1.take(0) =~= done@);
            }
            let mut si: usize = 0;
            while si < ns
                invariant
                    ng == self.rules@.len() == g.len(),
                    g == self@,
                    0 <= gi < ng,
                    g[gi as int] == self.rules@[gi as int]@,
                    sufs == &self.rules@[gi as int].suffixes,
                    ns == sufs@.len() == g[gi as int].1.len(),
                    0 <= si <= ns,
                    flat_rules(g, 0) =~= done@ + g[gi as int].1 + flat_rules(g, gi + 1),
                    r@.len() == done@.len() + si,
                    forall|i: int|
                        0 <= i < r@.len() ==> (#[trigger] r@[i]).1 == (done@ + g[
                            gi as int
                        ].1.take(si as int))[i].1 && r@[i].0@ == vstd::utf8::encode_utf8(
                            (done@ + g[gi as int].1.take(si as int))[i].0,
                        ),
                decreases ns - si,
            {
                proof {
                    assert(g[gi as int].1[si as int] == sufs@[si as int]@);
                    assert(g[gi as int].1.take(si + 1) =~= g[gi as int].1.take(si as int).push(
                        g[gi as int].1[si as int],
                    ));
                }
                let rule_bytes = sufs[si].rule.as_str().as_bytes_vec();
                r.push((rule_bytes, sufs[si].typ));
                proof {
                    assert(done@ + g[gi as int].1.take(si + 1) =~= (done@ + g[gi as int].1.take(
                        si as int,
                    )).push(g[gi as int].1[si as int]));
                    assert((done@ + g[gi as int].1.take(si + 1))[r@.len() - 1] == g[
                        gi as int
                    ].1[si as int]);
                }
                si += 1;
            }
            proof {
                assert(g[gi as int].1.take(ns as int) =~= g[gi as int].1);
                done@ = done@ + g[gi as int].1;
                assert(flat_rules(g, 0) =~= done@ + flat_rules(g, gi + 1));
            }
            gi += 1;
        }
        proof {
            assert(flat_rules(g, ng as int) =~= Seq::<(Seq<char>, Type)>::empty());
            assert(done@ =~= flat_rules(g, 0));
        }
        r
    }

    /// The texts of all rules with the given provenance, in order.
    fn find_type(&self, typ: Type) -> (r: Vec<&String>)
        ensures
            r@.len() == rules_with(flat_rules(self@, 0), typ).len(),
            forall|i: int|
                0 <= i < r@.len() ==> (#[trigger] r@[i])@ == rules_with(
                    flat_rules(self@, 0),
                    typ,
                )[i],
    {
        let ghost g = self@;
        let mut r: Vec<&String> = Vec::new();
        let ghost done: Seq<(Seq<char>, Type)> = Seq::empty();
        let mut done = Ghost(done);
        let ng = self.rules.len();
        proof {
            assert(flat_rules(g, 0) =~= done@ + flat_rules(g, 0));
            assert(rules_with(done@, typ) =~= Seq::<Seq<char>>::empty());
        }
        let mut gi: usize = 0;
        while gi < ng
            invariant
                ng == self.rules@.len() == g.len(),
                g == self@,
                0 <= gi <= ng,
                flat_rules(g, 0) =~= done@ + flat_rules(g, gi as int),
                r@.len() == rules_with(done@, typ).len(),
                forall|i: int|
                    0 <= i < r@.len() ==> (#[trigger] r@[i])@ == rules_with(done@, typ)[i],
            decreases ng - gi,
        {
            proof {
                assert(g[gi as int] == self.rules@[gi as int]@);
            }
            let sufs = &self.rules[gi].suffixes;
            let ns = sufs.len();
            proof {
                assert(flat_rules(g, gi as int) == g[gi as int].1 + flat_rules(g, gi + 1));
                assert(g[gi as int].1.take(0) =~= Seq::<(Seq<char>, Type)>::empty());
                assert(done@ + g[gi as int].1.take(0) =~= done@);
            }
            let mut si: usize = 0;
            while si < ns
                invariant
                    ng == self.rules@.len() == g.len(),
                    g == self@,
                    0 <= gi < ng,
                    g[gi as int] == self.rules@[gi as int]@,
                    sufs == &self.rules@[gi as int].suffixes,
                    ns == sufs@.len() == g[gi as int].1.len(),
                    0 <= si <= ns,
                    flat_rules(g, 0) =~= done@ + g[gi as int].1 + flat_rules(g, gi + 1),
                    r@.len() == rules_with(done@ + g[gi as int].1.take(si as int), typ).len(),
                    forall|i: int|
                        0 <= i < r@.len() ==> (#[trigger] r@[i])@ == rules_with(
                            done@ + g[gi as int].1.take(si as int),
                            typ,
                        )[i],
                decreases ns - si,
            {
                proof {
                    assert(g[gi as int].1[si as int] == sufs@[si as int]@);
                    assert(g[gi as int].1.take(si + 1) =~= g[gi as int].1.take(si as int).push(
                        g[gi as int].1[si as int],
                    ));
                    assert(done@ + g[gi as int].1.take(si + 1) =~= (done@ + g[gi as int].1.take(
                        si as int,
                    )).push(g[gi as int].1[si as int]));
                    lemma_rules_with_push(
                        done@ + g[gi as int].1.take(si as int),
                        g[gi as int].1[si as int],
                        typ,
                    );
                }
                if sufs[si].typ == typ {
                    r.push(&sufs[si].rule);
                }
                si += 1;
            }
            proof {
                assert(g[gi as int].1.take(ns as int) =~= g[gi as int].1);
                done@ = done@ + g[gi as int].1;
                assert(flat_rules(g, 0) =~= done@ + flat_rules(g, gi + 1));
            }
            gi += 1;
        }
        proof {
            assert(flat_rules(g, ng as int) =~= Seq::<(Seq<char>, Type)>::empty());
            assert(done@ =~= flat_rules(g, 0));
        }
        r
    }

    /// The texts of all ICANN rules.
    pub fn icann(&self) -> (r: Vec<&String>)
        ensures
            r@.len() == rules_with(flat_rules(self@, 0), Type::Icann).len(),
            forall|i: int|
                0 <= i < r@.len() ==> (#[trigger] r@[i])@ == rules_with(
                    flat_rules(self@, 0),
                    Type::Icann,
                )[i],
    {
        self.find_type(Type::Icann)
    }

    /// The texts of all private rules.
    pub fn private(&self) -> (r: Vec<&String>)
        ensures
            r@.len() == rules_with(flat_rules(self@, 0), Type::Private).len(),
            forall|i: int|
                0 <= i < r@.len() ==> (#[trigger] r@[i])@ == rules_with(
                    flat_rules(self@, 0),
                    Type::Private,
                )[i],
    {
        self.find_type(Type::Private)
    }

    /// The texts of all rules, in group order.
    pub fn all(&self) -> (r: Vec<&String>)
        ensures
            r@.len() == flat_rules(self@, 0).len(),
            forall|i: int|
                0 <= i < r@.len() ==> (#[trigger] r@[i])@ == flat_rules(self@, 0)[i].0,
    {
        let ghost g = self@;
        let mut r: Vec<&String> = Vec::new();
        let ghost done: Seq<(Seq<char>, Type)> = Seq::empty();
        let mut done = Ghost(done);
        let ng = self.rules.len();
        proof {
            assert(flat_rules(g, 0) =~= done@ + flat_rules(g, 0));
        }
        let mut gi: usize = 0;
        while gi < ng
            invariant
                ng == self.rules@.len() == g.len(),
                g == self@,
                0 <= gi <= ng,
                flat_rules(g, 0) =~= done@ + flat_rules(g, gi as int),
                r@.len() == done@.len(),
                forall|i: int| 0 <= i < r@.len() ==> (#[trigger] r@[i])@ == done@[i].0,
            decreases ng - gi,
        {
            proof {
                assert(g[gi as int] == self.rules@[gi as int]@);
            }
            let sufs = &self.rules[gi].suffixes;
            let ns = sufs.len();
            proof {
                assert(flat_rules(g, gi as int) == g[gi as int].1 + flat_rules(g, gi + 1));
                assert(g[gi as int].1.take(0) =~= Seq::<(Seq<char>, Type)>::empty());
                assert(done@ + g[gi as int].1.take(0) =~= done@);
            }
            let mut si: usize = 0;
            while si < ns
                invariant
                    ng == self.rules@.len() == g.len(),
                    g == self@,
                    0 <= gi < ng,
                    g[gi as int] == self.rules@[gi as int]@,
                    sufs == &self.rules@[gi as int].suffixes,
                    ns == sufs@.len() == g[gi as int].1.len(),
                    0 <= si <= ns,
                    flat_rules(g, 0) =~= done@ + g[gi as int].1 + flat_rules(g, gi + 1),
                    r@.len() == done@.len() + si,
                    forall|i: int|
                        0 <= i < r@.len() ==> (#[trigger] r@[i])@ == (done@ + g[gi as int].1.take(
                            si as int,
                        ))[i].0,
                decreases ns - si,
            {
                proof {
                    assert(g[gi as int].1[si as int] == sufs@[si as int]@);
                    assert(g[gi as int].1.take(si + 1) =~= g[gi as int].1.take(si as int).push(
                        g[gi as int].1[si as int],
                    ));
                    assert((done@ + g[gi as int].1.take(si + 1))[r@.len() as int] == g[
                        gi as int
                    ].1[si as int]);
                }
                r.push(&sufs[si].rule);
                si += 1;
            }
            proof {
                assert(g[gi as int].1.take(ns as int) =~= g[gi as int].1);
                done@ = done@ + g[gi as int].1;
                assert(flat_rules(g, 0) =~= done@ + flat_rules(g, gi + 1));
            }
            gi += 1;
        }
        proof {
            assert(flat_rules(g, ng as int) =~= Seq::<(Seq<char>, Type)>::empty());
            assert(done@ =~= flat_rules(g, 0));
        }
        r
    }
}

/// The texts of the given rules that carry the given provenance, in order.
pub open spec fn rules_with(rs: Seq<(Seq<char>, Type)>, typ: Type) -> Seq<Seq<char>>
    decreases rs.len(),
{
    if rs.len() == 0 {
        Seq::empty()
    } else {
        let rest = rules_with(rs.drop_first(), typ);
        if rs[0].1 == typ {
            seq![rs[0].0] + rest
        } else {
            rest
        }
    }
}

proof fn lemma_rules_with_push(rs: Seq<(Seq<char>, Type)>, e: (Seq<char>, Type), typ: Type)
    ensures
        rules_with(rs.push(e), typ) =~= if e.1 == typ {
            rules_with(rs, typ).push(e.0)
        } else {
            rules_with(rs, typ)
        },
    decreases rs.len(),
{
    if rs.len() == 0 {
        assert(rs.push(e)[0] == e);
        assert(rs.push(e).drop_first() =~= Seq::<(Seq<char>, Type)>::empty());
        assert(rules_with(Seq::<(Seq<char>, Type)>::empty(), typ) =~= Seq::<Seq<char>>::empty());
        assert(rules_with(rs, typ) =~= Seq::<Seq<char>>::empty());
        if e.1 == typ {
            assert(rules_with(rs.push(e), typ) =~= seq![e.0] + Seq::<Seq<char>>::empty());
            assert(seq![e.0] + Seq::<Seq<char>>::empty() =~= rules_with(rs, typ).push(e.0));
        }
    } else {
        assert(rs.push(e)[0] == rs[0]);
        assert(rs.push(e).drop_first() =~= rs.drop_first().push(e));
        lemma_rules_with_push(rs.drop_first(), e, typ);
        if rs[0].1 == typ {
            if e.1 == typ {
                assert(seq![rs[0].0] + rules_with(rs.drop_first(), typ).push(e.0) =~= (seq![
                    rs[0].0,
                ] + rules_with(rs.drop_first(), typ)).push(e.0));
            }
        }
    }
}

/// The rules of all groups as byte strings, in order.
pub open spec fn byte_rules(g: GroupsV) -> Seq<(Seq<u8>, Type)> {
    flat_rules(g, 0).map_values(|r: (Seq<char>, Type)| (vstd::utf8::encode_utf8(r.0), r.1))
}

/// The rules of all groups from `i` on, in order.
pub open spec fn flat_rules(g: GroupsV, i: int) -> Seq<(Seq<char>, Type)>
    decreases g.len() - i,
{
    if i < 0 || i >= g.len() {
        Seq::empty()
    } else {
        g[i].1 + flat_rules(g, i + 1)
    }
}

} // verus!
