//! Textual IP address validation.
//!
//! Email hosts may be bracketed address literals, so the library carries
//! its own validators: four decimal octets for IPv4; colon-separated
//! hexadecimal groups, at most one elided run and an optional trailing
//! IPv4 part, for IPv6.

use crate::matcher::{all_digits, digit};
use crate::text::{chars_vec, split_ch, split_chars};
use vstd::prelude::*;

verus! {

/// Which family an address literal belongs to.
#[derive(Copy, Clone, Eq, PartialEq, Debug, Structural)]
pub enum IpAddr {
    V4,
    V6,
}

/// The value of a string of decimal digits.
pub open spec fn dec_val(s: Seq<char>) -> int
    decreases s.len(),
{
    if s.len() == 0 {
        0
    } else {
        dec_val(s.drop_last()) * 10 + (s.last() as u32 - 48)
    }
}

/// One IPv4 octet: up to three digits, no leading zero, value at most 255.
pub open spec fn is_octet(p: Seq<char>) -> bool {
    &&& 1 <= p.len() <= 3
    &&& all_digits(p)
    &&& (p.len() == 1 || p[0] != '0')
    &&& dec_val(p) <= 255
}

/// Four octets separated by points.
pub open spec fn is_ipv4_text(s: Seq<char>) -> bool {
    let ps = split_ch(s, '.');
    ps.len() == 4 && forall|i: int| 0 <= i < 4 ==> is_octet(#[trigger] ps[i])
}

pub open spec fn hex_digit(c: char) -> bool {
    digit(c) || 97 <= c as u32 <= 102 || 65 <= c as u32 <= 70
}

/// One IPv6 group: one to four hexadecimal digits.
pub open spec fn is_h16(g: Seq<char>) -> bool {
    1 <= g.len() <= 4 && forall|i: int| 0 <= i < g.len() ==> hex_digit(#[trigger] g[i])
}

/// Groups before the elision: plain groups only.
pub open spec fn head_groups_ok(gs: Seq<Seq<char>>) -> bool {
    forall|i: int| 0 <= i < gs.len() ==> is_h16(#[trigger] gs[i])
}

/// Groups after the elision, or all groups when there is none: plain
/// groups, except that the last may be an embedded IPv4 part.
pub open spec fn tail_groups_ok(gs: Seq<Seq<char>>) -> bool {
    gs.len() > 0 ==> {
        &&& forall|i: int| 0 <= i < gs.len() - 1 ==> is_h16(#[trigger] gs[i])
        &&& (is_h16(gs.last()) || is_ipv4_text(gs.last()))
    }
}

/// How many 16-bit slots the groups cover: an IPv4 part covers two.
pub open spec fn tail_slots(gs: Seq<Seq<char>>) -> int {
    if gs.len() > 0 && !is_h16(gs.last()) {
        gs.len() + 1int
    } else {
        gs.len() as int
    }
}

/// Index of the first elision (two colons in a row), or `-1`.
pub open spec fn find_dc(s: Seq<char>) -> int
    decreases s.len(),
{
    if s.len() < 2 {
        -1
    } else if s[0] == ':' && s[1] == ':' {
        0
    } else if find_dc(s.drop_first()) < 0 {
        -1
    } else {
        1 + find_dc(s.drop_first())
    }
}

/// An IPv6 address literal: eight slots of groups, or an elision standing
/// for the missing slots, leaving at most seven.
pub open spec fn is_ipv6_text(s: Seq<char>) -> bool {
    let d = find_dc(s);
    if d >= 0 {
        let left = s.take(d);
        let right = s.skip(d + 2);
        let lg: Seq<Seq<char>> = if left.len() == 0 {
            seq![]
        } else {
            split_ch(left, ':')
        };
        let rg: Seq<Seq<char>> = if right.len() == 0 {
            seq![]
        } else {
            split_ch(right, ':')
        };
        head_groups_ok(lg) && tail_groups_ok(rg) && lg.len() + tail_slots(rg) <= 7
    } else {
        let gs = split_ch(s, ':');
        tail_groups_ok(gs) && tail_slots(gs) == 8
    }
}

proof fn lemma_find_dc(s: Seq<char>)
    ensures
        -1 <= find_dc(s) < s.len(),
        find_dc(s) >= 0 ==> find_dc(s) < s.len() - 1,
        find_dc(s) >= 0 ==> s[find_dc(s)] == ':' && s[find_dc(s) + 1] == ':',
        forall|i: int| 0 <= i < find_dc(s) ==> !(s[i] == ':' && #[trigger] s[i + 1] == ':'),
        find_dc(s) == -1 ==> forall|i: int|
            0 <= i < s.len() - 1 ==> !(s[i] == ':' && #[trigger] s[i + 1] == ':'),
    decreases s.len(),
{
    if s.len() < 2 {
    } else if s[0] == ':' && s[1] == ':' {
    } else {
        lemma_find_dc(s.drop_first());
        let j = find_dc(s.drop_first());
        if j >= 0 {
            assert(s[j + 1] == s.drop_first()[j]);
            assert(s[j + 2] == s.drop_first()[j + 1]);
        }
        assert forall|i: int| 0 <= i < find_dc(s) implies !(s[i] == ':' && #[trigger] s[i + 1]
            == ':') by {
            if i > 0 {
                assert(s[i] == s.drop_first()[i - 1] && s[i + 1] == s.drop_first()[i]);
            }
        }
        if find_dc(s) == -1 {
            assert forall|i: int| 0 <= i < s.len() - 1 implies !(s[i] == ':' && #[trigger] s[i + 1]
                == ':') by {
                if i > 0 {
                    assert(s[i] == s.drop_first()[i - 1] && s[i + 1] == s.drop_first()[i]);
                }
            }
        }
    }
}

proof fn lemma_find_dc_position(s: Seq<char>, j: int)
    requires
        0 <= j < s.len() - 1,
        s[j] == ':' && s[j + 1] == ':',
        forall|i: int| 0 <= i < j ==> !(s[i] == ':' && #[trigger] s[i + 1] == ':'),
    ensures
        find_dc(s) == j,
    decreases s.len(),
{
    if s[0] == ':' && s[1] == ':' {
        assert(s[0int + 1] == s[1]);
        assert(j == 0);
    } else {
        assert(s.drop_first()[j - 1] == s[j] && s.drop_first()[j] == s[j + 1]);
        assert forall|i: int| 0 <= i < j - 1 implies !(s.drop_first()[i] == ':'
            && #[trigger] s.drop_first()[i + 1] == ':') by {
            assert(s.drop_first()[i] == s[i + 1] && s.drop_first()[i + 1] == s[i + 2]);
        }
        lemma_find_dc_position(s.drop_first(), j - 1);
    }
}

/// Whether the group is one to four hexadecimal digits.
fn h16(g: &Vec<char>) -> (r: bool)
    ensures
        r == is_h16(g@),
{
    let n = g.len();
    if n < 1 || n > 4 {
        return false;
    }
    let mut i: usize = 0;
    while i < n
        invariant
            n == g@.len(),
            0 <= i <= n,
            forall|j: int| 0 <= j < i ==> hex_digit(#[trigger] g@[j]),
        decreases n - i,
    {
        let u = g[i] as u32;
        if !((48 <= u && u <= 57) || (97 <= u && u <= 102) || (65 <= u && u <= 70)) {
            proof {
                assert(!hex_digit(g@[i as int]));
            }
            return false;
        }
        i += 1;
    }
    true
}

/// Whether the piece is a valid decimal octet.
fn octet(p: &Vec<char>) -> (r: bool)
    ensures
        r == is_octet(p@),
{
    let n = p.len();
    if n < 1 || n > 3 {
        return false;
    }
    let mut i: usize = 0;
    while i < n
        invariant
            n == p@.len(),
            0 <= i <= n,
            forall|j: int| 0 <= j < i ==> digit(#[trigger] p@[j]),
        decreases n - i,
    {
        let u = p[i] as u32;
        if !(48 <= u && u <= 57) {
            proof {
                assert(!digit(p@[i as int]));
            }
            return false;
        }
        i += 1;
    }
    if n > 1 && p[0] == '0' {
        return false;
    }
    let mut val: u32 = 0;
    let mut k: usize = 0;
    while k < n
        invariant
            n == p@.len(),
            n <= 3,
            0 <= k <= n,
            forall|j: int| 0 <= j < n ==> digit(#[trigger] p@[j]),
            val == dec_val(p@.take(k as int)),
            k == 0 ==> val == 0,
            k == 1 ==> val <= 9,
            k == 2 ==> val <= 99,
            k == 3 ==> val <= 999,
        decreases n - k,
    {
        proof {
            assert(p@.take(k + 1).drop_last() =~= p@.take(k as int));
            assert(p@.take(k + 1).last() == p@[k as int]);
            assert(digit(p@[k as int]));
        }
        val = val * 10 + (p[k] as u32 - 48);
        k += 1;
    }
    proof {
        assert(p@.take(n as int) =~= p@);
    }
    val <= 255
}

/// Whether the text is an IPv4 address literal.
#[verifier::loop_isolation(false)]
fn ipv4(cs: &Vec<char>) -> (r: bool)
    ensures
        r == is_ipv4_text(cs@),
{
    let parts = split_chars(cs, '.');
    let n = parts.len();
    proof {
        assert(parts.deep_view() == split_ch(cs@, '.'));
    }
    if n != 4 {
        return false;
    }
    let mut i: usize = 0;
    while i < 4
        invariant
            0 <= i <= 4,
            forall|j: int| 0 <= j < i ==> is_octet(#[trigger] split_ch(cs@, '.')[j]),
        decreases 4 - i,
    {
        proof {
            assert(parts@[i as int]@ == split_ch(cs@, '.')[i as int]);
        }
        if !octet(&parts[i]) {
            return false;
        }
        i += 1;
    }
    true
}

/// Whether the text is an IPv6 address literal.
#[verifier::loop_isolation(false)]
fn ipv6(cs: &Vec<char>) -> (r: bool)
    ensures
        r == is_ipv6_text(cs@),
{
    let n = cs.len();
    // find the elision
    let mut d: usize = 0;
    while d + 1 < n && !(cs[d] == ':' && cs[d + 1] == ':')
        invariant
            0 <= d <= n,
            n == cs@.len(),
            d + 1 <= n || n < 2,
            forall|i: int| 0 <= i < d ==> !(cs@[i] == ':' && #[trigger] cs@[i + 1] == ':'),
        decreases n - d,
    {
        d += 1;
    }
    let found = d + 1 < n;
    proof {
        lemma_find_dc(cs@);
        if found {
            lemma_find_dc_position(cs@, d as int);
        } else {
            if find_dc(cs@) >= 0 {
                assert(cs@[find_dc(cs@)] == ':' && cs@[find_dc(cs@) + 1] == ':');
            }
        }
    }
    if found {
        let ghost left_g = cs@.take(d as int);
        let ghost right_g = cs@.skip(d as int + 2);
        let mut left: Vec<char> = Vec::new();
        let mut i: usize = 0;
        while i < d
            invariant
                0 <= i <= d,
                d + 1 < n == cs@.len(),
                left@ == cs@.take(d as int).take(i as int),
            decreases d - i,
        {
            proof {
                assert(cs@.take(d as int).take(i + 1) =~= cs@.take(d as int).take(i as int).push(
                    cs@[i as int],
                ));
            }
            left.push(cs[i]);
            i += 1;
        }
        proof {
            assert(left@ =~= left_g);
        }
        let mut right: Vec<char> = Vec::new();
        let mut j: usize = d + 2;
        while j < n
            invariant
                d + 2 <= j <= n || (d + 2 > n && j == d + 2),
                n == cs@.len(),
                d + 2 <= n,
                right@ == cs@.skip(d as int + 2).take(j - d - 2),
            decreases n - j,
        {
            proof {
                assert(cs@.skip(d as int + 2).take(j - d - 1) =~= cs@.skip(d as int + 2).take(
                    j - d - 2,
                ).push(cs@[j as int]));
            }
            right.push(cs[j]);
            j += 1;
        }
        proof {
            assert(right@ =~= right_g);
        }
        // check both sides' groups
        let lslots: usize = if left.len() == 0 {
            proof {
                assert(left_g.len() == 0);
            }
            0
        } else {
            let lg = split_chars(&left, ':');
            let m = lg.len();
            proof {
                assert(lg.deep_view() == split_ch(left_g, ':'));
            }
            let mut i2: usize = 0;
            while i2 < m
                invariant
                    0 <= i2 <= m,
                    m == lg@.len(),
                    lg.deep_view() == split_ch(left_g, ':'),
                    forall|p: int| 0 <= p < i2 ==> is_h16(#[trigger] split_ch(left_g, ':')[p]),
                decreases m - i2,
            {
                proof {
                    assert(lg@[i2 as int]@ == split_ch(left_g, ':')[i2 as int]);
                }
                if !h16(&lg[i2]) {
                    return false;
                }
                i2 += 1;
            }
            m
        };
        let rslots: usize = if right.len() == 0 {
            proof {
                assert(right_g.len() == 0);
            }
            0
        } else {
            let rg = split_chars(&right, ':');
            let m = rg.len();
            proof {
                assert(rg.deep_view() == split_ch(right_g, ':'));
                assert(m >= 1);
            }
            if m > 7 {
                proof {
                    assert(tail_slots(split_ch(right_g, ':')) >= m);
                }
                return false;
            }
            let mut i2: usize = 0;
            while i2 < m - 1
                invariant
                    0 <= i2 <= m - 1,
                    m == rg@.len() >= 1,
                    rg.deep_view() == split_ch(right_g, ':'),
                    forall|p: int| 0 <= p < i2 ==> is_h16(#[trigger] split_ch(right_g, ':')[p]),
                decreases m - i2,
            {
                proof {
                    assert(rg@[i2 as int]@ == split_ch(right_g, ':')[i2 as int]);
                }
                if !h16(&rg[i2]) {
                    return false;
                }
                i2 += 1;
            }
            proof {
                assert(rg@[m - 1]@ == split_ch(right_g, ':')[m - 1]);
                assert(split_ch(right_g, ':').last() == split_ch(right_g, ':')[m - 1]);
            }
            if h16(&rg[m - 1]) {
                m
            } else if ipv4(&rg[m - 1]) {
                m + 1
            } else {
                return false;
            }
        };
        proof {
            if right_g.len() > 0 {
                assert(tail_slots(split_ch(right_g, ':')) == rslots);
            } else {
                assert(rslots == 0);
            }
        }
        if lslots > 7 {
            proof {
                assert(tail_slots(if right_g.len() == 0 { seq![] } else { split_ch(right_g, ':') })
                    >= 0);
            }
            return false;
        }
        lslots + rslots <= 7
    } else {
        if n == 0 {
            proof {
                assert(split_ch(cs@, ':').len() == 1);
                assert(tail_slots(split_ch(cs@, ':')) <= 2);
            }
            return false;
        }
        let gs = split_chars(cs, ':');
        let m = gs.len();
        proof {
            assert(gs.deep_view() == split_ch(cs@, ':'));
            assert(m >= 1);
        }
        if m > 8 {
            proof {
                assert(tail_slots(split_ch(cs@, ':')) >= m);
            }
            return false;
        }
        let mut i2: usize = 0;
        while i2 < m - 1
            invariant
                0 <= i2 <= m - 1,
                m == gs@.len() >= 1,
                gs.deep_view() == split_ch(cs@, ':'),
                forall|p: int| 0 <= p < i2 ==> is_h16(#[trigger] split_ch(cs@, ':')[p]),
            decreases m - i2,
        {
            proof {
                assert(gs@[i2 as int]@ == split_ch(cs@, ':')[i2 as int]);
            }
            if !h16(&gs[i2]) {
                return false;
            }
            i2 += 1;
        }
        proof {
            assert(gs@[m - 1]@ == split_ch(cs@, ':')[m - 1]);
            assert(split_ch(cs@, ':').last() == split_ch(cs@, ':')[m - 1]);
        }
        let slots: usize = if h16(&gs[m - 1]) {
            m
        } else if ipv4(&gs[m - 1]) {
            m + 1
        } else {
            return false;
        };
        proof {
            assert(tail_slots(split_ch(cs@, ':')) == slots);
        }
        slots == 8
    }
}

/// Validate a textual IP address: a dotted quad, or an IPv6 literal.
pub fn parse_ip(s: &str) -> (r: Option<IpAddr>)
    ensures
        match r {
            Some(IpAddr::V4) => is_ipv4_text(s@),
            Some(IpAddr::V6) => is_ipv6_text(s@) && !is_ipv4_text(s@),
            None => !is_ipv4_text(s@) && !is_ipv6_text(s@),
        },
{
    let cs = chars_vec(s);
    if ipv4(&cs) {
        Some(IpAddr::V4)
    } else if ipv6(&cs) {
        Some(IpAddr::V6)
    } else {
        None
    }
}

} // verus!
