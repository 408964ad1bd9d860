//! Domain, DNS-name and email syntax checks.
//!
//! These mirror the usual DNS limits: 253 characters and 127 labels for a
//! whole name, 63 for one label. A top-level label may not read as a
//! floating-point number, so that IPv4 addresses and the like are never
//! taken for domain names.

use crate::error::Kind;
use crate::bytes::{rlabels, DOT};
use crate::text::{chars_vec, find_ch, lemma_find_ch, lemma_find_ch_position, split_ch, split_chars};
use vstd::prelude::*;
use vstd::string::StringSliceAdditionalSpecFns;

verus! {

pub const MAX_DOMAIN_LEN: usize = 253;

pub const MAX_LABELS_COUNT: usize = 127;

pub const MAX_LABEL_LEN: usize = 63;

/// What `char::is_alphanumeric` returns: a function of the character alone.
pub uninterp spec fn alnum(c: char) -> bool;

/// Relies on char::is_alphanumeric: whether the character is alphabetic or
/// a number per Unicode, a function of the character alone; ASCII letters
/// and digits are among them.
#[verifier::external_body]
fn is_alphanumeric_char(c: char) -> (r: bool)
    ensures
        r == alnum(c),
        (97 <= c as u32 <= 122 || 65 <= c as u32 <= 90 || 48 <= c as u32 <= 57) ==> r,
{
    c.is_alphanumeric()
}

pub open spec fn digit(c: char) -> bool {
    48 <= c as u32 <= 57
}

pub open spec fn all_digits(s: Seq<char>) -> bool {
    forall|i: int| 0 <= i < s.len() ==> digit(#[trigger] s[i])
}

pub open spec fn spec_strip_sign(s: Seq<char>) -> Seq<char> {
    if s.len() > 0 && (s[0] == '+' || s[0] == '-') {
        s.drop_first()
    } else {
        s
    }
}

pub open spec fn exp_char(c: char) -> bool {
    c == 'e' || c == 'E'
}

/// Index of the first exponent marker, or `-1`.
pub open spec fn find_exp(s: Seq<char>) -> int
    decreases s.len(),
{
    if s.len() == 0 {
        -1
    } else if exp_char(s[0]) {
        0
    } else if find_exp(s.drop_first()) < 0 {
        -1
    } else {
        1 + find_exp(s.drop_first())
    }
}

/// Digits with at most one point somewhere, and at least one digit.
pub open spec fn is_mantissa(s: Seq<char>) -> bool {
    let d = find_ch(s, '.');
    if d >= 0 {
        &&& all_digits(s.take(d))
        &&& all_digits(s.skip(d + 1))
        &&& (d > 0 || s.len() - d - 1 > 0)
    } else {
        s.len() > 0 && all_digits(s)
    }
}

pub open spec fn is_exp_part(s: Seq<char>) -> bool {
    spec_strip_sign(s).len() > 0 && all_digits(spec_strip_sign(s))
}

pub open spec fn is_number_text(s: Seq<char>) -> bool {
    let e = find_exp(s);
    if e >= 0 {
        is_mantissa(s.take(e)) && is_exp_part(s.skip(e + 1))
    } else {
        is_mantissa(s)
    }
}

pub open spec fn ci_eq(c: char, lower: char, upper: char) -> bool {
    c == lower || c == upper
}

pub open spec fn is_inf_text(s: Seq<char>) -> bool {
    s.len() == 3 && ci_eq(s[0], 'i', 'I') && ci_eq(s[1], 'n', 'N') && ci_eq(s[2], 'f', 'F')
}

pub open spec fn is_infinity_text(s: Seq<char>) -> bool {
    &&& s.len() == 8
    &&& ci_eq(s[0], 'i', 'I')
    &&& ci_eq(s[1], 'n', 'N')
    &&& ci_eq(s[2], 'f', 'F')
    &&& ci_eq(s[3], 'i', 'I')
    &&& ci_eq(s[4], 'n', 'N')
    &&& ci_eq(s[5], 'i', 'I')
    &&& ci_eq(s[6], 't', 'T')
    &&& ci_eq(s[7], 'y', 'Y')
}

pub open spec fn is_nan_text(s: Seq<char>) -> bool {
    s.len() == 3 && ci_eq(s[0], 'n', 'N') && ci_eq(s[1], 'a', 'A') && ci_eq(s[2], 'n', 'N')
}

/// Whether the text reads as a floating-point number: an optional sign,
/// then an infinity or not-a-number keyword in any case, or digits with an
/// optional point and exponent.
pub open spec fn is_float_text(s: Seq<char>) -> bool {
    let t = spec_strip_sign(s);
    is_inf_text(t) || is_infinity_text(t) || is_nan_text(t) || is_number_text(t)
}

pub open spec fn bad_label_char(c: char) -> bool {
    c != '-' && !alnum(c)
}

/// The first complaint about one label, or nothing. The last label of a
/// name — the TLD — additionally may not read as a number.
pub open spec fn label_error(l: Seq<char>, is_tld: bool) -> Option<Kind> {
    if l.len() == 0 {
        Some(Kind::EmptyLabel)
    } else if l.len() > 63 {
        Some(Kind::LabelTooLong)
    } else if is_tld && is_float_text(l) {
        Some(Kind::NumericTld)
    } else if !alnum(l[0]) {
        Some(Kind::LabelStartNotAlnum)
    } else if !alnum(l.last()) {
        Some(Kind::LabelEndNotAlnum)
    } else if exists|i: int| 0 <= i < l.len() && bad_label_char(#[trigger] l[i]) {
        Some(Kind::IllegalCharacter)
    } else {
        None
    }
}

/// The first complaint about a whole domain name, label by label, left to
/// right.
pub open spec fn first_label_error(labs: Seq<Seq<char>>, i: int) -> Option<Kind>
    decreases labs.len() - i,
{
    if i < 0 || i >= labs.len() {
        None
    } else if label_error(labs[i], i == labs.len() - 1) is Some {
        label_error(labs[i], i == labs.len() - 1)
    } else {
        first_label_error(labs, i + 1)
    }
}

pub open spec fn domain_error(s: Seq<char>) -> Option<Kind> {
    if s.len() > 253 {
        Some(Kind::NameTooLong)
    } else if split_ch(s, '.').len() > 127 {
        Some(Kind::TooManyLabels)
    } else {
        first_label_error(split_ch(s, '.'), 0)
    }
}

proof fn lemma_find_exp(s: Seq<char>)
    ensures
        -1 <= find_exp(s) < s.len(),
        find_exp(s) == -1 ==> forall|i: int| 0 <= i < s.len() ==> !exp_char(#[trigger] s[i]),
        find_exp(s) >= 0 ==> exp_char(s[find_exp(s)]),
        forall|i: int| 0 <= i < find_exp(s) ==> !exp_char(#[trigger] s[i]),
    decreases s.len(),
{
    if s.len() == 0 {
    } else if exp_char(s[0]) {
    } else {
        lemma_find_exp(s.drop_first());
        let j = find_exp(s.drop_first());
        if j >= 0 {
            assert(s[j + 1] == s.drop_first()[j]);
        }
        assert forall|i: int| 0 <= i < find_exp(s) implies !exp_char(#[trigger] s[i]) by {
            if i > 0 {
                assert(s[i] == s.drop_first()[i - 1]);
            }
        }
        if find_exp(s) == -1 {
            assert forall|i: int| 0 <= i < s.len() implies !exp_char(#[trigger] s[i]) by {
                if i > 0 {
                    assert(s[i] == s.drop_first()[i - 1]);
                }
            }
        }
    }
}

proof fn lemma_find_exp_position(s: Seq<char>, j: int)
    requires
        0 <= j < s.len(),
        exp_char(s[j]),
        forall|i: int| 0 <= i < j ==> !exp_char(#[trigger] s[i]),
    ensures
        find_exp(s) == j,
    decreases s.len(),
{
    if exp_char(s[0]) {
        assert(j == 0);
    } else {
        assert forall|i: int| 0 <= i < j - 1 implies !exp_char(#[trigger] s.drop_first()[i]) by {
            assert(s.drop_first()[i] == s[i + 1]);
        }
        assert(s.drop_first()[j - 1] == s[j]);
        lemma_find_exp_position(s.drop_first(), j - 1);
    }
}

/// Whether every character of `l` in `[a, b)` is a decimal digit.
fn digits_range(l: &Vec<char>, a: usize, b: usize) -> (r: bool)
    requires
        a <= b <= l@.len(),
    ensures
        r == all_digits(l@.subrange(a as int, b as int)),
{
    let mut i = a;
    while i < b
        invariant
            a <= i <= b <= l@.len(),
            forall|j: int| a <= j < i ==> digit(#[trigger] l@[j]),
        decreases b - i,
    {
        let u = l[i] as u32;
        if !(48 <= u && u <= 57) {
            proof {
                assert(l@.subrange(a as int, b as int)[i - a] == l@[i as int]);
            }
            return false;
        }
        i += 1;
    }
    proof {
        assert forall|j: int| 0 <= j < b - a implies digit(
            #[trigger] l@.subrange(a as int, b as int)[j],
        ) by {
            assert(l@.subrange(a as int, b as int)[j] == l@[a + j]);
        }
    }
    true
}

/// Whether the text in `[a, b)` is a mantissa followed by an optional
/// exponent.
fn number_range(l: &Vec<char>, a: usize, b: usize) -> (r: bool)
    requires
        a <= b <= l@.len(),
    ensures
        r == is_number_text(l@.subrange(a as int, b as int)),
{
    let ghost t = l@.subrange(a as int, b as int);
    // find the exponent marker
    let mut e = a;
    while e < b && l[e] != 'e' && l[e] != 'E'
        invariant
            a <= e <= b <= l@.len(),
            forall|j: int| a <= j < e ==> !exp_char(#[trigger] l@[j]),
        decreases b - e,
    {
        proof {
            assert(!exp_char(l@[e as int]));
        }
        e += 1;
    }
    let ghost ei = find_exp(t);
    proof {
        if e < b {
            assert(exp_char(t[e - a]));
            assert forall|j: int| 0 <= j < e - a implies !exp_char(#[trigger] t[j]) by {
                assert(t[j] == l@[a + j]);
            }
            lemma_find_exp_position(t, e - a);
        } else {
            assert forall|j: int| 0 <= j < t.len() implies !exp_char(#[trigger] t[j]) by {
                assert(t[j] == l@[a + j]);
            }
            lemma_find_exp(t);
            if find_exp(t) >= 0 {
                assert(exp_char(t[find_exp(t)]));
            }
        }
    }
    // the exponent part, if any: an optional sign and at least one digit
    if e < b {
        let mut x = e + 1;
        if x < b && (l[x] == '+' || l[x] == '-') {
            x += 1;
        }
        proof {
            assert(t.skip(e - a + 1) =~= l@.subrange(e + 1, b as int));
            assert(spec_strip_sign(t.skip(e - a + 1)) =~= l@.subrange(x as int, b as int));
        }
        if x == b {
            return false;
        }
        if !digits_range(l, x, b) {
            return false;
        }
        proof {
            assert(is_exp_part(t.skip(e - a + 1)));
        }
    }
    // the mantissa
    let me = e;
    let ghost m = t.take(if ei >= 0 { ei } else { t.len() as int });
    proof {
        if ei < 0 {
            assert(m =~= t);
        }
        assert(m =~= l@.subrange(a as int, me as int));
    }
    let mut d = a;
    while d < me && l[d] != '.'
        invariant
            a <= d <= me <= l@.len(),
            forall|j: int| a <= j < d ==> l@[j] != '.',
        decreases me - d,
    {
        d += 1;
    }
    proof {
        if d < me {
            assert(m[d - a] == l@[d as int]);
            assert forall|j: int| 0 <= j < d - a implies m[j] != '.' by {
                assert(m[j] == l@[a + j]);
            }
            lemma_find_ch_position(m, '.', d - a);
        } else {
            assert forall|j: int| 0 <= j < m.len() implies m[j] != '.' by {
                assert(m[j] == l@[a + j]);
            }
            lemma_find_ch(m, '.');
            if find_ch(m, '.') >= 0 {
                assert(m[find_ch(m, '.')] == '.');
            }
        }
    }
    if d < me {
        proof {
            assert(m.take(d - a) =~= l@.subrange(a as int, d as int));
            assert(m.skip(d - a + 1) =~= l@.subrange(d + 1, me as int));
        }
        let r = digits_range(l, a, d) && digits_range(l, d + 1, me) && (d > a || me > d + 1);
        proof {
            assert(r == is_mantissa(m));
        }
        r
    } else {
        let r = me > a && digits_range(l, a, me);
        proof {
            assert(m =~= l@.subrange(a as int, me as int));
        }
        r
    }
}

/// Whether the label reads as a floating-point number.
fn is_float_chars(l: &Vec<char>) -> (r: bool)
    ensures
        r == is_float_text(l@),
{
    let n = l.len();
    let start: usize = if n > 0 && (l[0] == '+' || l[0] == '-') {
        1
    } else {
        0
    };
    let ghost t = spec_strip_sign(l@);
    proof {
        assert(t =~= l@.subrange(start as int, n as int));
    }
    let m = n - start;
    // the keywords, in any case
    if m == 3 {
        let a = l[start];
        let b = l[start + 1];
        let c = l[start + 2];
        if (a == 'i' || a == 'I') && (b == 'n' || b == 'N') && (c == 'f' || c == 'F') {
            proof {
                assert(t[0] == a && t[1] == b && t[2] == c);
            }
            return true;
        }
        if (a == 'n' || a == 'N') && (b == 'a' || b == 'A') && (c == 'n' || c == 'N') {
            proof {
                assert(t[0] == a && t[1] == b && t[2] == c);
            }
            return true;
        }
    }
    if m == 8 {
        let ok = (l[start] == 'i' || l[start] == 'I') && (l[start + 1] == 'n' || l[start + 1]
            == 'N') && (l[start + 2] == 'f' || l[start + 2] == 'F') && (l[start + 3] == 'i' || l[
            start + 3] == 'I') && (l[start + 4] == 'n' || l[start + 4] == 'N') && (l[start + 5]
            == 'i' || l[start + 5] == 'I') && (l[start + 6] == 't' || l[start + 6] == 'T') && (l[
            start + 7] == 'y' || l[start + 7] == 'Y');
        if ok {
            proof {
                assert forall|j: int| 0 <= j < 8 implies t[j] == l@[start + j] by {}
            }
            return true;
        }
    }
    proof {
        if is_inf_text(t) || is_nan_text(t) {
            assert(m == 3);
            assert(t[0] == l@[start as int] && t[1] == l@[start + 1] && t[2] == l@[start + 2]);
        }
        if is_infinity_text(t) {
            assert(m == 8);
            assert forall|j: int| 0 <= j < 8 implies t[j] == l@[start + j] by {}
        }
    }
    number_range(l, start, n)
}

/// Check one label, already split out of its name.
#[verifier::loop_isolation(false)]
fn label_check(l: &Vec<char>, is_tld: bool) -> (r: Option<Kind>)
    ensures
        r == label_error(l@, is_tld),
{
    let n = l.len();
    if n == 0 {
        return Some(Kind::EmptyLabel);
    }
    if n > MAX_LABEL_LEN {
        return Some(Kind::LabelTooLong);
    }
    if is_tld && is_float_chars(l) {
        return Some(Kind::NumericTld);
    }
    if !is_alphanumeric_char(l[0]) {
        return Some(Kind::LabelStartNotAlnum);
    }
    proof {
        assert(l@.last() == l@[n - 1]);
    }
    if !is_alphanumeric_char(l[n - 1]) {
        return Some(Kind::LabelEndNotAlnum);
    }
    let mut i: usize = 0;
    while i < n
        invariant
            n == l@.len(),
            0 <= i <= n,
            forall|j: int| 0 <= j < i ==> !bad_label_char(#[trigger] l@[j]),
        decreases n - i,
    {
        let c = l[i];
        if c != '-' && !is_alphanumeric_char(c) {
            proof {
                assert(bad_label_char(l@[i as int]));
            }
            return Some(Kind::IllegalCharacter);
        }
        i += 1;
    }
    None
}

/// Check that a name has valid domain syntax: at most 253 characters and
/// 127 labels, each label non-empty, at most 63 characters, alphanumeric at
/// both ends and alphanumeric or `-` within, and a last label that does not
/// read as a number.
#[verifier::loop_isolation(false)]
pub fn is_domain_name(domain: &str) -> (r: Result<(), Kind>)
    ensures
        match r {
            Ok(_) => domain_error(domain@) is None,
            Err(k) => domain_error(domain@) == Some(k),
        },
{
    let cs = chars_vec(domain);
    if cs.len() > MAX_DOMAIN_LEN {
        return Err(Kind::NameTooLong);
    }
    let labs = split_chars(&cs, '.');
    let ghost sl = split_ch(domain@, '.');
    let n = labs.len();
    proof {
        assert(labs.deep_view() == sl);
        assert(n == sl.len());
    }
    if n > MAX_LABELS_COUNT {
        return Err(Kind::TooManyLabels);
    }
    let mut i: usize = 0;
    while i < n
        invariant
            n == labs@.len() == sl.len(),
            labs.deep_view() == sl,
            0 <= i <= n,
            forall|j: int| 0 <= j < i ==> label_error(#[trigger] sl[j], j == sl.len() - 1) is None,
            first_label_error(sl, 0) == first_label_error(sl, i as int),
        decreases n - i,
    {
        proof {
            assert(labs@[i as int]@ == sl[i as int]);
        }
        match label_check(&labs[i], i == n - 1) {
            Some(k) => {
                proof {
                    assert(label_error(sl[i as int], i as int == sl.len() - 1) == Some(k));
                    assert(first_label_error(sl, i as int) == Some(k));
                }
                return Err(k);
            },
            None => {},
        }
        i += 1;
    }
    Ok(())
}

/// Check one label; the TLD flag turns on the numeric check.
pub fn is_label(label: &str, label_is_tld: bool) -> (r: Result<(), Kind>)
    ensures
        match r {
            Ok(_) => label_error(label@, label_is_tld) is None,
            Err(k) => label_error(label@, label_is_tld) == Some(k),
        },
{
    let cs = chars_vec(label);
    match label_check(&cs, label_is_tld) {
        Some(k) => Err(k),
        None => Ok(()),
    }
}

/// The characters an email local part may hold anywhere, unquoted.
pub open spec fn global_char(c: char) -> bool {
    ||| 48 <= c as u32 <= 57
    ||| 97 <= c as u32 <= 122
    ||| 65 <= c as u32 <= 90
    ||| c == '-'
    ||| c == '!'
    ||| c == '#'
    ||| c == '$'
    ||| c == '%'
    ||| c == '&'
    ||| c == '\''
    ||| c == '*'
    ||| c == '+'
    ||| c == '/'
    ||| c == '='
    ||| c == '?'
    ||| c == '^'
    ||| c == '_'
    ||| c == '`'
    ||| c == '{'
    ||| c == '|'
    ||| c == '}'
    ||| c == '~'
}

pub open spec fn non_ascii_char(c: char) -> bool {
    c as u32 > 0x7f
}

/// The extra characters a quoted local part may hold.
pub open spec fn quoted_char(c: char) -> bool {
    ||| c == '"'
    ||| c == '.'
    ||| c == ' '
    ||| c == '('
    ||| c == ')'
    ||| c == ','
    ||| c == '\\'
    ||| c == ':'
    ||| c == ';'
    ||| c == '<'
    ||| c == '>'
    ||| c == '@'
    ||| c == '['
    ||| c == ']'
}

pub open spec fn combined_char(c: char) -> bool {
    global_char(c) || non_ascii_char(c)
}

/// These characters can be anywhere in the expression.
pub fn is_global(c: char) -> (r: bool)
    ensures
        r == global_char(c),
{
    let u = c as u32;
    (48 <= u && u <= 57) || (97 <= u && u <= 122) || (65 <= u && u <= 90) || c == '-' || c == '!'
        || c == '#' || c == '$' || c == '%' || c == '&' || c == '\'' || c == '*' || c == '+' || c
        == '/' || c == '=' || c == '?' || c == '^' || c == '_' || c == '`' || c == '{' || c == '|'
        || c == '}' || c == '~'
}

/// Non-ASCII characters can also be unquoted.
pub fn is_non_ascii(c: char) -> (r: bool)
    ensures
        r == non_ascii_char(c),
{
    c as u32 > 0x7f
}

pub fn is_quoted(c: char) -> (r: bool)
    ensures
        r == quoted_char(c),
{
    c == '"' || c == '.' || c == ' ' || c == '(' || c == ')' || c == ',' || c == '\\' || c == ':'
        || c == ';' || c == '<' || c == '>' || c == '@' || c == '[' || c == ']'
}

pub fn is_combined(c: char) -> (r: bool)
    ensures
        r == combined_char(c),
{
    is_global(c) || is_non_ascii(c)
}

/// Two points in a row somewhere in the text.
pub open spec fn has_dotdot(l: Seq<char>) -> bool {
    exists|i: int| 0 <= i < l.len() - 1 && l[i] == '.' && #[trigger] l[i + 1] == '.'
}

/// The first complaint about the local (user) part of an email address.
/// A part opening with a quote must close it at the end and may hold the
/// quotable characters in between; an unquoted part holds ordinary
/// characters with no leading, trailing or doubled points.
pub open spec fn email_local_error(l: Seq<char>) -> Option<Kind> {
    if l.len() == 0 {
        Some(Kind::NoUserPart)
    } else {
        let rest = l.drop_first();
        let last_index: int = if rest.len() >= 1 {
            rest.len() - 1
        } else {
            0
        };
        if last_index > 63 {
            Some(Kind::EmailLocalTooLong)
        } else if l[0] == '"' {
            if last_index == 0 {
                Some(Kind::QuoteUnclosed)
            } else if exists|i: int|
                0 <= i < last_index && !combined_char(#[trigger] rest[i]) && !quoted_char(
                    rest[i],
                ) {
                Some(Kind::IllegalCharacter)
            } else if rest[last_index] != '"' {
                Some(Kind::QuoteUnclosed)
            } else {
                None
            }
        } else if l[0] == ' ' || l[0] == '.' || has_dotdot(l) {
            Some(Kind::IllegalCharacter)
        } else if exists|i: int|
            0 <= i < rest.len() && !combined_char(#[trigger] rest[i]) && (i == last_index
                || rest[i] != '.') {
            Some(Kind::IllegalCharacter)
        } else {
            None
        }
    }
}

/// Check the local (user) part of an email address.
#[verifier::loop_isolation(false)]
pub fn is_email_local(local: &str) -> (r: Result<(), Kind>)
    ensures
        match r {
            Ok(_) => email_local_error(local@) is None,
            Err(k) => email_local_error(local@) == Some(k),
        },
{
    let cs = chars_vec(local);
    let n = cs.len();
    if n == 0 {
        return Err(Kind::NoUserPart);
    }
    let ghost rest = local@.drop_first();
    let rest_len = n - 1;
    let last_index: usize = if rest_len >= 1 {
        rest_len - 1
    } else {
        0
    };
    if last_index > MAX_LABEL_LEN {
        return Err(Kind::EmailLocalTooLong);
    }
    proof {
        assert forall|i: int| 0 <= i < rest.len() implies rest[i] == cs@[i + 1] by {}
    }
    if cs[0] == '"' {
        if last_index == 0 {
            return Err(Kind::QuoteUnclosed);
        }
        let mut i: usize = 0;
        while i < last_index
            invariant
                0 <= i <= last_index,
                forall|j: int|
                    0 <= j < i ==> combined_char(#[trigger] rest[j]) || quoted_char(rest[j]),
            decreases last_index - i,
        {
            let c = cs[1 + i];
            if !is_combined(c) && !is_quoted(c) {
                proof {
                    assert(!combined_char(rest[i as int]) && !quoted_char(rest[i as int]));
                }
                return Err(Kind::IllegalCharacter);
            }
            i += 1;
        }
        if cs[1 + last_index] != '"' {
            return Err(Kind::QuoteUnclosed);
        }
        Ok(())
    } else {
        if cs[0] == ' ' || cs[0] == '.' {
            return Err(Kind::IllegalCharacter);
        }
        let mut j: usize = 0;
        while j < n - 1
            invariant
                0 <= j <= n - 1,
                forall|p: int| 0 <= p < j && cs@[p] == '.' ==> #[trigger] cs@[p + 1] != '.',
            decreases n - j,
        {
            if cs[j] == '.' && cs[j + 1] == '.' {
                proof {
                    assert(local@[j as int] == '.' && local@[j as int + 1] == '.');
                    assert(has_dotdot(local@));
                }
                return Err(Kind::IllegalCharacter);
            }
            j += 1;
        }
        proof {
            assert(!has_dotdot(local@));
        }
        let mut i: usize = 0;
        while i < rest_len
            invariant
                0 <= i <= rest_len,
                forall|p: int|
                    0 <= p < i ==> combined_char(#[trigger] rest[p]) || (p != last_index
                        && rest[p] == '.'),
            decreases rest_len - i,
        {
            let c = cs[1 + i];
            if !is_combined(c) && (i == last_index || c != '.') {
                proof {
                    assert(!combined_char(rest[i as int]) && (i as int == last_index
                        || rest[i as int] != '.'));
                }
                return Err(Kind::IllegalCharacter);
            }
            i += 1;
        }
        Ok(())
    }
}

/// Two separators in a row somewhere in the bytes.
pub open spec fn has_empty_label(b: Seq<u8>) -> bool {
    exists|i: int| 0 <= i < b.len() - 1 && b[i] == DOT && #[trigger] b[i + 1] == DOT
}

/// The name with a trailing separator stripped.
pub open spec fn dns_stripped(b: Seq<u8>) -> Seq<u8> {
    if b.len() > 0 && b.last() == DOT {
        b.drop_last()
    } else {
        b
    }
}

pub open spec fn any_label_too_long(d: Seq<u8>) -> bool {
    exists|i: int| 0 <= i < rlabels(d).len() && (#[trigger] rlabels(d)[i]).len() > 63
}

/// The first complaint about a DNS name: non-empty, no empty labels, at
/// most 253 bytes once a trailing separator is stripped, no label over 63
/// bytes — and nothing else, since DNS names may carry unusual characters.
pub open spec fn dns_error(b: Seq<u8>) -> Option<Kind> {
    if b.len() == 0 {
        Some(Kind::EmptyName)
    } else if has_empty_label(b) {
        Some(Kind::EmptyLabel)
    } else if dns_stripped(b).len() > 253 {
        Some(Kind::NameTooLong)
    } else if any_label_too_long(dns_stripped(b)) {
        Some(Kind::LabelTooLong)
    } else {
        None
    }
}

/// Check that a name can serve as a key in a DNS database.
#[verifier::loop_isolation(false)]
pub fn is_dns_name(name: &str) -> (r: Result<(), Kind>)
    ensures
        match r {
            Ok(_) => dns_error(name.spec_bytes()) is None,
            Err(k) => dns_error(name.spec_bytes()) == Some(k),
        },
{
    let b = name.as_bytes();
    let n = b.len();
    if n == 0 {
        return Err(Kind::EmptyName);
    }
    let mut i: usize = 0;
    while i < n - 1
        invariant
            n == b@.len(),
            n >= 1,
            0 <= i <= n - 1,
            forall|j: int| 0 <= j < i && b@[j] == DOT ==> #[trigger] b@[j + 1] != DOT,
        decreases n - i,
    {
        if b[i] == DOT && b[i + 1] == DOT {
            proof {
                assert(b@[i as int] == DOT && b@[i as int + 1] == DOT);
                assert(has_empty_label(b@));
            }
            return Err(Kind::EmptyLabel);
        }
        i += 1;
    }
    proof {
        assert(!has_empty_label(b@));
    }
    let d: &[u8] = if b[n - 1] == DOT {
        vstd::slice::slice_subrange(b, 0, n - 1)
    } else {
        b
    };
    proof {
        if b@.last() == DOT {
            assert(d@ =~= b@.drop_last());
        }
        assert(d@ == dns_stripped(b@));
    }
    if d.len() > MAX_DOMAIN_LEN {
        return Err(Kind::NameTooLong);
    }
    let labs = crate::bytes::rsplit_bytes(d);
    let m = labs.len();
    proof {
        assert(labs.deep_view() =~~= rlabels(d@));
        assert(m == rlabels(d@).len());
    }
    let mut k: usize = 0;
    while k < m
        invariant
            m == labs@.len() == rlabels(d@).len(),
            labs.deep_view() == rlabels(d@),
            0 <= k <= m,
            forall|j: int| 0 <= j < k ==> (#[trigger] rlabels(d@)[j]).len() <= 63,
        decreases m - k,
    {
        proof {
            assert(labs@[k as int]@ == rlabels(d@)[k as int]);
        }
        if labs[k].len() > MAX_LABEL_LEN {
            proof {
                assert(d@ == dns_stripped(b@));
                assert((rlabels(dns_stripped(b@))[k as int]).len() > 63);
                assert(any_label_too_long(dns_stripped(b@)));
            }
            return Err(Kind::LabelTooLong);
        }
        k += 1;
    }
    Ok(())
}

} // verus!
