//! Character-level text helpers shared by the syntax checkers.

use vstd::prelude::*;

verus! {

broadcast use vstd::string::group_string_axioms;

/// Index of the first occurrence of `c` in `s`, or `-1`.
pub open spec fn find_ch(s: Seq<char>, c: char) -> int
    decreases s.len(),
{
    if s.len() == 0 {
        -1
    } else if s[0] == c {
        0
    } else if find_ch(s.drop_first(), c) < 0 {
        -1
    } else {
        1 + find_ch(s.drop_first(), c)
    }
}

/// Split `s` at every occurrence of `c`, left to right.
pub open spec fn split_ch(s: Seq<char>, c: char) -> Seq<Seq<char>>
    decreases s.len(),
{
    let j = find_ch(s, c);
    if 0 <= j < s.len() {
        seq![s.take(j)] + split_ch(s.skip(j + 1), c)
    } else {
        seq![s]
    }
}

pub proof fn lemma_find_ch(s: Seq<char>, c: char)
    ensures
        -1 <= find_ch(s, c) < s.len(),
        find_ch(s, c) == -1 ==> forall|i: int| 0 <= i < s.len() ==> s[i] != c,
        find_ch(s, c) >= 0 ==> s[find_ch(s, c)] == c,
        forall|i: int| 0 <= i < find_ch(s, c) ==> s[i] != c,
    decreases s.len(),
{
    if s.len() == 0 {
    } else if s[0] == c {
    } else {
        lemma_find_ch(s.drop_first(), c);
        let j = find_ch(s.drop_first(), c);
        if j >= 0 {
            assert(s[j + 1] == s.drop_first()[j]);
        }
        assert forall|i: int| 0 <= i < find_ch(s, c) implies s[i] != c by {
            if i > 0 {
                assert(s[i] == s.drop_first()[i - 1]);
            }
        }
        if find_ch(s, c) == -1 {
            assert forall|i: int| 0 <= i < s.len() implies s[i] != c by {
                if i > 0 {
                    assert(s[i] == s.drop_first()[i - 1]);
                }
            }
        }
    }
}

/// A hit at `j` with none before it pins `find_ch` down.
pub proof fn lemma_find_ch_position(s: Seq<char>, c: char, j: int)
    requires
        0 <= j < s.len(),
        s[j] == c,
        forall|i: int| 0 <= i < j ==> s[i] != c,
    ensures
        find_ch(s, c) == j,
    decreases s.len(),
{
    if s[0] == c {
        assert(j == 0);
    } else {
        assert forall|i: int| 0 <= i < j - 1 implies s.drop_first()[i] != c by {
            assert(s.drop_first()[i] == s[i + 1]);
        }
        assert(s.drop_first()[j - 1] == s[j]);
        lemma_find_ch_position(s.drop_first(), c, j - 1);
    }
}

/// Peeling the first piece off a split.
pub proof fn lemma_split_ch_peel(s: Seq<char>, c: char, j: int)
    requires
        0 <= j < s.len(),
        s[j] == c,
        forall|i: int| 0 <= i < j ==> s[i] != c,
    ensures
        split_ch(s, c) =~= seq![s.take(j)] + split_ch(s.skip(j + 1), c),
{
    lemma_find_ch_position(s, c, j);
}

pub proof fn lemma_split_ch_whole(s: Seq<char>, c: char)
    requires
        forall|i: int| 0 <= i < s.len() ==> s[i] != c,
    ensures
        split_ch(s, c) =~= seq![s],
{
    lemma_find_ch(s, c);
    if find_ch(s, c) >= 0 {
        assert(s[find_ch(s, c)] == c);
    }
}

/// Encoding a concatenation concatenates the encodings.
pub proof fn lemma_encode_concat(a: Seq<char>, b: Seq<char>)
    ensures
        vstd::utf8::encode_utf8(a + b) =~= vstd::utf8::encode_utf8(a) + vstd::utf8::encode_utf8(b),
    decreases a.len(),
{
    if a.len() == 0 {
        assert(a + b =~= b);
        assert(vstd::utf8::encode_utf8(a) =~= Seq::<u8>::empty());
    } else {
        assert((a + b)[0] == a[0]);
        assert((a + b).drop_first() =~= a.drop_first() + b);
        lemma_encode_concat(a.drop_first(), b);
    }
}

/// An ASCII character encodes as its own single byte.
pub proof fn lemma_encode_ascii(c: char)
    requires
        (c as u32) < 0x80,
    ensures
        vstd::utf8::encode_scalar(c as u32) =~= seq![(c as u32) as u8],
{
    let s = c as u32;
    assert(vstd::utf8::leading_byte_width_1(s) == (s as u8)) by (bit_vector)
        requires
            s < 0x80,
    ;
}

/// A single character encodes as its scalar encoding.
pub proof fn lemma_encode_single(c: char)
    ensures
        vstd::utf8::encode_utf8(seq![c]) =~= vstd::utf8::encode_scalar(c as u32),
{
    let s1 = seq![c];
    assert(s1.len() == 1 && s1[0] == c);
    assert(s1.drop_first() =~= Seq::<char>::empty());
    assert(vstd::utf8::encode_utf8(Seq::<char>::empty()) =~= Seq::<u8>::empty());
    assert(vstd::utf8::encode_utf8(s1) == vstd::utf8::encode_scalar(c as u32)
        + vstd::utf8::encode_utf8(s1.drop_first()));
}

/// The last byte of an encoding is the separator exactly when the last
/// character is.
pub proof fn lemma_last_byte_dot(s: Seq<char>)
    requires
        s.len() > 0,
    ensures
        vstd::utf8::encode_utf8(s).len() > 0,
        (vstd::utf8::encode_utf8(s).last() == 46) <==> (s.last() == '.'),
{
    let front = s.drop_last();
    let c = s.last();
    assert(s =~= front + seq![c]);
    lemma_encode_concat(front, seq![c]);
    let e1 = vstd::utf8::encode_utf8(seq![c]);
    lemma_encode_single(c);
    assert(e1 =~= vstd::utf8::encode_scalar(c as u32));
    vstd::utf8::char_is_scalar(c);
    let u = c as u32;
    if u < 0x80 {
        lemma_encode_ascii(c);
        assert(e1 =~= seq![u as u8]);
        assert(vstd::utf8::encode_utf8(s).last() == (u as u8));
        if u as u8 == 46 {
            assert(u == 46);
            vstd::utf8::char_u32_cast(c, u);
            assert('.' as u32 == 46);
            vstd::utf8::char_u32_cast('.', 46);
        }
        if c == '.' {
            assert(u == 46);
        }
    } else {
        // a multi-byte character ends in a continuation byte, never the
        // separator
        let last = vstd::utf8::last_continuation_byte(u);
        assert(e1.len() > 0 && e1.last() == last);
        assert(last == 0x80u8 | ((u & 0x3F) as u8));
        assert(0x80u8 | ((u & 0x3F) as u8) >= 0x80) by (bit_vector);
        assert(c != '.') by {
            assert('.' as u32 == 46);
        }
        assert(vstd::utf8::encode_utf8(s).last() == last);
    }
}

/// Stripping a trailing separator character strips exactly its byte.
pub proof fn lemma_strip_dot_bytes(s: Seq<char>)
    requires
        s.len() > 0,
        s.last() == '.',
    ensures
        vstd::utf8::encode_utf8(s).len() > 0,
        vstd::utf8::encode_utf8(s.drop_last()) =~= vstd::utf8::encode_utf8(s).take(
            vstd::utf8::encode_utf8(s).len() - 1,
        ),
{
    let front = s.drop_last();
    assert(s =~= front + seq![s.last()]);
    lemma_encode_concat(front, seq![s.last()]);
    lemma_encode_single(s.last());
    assert('.' as u32 == 46);
    lemma_encode_ascii('.');
    assert(vstd::utf8::encode_utf8(seq![s.last()]) =~= seq![46u8]);
}

/// Just after an ASCII byte is always a character boundary.
pub proof fn lemma_boundary_after_ascii(bytes: Seq<u8>, i: int)
    requires
        vstd::utf8::valid_utf8(bytes),
        0 <= i < bytes.len(),
        bytes[i] < 0x80,
    ensures
        vstd::utf8::is_char_boundary(bytes, i),
        vstd::utf8::is_char_boundary(bytes, i + 1),
{
    vstd::utf8::is_char_boundary_iff_not_is_continuation_byte(bytes, i);
    if i + 1 == bytes.len() {
        vstd::utf8::is_char_boundary_start_end_of_seq(bytes);
    } else {
        vstd::utf8::valid_utf8_split(bytes, i);
        let tail = bytes.subrange(i, bytes.len() as int);
        assert(tail[0] == bytes[i]);
        assert(vstd::utf8::length_of_first_scalar(tail) == 1);
        assert(vstd::utf8::pop_first_scalar(tail) =~= bytes.subrange(i + 1, bytes.len() as int));
        let tail2 = bytes.subrange(i + 1, bytes.len() as int);
        assert(vstd::utf8::valid_utf8(tail2));
        assert(tail2.len() > 0);
        assert(vstd::utf8::valid_first_scalar(tail2));
        assert(tail2[0] == bytes[i + 1]);
        assert(!vstd::utf8::is_continuation_byte(bytes[i + 1]));
        vstd::utf8::is_char_boundary_iff_not_is_continuation_byte(bytes, i + 1);
    }
}

/// The characters of a string, in order.
pub fn chars_vec(s: &str) -> (r: Vec<char>)
    ensures
        r@ == s@,
{
    let mut r: Vec<char> = Vec::new();
    let mut it = s.chars();
    proof {
        assert(vstd::std_specs::iter::IteratorSpec::remaining(&it) == s@);
    }
    loop
        invariant_except_break
            vstd::std_specs::iter::IteratorSpec::obeys_prophetic_iter_laws(&it),
            vstd::std_specs::iter::IteratorSpec::decrease(&it) is Some,
            r@ + vstd::std_specs::iter::IteratorSpec::remaining(&it) == s@,
        ensures
            r@ == s@,
        decreases vstd::std_specs::iter::IteratorSpec::decrease(&it)->0,
    {
        let ghost prev = r@;
        let ghost prev_rem = vstd::std_specs::iter::IteratorSpec::remaining(&it);
        match it.next() {
            Some(c) => {
                r.push(c);
                proof {
                    assert(r@ + vstd::std_specs::iter::IteratorSpec::remaining(&it) =~= prev
                        + prev_rem);
                }
            },
            None => {
                proof {
                    assert(prev_rem.len() == 0);
                    assert(r@ + prev_rem =~= r@);
                }
                break;
            },
        }
    }
    r
}

/// Split a character vector at every occurrence of `c`.
pub fn split_chars(cs: &Vec<char>, c: char) -> (r: Vec<Vec<char>>)
    ensures
        r.deep_view() =~~= split_ch(cs@, c),
{
    let mut r: Vec<Vec<char>> = Vec::new();
    let mut cur: Vec<char> = Vec::new();
    let mut pos: usize = 0;
    let mut i: usize = 0;
    let n = cs.len();
    proof {
        assert(cs@.skip(0) =~= cs@);
        assert(r.deep_view() + split_ch(cs@.skip(0), c) =~~= split_ch(cs@, c));
        assert(cur@ =~= cs@.subrange(0, 0));
    }
    while i < n
        invariant
            n == cs@.len(),
            0 <= pos <= i <= n,
            forall|j: int| pos <= j < i ==> cs@[j] != c,
            cur@ == cs@.subrange(pos as int, i as int),
            split_ch(cs@, c) =~~= r.deep_view() + split_ch(cs@.skip(pos as int), c),
        decreases n - i,
    {
        if cs[i] == c {
            let ghost prev = r.deep_view();
            proof {
                let rest = cs@.skip(pos as int);
                assert(rest[i - pos] == cs@[i as int]);
                assert forall|j: int| 0 <= j < i - pos implies rest[j] != c by {
                    assert(rest[j] == cs@[pos + j]);
                }
                lemma_split_ch_peel(rest, c, i - pos);
                assert(rest.take(i - pos) =~= cs@.subrange(pos as int, i as int));
                assert(rest.skip(i - pos + 1) =~= cs@.skip(i + 1));
            }
            r.push(cur);
            proof {
                assert(r.deep_view() =~~= prev.push(cs@.subrange(pos as int, i as int)));
            }
            cur = Vec::new();
            pos = i + 1;
        } else {
            cur.push(cs[i]);
            proof {
                assert(cur@ =~= cs@.subrange(pos as int, i + 1));
            }
        }
        i += 1;
    }
    let ghost prev = r.deep_view();
    proof {
        let rest = cs@.skip(pos as int);
        assert forall|j: int| 0 <= j < rest.len() implies rest[j] != c by {
            assert(rest[j] == cs@[pos + j]);
        }
        lemma_split_ch_whole(rest, c);
        assert(cur@ =~= rest);
    }
    r.push(cur);
    proof {
        assert(r.deep_view() =~~= prev.push(cs@.skip(pos as int)));
    }
    r
}

} // verus!
