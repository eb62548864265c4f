//! Characters and UTF-8 positions.
//!
//! Texts are viewed as sequences of characters. Positions into a text come in
//! two kinds: character indices, and byte offsets into its UTF-8 encoding.
//! [`byte_pos`] leads from the first to the second.

use vstd::prelude::*;
use vstd::utf8::*;

verus! {

/// The characters with the Unicode property `White_Space`.
pub open spec fn is_white_space(c: char) -> bool {
    ||| '\u{9}' <= c <= '\u{d}'
    ||| c == ' '
    ||| c == '\u{85}'
    ||| c == '\u{a0}'
    ||| c == '\u{1680}'
    ||| '\u{2000}' <= c <= '\u{200a}'
    ||| c == '\u{2028}'
    ||| c == '\u{2029}'
    ||| c == '\u{202f}'
    ||| c == '\u{205f}'
    ||| c == '\u{3000}'
}

/// Tells whether `c` is white space.
pub fn white_space(c: char) -> (b: bool)
    ensures
        b == is_white_space(c),
{
    ('\u{9}' <= c && c <= '\u{d}') || c == ' ' || c == '\u{85}' || c == '\u{a0}' || c == '\u{1680}'
        || ('\u{2000}' <= c && c <= '\u{200a}') || c == '\u{2028}' || c == '\u{2029}' || c
        == '\u{202f}' || c == '\u{205f}' || c == '\u{3000}'
}

/// The printable ASCII characters that are neither letters, digits nor the space.
pub open spec fn is_ascii_punct(c: char) -> bool {
    ||| '!' <= c <= '/'
    ||| ':' <= c <= '@'
    ||| '[' <= c <= '`'
    ||| '{' <= c <= '~'
}

/// Tells whether `c` is ASCII punctuation.
pub fn ascii_punct(c: char) -> (b: bool)
    ensures
        b == is_ascii_punct(c),
{
    ('!' <= c && c <= '/') || (':' <= c && c <= '@') || ('[' <= c && c <= '`') || ('{' <= c && c
        <= '~')
}

/// The number of bytes of a text in UTF-8.
pub open spec fn byte_len(s: Seq<char>) -> nat {
    encode_utf8(s).len()
}

/// The byte offset at which character `i` of `s` starts.
pub open spec fn byte_pos(s: Seq<char>, i: int) -> int {
    byte_len(s.take(i)) as int
}

/// The text between two byte offsets of `s`.
pub open spec fn text_between(s: Seq<char>, start: int, end: int) -> Seq<char> {
    decode_utf8(encode_utf8(s).subrange(start, end))
}

/// The number of bytes that `c` takes in UTF-8.
pub fn utf8_width(c: char) -> (n: usize)
    ensures
        n == encode_scalar(c as u32).len(),
        1 <= n <= 4,
{
    if c <= '\u{7f}' {
        1
    } else if c <= '\u{7ff}' {
        2
    } else if c <= '\u{ffff}' {
        3
    } else {
        4
    }
}

/// The characters of a text, in order.
pub fn chars_of(s: &str) -> (v: Vec<char>)
    ensures
        v@ == s@,
{
    let mut v: Vec<char> = Vec::new();
    for c in it: s.chars()
        invariant
            it.seq() == s@,
            v@ == s@.take(it.index() as int),
    {
        v.push(c);
        proof {
            assert(s@.take(it.index() as int + 1) == s@.take(it.index() as int).push(
                s@[it.index() as int],
            ));
        }
    }
    assert(s@.take(s@.len() as int) == s@);
    v
}

/// The number of bytes of a text, which always fits in a `usize`.
pub fn byte_length(s: &str) -> (n: usize)
    ensures
        n == byte_len(s@),
{
    s.as_bytes().len()
}

/// Whether two texts are the same.
pub fn same_text(a: &str, b: &str) -> (r: bool)
    ensures
        r == (a@ == b@),
{
    let x = a.as_bytes();
    let y = b.as_bytes();
    proof {
        encode_utf8_decode_utf8(a@);
        encode_utf8_decode_utf8(b@);
    }
    if x.len() != y.len() {
        return false;
    }
    let mut i: usize = 0;
    while i < x.len()
        invariant
            x@.len() == y@.len(),
            i <= x@.len(),
            forall|k: int| 0 <= k < i ==> x@[k] == y@[k],
            x@ == encode_utf8(a@),
            y@ == encode_utf8(b@),
            decode_utf8(encode_utf8(a@)) == a@,
            decode_utf8(encode_utf8(b@)) == b@,
        decreases x@.len() - i,
    {
        if x[i] != y[i] {
            return false;
        }
        i += 1;
    }
    assert(x@ =~= y@);
    true
}

/// The encoding of a concatenation is the concatenation of the encodings.
pub proof fn lemma_encode_concat(a: Seq<char>, b: Seq<char>)
    ensures
        encode_utf8(a + b) == encode_utf8(a) + encode_utf8(b),
        byte_len(a + b) == byte_len(a) + byte_len(b),
    decreases a.len(),
{
    if a.len() == 0 {
        assert(a + b == b);
        assert(encode_utf8(a) + encode_utf8(b) == encode_utf8(b));
    } else {
        assert((a + b).drop_first() == a.drop_first() + b);
        lemma_encode_concat(a.drop_first(), b);
        assert(encode_utf8(a + b) == encode_utf8(a) + encode_utf8(b));
    }
}

/// Positions of characters are the boundaries of the encoding, and the bytes
/// between two of them decode to the characters between.
pub proof fn lemma_byte_pos(s: Seq<char>, i: int, j: int)
    requires
        0 <= i <= j <= s.len(),
    ensures
        0 <= byte_pos(s, i) <= byte_pos(s, j) <= byte_len(s),
        byte_pos(s, j) == byte_pos(s, i) + byte_len(s.subrange(i, j)),
        is_char_boundary(encode_utf8(s), byte_pos(s, i)),
        is_char_boundary(encode_utf8(s), byte_pos(s, j)),
        encode_utf8(s).subrange(byte_pos(s, i), byte_pos(s, j)) == encode_utf8(s.subrange(i, j)),
        text_between(s, byte_pos(s, i), byte_pos(s, j)) == s.subrange(i, j),
{
    let a = s.take(i);
    let m = s.subrange(i, j);
    let z = s.skip(j);
    assert(s.take(j) == a + m);
    assert(s == s.take(j) + z);
    lemma_encode_concat(a, m);
    lemma_encode_concat(s.take(j), z);
    lemma_boundary_of_prefix(a, m + z);
    assert(s == a + (m + z));
    lemma_boundary_of_prefix(s.take(j), z);
    assert(encode_utf8(s).subrange(byte_pos(s, i), byte_pos(s, j)) == encode_utf8(m));
    encode_utf8_decode_utf8(m);
}

/// A concatenation can be cut where its first part ends.
proof fn lemma_boundary_of_prefix(a: Seq<char>, b: Seq<char>)
    ensures
        is_char_boundary(encode_utf8(a + b), byte_len(a) as int),
    decreases a.len(),
{
    encode_utf8_valid_utf8(a + b);
    if a.len() > 0 {
        let rest = a.drop_first();
        assert((a + b).drop_first() == rest + b);
        lemma_boundary_of_prefix(rest, b);
        encode_utf8_first_scalar(a + b);
        lemma_encode_concat(a, b);
        assert(pop_first_scalar(encode_utf8(a + b)) == encode_utf8(rest + b));
    }
}

/// One more character moves the position on by its width.
pub proof fn lemma_byte_pos_step(s: Seq<char>, i: int)
    requires
        0 <= i < s.len(),
    ensures
        byte_pos(s, i + 1) == byte_pos(s, i) + encode_scalar(s[i] as u32).len(),
        byte_pos(s, i) < byte_pos(s, i + 1) <= byte_len(s),
{
    lemma_byte_pos(s, i, i + 1);
    lemma_byte_pos(s, i + 1, s.len() as int);
    let one = s.subrange(i, i + 1);
    assert(one.drop_first() == Seq::<char>::empty());
    assert(encode_utf8(one) == encode_scalar(s[i] as u32) + encode_utf8(Seq::<char>::empty()));
}

/// The first position is zero and the last is the length.
pub proof fn lemma_byte_pos_ends(s: Seq<char>)
    ensures
        byte_pos(s, 0) == 0,
        byte_pos(s, s.len() as int) == byte_len(s),
{
    assert(s.take(0) == Seq::<char>::empty());
    assert(s.take(s.len() as int) == s);
}

/// Every boundary of the encoding is the position of a character, or the end.
pub proof fn lemma_boundary_is_a_position(s: Seq<char>, p: int) -> (i: int)
    requires
        0 <= p <= byte_len(s),
        is_char_boundary(encode_utf8(s), p),
    ensures
        0 <= i <= s.len(),
        byte_pos(s, i) == p,
{
    let bytes = encode_utf8(s);
    encode_utf8_valid_utf8(s);
    encode_utf8_decode_utf8(s);
    valid_utf8_split(bytes, p);
    decode_utf8_split(bytes, p);
    let head = bytes.subrange(0, p);
    let a = decode_utf8(head);
    decode_utf8_encode_utf8(head);
    assert(s.take(a.len() as int) == a);
    a.len() as int
}

/// White space is what the Unicode property lists, by code points.
pub proof fn law_white_space_by_code_points(c: char, b: bool)
    requires
        call_ensures(white_space, (c,), b),
    ensures
        b == is_white_space(c),
        b <==> {
            let p = c as u32;
            ||| 0x9 <= p <= 0xd
            ||| p == 0x20
            ||| p == 0x85
            ||| p == 0xa0
            ||| p == 0x1680
            ||| 0x2000 <= p <= 0x200a
            ||| 0x2028 <= p <= 0x2029
            ||| p == 0x202f
            ||| p == 0x205f
            ||| p == 0x3000
        },
{
}

/// ASCII punctuation is what is printed in ASCII and is neither a letter, nor a
/// digit, nor the space; so it is never white space.
pub proof fn law_punctuation_by_code_points(c: char, b: bool)
    requires
        call_ensures(ascii_punct, (c,), b),
    ensures
        b == is_ascii_punct(c),
        b <==> {
            let p = c as u32;
            &&& 0x20 < p < 0x7f
            &&& !(0x30 <= p <= 0x39)
            &&& !(0x41 <= p <= 0x5a)
            &&& !(0x61 <= p <= 0x7a)
        },
        b ==> !is_white_space(c),
{
}

/// The length of a text is the number of bytes of its encoding, and each
/// character starts at the byte at which the encoding of what is before it ends.
pub proof fn law_lengths_are_bytes(s: &str, n: usize, i: int)
    requires
        call_ensures(byte_length, (s,), n),
        0 <= i <= s@.len(),
    ensures
        n == encode_utf8(s@).len(),
        byte_len(s@) == encode_utf8(s@).len(),
        byte_pos(s@, i) == encode_utf8(s@.take(i)).len(),
        encode_utf8(s@).subrange(0, byte_pos(s@, i)) == encode_utf8(s@.take(i)),
{
    lemma_byte_pos(s@, 0, i);
    lemma_byte_pos_ends(s@);
    assert(s@.subrange(0, i) == s@.take(i));
}

} // verus!
