//! The bytes of a string against its characters: searching the bytes for an
//! ASCII character finds the character.

use vstd::prelude::*;
use vstd::utf8::*;
use crate::text::{chars_of, find, lemma_find_at, lemma_find_from, part, Text};

verus! {

/// `memchr::memchr`: the index of the first byte of `haystack` that equals
/// `needle`, or `None` where no byte does.
pub assume_specification[ memchr::memchr ](needle: u8, haystack: &[u8]) -> (r: Option<usize>)
    ensures
        match r {
            Some(k) => k < haystack@.len() && haystack@[k as int] == needle && (forall|j: int|
                0 <= j < k ==> haystack@[j] != needle),
            None => forall|j: int| 0 <= j < haystack@.len() ==> haystack@[j] != needle,
        },
;

/// The byte offset of the character at position `k`.
pub open spec fn offset(s: Text, k: int) -> nat {
    encode_utf8(s.subrange(0, k)).len()
}

/// A character below `0x80` is its own encoding; any other is made of bytes
/// from `0x80` on.
proof fn lemma_scalar_bytes(c: u32)
    requires
        is_scalar(c),
    ensures
        1 <= encode_scalar(c).len() <= 4,
        c < 0x80 ==> encode_scalar(c) == seq![c as u8],
        c >= 0x80 ==> forall|i: int|
            0 <= i < encode_scalar(c).len() ==> #[trigger] encode_scalar(c)[i] >= 0x80,
{
    if c < 0x80 {
        assert((c & 0x7f) as u8 == c as u8) by (bit_vector)
            requires
                c < 0x80,
        ;
    }
    assert(0xC0u8 | ((c >> 6) & 0x1F) as u8 >= 0x80) by (bit_vector);
    assert(0xE0u8 | ((c >> 12) & 0x0F) as u8 >= 0x80) by (bit_vector);
    assert(0xF0u8 | ((c >> 18) & 0x7) as u8 >= 0x80) by (bit_vector);
    assert(0x80u8 | (c & 0x3F) as u8 >= 0x80) by (bit_vector);
    assert(0x80u8 | ((c >> 6) & 0x3F) as u8 >= 0x80) by (bit_vector);
    assert(0x80u8 | ((c >> 12) & 0x3F) as u8 >= 0x80) by (bit_vector);
}

/// The encoding of `c` holds an ASCII byte only where `c` is that character.
proof fn lemma_ascii_char(c: char, b: u8)
    requires
        b < 0x80,
    ensures
        encode_scalar(c as u32).contains(b) <==> c == b as char,
        encode_scalar(c as u32).len() >= 1,
        c == b as char ==> encode_scalar(c as u32) == seq![b],
{
    let u = c as u32;
    char_is_scalar(c);
    lemma_scalar_bytes(u);
    let bytes = encode_scalar(u);
    if u < 0x80 {
        assert(bytes[0] == u as u8);
        if bytes.contains(b) {
            assert(u == b);
        }
    }
    if c == b as char {
        assert(u == b);
        assert(bytes[0] == b);
    }
}

/// Encoding is character by character.
pub proof fn lemma_encode_concat(a: Text, b: Text)
    ensures
        encode_utf8(a + b) == encode_utf8(a) + encode_utf8(b),
    decreases a.len(),
{
    if a.len() == 0 {
        assert(a + b =~= b);
        assert(encode_utf8(a) + encode_utf8(b) =~= encode_utf8(b));
    } else {
        assert((a + b).drop_first() =~= a.drop_first() + b);
        lemma_encode_concat(a.drop_first(), b);
        assert(encode_scalar(a[0] as u32) + (encode_utf8(a.drop_first()) + encode_utf8(b))
            =~= encode_scalar(a[0] as u32) + encode_utf8(a.drop_first()) + encode_utf8(b));
    }
}

/// An ASCII byte stands in the encoding exactly where its character stands in
/// the text.
pub proof fn lemma_encode_contains(s: Text, b: u8)
    requires
        b < 0x80,
    ensures
        encode_utf8(s).contains(b) <==> s.contains(b as char),
    decreases s.len(),
{
    if s.len() > 0 {
        let head = encode_scalar(s[0] as u32);
        let rest = s.drop_first();
        lemma_ascii_char(s[0], b);
        lemma_encode_contains(rest, b);
        assert(encode_utf8(s) == head + encode_utf8(rest));
        if encode_utf8(s).contains(b) {
            let i = choose|i: int| 0 <= i < encode_utf8(s).len() && encode_utf8(s)[i] == b;
            if i >= head.len() {
                assert(encode_utf8(rest)[i - head.len()] == b);
                let j = choose|j: int| 0 <= j < rest.len() && rest[j] == b as char;
                assert(s[j + 1] == b as char);
            } else {
                assert(head[i] == b);
                assert(s[0] == b as char);
            }
        }
        if s.contains(b as char) {
            let j = choose|j: int| 0 <= j < s.len() && s[j] == b as char;
            if j == 0 {
                assert(encode_utf8(s)[0] == b);
            } else {
                assert(rest[j - 1] == b as char);
                let i = choose|i: int|
                    0 <= i < encode_utf8(rest).len() && encode_utf8(rest)[i] == b;
                assert(encode_utf8(s)[i + head.len()] == b);
            }
        }
    }
}

/// The text before and the text after the first `c`, an ASCII character.
pub fn cut<'a>(s: &'a str, c: u8) -> (r: Option<(&'a str, &'a str)>)
    requires
        c < 0x80,
    ensures
        match r {
            Some((a, b)) => exists|k: int|
                #![trigger s@.subrange(0, k)]
                find(s@, c as char) == Some(k) && 0 <= k < s@.len() && a@ == s@.subrange(0, k)
                    && b@ == s@.subrange(k + 1, s@.len() as int),
            None => find(s@, c as char) is None,
        },
{
    let bytes = s.as_bytes();
    let at: Option<usize> = memchr::memchr(c, bytes);
    match at {
        None => {
            proof {
                lemma_encode_contains(s@, c);
                lemma_find_from(s@, c as char, 0);
                assert(!encode_utf8(s@).contains(c));
            }
            None
        },
        Some(k) => {
            proof {
                encode_utf8_valid_utf8(s@);
                is_char_boundary_iff_not_is_continuation_byte(encode_utf8(s@), k as int);
            }
            let (head, tail) = s.split_at(k);
            proof {
                lemma_cut_at(s@, head@, tail@, c, k as int);
            }
            proof {
                encode_utf8_valid_utf8(tail@);
                encode_utf8_first_scalar(tail@);
                reveal_with_fuel(is_char_boundary, 2);
                is_char_boundary_start_end_of_seq(pop_first_scalar(encode_utf8(tail@)));
                assert(is_char_boundary(encode_utf8(tail@), 1));
            }
            let (sep, rest) = tail.split_at(1);
            proof {
                lemma_encode_concat(sep@, rest@);
                assert(encode_utf8(tail@) =~= encode_utf8(sep@) + encode_utf8(rest@));
                encode_utf8_decode_utf8(tail@);
                encode_utf8_decode_utf8(sep@ + rest@);
                assert(tail@ == sep@ + rest@);
                assert(encode_utf8(sep@).len() == 1);
                lemma_one_byte(sep@);
                let n = head@.len() as int;
                assert(s@ =~= head@ + tail@);
                assert(s@.subrange(0, n) =~= head@);
                assert(s@.subrange(n + 1, s@.len() as int) =~= rest@);
                assert(s@[n] == tail@[0]);
                assert forall|j: int| 0 <= j < n implies s@[j] != c as char by {
                    assert(head@[j] == s@[j]);
                    assert(!head@.contains(c as char));
                }
                lemma_find_at(s@, c as char, n);
            }
            Some((head, rest))
        },
    }
}

/// Only a text of one character is encoded in one byte.
proof fn lemma_one_byte(s: Text)
    requires
        encode_utf8(s).len() == 1,
    ensures
        s.len() == 1,
{
    if s.len() > 0 {
        char_is_scalar(s[0]);
        lemma_scalar_bytes(s[0] as u32);
        if s.len() > 1 {
            let rest = s.drop_first();
            char_is_scalar(rest[0]);
            lemma_scalar_bytes(rest[0] as u32);
            assert(encode_utf8(rest).len() >= 1);
        }
    }
}

/// What splitting at the first byte that equals `c` gives.
proof fn lemma_cut_at(s: Text, head: Text, tail: Text, c: u8, k: int)
    requires
        c < 0x80,
        0 <= k < encode_utf8(s).len(),
        encode_utf8(s)[k] == c,
        forall|j: int| 0 <= j < k ==> encode_utf8(s)[j] != c,
        encode_utf8(head) == encode_utf8(s).subrange(0, k),
        encode_utf8(tail) == encode_utf8(s).subrange(k, encode_utf8(s).len() as int),
    ensures
        s == head + tail,
        tail.len() > 0,
        tail[0] == c as char,
        !head.contains(c as char),
{
    let bytes = encode_utf8(s);
    lemma_encode_concat(head, tail);
    assert(bytes =~= encode_utf8(head) + encode_utf8(tail));
    encode_utf8_decode_utf8(s);
    encode_utf8_decode_utf8(head + tail);
    assert(encode_utf8(tail)[0] == c);
    assert(tail.len() > 0);
    lemma_ascii_char(tail[0], c);
    assert(encode_utf8(tail) == encode_scalar(tail[0] as u32) + encode_utf8(tail.drop_first()));
    assert(encode_scalar(tail[0] as u32)[0] == c);
    lemma_encode_contains(head, c);
    if head.contains(c as char) {
        let i = choose|i: int| 0 <= i < encode_utf8(head).len() && encode_utf8(head)[i] == c;
        assert(bytes[i] == c);
    }
}

// ---------------------------------------------------------------------------
// Byte offsets

/// The first character at or after the `k`-th that begins at byte `b` or later.
pub open spec fn char_from(s: Text, b: int, k: int) -> int
    decreases s.len() - k,
{
    if 0 <= k < s.len() && offset(s, k) < b {
        char_from(s, b, k + 1)
    } else {
        k
    }
}

/// The byte offset of a position that was found.
pub open spec fn found_at(s: Text, k: Option<int>) -> Option<int> {
    match k {
        Some(k) => Some(offset(s, k) as int),
        None => None,
    }
}

/// The text behind the first `b` bytes.
pub open spec fn text_from(s: Text, b: int) -> Text {
    decode_utf8(encode_utf8(s).subrange(b, encode_utf8(s).len() as int))
}

/// The byte offset of the character at position `k`.
pub fn offset_of(s: &str, k: usize) -> (r: usize)
    requires
        k <= s@.len(),
    ensures
        r == offset(s@, k as int),
{
    part(s, 0, k).as_bytes().len()
}

/// The first character that begins at byte `b` or later.
pub fn first_char_from(s: &str, b: usize) -> (r: usize)
    ensures
        r == char_from(s@, b as int, 0),
        r <= s@.len(),
{
    let n: usize = chars_of(s).len();
    let mut k: usize = 0;
    while k < n && offset_of(s, k) < b
        invariant
            k <= n == s@.len(),
            char_from(s@, b as int, 0) == char_from(s@, b as int, k as int),
        decreases n - k,
    {
        k += 1;
    }
    k
}

/// The text behind the first `b` bytes.
pub fn behind_bytes<'a>(s: &'a str, b: usize) -> (r: &'a str)
    requires
        is_char_boundary(encode_utf8(s@), b as int),
    ensures
        r@ == text_from(s@, b as int),
{
    let (_, r) = s.split_at(b);
    proof {
        encode_utf8_decode_utf8(r@);
    }
    r
}

} // verus!
