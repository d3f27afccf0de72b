//! Byte offsets of characters in UTF-8 encoded text.
//!
//! A string slice is a view into a UTF-8 byte buffer. Cutting such a buffer at
//! an arbitrary byte would split a multi-byte character, so every cut in this
//! crate is made at the byte offset of a character. This module relates the
//! two coordinate systems: character positions in the text and byte offsets in
//! its encoding.

use vstd::prelude::*;
use vstd::utf8::*;

verus! {

/// The byte offset at which character number `k` of `chars` begins in the
/// UTF-8 encoding of `chars`; for `k == chars.len()` the length of the whole
/// encoding.
pub open spec fn byte_offset(chars: Seq<char>, k: int) -> int {
    encode_utf8(chars.take(k)).len() as int
}

/// The byte offsets of all characters of `chars`, in ascending order.
pub open spec fn byte_offsets(chars: Seq<char>) -> Seq<usize> {
    Seq::new(chars.len(), |k: int| byte_offset(chars, k) as usize)
}

/// Encoding distributes over concatenation.
pub proof fn lemma_encode_concat(a: Seq<char>, b: Seq<char>)
    ensures
        encode_utf8(a + b) == encode_utf8(a) + encode_utf8(b),
    decreases a.len(),
{
    if a.len() == 0 {
        assert(a + b == b);
        assert(encode_utf8(a) + encode_utf8(b) == encode_utf8(b));
    } else {
        lemma_encode_concat(a.drop_first(), b);
        assert((a + b).drop_first() == a.drop_first() + b);
        assert(encode_utf8(a + b) == encode_scalar(a[0] as u32) + (encode_utf8(a.drop_first())
            + encode_utf8(b)));
    }
}

/// Two texts with the same encoding are the same text.
pub proof fn lemma_encode_injective(a: Seq<char>, b: Seq<char>)
    requires
        encode_utf8(a) == encode_utf8(b),
    ensures
        a == b,
{
    encode_utf8_decode_utf8(a);
    encode_utf8_decode_utf8(b);
}

/// Every character occupies between one and four bytes, so the offset of the
/// next character lies that far behind the offset of this one.
pub proof fn lemma_offset_step(chars: Seq<char>, k: int)
    requires
        0 <= k < chars.len(),
    ensures
        byte_offset(chars, k + 1) == byte_offset(chars, k) + encode_scalar(chars[k] as u32).len(),
        byte_offset(chars, k) < byte_offset(chars, k + 1) <= byte_offset(chars, k) + 4,
{
    let head = chars.take(k);
    let one = seq![chars[k]];
    assert(chars.take(k + 1) == head + one);
    lemma_encode_concat(head, one);
    assert(one.drop_first() == Seq::<char>::empty());
    reveal_with_fuel(encode_utf8, 2);
    assert(encode_utf8(one) == encode_scalar(chars[k] as u32));
}

/// Offsets grow by at least one byte per character.
proof fn lemma_offset_grows(chars: Seq<char>, i: int, j: int)
    requires
        0 <= i <= j <= chars.len(),
    ensures
        byte_offset(chars, i) + (j - i) <= byte_offset(chars, j),
    decreases j - i,
{
    if i < j {
        lemma_offset_grows(chars, i, j - 1);
        lemma_offset_step(chars, j - 1);
    }
}

/// Offsets start at zero, end at the length of the encoding and grow with the
/// character position.
pub proof fn lemma_offset_monotonic(chars: Seq<char>, i: int, j: int)
    requires
        0 <= i <= j <= chars.len(),
    ensures
        byte_offset(chars, 0) == 0,
        byte_offset(chars, chars.len() as int) == encode_utf8(chars).len(),
        byte_offset(chars, i) + (j - i) <= byte_offset(chars, j),
        byte_offset(chars, j) <= encode_utf8(chars).len(),
{
    assert(chars.take(0) == Seq::<char>::empty());
    assert(chars.take(chars.len() as int) == chars);
    lemma_offset_grows(chars, i, j);
    lemma_offset_grows(chars, j, chars.len() as int);
}

/// Dropping the first character shifts every later offset by its width.
proof fn lemma_offset_drop_first(chars: Seq<char>, k: int)
    requires
        0 < k <= chars.len(),
    ensures
        byte_offset(chars, k) == encode_scalar(chars[0] as u32).len() + byte_offset(
            chars.drop_first(),
            k - 1,
        ),
        pop_first_scalar(encode_utf8(chars)) == encode_utf8(chars.drop_first()),
        length_of_first_scalar(encode_utf8(chars)) == encode_scalar(chars[0] as u32).len(),
        1 <= encode_scalar(chars[0] as u32).len() <= 4,
{
    assert(chars.take(k).drop_first() == chars.drop_first().take(k - 1));
    assert(chars.take(k)[0] == chars[0]);
    encode_utf8_first_scalar(chars);
    assert(pop_first_scalar(encode_utf8(chars)) == encode_utf8(chars.drop_first()));
}

/// The offset of every character, and the end of the text, is a character
/// boundary of the encoding.
pub proof fn lemma_offset_is_boundary(chars: Seq<char>, k: int)
    requires
        0 <= k <= chars.len(),
    ensures
        is_char_boundary(encode_utf8(chars), byte_offset(chars, k)),
    decreases chars.len(),
{
    encode_utf8_valid_utf8(chars);
    if k == 0 {
        lemma_offset_monotonic(chars, 0, 0);
    } else {
        lemma_offset_drop_first(chars, k);
        lemma_offset_is_boundary(chars.drop_first(), k - 1);
        lemma_offset_monotonic(chars, k, k);
    }
}

/// Every character boundary of the encoding is the offset of a character, or
/// the end of the text.
pub proof fn lemma_boundary_is_offset(chars: Seq<char>, index: int) -> (k: int)
    requires
        is_char_boundary(encode_utf8(chars), index),
    ensures
        0 <= k <= chars.len(),
        byte_offset(chars, k) == index,
    decreases chars.len(),
{
    encode_utf8_valid_utf8(chars);
    if index == 0 {
        lemma_offset_monotonic(chars, 0, 0);
        0
    } else if chars.len() == 0 {
        0
    } else {
        lemma_offset_drop_first(chars, 1);
        let rest = chars.drop_first();
        let width = encode_scalar(chars[0] as u32).len() as int;
        encode_utf8_valid_utf8(rest);
        let k = lemma_boundary_is_offset(rest, index - width);
        lemma_offset_drop_first(chars, k + 1);
        k + 1
    }
}

/// The bytes between the offsets of two characters encode the characters
/// between them.
pub proof fn lemma_encode_subrange(chars: Seq<char>, i: int, j: int)
    requires
        0 <= i <= j <= chars.len(),
    ensures
        encode_utf8(chars).subrange(byte_offset(chars, i), byte_offset(chars, j)) == encode_utf8(
            chars.subrange(i, j),
        ),
{
    let a = chars.take(i);
    let b = chars.subrange(i, j);
    let c = chars.skip(j);
    assert(chars.take(j) == a + b);
    assert(chars == chars.take(j) + c);
    lemma_encode_concat(a, b);
    lemma_encode_concat(chars.take(j), c);
    assert((encode_utf8(a) + encode_utf8(b) + encode_utf8(c)).subrange(
        encode_utf8(a).len() as int,
        (encode_utf8(a) + encode_utf8(b)).len() as int,
    ) == encode_utf8(b));
}

/// The length in bytes of the encoding of `s`.
pub fn byte_len(s: &str) -> (n: usize)
    ensures
        n == encode_utf8(s@).len(),
{
    s.as_bytes().len()
}

/// The byte offset of every character of `s`, in ascending order: one entry
/// per character, the offset at which that character begins.
pub fn char_offsets(s: &str) -> (offsets: Vec<usize>)
    ensures
        offsets@ == byte_offsets(s@),
{
    let n = byte_len(s);
    let mut offsets: Vec<usize> = Vec::new();
    let mut i: usize = 0;
    proof {
        lemma_offset_monotonic(s@, 0, 0);
    }
    while i < n
        invariant
            n == encode_utf8(s@).len(),
            i <= n,
            offsets@.len() <= s@.len(),
            forall|k: int| 0 <= k < offsets@.len() ==> offsets@[k] == byte_offset(s@, k),
            offsets@.len() > 0 ==> offsets@[offsets@.len() - 1] < i,
            i <= byte_offset(s@, offsets@.len() as int),
        decreases n - i,
    {
        let ghost found = offsets@.len() as int;
        if s.is_char_boundary(i) {
            proof {
                // `i` is the offset of some character; it can only be the next one
                let k = lemma_boundary_is_offset(s@, i as int);
                if k < found {
                    lemma_offset_monotonic(s@, k, found - 1);
                }
                if k > found {
                    lemma_offset_monotonic(s@, found + 1, k);
                    lemma_offset_step(s@, found);
                }
                lemma_offset_monotonic(s@, found, found);
                lemma_offset_step(s@, found);
            }
            offsets.push(i);
        } else {
            proof {
                lemma_offset_is_boundary(s@, found);
            }
        }
        i += 1;
    }
    proof {
        let found = offsets@.len() as int;
        if found < s@.len() {
            lemma_offset_monotonic(s@, found, found + 1);
            lemma_offset_step(s@, found);
            lemma_offset_monotonic(s@, found + 1, s@.len() as int);
        }
        assert(offsets@ =~= byte_offsets(s@));
    }
    offsets
}

/// The part of `s` between the byte offsets `from` and `to`, as a view into
/// the storage of `s`. Both offsets must be character boundaries.
pub fn slice<'a>(s: &'a str, from: usize, to: usize) -> (part: &'a str)
    requires
        from <= to <= encode_utf8(s@).len(),
        is_char_boundary(encode_utf8(s@), from as int),
        is_char_boundary(encode_utf8(s@), to as int),
    ensures
        encode_utf8(part@) == encode_utf8(s@).subrange(from as int, to as int),
        part@ == decode_utf8(encode_utf8(s@).subrange(from as int, to as int)),
{
    let ghost bytes = encode_utf8(s@);
    let (_, tail) = s.split_at(from);
    proof {
        let i = lemma_boundary_is_offset(s@, from as int);
        let j = lemma_boundary_is_offset(s@, to as int);
        lemma_offset_monotonic(s@, 0, i);
        if j < i {
            lemma_offset_monotonic(s@, j, i);
        }
        lemma_offset_monotonic(s@, i, s@.len() as int);
        lemma_encode_subrange(s@, i, s@.len() as int);
        assert(s@.subrange(i, s@.len() as int) == s@.skip(i));
        lemma_encode_injective(tail@, s@.skip(i));
        lemma_encode_subrange(s@.skip(i), 0, j - i);
        lemma_encode_subrange(s@, i, j);
        assert(s@.skip(i).subrange(0, j - i) == s@.subrange(i, j));
        lemma_offset_monotonic(s@.skip(i), 0, j - i);
        assert(byte_offset(s@.skip(i), j - i) == to - from) by {
            assert(encode_utf8(s@.skip(i)).subrange(0, byte_offset(s@.skip(i), j - i)).len()
                == byte_offset(s@.skip(i), j - i));
            assert(bytes.subrange(from as int, to as int).len() == to - from);
        }
        lemma_offset_is_boundary(s@.skip(i), j - i);
    }
    let (part, _) = tail.split_at(to - from);
    proof {
        assert(encode_utf8(part@) == bytes.subrange(from as int, to as int));
        encode_utf8_decode_utf8(part@);
    }
    part
}

/// The characters of `s` from position `from` up to position `to`, as a view
/// into the storage of `s`. `offsets` holds the byte offset of every character
/// of `s`.
pub fn substring<'a>(s: &'a str, offsets: &Vec<usize>, from: usize, to: usize) -> (part: &'a str)
    requires
        offsets@ == byte_offsets(s@),
        from <= to <= s@.len(),
    ensures
        part@ == s@.subrange(from as int, to as int),
{
    let length = byte_len(s);
    proof {
        lemma_offset_monotonic(s@, from as int, to as int);
        lemma_offset_is_boundary(s@, from as int);
        lemma_offset_is_boundary(s@, to as int);
        lemma_encode_subrange(s@, from as int, to as int);
        encode_utf8_decode_utf8(s@.subrange(from as int, to as int));
    }
    let first = if from == offsets.len() {
        length
    } else {
        offsets[from]
    };
    let end = if to == offsets.len() {
        length
    } else {
        offsets[to]
    };
    slice(s, first, end)
}

} // verus!
