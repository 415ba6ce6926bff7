//! Byte offsets into a string and the character positions that they stand for.
//!
//! A string is stored in UTF-8, so an offset counted in bytes marks a position
//! between two characters only if a character ends there.

use vstd::prelude::*;
use vstd::utf8::*;

verus! {

/// The byte offset at which the character number `i` of a text begins: the
/// length of the UTF-8 encoding of the characters before it.
pub open spec fn byte_offset(s: Seq<char>, i: int) -> int {
    encode_utf8(s.take(i)).len() as int
}

/// Whether a byte offset falls on the boundary before character number `i`.
pub open spec fn falls_on(s: Seq<char>, offset: int, i: int) -> bool {
    0 <= i <= s.len() && byte_offset(s, i) == offset
}

/// The character position of a byte offset, if a character begins or the text
/// ends there.
pub open spec fn char_position(s: Seq<char>, offset: int) -> Option<int> {
    if exists|i: int| falls_on(s, offset, i) {
        Some(choose|i: int| falls_on(s, offset, i))
    } else {
        None
    }
}

/// The UTF-8 encoding of two texts one after the other.
pub proof fn lemma_encode_concat(a: Seq<char>, b: Seq<char>)
    ensures
        encode_utf8(a + b) == encode_utf8(a) + encode_utf8(b),
    decreases a.len(),
{
    if a.len() == 0 {
        assert(a + b =~= b);
        assert(encode_utf8(a) + encode_utf8(b) =~= encode_utf8(b));
    } else {
        assert((a + b).drop_first() =~= a.drop_first() + b);
        lemma_encode_concat(a.drop_first(), b);
        assert(encode_utf8(a + b) =~= encode_utf8(a) + encode_utf8(b));
    }
}

/// A character takes up between one and four bytes.
pub proof fn lemma_byte_offset_step(s: Seq<char>, i: int)
    requires
        0 <= i < s.len(),
    ensures
        byte_offset(s, i + 1) == byte_offset(s, i) + encode_scalar(s[i] as u32).len(),
        byte_offset(s, i) < byte_offset(s, i + 1) <= byte_offset(s, i) + 4,
{
    let one = seq![s[i]];
    assert(s.take(i + 1) =~= s.take(i) + one);
    lemma_encode_concat(s.take(i), one);
    assert(one.drop_first() =~= Seq::<char>::empty());
    reveal_with_fuel(encode_utf8, 2);
    assert(encode_utf8(one) =~= encode_scalar(s[i] as u32));
}

/// Later characters begin at greater byte offsets, and no offset exceeds the
/// length of the text in bytes.
pub proof fn lemma_byte_offset_monotonic(s: Seq<char>, i: int, j: int)
    requires
        0 <= i <= j <= s.len(),
    ensures
        i < j ==> byte_offset(s, i) < byte_offset(s, j),
        byte_offset(s, j) <= encode_utf8(s).len(),
    decreases j - i,
{
    if i < j {
        lemma_byte_offset_step(s, j - 1);
        lemma_byte_offset_monotonic(s, i, j - 1);
    }
    assert(s =~= s.take(j) + s.skip(j));
    lemma_encode_concat(s.take(j), s.skip(j));
}

/// A byte offset stands for at most one character position.
pub proof fn lemma_char_position(s: Seq<char>, offset: int, i: int)
    requires
        falls_on(s, offset, i),
    ensures
        char_position(s, offset) == Some(i),
{
    let k = choose|k: int| falls_on(s, offset, k);
    assert(falls_on(s, offset, k));
    if k < i {
        lemma_byte_offset_monotonic(s, k, i);
    } else {
        lemma_byte_offset_monotonic(s, i, k);
    }
}

/// The number of bytes that a character takes up in UTF-8.
fn utf8_width(c: char) -> (width: usize)
    ensures
        width == encode_scalar(c as u32).len(),
{
    let code: u32 = c as u32;
    if code < 0x80 {
        1
    } else if code < 0x800 {
        2
    } else if code < 0x10000 {
        3
    } else {
        4
    }
}

/// The byte offset of a character position.
pub fn to_byte_offset(text: &str, chars: &[char], position: usize) -> (offset: usize)
    requires
        chars@ == text@,
        position <= chars@.len(),
    ensures
        offset == byte_offset(text@, position as int),
{
    let bytes = text.as_bytes();
    let total: usize = bytes.len();
    let mut offset: usize = 0;
    assert(text@.take(0) =~= Seq::<char>::empty());
    for i in 0..position
        invariant
            chars@ == text@,
            position <= chars@.len(),
            total == encode_utf8(text@).len(),
            offset == byte_offset(text@, i as int),
    {
        proof {
            lemma_byte_offset_step(text@, i as int);
            lemma_byte_offset_monotonic(text@, 0, i + 1);
        }
        offset += utf8_width(chars[i]);
    }
    offset
}

/// The character position of a byte offset.
pub fn to_char_position(text: &str, chars: &[char], offset: usize) -> (position: Option<usize>)
    requires
        chars@ == text@,
    ensures
        match position {
            Some(i) => {
                &&& i <= chars@.len()
                &&& char_position(text@, offset as int) == Some(i as int)
            },
            None => char_position(text@, offset as int) is None,
        },
{
    let bytes = text.as_bytes();
    let total: usize = bytes.len();
    let mut reached: usize = 0;
    let mut i: usize = 0;
    assert(text@.take(0) =~= Seq::<char>::empty());
    while reached < offset && i < chars.len()
        invariant
            chars@ == text@,
            i <= chars@.len(),
            total == encode_utf8(text@).len(),
            reached == byte_offset(text@, i as int),
            forall|k: int| 0 <= k < i ==> #[trigger] byte_offset(text@, k) < offset,
        decreases chars@.len() - i,
    {
        proof {
            lemma_byte_offset_step(text@, i as int);
            lemma_byte_offset_monotonic(text@, 0, i + 1);
        }
        reached += utf8_width(chars[i]);
        i += 1;
    }
    if reached == offset {
        proof {
            assert(falls_on(text@, offset as int, i as int));
            lemma_char_position(text@, offset as int, i as int);
        }
        Some(i)
    } else {
        proof {
            assert forall|k: int| !falls_on(text@, offset as int, k) by {
                if 0 <= k <= text@.len() {
                    if k < i {
                        assert(byte_offset(text@, k) < offset);
                    } else {
                        lemma_byte_offset_monotonic(text@, i as int, k);
                    }
                }
            }
        }
        None
    }
}

} // verus!
