//! Text: characters of a string by position, and the places of characters in
//! the string's UTF-8 form.

use vstd::prelude::*;
use vstd::utf8::encode_scalar;
use vstd::utf8::encode_utf8;

verus! {

/// `String::push`: the character is appended to the end of the string.
pub assume_specification[ std::string::String::push ](s: &mut std::string::String, c: char)
    ensures
        final(s)@ == old(s)@.push(c),
;

/// The characters of a string, one by one.
pub fn chars_of(s: &str) -> (v: Vec<char>)
    ensures
        v@ == s@,
{
    let mut v: Vec<char> = Vec::new();
    for c in it: s.chars()
        invariant
            v@ == it.seq().take(it.index() as int),
            it.seq() == s@,
    {
        v.push(c);
    }
    v
}

/// A word without its last character, and that character as a word.
pub fn split_last_char(w: &str) -> (r: (String, String))
    requires
        w@.len() >= 1,
    ensures
        r.0@ == w@.drop_last(),
        r.1@ == seq![w@.last()],
{
    let chars = chars_of(w);
    let mut head = String::new();
    let mut i: usize = 0;
    while i + 1 < chars.len()
        invariant
            chars@ == w@,
            i + 1 <= chars.len(),
            head@ == w@.take(i as int),
        decreases chars.len() - i,
    {
        head.push(chars[i]);
        assert(w@.take(i as int).push(w@[i as int]) =~= w@.take(i + 1));
        i += 1;
    }
    assert(w@.take(i as int) =~= w@.drop_last());
    let mut tail = String::new();
    tail.push(chars[chars.len() - 1]);
    assert(tail@ =~= seq![w@.last()]);
    (head, tail)
}

/// The number of bytes that a character takes in UTF-8.
pub open spec fn char_width(c: char) -> int {
    encode_scalar(c as u32).len() as int
}

/// The offset, in the bytes of the UTF-8 form of `s`, at which the character
/// with index `i` begins; for `i == s.len()`, the length of that form.
pub open spec fn byte_offset(s: Seq<char>, i: int) -> int {
    encode_utf8(s.take(i)).len() as int
}

pub proof fn lemma_encode_push(a: Seq<char>, c: char)
    ensures
        encode_utf8(a.push(c)) == encode_utf8(a) + encode_scalar(c as u32),
    decreases a.len(),
{
    if a.len() == 0 {
        assert(a.push(c).drop_first() =~= a);
        assert(encode_utf8(a) =~= Seq::<u8>::empty());
        assert(encode_utf8(a.push(c)) =~= encode_scalar(c as u32) + encode_utf8(a.push(c).drop_first()));
        assert(encode_utf8(a.push(c)) =~= encode_utf8(a) + encode_scalar(c as u32));
    } else {
        lemma_encode_push(a.drop_first(), c);
        assert(a.push(c).drop_first() =~= a.drop_first().push(c));
        assert(encode_utf8(a.push(c)) =~= encode_utf8(a) + encode_scalar(c as u32));
    }
}

/// Offsets begin at zero and grow by the width of each character, which is
/// one to four bytes.
pub proof fn lemma_offset_step(s: Seq<char>, i: int)
    requires
        0 <= i < s.len(),
    ensures
        byte_offset(s, 0) == 0,
        byte_offset(s, i + 1) == byte_offset(s, i) + char_width(s[i]),
        1 <= char_width(s[i]) <= 4,
{
    assert(s.take(0) =~= Seq::<char>::empty());
    assert(s.take(i + 1) =~= s.take(i).push(s[i]));
    lemma_encode_push(s.take(i), s[i]);
}

/// Offsets grow with the index.
pub proof fn lemma_offset_monotonic(s: Seq<char>, i: int, j: int)
    requires
        0 <= i <= j <= s.len(),
    ensures
        byte_offset(s, i) + (j - i) <= byte_offset(s, j),
        0 <= byte_offset(s, i),
    decreases j - i,
{
    if i < j {
        lemma_offset_monotonic(s, i, j - 1);
        lemma_offset_step(s, j - 1);
    }
}

/// The number of bytes that a character takes in UTF-8.
pub fn width_of(c: char) -> (w: usize)
    ensures
        w == char_width(c),
{
    let v = c as u32;
    if v <= 0x7F {
        1
    } else if v <= 0x7FF {
        2
    } else if v <= 0xFFFF {
        3
    } else {
        4
    }
}

/// The byte offset of every character of `input`, and behind them the length
/// of `input` in bytes.
pub fn offsets_of(input: &str, chars: &Vec<char>) -> (v: Vec<usize>)
    requires
        chars@ == input@,
    ensures
        v@.len() == chars@.len() + 1,
        forall|i: int| 0 <= i <= chars@.len() ==> v@[i] == #[trigger] byte_offset(input@, i),
        chars@.len() + 1 <= usize::MAX,
{
    let total = input.as_bytes().len();
    let ghost s = input@;
    assert(s.take(s.len() as int) =~= s);
    assert(byte_offset(s, s.len() as int) == total);
    let mut v: Vec<usize> = Vec::new();
    v.push(0);
    assert(s.take(0) =~= Seq::<char>::empty());
    let mut i: usize = 0;
    while i < chars.len()
        invariant
            chars@ == s,
            i <= chars.len(),
            v@.len() == i + 1,
            byte_offset(s, s.len() as int) == total,
            forall|k: int| 0 <= k <= i ==> v@[k] == #[trigger] byte_offset(s, k),
        decreases chars.len() - i,
    {
        proof {
            lemma_offset_step(s, i as int);
            lemma_offset_monotonic(s, i + 1, s.len() as int);
        }
        let next = v[i] + width_of(chars[i]);
        v.push(next);
        i += 1;
    }
    // The table's length is a `usize`, and it is one more than the number of
    // characters.
    let entries = v.len();
    assert(entries == chars@.len() + 1);
    v
}

} // verus!
