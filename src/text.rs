use vstd::prelude::*;
use vstd::utf8::{encode_utf8, encode_scalar, is_char_boundary, char_is_scalar};

verus! {

/// Longest query, in characters, whose UTF-8 length still fits in a `usize`.
pub const MAX_TEXT_CHARS: usize = usize::MAX / 4;

/// Relies on `String`'s `FromIterator<char>`: the string holds the characters in order.
#[verifier::external_body]
pub(crate) fn text_of(chars: &Vec<char>) -> (r: String)
    ensures
        r@ == chars@,
{
    chars.iter().collect()
}

/// Number of bytes of the UTF-8 encoding of `c`.
pub fn utf8_width(c: char) -> (r: usize)
    ensures
        r == encode_scalar(c as u32).len(),
        1 <= r <= 4,
{
    proof {
        char_is_scalar(c);
    }
    let u = c as u32;
    if u <= 0x7f {
        1
    } else if u <= 0x7ff {
        2
    } else if u <= 0xffff {
        3
    } else {
        4
    }
}

proof fn lemma_encode_concat(a: Seq<char>, b: Seq<char>)
    ensures
        encode_utf8(a + b) == encode_utf8(a) + encode_utf8(b),
    decreases a.len(),
{
    if a.len() == 0 {
        assert(a + b =~= b);
        assert(encode_utf8(a) + encode_utf8(b) =~= encode_utf8(b));
    } else {
        assert((a + b).drop_first() =~= a.drop_first() + b);
        assert((a + b)[0] == a[0]);
        lemma_encode_concat(a.drop_first(), b);
        assert(encode_utf8(a + b) =~= encode_utf8(a) + encode_utf8(b));
    }
}

proof fn lemma_encode_len_bound(s: Seq<char>)
    ensures
        encode_utf8(s).len() <= 4 * s.len(),
    decreases s.len(),
{
    if s.len() > 0 {
        char_is_scalar(s[0]);
        lemma_encode_len_bound(s.drop_first());
    }
}

/// Byte offset of character position `k` in the UTF-8 encoding of `chars`
/// (the end of the text where `k` is past it).
pub fn byte_offset(chars: &Vec<char>, k: usize) -> (r: usize)
    requires
        chars.len() <= MAX_TEXT_CHARS,
    ensures
        k <= chars.len() ==> r == encode_utf8(chars@.take(k as int)).len(),
        k > chars.len() ==> r == encode_utf8(chars@).len(),
{
    let mut sum: usize = 0;
    let mut i: usize = 0;
    while i < k && i < chars.len()
        invariant
            chars.len() <= MAX_TEXT_CHARS,
            i <= chars.len(),
            i <= k,
            sum == encode_utf8(chars@.take(i as int)).len(),
        decreases chars.len() - i,
    {
        let w = utf8_width(chars[i]);
        proof {
            let c = chars@[i as int];
            assert(chars@.take(i + 1) =~= chars@.take(i as int) + seq![c]);
            lemma_encode_concat(chars@.take(i as int), seq![c]);
            assert(seq![c].drop_first() =~= Seq::<char>::empty());
            assert(encode_utf8(Seq::<char>::empty()) =~= Seq::<u8>::empty());
            assert(seq![c][0] == c);
            assert(encode_utf8(seq![c]) =~= encode_scalar(c as u32));
            lemma_encode_len_bound(chars@.take(i + 1));
        }
        sum = sum + w;
        i += 1;
    }
    assert(i == chars.len() ==> chars@.take(i as int) =~= chars@);
    sum
}

proof fn lemma_prefix_boundary(s: Seq<char>, k: int)
    requires
        0 <= k <= s.len(),
    ensures
        is_char_boundary(encode_utf8(s), encode_utf8(s.take(k)).len() as int),
        encode_utf8(s.take(k)).len() <= encode_utf8(s).len(),
    decreases k,
{
    let bytes = encode_utf8(s);
    assert(s =~= s.take(k) + s.skip(k));
    lemma_encode_concat(s.take(k), s.skip(k));
    if k > 0 {
        vstd::utf8::encode_utf8_first_scalar(s);
        vstd::utf8::encode_utf8_valid_utf8(s);
        let t = s.drop_first();
        assert(vstd::utf8::pop_first_scalar(bytes) =~= encode_utf8(t));
        lemma_prefix_boundary(t, k - 1);
        assert(s.take(k).drop_first() =~= t.take(k - 1));
        assert(s.take(k)[0] == s[0]);
        assert(encode_utf8(s.take(k)).len() == encode_scalar(s[0] as u32).len() + encode_utf8(
            t.take(k - 1),
        ).len());
        char_is_scalar(s[0]);
        let idx = encode_utf8(s.take(k)).len() as int;
        assert(idx > 0);
        assert(idx <= bytes.len());
        assert(vstd::utf8::length_of_first_scalar(bytes) == encode_scalar(s[0] as u32).len());
        assert(is_char_boundary(encode_utf8(t), idx - vstd::utf8::length_of_first_scalar(bytes)));
        assert(is_char_boundary(bytes, idx));
    } else {
        vstd::utf8::encode_utf8_valid_utf8(s);
        assert(s.take(0) =~= Seq::<char>::empty());
        assert(is_char_boundary(bytes, 0));
    }
}

/// A character position always maps to a character boundary of the encoded
/// text: inserting there never splits a character.
pub proof fn lemma_byte_offset_on_boundary(s: Seq<char>, k: int)
    requires
        0 <= k <= s.len(),
    ensures
        is_char_boundary(encode_utf8(s), encode_utf8(s.take(k)).len() as int),
{
    lemma_prefix_boundary(s, k);
}

} // verus!
