//! Byte-level text facts the codec relies on: stripping the null padding out
//! of a name field, and how UTF-8 validity behaves under concatenation,
//! ASCII runs, and null stripping.
use vstd::prelude::*;
use vstd::utf8::decode_utf8_first_scalar;
use vstd::utf8::encode_scalar;
use vstd::utf8::encode_utf8;
use vstd::utf8::encode_utf8_valid_utf8;
use vstd::utf8::is_continuation_byte;
use vstd::utf8::is_leading_byte_width_1;
use vstd::utf8::length_of_first_scalar;
use vstd::utf8::pop_first_scalar;
use vstd::utf8::take_first_scalar;
use vstd::utf8::valid_first_scalar;
use vstd::utf8::valid_utf8;
use vstd::utf8::valid_utf8_concat;

verus! {

/// The sequence with every zero byte removed, other bytes kept in order.
pub open spec fn strip_zeros(s: Seq<u8>) -> Seq<u8>
    decreases s.len(),
{
    if s.len() == 0 {
        seq![]
    } else if s[0] == 0 {
        strip_zeros(s.drop_first())
    } else {
        seq![s[0]] + strip_zeros(s.drop_first())
    }
}

/// Law: stripping zero bytes distributes over concatenation.
pub proof fn lemma_strip_zeros_concat(a: Seq<u8>, b: Seq<u8>)
    ensures
        strip_zeros(a + b) == strip_zeros(a) + strip_zeros(b),
    decreases a.len(),
{
    if a.len() == 0 {
        assert(a + b =~= b);
        assert(strip_zeros(a) + strip_zeros(b) =~= strip_zeros(b));
    } else {
        assert((a + b).drop_first() =~= a.drop_first() + b);
        assert((a + b)[0] == a[0]);
        lemma_strip_zeros_concat(a.drop_first(), b);
        if a[0] != 0 {
            assert(seq![a[0]] + (strip_zeros(a.drop_first()) + strip_zeros(b)) =~= (seq![a[0]]
                + strip_zeros(a.drop_first())) + strip_zeros(b));
        }
    }
}

/// Law: a sequence without zero bytes is unchanged by stripping.
pub proof fn lemma_strip_zeros_id(s: Seq<u8>)
    requires
        forall|i: int| 0 <= i < s.len() ==> s[i] != 0,
    ensures
        strip_zeros(s) == s,
    decreases s.len(),
{
    if s.len() != 0 {
        lemma_strip_zeros_id(s.drop_first());
        assert(seq![s[0]] + s.drop_first() =~= s);
    }
}

/// Law: a sequence of zero bytes strips to the empty sequence.
pub proof fn lemma_strip_zeros_all_zero(s: Seq<u8>)
    requires
        forall|i: int| 0 <= i < s.len() ==> s[i] == 0,
    ensures
        strip_zeros(s) == Seq::<u8>::empty(),
    decreases s.len(),
{
    if s.len() != 0 {
        lemma_strip_zeros_all_zero(s.drop_first());
    }
}

/// Law: a run of bytes below 0x80 is valid UTF-8.
pub proof fn lemma_ascii_valid_utf8(s: Seq<u8>)
    requires
        forall|i: int| 0 <= i < s.len() ==> s[i] < 0x80,
    ensures
        valid_utf8(s),
    decreases s.len(),
{
    if s.len() != 0 {
        let b = s[0];
        assert(is_leading_byte_width_1(b));
        assert(b & 0x7f == b) by (bit_vector)
            requires
                b < 0x80,
        ;
        assert(length_of_first_scalar(s) == 1);
        assert(pop_first_scalar(s) =~= s.drop_first());
        lemma_ascii_valid_utf8(s.drop_first());
    }
}

/// Law: UTF-8 encoding distributes over concatenation of character sequences.
pub proof fn lemma_encode_utf8_concat(a: Seq<char>, b: Seq<char>)
    ensures
        encode_utf8(a + b) == encode_utf8(a) + encode_utf8(b),
    decreases a.len(),
{
    if a.len() == 0 {
        assert(a + b =~= b);
        assert(encode_utf8(a) + encode_utf8(b) =~= encode_utf8(b));
    } else {
        assert((a + b).drop_first() =~= a.drop_first() + b);
        assert((a + b)[0] == a[0]);
        lemma_encode_utf8_concat(a.drop_first(), b);
        assert(encode_scalar(a[0] as u32) + (encode_utf8(a.drop_first()) + encode_utf8(b)) =~= (
        encode_scalar(a[0] as u32) + encode_utf8(a.drop_first())) + encode_utf8(b));
    }
}

/// Law: stripping the zero bytes out of a valid UTF-8 sequence leaves a valid
/// UTF-8 sequence (a zero byte only ever encodes the null scalar on its own).
pub proof fn lemma_strip_zeros_valid_utf8(s: Seq<u8>)
    requires
        valid_utf8(s),
    ensures
        valid_utf8(strip_zeros(s)),
    decreases s.len(),
{
    if s.len() != 0 {
        let k = length_of_first_scalar(s);
        let head = take_first_scalar(s);
        let tail = pop_first_scalar(s);
        assert(1 <= k <= s.len());
        lemma_strip_zeros_valid_utf8(tail);
        assert(s =~= head + tail);
        lemma_strip_zeros_concat(head, tail);
        if s[0] == 0 {
            assert(k == 1);
            assert forall|i: int| 0 <= i < head.len() implies head[i] == 0 by {
                assert(head[i] == s[i]);
            }
            lemma_strip_zeros_all_zero(head);
            assert(strip_zeros(s) =~= strip_zeros(tail));
        } else {
            assert forall|i: int| 0 <= i < head.len() implies head[i] != 0 by {
                assert(head[i] == s[i]);
                if i > 0 {
                    assert(is_continuation_byte(s[i]));
                }
            }
            lemma_strip_zeros_id(head);
            decode_utf8_first_scalar(s);
            let c = vstd::utf8::decode_first_scalar(s) as char;
            assert(encode_utf8(seq![c]) =~= encode_scalar(c as u32)) by {
                assert(seq![c][0] == c);
                assert(seq![c].drop_first() =~= Seq::<char>::empty());
                assert(encode_utf8(Seq::<char>::empty()) =~= Seq::<u8>::empty());
                assert(encode_scalar(c as u32) + Seq::<u8>::empty() =~= encode_scalar(c as u32));
            }
            encode_utf8_valid_utf8(seq![c]);
            assert(valid_utf8(head));
            valid_utf8_concat(head, strip_zeros(tail));
            assert(strip_zeros(s) =~= head + strip_zeros(tail));
        }
    }
}

} // verus!
