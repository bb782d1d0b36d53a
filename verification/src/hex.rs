//! The fixed-width hexadecimal header fields of a record: a `u32` is written
//! as exactly eight hex digit bytes, zero-padded, most significant digit
//! first, lowercase; reading accepts either case.
use vstd::prelude::*;

verus! {

/// The ASCII byte of one hex digit value below 16, lowercase.
pub open spec fn hex_digit_byte(d: u8) -> u8
    recommends
        d < 16,
{
    if d < 10 {
        (48 + d) as u8
    } else {
        (87 + d) as u8
    }
}

/// The value of one ASCII byte read as a hex digit; `None` when it is not one.
pub open spec fn hex_val(b: u8) -> Option<u8> {
    if 48 <= b && b <= 57 {
        Some((b - 48) as u8)
    } else if 97 <= b && b <= 102 {
        Some((b - 87) as u8)
    } else if 65 <= b && b <= 70 {
        Some((b - 55) as u8)
    } else {
        None
    }
}

/// The i-th nibble of `v`, most significant first, as a digit value below 16.
pub open spec fn nibble(v: u32, i: int) -> u8
    recommends
        0 <= i < 8,
{
    ((v >> (((7 - i) * 4) as u32)) & 0xf) as u8
}

/// A `u32` as eight lowercase hex digit bytes, zero-padded, most significant
/// digit first.
pub open spec fn hex8(v: u32) -> Seq<u8> {
    Seq::new(8, |i: int| hex_digit_byte(nibble(v, i)))
}

/// The `u32` read from eight hex digit bytes, most significant digit first;
/// `None` when some byte is not a hex digit.
pub open spec fn parse_hex8(s: Seq<u8>) -> Option<u32>
    recommends
        s.len() == 8,
{
    if forall|i: int| 0 <= i < 8 ==> hex_val(#[trigger] s[i]) is Some {
        Some(
            ((hex_val(s[0]).unwrap() as u32) << 28) | ((hex_val(s[1]).unwrap() as u32) << 24) | (
            (hex_val(s[2]).unwrap() as u32) << 20) | ((hex_val(s[3]).unwrap() as u32) << 16) | (
            (hex_val(s[4]).unwrap() as u32) << 12) | ((hex_val(s[5]).unwrap() as u32) << 8) | (
            (hex_val(s[6]).unwrap() as u32) << 4) | (hex_val(s[7]).unwrap() as u32),
        )
    } else {
        None
    }
}

/// Appends the eight hex digits of `v` to `out`.
pub fn push_hex8(out: &mut Vec<u8>, v: u32)
    ensures
        final(out)@ == old(out)@ + hex8(v),
{
    let mut k: usize = 0;
    while k < 8
        invariant
            k <= 8,
            out@ == old(out)@ + hex8(v).take(k as int),
        decreases 8 - k,
    {
        let shift: u32 = (7 - k as u32) * 4;
        let d: u8 = ((v >> shift) & 0xf) as u8;
        assert((v >> shift) & 0xf < 16) by (bit_vector);
        let b: u8 = if d < 10 {
            48 + d
        } else {
            87 + d
        };
        proof {
            assert(d == nibble(v, k as int));
            assert(b == hex_digit_byte(nibble(v, k as int)));
            assert(hex8(v).take(k as int + 1) =~= hex8(v).take(k as int) + seq![b]);
        }
        out.push(b);
        k += 1;
    }
    proof {
        assert(hex8(v).take(8) =~= hex8(v));
    }
}

/// The value of one ASCII byte read as a hex digit; `None` when it is not one.
pub fn hex_val_of(b: u8) -> (r: Option<u8>)
    ensures
        r == hex_val(b),
{
    if 48 <= b && b <= 57 {
        Some(b - 48)
    } else if 97 <= b && b <= 102 {
        Some(b - 87)
    } else if 65 <= b && b <= 70 {
        Some(b - 55)
    } else {
        None
    }
}

/// Reads the eight-digit hex field that starts at `off` in `data`.
pub fn parse_hex_field(data: &Vec<u8>, off: usize) -> (r: Option<u32>)
    requires
        off + 8 <= data@.len(),
    ensures
        r == parse_hex8(data@.subrange(off as int, off as int + 8)),
{
    let ghost s = data@.subrange(off as int, off as int + 8);
    let n: usize = data.len();
    let mut digits: [u8; 8] = [0; 8];
    let mut k: usize = 0;
    let mut ok: bool = true;
    while k < 8
        invariant
            k <= 8,
            n == data@.len(),
            off + 8 <= n,
            s == data@.subrange(off as int, off as int + 8),
            ok ==> forall|i: int|
                0 <= i < k ==> hex_val(#[trigger] s[i]) == Some(digits@[i]),
            !ok ==> exists|i: int| 0 <= i < k && hex_val(#[trigger] s[i]) is None,
        decreases 8 - k,
    {
        match hex_val_of(data[off + k]) {
            Some(d) => {
                digits[k] = d;
                proof {
                    assert(s[k as int] == data@[off + k]);
                }
            },
            None => {
                proof {
                    assert(s[k as int] == data@[off + k]);
                    assert(hex_val(s[k as int]) is None);
                }
                ok = false;
            },
        }
        k += 1;
    }
    if !ok {
        proof {
            assert(parse_hex8(s) is None);
        }
        return None;
    }
    let r: u32 = ((digits[0] as u32) << 28) | ((digits[1] as u32) << 24) | ((digits[2] as u32)
        << 20) | ((digits[3] as u32) << 16) | ((digits[4] as u32) << 12) | ((digits[5] as u32)
        << 8) | ((digits[6] as u32) << 4) | (digits[7] as u32);
    proof {
        assert(forall|i: int| 0 <= i < 8 ==> hex_val(#[trigger] s[i]) is Some);
    }
    Some(r)
}

/// Law: a hex digit byte reads back as the digit value it was written from.
pub proof fn lemma_hex_val_of_digit(d: u8)
    requires
        d < 16,
    ensures
        hex_val(hex_digit_byte(d)) == Some(d),
{
}

/// Law: every byte of an eight-digit hex field is a printable ASCII byte.
pub proof fn lemma_hex8_ascii(v: u32)
    ensures
        forall|i: int| 0 <= i < 8 ==> #[trigger] hex8(v)[i] < 0x80,
{
    assert forall|i: int| 0 <= i < 8 implies #[trigger] hex8(v)[i] < 0x80 by {
        let sh = ((7 - i) * 4) as u32;
        assert((v >> sh) & 0xf < 16) by (bit_vector);
    }
}

/// Law: the eight-digit hex form of any `u32` parses back to exactly that
/// value.
pub proof fn lemma_hex8_round_trip(v: u32)
    ensures
        parse_hex8(hex8(v)) == Some(v),
{
    let s = hex8(v);
    assert forall|i: int| 0 <= i < 8 implies hex_val(#[trigger] s[i]) == Some(nibble(v, i)) by {
        let sh = ((7 - i) * 4) as u32;
        assert((v >> sh) & 0xf < 16) by (bit_vector);
        lemma_hex_val_of_digit(nibble(v, i));
    }
    assert(((((v >> 28) & 0xf) as u8 as u32) << 28) | ((((v >> 24) & 0xf) as u8 as u32) << 24) | ((
    ((v >> 20) & 0xf) as u8 as u32) << 20) | ((((v >> 16) & 0xf) as u8 as u32) << 16) | ((((v
        >> 12) & 0xf) as u8 as u32) << 12) | ((((v >> 8) & 0xf) as u8 as u32) << 8) | ((((v >> 4)
        & 0xf) as u8 as u32) << 4) | (((v >> 0) & 0xf) as u8 as u32) == v) by (bit_vector);
    assert(nibble(v, 7) == ((v >> 0) & 0xf) as u8);
}

} // verus!
