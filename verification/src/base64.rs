//! RFC 4648 base64 codec for `!!binary` scalars (YAML 1.2.2 §10.4).
//!
//! Standard alphabet, padding required, ASCII whitespace tolerated by
//! the decoder so multi-line `!!binary` scalars decode without
//! pre-processing.
use vstd::prelude::*;

use crate::text::push_char;
use vstd::string::StringSliceAdditionalSpecFns;

verus! {

// ── Specification ──────────────────────────────────────────────────

/// Bytes the decoder skips: space, tab, carriage return, line feed.
pub open spec fn is_b64_blank(b: u8) -> bool {
    b == 0x20u8 || b == 0x09u8 || b == 0x0du8 || b == 0x0au8
}

/// `s` with every blank byte removed, order kept.
pub open spec fn strip_blanks(s: Seq<u8>) -> Seq<u8>
    decreases s.len(),
{
    if s.len() == 0 {
        Seq::empty()
    } else if is_b64_blank(s.last()) {
        strip_blanks(s.drop_last())
    } else {
        strip_blanks(s.drop_last()).push(s.last())
    }
}

/// Value of a base64 symbol: `0..=63` for the alphabet
/// `A-Z a-z 0-9 + /`, `-2` for the padding `=`, `-1` for anything else.
pub open spec fn symbol_value(b: u8) -> i8 {
    if 0x41u8 <= b && b <= 0x5au8 {
        (b - 0x41u8) as i8
    } else if 0x61u8 <= b && b <= 0x7au8 {
        (b - 0x61u8 + 26) as i8
    } else if 0x30u8 <= b && b <= 0x39u8 {
        (b - 0x30u8 + 52) as i8
    } else if b == 0x2bu8 {
        62i8
    } else if b == 0x2fu8 {
        63i8
    } else if b == 0x3du8 {
        -2i8
    } else {
        -1i8
    }
}

/// The alphabet symbol for a 6-bit value.
pub open spec fn alphabet(v: u32) -> u8
    recommends
        v < 64,
{
    if v < 26 {
        (v + 0x41) as u8
    } else if v < 52 {
        (v - 26 + 0x61) as u8
    } else if v < 62 {
        (v - 52 + 0x30) as u8
    } else if v == 62 {
        0x2bu8
    } else {
        0x2fu8
    }
}

/// Why a decode fails.
pub enum DecodeFailure {
    /// The symbol count (blanks removed) is not a multiple of four.
    Length,
    /// One of the first two symbols of a quartet is not in the alphabet.
    Alphabet,
    /// Padding in a non-final quartet, or a malformed final quartet.
    Padding,
}

/// Message `decode` returns for [`DecodeFailure::Length`].
pub const LENGTH_MESSAGE: &'static str = "base64 length not a multiple of 4 (after stripping whitespace)";

/// Message `decode` returns for [`DecodeFailure::Alphabet`].
pub const ALPHABET_MESSAGE: &'static str = "invalid base64 character (alphabet)";

/// Message `decode` returns for [`DecodeFailure::Padding`].
pub const PADDING_MESSAGE: &'static str = "invalid base64 padding";

/// The 24-bit group packed from four 6-bit symbol values.
pub open spec fn pack4(q0: u32, q1: u32, q2: u32, q3: u32) -> u32 {
    (q0 << 18u32) | (q1 << 12u32) | (q2 << 6u32) | q3
}

/// Decode blank-free symbols, one quartet at a time from the front.
/// Padded quartets are only accepted as the last quartet.
pub open spec fn decode_quartets(s: Seq<u8>) -> Result<Seq<u8>, DecodeFailure>
    decreases s.len(),
{
    if s.len() == 0 {
        Ok(Seq::empty())
    } else if s.len() < 4 {
        Err(DecodeFailure::Length)
    } else {
        let q0 = symbol_value(s[0]);
        let q1 = symbol_value(s[1]);
        let q2 = symbol_value(s[2]);
        let q3 = symbol_value(s[3]);
        let last = s.len() == 4;
        if q0 < 0 || q1 < 0 {
            Err(DecodeFailure::Alphabet)
        } else if q2 >= 0 && q3 >= 0 {
            let v = pack4(q0 as u32, q1 as u32, q2 as u32, q3 as u32);
            match decode_quartets(s.skip(4)) {
                Ok(rest) => Ok(
                    seq![((v >> 16u32) & 0xffu32) as u8, ((v >> 8u32) & 0xffu32) as u8, (v & 0xffu32) as u8]
                        + rest,
                ),
                Err(e) => Err(e),
            }
        } else if q2 == -2 && q3 == -2 && last {
            let v = pack4(q0 as u32, q1 as u32, 0, 0);
            Ok(seq![((v >> 16u32) & 0xffu32) as u8])
        } else if q2 >= 0 && q3 == -2 && last {
            let v = pack4(q0 as u32, q1 as u32, q2 as u32, 0);
            Ok(seq![((v >> 16u32) & 0xffu32) as u8, ((v >> 8u32) & 0xffu32) as u8])
        } else {
            Err(DecodeFailure::Padding)
        }
    }
}

/// The result of decoding the bytes `input`: blanks are dropped, the
/// remaining symbol count must be a multiple of four, and the
/// quartets then decode as [`decode_quartets`] says.
pub open spec fn spec_decode(input: Seq<u8>) -> Result<Seq<u8>, DecodeFailure> {
    let buf = strip_blanks(input);
    if buf.len() % 4 != 0 {
        Err(DecodeFailure::Length)
    } else {
        decode_quartets(buf)
    }
}

/// The four symbols encoding the 24-bit group `n`.
pub open spec fn encode_group(n: u32) -> Seq<u8> {
    seq![
        alphabet((n >> 18u32) & 0x3fu32),
        alphabet((n >> 12u32) & 0x3fu32),
        alphabet((n >> 6u32) & 0x3fu32),
        alphabet(n & 0x3fu32),
    ]
}

/// Standard padded base64 of `data`, as bytes (all ASCII).
pub open spec fn spec_encode(data: Seq<u8>) -> Seq<u8>
    decreases data.len(),
{
    if data.len() >= 3 {
        let n = ((data[0] as u32) << 16u32) | ((data[1] as u32) << 8u32) | (data[2] as u32);
        encode_group(n) + spec_encode(data.skip(3))
    } else if data.len() == 2 {
        let n = ((data[0] as u32) << 16u32) | ((data[1] as u32) << 8u32);
        encode_group(n).take(3).push(0x3du8)
    } else if data.len() == 1 {
        let n = (data[0] as u32) << 16u32;
        encode_group(n).take(2).push(0x3du8).push(0x3du8)
    } else {
        Seq::empty()
    }
}

/// The characters of an ASCII byte sequence.
pub open spec fn ascii_chars(s: Seq<u8>) -> Seq<char> {
    Seq::new(s.len(), |i: int| s[i] as char)
}

// ── Lemmas ─────────────────────────────────────────────────────────

proof fn lemma_symbol_of_alphabet(v: u32)
    requires
        v < 64,
    ensures
        symbol_value(alphabet(v)) == v as i8,
        alphabet(v) < 0x80,
        !is_b64_blank(alphabet(v)),
{
}

proof fn lemma_full_group_roundtrip(a: u8, b: u8, c: u8)
    ensures
        ({
            let n = ((a as u32) << 16u32) | ((b as u32) << 8u32) | (c as u32);
            let v = pack4((n >> 18u32) & 0x3fu32, (n >> 12u32) & 0x3fu32, (n >> 6u32) & 0x3fu32, n & 0x3fu32);
            &&& ((v >> 16u32) & 0xffu32) as u8 == a
            &&& ((v >> 8u32) & 0xffu32) as u8 == b
            &&& (v & 0xffu32) as u8 == c
        }),
{
    assert({
        let n = ((a as u32) << 16u32) | ((b as u32) << 8u32) | (c as u32);
        let v = ((((n >> 18u32) & 0x3fu32) << 18u32) | (((n >> 12u32) & 0x3fu32) << 12u32) | (((n >> 6u32) & 0x3fu32) << 6u32) | (n & 0x3fu32));
        &&& ((v >> 16u32) & 0xffu32) as u8 == a
        &&& ((v >> 8u32) & 0xffu32) as u8 == b
        &&& (v & 0xffu32) as u8 == c
    }) by (bit_vector);
}

proof fn lemma_two_byte_roundtrip(a: u8, b: u8)
    ensures
        ({
            let n = ((a as u32) << 16u32) | ((b as u32) << 8u32);
            let v = pack4((n >> 18u32) & 0x3fu32, (n >> 12u32) & 0x3fu32, (n >> 6u32) & 0x3fu32, 0);
            &&& ((v >> 16u32) & 0xffu32) as u8 == a
            &&& ((v >> 8u32) & 0xffu32) as u8 == b
        }),
{
    assert({
        let n = ((a as u32) << 16u32) | ((b as u32) << 8u32);
        let v = ((((n >> 18u32) & 0x3fu32) << 18u32) | (((n >> 12u32) & 0x3fu32) << 12u32) | (((n >> 6u32) & 0x3fu32) << 6u32) | 0u32);
        &&& ((v >> 16u32) & 0xffu32) as u8 == a
        &&& ((v >> 8u32) & 0xffu32) as u8 == b
    }) by (bit_vector);
}

proof fn lemma_one_byte_roundtrip(a: u8)
    ensures
        ({
            let n = (a as u32) << 16u32;
            let v = pack4((n >> 18u32) & 0x3fu32, (n >> 12u32) & 0x3fu32, 0, 0);
            ((v >> 16u32) & 0xffu32) as u8 == a
        }),
{
    assert({
        let n = (a as u32) << 16u32;
        let v = ((((n >> 18u32) & 0x3fu32) << 18u32) | (((n >> 12u32) & 0x3fu32) << 12u32) | (0u32 << 6u32) | 0u32);
        ((v >> 16u32) & 0xffu32) as u8 == a
    }) by (bit_vector);
}

proof fn lemma_six_bits(n: u32)
    ensures
        (n >> 18u32) & 0x3fu32 < 64,
        (n >> 12u32) & 0x3fu32 < 64,
        (n >> 6u32) & 0x3fu32 < 64,
        n & 0x3fu32 < 64,
{
    assert((n >> 18u32) & 0x3fu32 < 64) by (bit_vector);
    assert((n >> 12u32) & 0x3fu32 < 64) by (bit_vector);
    assert((n >> 6u32) & 0x3fu32 < 64) by (bit_vector);
    assert(n & 0x3fu32 < 64) by (bit_vector);
}

/// The encoding of `data` has `4 * ceil(len / 3)` symbols, all ASCII
/// and none of them a blank.
pub proof fn lemma_encode_shape(data: Seq<u8>)
    ensures
        spec_encode(data).len() == 4 * ((data.len() + 2) / 3),
        forall|i: int|
            0 <= i < spec_encode(data).len() ==> #[trigger] spec_encode(data)[i] < 0x80
                && !is_b64_blank(spec_encode(data)[i]),
    decreases data.len(),
{
    if data.len() >= 3 {
        let n = ((data[0] as u32) << 16u32) | ((data[1] as u32) << 8u32) | (data[2] as u32);
        lemma_six_bits(n);
        lemma_symbol_of_alphabet((n >> 18u32) & 0x3fu32);
        lemma_symbol_of_alphabet((n >> 12u32) & 0x3fu32);
        lemma_symbol_of_alphabet((n >> 6u32) & 0x3fu32);
        lemma_symbol_of_alphabet(n & 0x3fu32);
        lemma_encode_shape(data.skip(3));
        let g = encode_group(n);
        let r = spec_encode(data.skip(3));
        assert forall|i: int| 0 <= i < spec_encode(data).len() implies #[trigger] spec_encode(data)[i]
            < 0x80 && !is_b64_blank(spec_encode(data)[i]) by {
            if i >= 4 {
                assert(spec_encode(data)[i] == r[i - 4]);
            }
        }
    } else if data.len() == 2 {
        let n = ((data[0] as u32) << 16u32) | ((data[1] as u32) << 8u32);
        lemma_six_bits(n);
        lemma_symbol_of_alphabet((n >> 18u32) & 0x3fu32);
        lemma_symbol_of_alphabet((n >> 12u32) & 0x3fu32);
        lemma_symbol_of_alphabet((n >> 6u32) & 0x3fu32);
    } else if data.len() == 1 {
        let n = (data[0] as u32) << 16u32;
        lemma_six_bits(n);
        lemma_symbol_of_alphabet((n >> 18u32) & 0x3fu32);
        lemma_symbol_of_alphabet((n >> 12u32) & 0x3fu32);
    }
}

proof fn lemma_strip_no_blanks(s: Seq<u8>)
    requires
        forall|i: int| 0 <= i < s.len() ==> !is_b64_blank(#[trigger] s[i]),
    ensures
        strip_blanks(s) == s,
    decreases s.len(),
{
    if s.len() > 0 {
        lemma_strip_no_blanks(s.drop_last());
        assert(s.drop_last().push(s.last()) =~= s);
    }
}

/// Removing blanks distributes over concatenation.
pub proof fn lemma_strip_concat(a: Seq<u8>, b: Seq<u8>)
    ensures
        strip_blanks(a + b) == strip_blanks(a) + strip_blanks(b),
    decreases b.len(),
{
    if b.len() == 0 {
        assert(a + b =~= a);
        assert(strip_blanks(a) + strip_blanks(b) =~= strip_blanks(a));
    } else {
        lemma_strip_concat(a, b.drop_last());
        assert((a + b).drop_last() =~= a + b.drop_last());
        assert((a + b).last() == b.last());
        if !is_b64_blank(b.last()) {
            assert(strip_blanks(a) + strip_blanks(b.drop_last()).push(b.last()) =~= (strip_blanks(a)
                + strip_blanks(b.drop_last())).push(b.last()));
        }
    }
}

proof fn lemma_strip_all_blank(w: Seq<u8>)
    requires
        forall|i: int| 0 <= i < w.len() ==> is_b64_blank(#[trigger] w[i]),
    ensures
        strip_blanks(w) == Seq::<u8>::empty(),
    decreases w.len(),
{
    if w.len() > 0 {
        lemma_strip_all_blank(w.drop_last());
    }
}

/// Law: blanks anywhere in the input do not change what it decodes to.
pub proof fn lemma_decode_ignores_blanks(a: Seq<u8>, w: Seq<u8>, b: Seq<u8>)
    requires
        forall|i: int| 0 <= i < w.len() ==> is_b64_blank(#[trigger] w[i]),
    ensures
        spec_decode(a + w + b) == spec_decode(a + b),
{
    lemma_strip_concat(a + w, b);
    lemma_strip_concat(a, w);
    lemma_strip_concat(a, b);
    lemma_strip_all_blank(w);
    assert(strip_blanks(a) + Seq::<u8>::empty() =~= strip_blanks(a));
}

proof fn lemma_decode_quartets_of_encode(data: Seq<u8>)
    ensures
        decode_quartets(spec_encode(data)) == Ok::<Seq<u8>, DecodeFailure>(data),
    decreases data.len(),
{
    let s = spec_encode(data);
    if data.len() >= 3 {
        let a = data[0];
        let b = data[1];
        let c = data[2];
        let n = ((a as u32) << 16u32) | ((b as u32) << 8u32) | (c as u32);
        lemma_six_bits(n);
        lemma_symbol_of_alphabet((n >> 18u32) & 0x3fu32);
        lemma_symbol_of_alphabet((n >> 12u32) & 0x3fu32);
        lemma_symbol_of_alphabet((n >> 6u32) & 0x3fu32);
        lemma_symbol_of_alphabet(n & 0x3fu32);
        lemma_full_group_roundtrip(a, b, c);
        lemma_decode_quartets_of_encode(data.skip(3));
        assert(s.skip(4) =~= spec_encode(data.skip(3)));
        assert(s[0] == alphabet((n >> 18u32) & 0x3fu32));
        assert(s[3] == alphabet(n & 0x3fu32));
        assert(seq![a, b, c] + data.skip(3) =~= data);
    } else if data.len() == 2 {
        let a = data[0];
        let b = data[1];
        let n = ((a as u32) << 16u32) | ((b as u32) << 8u32);
        lemma_six_bits(n);
        lemma_symbol_of_alphabet((n >> 18u32) & 0x3fu32);
        lemma_symbol_of_alphabet((n >> 12u32) & 0x3fu32);
        lemma_symbol_of_alphabet((n >> 6u32) & 0x3fu32);
        lemma_two_byte_roundtrip(a, b);
        assert(s.len() == 4);
        assert(s[3] == 0x3du8);
        assert(seq![a, b] =~= data);
    } else if data.len() == 1 {
        let a = data[0];
        let n = (a as u32) << 16u32;
        lemma_six_bits(n);
        lemma_symbol_of_alphabet((n >> 18u32) & 0x3fu32);
        lemma_symbol_of_alphabet((n >> 12u32) & 0x3fu32);
        lemma_one_byte_roundtrip(a);
        assert(s.len() == 4);
        assert(s[2] == 0x3du8);
        assert(s[3] == 0x3du8);
        assert(seq![a] =~= data);
    } else {
        assert(data =~= Seq::<u8>::empty());
    }
}

/// Law: decoding the encoding of any byte string gives it back.
pub proof fn lemma_decode_encode_roundtrip(data: Seq<u8>)
    ensures
        spec_decode(spec_encode(data)) == Ok::<Seq<u8>, DecodeFailure>(data),
{
    lemma_encode_shape(data);
    lemma_strip_no_blanks(spec_encode(data));
    lemma_decode_quartets_of_encode(data);
    vstd::arithmetic::div_mod::lemma_mod_multiples_basic((data.len() + 2) as int / 3, 4);
}

/// Blank-free symbols that use only the base64 alphabet and `=`, with
/// `=` only as a final `=` or `==`.
pub open spec fn well_padded(s: Seq<u8>) -> bool {
    &&& forall|i: int| 0 <= i < s.len() ==> symbol_value(#[trigger] s[i]) != -1
    &&& forall|i: int|
        0 <= i < s.len() && #[trigger] s[i] == 0x3du8 ==> i == s.len() - 1 || (i == s.len() - 2
            && s[s.len() - 1] == 0x3du8)
}

proof fn lemma_quartets_ok(s: Seq<u8>)
    requires
        s.len() % 4 == 0,
    ensures
        decode_quartets(s) is Ok <==> well_padded(s),
    decreases s.len(),
{
    if s.len() > 0 {
        let r = s.skip(4);
        lemma_quartets_ok(r);
        let q0 = symbol_value(s[0]);
        let q1 = symbol_value(s[1]);
        let q2 = symbol_value(s[2]);
        let q3 = symbol_value(s[3]);
        if q0 >= 0 && q1 >= 0 && q2 >= 0 && q3 >= 0 {
            if well_padded(r) {
                assert forall|i: int| 0 <= i < s.len() implies symbol_value(#[trigger] s[i]) != -1 by {
                    if i >= 4 {
                        assert(s[i] == r[i - 4]);
                    }
                }
                assert forall|i: int|
                    0 <= i < s.len() && #[trigger] s[i] == 0x3du8 implies i == s.len() - 1 || (i
                        == s.len() - 2 && s[s.len() - 1] == 0x3du8) by {
                    assert(i >= 4);
                    assert(s[i] == r[i - 4]);
                    assert(s[s.len() - 1] == r[r.len() - 1]);
                }
            }
            if well_padded(s) {
                assert forall|j: int| 0 <= j < r.len() implies symbol_value(#[trigger] r[j]) != -1 by {
                    assert(r[j] == s[j + 4]);
                }
                assert forall|j: int|
                    0 <= j < r.len() && #[trigger] r[j] == 0x3du8 implies j == r.len() - 1 || (j
                        == r.len() - 2 && r[r.len() - 1] == 0x3du8) by {
                    assert(r[j] == s[j + 4]);
                    assert(s[s.len() - 1] == r[r.len() - 1]);
                }
            }
        } else if q0 < 0 || q1 < 0 {
            if q0 < 0 {
                assert(symbol_value(s[0]) == -1 || s[0] == 0x3du8);
            } else {
                assert(symbol_value(s[1]) == -1 || s[1] == 0x3du8);
            }
        } else {
            if q2 == -1 {
                assert(symbol_value(s[2]) == -1);
            } else if q3 == -1 {
                assert(symbol_value(s[3]) == -1);
            } else if q2 == -2 {
                assert(s[2] == 0x3du8);
            } else {
                assert(s[3] == 0x3du8);
            }
        }
    }
}

/// Law: decoding fails exactly where, once blanks are dropped, the
/// symbol count is not a multiple of four, a byte is neither a base64
/// symbol nor `=`, or `=` stands other than as a final `=` or `==`.
pub proof fn lemma_decode_fails_exactly(input: Seq<u8>)
    ensures
        spec_decode(input) is Err <==> strip_blanks(input).len() % 4 != 0 || !well_padded(
            strip_blanks(input),
        ),
{
    let t = strip_blanks(input);
    if t.len() % 4 == 0 {
        lemma_quartets_ok(t);
    }
}

/// Law, stated over the text `encode` returns: a string whose
/// characters are the encoding of `data` decodes back to `data`.
pub proof fn lemma_decode_of_encoded_text(data: Seq<u8>, text: &str)
    requires
        text@ == ascii_chars(spec_encode(data)),
    ensures
        spec_decode(text.spec_bytes()) == Ok::<Seq<u8>, DecodeFailure>(data),
{
    lemma_encode_shape(data);
    let e = spec_encode(data);
    assert(vstd::string::is_ascii(text)) by {
        assert forall|i: int| 0 <= i < text@.len() implies '\0' <= #[trigger] text@[i] <= '\u{7f}' by {
            assert(text@[i] == e[i] as char);
        }
    }
    vstd::string::is_ascii_spec_bytes(text);
    assert(text.spec_bytes() =~= e);
    lemma_decode_encode_roundtrip(data);
}

// ── Executable code ────────────────────────────────────────────────

/// The decode lookup table: `symbol_value` for every byte.
pub fn build_lut() -> (lut: [i8; 256])
    ensures
        forall|b: u8| #[trigger] lut@[b as int] == symbol_value(b),
{
    let mut lut = [-1i8; 256];
    let mut i: usize = 0;
    while i < 26
        invariant
            0 <= i <= 26,
            lut@.len() == 256,
            forall|b: u8| #[trigger] lut@[b as int] == (if 0x41 <= b < 0x41 + i {
                (b - 0x41) as i8
            } else if 0x61 <= b < 0x61 + i {
                (b - 0x61 + 26) as i8
            } else {
                -1i8
            }),
        decreases 26 - i,
    {
        lut[0x41 + i] = i as i8;
        lut[0x61 + i] = (i + 26) as i8;
        i += 1;
    }
    let mut i: usize = 0;
    while i < 10
        invariant
            0 <= i <= 10,
            lut@.len() == 256,
            forall|b: u8| #[trigger] lut@[b as int] == (if 0x41 <= b <= 0x5a {
                (b - 0x41) as i8
            } else if 0x61 <= b <= 0x7a {
                (b - 0x61 + 26) as i8
            } else if 0x30 <= b < 0x30 + i {
                (b - 0x30 + 52) as i8
            } else {
                -1i8
            }),
        decreases 10 - i,
    {
        lut[0x30 + i] = (i + 52) as i8;
        i += 1;
    }
    lut[0x2b] = 62;
    lut[0x2f] = 63;
    lut[0x3d] = -2;
    lut
}

/// Decode an RFC 4648 base64 string (standard alphabet, padding
/// required). Space, tab, CR and LF are skipped. Fails with a short
/// fixed message on a bad symbol count, a bad symbol, or misplaced
/// padding.
pub fn decode(input: &str) -> (res: Result<Vec<u8>, &'static str>)
    ensures
        match (res, spec_decode(input.spec_bytes())) {
            (Ok(v), Ok(w)) => v@ == w,
            (Err(m), Err(DecodeFailure::Length)) => m@ == LENGTH_MESSAGE@,
            (Err(m), Err(DecodeFailure::Alphabet)) => m@ == ALPHABET_MESSAGE@,
            (Err(m), Err(DecodeFailure::Padding)) => m@ == PADDING_MESSAGE@,
            _ => false,
        },
{
    let lut = build_lut();
    let bytes = input.as_bytes();
    let ghost src = input.spec_bytes();
    let mut buf: Vec<u8> = Vec::new();
    let mut k: usize = 0;
    while k < bytes.len()
        invariant
            bytes@ == src,
            0 <= k <= bytes@.len(),
            buf@ == strip_blanks(src.take(k as int)),
        decreases bytes@.len() - k,
    {
        let b = bytes[k];
        assert(src.take(k + 1).drop_last() =~= src.take(k as int));
        if !(b == 0x20u8 || b == 0x09u8 || b == 0x0du8 || b == 0x0au8) {
            buf.push(b);
        }
        k += 1;
    }
    assert(src.take(bytes@.len() as int) =~= src);
    if buf.len() % 4 != 0 {
        return Err(LENGTH_MESSAGE);
    }
    let mut out: Vec<u8> = Vec::new();
    let n = buf.len();
    let ghost full = buf@;
    let mut i: usize = 0;
    assert(full.skip(0) =~= full);
    while i < n
        invariant
            buf@ == full,
            full == strip_blanks(input.spec_bytes()),
            n == full.len(),
            n % 4 == 0,
            0 <= i <= n,
            i % 4 == 0,
            forall|b: u8| #[trigger] lut@[b as int] == symbol_value(b),
            match decode_quartets(full.skip(i as int)) {
                Ok(rest) => decode_quartets(full) == Ok::<Seq<u8>, DecodeFailure>(out@ + rest),
                Err(e) => decode_quartets(full) == Err::<Seq<u8>, DecodeFailure>(e),
            },
        decreases n - i,
    {
        let ghost rest = full.skip(i as int);
        assert(rest.len() >= 4);
        assert(rest[0] == buf[i as int]);
        assert(rest[1] == buf[i + 1]);
        assert(rest[2] == buf[i + 2]);
        assert(rest[3] == buf[i + 3]);
        let q0 = lut[buf[i] as usize];
        let q1 = lut[buf[i + 1] as usize];
        let q2 = lut[buf[i + 2] as usize];
        let q3 = lut[buf[i + 3] as usize];
        assert(rest.skip(4) =~= full.skip(i + 4));
        if q0 < 0 || q1 < 0 {
            return Err(ALPHABET_MESSAGE);
        }
        let b0: u32 = ((q0 as u32) << 18u32) | ((q1 as u32) << 12u32);
        let last = i + 4 == n;
        if q2 >= 0 && q3 >= 0 {
            let v: u32 = b0 | ((q2 as u32) << 6u32) | (q3 as u32);
            assert(v == pack4(q0 as u32, q1 as u32, q2 as u32, q3 as u32));
            let ghost before = out@;
            out.push(((v >> 16u32) & 0xffu32) as u8);
            out.push(((v >> 8u32) & 0xffu32) as u8);
            out.push((v & 0xffu32) as u8);
            proof {
                let three = seq![((v >> 16u32) & 0xffu32) as u8, ((v >> 8u32) & 0xffu32) as u8, (v & 0xffu32) as u8];
                assert(out@ =~= before + three);
                match decode_quartets(full.skip(i + 4)) {
                    Ok(r2) => {
                        assert(before + (three + r2) =~= out@ + r2);
                    },
                    Err(_) => {},
                }
            }
        } else if q2 == -2 && q3 == -2 && last {
            let v: u32 = b0;
            assert(v == pack4(q0 as u32, q1 as u32, 0, 0)) by (bit_vector)
                requires v == ((q0 as u32) << 18u32) | ((q1 as u32) << 12u32);
            let ghost before = out@;
            out.push(((v >> 16u32) & 0xffu32) as u8);
            proof {
                assert(full.skip(i + 4) =~= Seq::<u8>::empty());
                assert(out@ =~= before + seq![((v >> 16u32) & 0xffu32) as u8]);
                assert(out@ + Seq::<u8>::empty() =~= out@);
            }
        } else if q2 >= 0 && q3 == -2 && last {
            let v: u32 = b0 | ((q2 as u32) << 6u32);
            assert(v == pack4(q0 as u32, q1 as u32, q2 as u32, 0)) by (bit_vector)
                requires v == ((q0 as u32) << 18u32) | ((q1 as u32) << 12u32) | ((q2 as u32) << 6u32);
            let ghost before = out@;
            out.push(((v >> 16u32) & 0xffu32) as u8);
            out.push(((v >> 8u32) & 0xffu32) as u8);
            proof {
                assert(full.skip(i + 4) =~= Seq::<u8>::empty());
                assert(out@ =~= before + seq![((v >> 16u32) & 0xffu32) as u8, ((v >> 8u32) & 0xffu32) as u8]);
                assert(out@ + Seq::<u8>::empty() =~= out@);
            }
        } else {
            return Err(PADDING_MESSAGE);
        }
        i += 4;
    }
    proof {
        assert(full.skip(n as int) =~= Seq::<u8>::empty());
        assert(out@ + Seq::<u8>::empty() =~= out@);
    }
    Ok(out)
}

/// Append the alphabet symbol of the 6-bit value `v` to `out`.
fn push_symbol(out: &mut String, v: u32)
    requires
        v < 64,
    ensures
        final(out)@ == old(out)@.push(alphabet(v) as char),
{
    let b: u8 = if v < 26 {
        (v + 0x41) as u8
    } else if v < 52 {
        (v - 26 + 0x61) as u8
    } else if v < 62 {
        (v - 52 + 0x30) as u8
    } else if v == 62 {
        0x2bu8
    } else {
        0x2fu8
    };
    push_char(out, b as char);
}

/// Encode `input` as standard-alphabet RFC 4648 base64 with padding,
/// on one line.
pub fn encode(input: &[u8]) -> (out: String)
    ensures
        out@ == ascii_chars(spec_encode(input@)),
{
    let mut out = String::new();
    let len = input.len();
    let ghost data = input@;
    let mut i: usize = 0;
    assert(data.skip(0) =~= data);
    assert(out@ =~= ascii_chars(Seq::<u8>::empty()));
    while len - i >= 3
        invariant
            input@ == data,
            len == data.len(),
            0 <= i <= len,
            ascii_chars(spec_encode(data)) == out@ + ascii_chars(spec_encode(data.skip(i as int))),
        decreases len - i,
    {
        let n: u32 = ((input[i] as u32) << 16u32) | ((input[i + 1] as u32) << 8u32) | (input[i + 2] as u32);
        proof {
            lemma_six_bits(n);
        }
        let ghost before = out@;
        push_symbol(&mut out, (n >> 18u32) & 0x3fu32);
        push_symbol(&mut out, (n >> 12u32) & 0x3fu32);
        push_symbol(&mut out, (n >> 6u32) & 0x3fu32);
        push_symbol(&mut out, n & 0x3fu32);
        proof {
            let rest = data.skip(i as int);
            assert(rest[0] == input[i as int]);
            assert(rest[1] == input[i + 1]);
            assert(rest[2] == input[i + 2]);
            assert(rest.skip(3) =~= data.skip(i + 3));
            let g = encode_group(n);
            assert(ascii_chars(spec_encode(rest)) =~= ascii_chars(g) + ascii_chars(spec_encode(data.skip(i + 3))));
            assert(out@ =~= before + ascii_chars(g));
        }
        i += 3;
    }
    let ghost before = out@;
    let ghost rest = data.skip(i as int);
    if len - i == 1 {
        let n: u32 = (input[i] as u32) << 16u32;
        proof {
            lemma_six_bits(n);
        }
        push_symbol(&mut out, (n >> 18u32) & 0x3fu32);
        push_symbol(&mut out, (n >> 12u32) & 0x3fu32);
        push_char(&mut out, '=');
        push_char(&mut out, '=');
        proof {
            assert(rest[0] == input[i as int]);
            assert(ascii_chars(spec_encode(rest)) =~= out@.subrange(before.len() as int, out@.len() as int));
            assert(out@ =~= before + ascii_chars(spec_encode(rest)));
        }
    } else if len - i == 2 {
        let n: u32 = ((input[i] as u32) << 16u32) | ((input[i + 1] as u32) << 8u32);
        proof {
            lemma_six_bits(n);
        }
        push_symbol(&mut out, (n >> 18u32) & 0x3fu32);
        push_symbol(&mut out, (n >> 12u32) & 0x3fu32);
        push_symbol(&mut out, (n >> 6u32) & 0x3fu32);
        push_char(&mut out, '=');
        proof {
            assert(rest[0] == input[i as int]);
            assert(rest[1] == input[i + 1]);
            assert(ascii_chars(spec_encode(rest)) =~= out@.subrange(before.len() as int, out@.len() as int));
            assert(out@ =~= before + ascii_chars(spec_encode(rest)));
        }
    } else {
        proof {
            assert(rest.len() == 0);
            assert(ascii_chars(spec_encode(rest)) =~= Seq::<char>::empty());
            assert(out@ + Seq::<char>::empty() =~= out@);
        }
    }
    out
}

} // verus!
