//! The three wire layouts for a field element inside the runtime's linear
//! memory, as mathematical functions over byte sequences: the encode policy,
//! the decode policy, and the round-trip laws that tie them together.

use vstd::prelude::*;

use crate::error::CodecError;
use crate::field_element::{limbs_value, lemma_limbs_value_zero_extend, limb_radix_pow};

verus! {

/// The 32-bit little-endian word starting at byte offset `p`.
pub open spec fn le_word(m: Seq<u8>, p: int) -> int {
    m[p] as int + 0x100 * m[p + 1] as int + 0x1_0000 * m[p + 2] as int + 0x100_0000 * m[p
        + 3] as int
}

/// Value of a little-endian byte sequence.
pub open spec fn le_bytes_val(s: Seq<u8>) -> nat
    decreases s.len(),
{
    if s.len() == 0 {
        0
    } else {
        s[0] as nat + 0x100nat * le_bytes_val(s.drop_first())
    }
}

/// Smallest value too large for the short layouts: 2^31.
pub open spec fn short_max_val() -> int {
    0x8000_0000
}

/// Largest value too small for the short layouts: -2^31.
pub open spec fn short_min_val() -> int {
    -0x8000_0000
}

/// Smallest magnitude too wide for the long layout's extension region: 2^256.
pub open spec fn long_limit() -> int {
    limb_radix_pow(8) as int
}

/// Whether `v` is encoded in one of the two short layouts.
pub open spec fn fits_short(v: int) -> bool {
    short_min_val() < v < short_max_val()
}

/// The unsigned low word written for a short negative value, relative to the
/// short-range bounds rather than plain 32-bit two's complement.
pub open spec fn short_negative_transform(v: int) -> int {
    v - short_min_val() - short_max_val() + 0x1_0000_0000
}

/// The decode policy: what value a slot starting at byte offset `p` stands
/// for. The long-format flag is the top bit of the high word; with it, the
/// Montgomery flag (its second-highest bit) asks for a reduction of the raw
/// magnitude by `r_inv` modulo `prime`. Without the long flag, a set second
/// highest bit of the *low* word marks a short negative written as plain
/// 32-bit two's complement by the foreign runtime. Flags are tested with
/// exact bit masks, never with equality on the whole word.
pub open spec fn decoded(m: Seq<u8>, p: int, prime: int, r_inv: int) -> int {
    if m[p + 7] & 0x80 != 0 {
        let mag = le_bytes_val(m.subrange(p + 8, p + 40)) as int;
        if m[p + 7] & 0x40 != 0 {
            (mag * r_inv) % prime
        } else {
            mag
        }
    } else if m[p + 3] & 0x40 != 0 {
        le_word(m, p) - 0x1_0000_0000
    } else {
        le_word(m, p)
    }
}

/// Whether a decode of the slot at `p` stays inside memory `m`: the two
/// header words must be readable, and in long format the extension region
/// of `32 * n32` bytes as well.
pub open spec fn decode_ok(m: Seq<u8>, p: int, n32: int) -> bool {
    p + 8 <= m.len() && (m[p + 7] & 0x80 != 0 ==> p + 8 + 32 * n32 <= m.len())
}

/// Whether an encode of value `v` at offset `p` succeeds in a memory of
/// `mlen` bytes: short values need the 8 header bytes, long values the
/// 32-byte extension region as well; negative long values are unsupported
/// and magnitudes of 2^256 or more do not fit the extension region.
pub open spec fn encode_ok(mlen: int, p: int, v: int) -> bool {
    if fits_short(v) {
        p + 8 <= mlen
    } else if v >= short_max_val() {
        v < long_limit() && p + 40 <= mlen
    } else {
        false
    }
}

/// The failure reported when an encode does not succeed: the value class is
/// judged first, then the space in the buffer.
pub open spec fn encode_err(mlen: int, p: int, v: int) -> CodecError {
    if fits_short(v) {
        CodecError::Bounds
    } else if v < 0 {
        CodecError::Unsupported
    } else if v >= long_limit() {
        CodecError::Range
    } else {
        CodecError::Bounds
    }
}

/// Memory `m1` is `m0` with a short-layout slot holding low word `low`
/// written at offset `p`: the low word holds `low`, the high word is
/// cleared, and every byte outside the slot's 8 header bytes is unchanged.
pub open spec fn written_short(m0: Seq<u8>, m1: Seq<u8>, p: int, low: int) -> bool {
    &&& m1.len() == m0.len()
    &&& forall|i: int|
        0 <= i < m0.len() && (i < p || p + 8 <= i) ==> m1[i] == m0[i]
    &&& le_word(m1, p) == low
    &&& le_word(m1, p + 4) == 0
}

/// Memory `m1` is `m0` with a long-layout slot of magnitude `v` written at
/// offset `p`: the low word is cleared, the high word holds only the long
/// flag, the 32-byte extension region holds the little-endian magnitude,
/// and every byte outside the slot's 40 bytes is unchanged.
pub open spec fn written_long(m0: Seq<u8>, m1: Seq<u8>, p: int, v: int) -> bool {
    &&& m1.len() == m0.len()
    &&& forall|i: int|
        0 <= i < m0.len() && (i < p || p + 40 <= i) ==> m1[i] == m0[i]
    &&& le_word(m1, p) == 0
    &&& le_word(m1, p + 4) == 0x8000_0000
    &&& le_bytes_val(m1.subrange(p + 8, p + 40)) == v
}

/// Memory `m1` is `m0` with value `v` encoded at offset `p` under the
/// encode policy: short positive values keep their low word, short negative
/// values go through the short-negative transform, and everything else is
/// laid out long.
pub open spec fn written_fr(m0: Seq<u8>, m1: Seq<u8>, p: int, v: int) -> bool {
    if 0 <= v < short_max_val() {
        written_short(m0, m1, p, v)
    } else if short_min_val() < v < 0 {
        written_short(m0, m1, p, short_negative_transform(v))
    } else {
        written_long(m0, m1, p, v)
    }
}

/// A byte sequence of at least four bytes is worth its first little-endian
/// word plus 2^32 times the rest.
pub proof fn lemma_le_bytes_val_split4(s: Seq<u8>)
    requires
        s.len() >= 4,
    ensures
        le_bytes_val(s) == le_word(s, 0) + 0x1_0000_0000 * le_bytes_val(s.skip(4)),
{
    let s1 = s.drop_first();
    let s2 = s1.drop_first();
    let s3 = s2.drop_first();
    assert(s3.drop_first() =~= s.skip(4));
    assert(le_bytes_val(s3) == s3[0] as nat + 0x100nat * le_bytes_val(s3.drop_first()));
    assert(le_bytes_val(s2) == s2[0] as nat + 0x100nat * le_bytes_val(s3));
    assert(le_bytes_val(s1) == s1[0] as nat + 0x100nat * le_bytes_val(s2));
    assert(le_bytes_val(s) == s[0] as nat + 0x100nat * le_bytes_val(s1));
    assert(s1[0] == s[1] && s2[0] == s[2] && s3[0] == s[3]);
}

/// A byte sequence grouped into little-endian words is worth the same as
/// those words taken as base-2^32 limbs.
pub proof fn lemma_bytes_words_value(bytes: Seq<u8>, limbs: Seq<u32>)
    requires
        bytes.len() == 4 * limbs.len(),
        forall|j: int| 0 <= j < limbs.len() ==> le_word(bytes, 4 * j) == limbs[j] as int,
    ensures
        le_bytes_val(bytes) == limbs_value(limbs),
    decreases limbs.len(),
{
    if limbs.len() == 0 {
        assert(bytes =~= Seq::<u8>::empty());
    } else {
        lemma_le_bytes_val_split4(bytes);
        let bt = bytes.skip(4);
        let lt = limbs.drop_first();
        assert(bt.len() == 4 * lt.len());
        assert forall|j: int| 0 <= j < lt.len() implies le_word(bt, 4 * j) == lt[j] as int by {
            assert(bt[4 * j] == bytes[4 * j + 4]);
            assert(bt[4 * j + 1] == bytes[4 * j + 5]);
            assert(bt[4 * j + 2] == bytes[4 * j + 6]);
            assert(bt[4 * j + 3] == bytes[4 * j + 7]);
            assert(le_word(bytes, 4 * (j + 1)) == limbs[j + 1] as int);
        }
        lemma_bytes_words_value(bt, lt);
        assert(le_word(bytes, 0) == limbs[0] as int);
        assert(limbs_value(limbs) == limbs[0] as nat + 0x1_0000_0000nat * limbs_value(lt));
    }
}

/// The 32-byte little-endian extension-region image of at most eight limbs,
/// zero-padded at the top.
pub fn limbs_to_bytes32(limbs: &Vec<u32>) -> (r: Vec<u8>)
    requires
        limbs@.len() <= 8,
    ensures
        r@.len() == 32,
        le_bytes_val(r@) == limbs_value(limbs@),
{
    let ghost padded: Seq<u32> = Seq::new(8, |j: int| if j < limbs@.len() { limbs@[j] } else { 0u32 });
    let mut out: Vec<u8> = Vec::new();
    let mut i: usize = 0;
    while i < 8
        invariant
            i <= 8,
            limbs@.len() <= 8,
            out@.len() == 4 * i,
            padded == Seq::new(8, |j: int| if j < limbs@.len() { limbs@[j] } else { 0u32 }),
            forall|j: int| 0 <= j < i ==> le_word(out@, 4 * j) == padded[j] as int,
        decreases 8 - i,
    {
        let w: u32 = if i < limbs.len() {
            limbs[i]
        } else {
            0
        };
        let b0 = (w & 0xff) as u8;
        let b1 = ((w >> 8) & 0xff) as u8;
        let b2 = ((w >> 16) & 0xff) as u8;
        let b3 = ((w >> 24) & 0xff) as u8;
        proof {
            assert((w & 0xff) < 0x100 && ((w >> 8) & 0xff) < 0x100 && ((w >> 16) & 0xff) < 0x100
                && ((w >> 24) & 0xff) < 0x100) by (bit_vector);
            assert(w == (w & 0xff) + 0x100 * ((w >> 8) & 0xff) + 0x1_0000 * ((w >> 16) & 0xff)
                + 0x100_0000 * ((w >> 24) & 0xff)) by (bit_vector);
        }
        let ghost out0 = out@;
        out.push(b0);
        out.push(b1);
        out.push(b2);
        out.push(b3);
        proof {
            assert(out@[4 * i as int] == b0);
            assert(out@[4 * i as int + 1] == b1);
            assert(out@[4 * i as int + 2] == b2);
            assert(out@[4 * i as int + 3] == b3);
            assert(le_word(out@, 4 * i as int) == w);
            assert(padded[i as int] == w);
            assert forall|j: int| 0 <= j < i + 1 implies le_word(out@, 4 * j) == padded[j] as int by {
                if j < i {
                    assert(out@[4 * j] == out0[4 * j]);
                    assert(out@[4 * j + 1] == out0[4 * j + 1]);
                    assert(out@[4 * j + 2] == out0[4 * j + 2]);
                    assert(out@[4 * j + 3] == out0[4 * j + 3]);
                    assert(le_word(out0, 4 * j) == padded[j] as int);
                }
            }
        }
        i += 1;
    }
    proof {
        lemma_bytes_words_value(out@, padded);
        lemma_limbs_value_zero_extend(limbs@, padded);
    }
    out
}

/// The first 32 bytes of a little-endian buffer as eight base-2^32 limbs.
pub fn bytes32_to_limbs(bytes: &Vec<u8>) -> (r: Vec<u32>)
    requires
        bytes@.len() >= 32,
    ensures
        r@.len() == 8,
        limbs_value(r@) == le_bytes_val(bytes@.subrange(0, 32)),
{
    let ghost first32 = bytes@.subrange(0, 32);
    let mut out: Vec<u32> = Vec::new();
    let mut i: usize = 0;
    while i < 8
        invariant
            i <= 8,
            bytes@.len() >= 32,
            first32 == bytes@.subrange(0, 32),
            out@.len() == i,
            forall|j: int| 0 <= j < i ==> le_word(first32, 4 * j) == out@[j] as int,
        decreases 8 - i,
    {
        let c0 = bytes[4 * i] as u32;
        let c1 = bytes[4 * i + 1] as u32;
        let c2 = bytes[4 * i + 2] as u32;
        let c3 = bytes[4 * i + 3] as u32;
        let w: u32 = c0 | (c1 << 8) | (c2 << 16) | (c3 << 24);
        proof {
            assert((c0 | (c1 << 8) | (c2 << 16) | (c3 << 24)) == c0 + 0x100 * c1 + 0x1_0000 * c2
                + 0x100_0000 * c3) by (bit_vector)
                requires
                    c0 < 0x100,
                    c1 < 0x100,
                    c2 < 0x100,
                    c3 < 0x100,
            ;
            assert(first32[4 * i as int] == bytes@[4 * i as int]);
            assert(first32[4 * i as int + 1] == bytes@[4 * i as int + 1]);
            assert(first32[4 * i as int + 2] == bytes@[4 * i as int + 2]);
            assert(first32[4 * i as int + 3] == bytes@[4 * i as int + 3]);
        }
        out.push(w);
        i += 1;
    }
    proof {
        lemma_bytes_words_value(first32, out@);
    }
    out
}

/// Round trip for short positive values: a short slot whose low word holds
/// `v` with `0 <= v < 2^30` decodes back to `v`. Values in `[2^30, 2^31)`
/// are excluded: their top-of-low-word bit collides with the mask the
/// decoder uses to recognize foreign-written short negatives, so they do
/// not survive the round trip.
pub proof fn lemma_round_trip_short_positive(
    m0: Seq<u8>,
    m1: Seq<u8>,
    p: int,
    v: int,
    prime: int,
    r_inv: int,
)
    requires
        0 <= v < 0x4000_0000,
        0 <= p,
        p + 8 <= m0.len(),
        written_short(m0, m1, p, v),
    ensures
        decoded(m1, p, prime, r_inv) == v,
{
    assert(m1[p + 7] == 0);
    let b3 = m1[p + 3];
    assert(b3 < 64);
    assert(0u8 & 0x80 == 0 && 0u8 & 0x40 == 0) by (bit_vector);
    assert(b3 & 0x40 == 0) by (bit_vector)
        requires
            b3 < 64,
    ;
}

/// Round trip for short negative values: a short slot holding the
/// short-negative transform of `v` with `-2^30 <= v < 0` decodes back to
/// `v`. Values in `(-2^31, -2^30)` are excluded: their transformed low word
/// leaves the decoder's short-negative mask bit clear, so they do not
/// survive the round trip.
pub proof fn lemma_round_trip_short_negative(
    m0: Seq<u8>,
    m1: Seq<u8>,
    p: int,
    v: int,
    prime: int,
    r_inv: int,
)
    requires
        -0x4000_0000 <= v < 0,
        0 <= p,
        p + 8 <= m0.len(),
        written_short(m0, m1, p, short_negative_transform(v)),
    ensures
        decoded(m1, p, prime, r_inv) == v,
{
    assert(m1[p + 7] == 0);
    assert(le_word(m1, p) == v + 0x1_0000_0000);
    let b3 = m1[p + 3];
    assert(b3 >= 192);
    assert(0u8 & 0x80 == 0) by (bit_vector);
    assert(b3 & 0x40 != 0) by (bit_vector)
        requires
            b3 >= 192,
    ;
}

/// Round trip for long non-negative values: a long slot whose extension
/// region holds the magnitude `v >= 2^31` decodes back to `v`.
pub proof fn lemma_round_trip_long(
    m0: Seq<u8>,
    m1: Seq<u8>,
    p: int,
    v: int,
    prime: int,
    r_inv: int,
)
    requires
        v >= short_max_val(),
        0 <= p,
        p + 40 <= m0.len(),
        written_long(m0, m1, p, v),
    ensures
        decoded(m1, p, prime, r_inv) == v,
{
    let b7 = m1[p + 7];
    assert(b7 == 128);
    assert(b7 & 0x80 != 0 && b7 & 0x40 == 0) by (bit_vector)
        requires
            b7 == 128,
    ;
}

/// Montgomery decode: a slot whose high word holds exactly the long and
/// Montgomery flags and whose extension region holds the raw magnitude
/// `mag` decodes to `(mag * r_inv) % prime`.
pub proof fn lemma_decode_montgomery(m: Seq<u8>, p: int, mag: int, prime: int, r_inv: int)
    requires
        le_word(m, p + 4) == 0xC000_0000,
        le_bytes_val(m.subrange(p + 8, p + 40)) == mag,
    ensures
        decoded(m, p, prime, r_inv) == (mag * r_inv) % prime,
{
    let b7 = m[p + 7];
    assert(b7 == 192);
    assert(b7 & 0x80 != 0 && b7 & 0x40 != 0) by (bit_vector)
        requires
            b7 == 192,
    ;
}

/// Flag discrimination: when neither the long-format flag nor the
/// Montgomery flag of the high word is set, and the low word does not carry
/// the foreign short-negative mark, the slot decodes through the
/// short-positive path to its unsigned low word — whatever the remaining
/// bits of the high word hold.
pub proof fn lemma_flag_discrimination(m: Seq<u8>, p: int, prime: int, r_inv: int)
    requires
        m[p + 7] & 0x80 == 0,
        m[p + 7] & 0x40 == 0,
        m[p + 3] & 0x40 == 0,
    ensures
        decoded(m, p, prime, r_inv) == le_word(m, p),
{
}

} // verus!

