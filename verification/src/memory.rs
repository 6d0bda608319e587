//! The bump allocator and field-element codec over the runtime's linear
//! memory: the free pointer lives at offset 0, and field elements are
//! encoded at caller-supplied offsets in the short or long wire layout.

use vstd::prelude::*;

use crate::encoding::{
    bytes32_to_limbs, decode_ok, decoded, encode_err, encode_ok, le_bytes_val, le_word,
    limbs_to_bytes32, long_limit, short_max_val, short_min_val, short_negative_transform,
    written_fr, written_long, written_short,
};
use crate::error::CodecError;
use crate::field_element::{
    lemma_limbs_value_single,
    lemma_limb_radix_pow_increases, lemma_limbs_value_lower, lemma_limbs_value_upper,
    limb_radix_pow, limbs_value, mul_mod_limbs, FieldElement,
};
use crate::linear_memory::{mem_bytes, LinearMemory};

verus! {

/// The little-endian base-2^32 limbs of the Montgomery inverse constant:
/// the multiplicative inverse of the Montgomery radix 2^256 modulo the
/// scalar-field prime of the supported curve.
pub open spec fn montgomery_r_inv_limbs() -> Seq<u32> {
    seq![
        0x6db1194eu32,
        0xdc5ba005u32,
        0xe111ec87u32,
        0x090ef5a9u32,
        0xaeb85d5du32,
        0xc8260de4u32,
        0x82c5551cu32,
        0x15ebf951u32,
    ]
}

/// The Montgomery inverse constant as a mathematical integer.
pub open spec fn montgomery_r_inv() -> int {
    limbs_value(montgomery_r_inv_limbs()) as int
}

/// Two codec states that differ at most in the bytes of the buffer.
pub open spec fn same_config(a: SafeMemory, b: SafeMemory) -> bool {
    a.prime == b.prime && a.r_inv == b.r_inv && a.n32 == b.n32
}

/// Safe interface for reading and writing field elements and small scalars
/// to the circuit runtime's linear memory.
pub struct SafeMemory {
    /// The linear memory of the circuit runtime instance.
    pub memory: LinearMemory,
    /// The prime modulus of the scalar field.
    pub prime: FieldElement,
    /// The Montgomery inverse constant used by the long-format decode path.
    pub r_inv: FieldElement,
    /// How many 32-bit words one canonical field element occupies.
    pub n32: usize,
}

impl SafeMemory {
    /// The bytes the buffer currently holds.
    pub open spec fn mem(&self) -> Seq<u8> {
        mem_bytes(self.memory)
    }

    /// The byte width of one allocated field-element slot.
    pub open spec fn slot_size(&self) -> int {
        4 * self.n32 + 8
    }

    /// Well-formed codec state: a positive prime, a canonical non-negative
    /// Montgomery constant, an element width that keeps all offset
    /// arithmetic inside 32 bits, and a buffer no larger than the 4 GiB a
    /// 32-bit wasm memory can reach.
    pub open spec fn wf(&self) -> bool {
        &&& self.prime.wf()
        &&& self.prime.value() > 0
        &&& self.r_inv.wf()
        &&& !self.r_inv.negative
        &&& 1 <= self.n32 <= 0xffff
        &&& self.mem().len() <= 0xffff_ffff
    }

    /// Creates a new codec over the given buffer, for a field whose
    /// canonical elements are `n32` words wide modulo `prime`.
    pub fn new(memory: LinearMemory, n32: usize, prime: FieldElement) -> (r: SafeMemory)
        requires
            prime.wf(),
            prime.value() > 0,
            1 <= n32 <= 0xffff,
            mem_bytes(memory).len() <= 0xffff_ffff,
        ensures
            r.wf(),
            r.memory == memory,
            r.prime == prime,
            r.n32 == n32,
            r.r_inv.value() == montgomery_r_inv(),
            !r.r_inv.negative,
    {
        let mut rl: Vec<u32> = Vec::new();
        rl.push(0x6db1194e);
        rl.push(0xdc5ba005);
        rl.push(0xe111ec87);
        rl.push(0x090ef5a9);
        rl.push(0xaeb85d5d);
        rl.push(0xc8260de4);
        rl.push(0x82c5551c);
        rl.push(0x15ebf951);
        proof {
            assert(rl@ =~= montgomery_r_inv_limbs());
        }
        let r_inv = FieldElement { negative: false, limbs: rl };
        SafeMemory { memory, prime, n32, r_inv }
    }

    /// The smallest value that no longer fits the short layouts: 2^31.
    pub fn short_max(&self) -> (r: FieldElement)
        ensures
            r.wf(),
            r.value() == short_max_val(),
    {
        let mut ls: Vec<u32> = Vec::new();
        ls.push(0x8000_0000);
        proof {
            assert(ls@.drop_first() =~= Seq::<u32>::empty());
            assert(limbs_value(ls@) == ls@[0] as nat + 0x1_0000_0000nat * limbs_value(
                ls@.drop_first(),
            ));
        }
        FieldElement { negative: false, limbs: ls }
    }

    /// The largest value that no longer fits the short layouts: -2^31.
    pub fn short_min(&self) -> (r: FieldElement)
        ensures
            r.wf(),
            r.value() == short_min_val(),
    {
        let mut ls: Vec<u32> = Vec::new();
        ls.push(0x8000_0000);
        proof {
            assert(ls@.drop_first() =~= Seq::<u32>::empty());
            assert(limbs_value(ls@) == ls@[0] as nat + 0x1_0000_0000nat * limbs_value(
                ls@.drop_first(),
            ));
        }
        FieldElement { negative: true, limbs: ls }
    }

    /// Returns the next free position in the memory: the bump-allocator
    /// cursor stored as the 32-bit word at offset 0.
    pub fn free_pos(&self) -> (r: Result<u32, CodecError>)
        ensures
            r is Ok <==> 4 <= self.mem().len(),
            r is Ok ==> r->Ok_0 as int == le_word(self.mem(), 0),
            r is Err ==> r->Err_0 == CodecError::Bounds,
    {
        self.memory.read_u32(0)
    }

    /// Sets the next free position in the memory.
    pub fn set_free_pos(&mut self, ptr: u32) -> (r: Result<(), CodecError>)
        ensures
            same_config(*old(self), *final(self)),
            final(self).mem().len() == old(self).mem().len(),
            r is Ok <==> 4 <= old(self).mem().len(),
            r is Ok ==> le_word(final(self).mem(), 0) == ptr,
            r is Ok ==> forall|i: int|
                4 <= i < old(self).mem().len() ==> final(self).mem()[i] == old(self).mem()[i],
            r is Err ==> final(self).mem() == old(self).mem() && r->Err_0 == CodecError::Bounds,
    {
        self.memory.write_u32(0, ptr)
    }

    /// Writes a 32-bit word at the specified byte offset.
    pub fn write_u32(&mut self, ptr: usize, num: u32) -> (r: Result<(), CodecError>)
        ensures
            same_config(*old(self), *final(self)),
            final(self).mem().len() == old(self).mem().len(),
            r is Ok <==> ptr + 4 <= old(self).mem().len(),
            r is Ok ==> le_word(final(self).mem(), ptr as int) == num,
            r is Ok ==> forall|i: int|
                0 <= i < old(self).mem().len() && (i < ptr || ptr + 4 <= i) ==> final(self).mem()[i] == old(self).mem()[i],
            r is Err ==> final(self).mem() == old(self).mem() && r->Err_0 == CodecError::Bounds,
    {
        self.memory.write_u32(ptr, num)
    }

    /// Reads the 32-bit word at the specified byte offset.
    pub fn read_u32(&self, ptr: usize) -> (r: Result<u32, CodecError>)
        ensures
            r is Ok <==> ptr + 4 <= self.mem().len(),
            r is Ok ==> r->Ok_0 as int == le_word(self.mem(), ptr as int),
            r is Err ==> r->Err_0 == CodecError::Bounds,
    {
        self.memory.read_u32(ptr)
    }

    /// Reserves one small generic slot: returns the current free position
    /// and advances the cursor by 8 bytes.
    pub fn alloc_u32(&mut self) -> (r: Result<u32, CodecError>)
        ensures
            same_config(*old(self), *final(self)),
            final(self).mem().len() == old(self).mem().len(),
            r is Ok <==> 4 <= old(self).mem().len() && le_word(old(self).mem(), 0) + 8
                <= 0xffff_ffff,
            r is Ok ==> r->Ok_0 as int == le_word(old(self).mem(), 0),
            r is Ok ==> le_word(final(self).mem(), 0) == le_word(old(self).mem(), 0) + 8,
            r is Ok ==> forall|i: int|
                4 <= i < old(self).mem().len() ==> final(self).mem()[i] == old(self).mem()[i],
            r is Err ==> final(self).mem() == old(self).mem(),
            r is Err ==> r->Err_0 == (if 4 <= old(self).mem().len() {
                CodecError::Range
            } else {
                CodecError::Bounds
            }),
    {
        let p = match self.memory.read_u32(0) {
            Ok(p) => p,
            Err(e) => {
                return Err(e);
            },
        };
        if p > 0xffff_ffffu32 - 8 {
            return Err(CodecError::Range);
        }
        match self.memory.write_u32(0, p + 8) {
            Ok(()) => Ok(p),
            Err(e) => Err(e),
        }
    }

    /// Reserves one field-element slot of `n32 * 4 + 8` bytes: returns the
    /// current free position and advances the cursor by that width.
    pub fn alloc_fr(&mut self) -> (r: Result<u32, CodecError>)
        requires
            old(self).wf(),
        ensures
            final(self).wf(),
            same_config(*old(self), *final(self)),
            final(self).mem().len() == old(self).mem().len(),
            r is Ok <==> 4 <= old(self).mem().len() && le_word(old(self).mem(), 0) + old(self).slot_size() <= 0xffff_ffff,
            r is Ok ==> r->Ok_0 as int == le_word(old(self).mem(), 0),
            r is Ok ==> le_word(final(self).mem(), 0) == le_word(old(self).mem(), 0) + old(self).slot_size(),
            r is Ok ==> forall|i: int|
                4 <= i < old(self).mem().len() ==> final(self).mem()[i] == old(self).mem()[i],
            r is Err ==> final(self).mem() == old(self).mem(),
            r is Err ==> r->Err_0 == (if 4 <= old(self).mem().len() {
                CodecError::Range
            } else {
                CodecError::Bounds
            }),
    {
        let p = match self.memory.read_u32(0) {
            Ok(p) => p,
            Err(e) => {
                return Err(e);
            },
        };
        let slot: u32 = (self.n32 as u32) * 4 + 8;
        if p > 0xffff_ffffu32 - slot {
            return Err(CodecError::Range);
        }
        match self.memory.write_u32(0, p + slot) {
            Ok(()) => Ok(p),
            Err(e) => Err(e),
        }
    }

    /// Writes a field element at the specified byte offset under the encode
    /// policy: short positive, short negative through the field-relative
    /// transform, or long format, chosen by the value's range. Negative
    /// values outside the short range are unsupported and magnitudes of
    /// 2^256 or more do not fit the extension region; both fail without
    /// touching the buffer.
    pub fn write_fr(&mut self, ptr: usize, fr: &FieldElement) -> (r: Result<(), CodecError>)
        requires
            old(self).wf(),
            fr.wf(),
        ensures
            final(self).wf(),
            same_config(*old(self), *final(self)),
            final(self).mem().len() == old(self).mem().len(),
            r is Ok <==> encode_ok(old(self).mem().len() as int, ptr as int, fr.value()),
            r is Ok ==> written_fr(old(self).mem(), final(self).mem(), ptr as int, fr.value()),
            r is Err ==> final(self).mem() == old(self).mem(),
            r is Err ==> r->Err_0 == encode_err(
                old(self).mem().len() as int,
                ptr as int,
                fr.value(),
            ),
    {
        let nl = fr.limbs.len();
        if !fr.negative {
            if nl == 0 {
                proof {
                    assert(fr.magnitude() == 0);
                }
                self.write_short_positive(ptr, fr)
            } else if nl == 1 && fr.limbs[0] < 0x8000_0000 {
                proof {
                    lemma_limbs_value_single(fr.limbs@);
                }
                self.write_short_positive(ptr, fr)
            } else if nl <= 8 {
                proof {
                    if fr.limbs@.len() == 1 {
                        lemma_limbs_value_single(fr.limbs@);
                    } else {
                        lemma_limbs_value_lower(fr.limbs@);
                        lemma_limb_radix_pow_increases(1, (fr.limbs@.len() - 1) as nat);
                        assert(limb_radix_pow(1) == 0x1_0000_0000nat * limb_radix_pow(0));
                    }
                    lemma_limbs_value_upper(fr.limbs@);
                    lemma_limb_radix_pow_increases(fr.limbs@.len(), 8);
                }
                self.write_long_normal(ptr, fr)
            } else {
                proof {
                    lemma_limbs_value_lower(fr.limbs@);
                    lemma_limb_radix_pow_increases(8, (fr.limbs@.len() - 1) as nat);
                    lemma_limb_radix_pow_increases(1, 8);
                    assert(limb_radix_pow(1) == 0x1_0000_0000nat * limb_radix_pow(0));
                }
                Err(CodecError::Range)
            }
        } else {
            if nl == 1 && fr.limbs[0] < 0x8000_0000 {
                proof {
                    lemma_limbs_value_single(fr.limbs@);
                }
                self.write_short_negative(ptr, fr)
            } else {
                proof {
                    if fr.limbs@.len() == 0 {
                        assert(fr.magnitude() == 0);
                    } else if fr.limbs@.len() == 1 {
                        lemma_limbs_value_single(fr.limbs@);
                    } else {
                        lemma_limbs_value_lower(fr.limbs@);
                        lemma_limb_radix_pow_increases(1, (fr.limbs@.len() - 1) as nat);
                        assert(limb_radix_pow(1) == 0x1_0000_0000nat * limb_radix_pow(0));
                    }
                }
                Err(CodecError::Unsupported)
            }
        }
    }

    /// Writes a value of the short-positive range as its unsigned low
    /// word, with a cleared high word.
    fn write_short_positive(&mut self, ptr: usize, fr: &FieldElement) -> (r: Result<
        (),
        CodecError,
    >)
        requires
            old(self).wf(),
            fr.wf(),
            !fr.negative,
            fr.value() < short_max_val(),
        ensures
            final(self).wf(),
            same_config(*old(self), *final(self)),
            final(self).mem().len() == old(self).mem().len(),
            r is Ok <==> ptr + 8 <= old(self).mem().len(),
            r is Ok ==> written_short(old(self).mem(), final(self).mem(), ptr as int, fr.value()),
            r is Err ==> final(self).mem() == old(self).mem() && r->Err_0 == CodecError::Bounds,
    {
        proof {
            if fr.limbs@.len() >= 2 {
                lemma_limbs_value_lower(fr.limbs@);
                lemma_limb_radix_pow_increases(1, (fr.limbs@.len() - 1) as nat);
                assert(limb_radix_pow(1) == 0x1_0000_0000nat * limb_radix_pow(0));
            }
        }
        let low: u32 = if fr.limbs.len() == 0 {
            0
        } else {
            proof {
                lemma_limbs_value_single(fr.limbs@);
            }
            fr.limbs[0]
        };
        self.write_short_low(ptr, low)
    }

    /// Writes a value of the short-negative range: the low word holds the
    /// short-negative transform of the value, the high word is cleared.
    fn write_short_negative(&mut self, ptr: usize, fr: &FieldElement) -> (r: Result<
        (),
        CodecError,
    >)
        requires
            old(self).wf(),
            fr.wf(),
            fr.negative,
            short_min_val() < fr.value(),
        ensures
            final(self).wf(),
            same_config(*old(self), *final(self)),
            final(self).mem().len() == old(self).mem().len(),
            r is Ok <==> ptr + 8 <= old(self).mem().len(),
            r is Ok ==> written_short(
                old(self).mem(),
                final(self).mem(),
                ptr as int,
                short_negative_transform(fr.value()),
            ),
            r is Err ==> final(self).mem() == old(self).mem() && r->Err_0 == CodecError::Bounds,
    {
        proof {
            if fr.limbs@.len() == 0 {
                assert(fr.magnitude() == 0);
            }
            if fr.limbs@.len() >= 2 {
                lemma_limbs_value_lower(fr.limbs@);
                lemma_limb_radix_pow_increases(1, (fr.limbs@.len() - 1) as nat);
                assert(limb_radix_pow(1) == 0x1_0000_0000nat * limb_radix_pow(0));
            }
            lemma_limbs_value_single(fr.limbs@);
        }
        let mag = fr.limbs[0];
        let low: u32 = (0x1_0000_0000u64 - mag as u64) as u32;
        self.write_short_low(ptr, low)
    }

    /// Writes the two header words of a short slot: the given low word and
    /// a cleared high word.
    fn write_short_low(&mut self, ptr: usize, low: u32) -> (r: Result<(), CodecError>)
        requires
            old(self).wf(),
        ensures
            final(self).wf(),
            same_config(*old(self), *final(self)),
            final(self).mem().len() == old(self).mem().len(),
            r is Ok <==> ptr + 8 <= old(self).mem().len(),
            r is Ok ==> written_short(old(self).mem(), final(self).mem(), ptr as int, low as int),
            r is Err ==> final(self).mem() == old(self).mem() && r->Err_0 == CodecError::Bounds,
    {
        let len = self.memory.size();
        if len < 8 || ptr > len - 8 {
            return Err(CodecError::Bounds);
        }
        let ghost m0 = self.mem();
        match self.memory.write_u32(ptr, low) {
            Ok(()) => {},
            Err(e) => {
                return Err(e);
            },
        }
        let ghost m1 = self.mem();
        match self.memory.write_u32(ptr + 4, 0) {
            Ok(()) => {},
            Err(e) => {
                return Err(e);
            },
        }
        proof {
            let p = ptr as int;
            assert(self.mem()[p] == m1[p]);
            assert(self.mem()[p + 1] == m1[p + 1]);
            assert(self.mem()[p + 2] == m1[p + 2]);
            assert(self.mem()[p + 3] == m1[p + 3]);
            assert(le_word(self.mem(), p) == low as int);
            assert forall|i: int|
                0 <= i < m0.len() && (i < p || p + 8 <= i) implies self.mem()[i] == m0[i] by {
                assert(m1[i] == m0[i]);
            }
        }
        Ok(())
    }

    /// Writes a non-negative value in the long layout: cleared low word,
    /// the long-format flag alone in the high word, and the 32-byte
    /// little-endian magnitude in the extension region.
    fn write_long_normal(&mut self, ptr: usize, fr: &FieldElement) -> (r: Result<(), CodecError>)
        requires
            old(self).wf(),
            fr.wf(),
            !fr.negative,
            fr.value() < long_limit(),
        ensures
            final(self).wf(),
            same_config(*old(self), *final(self)),
            final(self).mem().len() == old(self).mem().len(),
            r is Ok <==> ptr + 40 <= old(self).mem().len(),
            r is Ok ==> written_long(old(self).mem(), final(self).mem(), ptr as int, fr.value()),
            r is Err ==> final(self).mem() == old(self).mem() && r->Err_0 == CodecError::Bounds,
    {
        proof {
            if fr.limbs@.len() >= 9 {
                lemma_limbs_value_lower(fr.limbs@);
                lemma_limb_radix_pow_increases(8, (fr.limbs@.len() - 1) as nat);
            }
        }
        let len = self.memory.size();
        if len < 40 || ptr > len - 40 {
            return Err(CodecError::Bounds);
        }
        let ghost m0 = self.mem();
        match self.memory.write_u32(ptr, 0) {
            Ok(()) => {},
            Err(e) => {
                return Err(e);
            },
        }
        let ghost m1 = self.mem();
        match self.memory.write_u32(ptr + 4, 0x8000_0000) {
            Ok(()) => {},
            Err(e) => {
                return Err(e);
            },
        }
        let ghost m2 = self.mem();
        match self.write_big(ptr + 8, fr) {
            Ok(()) => {},
            Err(e) => {
                return Err(e);
            },
        }
        proof {
            let p = ptr as int;
            assert(self.mem()[p] == m2[p] && m2[p] == m1[p]);
            assert(self.mem()[p + 1] == m2[p + 1] && m2[p + 1] == m1[p + 1]);
            assert(self.mem()[p + 2] == m2[p + 2] && m2[p + 2] == m1[p + 2]);
            assert(self.mem()[p + 3] == m2[p + 3] && m2[p + 3] == m1[p + 3]);
            assert(le_word(self.mem(), p) == 0);
            assert(self.mem()[p + 4] == m2[p + 4]);
            assert(self.mem()[p + 5] == m2[p + 5]);
            assert(self.mem()[p + 6] == m2[p + 6]);
            assert(self.mem()[p + 7] == m2[p + 7]);
            assert(le_word(self.mem(), p + 4) == 0x8000_0000);
            assert forall|i: int|
                0 <= i < m0.len() && (i < p || p + 40 <= i) implies self.mem()[i] == m0[i] by {
                assert(m2[i] == m1[i]);
                assert(m1[i] == m0[i]);
            }
        }
        Ok(())
    }

    /// Writes the 32-byte little-endian magnitude of a non-negative value
    /// into the extension region starting at `ptr`.
    fn write_big(&mut self, ptr: usize, fr: &FieldElement) -> (r: Result<(), CodecError>)
        requires
            old(self).wf(),
            fr.wf(),
            !fr.negative,
            fr.limbs@.len() <= 8,
        ensures
            final(self).wf(),
            same_config(*old(self), *final(self)),
            final(self).mem().len() == old(self).mem().len(),
            r is Ok <==> ptr + 32 <= old(self).mem().len(),
            r is Ok ==> le_bytes_val(
                final(self).mem().subrange(ptr as int, ptr as int + 32),
            ) == fr.magnitude(),
            r is Ok ==> forall|i: int|
                0 <= i < old(self).mem().len() && (i < ptr || ptr + 32 <= i) ==> final(self).mem()[i] == old(self).mem()[i],
            r is Err ==> final(self).mem() == old(self).mem() && r->Err_0 == CodecError::Bounds,
    {
        let bytes = limbs_to_bytes32(&fr.limbs);
        self.memory.write_bytes(ptr, &bytes)
    }

    /// Reads the field element encoded at the specified byte offset,
    /// inspecting the flag bits before interpreting any bytes.
    pub fn read_fr(&self, ptr: usize) -> (r: Result<FieldElement, CodecError>)
        requires
            self.wf(),
        ensures
            r is Ok <==> decode_ok(self.mem(), ptr as int, self.n32 as int),
            r is Ok ==> r->Ok_0.wf(),
            r is Ok ==> r->Ok_0.value() == decoded(
                self.mem(),
                ptr as int,
                self.prime.value(),
                self.r_inv.value(),
            ),
            r is Err ==> r->Err_0 == CodecError::Bounds,
    {
        if ptr > 0xffff_fff7usize {
            return Err(CodecError::Bounds);
        }
        let hb = match self.memory.read_u8(ptr + 7) {
            Ok(b) => b,
            Err(e) => {
                return Err(e);
            },
        };
        if hb & 0x80 != 0 {
            let nb: usize = 32 * self.n32;
            if ptr > 0xffff_ffffusize - 8 - nb {
                return Err(CodecError::Bounds);
            }
            let buf = match self.memory.read_bytes(ptr + 8, nb) {
                Ok(b) => b,
                Err(e) => {
                    return Err(e);
                },
            };
            let limbs = bytes32_to_limbs(&buf);
            proof {
                assert(buf@.subrange(0, 32) =~= self.mem().subrange(
                    ptr as int + 8,
                    ptr as int + 40,
                ));
            }
            if hb & 0x40 != 0 {
                proof {
                    if self.prime.negative {
                        assert(self.prime.value() <= 0);
                    }
                }
                let reduced = mul_mod_limbs(&limbs, &self.r_inv.limbs, &self.prime.limbs);
                Ok(FieldElement::from_limbs(false, reduced))
            } else {
                Ok(FieldElement::from_limbs(false, limbs))
            }
        } else {
            let lb = match self.memory.read_u8(ptr + 3) {
                Ok(b) => b,
                Err(e) => {
                    return Err(e);
                },
            };
            let low = match self.memory.read_u32(ptr) {
                Ok(w) => w,
                Err(e) => {
                    return Err(e);
                },
            };
            if lb & 0x40 != 0 {
                proof {
                    let b3 = lb;
                    assert(b3 >= 0x40) by (bit_vector)
                        requires
                            b3 & 0x40 != 0,
                    ;
                    assert(le_word(self.mem(), ptr as int) >= 0x100_0000 * 0x40);
                }
                let mag: u32 = (0x1_0000_0000u64 - low as u64) as u32;
                let mut ls: Vec<u32> = Vec::new();
                ls.push(mag);
                proof {
                    lemma_limbs_value_single(ls@);
                }
                Ok(FieldElement { negative: true, limbs: ls })
            } else {
                if low == 0 {
                    let ls: Vec<u32> = Vec::new();
                    Ok(FieldElement { negative: false, limbs: ls })
                } else {
                    let mut ls: Vec<u32> = Vec::new();
                    ls.push(low);
                    proof {
                        lemma_limbs_value_single(ls@);
                    }
                    Ok(FieldElement { negative: false, limbs: ls })
                }
            }
        }
    }

    /// Reads a long-format magnitude of `num_bytes * 32` bytes starting at
    /// the specified offset; the value is carried by the first 32 bytes,
    /// the width of one extension region.
    pub fn read_big(&self, ptr: usize, num_bytes: usize) -> (r: Result<FieldElement, CodecError>)
        requires
            self.wf(),
        ensures
            r is Ok <==> num_bytes >= 1 && ptr + 32 * num_bytes <= self.mem().len(),
            r is Ok ==> r->Ok_0.wf() && !r->Ok_0.negative,
            r is Ok ==> r->Ok_0.value() == le_bytes_val(
                self.mem().subrange(ptr as int, ptr as int + 32),
            ),
            r is Err ==> r->Err_0 == (if num_bytes >= 1 {
                CodecError::Bounds
            } else {
                CodecError::Format
            }),
    {
        if num_bytes == 0 {
            return Err(CodecError::Format);
        }
        if num_bytes > 0x7ff_ffff {
            return Err(CodecError::Bounds);
        }
        let nb: usize = 32 * num_bytes;
        if ptr > 0xffff_ffffusize - nb {
            return Err(CodecError::Bounds);
        }
        let buf = match self.memory.read_bytes(ptr, nb) {
            Ok(b) => b,
            Err(e) => {
                return Err(e);
            },
        };
        let limbs = bytes32_to_limbs(&buf);
        proof {
            assert(buf@.subrange(0, 32) =~= self.mem().subrange(ptr as int, ptr as int + 32));
        }
        Ok(FieldElement::from_limbs(false, limbs))
    }
}

/// Allocator monotonicity: each allocation returns the cursor and advances
/// it by exactly one slot width, so after `k` allocations from a cursor at
/// `base` the cursor stands at `base + k * width`, the returned offsets
/// `base + i * width` grow strictly, and the slot of an earlier allocation
/// ends at or before the slot of any later one begins — the regions never
/// overlap.
pub proof fn lemma_alloc_slots_disjoint(base: int, width: int, i: int, j: int)
    requires
        width > 0,
        0 <= i < j,
    ensures
        base + i * width < base + j * width,
        base + i * width + width <= base + j * width,
{
    assert(i * width + width <= j * width) by (nonlinear_arith)
        requires
            width > 0,
            i < j,
    ;
}

} // verus!
