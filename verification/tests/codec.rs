use std::str::FromStr;

use circom_codec::error::CodecError;
use circom_codec::field_element::FieldElement;
use circom_codec::linear_memory::LinearMemory;
use circom_codec::memory::SafeMemory;

const PRIME_DEC: &str =
    "21888242871839275222246405745257275088548364400416034343698204186575808495617";
const R_INV_DEC: &str =
    "9915499612839321149637521777990102151350674507940716049588462388200839649614";

fn fe_from_str(s: &str) -> FieldElement {
    let negative = s.starts_with('-');
    let digits = if negative { &s[1..] } else { s };
    let b = num_bigint::BigUint::from_str(digits).unwrap();
    FieldElement::from_limbs(negative, b.to_u32_digits())
}

fn new() -> SafeMemory {
    SafeMemory::new(LinearMemory::new(1).unwrap(), 2, fe_from_str(PRIME_DEC))
}

fn read_write_fr(num: FieldElement) {
    let mut mem = new();
    mem.write_fr(0, &num).unwrap();
    let res = mem.read_fr(0).unwrap();
    assert_eq!(res, num);
}

#[test]
fn i32_bounds() {
    let mem = new();
    let i32_max = i32::MAX as i64 + 1;
    assert_eq!(mem.short_min().to_i64().unwrap(), -i32_max);
    assert_eq!(mem.short_max().to_i64().unwrap(), i32_max);
}

#[test]
fn read_write_32() {
    let mut mem = new();
    let num = u32::MAX;

    let inp = mem.read_u32(0).unwrap();
    assert_eq!(inp, 0);

    mem.write_u32(0, num).unwrap();
    let inp = mem.read_u32(0).unwrap();
    assert_eq!(inp, num);
}

#[test]
fn read_write_fr_small_positive() {
    read_write_fr(FieldElement::from_i64(1_000_000));
}

#[test]
fn read_write_fr_small_negative() {
    read_write_fr(FieldElement::from_i64(-1_000_000));
}

#[test]
fn read_write_fr_big_positive() {
    read_write_fr(FieldElement::from_i64(500000000000i64));
    read_write_fr(fe_from_str(
        "10944121435919637611123202872628637544274182200208017171849102093287904246808",
    ));
    read_write_fr(FieldElement::from_i64(50));
}

#[test]
fn write_fr_big_negative_is_unsupported() {
    let mut mem = new();
    let num = fe_from_str("-500000000000");
    assert_eq!(mem.write_fr(0, &num).unwrap_err(), CodecError::Unsupported);
    // nothing was written
    assert_eq!(mem.read_u32(0).unwrap(), 0);
    assert_eq!(mem.read_u32(4).unwrap(), 0);
}

#[test]
fn write_fr_too_wide_is_range_error() {
    let mut mem = new();
    // nine non-zero limbs: magnitude of at least 2^256
    let num = FieldElement::from_limbs(false, vec![1, 1, 1, 1, 1, 1, 1, 1, 1]);
    assert_eq!(mem.write_fr(0, &num).unwrap_err(), CodecError::Range);
}

#[test]
fn write_fr_out_of_bounds() {
    let mut mem = new();
    let small = FieldElement::from_i64(7);
    assert_eq!(mem.write_fr(65530, &small).unwrap_err(), CodecError::Bounds);
    let large = FieldElement::from_i64(500000000000i64);
    // the 40-byte long slot no longer fits near the end of one page
    assert_eq!(mem.write_fr(65500, &large).unwrap_err(), CodecError::Bounds);
    // the short slot still does
    assert!(mem.write_fr(65500, &small).is_ok());
}

#[test]
fn read_fr_out_of_bounds() {
    let mem = new();
    assert_eq!(mem.read_fr(65530).unwrap_err(), CodecError::Bounds);
}

#[test]
fn read_big_zero_width_is_format_error() {
    let mem = new();
    assert_eq!(mem.read_big(0, 0).unwrap_err(), CodecError::Format);
}

#[test]
fn read_big_reads_the_extension_region() {
    let mut mem = new();
    let num = fe_from_str(
        "10944121435919637611123202872628637544274182200208017171849102093287904246808",
    );
    mem.write_fr(16, &num).unwrap();
    // the magnitude starts 8 bytes into the slot
    let res = mem.read_big(24, 2).unwrap();
    assert_eq!(res, num);
}

#[test]
fn scenario_short_positive_layout() {
    let mut mem = new();
    mem.write_fr(16, &FieldElement::from_i64(1_000_000)).unwrap();
    assert_eq!(mem.read_u32(16).unwrap(), 1_000_000);
    assert_eq!(mem.read_u32(20).unwrap(), 0);
    assert_eq!(mem.read_fr(16).unwrap(), FieldElement::from_i64(1_000_000));
}

#[test]
fn scenario_short_negative_layout() {
    let mut mem = new();
    mem.write_fr(16, &FieldElement::from_i64(-1_000_000)).unwrap();
    // the short-negative transform of -1000000: 2^32 - 1000000
    assert_eq!(mem.read_u32(16).unwrap(), 4_293_967_296);
    assert_eq!(mem.read_u32(20).unwrap(), 0);
    assert_eq!(mem.read_fr(16).unwrap(), FieldElement::from_i64(-1_000_000));
}

#[test]
fn scenario_sequential_allocations_decode_independently() {
    let mut mem = new();
    mem.set_free_pos(8).unwrap();
    let a = mem.alloc_fr().unwrap() as usize;
    let b = mem.alloc_fr().unwrap() as usize;
    let small = FieldElement::from_i64(50);
    let large = FieldElement::from_i64(500000000000i64);
    mem.write_fr(a, &small).unwrap();
    mem.write_fr(b, &large).unwrap();
    assert_eq!(mem.read_fr(a).unwrap(), small);
    assert_eq!(mem.read_fr(b).unwrap(), large);
}

#[test]
fn scenario_fresh_buffer_allocation() {
    let mut mem = new();
    // reserve the cursor word itself before the first allocation
    mem.set_free_pos(8).unwrap();
    assert_eq!(mem.free_pos().unwrap(), 8);
    let first = mem.alloc_fr().unwrap();
    let second = mem.alloc_fr().unwrap();
    // n32 = 2, so one slot is 2 * 4 + 8 = 16 bytes
    assert_eq!(first, 8);
    assert_eq!(second - first, 16);
    assert_eq!(mem.free_pos().unwrap(), 8 + 2 * 16);
}

#[test]
fn alloc_u32_advances_by_eight() {
    let mut mem = new();
    mem.set_free_pos(8).unwrap();
    assert_eq!(mem.alloc_u32().unwrap(), 8);
    assert_eq!(mem.alloc_u32().unwrap(), 16);
    assert_eq!(mem.free_pos().unwrap(), 24);
}

#[test]
fn montgomery_decode_of_magnitude_one() {
    let mut mem = new();
    // long + Montgomery flags, magnitude 1: decodes to (1 * r_inv) mod p
    mem.write_u32(16, 0).unwrap();
    mem.write_u32(20, 0xC000_0000).unwrap();
    mem.write_u32(24, 1).unwrap();
    let res = mem.read_fr(16).unwrap();
    assert_eq!(res, fe_from_str(R_INV_DEC));
}

#[test]
fn montgomery_decode_of_radix_is_one() {
    let mut mem = new();
    // the Montgomery radix 2^256 mod p; multiplied by its inverse it
    // reduces to 1
    let radix: [u32; 8] = [
        0x4fff_fffb, 0xac96_341c, 0x9f60_cd29, 0x36fc_7695, 0x7879_462e, 0x666e_a36f,
        0x9a07_df2f, 0x0e0a_77c1,
    ];
    mem.write_u32(16, 0).unwrap();
    mem.write_u32(20, 0xC000_0000).unwrap();
    for (k, limb) in radix.iter().enumerate() {
        mem.write_u32(24 + 4 * k, *limb).unwrap();
    }
    let res = mem.read_fr(16).unwrap();
    assert_eq!(res, FieldElement::from_i64(1));
}

#[test]
fn long_without_montgomery_flag_is_raw() {
    let mut mem = new();
    mem.write_u32(16, 0).unwrap();
    mem.write_u32(20, 0x8000_0000).unwrap();
    mem.write_u32(24, 9).unwrap();
    assert_eq!(mem.read_fr(16).unwrap(), FieldElement::from_i64(9));
}

#[test]
fn flag_discrimination_ignores_garbage_bits() {
    let mut mem = new();
    // neither flag set; every other high-word bit is garbage
    mem.write_u32(16, 123).unwrap();
    mem.write_u32(20, 0x3fff_ffff).unwrap();
    assert_eq!(mem.read_fr(16).unwrap(), FieldElement::from_i64(123));
}

#[test]
fn foreign_short_negative_decodes() {
    let mut mem = new();
    // a foreign producer writes short negatives as plain 32-bit two's
    // complement with a cleared high word
    mem.write_u32(16, 0xffff_ffff).unwrap();
    mem.write_u32(20, 0).unwrap();
    assert_eq!(mem.read_fr(16).unwrap(), FieldElement::from_i64(-1));
}

#[test]
fn from_limbs_trims_and_normalizes() {
    assert_eq!(
        FieldElement::from_limbs(false, vec![5, 0, 0]),
        FieldElement::from_i64(5)
    );
    assert_eq!(FieldElement::from_limbs(true, vec![0, 0]), FieldElement::from_i64(0));
    assert_eq!(FieldElement::from_limbs(true, vec![7]), FieldElement::from_i64(-7));
}

#[test]
fn to_i64_bounds() {
    assert_eq!(FieldElement::from_i64(i64::MAX).to_i64().unwrap(), i64::MAX);
    assert_eq!(FieldElement::from_i64(i64::MIN).to_i64().unwrap(), i64::MIN);
    assert_eq!(FieldElement::from_i64(0).to_i64().unwrap(), 0);
    // 2^64 does not fit
    assert!(FieldElement::from_limbs(false, vec![0, 0, 1]).to_i64().is_none());
    let p = fe_from_str(PRIME_DEC);
    assert!(p.to_i64().is_none());
}

#[test]
fn round_trip_short_boundaries() {
    // the short round trip holds exactly on (-2^30, 2^30)
    read_write_fr(FieldElement::from_i64(0));
    read_write_fr(FieldElement::from_i64((1 << 30) - 1));
    read_write_fr(FieldElement::from_i64(-(1 << 30)));
    // at and beyond 2^31 the long layout takes over and round trips again
    read_write_fr(FieldElement::from_i64(1 << 31));
    read_write_fr(FieldElement::from_i64((1 << 31) + 17));
}

#[test]
fn short_positive_above_mask_bit_decodes_negative() {
    // 2^30 is written short-positive, but its top-of-low-word bit collides
    // with the decoder's foreign short-negative mask: the slot comes back
    // as 2^30 - 2^32
    let mut mem = new();
    mem.write_fr(16, &FieldElement::from_i64(1 << 30)).unwrap();
    assert_eq!(
        mem.read_fr(16).unwrap(),
        FieldElement::from_i64((1i64 << 30) - (1i64 << 32))
    );
}

#[test]
fn alloc_overflow_is_range_error() {
    let mut mem = new();
    // a cursor this close to the 32-bit limit leaves no room for a slot
    mem.set_free_pos(0xffff_fffc).unwrap();
    assert_eq!(mem.alloc_u32().unwrap_err(), CodecError::Range);
    assert_eq!(mem.alloc_fr().unwrap_err(), CodecError::Range);
    // the cursor is untouched by the failed allocations
    assert_eq!(mem.free_pos().unwrap(), 0xffff_fffc);
}
