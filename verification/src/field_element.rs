//! The arbitrary-precision signed values the codec exchanges with the
//! circuit runtime, held as plain little-endian 32-bit limbs.

use vstd::prelude::*;

verus! {

/// Value of a little-endian sequence of base-2^32 limbs.
pub open spec fn limbs_value(s: Seq<u32>) -> nat
    decreases s.len(),
{
    if s.len() == 0 {
        0
    } else {
        s[0] as nat + 0x1_0000_0000nat * limbs_value(s.drop_first())
    }
}

/// 2^(32*k): the weight of the limb at position `k`.
pub open spec fn limb_radix_pow(k: nat) -> nat
    decreases k,
{
    if k == 0 {
        1
    } else {
        0x1_0000_0000nat * limb_radix_pow((k - 1) as nat)
    }
}

/// A limb sequence is worth less than the weight of the first absent limb.
pub proof fn lemma_limbs_value_upper(s: Seq<u32>)
    ensures
        limbs_value(s) < limb_radix_pow(s.len()),
    decreases s.len(),
{
    if s.len() > 0 {
        lemma_limbs_value_upper(s.drop_first());
        let tail = limbs_value(s.drop_first());
        let bound = limb_radix_pow((s.len() - 1) as nat);
        assert(tail + 1 <= bound);
        assert(0x1_0000_0000nat * tail + 0x1_0000_0000nat <= 0x1_0000_0000nat * bound)
            by (nonlinear_arith)
            requires tail + 1 <= bound,
        ;
    }
}

/// A limb sequence whose last limb is non-zero is worth at least the
/// weight of that last limb's position.
pub proof fn lemma_limbs_value_lower(s: Seq<u32>)
    requires
        s.len() > 0,
        s.last() != 0,
    ensures
        limbs_value(s) >= limb_radix_pow((s.len() - 1) as nat),
    decreases s.len(),
{
    if s.len() == 1 {
        assert(limbs_value(s) == s[0] as nat + 0x1_0000_0000nat * limbs_value(s.drop_first()));
    } else {
        let t = s.drop_first();
        assert(t.last() == s.last());
        lemma_limbs_value_lower(t);
        let tail = limbs_value(t);
        let bound = limb_radix_pow((t.len() - 1) as nat);
        assert(0x1_0000_0000nat * tail >= 0x1_0000_0000nat * bound) by (nonlinear_arith)
            requires tail >= bound,
        ;
    }
}

/// A single limb is worth itself.
pub proof fn lemma_limbs_value_single(s: Seq<u32>)
    requires
        s.len() == 1,
    ensures
        limbs_value(s) == s[0] as nat,
{
    assert(s.drop_first() =~= Seq::<u32>::empty());
    assert(limbs_value(s) == s[0] as nat + 0x1_0000_0000nat * limbs_value(s.drop_first()));
}

/// Dropping a trailing zero limb does not change the value.
pub proof fn lemma_limbs_value_drop_last_zero(s: Seq<u32>)
    requires
        s.len() > 0,
        s.last() == 0,
    ensures
        limbs_value(s) == limbs_value(s.drop_last()),
    decreases s.len(),
{
    if s.len() == 1 {
        assert(limbs_value(s) == s[0] as nat + 0x1_0000_0000nat * limbs_value(s.drop_first()));
        assert(s.drop_last() =~= Seq::<u32>::empty());
    } else {
        let t = s.drop_first();
        assert(t.last() == s.last());
        lemma_limbs_value_drop_last_zero(t);
        assert(s.drop_last().drop_first() =~= t.drop_last());
        assert(limbs_value(s.drop_last()) == s[0] as nat + 0x1_0000_0000nat * limbs_value(
            t.drop_last(),
        ));
    }
}

/// Extending a limb sequence with zero limbs does not change the value.
pub proof fn lemma_limbs_value_zero_extend(s: Seq<u32>, t: Seq<u32>)
    requires
        s.len() <= t.len(),
        forall|j: int| 0 <= j < s.len() ==> t[j] == s[j],
        forall|j: int| s.len() <= j < t.len() ==> t[j] == 0u32,
    ensures
        limbs_value(t) == limbs_value(s),
    decreases t.len() - s.len(),
{
    if t.len() == s.len() {
        assert(t =~= s);
    } else {
        assert(t.last() == 0);
        lemma_limbs_value_drop_last_zero(t);
        lemma_limbs_value_zero_extend(s, t.drop_last());
    }
}

/// An arbitrary-precision signed integer: a sign and little-endian base-2^32
/// limbs with no trailing zero limb, so that each value has exactly one
/// representation. Field elements handed to and read from the circuit
/// runtime's memory are carried in this form.
#[derive(Clone, Debug, PartialEq, Eq)]
pub struct FieldElement {
    /// Whether the value is negative; never set for a zero magnitude.
    pub negative: bool,
    /// Little-endian base-2^32 limbs of the magnitude.
    pub limbs: Vec<u32>,
}

impl FieldElement {
    /// The magnitude as a mathematical natural number.
    pub open spec fn magnitude(&self) -> nat {
        limbs_value(self.limbs@)
    }

    /// The mathematical value this element stands for.
    pub open spec fn value(&self) -> int {
        if self.negative {
            -(self.magnitude() as int)
        } else {
            self.magnitude() as int
        }
    }

    /// Canonical form: no trailing zero limb, and a negative sign only on a
    /// non-zero magnitude.
    pub open spec fn wf(&self) -> bool {
        &&& (self.limbs@.len() > 0 ==> self.limbs@.last() != 0)
        &&& (self.negative ==> self.magnitude() > 0)
    }

    /// Builds the canonical element for the given sign and limbs; trailing
    /// zero limbs are trimmed and a sign on a zero magnitude is cleared.
    pub fn from_limbs(negative: bool, limbs: Vec<u32>) -> (r: FieldElement)
        ensures
            r.wf(),
            r.value() == if negative {
                -(limbs_value(limbs@) as int)
            } else {
                limbs_value(limbs@) as int
            },
    {
        let mut ls = limbs;
        while ls.len() > 0 && ls[ls.len() - 1] == 0
            invariant
                limbs_value(ls@) == limbs_value(limbs@),
            decreases ls.len(),
        {
            proof {
                lemma_limbs_value_drop_last_zero(ls@);
            }
            ls.pop();
        }
        if ls.len() == 0 {
            FieldElement { negative: false, limbs: ls }
        } else {
            proof {
                lemma_limbs_value_lower(ls@);
                lemma_limb_radix_pow_increases(0, (ls@.len() - 1) as nat);
            }
            FieldElement { negative, limbs: ls }
        }
    }

    /// The canonical element for an unsigned 64-bit value.
    pub fn from_u64(v: u64) -> (r: FieldElement)
        ensures
            r.wf(),
            r.value() == v,
    {
        proof {
            assert((v & 0xffff_ffff) < 0x1_0000_0000) by (bit_vector);
            assert(v < 0x1_0000_0000 ==> (v & 0xffff_ffff) == v) by (bit_vector);
            assert(v >= 0x1_0000_0000 ==> (v >> 32) > 0 && (v >> 32) < 0x1_0000_0000 && v == (v
                & 0xffff_ffff) + 0x1_0000_0000 * (v >> 32)) by (bit_vector);
        }
        let mut limbs: Vec<u32> = Vec::new();
        if v > 0 {
            limbs.push((v & 0xffff_ffff) as u32);
        }
        if v >= 0x1_0000_0000 {
            limbs.push((v >> 32) as u32);
        }
        proof {
            let s = limbs@;
            if v == 0 {
                assert(limbs_value(s) == 0);
            } else if v < 0x1_0000_0000 {
                assert(s.drop_first() =~= Seq::<u32>::empty());
                assert(limbs_value(s) == s[0] as nat + 0x1_0000_0000nat * limbs_value(
                    s.drop_first(),
                ));
            } else {
                let s1 = s.drop_first();
                assert(s1.drop_first() =~= Seq::<u32>::empty());
                assert(limbs_value(s1) == s1[0] as nat + 0x1_0000_0000nat * limbs_value(
                    s1.drop_first(),
                ));
                assert(limbs_value(s) == s[0] as nat + 0x1_0000_0000nat * limbs_value(s1));
            }
        }
        FieldElement { negative: false, limbs }
    }

    /// The canonical element for a signed 64-bit value.
    pub fn from_i64(v: i64) -> (r: FieldElement)
        ensures
            r.wf(),
            r.value() == v,
    {
        if v >= 0 {
            Self::from_u64(v as u64)
        } else {
            let mag_u: u64 = if v == i64::MIN {
                0x8000_0000_0000_0000u64
            } else {
                (-v) as u64
            };
            let mag = Self::from_u64(mag_u);
            FieldElement { negative: true, limbs: mag.limbs }
        }
    }

    /// The value as a signed 64-bit integer, when it fits.
    pub fn to_i64(&self) -> (r: Option<i64>)
        requires
            self.wf(),
        ensures
            r is Some <==> i64::MIN <= self.value() <= i64::MAX,
            r is Some ==> r->0 == self.value(),
    {
        let n = self.limbs.len();
        if n >= 3 {
            proof {
                lemma_limbs_value_lower(self.limbs@);
                lemma_limb_radix_pow_increases(2, (self.limbs@.len() - 1) as nat);
                assert(limb_radix_pow(0) == 1);
                assert(limb_radix_pow(1) == 0x1_0000_0000nat * limb_radix_pow(0));
                assert(limb_radix_pow(2) == 0x1_0000_0000nat * limb_radix_pow(1));
            }
            return None;
        }
        let mag: u64 = if n == 0 {
            0
        } else if n == 1 {
            proof {
                let s = self.limbs@;
                assert(s.drop_first() =~= Seq::<u32>::empty());
                assert(limbs_value(s) == s[0] as nat + 0x1_0000_0000nat * limbs_value(
                    s.drop_first(),
                ));
            }
            self.limbs[0] as u64
        } else {
            proof {
                let s = self.limbs@;
                let s1 = s.drop_first();
                assert(s1.drop_first() =~= Seq::<u32>::empty());
                assert(limbs_value(s1) == s1[0] as nat + 0x1_0000_0000nat * limbs_value(
                    s1.drop_first(),
                ));
                assert(limbs_value(s) == s[0] as nat + 0x1_0000_0000nat * limbs_value(s1));
            }
            self.limbs[0] as u64 + 0x1_0000_0000u64 * (self.limbs[1] as u64)
        };
        if self.negative {
            if mag <= 0x8000_0000_0000_0000 {
                if mag == 0x8000_0000_0000_0000 {
                    Some(i64::MIN)
                } else {
                    Some(-(mag as i64))
                }
            } else {
                None
            }
        } else {
            if mag <= 0x7fff_ffff_ffff_ffff {
                Some(mag as i64)
            } else {
                None
            }
        }
    }
}

/// The limb weight grows with the position.
pub proof fn lemma_limb_radix_pow_increases(a: nat, b: nat)
    requires
        a <= b,
    ensures
        limb_radix_pow(a) <= limb_radix_pow(b),
    decreases b,
{
    if a < b {
        lemma_limb_radix_pow_increases(a, (b - 1) as nat);
        let p = limb_radix_pow((b - 1) as nat);
        assert(p <= 0x1_0000_0000nat * p) by (nonlinear_arith)
            requires p >= 0,
        ;
    }
}

/// Relies on num_bigint's `BigUint`: `from_slice` reads base-2^32 digits
/// least significant first, `*` and `%` are the exact natural-number product
/// and remainder (`%` panics on a zero modulus, which `requires` excludes),
/// and `to_u32_digits` returns the base-2^32 digits of the result, least
/// significant first.
#[verifier::external_body]
pub(crate) fn mul_mod_limbs(a: &Vec<u32>, b: &Vec<u32>, m: &Vec<u32>) -> (r: Vec<u32>)
    requires
        limbs_value(m@) > 0,
    ensures
        limbs_value(r@) as int == (limbs_value(a@) as int * limbs_value(b@) as int) % (
        limbs_value(m@) as int),
{
    let big_a = num_bigint::BigUint::from_slice(a.as_slice());
    let big_b = num_bigint::BigUint::from_slice(b.as_slice());
    let big_m = num_bigint::BigUint::from_slice(m.as_slice());
    ((big_a * big_b) % big_m).to_u32_digits()
}

} // verus!
