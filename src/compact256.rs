//! Difficulty targets in packed exponent and mantissa form.

use vstd::prelude::*;
use vstd::arithmetic::power::{lemma_pow_adds, lemma_pow_positive, lemma_pow_increases, pow};

use crate::hash::HashType;
use crate::serialization::{ErrorSerialization, SerializableLittleEndian};

verus! {

/// A 256-bit value packed in 32 bits: the top byte is an exponent (a length
/// in bytes), the low three bytes a mantissa.
#[derive(Debug, Clone, Copy, PartialEq, Eq, Structural)]
pub struct Compact256 {
    pub bits: u32,
}

pub open spec fn exponent_of(bits: u32) -> int {
    bits as int / 0x100_0000
}

pub open spec fn mantissa_of(bits: u32) -> int {
    bits as int % 0x100_0000
}

/// The mantissa once the exponent is raised to at least 3: bytes that an
/// exponent below 3 cuts off are dropped.
pub open spec fn scaled_mantissa(bits: u32) -> int {
    let e = exponent_of(bits);
    let m = mantissa_of(bits);
    if e >= 3 {
        m
    } else if e == 2 {
        m / 0x100
    } else if e == 1 {
        m / 0x1_0000
    } else {
        0
    }
}

pub open spec fn scale_of(bits: u32) -> nat {
    let e = exponent_of(bits);
    if e >= 3 {
        (e - 3) as nat
    } else {
        0
    }
}

/// The number a packed value stands for: mantissa * 256^(exponent - 3),
/// truncated toward zero where the exponent is below 3.
pub open spec fn compact_value(bits: u32) -> int {
    scaled_mantissa(bits) * pow(256, scale_of(bits))
}

/// Index of the first byte of `h` that is not zero, or 32 if there is none.
pub open spec fn first_significant(h: Seq<u8>) -> int
    decreases h.len(),
{
    if h.len() == 0 {
        0
    } else if h[0] != 0 {
        0
    } else {
        1 + first_significant(h.subrange(1, h.len() as int))
    }
}

/// Byte `i` of `h`, and 0 past its end.
pub open spec fn byte_or_zero(h: Seq<u8>, i: int) -> int {
    if 0 <= i < h.len() {
        h[i] as int
    } else {
        0
    }
}

/// The packed form of a digest read as a big-endian number: the exponent is
/// its count of significant bytes, the mantissa its first three of them.
pub open spec fn compact_bits_of_hash(h: Seq<u8>) -> int {
    let i = first_significant(h);
    (32 - i) * 0x100_0000 + byte_or_zero(h, i) * 0x1_0000 + byte_or_zero(h, i + 1) * 0x100
        + byte_or_zero(h, i + 2)
}

proof fn lemma_first_significant(h: Seq<u8>)
    ensures
        0 <= first_significant(h) <= h.len(),
        forall|j: int| 0 <= j < first_significant(h) ==> h[j] == 0,
        first_significant(h) < h.len() ==> h[first_significant(h)] != 0,
    decreases h.len(),
{
    if h.len() > 0 && h[0] == 0 {
        let t = h.subrange(1, h.len() as int);
        lemma_first_significant(t);
        assert forall|j: int| 0 <= j < first_significant(h) implies h[j] == 0 by {
            if j > 0 {
                assert(h[j] == t[j - 1]);
            }
        }
    }
}

proof fn lemma_small_pows()
    ensures
        pow(256, 0) == 1,
        pow(256, 1) == 256,
        pow(256, 2) == 0x1_0000,
        pow(256, 3) == 0x100_0000,
{
    reveal_with_fuel(pow, 4);
}

proof fn lemma_scale_cmp(x: int, y: int, p: int)
    requires
        p > 0,
    ensures
        (x * p > y * p) <==> (x > y),
{
    assert((x * p > y * p) <==> (x > y)) by (nonlinear_arith)
        requires
            p > 0,
    ;
}

impl Compact256 {
    pub fn from_bits(bits: u32) -> (r: Compact256)
        ensures
            r.bits == bits,
    {
        Compact256 { bits }
    }

    /// Packs a digest that is read as a big-endian number.
    pub fn from_hash(hash: &HashType) -> (r: Compact256)
        ensures
            r.bits == compact_bits_of_hash(hash@),
    {
        proof {
            lemma_first_significant(hash@);
        }
        let mut i: usize = 0;
        while i < 32 && hash[i] == 0
            invariant
                0 <= i <= 32,
                hash@.len() == 32,
                i <= first_significant(hash@),
                0 <= first_significant(hash@) <= 32,
                forall|j: int| 0 <= j < first_significant(hash@) ==> hash@[j] == 0,
                first_significant(hash@) < 32 ==> hash@[first_significant(hash@)] != 0,
            decreases 32 - i,
        {
            i += 1;
        }
        assert(i == first_significant(hash@));
        let b0: u32 = if i < 32 { hash[i] as u32 } else { 0 };
        let b1: u32 = if i + 1 < 32 { hash[i + 1] as u32 } else { 0 };
        let b2: u32 = if i + 2 < 32 { hash[i + 2] as u32 } else { 0 };
        let size = (32 - i) as u32;
        Compact256 { bits: size * 0x100_0000 + b0 * 0x1_0000 + b1 * 0x100 + b2 }
    }

    /// The mantissa with the exponent raised to at least 3, and the scale
    /// that is left: the value is `m * 256^s`.
    fn scaled(&self) -> (r: (u32, u32))
        ensures
            r.0 == scaled_mantissa(self.bits),
            r.1 == scale_of(self.bits),
            r.0 < 0x100_0000,
    {
        let e = self.bits / 0x100_0000;
        let m = self.bits % 0x100_0000;
        if e >= 3 {
            (m, e - 3)
        } else if e == 2 {
            (m / 0x100, 0)
        } else if e == 1 {
            (m / 0x1_0000, 0)
        } else {
            (0, 0)
        }
    }

    /// Whether `self` stands for a larger number than `other`.
    pub fn gt(&self, other: &Compact256) -> (r: bool)
        ensures
            r == (compact_value(self.bits) > compact_value(other.bits)),
    {
        let (m1, a1) = self.scaled();
        let (m2, a2) = other.scaled();
        proof {
            let (x, y) = (scale_of(self.bits), scale_of(other.bits));
            lemma_pow_positive(256, x);
            lemma_pow_positive(256, y);
            if x >= y {
                lemma_pow_adds(256, (x - y) as nat, y);
                assert(compact_value(self.bits) == (m1 * pow(256, (x - y) as nat)) * pow(256, y))
                    by (nonlinear_arith)
                    requires
                        compact_value(self.bits) == m1 * pow(256, x),
                        pow(256, x) == pow(256, (x - y) as nat) * pow(256, y),
                ;
                lemma_scale_cmp(m1 * pow(256, (x - y) as nat), m2 as int, pow(256, y));
                if x - y >= 3 {
                    lemma_pow_increases(256, 3, (x - y) as nat);
                    lemma_small_pows();
                    assert(m1 > 0 ==> m1 * pow(256, (x - y) as nat) >= pow(256, (x - y) as nat))
                        by (nonlinear_arith)
                        requires
                            pow(256, (x - y) as nat) > 0,
                    ;
                } else {
                    lemma_small_pows();
                }
            } else {
                lemma_pow_adds(256, (y - x) as nat, x);
                assert(compact_value(other.bits) == (m2 * pow(256, (y - x) as nat)) * pow(256, x))
                    by (nonlinear_arith)
                    requires
                        compact_value(other.bits) == m2 * pow(256, y),
                        pow(256, y) == pow(256, (y - x) as nat) * pow(256, x),
                ;
                lemma_scale_cmp(m1 as int, m2 * pow(256, (y - x) as nat), pow(256, x));
                if y - x >= 3 {
                    lemma_pow_increases(256, 3, (y - x) as nat);
                    lemma_small_pows();
                    assert(m2 > 0 ==> m2 * pow(256, (y - x) as nat) >= pow(256, (y - x) as nat))
                        by (nonlinear_arith)
                        requires
                            pow(256, (y - x) as nat) > 0,
                    ;
                } else {
                    lemma_small_pows();
                }
            }
        }
        if a1 >= a2 {
            let d = a1 - a2;
            if m1 == 0 {
                false
            } else if d >= 3 {
                true
            } else {
                let f: u64 = if d == 0 { 1 } else if d == 1 { 0x100 } else { 0x1_0000 };
                (m1 as u64) * f > m2 as u64
            }
        } else {
            let d = a2 - a1;
            if m2 == 0 {
                m1 > 0
            } else if d >= 3 {
                false
            } else {
                let f: u64 = if d == 1 { 0x100 } else { 0x1_0000 };
                m1 as u64 > (m2 as u64) * f
            }
        }
    }
}

/// A packed value is written as its 32 bits in little-endian order.
impl SerializableLittleEndian for Compact256 {
    open spec fn le_bytes(&self) -> Seq<u8> {
        self.bits.le_bytes()
    }

    fn le_serialize(&self, stream: &mut Vec<u8>) {
        self.bits.le_serialize(stream);
    }

    fn le_deserialize(data: &[u8], pos: usize) -> (r: Result<(Self, usize), ErrorSerialization>) {
        match u32::le_deserialize(data, pos) {
            Ok((bits, end)) => {
                let v = Compact256 { bits };
                assert(v.le_bytes() == bits.le_bytes());
                Ok((v, end))
            },
            Err(e) => {
                proof {
                    assert forall|v: Compact256| !crate::serialization::holds_at(data@, pos as int, #[trigger] v.le_bytes()) by {
                        if crate::serialization::holds_at(data@, pos as int, v.le_bytes()) {
                            assert(crate::serialization::holds_at(data@, pos as int, v.bits.le_bytes()));
                        }
                    }
                }
                Err(e)
            },
        }
    }

    proof fn lemma_le_unique(data: Seq<u8>, pos: int, a: Self, b: Self) {
        u32::lemma_le_unique(data, pos, a.bits, b.bits);
    }
}

} // verus!
