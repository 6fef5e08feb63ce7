use vstd::prelude::*;

verus! {

/// The number of distinct sequence numbers: they are 31-bit values.
pub const SEQ_MODULUS: u32 = 0x8000_0000;

/// A 31-bit sequence number, compared modulo `2^31`.
#[derive(Clone, Copy, Debug, PartialEq, Eq, Structural)]
pub struct SeqNumber(u32);

/// `a` comes strictly before `b` on the circle: `b` lies on the near half ahead of `a`.
pub open spec fn seq_lt(a: int, b: int) -> bool {
    let d = (b - a) % (SEQ_MODULUS as int);
    0 < d < 0x4000_0000
}

/// The number `n` steps after `a` on the circle.
pub open spec fn seq_add(a: int, n: int) -> int {
    (a + n) % (SEQ_MODULUS as int)
}

impl SeqNumber {
    #[verifier::type_invariant]
    spec fn in_range(self) -> bool {
        self.0 < SEQ_MODULUS
    }

    /// The value of the number, in `[0, 2^31)`.
    pub closed spec fn value(self) -> int {
        self.0 as int % (SEQ_MODULUS as int)
    }

    /// Every sequence number lies in `[0, 2^31)`.
    pub broadcast proof fn lemma_range(s: SeqNumber)
        ensures
            0 <= #[trigger] s.value() < SEQ_MODULUS,
    {
    }

    /// Keeps the low 31 bits of `raw`.
    pub fn new_truncate(raw: u32) -> (r: SeqNumber)
        ensures
            r.value() == raw as int % (SEQ_MODULUS as int),
    {
        let v = raw & 0x7FFF_FFFF;
        assert(raw & 0x7FFF_FFFF == raw % 0x8000_0000) by (bit_vector);
        SeqNumber(v)
    }

    /// The value as a plain integer.
    pub fn as_raw(&self) -> (r: u32)
        ensures
            r as int == self.value(),
            r < SEQ_MODULUS,
    {
        proof { use_type_invariant(self); }
        self.0
    }

    /// The number one step later on the circle.
    pub fn succ(&self) -> (r: SeqNumber)
        ensures
            r.value() == seq_add(self.value(), 1),
    {
        proof { use_type_invariant(self); }
        if self.0 == SEQ_MODULUS - 1 {
            SeqNumber(0)
        } else {
            SeqNumber(self.0 + 1)
        }
    }

    /// Modular comparison: `self` comes strictly before `other`.
    pub fn lt(&self, other: &SeqNumber) -> (r: bool)
        ensures
            r == seq_lt(self.value(), other.value()),
    {
        proof { use_type_invariant(self); use_type_invariant(other); }
        let d: u32 = if other.0 >= self.0 {
            other.0 - self.0
        } else {
            SEQ_MODULUS - self.0 + other.0
        };
        0 < d && d < 0x4000_0000
    }
}

} // verus!
