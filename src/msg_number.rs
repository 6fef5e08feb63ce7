use vstd::prelude::*;

verus! {

/// The number of distinct message numbers: they are 29-bit values.
pub const MSG_MODULUS: u32 = 0x2000_0000;

/// A 29-bit message number, compared modulo `2^29`.
#[derive(Clone, Copy, Debug, PartialEq, Eq, Structural)]
pub struct MsgNumber(u32);

/// `a` comes strictly before `b` on the circle of message numbers: `b` lies on the
/// near half ahead of `a`.
pub open spec fn msg_lt(a: int, b: int) -> bool {
    let d = (b - a) % (MSG_MODULUS as int);
    0 < d < 0x1000_0000
}

impl MsgNumber {
    #[verifier::type_invariant]
    spec fn in_range(self) -> bool {
        self.0 < MSG_MODULUS
    }

    /// The value of the number, in `[0, 2^29)`.
    pub closed spec fn value(self) -> int {
        self.0 as int % (MSG_MODULUS as int)
    }

    /// Every message number lies in `[0, 2^29)`.
    pub broadcast proof fn lemma_range(m: MsgNumber)
        ensures
            0 <= #[trigger] m.value() < MSG_MODULUS,
    {
    }

    /// Keeps the low 29 bits of `raw`.
    pub fn new_truncate(raw: u32) -> (r: MsgNumber)
        ensures
            r.value() == raw as int % (MSG_MODULUS as int),
    {
        let v = raw & 0x1FFF_FFFF;
        assert(raw & 0x1FFF_FFFF == raw % 0x2000_0000) by (bit_vector);
        MsgNumber(v)
    }

    /// The value as a plain integer.
    pub fn as_raw(&self) -> (r: u32)
        ensures
            r as int == self.value(),
            r < MSG_MODULUS,
    {
        proof {
            use_type_invariant(self);
        }
        self.0
    }

    /// The number of the next message: one step later on the circle.
    pub fn succ(&self) -> (r: MsgNumber)
        ensures
            r.value() == (self.value() + 1) % (MSG_MODULUS as int),
    {
        proof {
            use_type_invariant(self);
        }
        if self.0 == MSG_MODULUS - 1 {
            MsgNumber(0)
        } else {
            MsgNumber(self.0 + 1)
        }
    }

    /// Modular comparison: `self` comes strictly before `other`.
    pub fn lt(&self, other: &MsgNumber) -> (r: bool)
        ensures
            r == msg_lt(self.value(), other.value()),
    {
        proof {
            use_type_invariant(self);
            use_type_invariant(other);
        }
        let d: u32 = if other.0 >= self.0 {
            other.0 - self.0
        } else {
            MSG_MODULUS - self.0 + other.0
        };
        0 < d && d < 0x1000_0000
    }
}

} // verus!
