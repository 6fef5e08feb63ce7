use std::collections::VecDeque;

use vstd::prelude::*;

use crate::loss_compression::{ascending, stepping};
use crate::sender::MAX_FLOW_WINDOW;
use crate::seq_number::{seq_add, SeqNumber, SEQ_MODULUS};

verus! {

broadcast use crate::seq_number::SeqNumber::lemma_range;

/// A received data packet waiting for its delivery time.
pub struct Slot {
    pub deadline_us: u64,
    pub payload: Vec<u8>,
}

/// What the receiver hands to the application, in order of sequence number.
#[derive(Debug, PartialEq, Eq)]
pub enum Delivery {
    /// A received packet whose delivery time has come.
    Message { seq: SeqNumber, payload: Vec<u8> },
    /// A number that never arrived and whose delivery time has passed: it is
    /// skipped.
    Gap { seq: SeqNumber },
}

/// A slot as plain values: its deadline and payload, or `None` for a number not
/// received.
pub open spec fn slot_view(o: Option<Slot>) -> Option<(int, Seq<u8>)> {
    match o {
        Some(s) => Some((s.deadline_us as int, s.payload@)),
        None => None,
    }
}

/// The slot is a packet with payload `p`.
pub open spec fn holds(o: Option<(int, Seq<u8>)>, p: Seq<u8>) -> bool {
    match o {
        Some((_, q)) => q == p,
        None => false,
    }
}

/// The slot is a packet due at `now`.
pub open spec fn ready(o: Option<(int, Seq<u8>)>, now: int) -> bool {
    match o {
        Some((d, _)) => d <= now,
        None => false,
    }
}

/// The first slot can be handed out at `now`: it is a packet that is due, or a
/// missing number behind a packet that is due.
pub open spec fn front_due(slots: Seq<Option<(int, Seq<u8>)>>, now: int) -> bool {
    slots.len() > 0 && (ready(slots[0], now) || (slots[0] is None && exists|j: int|
        1 <= j < slots.len() && #[trigger] ready(slots[j], now)))
}

/// The receive buffer: slot `k` stands for the number `next_release + k`.
pub struct ReceiveBuffer {
    next_release: SeqNumber,
    capacity: u32,
    slots: VecDeque<Option<Slot>>,
}

impl ReceiveBuffer {
    /// The number that is handed out next.
    pub closed spec fn next_release(self) -> int {
        self.next_release.value()
    }

    /// The slots, from `next_release` on.
    pub closed spec fn slots(self) -> Seq<Option<(int, Seq<u8>)>> {
        self.slots@.map_values(|o: Option<Slot>| slot_view(o))
    }

    /// How many numbers from `next_release` on the buffer can hold.
    pub closed spec fn capacity(self) -> int {
        self.capacity as int
    }

    /// The slots fit in the capacity.
    pub closed spec fn wf(self) -> bool {
        self.slots@.len() <= self.capacity <= MAX_FLOW_WINDOW
    }

    /// An empty buffer whose first number is `initial`, holding up to `capacity`
    /// numbers; a capacity above `MAX_FLOW_WINDOW` is cut to it.
    pub fn new(initial: SeqNumber, capacity: u32) -> (r: ReceiveBuffer)
        ensures
            r.wf(),
            r.next_release() == initial.value(),
            r.capacity() == if capacity <= MAX_FLOW_WINDOW {
                capacity
            } else {
                MAX_FLOW_WINDOW
            },
            r.slots() == Seq::<Option<(int, Seq<u8>)>>::empty(),
    {
        let capacity = if capacity <= MAX_FLOW_WINDOW {
            capacity
        } else {
            MAX_FLOW_WINDOW
        };
        let r = ReceiveBuffer { next_release: initial, capacity, slots: VecDeque::new() };
        assert(r.slots() =~= Seq::<Option<(int, Seq<u8>)>>::empty());
        r
    }

    /// Stores a packet numbered `s`, due at `deadline_us`, and says whether it was
    /// stored. Nothing is stored where the number is held already, or lies at or
    /// beyond `capacity` numbers after `next_release`, which takes in every number
    /// handed out already.
    pub fn insert(&mut self, s: SeqNumber, deadline_us: u64, payload: Vec<u8>) -> (r: bool)
        requires
            old(self).wf(),
        ensures
            final(self).wf(),
            final(self).capacity() == old(self).capacity(),
            final(self).next_release() == old(self).next_release(),
            ({
                let k = (s.value() - old(self).next_release()) % (SEQ_MODULUS as int);
                let len = old(self).slots().len() as int;
                &&& k < len && old(self).slots()[k] is None ==> r && final(self).slots() == old(
                    self,
                ).slots().update(k, Some((deadline_us as int, payload@)))
                &&& k < len && old(self).slots()[k] is Some ==> !r && final(self).slots() == old(
                    self,
                ).slots()
                &&& len <= k < old(self).capacity() ==> r && final(self).slots() == old(
                    self,
                ).slots() + Seq::new((k - len) as nat, |i: int| None::<(int, Seq<u8>)>) + seq![
                    Some((deadline_us as int, payload@)),
                ]
                &&& k >= old(self).capacity() ==> !r && final(self).slots() == old(self).slots()
            }),
    {
        let first = self.next_release.as_raw();
        let m = s.as_raw();
        let k: u32 = if m >= first {
            m - first
        } else {
            SEQ_MODULUS - first + m
        };
        let ghost old_slots = self.slots();
        let ghost p = payload@;
        let len = self.slots.len();
        if k >= self.capacity {
            return false;
        }
        let k = k as usize;
        if k < len {
            if self.slots[k].is_some() {
                return false;
            }
            self.slots.remove(k);
            self.slots.insert(k, Some(Slot { deadline_us, payload }));
            assert(self.slots() =~= old_slots.update(
                k as int,
                Some((deadline_us as int, p)),
            ));
            return true;
        }
        let mut i: usize = len;
        while i < k
            invariant
                len <= i <= k,
                k < self.capacity,
                self.wf(),
                self.capacity() == old(self).capacity(),
                self.next_release() == old(self).next_release(),
                old_slots == old(self).slots(),
                len == old_slots.len(),
                self.slots() == old_slots + Seq::new((i - len) as nat, |j: int| None::<(int, Seq<u8>)>),
            decreases k - i,
        {
            let ghost before = self.slots();
            self.slots.push_back(None);
            assert(self.slots() =~= before.push(None));
            assert(self.slots() =~= old_slots + Seq::new((i + 1 - len) as nat, |j: int| None::<(int, Seq<u8>)>));
            i = i + 1;
        }
        let ghost before = self.slots();
        self.slots.push_back(Some(Slot { deadline_us, payload }));
        assert(self.slots() =~= before.push(Some((deadline_us as int, p))));
        true
    }

    /// Whether some slot after the first holds a packet due at `now`.
    fn later_due(&self, now: u64) -> (r: bool)
        ensures
            r == exists|j: int| 1 <= j < self.slots().len() && #[trigger] ready(self.slots()[j], now as int),
    {
        let n = self.slots.len();
        let mut j: usize = 1;
        while j < n
            invariant
                n == self.slots@.len(),
                1 <= j,
                forall|i: int| 1 <= i < j && i < n ==> !#[trigger] ready(self.slots()[i], now as int),
            decreases n - j,
        {
            match &self.slots[j] {
                Some(s) => {
                    if s.deadline_us <= now {
                        assert(ready(self.slots()[j as int], now as int));
                        return true;
                    }
                },
                None => {},
            }
            j = j + 1;
        }
        false
    }

    /// Hands out, in order, every slot from the front that is due at `now`: a
    /// packet whose deadline has come, or a missing number behind one.
    pub fn release(&mut self, now: u64) -> (r: Vec<Delivery>)
        requires
            old(self).wf(),
        ensures
            final(self).wf(),
            final(self).capacity() == old(self).capacity(),
            r@.len() <= old(self).slots().len(),
            forall|k: int| 0 <= k < r@.len() ==> front_due(
                #[trigger] old(self).slots().subrange(k, old(self).slots().len() as int),
                now as int,
            ),
            !front_due(old(self).slots().subrange(r@.len() as int, old(self).slots().len() as int), now as int),
            final(self).slots() == old(self).slots().subrange(r@.len() as int, old(self).slots().len() as int),
            final(self).next_release() == seq_add(old(self).next_release(), r@.len() as int),
            forall|k: int| 0 <= k < r@.len() ==> match #[trigger] r@[k] {
                Delivery::Message { seq, payload } => seq.value() == seq_add(old(self).next_release(), k)
                    && holds(old(self).slots()[k], payload@),
                Delivery::Gap { seq } => seq.value() == seq_add(old(self).next_release(), k)
                    && old(self).slots()[k] is None,
            },
    {
        let ghost s0 = self.slots();
        let ghost n0 = self.next_release();
        let mut out: Vec<Delivery> = Vec::new();
        assert(s0.subrange(0, s0.len() as int) =~= s0);
        loop
            invariant
                self.wf(),
                self.capacity() == old(self).capacity(),
                s0 == old(self).slots(),
                n0 == old(self).next_release(),
                0 <= n0 < SEQ_MODULUS,
                out@.len() <= s0.len(),
                self.slots() == s0.subrange(out@.len() as int, s0.len() as int),
                self.next_release() == seq_add(n0, out@.len() as int),
                forall|k: int| 0 <= k < out@.len() ==> front_due(
                    #[trigger] s0.subrange(k, s0.len() as int),
                    now as int,
                ),
                forall|k: int| 0 <= k < out@.len() ==> match #[trigger] out@[k] {
                    Delivery::Message { seq, payload } => seq.value() == seq_add(n0, k)
                        && holds(s0[k], payload@),
                    Delivery::Gap { seq } => seq.value() == seq_add(n0, k) && s0[k] is None,
                },
            ensures
                self.wf(),
                self.capacity() == old(self).capacity(),
                out@.len() <= s0.len(),
                self.slots() == s0.subrange(out@.len() as int, s0.len() as int),
                self.next_release() == seq_add(n0, out@.len() as int),
                !front_due(s0.subrange(out@.len() as int, s0.len() as int), now as int),
                forall|k: int| 0 <= k < out@.len() ==> front_due(
                    #[trigger] s0.subrange(k, s0.len() as int),
                    now as int,
                ),
                forall|k: int| 0 <= k < out@.len() ==> match #[trigger] out@[k] {
                    Delivery::Message { seq, payload } => seq.value() == seq_add(n0, k)
                        && holds(s0[k], payload@),
                    Delivery::Gap { seq } => seq.value() == seq_add(n0, k) && s0[k] is None,
                },
            decreases s0.len() - out@.len(),
        {
            let ghost cur = self.slots();
            if self.slots.len() == 0 {
                break;
            }
            let due = match &self.slots[0] {
                Some(s) => s.deadline_us <= now,
                None => self.later_due(now),
            };
            if !due {
                break;
            }
            assert(front_due(cur, now as int));
            let ghost k = out@.len() as int;
            let ghost before = self.slots@;
            let seq = self.next_release;
            let front = self.slots.pop_front();
            assert(self.slots() =~= cur.subrange(1, cur.len() as int));
            assert(s0.subrange(k + 1, s0.len() as int) =~= cur.subrange(1, cur.len() as int));
            match front {
                Some(Some(slot)) => {
                    out.push(Delivery::Message { seq, payload: slot.payload });
                },
                _ => {
                    out.push(Delivery::Gap { seq });
                },
            }
            self.next_release = seq.succ();
            proof {
                vstd::arithmetic::div_mod::lemma_add_mod_noop(n0 + k, 1, SEQ_MODULUS as int);
                vstd::arithmetic::div_mod::lemma_mod_twice(n0 + k, SEQ_MODULUS as int);
            }
        }
        out
    }
}

/// The receiver never hands out of order: `release` hands out the numbers
/// `next_release + k` for `k = 0, 1, ...` and the next call goes on from where
/// the last one stopped, so the numbers handed out, however many, strictly ascend.
pub proof fn lemma_release_ascending(first: SeqNumber, count: int)
    requires
        0 <= count,
    ensures
        ascending(stepping(first.value(), count)),
{
    crate::receiver::lemma_stepping_ascending(first.value(), count);
}

} // verus!
