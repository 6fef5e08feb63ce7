use std::collections::VecDeque;

use vstd::prelude::*;

use crate::seq_number::{seq_add, seq_lt, SeqNumber, SEQ_MODULUS};

verus! {

broadcast use crate::seq_number::SeqNumber::lemma_range;

/// The largest flow window a send buffer takes: beyond it, modular order could no
/// longer tell its oldest packet from its newest.
pub const MAX_FLOW_WINDOW: u32 = 0x3FFF_FFFF;

/// The sender's outstanding data packets, from the oldest unacknowledged one to
/// the last one sent; the packet at position `k` carries the number
/// `first_unacked + k`.
pub struct SendBuffer {
    first_unacked: SeqNumber,
    next_to_send: SeqNumber,
    flow_window: u32,
    packets: VecDeque<Vec<u8>>,
}

impl SendBuffer {
    /// The number of the oldest packet not acknowledged yet.
    pub closed spec fn first_unacked(self) -> int {
        self.first_unacked.value()
    }

    /// The number that the next packet sent takes.
    pub closed spec fn next_to_send(self) -> int {
        self.next_to_send.value()
    }

    /// The most packets the buffer holds at once.
    pub closed spec fn flow_window(self) -> int {
        self.flow_window as int
    }

    /// The payloads of the outstanding packets, oldest first.
    pub closed spec fn payloads(self) -> Seq<Seq<u8>> {
        self.packets@.map_values(|p: Vec<u8>| p@)
    }

    /// The packets fill the numbers from `first_unacked` up to `next_to_send`,
    /// and there are no more of them than the flow window allows.
    pub closed spec fn wf(self) -> bool {
        &&& self.packets@.len() <= self.flow_window <= MAX_FLOW_WINDOW
        &&& self.next_to_send.value() == seq_add(
            self.first_unacked.value(),
            self.packets@.len() as int,
        )
    }

    /// An empty buffer whose first packet takes the number `initial`. A flow
    /// window above `MAX_FLOW_WINDOW` is cut to it.
    pub fn new(initial: SeqNumber, flow_window: u32) -> (r: SendBuffer)
        ensures
            r.wf(),
            r.first_unacked() == initial.value(),
            r.next_to_send() == initial.value(),
            r.flow_window() == if flow_window <= MAX_FLOW_WINDOW {
                flow_window
            } else {
                MAX_FLOW_WINDOW
            },
            r.payloads() == Seq::<Seq<u8>>::empty(),
    {
        let window = if flow_window <= MAX_FLOW_WINDOW {
            flow_window
        } else {
            MAX_FLOW_WINDOW
        };
        let r = SendBuffer {
            first_unacked: initial,
            next_to_send: initial,
            flow_window: window,
            packets: VecDeque::new(),
        };
        proof {
            vstd::arithmetic::div_mod::lemma_small_mod(initial.value() as nat, SEQ_MODULUS as nat);
        }
        assert(r.payloads() =~= Seq::<Seq<u8>>::empty());
        r
    }

    /// How many packets are outstanding.
    pub fn len(&self) -> (r: usize)
        ensures
            r == self.payloads().len(),
    {
        self.packets.len()
    }

    /// Sends a packet with `payload`: it takes the next number, which is returned.
    /// `None` where the flow window is full.
    pub fn push(&mut self, payload: Vec<u8>) -> (r: Option<SeqNumber>)
        requires
            old(self).wf(),
        ensures
            final(self).wf(),
            final(self).flow_window() == old(self).flow_window(),
            final(self).first_unacked() == old(self).first_unacked(),
            old(self).payloads().len() < old(self).flow_window() ==> (r matches Some(n)
                && n.value() == old(self).next_to_send()),
            old(self).payloads().len() < old(self).flow_window() ==> final(self).next_to_send()
                == seq_add(old(self).next_to_send(), 1),
            old(self).payloads().len() < old(self).flow_window() ==> final(self).payloads()
                == old(self).payloads().push(payload@),
            old(self).payloads().len() >= old(self).flow_window() ==> r is None,
            old(self).payloads().len() >= old(self).flow_window() ==> final(self).next_to_send()
                == old(self).next_to_send(),
            old(self).payloads().len() >= old(self).flow_window() ==> final(self).payloads()
                == old(self).payloads(),
    {
        if self.packets.len() >= self.flow_window as usize {
            return None;
        }
        let n = self.next_to_send;
        let ghost before = self.packets@;
        let ghost p = payload@;
        self.packets.push_back(payload);
        self.next_to_send = n.succ();
        proof {
            vstd::arithmetic::div_mod::lemma_add_mod_noop(
                self.first_unacked.value() + before.len(),
                1,
                SEQ_MODULUS as int,
            );
            vstd::arithmetic::div_mod::lemma_small_mod(1, SEQ_MODULUS as nat);
        }
        assert(self.payloads() =~= before.map_values(|q: Vec<u8>| q@).push(p));
        Some(n)
    }

    /// Takes an acknowledgement of every packet numbered before `n`: those leave
    /// the buffer and `n` becomes the oldest unacknowledged number. An `n` outside
    /// `first_unacked ..= next_to_send` is ignored. Returns how many packets left.
    pub fn ack(&mut self, n: SeqNumber) -> (r: usize)
        requires
            old(self).wf(),
        ensures
            final(self).wf(),
            final(self).flow_window() == old(self).flow_window(),
            final(self).next_to_send() == old(self).next_to_send(),
            ({
                let k = (n.value() - old(self).first_unacked()) % (SEQ_MODULUS as int);
                k <= old(self).payloads().len() ==> r == k && final(self).first_unacked()
                    == n.value() && final(self).payloads() == old(self).payloads().subrange(
                    k,
                    old(self).payloads().len() as int,
                )
            }),
            ({
                let k = (n.value() - old(self).first_unacked()) % (SEQ_MODULUS as int);
                k > old(self).payloads().len() ==> r == 0 && final(self).first_unacked()
                    == old(self).first_unacked() && final(self).payloads() == old(self).payloads()
            }),
    {
        let f = self.first_unacked.as_raw();
        let m = n.as_raw();
        let k: u32 = if m >= f {
            m - f
        } else {
            SEQ_MODULUS - f + m
        };
        let len = self.packets.len();
        if k as usize > len {
            return 0;
        }
        let ghost before = self.packets@;
        let rest = self.packets.split_off(k as usize);
        self.packets = rest;
        self.first_unacked = n;
        let ghost l = before.len() as int;
        let ghost fi = f as int;
        proof {
            // the packets left fill the numbers from `n` on
            if fi + k < SEQ_MODULUS {
                assert(m as int == fi + k);
            } else {
                assert(m as int == fi + k - SEQ_MODULUS);
            }
            if fi + l < SEQ_MODULUS {
                assert(seq_add(fi, l) == fi + l);
            } else {
                assert(seq_add(fi, l) == fi + l - SEQ_MODULUS);
            }
            if m + (l - k) < SEQ_MODULUS {
                assert(seq_add(m as int, l - k) == m + (l - k));
            } else {
                assert(seq_add(m as int, l - k) == m + (l - k) - SEQ_MODULUS);
            }
        }
        assert(self.payloads() =~= before.map_values(|q: Vec<u8>| q@).subrange(k as int, l));
        k as usize
    }
}

/// At every steady state of a send buffer, `first_unacked` comes no later than
/// `next_to_send` in modular order, and the buffer holds exactly
/// `next_to_send - first_unacked` packets.
pub proof fn lemma_send_window(b: SendBuffer)
    requires
        b.wf(),
    ensures
        b.first_unacked() == b.next_to_send() || seq_lt(b.first_unacked(), b.next_to_send()),
        b.payloads().len() == (b.next_to_send() - b.first_unacked()) % (SEQ_MODULUS as int),
{
    let f = b.first_unacked();
    let l = b.payloads().len() as int;
    if f + l < SEQ_MODULUS {
        assert(b.next_to_send() == f + l);
    } else {
        assert(b.next_to_send() == f + l - SEQ_MODULUS);
    }
}

} // verus!
