use vstd::prelude::*;

use crate::loss_compression::{compress_loss_list, encode, stepping, values};
use crate::seq_number::{seq_add, seq_lt, SeqNumber, SEQ_MODULUS};

verus! {

broadcast use crate::seq_number::SeqNumber::lemma_range;

/// What became of an arriving data packet.
#[derive(Debug, PartialEq, Eq)]
pub enum Arrival {
    /// It lies beyond the largest number received so far. The numbers skipped
    /// over are now lost, and the words of a NAK that reports them are given:
    /// none where nothing was skipped.
    Fresh(Vec<u32>),
    /// It was lost and has now come: it leaves the loss list.
    Recovered,
    /// It was received before: it is discarded.
    Duplicate,
}

/// The numbers strictly between `largest` and `s` on the circle.
pub open spec fn gap(largest: int, s: int) -> Seq<int> {
    stepping(seq_add(largest, 1), (s - largest) % (SEQ_MODULUS as int) - 1)
}

/// `lost` without the first entry equal to `s`.
pub open spec fn remove_value(lost: Seq<int>, s: int) -> Seq<int>
    decreases lost.len(),
{
    if lost.len() == 0 {
        lost
    } else if lost[0] == s {
        lost.subrange(1, lost.len() as int)
    } else {
        seq![lost[0]] + remove_value(lost.subrange(1, lost.len() as int), s)
    }
}

/// The largest number received after `s` arrives.
pub open spec fn next_largest(largest: int, s: int) -> int {
    if seq_lt(largest, s) {
        s
    } else {
        largest
    }
}

/// The loss list after `s` arrives.
pub open spec fn next_lost(largest: int, lost: Seq<int>, s: int) -> Seq<int> {
    if seq_lt(largest, s) {
        lost + gap(largest, s)
    } else {
        remove_value(lost, s)
    }
}

proof fn lemma_gap_end(l: int, s: int)
    requires
        0 <= l < SEQ_MODULUS,
        0 <= s < SEQ_MODULUS,
        seq_lt(l, s),
    ensures
        seq_add(seq_add(l, 1), (s - l) % (SEQ_MODULUS as int) - 1) == s,
        0 <= (s - l) % (SEQ_MODULUS as int) - 1 < 0x4000_0000,
{
    if s >= l {
        assert((s - l) % (SEQ_MODULUS as int) == s - l);
    } else {
        assert((s - l) % (SEQ_MODULUS as int) == s - l + SEQ_MODULUS);
    }
    if l + 1 < SEQ_MODULUS {
        assert(seq_add(l, 1) == l + 1);
    } else {
        assert(seq_add(l, 1) == 0);
    }
}

proof fn lemma_step_distinct(first: int, k: int, count: int)
    requires
        0 <= first < SEQ_MODULUS,
        0 <= k < count < SEQ_MODULUS,
    ensures
        seq_add(first, k) != seq_add(first, count),
{
    if first + k < SEQ_MODULUS {
        assert(seq_add(first, k) == first + k);
    } else {
        assert(seq_add(first, k) == first + k - SEQ_MODULUS);
    }
    if first + count < SEQ_MODULUS {
        assert(seq_add(first, count) == first + count);
    } else {
        assert(seq_add(first, count) == first + count - SEQ_MODULUS);
    }
}

pub(crate) proof fn lemma_stepping_ascending(first: int, count: int)
    requires
        0 <= first < SEQ_MODULUS,
        0 <= count,
    ensures
        crate::loss_compression::ascending(stepping(first, count)),
{
    let st = stepping(first, count);
    assert forall|i: int| 0 <= i < st.len() - 1 implies #[trigger] seq_lt(st[i], st[i + 1]) by {
        let a = seq_add(first, i);
        vstd::arithmetic::div_mod::lemma_add_mod_noop(first + i, 1, SEQ_MODULUS as int);
        vstd::arithmetic::div_mod::lemma_mod_twice(first + i, SEQ_MODULUS as int);
        assert(st[i + 1] == seq_add(a, 1));
        assert(0 <= a < SEQ_MODULUS);
        if a + 1 < SEQ_MODULUS {
            assert(seq_add(a, 1) == a + 1);
        } else {
            assert(seq_add(a, 1) == 0);
        }
    }
}

/// The receiver's record of the largest sequence number received and of the
/// numbers before it that are known lost.
pub struct LossTracker {
    largest: SeqNumber,
    loss_list: Vec<SeqNumber>,
}

impl LossTracker {
    /// The largest sequence number received.
    pub closed spec fn largest(self) -> int {
        self.largest.value()
    }

    /// The numbers known lost, in the order in which they were found lost.
    pub closed spec fn lost(self) -> Seq<int> {
        values(self.loss_list@)
    }

    /// A tracker for a peer whose first sequence number is `initial`: nothing
    /// received and nothing lost.
    pub fn new(initial: SeqNumber) -> (r: LossTracker)
        ensures
            seq_add(r.largest(), 1) == initial.value(),
            r.lost() == Seq::<int>::empty(),
    {
        let raw = initial.as_raw();
        let largest = if raw == 0 {
            SeqNumber::new_truncate(SEQ_MODULUS - 1)
        } else {
            SeqNumber::new_truncate(raw - 1)
        };
        let r = LossTracker { largest, loss_list: Vec::new() };
        assert(r.lost() =~= Seq::<int>::empty());
        r
    }

    /// The numbers known lost, in the order in which they were found lost.
    pub fn loss_list(&self) -> (r: &Vec<SeqNumber>)
        ensures
            values(r@) == self.lost(),
    {
        &self.loss_list
    }

    /// Records the arrival of a data packet numbered `s`.
    pub fn on_data(&mut self, s: SeqNumber) -> (r: Arrival)
        ensures
            final(self).largest() == next_largest(old(self).largest(), s.value()),
            final(self).lost() == next_lost(old(self).largest(), old(self).lost(), s.value()),
            seq_lt(old(self).largest(), s.value()) ==> (r matches Arrival::Fresh(nak) && nak@
                == encode(gap(old(self).largest(), s.value()))),
            !seq_lt(old(self).largest(), s.value()) && old(self).lost().contains(s.value())
                ==> r == Arrival::Recovered,
            !seq_lt(old(self).largest(), s.value()) && !old(self).lost().contains(s.value())
                ==> r == Arrival::Duplicate,
    {
        let ghost l = self.largest();
        let ghost lost = self.lost();
        if self.largest.lt(&s) {
            let ghost count = (s.value() - l) % (SEQ_MODULUS as int) - 1;
            let ghost first = seq_add(l, 1);
            proof {
                lemma_gap_end(l, s.value());
            }
            let mut fresh: Vec<SeqNumber> = Vec::new();
            let mut cur = self.largest.succ();
            let target = s.as_raw();
            assert(values(fresh@) =~= stepping(first, 0));
            assert(values(self.loss_list@) =~= lost + stepping(first, 0));
            while cur.as_raw() != target
                invariant
                    0 <= l < SEQ_MODULUS,
                    0 <= first < SEQ_MODULUS,
                    0 <= count < 0x4000_0000,
                    0 <= fresh@.len() <= count,
                    first == seq_add(l, 1),
                    cur.value() == seq_add(first, fresh@.len() as int),
                    values(fresh@) == stepping(first, fresh@.len() as int),
                    values(self.loss_list@) == lost + stepping(first, fresh@.len() as int),
                    target == s.value(),
                    seq_add(first, count) == s.value(),
                decreases count - fresh@.len(),
            {
                proof {
                    lemma_step_distinct(first, fresh@.len() as int, count);
                }
                let ghost k = fresh@.len() as int;
                let ghost before = self.loss_list@;
                fresh.push(cur);
                self.loss_list.push(cur);
                assert(stepping(first, k + 1) =~= stepping(first, k) + seq![cur.value()]);
                assert(values(fresh@) =~= stepping(first, k + 1));
                assert(values(self.loss_list@) =~= values(before) + seq![cur.value()]);
                cur = cur.succ();
                proof {
                    vstd::arithmetic::div_mod::lemma_add_mod_noop(first + k, 1, SEQ_MODULUS as int);
                }
            }
            proof {
                if fresh@.len() < count {
                    lemma_step_distinct(first, fresh@.len() as int, count);
                }
                lemma_stepping_ascending(first, count);
            }
            assert(stepping(first, count) =~= gap(l, s.value()));
            self.largest = s;
            // The numbers skipped over are ascending, so the encoding succeeds.
            return match compress_loss_list(fresh) {
                Ok(words) => Arrival::Fresh(words),
                Err(_) => Arrival::Fresh(Vec::new()),
            };
        }
        let n = self.loss_list.len();
        let mut i: usize = 0;
        assert(lost.subrange(0, 0) + remove_value(lost.subrange(0, n as int), s.value()) =~= remove_value(lost, s.value())) by {
            assert(lost.subrange(0, n as int) =~= lost);
        }
        while i < n
            invariant
                l == old(self).largest(),
                lost == old(self).lost(),
                self.largest() == l,
                !seq_lt(l, s.value()),
                n == self.loss_list.len(),
                values(self.loss_list@) == lost,
                i <= n,
                forall|k: int| 0 <= k < i ==> lost[k] != s.value(),
                remove_value(lost, s.value()) == lost.subrange(0, i as int) + remove_value(
                    lost.subrange(i as int, n as int),
                    s.value(),
                ),
            decreases n - i,
        {
            let ghost rest = lost.subrange(i as int, n as int);
            assert(rest.subrange(1, rest.len() as int) =~= lost.subrange(i + 1, n as int));
            if self.loss_list[i].as_raw() == s.as_raw() {
                let ghost before = self.loss_list@;
                assert(remove_value(rest, s.value()) == rest.subrange(1, rest.len() as int));
                self.loss_list.remove(i);
                assert(lost.contains(s.value())) by {
                    assert(lost[i as int] == s.value());
                }
                assert(values(self.loss_list@) =~= lost.subrange(0, i as int) + lost.subrange(
                    i + 1,
                    n as int,
                )) by {
                    assert(self.loss_list@ =~= before.subrange(0, i as int) + before.subrange(i + 1, n as int));
                }
                return Arrival::Recovered;
            }
            assert(lost.subrange(0, i + 1) =~= lost.subrange(0, i as int) + seq![lost[i as int]]);
            i = i + 1;
        }
        assert(!lost.contains(s.value()));
        assert(lost.subrange(n as int, n as int) =~= Seq::<int>::empty());
        assert(lost.subrange(0, n as int) =~= lost);
        Arrival::Duplicate
    }
}

proof fn lemma_remove_value_gone(lost: Seq<int>, s: int)
    requires
        lost.no_duplicates(),
    ensures
        !remove_value(lost, s).contains(s),
    decreases lost.len(),
{
    if lost.len() > 0 {
        let rest = lost.subrange(1, lost.len() as int);
        assert(rest.no_duplicates());
        if lost[0] == s {
            assert forall|k: int| 0 <= k < rest.len() implies rest[k] != s by {
                assert(lost[k + 1] == rest[k]);
            }
        } else {
            lemma_remove_value_gone(rest, s);
            assert(remove_value(lost, s) =~= seq![lost[0]] + remove_value(rest, s));
            assert forall|k: int| 0 <= k < remove_value(lost, s).len() implies remove_value(
                lost,
                s,
            )[k] != s by {
                if k > 0 {
                    assert(remove_value(lost, s)[k] == remove_value(rest, s)[k - 1]);
                }
            }
        }
    }
}

/// A data packet that arrives a second time is discarded: after its first arrival
/// it is neither beyond the largest number received nor in the loss list. This
/// holds while the numbers in the loss list are distinct and each lies within
/// half the circle behind the largest number received.
pub proof fn lemma_duplicate_discarded(largest: int, lost: Seq<int>, s: SeqNumber)
    requires
        0 <= largest < SEQ_MODULUS,
        lost.no_duplicates(),
        forall|k: int| 0 <= k < lost.len() ==> #[trigger] seq_lt(lost[k], largest),
    ensures
        !seq_lt(next_largest(largest, s.value()), s.value()),
        !next_lost(largest, lost, s.value()).contains(s.value()),
{
    let v = s.value();
    if seq_lt(largest, v) {
        let count = (v - largest) % (SEQ_MODULUS as int) - 1;
        let first = seq_add(largest, 1);
        lemma_gap_end(largest, v);
        let next = lost + gap(largest, v);
        assert forall|k: int| 0 <= k < next.len() implies next[k] != v by {
            if k < lost.len() {
                assert(seq_lt(lost[k], largest));
                if lost[k] == v {
                    if v >= largest {
                        assert((v - largest) % (SEQ_MODULUS as int) == v - largest);
                        assert((largest - v) % (SEQ_MODULUS as int) == largest - v + SEQ_MODULUS);
                    } else {
                        assert((v - largest) % (SEQ_MODULUS as int) == v - largest + SEQ_MODULUS);
                        assert((largest - v) % (SEQ_MODULUS as int) == largest - v);
                    }
                }
            } else {
                assert(next[k] == seq_add(first, k - lost.len()));
                lemma_step_distinct(first, k - lost.len(), count);
            }
        }
    } else {
        lemma_remove_value_gone(lost, v);
    }
}

} // verus!
