use vstd::prelude::*;

use crate::seq_number::{seq_add, seq_lt, SeqNumber, SEQ_MODULUS};

verus! {

broadcast use crate::seq_number::SeqNumber::lemma_range;

/// Bit 31 of a word: set on the first word of a run.
pub const RUN_FLAG: u32 = 0x8000_0000;

/// Why a loss list could not be encoded or decoded.
#[derive(Clone, Copy, Debug, PartialEq, Eq, Structural)]
pub enum LossListError {
    /// The numbers to encode are not strictly ascending.
    OrderingViolation,
    /// The words end with the first word of a run.
    UnterminatedRun,
}

/// The plain values of a list of sequence numbers.
pub open spec fn values(xs: Seq<SeqNumber>) -> Seq<int> {
    xs.map_values(|x: SeqNumber| x.value())
}

/// Each number comes strictly before the next one on the circle.
pub open spec fn ascending(xs: Seq<int>) -> bool {
    forall|i: int| 0 <= i < xs.len() - 1 ==> #[trigger] seq_lt(xs[i], xs[i + 1])
}

/// The index of the last number of the run of consecutive numbers through index `i`.
pub open spec fn run_end(xs: Seq<int>, i: int) -> int
    decreases xs.len() - i,
{
    if 0 <= i && i + 1 < xs.len() && xs[i + 1] == seq_add(xs[i], 1) {
        run_end(xs, i + 1)
    } else {
        i
    }
}

/// The words that encode `xs` from index `i` on: a run of two or more consecutive
/// numbers becomes its first number with `RUN_FLAG` set and its last number, any
/// other number stands for itself.
pub open spec fn encode_from(xs: Seq<int>, i: int) -> Seq<u32>
    decreases xs.len() - i,
    via encode_from_decreases
{
    if i < 0 || i >= xs.len() {
        seq![]
    } else if run_end(xs, i) == i {
        seq![xs[i] as u32] + encode_from(xs, i + 1)
    } else {
        seq![(xs[i] + RUN_FLAG) as u32, xs[run_end(xs, i)] as u32] + encode_from(
            xs,
            run_end(xs, i) + 1,
        )
    }
}

#[via_fn]
proof fn encode_from_decreases(xs: Seq<int>, i: int) {
    if 0 <= i < xs.len() {
        lemma_run_end_bounds(xs, i);
    }
}

/// The words that encode `xs`.
pub open spec fn encode(xs: Seq<int>) -> Seq<u32> {
    encode_from(xs, 0)
}

/// The numbers from `start` to `end` inclusive, stepping forward on the circle.
pub open spec fn run_values(start: int, end: int) -> Seq<int> {
    let d = (end - start) % (SEQ_MODULUS as int);
    Seq::new((d + 1) as nat, |k: int| seq_add(start, k))
}

/// `p` put in front of a decoded list; nothing where decoding failed.
pub open spec fn prepend(p: Seq<int>, rest: Option<Seq<int>>) -> Option<Seq<int>> {
    match rest {
        Some(r) => Some(p + r),
        None => None,
    }
}

/// The numbers that the words `ws` stand for, or `None` where the words end with
/// the first word of a run.
pub open spec fn decode(ws: Seq<u32>) -> Option<Seq<int>>
    decreases ws.len(),
{
    if ws.len() == 0 {
        Some(seq![])
    } else if ws[0] < RUN_FLAG {
        prepend(seq![ws[0] as int], decode(ws.subrange(1, ws.len() as int)))
    } else if ws.len() < 2 {
        None
    } else {
        prepend(
            run_values(ws[0] - RUN_FLAG, ws[1] as int % (SEQ_MODULUS as int)),
            decode(ws.subrange(2, ws.len() as int)),
        )
    }
}

/// The numbers that the words `ws` stand for, up to a first word of a run that
/// ends the words.
pub open spec fn decoded_items(ws: Seq<u32>) -> Seq<int>
    decreases ws.len(),
{
    if ws.len() == 0 {
        seq![]
    } else if ws[0] < RUN_FLAG {
        seq![ws[0] as int] + decoded_items(ws.subrange(1, ws.len() as int))
    } else if ws.len() < 2 {
        seq![]
    } else {
        run_values(ws[0] - RUN_FLAG, ws[1] as int % (SEQ_MODULUS as int)) + decoded_items(
            ws.subrange(2, ws.len() as int),
        )
    }
}

/// The words `ws` do not end with the first word of a run.
pub open spec fn terminated(ws: Seq<u32>) -> bool
    decreases ws.len(),
{
    if ws.len() == 0 {
        true
    } else if ws[0] < RUN_FLAG {
        terminated(ws.subrange(1, ws.len() as int))
    } else if ws.len() < 2 {
        false
    } else {
        terminated(ws.subrange(2, ws.len() as int))
    }
}

proof fn lemma_decode_parts(ws: Seq<u32>)
    ensures
        decode(ws) == (if terminated(ws) {
            Some(decoded_items(ws))
        } else {
            None
        }),
    decreases ws.len(),
{
    if ws.len() > 0 {
        if ws[0] < RUN_FLAG {
            lemma_decode_parts(ws.subrange(1, ws.len() as int));
        } else if ws.len() >= 2 {
            lemma_decode_parts(ws.subrange(2, ws.len() as int));
        }
    }
}

/// The `count` numbers that start at `first` and step forward on the circle.
pub open spec fn stepping(first: int, count: int) -> Seq<int> {
    Seq::new(count as nat, |k: int| seq_add(first, k))
}

proof fn lemma_stepping_rest(first: int, count: int)
    requires
        0 <= first < SEQ_MODULUS,
        count >= 1,
    ensures
        stepping(first, count).subrange(1, count) =~= stepping(seq_add(first, 1), count - 1),
{
    assert forall|k: int| 0 <= k < count - 1 implies #[trigger] stepping(first, count)[k + 1]
        == stepping(seq_add(first, 1), count - 1)[k] by {
        vstd::arithmetic::div_mod::lemma_add_mod_noop(first + 1, k, SEQ_MODULUS as int);
        vstd::arithmetic::div_mod::lemma_mod_twice(first + 1, SEQ_MODULUS as int);
    }
}

proof fn lemma_run_end_bounds(xs: Seq<int>, i: int)
    requires
        0 <= i < xs.len(),
    ensures
        i <= run_end(xs, i) < xs.len(),
    decreases xs.len() - i,
{
    if i + 1 < xs.len() && xs[i + 1] == seq_add(xs[i], 1) {
        lemma_run_end_bounds(xs, i + 1);
    }
}

/// Tells whether each number comes strictly before the next one on the circle.
fn is_ascending(loss_list: &Vec<SeqNumber>) -> (r: bool)
    ensures
        r == ascending(values(loss_list@)),
{
    let ghost xs = values(loss_list@);
    let n = loss_list.len();
    let mut i: usize = 1;
    while i < n
        invariant
            xs == values(loss_list@),
            n == loss_list.len(),
            1 <= i,
            forall|k: int| 0 <= k < i - 1 && k < n - 1 ==> #[trigger] seq_lt(xs[k], xs[k + 1]),
        decreases n - i,
    {
        if !loss_list[i - 1].lt(&loss_list[i]) {
            assert(!seq_lt(xs[i - 1], xs[i - 1 + 1]));
            return false;
        }
        i = i + 1;
    }
    true
}

/// Produces, one at a time, the words that encode a loss list. It looks one
/// number ahead and keeps the last word of a run whose first word it has handed
/// out, and nothing more.
pub struct CompressLossList {
    loss_list: Vec<SeqNumber>,
    pos: usize,
    run_last: Option<u32>,
}

impl CompressLossList {
    /// The words still to come.
    pub closed spec fn remaining(self) -> Seq<u32> {
        match self.run_last {
            Some(w) => seq![w] + encode_from(values(self.loss_list@), self.pos as int),
            None => encode_from(values(self.loss_list@), self.pos as int),
        }
    }

    /// Starts encoding `loss_list`, which must be strictly ascending.
    pub fn new(loss_list: Vec<SeqNumber>) -> (r: Result<CompressLossList, LossListError>)
        ensures
            ascending(values(loss_list@)) ==> (r matches Ok(c) && c.remaining() == encode(
                values(loss_list@),
            )),
            !ascending(values(loss_list@)) ==> r == Err::<CompressLossList, LossListError>(
                LossListError::OrderingViolation,
            ),
    {
        if is_ascending(&loss_list) {
            Ok(CompressLossList { loss_list, pos: 0, run_last: None })
        } else {
            Err(LossListError::OrderingViolation)
        }
    }

    /// Hands out the next word, or `None` once all have been handed out.
    pub fn next(&mut self) -> (r: Option<u32>)
        ensures
            old(self).remaining().len() == 0 ==> r is None && final(self).remaining() == old(
                self,
            ).remaining(),
            old(self).remaining().len() > 0 ==> r == Some(old(self).remaining()[0])
                && final(self).remaining() == old(self).remaining().subrange(
                1,
                old(self).remaining().len() as int,
            ),
    {
        let ghost xs = values(self.loss_list@);
        let ghost rem = self.remaining();
        if let Some(w) = self.run_last {
            self.run_last = None;
            assert(rem.subrange(1, rem.len() as int) =~= self.remaining());
            return Some(w);
        }
        let n = self.loss_list.len();
        let i = self.pos;
        if i >= n {
            return None;
        }
        let mut j: usize = i;
        while j + 1 < n && self.loss_list[j + 1].as_raw() == self.loss_list[j].succ().as_raw()
            invariant
                xs == values(self.loss_list@),
                n == self.loss_list.len(),
                i <= j < n,
                run_end(xs, j as int) == run_end(xs, i as int),
            decreases n - j,
        {
            j = j + 1;
        }
        assert(run_end(xs, j as int) == j);
        let first = self.loss_list[i].as_raw();
        self.pos = j + 1;
        if j == i {
            assert(rem.subrange(1, rem.len() as int) =~= self.remaining());
            Some(first)
        } else {
            assert(first | RUN_FLAG == first + RUN_FLAG) by (bit_vector)
                requires
                    first < 0x8000_0000u32,
            ;
            self.run_last = Some(self.loss_list[j].as_raw());
            assert(rem.subrange(1, rem.len() as int) =~= self.remaining());
            Some(first | RUN_FLAG)
        }
    }
}

/// Encodes a strictly ascending list of lost sequence numbers into the words of a
/// NAK: each run of consecutive numbers shrinks to two words.
pub fn compress_loss_list(loss_list: Vec<SeqNumber>) -> (r: Result<Vec<u32>, LossListError>)
    ensures
        ascending(values(loss_list@)) ==> (r matches Ok(w) && w@ == encode(values(loss_list@))),
        !ascending(values(loss_list@)) ==> r == Err::<Vec<u32>, LossListError>(
            LossListError::OrderingViolation,
        ),
{
    let ghost xs = values(loss_list@);
    let mut words = match CompressLossList::new(loss_list) {
        Ok(c) => c,
        Err(e) => return Err(e),
    };
    let mut out: Vec<u32> = Vec::new();
    loop
        invariant
            xs == values(loss_list@),
            ascending(xs),
            out@ + words.remaining() == encode(xs),
        decreases words.remaining().len(),
    {
        let ghost before = out@;
        let ghost rem = words.remaining();
        match words.next() {
            Some(w) => {
                out.push(w);
                assert(out@ + words.remaining() =~= before + rem);
            },
            None => {
                assert(out@ + rem =~= out@);
                return Ok(out);
            },
        }
    }
}

/// Produces, one at a time, the sequence numbers that the words of a NAK stand
/// for. Inside a run it keeps the next number and how many follow it.
pub struct DecompressLossList {
    loss_list: Vec<u32>,
    pos: usize,
    run_next: Option<(SeqNumber, u32)>,
}

impl DecompressLossList {
    /// The words not read yet.
    closed spec fn rest(self) -> Seq<u32> {
        if self.pos <= self.loss_list.len() {
            self.loss_list@.subrange(self.pos as int, self.loss_list.len() as int)
        } else {
            seq![]
        }
    }

    /// The numbers still to come.
    pub closed spec fn remaining(self) -> Seq<int> {
        match self.run_next {
            Some((c, left)) => stepping(c.value(), left + 1) + decoded_items(self.rest()),
            None => decoded_items(self.rest()),
        }
    }

    /// The words still to be read do not end with the first word of a run.
    pub closed spec fn complete(self) -> bool {
        terminated(self.rest())
    }

    /// Starts decoding `loss_list`.
    pub fn new(loss_list: Vec<u32>) -> (r: DecompressLossList)
        ensures
            r.remaining() == decoded_items(loss_list@),
            r.complete() == terminated(loss_list@),
    {
        let r = DecompressLossList { loss_list, pos: 0, run_next: None };
        assert(r.rest() =~= loss_list@);
        r
    }

    /// Hands out the next number; `Ok(None)` once all have been handed out, and
    /// `UnterminatedRun` where the words end with the first word of a run.
    pub fn next(&mut self) -> (r: Result<Option<SeqNumber>, LossListError>)
        ensures
            old(self).remaining().len() > 0 ==> (r matches Ok(Some(x)) && x.value() == old(
                self,
            ).remaining()[0]) && final(self).remaining() == old(self).remaining().subrange(
                1,
                old(self).remaining().len() as int,
            ) && final(self).complete() == old(self).complete(),
            old(self).remaining().len() == 0 && old(self).complete() ==> r == Ok::<
                Option<SeqNumber>,
                LossListError,
            >(None) && final(self).remaining().len() == 0 && final(self).complete(),
            old(self).remaining().len() == 0 && !old(self).complete() ==> r == Err::<
                Option<SeqNumber>,
                LossListError,
            >(LossListError::UnterminatedRun) && final(self).remaining().len() == 0
                && final(self).complete(),
    {
        let ghost rem = self.remaining();
        let ghost ws = self.rest();
        if let Some((cur, left)) = self.run_next {
            proof {
                SeqNumber::lemma_range(cur);
                lemma_stepping_rest(cur.value(), left + 1);
            }
            if left == 0 {
                self.run_next = None;
            } else {
                self.run_next = Some((cur.succ(), left - 1));
            }
            assert(self.rest() == ws);
            assert(rem.subrange(1, rem.len() as int) =~= self.remaining());
            return Ok(Some(cur));
        }
        let n = self.loss_list.len();
        let i = self.pos;
        if i >= n {
            proof {
                if i > n {
                    assert(ws.len() == 0);
                } else {
                    assert(ws =~= seq![]);
                }
            }
            return Ok(None);
        }
        let word = self.loss_list[i];
        assert(ws[0] == word);
        assert(word & 0x8000_0000u32 == 0 <==> word < 0x8000_0000u32) by (bit_vector);
        if word & RUN_FLAG == 0 {
            self.pos = i + 1;
            assert(ws.subrange(1, ws.len() as int) =~= self.rest());
            assert(rem.subrange(1, rem.len() as int) =~= self.remaining());
            return Ok(Some(SeqNumber::new_truncate(word)));
        }
        if i + 1 == n {
            self.pos = n;
            assert(self.rest() =~= seq![]);
            return Err(LossListError::UnterminatedRun);
        }
        let start = SeqNumber::new_truncate(word);
        let end = SeqNumber::new_truncate(self.loss_list[i + 1]).as_raw();
        let first = start.as_raw();
        let d: u32 = if end >= first {
            end - first
        } else {
            SEQ_MODULUS - first + end
        };
        assert(first as int == word - RUN_FLAG) by {
            assert(word % 0x8000_0000u32 == word - 0x8000_0000u32) by (bit_vector)
                requires
                    word & 0x8000_0000u32 != 0,
            ;
        }
        assert(end as int == ws[1] as int % (SEQ_MODULUS as int));
        assert(run_values(ws[0] - RUN_FLAG, ws[1] as int % (SEQ_MODULUS as int)) =~= stepping(
            first as int,
            d + 1,
        ));
        proof {
            lemma_stepping_rest(first as int, d + 1);
        }
        self.pos = i + 2;
        if d == 0 {
            self.run_next = None;
        } else {
            self.run_next = Some((start.succ(), d - 1));
        }
        assert(ws.subrange(2, ws.len() as int) =~= self.rest());
        assert(rem.subrange(1, rem.len() as int) =~= self.remaining());
        Ok(Some(start))
    }
}

/// Decodes the words of a NAK into the sequence numbers they stand for: a word
/// with `RUN_FLAG` set and the word after it stand for every number from the
/// first to the second, inclusive.
pub fn decompress_loss_list(loss_list: Vec<u32>) -> (r: Result<Vec<SeqNumber>, LossListError>)
    ensures
        decode(loss_list@) matches Some(xs) ==> (r matches Ok(v) && values(v@) == xs),
        decode(loss_list@) is None ==> r == Err::<Vec<SeqNumber>, LossListError>(
            LossListError::UnterminatedRun,
        ),
{
    let ghost ws = loss_list@;
    proof {
        lemma_decode_parts(ws);
    }
    let mut numbers = DecompressLossList::new(loss_list);
    let mut out: Vec<SeqNumber> = Vec::new();
    assert(values(out@) + numbers.remaining() =~= decoded_items(ws));
    loop
        invariant
            ws == loss_list@,
            values(out@) + numbers.remaining() == decoded_items(ws),
            numbers.complete() == terminated(ws),
            decode(ws) == (if terminated(ws) {
                Some(decoded_items(ws))
            } else {
                None
            }),
        decreases numbers.remaining().len(),
    {
        let ghost before = out@;
        let ghost rem = numbers.remaining();
        match numbers.next() {
            Ok(Some(x)) => {
                out.push(x);
                assert(values(out@) =~= values(before) + seq![rem[0]]);
                assert(values(out@) + numbers.remaining() =~= values(before) + rem);
            },
            Ok(None) => {
                assert(values(out@) + rem =~= values(out@));
                return Ok(out);
            },
            Err(e) => {
                return Err(e);
            },
        }
    }
}

proof fn lemma_run_shape(xs: Seq<int>, i: int)
    requires
        0 <= i < xs.len(),
        forall|k: int| 0 <= k < xs.len() ==> 0 <= #[trigger] xs[k] < SEQ_MODULUS,
    ensures
        forall|k: int| 0 <= k <= run_end(xs, i) - i ==> xs[i + k] == #[trigger] seq_add(xs[i], k),
    decreases xs.len() - i,
{
    if i + 1 < xs.len() && xs[i + 1] == seq_add(xs[i], 1) {
        lemma_run_shape(xs, i + 1);
        assert forall|k: int| 0 <= k <= run_end(xs, i) - i implies xs[i + k] == #[trigger] seq_add(
            xs[i],
            k,
        ) by {
            if k > 0 {
                assert(xs[i + 1 + (k - 1)] == seq_add(xs[i + 1], k - 1));
                vstd::arithmetic::div_mod::lemma_add_mod_noop(xs[i] + 1, k - 1, SEQ_MODULUS as int);
                vstd::arithmetic::div_mod::lemma_mod_twice(xs[i] + 1, SEQ_MODULUS as int);
                assert(seq_add(xs[i + 1], k - 1) == seq_add(xs[i], k));
            }
        }
    }
}

proof fn lemma_distance(a: int, m: int)
    requires
        0 <= a < SEQ_MODULUS,
        0 <= m < SEQ_MODULUS,
    ensures
        (seq_add(a, m) - a) % (SEQ_MODULUS as int) == m,
{
    if a + m < SEQ_MODULUS {
        assert(seq_add(a, m) == a + m);
    } else {
        assert(seq_add(a, m) == a + m - SEQ_MODULUS);
    }
}

proof fn lemma_decode_encode_from(xs: Seq<int>, i: int)
    requires
        0 <= i <= xs.len() <= SEQ_MODULUS,
        forall|k: int| 0 <= k < xs.len() ==> 0 <= #[trigger] xs[k] < SEQ_MODULUS,
    ensures
        decode(encode_from(xs, i)) == Some(xs.subrange(i, xs.len() as int)),
    decreases xs.len() - i,
{
    if i == xs.len() {
        assert(xs.subrange(i, xs.len() as int) =~= seq![]);
    } else {
        let j = run_end(xs, i);
        lemma_run_end_bounds(xs, i);
        lemma_decode_encode_from(xs, j + 1);
        let e = encode_from(xs, i);
        let tail = xs.subrange(j + 1, xs.len() as int);
        if j == i {
            assert(e.subrange(1, e.len() as int) =~= encode_from(xs, i + 1));
            assert(xs.subrange(i, xs.len() as int) =~= seq![xs[i]] + tail);
        } else {
            lemma_run_shape(xs, i);
            assert(e.subrange(2, e.len() as int) =~= encode_from(xs, j + 1));
            assert(xs[j] == xs[i + (j - i)]);
            lemma_distance(xs[i], j - i);
            let run = run_values(xs[i], xs[j]);
            assert(e[0] - RUN_FLAG == xs[i]);
            assert(e[1] as int % (SEQ_MODULUS as int) == xs[j]);
            assert(run =~= xs.subrange(i, j + 1)) by {
                assert forall|k: int| 0 <= k < run.len() implies run[k] == xs.subrange(i, j + 1)[k] by {
                    assert(xs[i + k] == seq_add(xs[i], k));
                }
            }
            assert(xs.subrange(i, xs.len() as int) =~= xs.subrange(i, j + 1) + tail);
        }
    }
}

/// Decoding the encoding of a strictly ascending list of sequence numbers gives the
/// list back. A run of more than `2^31` consecutive numbers would come round the
/// circle to its own start, so the list is no longer than that.
pub proof fn lemma_round_trip(xs: Seq<SeqNumber>)
    requires
        ascending(values(xs)),
        xs.len() <= SEQ_MODULUS,
    ensures
        decode(encode(values(xs))) == Some(values(xs)),
{
    let v = values(xs);
    assert forall|k: int| 0 <= k < v.len() implies 0 <= #[trigger] v[k] < SEQ_MODULUS by {
        SeqNumber::lemma_range(xs[k]);
    }
    lemma_decode_encode_from(v, 0);
    assert(v.subrange(0, v.len() as int) =~= v);
}

proof fn lemma_encode_from_len(xs: Seq<int>, i: int)
    requires
        0 <= i <= xs.len(),
    ensures
        encode_from(xs, i).len() <= xs.len() - i,
    decreases xs.len() - i,
{
    if i < xs.len() {
        lemma_run_end_bounds(xs, i);
        lemma_encode_from_len(xs, run_end(xs, i) + 1);
    }
}

/// Encoding never takes more words than there are numbers.
pub proof fn lemma_encode_no_longer(xs: Seq<SeqNumber>)
    ensures
        encode(values(xs)).len() <= xs.len(),
{
    lemma_encode_from_len(values(xs), 0);
}

proof fn lemma_stepping_run_end(first: int, count: int, i: int)
    requires
        0 <= first < SEQ_MODULUS,
        0 <= i < count,
    ensures
        run_end(stepping(first, count), i) == count - 1,
    decreases count - i,
{
    let s = stepping(first, count);
    if i + 1 < count {
        vstd::arithmetic::div_mod::lemma_add_mod_noop(first + i, 1, SEQ_MODULUS as int);
        vstd::arithmetic::div_mod::lemma_mod_twice(first + i, SEQ_MODULUS as int);
        assert(s[i + 1] == seq_add(s[i], 1));
        lemma_stepping_run_end(first, count, i + 1);
    }
}

/// A run of consecutive lost numbers, however long, is encoded in two words: its
/// first number with `RUN_FLAG` set, and its last number.
pub proof fn lemma_run_compresses(first: SeqNumber, count: int)
    requires
        2 <= count <= SEQ_MODULUS,
    ensures
        encode(stepping(first.value(), count)) == seq![
            (first.value() + RUN_FLAG) as u32,
            seq_add(first.value(), count - 1) as u32,
        ],
{
    let f = first.value();
    SeqNumber::lemma_range(first);
    let s = stepping(f, count);
    lemma_stepping_run_end(f, count, 0);
    assert(encode_from(s, count) =~= seq![]);
    assert(encode(s) =~= seq![(f + RUN_FLAG) as u32, seq_add(f, count - 1) as u32]);
}

} // verus!
