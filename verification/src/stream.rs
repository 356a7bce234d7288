//! Unbiased sampling from a seeded BLAKE3 word stream.

use vstd::prelude::*;

use crate::bytes;
use crate::hashing;
use crate::randomness::InstanceSeed;

verus! {

pub const UNBIASED_STREAM_CONTEXT: &'static str = "sparse-solve/unbiased-u64-stream/v1";

/// Number of whole 64-bit words in the extended output of one seed.
pub const STREAM_WORDS: u64 = 2305843009213693951;

/// Number of words fetched from the extended output at a time.
const FETCH_WORDS: u64 = 64;

/// Word `index` of the stream that a seed selects.
pub open spec fn stream_word(seed: Seq<u8>, index: nat) -> nat {
    bytes::le_value(
        hashing::blake3_derived_bytes(UNBIASED_STREAM_CONTEXT@, seed, 8 * index, 8),
    )
}

/// Words below this value are rejected, so that what remains of the 64-bit
/// range is a whole number of copies of `0..bound`.
pub open spec fn rejection_threshold(bound: nat) -> nat {
    0x1_0000_0000_0000_0000nat % bound
}

/// The first accepted word at or after position `from`, reduced below `bound`,
/// with the position after it; nothing if the stream ends first.
pub open spec fn draw(seed: Seq<u8>, from: nat, bound: nat) -> Option<(nat, nat)>
    decreases STREAM_WORDS - from,
{
    if from >= STREAM_WORDS {
        None
    } else if stream_word(seed, from) >= rejection_threshold(bound) {
        Some((stream_word(seed, from) % bound, from + 1))
    } else {
        draw(seed, from + 1, bound)
    }
}

/// `count` consecutive draws below one bound, with the position after them.
pub open spec fn draws(seed: Seq<u8>, from: nat, bound: nat, count: nat) -> Option<(Seq<nat>, nat)>
    decreases count,
{
    if count == 0 {
        Some((Seq::empty(), from))
    } else {
        match draws(seed, from, bound, (count - 1) as nat) {
            None => None,
            Some((values, at)) => match draw(seed, at, bound) {
                None => None,
                Some((value, next)) => Some((values.push(value), next)),
            },
        }
    }
}

/// Every draw lies below its bound and moves the stream on.
pub proof fn lemma_draw(seed: Seq<u8>, from: nat, bound: nat)
    requires
        0 < bound,
    ensures
        draw(seed, from, bound) matches Some((value, next)) ==> value < bound && from < next
            <= STREAM_WORDS,
    decreases STREAM_WORDS - from,
{
    if from < STREAM_WORDS && stream_word(seed, from) < rejection_threshold(bound) {
        lemma_draw(seed, from + 1, bound);
    }
}

/// Every one of several draws lies below their bound.
pub proof fn lemma_draws(seed: Seq<u8>, from: nat, bound: nat, count: nat)
    requires
        0 < bound,
    ensures
        draws(seed, from, bound, count) matches Some((values, next)) ==> values.len() == count
            && from <= next && (from <= STREAM_WORDS ==> next <= STREAM_WORDS) && forall|i: int|
            0 <= i < count ==> #[trigger] values[i] < bound,
    decreases count,
{
    if count > 0 {
        lemma_draws(seed, from, bound, (count - 1) as nat);
        if let Some((values, at)) = draws(seed, from, bound, (count - 1) as nat) {
            lemma_draw(seed, at, bound);
        }
    }
}

/// More draws can only fail where fewer do.
pub proof fn lemma_draws_prefix(seed: Seq<u8>, from: nat, bound: nat, fewer: nat, count: nat)
    requires
        fewer <= count,
    ensures
        draws(seed, from, bound, fewer) is None ==> draws(seed, from, bound, count) is None,
    decreases count,
{
    if fewer < count {
        lemma_draws_prefix(seed, from, bound, fewer, (count - 1) as nat);
    }
}

/// How many integers of `low..high` leave a given remainder.
pub open spec fn residue_count(low: nat, high: nat, bound: nat, residue: nat) -> nat
    decreases high - low,
{
    if low >= high {
        0
    } else {
        residue_count(low, (high - 1) as nat, bound, residue) + if (high - 1) % (bound as int)
            == residue {
            1nat
        } else {
            0nat
        }
    }
}

proof fn lemma_residue_window(low: nat, length: nat, bound: nat, residue: nat)
    requires
        0 < bound,
        residue < bound,
        length <= bound,
        low % bound == 0,
    ensures
        residue_count(low, low + length, bound, residue) == if residue < length {
            1nat
        } else {
            0nat
        },
    decreases length,
{
    if length > 0 {
        lemma_residue_window(low, (length - 1) as nat, bound, residue);
        assert((low + length - 1) % (bound as int) == length - 1) by (nonlinear_arith)
            requires
                low % bound == 0,
                0 < length <= bound,
        ;
    }
}

proof fn lemma_residue_count_split(low: nat, middle: nat, high: nat, bound: nat, residue: nat)
    requires
        low <= middle <= high,
    ensures
        residue_count(low, high, bound, residue) == residue_count(low, middle, bound, residue)
            + residue_count(middle, high, bound, residue),
    decreases high - middle,
{
    if middle < high {
        lemma_residue_count_split(low, middle, (high - 1) as nat, bound, residue);
    }
}

proof fn lemma_residue_blocks(blocks: nat, bound: nat, residue: nat)
    requires
        0 < bound,
        residue < bound,
    ensures
        residue_count(0, blocks * bound, bound, residue) == blocks,
    decreases blocks,
{
    if blocks > 0 {
        let before = (blocks - 1) as nat * bound;
        lemma_residue_blocks((blocks - 1) as nat, bound, residue);
        assert(before + bound == blocks * bound && before % bound == 0) by (nonlinear_arith)
            requires
                before == (blocks - 1) * bound,
                0 < bound,
        ;
        lemma_residue_window(before, bound, bound, residue);
        lemma_residue_count_split(0, before, before + bound, bound, residue);
    } else {
        assert(blocks * bound == 0) by (nonlinear_arith)
            requires
                blocks == 0,
        ;
    }
}

proof fn lemma_residue_prefix(length: nat, bound: nat, residue: nat)
    requires
        length < bound,
        residue < bound,
    ensures
        residue_count(0, length, bound, residue) == if residue < length {
            1nat
        } else {
            0nat
        },
    decreases length,
{
    lemma_residue_window(0, length, bound, residue);
}

/// Rejection sampling is unbiased: among the accepted 64-bit words every value
/// below the bound is the remainder of equally many.
pub proof fn sampling_is_unbiased(bound: nat, residue: nat)
    requires
        0 < bound <= u64::MAX,
        residue < bound,
    ensures
        residue_count(
            rejection_threshold(bound),
            0x1_0000_0000_0000_0000,
            bound,
            residue,
        ) == 0x1_0000_0000_0000_0000nat / bound,
{
    let range = 0x1_0000_0000_0000_0000nat;
    let threshold = rejection_threshold(bound);
    let blocks = range / bound;
    assert(blocks * bound + threshold == range && threshold < bound) by (nonlinear_arith)
        requires
            blocks == range / bound,
            threshold == range % bound,
            0 < bound,
    ;
    // `0..range` holds `blocks` whole copies and the first `threshold` residues
    // once more; dropping `0..threshold` takes those away again.
    lemma_residue_blocks(blocks, bound, residue);
    assert((blocks * bound) % bound == 0) by (nonlinear_arith)
        requires
            0 < bound,
    ;
    lemma_residue_window(blocks * bound, threshold, bound, residue);
    lemma_residue_count_split(0, blocks * bound, range, bound, residue);
    lemma_residue_prefix(threshold, bound, residue);
    lemma_residue_count_split(0, threshold, range, bound, residue);
}

/// BLAKE3 output words mapped with rejection sampling, never modulo-biased.
pub struct UniformStream {
    seed: InstanceSeed,
    next: u64,
    buffer: Vec<u8>,
    buffer_start: u64,
}

impl UniformStream {
    /// The seed that selects the stream.
    pub closed spec fn seed(&self) -> Seq<u8> {
        self.seed@
    }

    /// How many words have been consumed.
    pub closed spec fn position(&self) -> nat {
        self.next as nat
    }

    /// The fetched bytes are those of the stream around the read position.
    pub closed spec fn wf(&self) -> bool {
        &&& self.next <= STREAM_WORDS
        &&& self.buffer_start <= self.next
        &&& 8 * self.buffer_start + self.buffer@.len() <= u64::MAX
        &&& self.buffer@ == hashing::blake3_derived_bytes(
            UNBIASED_STREAM_CONTEXT@,
            self.seed@,
            8 * self.buffer_start as nat,
            self.buffer@.len(),
        )
    }

    pub fn new(seed: InstanceSeed) -> (stream: UniformStream)
        ensures
            stream.wf(),
            stream.seed() == seed@,
            stream.position() == 0,
    {
        let stream = UniformStream { seed, next: 0, buffer: Vec::new(), buffer_start: 0 };
        assert(stream.buffer@ =~= hashing::blake3_derived_bytes(
            UNBIASED_STREAM_CONTEXT@,
            seed@,
            0,
            0,
        ));
        stream
    }

    fn next_u64(&mut self) -> (word: u64)
        requires
            old(self).wf(),
            old(self).position() < STREAM_WORDS,
        ensures
            final(self).wf(),
            final(self).seed() == old(self).seed(),
            final(self).position() == old(self).position() + 1,
            word == stream_word(old(self).seed(), old(self).position()),
    {
        if 8 * (self.next - self.buffer_start) + 8 > self.buffer.len() as u64 {
            let left: u64 = STREAM_WORDS - self.next;
            let words: u64 = if left < FETCH_WORDS {
                left
            } else {
                FETCH_WORDS
            };
            self.buffer = hashing::blake3_derive(
                UNBIASED_STREAM_CONTEXT,
                self.seed.as_bytes().as_slice(),
                8 * self.next,
                (8 * words) as usize,
            );
            self.buffer_start = self.next;
        }
        let start: usize = (8 * (self.next - self.buffer_start)) as usize;
        let bytes = vstd::slice::slice_subrange(self.buffer.as_slice(), start, start + 8);
        assert(bytes@ =~= hashing::blake3_derived_bytes(
            UNBIASED_STREAM_CONTEXT@,
            self.seed@,
            8 * self.next as nat,
            8,
        ));
        let word: u64 = bytes::read_le(bytes);
        self.next = self.next + 1;
        word
    }

    /// The next value below `bound`; nothing once the stream is used up.
    pub fn sample_below(&mut self, bound: u64) -> (sample: Option<u64>)
        requires
            old(self).wf(),
            0 < bound,
        ensures
            final(self).wf(),
            final(self).seed() == old(self).seed(),
            (match draw(old(self).seed(), old(self).position(), bound as nat) {
                Some((value, next)) => sample == Some(value as u64) && value < bound
                    && final(self).position() == next,
                None => sample is None,
            }),
    {
        let threshold: u64 = (0x1_0000_0000_0000_0000u128 % bound as u128) as u64;
        let ghost first = self.position();
        while self.next < STREAM_WORDS
            invariant
                self.wf(),
                self.seed() == old(self).seed(),
                0 < bound,
                first == old(self).position(),
                threshold == rejection_threshold(bound as nat),
                draw(self.seed(), first, bound as nat) == draw(
                    self.seed(),
                    self.position(),
                    bound as nat,
                ),
            decreases STREAM_WORDS - self.next,
        {
            proof {
                lemma_draw(self.seed(), self.position(), bound as nat);
            }
            let candidate: u64 = self.next_u64();
            if candidate >= threshold {
                return Some(candidate % bound);
            }
        }
        None
    }

    /// `count` further values below `bound`.
    pub(crate) fn sample_many(&mut self, bound: u64, count: usize) -> (samples: Option<Vec<u64>>)
        requires
            old(self).wf(),
            0 < bound,
        ensures
            final(self).wf(),
            final(self).seed() == old(self).seed(),
            (match draws(old(self).seed(), old(self).position(), bound as nat, count as nat) {
                Some((values, next)) => samples matches Some(samples) && samples@.len()
                    == values.len() && (forall|i: int|
                    0 <= i < values.len() ==> #[trigger] samples@[i] == values[i] && samples@[i]
                        < bound) && final(self).position() == next,
                None => samples is None,
            }),
    {
        let ghost seed = self.seed();
        let ghost from = self.position();
        let mut samples: Vec<u64> = Vec::with_capacity(count);
        let mut index: usize = 0;
        while index < count
            invariant
                self.wf(),
                self.seed() == seed,
                seed == old(self).seed(),
                from == old(self).position(),
                0 < bound,
                index <= count,
                samples@.len() == index,
                draws(seed, from, bound as nat, index as nat) matches Some((values, at))
                    && values.len() == index && at == self.position() && forall|i: int|
                    0 <= i < index ==> #[trigger] samples@[i] == values[i] && samples@[i] < bound,
            decreases count - index,
        {
            match self.sample_below(bound) {
                Some(value) => {
                    samples.push(value);
                },
                None => {
                    proof {
                        lemma_draws_prefix(
                            seed,
                            from,
                            bound as nat,
                            (index + 1) as nat,
                            count as nat,
                        );
                    }
                    return None;
                },
            }
            index = index + 1;
        }
        Some(samples)
    }
}

} // verus!
