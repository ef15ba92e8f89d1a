//! Sliding sample history: a fixed-capacity ring that always holds the most
//! recent `SAMPLES_SIZE` samples, oldest first. Storage is the
//! `ringbuffer` crate's `ConstGenericRingBuffer`; its few calls stand behind
//! trusted contracts, and everything built on them is verified.

use vstd::prelude::*;
use ringbuffer::{ConstGenericRingBuffer, RingBuffer};
use crate::{BLOCK_SIZE, SAMPLES_SIZE};

verus! {

#[verifier::external_type_specification]
#[verifier::external_body]
#[verifier::reject_recursive_types(T)]
pub struct ExConstGenericRingBuffer<T, const CAP: usize>(ConstGenericRingBuffer<T, CAP>);

/// The samples a ring currently holds, oldest first.
pub uninterp spec fn ring_view(rb: ConstGenericRingBuffer<u32, SAMPLES_SIZE>) -> Seq<u32>;

/// Relies on ringbuffer's `ConstGenericRingBuffer::new`: the fresh ring is empty.
#[verifier::external_body]
fn ring_new() -> (rb: ConstGenericRingBuffer<u32, SAMPLES_SIZE>)
    ensures
        ring_view(rb) == Seq::<u32>::empty(),
{
    ConstGenericRingBuffer::new()
}

/// Relies on ringbuffer's `RingBuffer::enqueue`: appends at the back and, at
/// capacity, first drops the single oldest item (strict FIFO eviction).
#[verifier::external_body]
fn ring_enqueue(rb: &mut ConstGenericRingBuffer<u32, SAMPLES_SIZE>, x: u32)
    requires
        ring_view(*old(rb)).len() <= SAMPLES_SIZE,
    ensures
        ring_view(*final(rb)) == (if ring_view(*old(rb)).len() < SAMPLES_SIZE {
            ring_view(*old(rb)).push(x)
        } else {
            ring_view(*old(rb)).skip(1).push(x)
        }),
{
    rb.enqueue(x);
}

/// Relies on ringbuffer's `RingBuffer::len`: the number of stored items.
#[verifier::external_body]
fn ring_len(rb: &ConstGenericRingBuffer<u32, SAMPLES_SIZE>) -> (n: usize)
    ensures
        n == ring_view(*rb).len(),
{
    rb.len()
}

/// Relies on ringbuffer's `RingBuffer::to_vec`: copies the items out oldest
/// first.
#[verifier::external_body]
fn ring_to_vec(rb: &ConstGenericRingBuffer<u32, SAMPLES_SIZE>) -> (v: Vec<u32>)
    ensures
        v@ == ring_view(*rb),
{
    rb.to_vec()
}

/// One block appended to a window: the concatenation, truncated at the front
/// to the window capacity.
pub open spec fn append_samples(h: Seq<u32>, b: Seq<u32>) -> Seq<u32> {
    if h.len() + b.len() <= SAMPLES_SIZE {
        h + b
    } else {
        (h + b).skip(h.len() + b.len() - SAMPLES_SIZE)
    }
}

/// All blocks of a stream, in arrival order, as one flat sample sequence.
pub open spec fn flatten_blocks(bs: Seq<Seq<u32>>) -> Seq<u32>
    decreases bs.len(),
{
    if bs.len() == 0 {
        Seq::<u32>::empty()
    } else {
        flatten_blocks(bs.drop_last()) + bs.last()
    }
}

/// The history contents after appending a stream of blocks to a fresh window.
pub open spec fn history_after(bs: Seq<Seq<u32>>) -> Seq<u32>
    decreases bs.len(),
{
    if bs.len() == 0 {
        Seq::<u32>::empty()
    } else {
        append_samples(history_after(bs.drop_last()), bs.last())
    }
}

/// Appending distributes over the front-truncation: feeding a window block by
/// block leaves the same contents as truncating the whole flat stream once.
proof fn lemma_append_suffix(f: Seq<u32>, b: Seq<u32>)
    requires
        b.len() <= SAMPLES_SIZE,
    ensures
        append_samples(append_samples(Seq::<u32>::empty(), f), b)
            == append_samples(Seq::<u32>::empty(), f + b),
{
    let h = append_samples(Seq::<u32>::empty(), f);
    let lhs = append_samples(h, b);
    let rhs = append_samples(Seq::<u32>::empty(), f + b);
    assert(Seq::<u32>::empty() + f =~= f);
    assert(Seq::<u32>::empty() + (f + b) =~= f + b);
    if f.len() <= SAMPLES_SIZE {
        assert(h =~= f);
        assert(h + b =~= f + b);
    } else {
        assert(h =~= f.skip(f.len() - SAMPLES_SIZE));
        let cut = f.len() - SAMPLES_SIZE;
        if h.len() + b.len() <= SAMPLES_SIZE {
            // impossible: h.len() == SAMPLES_SIZE and b could be empty
            assert(b.len() == 0);
            assert(lhs =~= h);
            assert(rhs =~= (f + b).skip(f.len() + b.len() - SAMPLES_SIZE));
            assert forall|j: int| 0 <= j < SAMPLES_SIZE implies lhs[j] == rhs[j] by {
                assert(lhs[j] == f[cut + j]);
                assert(rhs[j] == (f + b)[cut + j]);
            }
            assert(lhs =~= rhs);
        } else {
            let cut2 = h.len() + b.len() - SAMPLES_SIZE;
            assert(lhs =~= (h + b).skip(cut2));
            assert(rhs =~= (f + b).skip(f.len() + b.len() - SAMPLES_SIZE));
            assert forall|j: int| 0 <= j < lhs.len() implies lhs[j] == rhs[j] by {
                if cut2 + j < h.len() {
                    assert((h + b)[cut2 + j] == h[cut2 + j]);
                    assert(h[cut2 + j] == f[cut + cut2 + j]);
                    assert((f + b)[f.len() + b.len() - SAMPLES_SIZE + j] == f[cut + cut2 + j]);
                } else {
                    assert((h + b)[cut2 + j] == b[cut2 + j - h.len()]);
                    assert((f + b)[f.len() + b.len() - SAMPLES_SIZE + j]
                        == b[cut2 + j - h.len()]);
                }
            }
            assert(lhs =~= rhs);
        }
    }
}

/// History ring law: for any stream of fixed-size blocks, the window holds
/// exactly the most recent `SAMPLES_SIZE` samples of the flat stream, in
/// arrival order, and its length is the stream length capped at the window
/// capacity.
pub proof fn lemma_history_ring(bs: Seq<Seq<u32>>)
    requires
        forall|i: int| 0 <= i < bs.len() ==> (#[trigger] bs[i]).len() == BLOCK_SIZE,
    ensures
        history_after(bs) == append_samples(Seq::<u32>::empty(), flatten_blocks(bs)),
        flatten_blocks(bs).len() == bs.len() * BLOCK_SIZE,
        history_after(bs).len() == (if bs.len() * BLOCK_SIZE <= SAMPLES_SIZE {
            bs.len() * BLOCK_SIZE
        } else {
            SAMPLES_SIZE as int
        }),
    decreases bs.len(),
{
    if bs.len() == 0 {
        assert(Seq::<u32>::empty() + Seq::<u32>::empty() =~= Seq::<u32>::empty());
    } else {
        let pre = bs.drop_last();
        lemma_history_ring(pre);
        assert(bs.last().len() == BLOCK_SIZE);
        lemma_append_suffix(flatten_blocks(pre), bs.last());
        assert(flatten_blocks(bs).len() == pre.len() * BLOCK_SIZE + BLOCK_SIZE);
        assert(bs.len() * BLOCK_SIZE == pre.len() * BLOCK_SIZE + BLOCK_SIZE) by (nonlinear_arith)
            requires bs.len() == pre.len() + 1,
        ;
    }
}

/// Cold-start threshold: the window is full exactly when at least
/// `SAMPLES_SIZE / BLOCK_SIZE` blocks (32 of them) have arrived. Together
/// with intake never touching the output buffer (see
/// `SpectrumAnalyzer::append_block`), this pins the cold-start behaviour:
/// the output keeps its initialization value through the first 31 blocks,
/// and the 32nd is the first call on which a full band computation is due.
pub proof fn lemma_cold_start_threshold(bs: Seq<Seq<u32>>)
    requires
        forall|i: int| 0 <= i < bs.len() ==> (#[trigger] bs[i]).len() == BLOCK_SIZE,
    ensures
        history_after(bs).len() == SAMPLES_SIZE <==> bs.len() >= 32,
{
    lemma_history_ring(bs);
    if bs.len() >= 32 {
        assert(bs.len() * BLOCK_SIZE >= 32 * BLOCK_SIZE) by (nonlinear_arith)
            requires bs.len() >= 32,
        ;
    } else {
        assert(bs.len() * BLOCK_SIZE <= 31 * BLOCK_SIZE) by (nonlinear_arith)
            requires bs.len() <= 31,
        ;
    }
}

/// The sliding analysis window: an append-only ring of the most recent
/// `SAMPLES_SIZE` samples, oldest first.
pub struct History {
    ring: ConstGenericRingBuffer<u32, SAMPLES_SIZE>,
}

impl History {
    /// The samples currently held, oldest first.
    pub closed spec fn samples(&self) -> Seq<u32> {
        ring_view(self.ring)
    }

    /// The window never holds more than its capacity.
    pub closed spec fn wf(&self) -> bool {
        self.samples().len() <= SAMPLES_SIZE
    }

    pub fn new() -> (h: History)
        ensures
            h.samples() == Seq::<u32>::empty(),
            h.wf(),
    {
        History { ring: ring_new() }
    }

    pub fn len(&self) -> (n: usize)
        ensures
            n == self.samples().len(),
    {
        ring_len(&self.ring)
    }

    /// Appends a whole block in order; each push past capacity evicts the
    /// single oldest sample.
    pub fn append_block(&mut self, block: &Vec<u32>)
        requires
            old(self).wf(),
            block@.len() == BLOCK_SIZE,
        ensures
            final(self).wf(),
            final(self).samples() == append_samples(old(self).samples(), block@),
    {
        let ghost h0 = self.samples();
        let ghost b = block@;
        let mut i: usize = 0;
        while i < block.len()
            invariant
                0 <= i <= BLOCK_SIZE,
                block@ == b,
                b.len() == BLOCK_SIZE,
                h0.len() <= SAMPLES_SIZE,
                self.samples() == append_samples(h0, b.take(i as int)),
                self.samples().len() <= SAMPLES_SIZE,
            decreases block.len() - i,
        {
            let x = block[i];
            ring_enqueue(&mut self.ring, x);
            proof {
                lemma_append_step(h0, b, i as int);
            }
            i = i + 1;
        }
        proof {
            assert(b.take(BLOCK_SIZE as int) =~= b);
        }
    }

    /// A copy of the current window contents, oldest first, for the
    /// downstream analysis stages.
    pub fn snapshot(&self) -> (v: Vec<u32>)
        ensures
            v@ == self.samples(),
    {
        ring_to_vec(&self.ring)
    }
}

/// One evicting push extends a truncated concatenation by one sample.
proof fn lemma_append_step(h: Seq<u32>, b: Seq<u32>, i: int)
    requires
        0 <= i < b.len(),
        h.len() <= SAMPLES_SIZE,
        b.len() <= SAMPLES_SIZE,
    ensures
        append_samples(h, b.take(i + 1)) == (if append_samples(h, b.take(i)).len()
            < SAMPLES_SIZE {
            append_samples(h, b.take(i)).push(b[i])
        } else {
            append_samples(h, b.take(i)).skip(1).push(b[i])
        }),
{
    let s = append_samples(h, b.take(i));
    let t = append_samples(h, b.take(i + 1));
    if h.len() + i < SAMPLES_SIZE {
        assert(s =~= h + b.take(i));
        assert(s.len() == h.len() + i);
        assert(t =~= h + b.take(i + 1));
        assert(s.push(b[i]) =~= t);
    } else {
        assert(s.len() == SAMPLES_SIZE);
        let cut = h.len() + i - SAMPLES_SIZE;
        assert(s =~= (h + b.take(i)).skip(cut));
        assert(t =~= (h + b.take(i + 1)).skip(cut + 1));
        assert forall|j: int| 0 <= j < SAMPLES_SIZE implies t[j] == s.skip(1).push(b[i])[j] by {
            if j < SAMPLES_SIZE - 1 {
                assert(t[j] == (h + b.take(i + 1))[cut + 1 + j]);
                assert(s.skip(1)[j] == (h + b.take(i))[cut + 1 + j]);
                if cut + 1 + j < h.len() {
                    assert((h + b.take(i + 1))[cut + 1 + j] == h[cut + 1 + j]);
                    assert((h + b.take(i))[cut + 1 + j] == h[cut + 1 + j]);
                } else {
                    assert((h + b.take(i + 1))[cut + 1 + j] == b[cut + 1 + j - h.len()]);
                    assert((h + b.take(i))[cut + 1 + j] == b[cut + 1 + j - h.len()]);
                }
            } else {
                assert(t[j] == (h + b.take(i + 1))[cut + 1 + j]);
                assert(cut + 1 + j == h.len() + i);
                assert((h + b.take(i + 1))[h.len() + i] == b[i]);
            }
        }
        assert(t =~= s.skip(1).push(b[i]));
    }
}

} // verus!
