//! The sample reader capability: a finite, non-restartable producer of
//! interleaved stereo samples.

use vstd::prelude::*;

use crate::sample::Sample;

verus! {

/// A finite lazy source of samples. `read` hands back up to `amount` further
/// samples; an empty result means end-of-stream, which is sticky. Transient
/// decode failures are reported as end-of-stream.
pub trait SampleReader {
    fn read(&mut self, amount: usize) -> (out: Vec<Sample>)
        ensures
            out@.len() <= amount,
    ;
}

/// A reader over an in-memory sample sequence; mostly for tests and for
/// sources that are decoded up front.
pub struct VecSampleReader {
    samples: Vec<Sample>,
    pos: usize,
}

impl VecSampleReader {
    /// The consumed position never passes the end.
    #[verifier::type_invariant]
    closed spec fn type_inv(&self) -> bool {
        self.pos <= self.samples@.len()
    }

    /// How many samples this reader holds in all.
    pub closed spec fn spec_samples(&self) -> Seq<Sample> {
        self.samples@
    }

    /// How far the reader has been consumed.
    pub closed spec fn spec_pos(&self) -> int {
        self.pos as int
    }

    pub fn new(samples: Vec<Sample>) -> (r: VecSampleReader)
        ensures
            r.spec_samples() == samples@,
            r.spec_pos() == 0,
    {
        VecSampleReader { samples, pos: 0 }
    }
}

impl SampleReader for VecSampleReader {
    /// Yields the next `min(amount, remaining)` samples in order.
    fn read(&mut self, amount: usize) -> (out: Vec<Sample>)
        ensures
            final(self).spec_samples() == old(self).spec_samples(),
            out@.len() == if old(self).spec_pos() + amount <= old(self).spec_samples().len() {
                amount as int
            } else {
                old(self).spec_samples().len() - old(self).spec_pos()
            },
            final(self).spec_pos() == old(self).spec_pos() + out@.len(),
            out@ == old(self).spec_samples().subrange(
                old(self).spec_pos(),
                old(self).spec_pos() + out@.len(),
            ),
    {
        proof {
            use_type_invariant(&*self);
        }
        let mut out: Vec<Sample> = Vec::new();
        let avail: usize = self.samples.len() - self.pos;
        let n: usize = if amount <= avail {
            amount
        } else {
            avail
        };
        let ghost pos0 = self.pos as int;
        let mut i: usize = 0;
        while i < n
            invariant
                i <= n,
                n <= amount,
                self.pos == pos0,
                self.pos + n <= usize::MAX,
                self.pos + n <= self.samples@.len(),
                out@ == self.samples@.subrange(pos0, pos0 + i),
            decreases n - i,
        {
            out.push(self.samples[self.pos + i]);
            proof {
                assert(self.samples@.subrange(pos0, pos0 + i + 1) =~= self.samples@.subrange(
                    pos0,
                    pos0 + i,
                ).push(self.samples@[pos0 + i]));
            }
            i = i + 1;
        }
        self.pos = self.pos + n;
        out
    }
}

} // verus!
