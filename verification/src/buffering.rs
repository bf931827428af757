//! The output broadcaster: one bounded byte ring per consumer, all fed from a
//! single producer that never waits.
//!
//! The registry carries a ghost record of every byte ever written. Each
//! consumer's pending bytes are always a contiguous suffix of that stream, and
//! never reach back before the consumer subscribed: a slow consumer loses the
//! oldest bytes, never their order.

use std::collections::VecDeque;

use vstd::pervasive::VecAdditionalExecFns;
use vstd::prelude::*;

use crate::CONSUMER_RING_SIZE;

verus! {

/// The last `n` elements of `s` (all of `s` if it is shorter).
pub open spec fn last_n(s: Seq<u8>, n: int) -> Seq<u8> {
    if s.len() <= n {
        s
    } else {
        s.skip(s.len() - n)
    }
}

/// `s` is a suffix of `t`.
pub open spec fn is_suffix_of(s: Seq<u8>, t: Seq<u8>) -> bool {
    s.len() <= t.len() && s == t.skip(t.len() - s.len())
}

/// A bounded byte ring: pushing past the capacity drops the oldest bytes.
pub struct ByteRing {
    data: VecDeque<u8>,
    cap: usize,
}

impl ByteRing {
    /// The pending bytes, oldest first.
    pub closed spec fn view(&self) -> Seq<u8> {
        self.data@
    }

    /// The most bytes the ring holds.
    pub closed spec fn spec_cap(&self) -> int {
        self.cap as int
    }

    pub open spec fn wf(&self) -> bool {
        self.view().len() <= self.spec_cap() && self.spec_cap() > 0
    }

    pub fn new(cap: usize) -> (r: ByteRing)
        requires
            cap > 0,
        ensures
            r.wf(),
            r.view() == Seq::<u8>::empty(),
            r.spec_cap() == cap,
    {
        ByteRing { data: VecDeque::new(), cap }
    }

    /// Appends `bytes`, dropping the oldest pending bytes once the ring is
    /// full: afterwards the ring holds the last `cap` bytes of what it held
    /// plus what was pushed. Never waits on a reader.
    pub fn push_overwrite(&mut self, bytes: &Vec<u8>)
        requires
            old(self).wf(),
        ensures
            final(self).wf(),
            final(self).spec_cap() == old(self).spec_cap(),
            final(self).view() == last_n(old(self).view() + bytes@, old(self).spec_cap()),
    {
        let ghost v0 = self.data@;
        let ghost cap0 = self.cap as int;
        let mut i: usize = 0;
        proof {
            assert(v0 + bytes@.take(0) =~= v0);
        }
        while i < bytes.len()
            invariant
                i <= bytes@.len(),
                self.cap as int == cap0,
                cap0 > 0,
                self.data@.len() <= cap0,
                self.data@ == last_n(v0 + bytes@.take(i as int), cap0),
            decreases bytes@.len() - i,
        {
            let ghost s = v0 + bytes@.take(i as int);
            if self.data.len() == self.cap {
                self.data.pop_front();
            }
            self.data.push_back(bytes[i]);
            proof {
                lemma_last_n_push(s, bytes@[i as int], cap0);
                assert(v0 + bytes@.take(i + 1) =~= s.push(bytes@[i as int]));
            }
            i = i + 1;
        }
        proof {
            assert(v0 + bytes@.take(bytes@.len() as int) =~= v0 + bytes@);
        }
    }

    /// Hands out up to `amount` of the oldest pending bytes, in order.
    pub fn read(&mut self, amount: usize) -> (r: Vec<u8>)
        requires
            old(self).wf(),
        ensures
            final(self).wf(),
            final(self).spec_cap() == old(self).spec_cap(),
            r@.len() == if amount <= old(self).view().len() {
                amount as int
            } else {
                old(self).view().len() as int
            },
            r@ == old(self).view().take(r@.len() as int),
            final(self).view() == old(self).view().skip(r@.len() as int),
    {
        let ghost v0 = self.data@;
        let mut r: Vec<u8> = Vec::new();
        let mut i: usize = 0;
        while i < amount && self.data.len() > 0
            invariant
                i <= amount,
                r@.len() == i,
                self.cap == old(self).cap,
                r@ == v0.take(i as int),
                self.data@ == v0.skip(i as int),
                i <= v0.len(),
                i < amount || r@.len() == amount,
            decreases amount - i,
        {
            let b = match self.data.pop_front() {
                Some(b) => b,
                None => 0,
            };
            r.push(b);
            proof {
                assert(v0.take(i + 1) =~= v0.take(i as int).push(v0[i as int]));
                assert(self.data@ =~= v0.skip(i + 1));
            }
            i = i + 1;
        }
        proof {
            if i < amount {
                assert(self.data@.len() == 0);
                assert(v0.skip(i as int).len() == 0);
            }
        }
        r
    }
}

/// Pushing one byte keeps exactly the last `cap` bytes.
proof fn lemma_last_n_push(s: Seq<u8>, b: u8, cap: int)
    requires
        cap > 0,
    ensures
        last_n(s.push(b), cap) == if last_n(s, cap).len() == cap {
            last_n(s, cap).skip(1).push(b)
        } else {
            last_n(s, cap).push(b)
        },
{
    if s.len() < cap {
        assert(last_n(s.push(b), cap) =~= s.push(b));
    } else {
        assert(last_n(s, cap).len() == cap);
        assert(last_n(s.push(b), cap) =~= last_n(s, cap).skip(1).push(b));
    }
}

/// A suffix stays a suffix when both sequences grow by the same tail.
proof fn lemma_suffix_append(s: Seq<u8>, t: Seq<u8>, b: Seq<u8>)
    requires
        is_suffix_of(s, t),
    ensures
        is_suffix_of(s + b, t + b),
{
    assert(s + b =~= (t + b).skip((t + b).len() - (s + b).len()));
}

/// The last `n` elements are a suffix.
proof fn lemma_last_n_is_suffix(s: Seq<u8>, n: int)
    requires
        n >= 0,
    ensures
        is_suffix_of(last_n(s, n), s),
{
    if s.len() > n {
        assert(last_n(s, n) =~= s.skip(s.len() - last_n(s, n).len()));
    } else {
        assert(s =~= s.skip(0));
    }
}

/// Suffixes compose.
proof fn lemma_suffix_trans(a: Seq<u8>, b: Seq<u8>, c: Seq<u8>)
    requires
        is_suffix_of(a, b),
        is_suffix_of(b, c),
    ensures
        is_suffix_of(a, c),
{
    assert(a =~= c.skip(c.len() - a.len()));
}

/// Dropping the front of a suffix leaves a suffix.
proof fn lemma_suffix_skip(s: Seq<u8>, t: Seq<u8>, n: int)
    requires
        is_suffix_of(s, t),
        0 <= n <= s.len(),
    ensures
        is_suffix_of(s.skip(n), t),
{
    assert(s.skip(n) =~= t.skip(t.len() - (s.len() - n)));
}

/// A consumer's handle into the registry: names the ring that buffers its
/// view of the stream.
#[derive(Clone, Copy, PartialEq, Eq, Structural, Debug)]
pub struct AudioBufferConsumer {
    pub index: usize,
}

/// Owns the producer side of every consumer's ring and the ghost history of
/// all bytes ever broadcast.
pub struct BufferRegistry {
    rings: Vec<ByteRing>,
    total: Ghost<Seq<u8>>,
    bases: Ghost<Seq<int>>,
}

impl BufferRegistry {
    /// Every byte ever broadcast, in order.
    pub closed spec fn spec_total(&self) -> Seq<u8> {
        self.total@
    }

    /// How many consumers are registered.
    pub closed spec fn spec_consumers(&self) -> int {
        self.rings@.len() as int
    }

    /// The pending bytes of consumer `i`.
    pub closed spec fn ring_of(&self, i: int) -> Seq<u8> {
        self.rings@[i].view()
    }

    /// The ring capacity of consumer `i`.
    pub closed spec fn cap_of(&self, i: int) -> int {
        self.rings@[i].spec_cap()
    }

    /// The length the stream had when consumer `i` subscribed.
    pub closed spec fn base_of(&self, i: int) -> int {
        self.bases@[i]
    }

    /// Every ring holds a contiguous suffix of the stream, and no byte from
    /// before its consumer subscribed.
    pub closed spec fn wf(&self) -> bool {
        &&& self.bases@.len() == self.spec_consumers()
        &&& forall|i: int|
            0 <= i < self.spec_consumers() ==> {
                &&& (#[trigger] self.rings@[i]).wf()
                &&& is_suffix_of(self.ring_of(i), self.spec_total())
                &&& 0 <= self.base_of(i) <= self.spec_total().len()
                &&& self.ring_of(i).len() <= self.spec_total().len() - self.base_of(i)
            }
    }

    pub fn new() -> (r: BufferRegistry)
        ensures
            r.wf(),
            r.spec_consumers() == 0,
            r.spec_total() == Seq::<u8>::empty(),
    {
        BufferRegistry { rings: Vec::new(), total: Ghost(Seq::empty()), bases: Ghost(Seq::empty()) }
    }

    /// Registers a fresh consumer. Its ring starts empty: the first bytes it
    /// ever sees are the ones broadcast after this call.
    #[verifier::spinoff_prover]
    #[verifier::rlimit(50)]
    pub fn get_consumer(&mut self) -> (c: AudioBufferConsumer)
        requires
            old(self).wf(),
        ensures
            final(self).wf(),
            c.index as int == old(self).spec_consumers(),
            final(self).spec_consumers() == old(self).spec_consumers() + 1,
            final(self).spec_total() == old(self).spec_total(),
            final(self).ring_of(c.index as int) == Seq::<u8>::empty(),
            final(self).cap_of(c.index as int) == CONSUMER_RING_SIZE,
            final(self).base_of(c.index as int) == old(self).spec_total().len(),
            forall|i: int|
                0 <= i < old(self).spec_consumers() ==> {
                    &&& final(self).ring_of(i) == old(self).ring_of(i)
                    &&& final(self).base_of(i) == old(self).base_of(i)
                    &&& final(self).cap_of(i) == old(self).cap_of(i)
                },
    {
        let index = self.rings.len();
        self.rings.push(ByteRing::new(CONSUMER_RING_SIZE));
        proof {
            self.bases@ = self.bases@.push(self.total@.len() as int);
            assert(Seq::<u8>::empty() =~= self.total@.skip(self.total@.len() as int));
            assert(is_suffix_of(Seq::<u8>::empty(), self.total@));
        }
        AudioBufferConsumer { index }
    }

    /// Broadcasts `bytes` to every consumer: each ring takes them in order,
    /// shedding its oldest bytes if they do not fit. Waits on nobody.
    pub fn write_byte_samples(&mut self, bytes: &Vec<u8>)
        requires
            old(self).wf(),
        ensures
            final(self).wf(),
            final(self).spec_total() == old(self).spec_total() + bytes@,
            final(self).spec_consumers() == old(self).spec_consumers(),
            forall|i: int|
                0 <= i < old(self).spec_consumers() ==> final(self).ring_of(i) == last_n(
                    old(self).ring_of(i) + bytes@,
                    old(self).cap_of(i),
                ) && final(self).base_of(i) == old(self).base_of(i) && final(self).cap_of(i) == old(
                    self,
                ).cap_of(i),
    {
        let ghost rings0 = self.rings@;
        let ghost total0 = self.total@;
        let n = self.rings.len();
        let mut i: usize = 0;
        while i < n
            invariant
                i <= n,
                n == rings0.len(),
                self.rings@.len() == rings0.len(),
                self.total@ == total0,
                self.bases@ == old(self).bases@,
                old(self).wf(),
                rings0 == old(self).rings@,
                forall|j: int| i <= j < n ==> self.rings@[j] == rings0[j],
                forall|j: int|
                    0 <= j < i ==> (#[trigger] self.rings@[j]).view() == last_n(
                        rings0[j].view() + bytes@,
                        rings0[j].spec_cap(),
                    ) && self.rings@[j].spec_cap() == rings0[j].spec_cap() && self.rings@[j].wf(),
            decreases n - i,
        {
            proof {
                assert((#[trigger] old(self).rings@[i as int]).wf());
            }
            let mut ring = ByteRing { data: VecDeque::new(), cap: 1 };
            self.rings.set_and_swap(i, &mut ring);
            ring.push_overwrite(bytes);
            self.rings.set_and_swap(i, &mut ring);
            i = i + 1;
        }
        proof {
            self.total@ = self.total@ + bytes@;
            assert forall|i2: int| 0 <= i2 < self.rings@.len() implies ((#[trigger] self.rings@[i2]).wf()
                && is_suffix_of(self.rings@[i2].view(), self.total@) && 0 <= self.bases@[i2]
                <= self.total@.len() && self.rings@[i2].view().len() <= self.total@.len()
                - self.bases@[i2]) by {
                lemma_suffix_append(rings0[i2].view(), total0, bytes@);
                lemma_last_n_is_suffix(rings0[i2].view() + bytes@, rings0[i2].spec_cap());
                lemma_suffix_trans(
                    self.rings@[i2].view(),
                    rings0[i2].view() + bytes@,
                    total0 + bytes@,
                );
            }
        }
    }

    /// Reads up to `amount` pending bytes for consumer `c`, oldest first.
    pub fn read_consumer(&mut self, c: AudioBufferConsumer, amount: usize) -> (r: Vec<u8>)
        requires
            old(self).wf(),
            c.index < old(self).spec_consumers(),
        ensures
            final(self).wf(),
            final(self).spec_total() == old(self).spec_total(),
            final(self).spec_consumers() == old(self).spec_consumers(),
            r@ == old(self).ring_of(c.index as int).take(r@.len() as int),
            final(self).ring_of(c.index as int) == old(self).ring_of(c.index as int).skip(
                r@.len() as int,
            ),
            r@.len() == if amount <= old(self).ring_of(c.index as int).len() {
                amount as int
            } else {
                old(self).ring_of(c.index as int).len() as int
            },
            forall|i: int|
                0 <= i < old(self).spec_consumers() && i != c.index ==> final(self).ring_of(i)
                    == old(self).ring_of(i) && final(self).base_of(i) == old(self).base_of(i),
    {
        let ghost rings0 = self.rings@;
        let i = c.index;
        let mut ring = ByteRing { data: VecDeque::new(), cap: 1 };
        self.rings.set_and_swap(i, &mut ring);
        let r = ring.read(amount);
        self.rings.set_and_swap(i, &mut ring);
        proof {
            assert(self.rings@ =~= rings0.update(i as int, self.rings@[i as int]));
            lemma_suffix_skip(rings0[i as int].view(), self.total@, r@.len() as int);
        }
        r
    }
}

/// What a consumer can rely on: its pending bytes are a contiguous suffix of
/// the broadcast stream — in production order, with no byte missing inside
/// the run — and none of them predate its subscription.
pub proof fn lemma_consumer_sees_stream_suffix(reg: &BufferRegistry, i: int)
    requires
        reg.wf(),
        0 <= i < reg.spec_consumers(),
    ensures
        is_suffix_of(reg.ring_of(i), reg.spec_total()),
        reg.ring_of(i).len() <= reg.spec_total().len() - reg.base_of(i),
{
}

} // verus!
