//! The loading pool: per-track sample buffers, grown by a loader and read by
//! the playback path.
//!
//! Each track's buffer only ever grows by appending, so every sample once
//! written stays at its index; `loaded_length` is non-decreasing.

use vstd::pervasive::VecAdditionalExecFns;
use vstd::prelude::*;

use crate::reader::SampleReader;
use crate::sample::Sample;

verus! {

/// Identifies one pool entry; unique for the lifetime of the pool, assigned
/// on insertion.
#[derive(Clone, Copy, PartialEq, Eq, Structural, Debug, Hash)]
pub struct TrackId {
    pub index: usize,
}

/// One track's record: its reader, its grown buffer, the declared length
/// hint, and whether the reader has ended.
pub struct PoolEntry<R: SampleReader> {
    pub reader: R,
    pub buffer: Vec<Sample>,
    pub expected_length: usize,
    pub exhausted: bool,
}

/// Owns every track's sample buffer.
pub struct Pool<R: SampleReader> {
    entries: Vec<PoolEntry<R>>,
}

/// Track `t`'s data in `p1` extends what `p0` held: it is still there, at
/// least as long, and every sample loaded before keeps its index and value.
pub open spec fn pool_grew<R: SampleReader>(p0: Pool<R>, p1: Pool<R>, t: TrackId) -> bool {
    &&& p1.contains(t)
    &&& p0.loaded_length_of(t) <= p1.loaded_length_of(t)
    &&& p1.buffer_of(t).subrange(0, p0.loaded_length_of(t)) == p0.buffer_of(t)
}

/// Everything one `load` call can do: from pool `p0` to pool `p1`, reading up
/// to `amount` further samples of `id` whose new loaded length is `new_len`.
/// The old buffer stays a prefix, the length never decreases, a positive
/// request that brings nothing marks the track exhausted, an exhausted
/// track's buffer no longer changes, and no other track moves.
pub open spec fn load_outcome<R: SampleReader>(
    p0: Pool<R>,
    p1: Pool<R>,
    id: TrackId,
    amount: usize,
    new_len: usize,
) -> bool {
    &&& p0.contains(id)
    &&& p1.spec_len() == p0.spec_len()
    &&& new_len == p1.loaded_length_of(id)
    &&& p0.loaded_length_of(id) <= new_len <= p0.loaded_length_of(id) + amount
    &&& p1.buffer_of(id).subrange(0, p0.loaded_length_of(id)) == p0.buffer_of(id)
    &&& p1.exhausted_of(id) == (p0.exhausted_of(id) || (amount > 0 && new_len
        == p0.loaded_length_of(id)))
    &&& (p0.exhausted_of(id) ==> p1.buffer_of(id) == p0.buffer_of(id))
    &&& forall|t: TrackId|
        p0.contains(t) && t != id ==> p1.buffer_of(t) == p0.buffer_of(t) && p1.exhausted_of(t)
            == p0.exhausted_of(t)
}

impl<R: SampleReader> Pool<R> {
    /// Whether `id` names an entry of this pool.
    pub open spec fn contains(&self, id: TrackId) -> bool {
        id.index < self.spec_len()
    }

    /// How many tracks were ever added.
    pub closed spec fn spec_len(&self) -> int {
        self.entries@.len() as int
    }

    /// The samples loaded so far for `id`.
    pub closed spec fn buffer_of(&self, id: TrackId) -> Seq<Sample> {
        self.entries@[id.index as int].buffer@
    }

    /// `len(buffer)`: how many samples of `id` are loaded.
    pub open spec fn loaded_length_of(&self, id: TrackId) -> int {
        self.buffer_of(id).len() as int
    }

    /// Whether `id`'s reader has reported end-of-stream.
    pub closed spec fn exhausted_of(&self, id: TrackId) -> bool {
        self.entries@[id.index as int].exhausted
    }

    /// The allocation hint `id` was added with.
    pub closed spec fn expected_length_of(&self, id: TrackId) -> int {
        self.entries@[id.index as int].expected_length as int
    }

    pub fn new() -> (r: Pool<R>)
        ensures
            r.spec_len() == 0,
    {
        Pool { entries: Vec::new() }
    }

    /// How many tracks the pool holds.
    pub fn len(&self) -> (n: usize)
        ensures
            n as int == self.spec_len(),
    {
        self.entries.len()
    }

    /// The current loaded length of `id`.
    pub fn loaded_length(&self, id: TrackId) -> (n: usize)
        requires
            self.contains(id),
        ensures
            n as int == self.loaded_length_of(id),
    {
        self.entries[id.index].buffer.len()
    }

    /// Whether `id`'s reader has reported end-of-stream.
    pub fn is_exhausted(&self, id: TrackId) -> (r: bool)
        requires
            self.contains(id),
        ensures
            r == self.exhausted_of(id),
    {
        self.entries[id.index].exhausted
    }

    /// Registers a new track. The returned id is fresh: it names no entry the
    /// pool held before the call, and every older id keeps its data.
    pub fn add(&mut self, reader: R, expected_length: usize) -> (id: TrackId)
        ensures
            id.index == old(self).spec_len(),
            !old(self).contains(id),
            final(self).contains(id),
            final(self).spec_len() == old(self).spec_len() + 1,
            final(self).buffer_of(id) == Seq::<Sample>::empty(),
            !final(self).exhausted_of(id),
            final(self).expected_length_of(id) == expected_length,
            forall|t: TrackId|
                old(self).contains(t) ==> final(self).contains(t) && final(self).buffer_of(t)
                    == old(self).buffer_of(t) && final(self).exhausted_of(t) == old(
                    self,
                ).exhausted_of(t),
    {
        let id = TrackId { index: self.entries.len() };
        let mut buffer: Vec<Sample> = Vec::new();
        buffer.reserve(expected_length);
        self.entries.push(PoolEntry { reader, buffer, expected_length, exhausted: false });
        id
    }

    /// Reads up to `amount` further samples from `id`'s reader and appends
    /// them. The old buffer stays a prefix of the new one and the length
    /// never decreases; a positive request that brings nothing marks the
    /// track exhausted, and an exhausted track's buffer no longer changes.
    pub fn load(&mut self, id: TrackId, amount: usize) -> (new_len: usize)
        requires
            old(self).contains(id),
        ensures
            load_outcome(*old(self), *final(self), id, amount, new_len),
    {
        let ghost entries0 = self.entries@;
        let i = id.index;
        let mut entry = self.entries.swap_remove(i);
        let ghost old_buf = entry.buffer@;
        if !entry.exhausted && amount > 0 {
            let mut got = entry.reader.read(amount);
            if got.len() == 0 {
                entry.exhausted = true;
            } else {
                entry.buffer.append(&mut got);
            }
        }
        let new_len = entry.buffer.len();
        proof {
            assert(entry.buffer@.subrange(0, old_buf.len() as int) =~= old_buf);
        }
        self.entries.push(entry);
        if i < self.entries.len() - 1 {
            let moved = self.entries.swap_remove(i);
            self.entries.push(moved);
        }
        proof {
            assert(self.entries@ =~= entries0.update(i as int, self.entries@[i as int]));
            assert(forall|t: TrackId|
                #![all_triggers]
                t.index < entries0.len() && t != id ==> self.entries@[t.index as int]
                    == entries0[t.index as int]);
        }
        new_len
    }

    /// Copies up to `amount` samples of `id` starting at `start` into `buf`
    /// at `offset`, clamped by the loaded length. An out-of-range `start`
    /// yields 0, and every position outside the written window keeps its old
    /// value: the pool never zero-fills for its callers.
    pub fn read(
        &self,
        id: TrackId,
        start: usize,
        buf: &mut Vec<Sample>,
        offset: usize,
        amount: usize,
    ) -> (n: usize)
        requires
            self.contains(id),
            offset + amount <= old(buf)@.len(),
        ensures
            n == if start < self.loaded_length_of(id) {
                if amount <= self.loaded_length_of(id) - start {
                    amount as int
                } else {
                    self.loaded_length_of(id) - start
                }
            } else {
                0
            },
            final(buf)@.len() == old(buf)@.len(),
            forall|j: int|
                offset <= j < offset + n ==> final(buf)@[j] == self.buffer_of(id)[start + (j
                    - offset)],
            forall|j: int|
                0 <= j < old(buf)@.len() && !(offset <= j < offset + n) ==> final(buf)@[j] == old(
                    buf,
                )@[j],
    {
        let entry = &self.entries[id.index];
        let loaded = entry.buffer.len();
        if start >= loaded {
            return 0;
        }
        let avail = loaded - start;
        let n: usize = if amount <= avail {
            amount
        } else {
            avail
        };
        let buf_len = buf.len();
        proof {
            assert(offset + n <= buf_len);
        }
        let mut j: usize = 0;
        while j < n
            invariant
                j <= n,
                offset + n <= buf@.len(),
                offset + n <= usize::MAX,
                start + n <= usize::MAX,
                start + n <= self.buffer_of(id).len(),
                buf@.len() == old(buf)@.len(),
                self.entries@[id.index as int].buffer@ == self.buffer_of(id),
                id.index < self.entries@.len(),
                forall|k: int|
                    offset <= k < offset + j ==> buf@[k] == self.buffer_of(id)[start + (k
                        - offset)],
                forall|k: int|
                    0 <= k < old(buf)@.len() && !(offset <= k < offset + j) ==> buf@[k] == old(
                        buf,
                    )@[k],
            decreases n - j,
        {
            let v = self.entries[id.index].buffer[start + j];
            buf.set(offset + j, v);
            j = j + 1;
        }
        n
    }
}

} // verus!
