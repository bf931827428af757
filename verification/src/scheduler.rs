//! The scheduler: a short window of upcoming tracks, a playback cursor into
//! the first of them, and the rules that decide what to emit and what to
//! preload.
//!
//! Every transition is mirrored by a spec function, and the executable
//! methods return exactly what the mirror computes.

use vstd::pervasive::VecAdditionalExecFns;
use vstd::prelude::*;

use crate::pool::TrackId;
use crate::PRELOAD_TARGET;
use crate::PRELOAD_THRESHOLD;

verus! {

/// What the scheduler knows of one track in its window.
#[derive(Clone, Copy, PartialEq, Eq, Structural, Debug)]
pub struct LoaderSlot {
    pub id: TrackId,
    /// The loaded length last reported for this track.
    pub known_length: usize,
    /// Whether the track's reader has been seen to end.
    pub exhausted: bool,
    /// Whether a preload was requested and not yet answered.
    pub load_requested: bool,
}

/// A contiguous run of samples of one track: `start .. end` (end exclusive).
#[derive(Clone, Copy, PartialEq, Eq, Structural, Debug)]
pub struct Segment {
    pub id: TrackId,
    pub start: usize,
    pub end: usize,
}

/// The look-ahead window and the cursor into its first track.
pub struct Scheduler {
    loaders: Vec<LoaderSlot>,
    cursor: usize,
}

/// The cursor stays within the first track's known length, and is zero when
/// the window is empty.
pub open spec fn slots_wf(slots: Seq<LoaderSlot>, cursor: int) -> bool {
    &&& (slots.len() > 0 ==> 0 <= cursor <= slots[0].known_length)
    &&& (slots.len() == 0 ==> cursor == 0)
}

/// A fresh slot: nothing known of the track yet.
pub open spec fn fresh_slot(id: TrackId) -> LoaderSlot {
    LoaderSlot { id, known_length: 0, exhausted: false, load_requested: false }
}

/// The first slot carrying `id`, if any.
pub open spec fn find_slot(slots: Seq<LoaderSlot>, id: TrackId) -> Option<LoaderSlot>
    decreases slots.len(),
{
    if slots.len() == 0 {
        None
    } else if slots[0].id == id {
        Some(slots[0])
    } else {
        find_slot(slots.drop_first(), id)
    }
}

/// The index of the first slot carrying `id`, or -1.
pub open spec fn slot_index_of(slots: Seq<LoaderSlot>, id: TrackId) -> int
    decreases slots.len(),
{
    if slots.len() == 0 {
        -1
    } else if slots[0].id == id {
        0
    } else {
        if slot_index_of(slots.drop_first(), id) < 0 {
            -1
        } else {
            1 + slot_index_of(slots.drop_first(), id)
        }
    }
}

/// What `set_loaders` does: each new slot keeps the old knowledge of its
/// track when the track was already in the window, and the cursor survives
/// exactly when the head track is unchanged.
pub open spec fn set_loaders_spec(
    slots: Seq<LoaderSlot>,
    cursor: int,
    ids: Seq<TrackId>,
) -> (Seq<LoaderSlot>, int) {
    (
        Seq::new(
            ids.len(),
            |i: int|
                match find_slot(slots, ids[i]) {
                    Some(s) => s,
                    None => fresh_slot(ids[i]),
                },
        ),
        if ids.len() > 0 && slots.len() > 0 && ids[0] == slots[0].id {
            cursor
        } else {
            0
        },
    )
}

/// What `notify_load` does to the slot of `id`: a grown length is recorded; a
/// length that did not grow while a load had been requested means the reader
/// ended, so the slot is marked exhausted.
pub open spec fn notify_load_spec(
    slots: Seq<LoaderSlot>,
    id: TrackId,
    new_length: usize,
) -> Seq<LoaderSlot> {
    let j = slot_index_of(slots, id);
    if j < 0 {
        slots
    } else {
        let s = slots[j];
        if new_length > s.known_length {
            slots.update(
                j,
                LoaderSlot {
                    id: s.id,
                    known_length: new_length,
                    exhausted: s.exhausted,
                    load_requested: false,
                },
            )
        } else {
            slots.update(
                j,
                LoaderSlot {
                    id: s.id,
                    known_length: s.known_length,
                    exhausted: s.exhausted || s.load_requested,
                    load_requested: false,
                },
            )
        }
    }
}

/// Where playback stands in slot `k`: the cursor in the head track, the start
/// in every later one.
pub open spec fn slot_pos(cursor: int, k: int) -> int {
    if k == 0 {
        cursor
    } else {
        0
    }
}

/// Whether a track is running low: not ended, and fewer than the threshold of
/// samples ahead of the playback position.
pub open spec fn wants_preload(slot: LoaderSlot, pos: int) -> bool {
    !slot.exhausted && slot.known_length - pos < PRELOAD_THRESHOLD
}

/// The requests `preload` emits for slots `k ..`, in window order: each asks
/// for enough to reach the target ahead of the playback position.
pub open spec fn preload_from(slots: Seq<LoaderSlot>, cursor: int, k: int) -> Seq<(TrackId, usize)>
    decreases slots.len() - k,
{
    if k < 0 || k >= slots.len() {
        Seq::empty()
    } else {
        let pos = slot_pos(cursor, k);
        let rest = preload_from(slots, cursor, k + 1);
        if wants_preload(slots[k], pos) {
            seq![(slots[k].id, (PRELOAD_TARGET - (slots[k].known_length - pos)) as usize)] + rest
        } else {
            rest
        }
    }
}

/// All requests one `preload` call emits.
pub open spec fn preload_spec(slots: Seq<LoaderSlot>, cursor: int) -> Seq<(TrackId, usize)> {
    preload_from(slots, cursor, 0)
}

/// The window after `preload`: requested slots are marked, nothing else moves.
pub open spec fn mark_requested_spec(slots: Seq<LoaderSlot>, cursor: int) -> Seq<LoaderSlot> {
    Seq::new(
        slots.len(),
        |k: int|
            if wants_preload(slots[k], slot_pos(cursor, k)) {
                LoaderSlot {
                    id: slots[k].id,
                    known_length: slots[k].known_length,
                    exhausted: slots[k].exhausted,
                    load_requested: true,
                }
            } else {
                slots[k]
            },
    )
}

/// What `advance` does, walking the window from its head: take what is known
/// of the head track, roll over past it when it is exhausted and fully
/// drained, and stop early on a short read or at the end of the window.
/// Yields the emitted segments, the rollover count, and the remaining window
/// and cursor.
pub open spec fn advance_spec(slots: Seq<LoaderSlot>, cursor: int, n: int) -> (
    Seq<Segment>,
    int,
    Seq<LoaderSlot>,
    int,
)
    decreases slots.len(),
{
    if n <= 0 || slots.len() == 0 {
        (Seq::<Segment>::empty(), 0int, slots, cursor)
    } else {
        let slot = slots[0];
        let avail = slot.known_length - cursor;
        let take = if n <= avail {
            n
        } else {
            avail
        };
        let segs0: Seq<Segment> = if take > 0 {
            seq![(Segment { id: slot.id, start: cursor as usize, end: (cursor + take) as usize })]
        } else {
            Seq::<Segment>::empty()
        };
        if slot.exhausted && cursor + take == slot.known_length {
            let rest = advance_spec(slots.drop_first(), 0, n - take);
            (segs0 + rest.0, 1 + rest.1, rest.2, rest.3)
        } else {
            (segs0, 0int, slots, cursor + take)
        }
    }
}

impl Scheduler {
    /// The look-ahead window.
    pub closed spec fn spec_loaders(&self) -> Seq<LoaderSlot> {
        self.loaders@
    }

    /// Samples into the head track already emitted.
    pub closed spec fn spec_cursor(&self) -> int {
        self.cursor as int
    }

    pub open spec fn wf(&self) -> bool {
        slots_wf(self.spec_loaders(), self.spec_cursor())
    }

    pub fn new() -> (r: Scheduler)
        ensures
            r.wf(),
            r.spec_loaders() == Seq::<LoaderSlot>::empty(),
            r.spec_cursor() == 0,
    {
        Scheduler { loaders: Vec::new(), cursor: 0 }
    }

    /// Samples of the head track already emitted.
    pub fn cursor(&self) -> (c: usize)
        ensures
            c as int == self.spec_cursor(),
    {
        self.cursor
    }

    /// How many tracks the window holds.
    pub fn window_len(&self) -> (n: usize)
        ensures
            n as int == self.spec_loaders().len(),
    {
        self.loaders.len()
    }

    /// The window slot at `i`, by value.
    pub fn slot(&self, i: usize) -> (s: LoaderSlot)
        requires
            i < self.spec_loaders().len(),
        ensures
            s == self.spec_loaders()[i as int],
    {
        self.loaders[i]
    }

    /// The first slot carrying `id`, by value.
    fn find_slot_exec(&self, id: TrackId) -> (r: Option<LoaderSlot>)
        ensures
            r == find_slot(self.spec_loaders(), id),
    {
        let mut i: usize = 0;
        while i < self.loaders.len()
            invariant
                i <= self.loaders@.len(),
                forall|j: int| 0 <= j < i ==> (#[trigger] self.loaders@[j]).id != id,
            decreases self.loaders@.len() - i,
        {
            if self.loaders[i].id == id {
                proof {
                    lemma_find_slot_at(self.loaders@, id, i as int);
                }
                return Some(self.loaders[i]);
            }
            i = i + 1;
        }
        proof {
            lemma_find_slot_none(self.loaders@, id);
        }
        None
    }

    /// Replaces the look-ahead window. Knowledge of tracks already in the
    /// window is kept; the cursor survives exactly when the head track id is
    /// unchanged, and resets to zero otherwise.
    pub fn set_loaders(&mut self, ids: &Vec<TrackId>)
        requires
            old(self).wf(),
        ensures
            final(self).wf(),
            (final(self).spec_loaders(), final(self).spec_cursor()) == set_loaders_spec(
                old(self).spec_loaders(),
                old(self).spec_cursor(),
                ids@,
            ),
    {
        let ghost slots0 = self.loaders@;
        let mut new_loaders: Vec<LoaderSlot> = Vec::new();
        let mut i: usize = 0;
        while i < ids.len()
            invariant
                i <= ids@.len(),
                self.loaders@ == slots0,
                new_loaders@.len() == i,
                forall|j: int|
                    0 <= j < i ==> #[trigger] new_loaders@[j] == match find_slot(
                        slots0,
                        ids@[j],
                    ) {
                        Some(s) => s,
                        None => fresh_slot(ids@[j]),
                    },
            decreases ids@.len() - i,
        {
            let slot = match self.find_slot_exec(ids[i]) {
                Some(s) => s,
                None => LoaderSlot {
                    id: ids[i],
                    known_length: 0,
                    exhausted: false,
                    load_requested: false,
                },
            };
            new_loaders.push(slot);
            i = i + 1;
        }
        let keep_cursor = ids.len() > 0 && self.loaders.len() > 0 && ids[0] == self.loaders[0].id;
        self.loaders = new_loaders;
        if !keep_cursor {
            self.cursor = 0;
        }
        proof {
            assert(self.loaders@ =~= set_loaders_spec(slots0, old(self).spec_cursor(), ids@).0);
        }
    }

    /// Records a reported loaded length for `id`. A length that did not grow
    /// while a load stood requested marks the track exhausted.
    pub fn notify_load(&mut self, id: TrackId, new_length: usize)
        requires
            old(self).wf(),
        ensures
            final(self).wf(),
            final(self).spec_loaders() == notify_load_spec(
                old(self).spec_loaders(),
                id,
                new_length,
            ),
            final(self).spec_cursor() == old(self).spec_cursor(),
    {
        let ghost slots0 = self.loaders@;
        let mut i: usize = 0;
        while i < self.loaders.len()
            invariant
                i <= self.loaders@.len(),
                self.loaders@ == slots0,
                slots0 == old(self).spec_loaders(),
                self.cursor as int == old(self).spec_cursor(),
                slots_wf(slots0, old(self).spec_cursor()),
                forall|j: int| 0 <= j < i ==> (#[trigger] slots0[j]).id != id,
            decreases self.loaders@.len() - i,
        {
            let s = self.loaders[i];
            if s.id == id {
                proof {
                    lemma_slot_index_of_at(slots0, id, i as int);
                }
                let ns: LoaderSlot = if new_length > s.known_length {
                    LoaderSlot {
                        id: s.id,
                        known_length: new_length,
                        exhausted: s.exhausted,
                        load_requested: false,
                    }
                } else {
                    LoaderSlot {
                        id: s.id,
                        known_length: s.known_length,
                        exhausted: s.exhausted || s.load_requested,
                        load_requested: false,
                    }
                };
                self.loaders.set(i, ns);
                proof {
                    assert(slot_index_of(slots0, id) == i as int);
                    assert(notify_load_spec(slots0, id, new_length) == slots0.update(
                        i as int,
                        ns,
                    ));
                }
                return ;
            }
            i = i + 1;
        }
        proof {
            lemma_slot_index_of_none(slots0, id);
        }
    }

    /// Emits, in window order, a request for every track that is running low:
    /// each asks for exactly enough to stand the target ahead of playback.
    /// The requested slots are marked until the load is reported back.
    pub fn preload(&mut self) -> (r: Vec<(TrackId, usize)>)
        requires
            old(self).wf(),
        ensures
            final(self).wf(),
            r@ == preload_spec(old(self).spec_loaders(), old(self).spec_cursor()),
            final(self).spec_loaders() == mark_requested_spec(
                old(self).spec_loaders(),
                old(self).spec_cursor(),
            ),
            final(self).spec_cursor() == old(self).spec_cursor(),
    {
        let ghost slots0 = self.loaders@;
        let ghost cursor0 = self.cursor as int;
        let mut r: Vec<(TrackId, usize)> = Vec::new();
        let mut i: usize = 0;
        while i < self.loaders.len()
            invariant
                slots_wf(slots0, cursor0),
                i <= self.loaders@.len(),
                self.loaders@.len() == slots0.len(),
                self.cursor as int == cursor0,
                forall|j: int| i <= j < slots0.len() ==> #[trigger] self.loaders@[j] == slots0[j],
                forall|j: int|
                    0 <= j < i ==> #[trigger] self.loaders@[j] == mark_requested_spec(
                        slots0,
                        cursor0,
                    )[j],
                preload_spec(slots0, cursor0) == r@ + preload_from(slots0, cursor0, i as int),
            decreases slots0.len() - i,
        {
            let s = self.loaders[i];
            let pos: usize = if i == 0 {
                self.cursor
            } else {
                0
            };
            if !s.exhausted && pos <= s.known_length && s.known_length - pos < PRELOAD_THRESHOLD {
                let amount: usize = PRELOAD_TARGET - (s.known_length - pos);
                r.push((s.id, amount));
                self.loaders.set(
                    i,
                    LoaderSlot {
                        id: s.id,
                        known_length: s.known_length,
                        exhausted: s.exhausted,
                        load_requested: true,
                    },
                );
            }
            i = i + 1;
        }
        proof {
            assert(preload_from(slots0, cursor0, slots0.len() as int) =~= Seq::<(
                TrackId,
                usize,
            )>::empty());
            assert(r@ =~= r@ + Seq::<(TrackId, usize)>::empty());
            assert(self.loaders@ =~= mark_requested_spec(slots0, cursor0));
        }
        r
    }

    /// Reserves the next `n` samples of output. Returns the emitted segments
    /// and how many track boundaries were crossed; the window loses exactly
    /// the crossed tracks and the cursor moves to the spot after the emitted
    /// samples.
    pub fn advance(&mut self, n: usize) -> (r: (Vec<Segment>, usize))
        requires
            old(self).wf(),
        ensures
            final(self).wf(),
            ({
                let a = advance_spec(old(self).spec_loaders(), old(self).spec_cursor(), n as int);
                &&& r.0@ == a.0
                &&& r.1 as int == a.1
                &&& final(self).spec_loaders() == a.2
                &&& final(self).spec_cursor() == a.3
            }),
    {
        let ghost slots0 = self.loaders@;
        let ghost cursor0 = self.cursor as int;
        let ghost full = advance_spec(slots0, cursor0, n as int);
        let total = self.loaders.len();
        let mut segs: Vec<Segment> = Vec::new();
        let mut rollovers: usize = 0;
        let mut remaining: usize = n;
        loop
            invariant
                self.wf(),
                remaining <= n,
                rollovers + self.loaders@.len() == total,
                full.0 == segs@ + advance_spec(
                    self.spec_loaders(),
                    self.spec_cursor(),
                    remaining as int,
                ).0,
                full.1 == rollovers + advance_spec(
                    self.spec_loaders(),
                    self.spec_cursor(),
                    remaining as int,
                ).1,
                full.2 == advance_spec(
                    self.spec_loaders(),
                    self.spec_cursor(),
                    remaining as int,
                ).2,
                full.3 == advance_spec(
                    self.spec_loaders(),
                    self.spec_cursor(),
                    remaining as int,
                ).3,
            ensures
                full.0 == segs@,
                full.1 == rollovers as int,
                full.2 == self.spec_loaders(),
                full.3 == self.spec_cursor(),
            decreases self.loaders@.len(),
        {
            if remaining == 0 || self.loaders.len() == 0 {
                proof {
                    assert(segs@ + Seq::<Segment>::empty() =~= segs@);
                }
                break ;
            }
            let ghost state_slots = self.loaders@;
            let ghost state_cursor = self.cursor as int;
            let ghost state_n = remaining as int;
            let ghost segs_before = segs@;
            let slot = self.loaders[0];
            let avail = slot.known_length - self.cursor;
            let take = if remaining <= avail {
                remaining
            } else {
                avail
            };
            let ghost segs0: Seq<Segment> = if take > 0 {
                seq![
                    (Segment {
                        id: slot.id,
                        start: state_cursor as usize,
                        end: (state_cursor + take) as usize,
                    }),
                ]
            } else {
                Seq::<Segment>::empty()
            };
            if take > 0 {
                segs.push(Segment { id: slot.id, start: self.cursor, end: self.cursor + take });
                self.cursor = self.cursor + take;
                remaining = remaining - take;
            }
            proof {
                assert(segs@ =~= segs_before + segs0);
                lemma_advance_spec_step(state_slots, state_cursor, state_n);
            }
            if slot.exhausted && self.cursor == slot.known_length {
                self.loaders.remove(0);
                self.cursor = 0;
                rollovers = rollovers + 1;
                proof {
                    assert(self.loaders@ =~= state_slots.drop_first());
                    let rest = advance_spec(self.spec_loaders(), 0, remaining as int);
                    assert(segs_before + (segs0 + rest.0) =~= (segs_before + segs0) + rest.0);
                }
            } else {
                proof {
                    assert(advance_spec(self.spec_loaders(), self.spec_cursor(), remaining as int).0
                        =~= Seq::<Segment>::empty());
                    assert(segs@ + Seq::<Segment>::empty() =~= segs@);
                }
                break ;
            }
        }
        (segs, rollovers)
    }
}

/// Unfolds one step of `advance_spec`, naming the pieces the loop relates.
proof fn lemma_advance_spec_step(slots: Seq<LoaderSlot>, cursor: int, n: int)
    requires
        n > 0,
        slots.len() > 0,
        0 <= cursor <= slots[0].known_length,
    ensures
        ({
            let slot = slots[0];
            let avail = slot.known_length - cursor;
            let take = if n <= avail {
                n
            } else {
                avail
            };
            let segs0: Seq<Segment> = if take > 0 {
                seq![
                    (Segment { id: slot.id, start: cursor as usize, end: (cursor + take) as usize }),
                ]
            } else {
                Seq::<Segment>::empty()
            };
            if slot.exhausted && cursor + take == slot.known_length {
                let rest = advance_spec(slots.drop_first(), 0, n - take);
                advance_spec(slots, cursor, n) == (segs0 + rest.0, 1 + rest.1, rest.2, rest.3)
            } else {
                advance_spec(slots, cursor, n) == (segs0, 0int, slots, cursor + take)
            }
        }),
{
}

/// How many samples a segment covers.
pub open spec fn seg_len(s: Segment) -> int {
    s.end - s.start
}

/// The total samples a list of segments covers.
pub open spec fn sum_seg_lens(segs: Seq<Segment>) -> int
    decreases segs.len(),
{
    if segs.len() == 0 {
        0
    } else {
        seg_len(segs[0]) + sum_seg_lens(segs.drop_first())
    }
}

/// The track ids of a list of segments, in order.
pub open spec fn seg_ids(segs: Seq<Segment>) -> Seq<TrackId> {
    segs.map(|k: int, s: Segment| s.id)
}

/// The track ids of a window, in order.
pub open spec fn slot_ids(slots: Seq<LoaderSlot>) -> Seq<TrackId> {
    slots.map(|k: int, s: LoaderSlot| s.id)
}

/// `xs` appears within `ys` in order.
pub open spec fn is_id_subsequence(xs: Seq<TrackId>, ys: Seq<TrackId>) -> bool
    decreases ys.len(),
{
    if xs.len() == 0 {
        true
    } else if ys.len() == 0 {
        false
    } else {
        (xs[0] == ys[0] && is_id_subsequence(xs.drop_first(), ys.drop_first()))
            || is_id_subsequence(xs, ys.drop_first())
    }
}

/// The segment names a window track and stays within its known length.
pub open spec fn seg_within_window(seg: Segment, slots: Seq<LoaderSlot>) -> bool {
    exists|j: int|
        0 <= j < slots.len() && (#[trigger] slots[j]).id == seg.id && seg.end
            <= slots[j].known_length
}

/// Splitting a sum of segment lengths at the first element.
pub proof fn lemma_sum_seg_lens_cons(s: Segment, rest: Seq<Segment>)
    ensures
        sum_seg_lens(seq![s] + rest) == seg_len(s) + sum_seg_lens(rest),
{
    assert((seq![s] + rest).len() == 1 + rest.len());
    assert((seq![s] + rest)[0] == s);
    assert((seq![s] + rest).drop_first() =~= rest);
}

/// Appending a segment adds its length to the sum.
pub proof fn lemma_sum_seg_lens_snoc(segs: Seq<Segment>, s: Segment)
    ensures
        sum_seg_lens(segs.push(s)) == sum_seg_lens(segs) + seg_len(s),
    decreases segs.len(),
{
    if segs.len() == 0 {
        assert(segs.push(s)[0] == s);
        assert(segs.push(s).drop_first() =~= Seq::<Segment>::empty());
        assert(sum_seg_lens(Seq::<Segment>::empty()) == 0);
    } else {
        lemma_sum_seg_lens_snoc(segs.drop_first(), s);
        assert(segs.push(s)[0] == segs[0]);
        assert(segs.push(s).drop_first() =~= segs.drop_first().push(s));
    }
}

/// Non-empty ranges sum to something non-negative.
pub proof fn lemma_sum_seg_lens_nonneg(segs: Seq<Segment>)
    requires
        forall|k: int| 0 <= k < segs.len() ==> (#[trigger] segs[k]).start <= segs[k].end,
    ensures
        sum_seg_lens(segs) >= 0,
    decreases segs.len(),
{
    if segs.len() > 0 {
        assert(forall|k: int|
            0 <= k < segs.drop_first().len() ==> (#[trigger] segs.drop_first()[k]).start
                == segs[k + 1].start && segs.drop_first()[k].end == segs[k + 1].end);
        lemma_sum_seg_lens_nonneg(segs.drop_first());
    }
}

/// Where segment `k`'s samples land in the tick buffer: after all earlier
/// segments.
pub open spec fn seg_offset(segs: Seq<Segment>, k: int) -> int {
    sum_seg_lens(segs.take(k))
}

/// Earlier segments end at or before where later ones begin.
pub proof fn lemma_seg_offset_le(segs: Seq<Segment>, k2: int, k: int)
    requires
        0 <= k2 < k <= segs.len(),
        forall|i: int| 0 <= i < segs.len() ==> (#[trigger] segs[i]).start <= segs[i].end,
    ensures
        seg_offset(segs, k2) + seg_len(segs[k2]) <= seg_offset(segs, k),
    decreases k,
{
    assert(segs.take(k2 + 1) =~= segs.take(k2).push(segs[k2]));
    lemma_sum_seg_lens_snoc(segs.take(k2), segs[k2]);
    if k == k2 + 1 {
    } else {
        lemma_seg_offset_le(segs, k2, k - 1);
        assert(segs.take(k) =~= segs.take(k - 1).push(segs[k - 1]));
        lemma_sum_seg_lens_snoc(segs.take(k - 1), segs[k - 1]);
    }
}

/// What one `advance` emits, against the window it started from: the segment
/// lengths sum to at most `n`; the segments are non-empty, begin at the
/// cursor in the head track and at zero in every later one, stay within the
/// known lengths, and name window tracks in window order; the window loses
/// exactly the rolled-over head tracks; and the remaining state is well
/// formed.
pub proof fn lemma_advance_props(slots: Seq<LoaderSlot>, cursor: int, n: int)
    requires
        slots_wf(slots, cursor),
        n >= 0,
    ensures
        ({
            let a = advance_spec(slots, cursor, n);
            &&& sum_seg_lens(a.0) <= n
            &&& 0 <= a.1 <= slots.len()
            &&& a.2 == slots.skip(a.1)
            &&& slots_wf(a.2, a.3)
            &&& (a.0.len() > 0 && a.1 == 0 ==> a.0[0].id == slots[0].id && a.0[0].start == cursor)
            &&& (forall|k: int|
                0 <= k < a.0.len() ==> ((#[trigger] a.0[k]).start == 0 || (k == 0 && a.0[k].start
                    == cursor)))
            &&& (forall|k: int| 0 <= k < a.0.len() ==> (#[trigger] a.0[k]).start < a.0[k].end)
            &&& (forall|k: int|
                0 <= k < a.0.len() ==> #[trigger] seg_within_window(a.0[k], slots))
            &&& is_id_subsequence(seg_ids(a.0), slot_ids(slots))
        }),
    decreases slots.len(),
{
    let a = advance_spec(slots, cursor, n);
    if n <= 0 || slots.len() == 0 {
        assert(slots.skip(0) =~= slots);
    } else {
        let slot = slots[0];
        let avail = slot.known_length - cursor;
        let take = if n <= avail {
            n
        } else {
            avail
        };
        let segs0: Seq<Segment> = if take > 0 {
            seq![(Segment { id: slot.id, start: cursor as usize, end: (cursor + take) as usize })]
        } else {
            Seq::<Segment>::empty()
        };
        lemma_advance_spec_step(slots, cursor, n);
        if slot.exhausted && cursor + take == slot.known_length {
            let tail = slots.drop_first();
            let rest = advance_spec(tail, 0, n - take);
            lemma_advance_props(tail, 0, n - take);
            if take > 0 {
                lemma_sum_seg_lens_cons(segs0[0], rest.0);
            } else {
                assert(segs0 + rest.0 =~= rest.0);
            }
            assert(a.0 == segs0 + rest.0);
            assert(tail.skip(rest.1) =~= slots.skip(1 + rest.1));
            assert forall|k: int| 0 <= k < a.0.len() implies #[trigger] seg_within_window(
                a.0[k],
                slots,
            ) by {
                if take > 0 && k == 0 {
                    assert(slots[0].id == a.0[0].id && a.0[0].end <= slots[0].known_length);
                } else {
                    let kr = k - segs0.len();
                    assert(a.0[k] == rest.0[kr]);
                    assert(seg_within_window(rest.0[kr], tail));
                    let j0 = choose|j0: int|
                        0 <= j0 < tail.len() && (#[trigger] tail[j0]).id == rest.0[kr].id
                            && rest.0[kr].end <= tail[j0].known_length;
                    assert(slots[j0 + 1] == tail[j0]);
                    assert(0 <= j0 + 1 < slots.len() && slots[j0 + 1].id == a.0[k].id && a.0[k].end
                        <= slots[j0 + 1].known_length);
                }
            }
            lemma_id_subsequence_compose(segs0, rest.0, slots);
        } else {
            assert(slots.skip(0) =~= slots);
            if take > 0 {
                assert(segs0.drop_first() =~= Seq::<Segment>::empty());
                assert(sum_seg_lens(Seq::<Segment>::empty()) == 0);
                assert(sum_seg_lens(segs0) == seg_len(segs0[0]));
                assert(seg_ids(segs0) =~= seq![slot.id]);
                assert(seg_ids(segs0).drop_first() =~= Seq::<TrackId>::empty());
                assert(slot_ids(slots)[0] == slot.id);
                assert(slot_ids(slots).len() == slots.len());
                assert(is_id_subsequence(Seq::<TrackId>::empty(), slot_ids(slots).drop_first()));
                assert(is_id_subsequence(seg_ids(segs0), slot_ids(slots)));
            } else {
                assert(seg_ids(segs0) =~= Seq::<TrackId>::empty());
            }
        }
    }
}

/// The emitted ids stay a subsequence when a head segment of the head track
/// is put in front.
proof fn lemma_id_subsequence_compose(segs0: Seq<Segment>, rest: Seq<Segment>, slots: Seq<
    LoaderSlot,
>)
    requires
        slots.len() > 0,
        segs0.len() <= 1,
        segs0.len() == 1 ==> segs0[0].id == slots[0].id,
        is_id_subsequence(seg_ids(rest), slot_ids(slots.drop_first())),
    ensures
        is_id_subsequence(seg_ids(segs0 + rest), slot_ids(slots)),
{
    assert(slot_ids(slots).len() == slots.len());
    assert(slot_ids(slots).drop_first() =~= slot_ids(slots.drop_first()));
    if segs0.len() == 0 {
        assert(seg_ids(segs0 + rest) =~= seg_ids(rest));
        if seg_ids(rest).len() > 0 {
            assert(is_id_subsequence(seg_ids(rest), slot_ids(slots)));
        }
    } else {
        let all = seg_ids(segs0 + rest);
        assert(all.len() == 1 + rest.len());
        assert(all[0] == slots[0].id);
        assert(all[0] == slot_ids(slots)[0]);
        assert(all.drop_first() =~= seg_ids(rest));
        assert(is_id_subsequence(all.drop_first(), slot_ids(slots).drop_first()));
        assert(is_id_subsequence(all, slot_ids(slots)));
    }
}

/// Asking for nothing yields nothing and moves nothing: the window and the
/// cursor stay exactly as they were.
pub proof fn lemma_advance_zero(slots: Seq<LoaderSlot>, cursor: int)
    ensures
        advance_spec(slots, cursor, 0) == (Seq::<Segment>::empty(), 0int, slots, cursor),
{
}

/// Setting the same window twice in a row keeps the cursor where the first
/// call left it.
pub proof fn lemma_set_loaders_twice_keeps_cursor(
    slots: Seq<LoaderSlot>,
    cursor: int,
    ids: Seq<TrackId>,
)
    ensures
        ({
            let first = set_loaders_spec(slots, cursor, ids);
            set_loaders_spec(first.0, first.1, ids).1 == first.1
        }),
{
    let first = set_loaders_spec(slots, cursor, ids);
    if ids.len() > 0 {
        lemma_find_slot_id(slots, ids[0]);
        assert(first.0[0].id == ids[0]);
    }
}

/// `slot_index_of` is -1 or a window index, and a found index matches.
pub proof fn lemma_slot_index_of_bounds(slots: Seq<LoaderSlot>, id: TrackId)
    ensures
        -1 <= slot_index_of(slots, id) < slots.len(),
        slot_index_of(slots, id) >= 0 ==> slots[slot_index_of(slots, id)].id == id,
    decreases slots.len(),
{
    if slots.len() > 0 && slots[0].id != id {
        lemma_slot_index_of_bounds(slots.drop_first(), id);
    }
}

/// A found slot is one of the slots searched.
pub proof fn lemma_find_slot_is_element(slots: Seq<LoaderSlot>, id: TrackId)
    ensures
        find_slot(slots, id) matches Some(s) ==> exists|j: int|
            0 <= j < slots.len() && slots[j] == s,
    decreases slots.len(),
{
    if slots.len() > 0 {
        if slots[0].id == id {
            assert(slots[0] == slots[0]);
        } else {
            lemma_find_slot_is_element(slots.drop_first(), id);
            match find_slot(slots, id) {
                Some(s) => {
                    let j0 = choose|j0: int|
                        0 <= j0 < slots.drop_first().len() && slots.drop_first()[j0] == s;
                    assert(slots[j0 + 1] == s);
                },
                None => {},
            }
        }
    }
}

/// The request names a track of the window.
pub open spec fn request_in_window(req: (TrackId, usize), slots: Seq<LoaderSlot>) -> bool {
    exists|j: int| 0 <= j < slots.len() && (#[trigger] slots[j]).id == req.0
}

/// Every preload request names a track of the window.
pub proof fn lemma_preload_from_ids(slots: Seq<LoaderSlot>, cursor: int, k: int)
    ensures
        forall|m: int|
            0 <= m < preload_from(slots, cursor, k).len() ==> #[trigger] request_in_window(
                preload_from(slots, cursor, k)[m],
                slots,
            ),
    decreases slots.len() - k,
{
    if 0 <= k < slots.len() {
        lemma_preload_from_ids(slots, cursor, k + 1);
        let cur = preload_from(slots, cursor, k);
        let rest = preload_from(slots, cursor, k + 1);
        assert forall|m: int| 0 <= m < cur.len() implies #[trigger] request_in_window(
            cur[m],
            slots,
        ) by {
            if wants_preload(slots[k], slot_pos(cursor, k)) {
                if m == 0 {
                    assert(slots[k].id == cur[0].0);
                } else {
                    assert(cur[m] == rest[m - 1]);
                }
            } else {
                assert(cur[m] == rest[m]);
            }
        }
    }
}

/// A found slot carries the id it was found by.
pub proof fn lemma_find_slot_id(slots: Seq<LoaderSlot>, id: TrackId)
    ensures
        find_slot(slots, id) matches Some(s) ==> s.id == id,
    decreases slots.len(),
{
    if slots.len() > 0 && slots[0].id != id {
        lemma_find_slot_id(slots.drop_first(), id);
    }
}

/// A preload answered in full stands the track exactly the target ahead of
/// the playback position: the loader keeps every wanting track topped up to
/// the target, one round at a time.
pub proof fn lemma_full_load_restores_target(
    slots: Seq<LoaderSlot>,
    cursor: int,
    k: int,
    new_length: usize,
)
    requires
        slots_wf(slots, cursor),
        0 <= k < slots.len(),
        slot_index_of(slots, slots[k].id) == k,
        wants_preload(slots[k], slot_pos(cursor, k)),
        new_length == slots[k].known_length + (PRELOAD_TARGET - (slots[k].known_length - slot_pos(
            cursor,
            k,
        ))),
    ensures
        notify_load_spec(slots, slots[k].id, new_length)[k].known_length - slot_pos(cursor, k)
            == PRELOAD_TARGET,
{
    assert(PRELOAD_THRESHOLD < PRELOAD_TARGET);
    assert(new_length > slots[k].known_length);
}

/// One tick eats at most `n` samples of the head track's lead: while the
/// head does not roll over, the samples known ahead of the cursor shrink by
/// no more than the tick size. With the loader topping the lead up to the
/// target each round, playback stays within one tick of the target.
pub proof fn lemma_lead_survives_tick(slots: Seq<LoaderSlot>, cursor: int, n: int)
    requires
        slots_wf(slots, cursor),
        n >= 0,
        slots.len() > 0,
    ensures
        ({
            let a = advance_spec(slots, cursor, n);
            a.1 == 0 ==> slots[0].known_length - a.3 >= (slots[0].known_length - cursor) - n
        }),
{
    if n > 0 {
        let slot = slots[0];
        let avail = slot.known_length - cursor;
        let take = if n <= avail {
            n
        } else {
            avail
        };
        if slot.exhausted && cursor + take == slot.known_length {
            lemma_advance_props(slots.drop_first(), 0, n - take);
        }
    }
}

/// `find_slot` returns the slot at the first matching index.
proof fn lemma_find_slot_at(slots: Seq<LoaderSlot>, id: TrackId, i: int)
    requires
        0 <= i < slots.len(),
        slots[i].id == id,
        forall|j: int| 0 <= j < i ==> (#[trigger] slots[j]).id != id,
    ensures
        find_slot(slots, id) == Some(slots[i]),
    decreases i,
{
    if i > 0 {
        lemma_find_slot_at(slots.drop_first(), id, i - 1);
    }
}

/// With no matching slot, `find_slot` returns nothing.
proof fn lemma_find_slot_none(slots: Seq<LoaderSlot>, id: TrackId)
    requires
        forall|j: int| 0 <= j < slots.len() ==> (#[trigger] slots[j]).id != id,
    ensures
        find_slot(slots, id) == None::<LoaderSlot>,
    decreases slots.len(),
{
    if slots.len() > 0 {
        lemma_find_slot_none(slots.drop_first(), id);
    }
}

/// `slot_index_of` finds the first matching index.
proof fn lemma_slot_index_of_at(slots: Seq<LoaderSlot>, id: TrackId, i: int)
    requires
        0 <= i < slots.len(),
        slots[i].id == id,
        forall|j: int| 0 <= j < i ==> (#[trigger] slots[j]).id != id,
    ensures
        slot_index_of(slots, id) == i,
    decreases i,
{
    if i > 0 {
        lemma_slot_index_of_at(slots.drop_first(), id, i - 1);
    }
}

/// With no matching slot, `slot_index_of` is negative.
proof fn lemma_slot_index_of_none(slots: Seq<LoaderSlot>, id: TrackId)
    requires
        forall|j: int| 0 <= j < slots.len() ==> (#[trigger] slots[j]).id != id,
    ensures
        slot_index_of(slots, id) == -1,
    decreases slots.len(),
{
    if slots.len() > 0 {
        lemma_slot_index_of_none(slots.drop_first(), id);
    }
}

} // verus!
