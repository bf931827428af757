//! The audio system root: queue, scheduler, pool and registry behind one
//! facade, with the per-tick work of the playback and loader loops.
//!
//! The drivers that own threads and clocks live outside the library; they
//! call `playback_tick` and `loader_tick`, whose contracts say everything the
//! loops rely on.

use vstd::prelude::*;

use crate::buffering::AudioBufferConsumer;
use crate::buffering::BufferRegistry;
use crate::buffering::last_n;
use crate::pool::load_outcome;
use crate::pool::pool_grew;
use crate::pool::Pool;
use crate::pool::TrackId;
use crate::queue::Queue;
use crate::queue::QueueEvent;
use crate::queue::QueuePosition;
use crate::queue::Track;
use crate::reader::SampleReader;
use crate::sample::bytes_of_samples;
use crate::sample::Sample;
use crate::scheduler::advance_spec;
use crate::scheduler::lemma_advance_props;
use crate::scheduler::lemma_find_slot_id;
use crate::scheduler::lemma_find_slot_is_element;
use crate::scheduler::lemma_preload_from_ids;
use crate::scheduler::lemma_seg_offset_le;
use crate::scheduler::lemma_sum_seg_lens_nonneg;
use crate::scheduler::lemma_sum_seg_lens_snoc;
use crate::scheduler::mark_requested_spec;
use crate::scheduler::notify_load_spec;
use crate::scheduler::preload_spec;
use crate::scheduler::slot_index_of;
use crate::scheduler::slots_wf;
use crate::scheduler::wants_preload;
use crate::scheduler::LoaderSlot;
use crate::scheduler::seg_len;
use crate::scheduler::seg_offset;
use crate::scheduler::seg_within_window;
use crate::scheduler::set_loaders_spec;
use crate::scheduler::slot_ids;
use crate::scheduler::sum_seg_lens;
use crate::scheduler::Scheduler;
use crate::scheduler::Segment;
use crate::LOOKAHEAD;
use crate::STREAM_CHUNK_SIZE;
use crate::PRELOAD_TARGET;
use crate::PRELOAD_THRESHOLD;
use crate::STREAM_TICK_MICROS;

verus! {

/// A new track: its sample reader and the declared length hint in samples.
pub struct Input<R: SampleReader> {
    pub reader: R,
    pub expected_length: usize,
}

impl<R: SampleReader> Input<R> {
    pub fn new(reader: R, expected_length: usize) -> (r: Input<R>)
        ensures
            r.expected_length == expected_length,
    {
        Input { reader, expected_length }
    }
}

/// The track ids a queue with these tracks and this head offers the
/// scheduler: up to the look-ahead depth, starting at the head.
pub open spec fn upcoming_ids(tracks: Seq<Track>, head: int) -> Seq<TrackId> {
    let up = tracks.skip(head);
    let lim = if up.len() <= LOOKAHEAD {
        up
    } else {
        up.take(LOOKAHEAD as int)
    };
    lim.map(|k: int, t: Track| t.id)
}

/// The track ids the queue offers the scheduler right now.
pub open spec fn window_ids(q: Queue) -> Seq<TrackId> {
    upcoming_ids(q.spec_tracks(), q.spec_head())
}

/// The scheduler after `k` skips taken one at a time: each moves the head one
/// forward (saturating at the end) and re-sets the window from the queue, so
/// knowledge of tracks still in the window — the rolled-to head's cursor
/// included — survives each step.
pub open spec fn realigned(
    loaders: Seq<LoaderSlot>,
    cursor: int,
    tracks: Seq<Track>,
    head0: int,
    k: int,
) -> (Seq<LoaderSlot>, int)
    decreases k,
{
    if k <= 0 {
        (loaders, cursor)
    } else {
        let prev = realigned(loaders, cursor, tracks, head0, k - 1);
        let h: int = if head0 + k <= tracks.len() {
            head0 + k
        } else {
            tracks.len() as int
        };
        set_loaders_spec(prev.0, prev.1, upcoming_ids(tracks, h))
    }
}

/// Everything one loader round can do with the request list `reqs`, from pool
/// `p0` and window `s0` to pool `p1` and window `s1`: each request in turn is
/// answered by one `load` outcome whose reported length is fed back through
/// `notify_load`.
pub open spec fn loader_round_rel<R: SampleReader>(
    p0: Pool<R>,
    s0: Seq<LoaderSlot>,
    reqs: Seq<(TrackId, usize)>,
    p1: Pool<R>,
    s1: Seq<LoaderSlot>,
) -> bool
    decreases reqs.len(),
{
    if reqs.len() == 0 {
        p1 == p0 && s1 == s0
    } else {
        exists|pm: Pool<R>, n: usize|
            #[trigger] load_outcome(p0, pm, reqs[0].0, reqs[0].1, n) && loader_round_rel(
                pm,
                notify_load_spec(s0, reqs[0].0, n),
                reqs.drop_first(),
                p1,
                s1,
            )
    }
}

/// The tick buffer agrees with the pool on every emitted segment, laid out
/// back to back, and holds silence after them.
pub open spec fn tick_fill_ok<R: SampleReader>(
    samples: Seq<Sample>,
    segs: Seq<Segment>,
    pool: Pool<R>,
) -> bool {
    &&& (forall|k: int|
        0 <= k < segs.len() ==> samples.subrange(
            #[trigger] seg_offset(segs, k),
            seg_offset(segs, k) + seg_len(segs[k]),
        ) == pool.buffer_of(segs[k].id).subrange(segs[k].start as int, segs[k].end as int))
    &&& (forall|m: int| sum_seg_lens(segs) <= m < samples.len() ==> #[trigger] samples[m] == 0)
}

/// One audio engine: all four subsystems, owned together.
pub struct AudioSystem<R: SampleReader> {
    queue: Queue,
    scheduler: Scheduler,
    pool: Pool<R>,
    registry: BufferRegistry,
}

impl<R: SampleReader> AudioSystem<R> {
    pub closed spec fn spec_queue(&self) -> Queue {
        self.queue
    }

    pub closed spec fn spec_scheduler(&self) -> Scheduler {
        self.scheduler
    }

    pub closed spec fn spec_pool(&self) -> Pool<R> {
        self.pool
    }

    pub closed spec fn spec_registry(&self) -> BufferRegistry {
        self.registry
    }

    /// Every queued track and every window slot names a pool entry, and the
    /// scheduler never believes more is loaded than the pool holds.
    pub open spec fn wf(&self) -> bool {
        &&& self.spec_queue().wf()
        &&& self.spec_scheduler().wf()
        &&& self.spec_registry().wf()
        &&& (forall|i: int|
            0 <= i < self.spec_queue().spec_tracks().len() ==> self.spec_pool().contains(
                (#[trigger] self.spec_queue().spec_tracks()[i]).id,
            ))
        &&& (forall|j: int|
            0 <= j < self.spec_scheduler().spec_loaders().len() ==> {
                &&& self.spec_pool().contains(
                    (#[trigger] self.spec_scheduler().spec_loaders()[j]).id,
                )
                &&& self.spec_scheduler().spec_loaders()[j].known_length
                    <= self.spec_pool().loaded_length_of(self.spec_scheduler().spec_loaders()[j].id)
            })
    }

    pub fn new() -> (r: AudioSystem<R>)
        ensures
            r.wf(),
            r.spec_queue().spec_tracks() == Seq::<Track>::empty(),
            r.spec_queue().spec_head() == 0,
            r.spec_queue().spec_events() == Seq::<QueueEvent>::empty(),
            r.spec_scheduler().spec_loaders() == Seq::<
                crate::scheduler::LoaderSlot,
            >::empty(),
            r.spec_scheduler().spec_cursor() == 0,
            r.spec_pool().spec_len() == 0,
            r.spec_registry().spec_consumers() == 0,
            r.spec_registry().spec_total() == Seq::<u8>::empty(),
    {
        AudioSystem {
            queue: Queue::new(),
            scheduler: Scheduler::new(),
            pool: Pool::new(),
            registry: BufferRegistry::new(),
        }
    }

    /// Opens a fresh consumer of the byte stream. Its ring starts empty, so
    /// its first read sees only what is broadcast after this call.
    pub fn stream(&mut self) -> (c: AudioBufferConsumer)
        requires
            old(self).wf(),
        ensures
            final(self).wf(),
            c.index as int == old(self).spec_registry().spec_consumers(),
            final(self).spec_registry().spec_consumers() == old(
                self,
            ).spec_registry().spec_consumers() + 1,
            final(self).spec_registry().spec_total() == old(self).spec_registry().spec_total(),
            final(self).spec_registry().ring_of(c.index as int) == Seq::<u8>::empty(),
            final(self).spec_registry().cap_of(c.index as int) == crate::CONSUMER_RING_SIZE,
            final(self).spec_registry().base_of(c.index as int) == old(
                self,
            ).spec_registry().spec_total().len(),
            forall|i: int|
                0 <= i < old(self).spec_registry().spec_consumers() ==> {
                    &&& final(self).spec_registry().ring_of(i) == old(self).spec_registry().ring_of(
                        i,
                    )
                    &&& final(self).spec_registry().base_of(i) == old(self).spec_registry().base_of(
                        i,
                    )
                    &&& final(self).spec_registry().cap_of(i) == old(self).spec_registry().cap_of(i)
                },
            final(self).spec_queue() == old(self).spec_queue(),
            final(self).spec_scheduler() == old(self).spec_scheduler(),
            final(self).spec_pool() == old(self).spec_pool(),
    {
        self.registry.get_consumer()
    }

    /// Reads up to `amount` pending bytes for consumer `c`, oldest first.
    pub fn read_consumer(&mut self, c: AudioBufferConsumer, amount: usize) -> (r: Vec<u8>)
        requires
            old(self).wf(),
            c.index < old(self).spec_registry().spec_consumers(),
        ensures
            final(self).wf(),
            r@ == old(self).spec_registry().ring_of(c.index as int).take(r@.len() as int),
            final(self).spec_registry().ring_of(c.index as int) == old(
                self,
            ).spec_registry().ring_of(c.index as int).skip(r@.len() as int),
            r@.len() == if amount <= old(self).spec_registry().ring_of(c.index as int).len() {
                amount as int
            } else {
                old(self).spec_registry().ring_of(c.index as int).len() as int
            },
            final(self).spec_queue() == old(self).spec_queue(),
            final(self).spec_scheduler() == old(self).spec_scheduler(),
            final(self).spec_pool() == old(self).spec_pool(),
    {
        self.registry.read_consumer(c, amount)
    }

    /// Aligns the scheduler's window with the queue: the head track keeps its
    /// cursor, tracks already in the window keep what is known of them.
    pub fn notify_queue_update(&mut self)
        requires
            old(self).wf(),
        ensures
            final(self).wf(),
            final(self).spec_queue() == old(self).spec_queue(),
            final(self).spec_pool() == old(self).spec_pool(),
            final(self).spec_registry() == old(self).spec_registry(),
            (final(self).spec_scheduler().spec_loaders(), final(self).spec_scheduler().spec_cursor())
                == set_loaders_spec(
                old(self).spec_scheduler().spec_loaders(),
                old(self).spec_scheduler().spec_cursor(),
                window_ids(old(self).spec_queue()),
            ),
            slot_ids(final(self).spec_scheduler().spec_loaders()) == window_ids(
                final(self).spec_queue(),
            ),
    {
        let ghost slots0 = self.scheduler.spec_loaders();
        let tracks = self.queue.peek_ahead(LOOKAHEAD);
        let mut ids: Vec<TrackId> = Vec::new();
        let mut i: usize = 0;
        while i < tracks.len()
            invariant
                i <= tracks@.len(),
                ids@.len() == i,
                forall|j: int| 0 <= j < i ==> #[trigger] ids@[j] == tracks@[j].id,
            decreases tracks@.len() - i,
        {
            ids.push(tracks[i].id);
            i = i + 1;
        }
        proof {
            let up = self.queue.spec_upcoming();
            let lim = if up.len() <= LOOKAHEAD {
                up
            } else {
                up.take(LOOKAHEAD as int)
            };
            assert(tracks@ == lim);
            assert(ids@.len() == window_ids(self.queue).len());
            assert forall|j: int| 0 <= j < ids@.len() implies ids@[j] == window_ids(self.queue)[j]
                by {
                assert(ids@[j] == tracks@[j].id);
                assert(window_ids(self.queue)[j] == lim[j].id);
            }
            assert(ids@ =~= window_ids(self.queue));
        }
        self.scheduler.set_loaders(&ids);
        proof {
            let new_slots = self.scheduler.spec_loaders();
            assert forall|j: int| 0 <= j < new_slots.len() implies ((#[trigger] new_slots[j]).id
                == ids@[j] && self.pool.contains(new_slots[j].id) && new_slots[j].known_length
                <= self.pool.loaded_length_of(new_slots[j].id)) by {
                lemma_find_slot_id(slots0, ids@[j]);
                lemma_find_slot_is_element(slots0, ids@[j]);
                let up = self.spec_queue().spec_upcoming();
                let lim = if up.len() <= LOOKAHEAD {
                    up
                } else {
                    up.take(LOOKAHEAD as int)
                };
                assert(tracks@ == lim);
                assert(0 <= j < tracks@.len());
                assert(tracks@.len() <= up.len());
                assert(ids@[j] == tracks@[j].id);
                assert(tracks@[j] == up[j]);
                assert(self.spec_queue() == old(self).spec_queue());
                assert(self.spec_queue().wf());
                assert(up == self.spec_queue().spec_tracks().subrange(
                    self.spec_queue().spec_head(),
                    self.spec_queue().spec_tracks().len() as int,
                ));
                assert(0 <= self.spec_queue().spec_head()
                    <= self.spec_queue().spec_tracks().len());
                assert(self.spec_queue().spec_head() + up.len()
                    == self.spec_queue().spec_tracks().len());
                assert(up[j] == self.spec_queue().spec_tracks()[self.spec_queue().spec_head() + j]);
                assert(self.spec_pool().contains(
                    self.spec_queue().spec_tracks()[self.spec_queue().spec_head() + j].id,
                ));
                match crate::scheduler::find_slot(slots0, ids@[j]) {
                    Some(s) => {
                        let j0 = choose|j0: int| 0 <= j0 < slots0.len() && slots0[j0] == s;
                        assert(old(self).spec_scheduler().spec_loaders()[j0] == s);
                    },
                    None => {},
                }
            }
            assert(slot_ids(new_slots) =~= window_ids(self.queue));
        }
    }

    /// Enqueues a new track at the end of the queue: the pool takes its
    /// reader under a fresh id, the queue records it, and the scheduler's
    /// window is re-aligned.
    pub fn add(&mut self, input: Input<R>)
        requires
            old(self).wf(),
        ensures
            final(self).wf(),
            final(self).spec_pool().spec_len() == old(self).spec_pool().spec_len() + 1,
            final(self).spec_queue().spec_tracks().len() == old(
                self,
            ).spec_queue().spec_tracks().len() + 1,
            final(self).spec_queue().spec_tracks().last().id.index == old(
                self,
            ).spec_pool().spec_len(),
            final(self).spec_queue().spec_tracks().drop_last() == old(
                self,
            ).spec_queue().spec_tracks(),
            final(self).spec_queue().spec_head() == old(self).spec_queue().spec_head(),
            final(self).spec_queue().spec_events() == old(self).spec_queue().spec_events().push(
                QueueEvent::TrackAdded {
                    position: old(self).spec_queue().spec_tracks().len() as usize,
                },
            ),
            final(self).spec_registry() == old(self).spec_registry(),
            ({
                let id = (TrackId { index: old(self).spec_pool().spec_len() as usize });
                &&& final(self).spec_pool().contains(id)
                &&& final(self).spec_pool().expected_length_of(id) == input.expected_length
                &&& final(self).spec_pool().buffer_of(id) == Seq::<Sample>::empty()
                &&& !final(self).spec_pool().exhausted_of(id)
                &&& final(self).spec_queue().spec_tracks().last().id == id
            }),
            forall|t: TrackId|
                old(self).spec_pool().contains(t) ==> final(self).spec_pool().contains(t) && final(self).spec_pool().buffer_of(t) == old(self).spec_pool().buffer_of(t),
            (final(self).spec_scheduler().spec_loaders(), final(self).spec_scheduler().spec_cursor())
                == set_loaders_spec(
                old(self).spec_scheduler().spec_loaders(),
                old(self).spec_scheduler().spec_cursor(),
                window_ids(final(self).spec_queue()),
            ),
            slot_ids(final(self).spec_scheduler().spec_loaders()) == window_ids(
                final(self).spec_queue(),
            ),
    {
        let id = self.pool.add(input.reader, input.expected_length);
        let track = Track::new(id);
        self.queue.add_track(track, QueuePosition::Add);
        proof {
            assert(self.queue.spec_tracks() =~= old(self).spec_queue().spec_tracks().push(track));
            assert(self.queue.spec_tracks().drop_last() =~= old(self).spec_queue().spec_tracks());
        }
        self.notify_queue_update();
    }

    /// Skips to the next track: the queue head moves one forward (saturating
    /// at the end) and the scheduler window is re-aligned, so the next tick
    /// plays from the start of the new head.
    pub fn next(&mut self)
        requires
            old(self).wf(),
        ensures
            final(self).wf(),
            final(self).spec_queue().spec_tracks() == old(self).spec_queue().spec_tracks(),
            final(self).spec_queue().spec_head() == if old(self).spec_queue().spec_head() < old(
                self,
            ).spec_queue().spec_tracks().len() {
                old(self).spec_queue().spec_head() + 1
            } else {
                old(self).spec_queue().spec_head()
            },
            final(self).spec_queue().spec_events() == old(self).spec_queue().spec_events().push(
                QueueEvent::Advanced { new_head: final(self).spec_queue().spec_head() as usize },
            ),
            final(self).spec_pool() == old(self).spec_pool(),
            final(self).spec_registry() == old(self).spec_registry(),
            (final(self).spec_scheduler().spec_loaders(), final(self).spec_scheduler().spec_cursor())
                == set_loaders_spec(
                old(self).spec_scheduler().spec_loaders(),
                old(self).spec_scheduler().spec_cursor(),
                window_ids(final(self).spec_queue()),
            ),
            slot_ids(final(self).spec_scheduler().spec_loaders()) == window_ids(
                final(self).spec_queue(),
            ),
    {
        self.queue.next();
        self.notify_queue_update();
    }

    /// One tick of the playback loop: reserves a chunk of samples from the
    /// scheduler, copies the scheduled ranges out of the pool (silence where
    /// loading lags), serializes them little-endian, broadcasts the bytes,
    /// and advances the queue once per track boundary crossed — exactly as
    /// many `next` calls as rollovers, visible as `Advanced` events.
    pub fn playback_tick(&mut self) -> (r: (Vec<u8>, usize))
        requires
            old(self).wf(),
        ensures
            final(self).wf(),
            ({
                let a = advance_spec(
                    old(self).spec_scheduler().spec_loaders(),
                    old(self).spec_scheduler().spec_cursor(),
                    STREAM_CHUNK_SIZE as int,
                );
                &&& r.1 as int == a.1
                &&& r.0@.len() == 4 * STREAM_CHUNK_SIZE
                &&& final(self).spec_registry().spec_total() == old(
                    self,
                ).spec_registry().spec_total() + r.0@
                &&& final(self).spec_registry().spec_consumers() == old(
                    self,
                ).spec_registry().spec_consumers()
                &&& final(self).spec_pool() == old(self).spec_pool()
                &&& final(self).spec_queue().spec_tracks() == old(self).spec_queue().spec_tracks()
                &&& final(self).spec_queue().spec_head() == (if old(self).spec_queue().spec_head()
                    + a.1 <= old(self).spec_queue().spec_tracks().len() {
                    old(self).spec_queue().spec_head() + a.1
                } else {
                    old(self).spec_queue().spec_tracks().len() as int
                })
                &&& final(self).spec_queue().spec_events().len() == old(
                    self,
                ).spec_queue().spec_events().len() + a.1
                &&& forall|i: int|
                    0 <= i < old(self).spec_registry().spec_consumers() ==> {
                        &&& final(self).spec_registry().ring_of(i) == last_n(
                            old(self).spec_registry().ring_of(i) + r.0@,
                            old(self).spec_registry().cap_of(i),
                        )
                        &&& final(self).spec_registry().base_of(i) == old(
                            self,
                        ).spec_registry().base_of(i)
                        &&& final(self).spec_registry().cap_of(i) == old(
                            self,
                        ).spec_registry().cap_of(i)
                    }
                &&& (final(self).spec_scheduler().spec_loaders(), final(self).spec_scheduler().spec_cursor())
                    == realigned(
                    a.2,
                    a.3,
                    old(self).spec_queue().spec_tracks(),
                    old(self).spec_queue().spec_head(),
                    a.1,
                )
                &&& (a.1 == 0 ==> final(self).spec_scheduler().spec_loaders() == a.2 && final(self).spec_scheduler().spec_cursor() == a.3 && final(self).spec_queue() == old(
                    self,
                ).spec_queue())
                &&& (a.1 > 0 ==> slot_ids(final(self).spec_scheduler().spec_loaders())
                    == window_ids(final(self).spec_queue()))
                &&& (exists|samples: Seq<Sample>|
                    #[trigger] tick_fill_ok(samples, a.0, old(self).spec_pool())
                        && samples.len() == STREAM_CHUNK_SIZE && r.0@ == bytes_of_samples(samples))
            }),
    {
        let ghost slots0 = self.scheduler.spec_loaders();
        let ghost cursor0 = self.scheduler.spec_cursor();
        let ghost a = advance_spec(slots0, cursor0, STREAM_CHUNK_SIZE as int);
        let (segs, rollovers) = self.scheduler.advance(STREAM_CHUNK_SIZE);
        proof {
            lemma_advance_props(slots0, cursor0, STREAM_CHUNK_SIZE as int);
            lemma_sum_seg_lens_nonneg(segs@);
            assert(segs@.take(0) =~= Seq::<Segment>::empty());
            assert(segs@.skip(0) =~= segs@);
        }
        let mut buf: Vec<Sample> = vec![0u32; STREAM_CHUNK_SIZE];
        let ghost snap1 = *self;
        let mut offset: usize = 0;
        let mut k: usize = 0;
        while k < segs.len()
            invariant
                k <= segs@.len(),
                *self == snap1,
                self.wf(),
                snap1.spec_pool() == old(self).spec_pool(),
                buf@.len() == STREAM_CHUNK_SIZE,
                offset == seg_offset(segs@, k as int),
                offset + sum_seg_lens(segs@.skip(k as int)) <= STREAM_CHUNK_SIZE,
                forall|k2: int|
                    0 <= k2 < segs@.len() ==> #[trigger] seg_within_window(segs@[k2], slots0),
                forall|k2: int|
                    0 <= k2 < segs@.len() ==> (#[trigger] segs@[k2]).start < segs@[k2].end,
                forall|j: int|
                    0 <= j < slots0.len() ==> self.spec_pool().contains(
                        (#[trigger] slots0[j]).id,
                    ) && slots0[j].known_length <= self.spec_pool().loaded_length_of(slots0[j].id),
                forall|k2: int|
                    0 <= k2 < k ==> buf@.subrange(
                        #[trigger] seg_offset(segs@, k2),
                        seg_offset(segs@, k2) + seg_len(segs@[k2]),
                    ) == self.spec_pool().buffer_of(segs@[k2].id).subrange(
                        segs@[k2].start as int,
                        segs@[k2].end as int,
                    ),
                forall|m: int| offset <= m < buf@.len() ==> #[trigger] buf@[m] == 0,
            decreases segs@.len() - k,
        {
            let seg = segs[k];
            let amount = seg.end - seg.start;
            proof {
                assert(seg_within_window(segs@[k as int], slots0));
                let j = choose|j: int|
                    0 <= j < slots0.len() && (#[trigger] slots0[j]).id == segs@[k as int].id
                        && segs@[k as int].end <= slots0[j].known_length;
                assert(self.spec_pool().contains(seg.id));
                assert(seg.end <= self.spec_pool().loaded_length_of(seg.id));
                assert(segs@.skip(k as int) =~= seq![segs@[k as int]] + segs@.skip(k + 1));
                crate::scheduler::lemma_sum_seg_lens_cons(segs@[k as int], segs@.skip(k + 1));
                assert(forall|k2: int|
                    0 <= k2 < segs@.skip(k + 1).len() ==> (#[trigger] segs@.skip(k + 1)[k2]).start
                        <= segs@.skip(k + 1)[k2].end);
                lemma_sum_seg_lens_nonneg(segs@.skip(k + 1));
                assert(offset + amount <= STREAM_CHUNK_SIZE);
            }
            let ghost buf_before = buf@;
            let n_read = self.pool.read(seg.id, seg.start, &mut buf, offset, amount);
            proof {
                assert(n_read == amount);
                assert(buf@.subrange(offset as int, offset + amount)
                    =~= self.spec_pool().buffer_of(seg.id).subrange(
                    seg.start as int,
                    seg.end as int,
                ));
                assert(segs@.take(k + 1) =~= segs@.take(k as int).push(segs@[k as int]));
                lemma_sum_seg_lens_snoc(segs@.take(k as int), segs@[k as int]);
                assert forall|k2: int|
                    0 <= k2 < k implies buf@.subrange(
                    #[trigger] seg_offset(segs@, k2),
                    seg_offset(segs@, k2) + seg_len(segs@[k2]),
                ) == self.spec_pool().buffer_of(segs@[k2].id).subrange(
                    segs@[k2].start as int,
                    segs@[k2].end as int,
                ) by {
                    assert(forall|i: int|
                        0 <= i < segs@.take(k2).len() ==> (#[trigger] segs@.take(k2)[i]).start
                            <= segs@.take(k2)[i].end);
                    lemma_sum_seg_lens_nonneg(segs@.take(k2));
                    assert(seg_offset(segs@, k2) >= 0);
                    lemma_seg_offset_le(segs@, k2, k as int);
                    assert(seg_offset(segs@, k2) + seg_len(segs@[k2]) <= offset);
                    assert(buf@.subrange(
                        seg_offset(segs@, k2),
                        seg_offset(segs@, k2) + seg_len(segs@[k2]),
                    ) =~= buf_before.subrange(
                        seg_offset(segs@, k2),
                        seg_offset(segs@, k2) + seg_len(segs@[k2]),
                    ));
                }
            }
            offset = offset + n_read;
            k = k + 1;
        }
        proof {
            assert(segs@.take(segs@.len() as int) =~= segs@);
            assert(tick_fill_ok(buf@, segs@, old(self).spec_pool()));
        }
        let chunk = crate::sample::serialize_samples(&buf);
        self.registry.write_byte_samples(&chunk);
        let ghost tracks_snap = self.queue.spec_tracks();
        let ghost head0 = self.queue.spec_head();
        let ghost ev0 = self.queue.spec_events().len() as int;
        let ghost snap2 = *self;
        let mut j: usize = 0;
        while j < rollovers
            invariant
                j <= rollovers,
                self.wf(),
                self.spec_pool() == snap2.spec_pool(),
                self.spec_registry() == snap2.spec_registry(),
                self.spec_queue().spec_tracks() == tracks_snap,
                0 <= head0 <= tracks_snap.len(),
                self.spec_queue().spec_head() == (if head0 + j <= tracks_snap.len() {
                    head0 + j
                } else {
                    tracks_snap.len() as int
                }),
                self.spec_queue().spec_events().len() == ev0 + j,
                (self.spec_scheduler().spec_loaders(), self.spec_scheduler().spec_cursor())
                    == realigned(
                    snap2.spec_scheduler().spec_loaders(),
                    snap2.spec_scheduler().spec_cursor(),
                    tracks_snap,
                    head0,
                    j as int,
                ),
                j > 0 ==> slot_ids(self.spec_scheduler().spec_loaders()) == window_ids(
                    self.spec_queue(),
                ),
                j == 0 ==> *self == snap2,
            decreases rollovers - j,
        {
            self.next();
            j = j + 1;
            proof {
                assert((self.spec_scheduler().spec_loaders(), self.spec_scheduler().spec_cursor())
                    == realigned(
                    snap2.spec_scheduler().spec_loaders(),
                    snap2.spec_scheduler().spec_cursor(),
                    tracks_snap,
                    head0,
                    j as int,
                ));
            }
        }
        (chunk, rollovers)
    }

    /// One round of the loader loop: asks the scheduler which tracks are
    /// running low — exactly the requests `preload_spec` gives, in window
    /// order — loads each requested amount into the pool, and reports every
    /// new length back. The final pool and window are exactly one `load`
    /// outcome per request folded through `notify_load`; in particular, with
    /// no request the round changes nothing but the request marks. Loaded
    /// data only ever grows, and what was loaded before stays exactly as it
    /// was.
    #[verifier::spinoff_prover]
    #[verifier::rlimit(100)]
    pub fn loader_tick(&mut self)
        requires
            old(self).wf(),
        ensures
            final(self).wf(),
            final(self).spec_queue() == old(self).spec_queue(),
            final(self).spec_registry() == old(self).spec_registry(),
            final(self).spec_pool().spec_len() == old(self).spec_pool().spec_len(),
            final(self).spec_scheduler().spec_cursor() == old(self).spec_scheduler().spec_cursor(),
            loader_round_rel(
                old(self).spec_pool(),
                mark_requested_spec(
                    old(self).spec_scheduler().spec_loaders(),
                    old(self).spec_scheduler().spec_cursor(),
                ),
                preload_spec(
                    old(self).spec_scheduler().spec_loaders(),
                    old(self).spec_scheduler().spec_cursor(),
                ),
                final(self).spec_pool(),
                final(self).spec_scheduler().spec_loaders(),
            ),
            forall|t: TrackId|
                old(self).spec_pool().contains(t) ==> #[trigger] pool_grew(
                    old(self).spec_pool(),
                    final(self).spec_pool(),
                    t,
                ),
    {
        let ghost slots0 = self.scheduler.spec_loaders();
        let ghost cursor0 = self.scheduler.spec_cursor();
        let ghost marked0 = mark_requested_spec(slots0, cursor0);
        let requests = self.scheduler.preload();
        proof {
            lemma_preload_from_ids(slots0, cursor0, 0);
            assert(requests@.skip(0) =~= requests@);
            assert forall|t: TrackId| old(self).spec_pool().contains(t) implies #[trigger] pool_grew(
                old(self).spec_pool(),
                self.spec_pool(),
                t,
            ) by {
                assert(self.spec_pool().buffer_of(t).subrange(
                    0,
                    old(self).spec_pool().loaded_length_of(t),
                ) =~= old(self).spec_pool().buffer_of(t));
            }
        }
        let mut m: usize = 0;
        while m < requests.len()
            invariant
                m <= requests@.len(),
                self.wf(),
                self.spec_queue() == old(self).spec_queue(),
                self.spec_registry() == old(self).spec_registry(),
                self.spec_pool().spec_len() == old(self).spec_pool().spec_len(),
                requests@ == preload_spec(slots0, cursor0),
                self.spec_scheduler().spec_cursor() == cursor0,
                cursor0 == old(self).spec_scheduler().spec_cursor(),
                marked0 == mark_requested_spec(
                    old(self).spec_scheduler().spec_loaders(),
                    old(self).spec_scheduler().spec_cursor(),
                ),
                forall|p_end: Pool<R>, s_end: Seq<LoaderSlot>|
                    #[trigger] loader_round_rel(
                        self.spec_pool(),
                        self.spec_scheduler().spec_loaders(),
                        requests@.skip(m as int),
                        p_end,
                        s_end,
                    ) ==> loader_round_rel(
                        old(self).spec_pool(),
                        marked0,
                        requests@,
                        p_end,
                        s_end,
                    ),
                forall|m2: int|
                    0 <= m2 < requests@.len() ==> #[trigger] crate::scheduler::request_in_window(
                        requests@[m2],
                        slots0,
                    ),
                forall|j: int|
                    0 <= j < slots0.len() ==> old(self).spec_pool().contains(
                        (#[trigger] slots0[j]).id,
                    ),
                forall|t: TrackId|
                    old(self).spec_pool().contains(t) ==> #[trigger] pool_grew(
                        old(self).spec_pool(),
                        self.spec_pool(),
                        t,
                    ),
            decreases requests@.len() - m,
        {
            let req = requests[m];
            let ghost pool_before = self.spec_pool();
            let ghost sched_before = self.spec_scheduler().spec_loaders();
            proof {
                assert(crate::scheduler::request_in_window(requests@[m as int], slots0));
                let j = choose|j: int|
                    0 <= j < slots0.len() && (#[trigger] slots0[j]).id == requests@[m as int].0;
                assert(old(self).spec_pool().contains(req.0));
                assert(self.spec_pool().contains(req.0));
                assert(forall|j2: int|
                    0 <= j2 < sched_before.len() ==> pool_before.contains(
                        (#[trigger] sched_before[j2]).id,
                    ) && sched_before[j2].known_length <= pool_before.loaded_length_of(
                        sched_before[j2].id,
                    ));
            }
            let new_len = self.pool.load(req.0, req.1);
            self.scheduler.notify_load(req.0, new_len);
            proof {
                assert forall|t: TrackId| old(self).spec_pool().contains(t) implies #[trigger] pool_grew(
                    old(self).spec_pool(),
                    self.spec_pool(),
                    t,
                ) by {
                    assert(pool_grew(old(self).spec_pool(), pool_before, t));
                    if t == req.0 {
                        let l0 = old(self).spec_pool().loaded_length_of(t);
                        let l1 = pool_before.loaded_length_of(t);
                        assert(pool_before.buffer_of(t).subrange(0, l0) == old(
                            self,
                        ).spec_pool().buffer_of(t));
                        assert(self.spec_pool().buffer_of(t).subrange(0, l1)
                            == pool_before.buffer_of(t));
                        assert(self.spec_pool().buffer_of(t).subrange(0, l0)
                            =~= self.spec_pool().buffer_of(t).subrange(0, l1).subrange(0, l0));
                        assert(pool_before.buffer_of(t).subrange(0, l0) =~= old(
                            self,
                        ).spec_pool().buffer_of(t));
                    }
                }
                let sa = self.spec_scheduler().spec_loaders();
                let jj = crate::scheduler::slot_index_of(sched_before, req.0);
                crate::scheduler::lemma_slot_index_of_bounds(sched_before, req.0);
                assert forall|j2: int| 0 <= j2 < sa.len() implies (self.spec_pool().contains(
                    (#[trigger] sa[j2]).id,
                ) && sa[j2].known_length <= self.spec_pool().loaded_length_of(sa[j2].id)) by {
                    assert(pool_before.loaded_length_of(req.0) <= new_len);
                    assert(new_len == self.spec_pool().loaded_length_of(req.0));
                    if jj >= 0 && j2 == jj {
                        assert(sa[j2].id == sched_before[j2].id);
                        if new_len > sched_before[j2].known_length {
                            assert(sa[j2].known_length == new_len);
                        } else {
                            assert(sa[j2].known_length == sched_before[j2].known_length);
                        }
                    } else {
                        assert(sa[j2] == sched_before[j2]);
                    }
                    if sa[j2].id == req.0 {
                        assert(pool_before.loaded_length_of(sa[j2].id)
                            <= self.spec_pool().loaded_length_of(sa[j2].id));
                    } else {
                        assert(self.spec_pool().loaded_length_of(sa[j2].id)
                            == pool_before.loaded_length_of(sa[j2].id));
                        assert(self.spec_pool().buffer_of(sa[j2].id) == pool_before.buffer_of(
                            sa[j2].id,
                        ));
                    }
                }
                let reqs_m = requests@.skip(m as int);
                assert(reqs_m[0] == requests@[m as int]);
                assert(reqs_m.drop_first() =~= requests@.skip(m + 1));
                assert(load_outcome(pool_before, self.spec_pool(), req.0, req.1, new_len));
                assert(self.spec_scheduler().spec_loaders() == notify_load_spec(
                    sched_before,
                    req.0,
                    new_len,
                ));
                assert forall|p_end: Pool<R>, s_end: Seq<LoaderSlot>|
                    #[trigger] loader_round_rel(
                        self.spec_pool(),
                        self.spec_scheduler().spec_loaders(),
                        requests@.skip(m + 1),
                        p_end,
                        s_end,
                    ) implies loader_round_rel(
                    old(self).spec_pool(),
                    marked0,
                    requests@,
                    p_end,
                    s_end,
                ) by {
                    assert(load_outcome(
                        pool_before,
                        self.spec_pool(),
                        reqs_m[0].0,
                        reqs_m[0].1,
                        new_len,
                    ) && loader_round_rel(
                        self.spec_pool(),
                        notify_load_spec(sched_before, reqs_m[0].0, new_len),
                        reqs_m.drop_first(),
                        p_end,
                        s_end,
                    ));
                    assert(loader_round_rel(pool_before, sched_before, reqs_m, p_end, s_end));
                }
            }
            m = m + 1;
        }
        proof {
            assert(requests@.skip(requests@.len() as int) =~= Seq::<(TrackId, usize)>::empty());
            assert(loader_round_rel(
                self.spec_pool(),
                self.spec_scheduler().spec_loaders(),
                requests@.skip(requests@.len() as int),
                self.spec_pool(),
                self.spec_scheduler().spec_loaders(),
            ));
        }
    }

    /// The queue, read-only.
    pub fn queue(&self) -> (q: &Queue)
        ensures
            *q == self.spec_queue(),
    {
        &self.queue
    }

    /// The scheduler, read-only.
    pub fn scheduler(&self) -> (s: &Scheduler)
        ensures
            *s == self.spec_scheduler(),
    {
        &self.scheduler
    }

    /// The pool, read-only.
    pub fn pool(&self) -> (p: &Pool<R>)
        ensures
            *p == self.spec_pool(),
    {
        &self.pool
    }

    /// Opens an event subscription. Each subscriber sees every queue-state
    /// change from this call on, independently of the others.
    pub fn events(&mut self) -> (s: usize)
        requires
            old(self).wf(),
        ensures
            final(self).wf(),
            s as int == old(self).spec_queue().spec_cursors().len(),
            final(self).spec_queue().spec_cursors() == old(
                self,
            ).spec_queue().spec_cursors().push(old(self).spec_queue().spec_events().len() as usize),
            final(self).spec_queue().spec_events() == old(self).spec_queue().spec_events(),
            final(self).spec_queue().spec_tracks() == old(self).spec_queue().spec_tracks(),
            final(self).spec_queue().spec_head() == old(self).spec_queue().spec_head(),
            final(self).spec_scheduler() == old(self).spec_scheduler(),
            final(self).spec_pool() == old(self).spec_pool(),
            final(self).spec_registry() == old(self).spec_registry(),
    {
        self.queue.subscribe()
    }

    /// Hands subscriber `s` the events it has not yet seen, in order.
    pub fn poll_events(&mut self, s: usize) -> (r: Vec<QueueEvent>)
        requires
            old(self).wf(),
            s < old(self).spec_queue().spec_cursors().len(),
        ensures
            final(self).wf(),
            r@ == old(self).spec_queue().spec_events().skip(
                old(self).spec_queue().spec_cursors()[s as int] as int,
            ),
            final(self).spec_queue().spec_cursors() == old(
                self,
            ).spec_queue().spec_cursors().update(
                s as int,
                old(self).spec_queue().spec_events().len() as usize,
            ),
            final(self).spec_queue().spec_events() == old(self).spec_queue().spec_events(),
            final(self).spec_queue().spec_tracks() == old(self).spec_queue().spec_tracks(),
            final(self).spec_queue().spec_head() == old(self).spec_queue().spec_head(),
            final(self).spec_scheduler() == old(self).spec_scheduler(),
            final(self).spec_pool() == old(self).spec_pool(),
            final(self).spec_registry() == old(self).spec_registry(),
    {
        self.queue.poll_events(s)
    }
}

impl<R: SampleReader> Default for AudioSystem<R> {
    /// A system with nothing queued, nothing loaded and no consumers.
    fn default() -> (r: Self)
        ensures
            r.wf(),
            r.spec_queue().spec_tracks() == Seq::<Track>::empty(),
            r.spec_pool().spec_len() == 0,
            r.spec_registry().spec_consumers() == 0,
    {
        AudioSystem::new()
    }
}

/// A loader round that answers the head track's request in full stands it
/// exactly the target ahead of the cursor: the steady-state lead the loader
/// keeps, one round at a time (one playback tick then eats at most a chunk of
/// it, per `lemma_lead_survives_tick`). Stated for a round whose only request
/// is the head's, the steady state of a single busy track.
pub proof fn lemma_loader_round_restores_head_lead<R: SampleReader>(
    p0: Pool<R>,
    slots: Seq<LoaderSlot>,
    cursor: int,
    p1: Pool<R>,
    s1: Seq<LoaderSlot>,
)
    requires
        slots_wf(slots, cursor),
        slots.len() > 0,
        wants_preload(slots[0], cursor),
        preload_spec(slots, cursor).len() == 1,
        loader_round_rel(
            p0,
            mark_requested_spec(slots, cursor),
            preload_spec(slots, cursor),
            p1,
            s1,
        ),
        p0.loaded_length_of(slots[0].id) == slots[0].known_length,
        p1.loaded_length_of(slots[0].id) == slots[0].known_length + (PRELOAD_TARGET - (
        slots[0].known_length - cursor)),
    ensures
        s1.len() == slots.len(),
        s1[0].known_length - cursor == PRELOAD_TARGET,
{
    let x = slots[0].id;
    let amt = (PRELOAD_TARGET - (slots[0].known_length - cursor)) as usize;
    let reqs = preload_spec(slots, cursor);
    let marked = mark_requested_spec(slots, cursor);
    assert(reqs[0] == (x, amt));
    let (pm, n) = choose|pm: Pool<R>, n: usize|
        #[trigger] load_outcome(p0, pm, reqs[0].0, reqs[0].1, n) && loader_round_rel(
            pm,
            notify_load_spec(marked, reqs[0].0, n),
            reqs.drop_first(),
            p1,
            s1,
        );
    assert(reqs.drop_first().len() == 0);
    assert(p1 == pm && s1 == notify_load_spec(marked, x, n));
    assert(n == pm.loaded_length_of(x));
    assert(marked[0].id == x && marked[0].known_length == slots[0].known_length);
    assert(PRELOAD_THRESHOLD < PRELOAD_TARGET);
    assert(n > marked[0].known_length);
    assert(slot_index_of(marked, x) == 0);
    assert(s1 == marked.update(
        0,
        LoaderSlot {
            id: x,
            known_length: n,
            exhausted: marked[0].exhausted,
            load_requested: false,
        },
    ));
}

/// How long the playback driver should sleep after a tick that took
/// `elapsed_micros`: the remainder of the tick period, clamped at zero when
/// the tick overran.
pub fn tick_sleep_micros(elapsed_micros: u64) -> (r: u64)
    ensures
        r as int == if elapsed_micros < STREAM_TICK_MICROS {
            STREAM_TICK_MICROS - elapsed_micros
        } else {
            0
        },
{
    if elapsed_micros < STREAM_TICK_MICROS {
        STREAM_TICK_MICROS - elapsed_micros
    } else {
        0
    }
}

} // verus!
