//! The track queue: an ordered list with a now-playing head, plus the event
//! log that mutations feed.

use vstd::pervasive::VecAdditionalExecFns;
use vstd::prelude::*;

use crate::pool::TrackId;

verus! {

/// A queued track: no sample data, only the pool handle.
#[derive(Clone, Copy, PartialEq, Eq, Structural, Debug)]
pub struct Track {
    pub id: TrackId,
}

impl Track {
    pub fn new(id: TrackId) -> (r: Track)
        ensures
            r.id == id,
    {
        Track { id }
    }
}

/// Where an added track lands: at the end, or immediately after the head.
#[derive(Clone, Copy, PartialEq, Eq, Structural, Debug)]
pub enum QueuePosition {
    Add,
    Next,
}

/// A queue-state change, fanned out to event subscribers.
#[derive(Clone, Copy, PartialEq, Eq, Structural, Debug)]
pub enum QueueEvent {
    TrackAdded { position: usize },
    TrackRemoved { position: usize },
    QueueCleared,
    Advanced { new_head: usize },
}

/// Ordered tracks with a head index; the head may sit one past the end, in
/// which case nothing is playing.
pub struct Queue {
    tracks: Vec<Track>,
    head: usize,
    events: Vec<QueueEvent>,
    cursors: Vec<usize>,
}

impl Queue {
    /// The head never runs past one-past-the-end, and no subscriber's cursor
    /// runs past the end of the event log.
    pub open spec fn wf(&self) -> bool {
        &&& 0 <= self.spec_head() <= self.spec_tracks().len()
        &&& (forall|i: int|
            0 <= i < self.spec_cursors().len() ==> (#[trigger] self.spec_cursors()[i])
                <= self.spec_events().len())
    }

    /// The ordered tracks.
    pub closed spec fn spec_tracks(&self) -> Seq<Track> {
        self.tracks@
    }

    /// The now-playing index.
    pub closed spec fn spec_head(&self) -> int {
        self.head as int
    }

    /// Every event ever recorded, in order.
    pub closed spec fn spec_events(&self) -> Seq<QueueEvent> {
        self.events@
    }

    /// Each subscriber's position in the event log: the first event it has
    /// not yet been handed.
    pub closed spec fn spec_cursors(&self) -> Seq<usize> {
        self.cursors@
    }

    /// The tracks from the head on: what `peek_ahead` draws from.
    pub open spec fn spec_upcoming(&self) -> Seq<Track> {
        self.spec_tracks().skip(self.spec_head())
    }

    pub fn new() -> (r: Queue)
        ensures
            r.wf(),
            r.spec_tracks() == Seq::<Track>::empty(),
            r.spec_head() == 0,
            r.spec_events() == Seq::<QueueEvent>::empty(),
            r.spec_cursors() == Seq::<usize>::empty(),
    {
        Queue { tracks: Vec::new(), head: 0, events: Vec::new(), cursors: Vec::new() }
    }

    /// The now-playing index.
    pub fn head(&self) -> (h: usize)
        ensures
            h as int == self.spec_head(),
    {
        self.head
    }

    /// How many tracks are queued in all.
    pub fn len(&self) -> (n: usize)
        ensures
            n as int == self.spec_tracks().len(),
    {
        self.tracks.len()
    }

    /// Inserts a track at the end (`Add`) or right after the head (`Next`),
    /// recording a `TrackAdded` event with the insertion index.
    pub fn add_track(&mut self, track: Track, position: QueuePosition) -> (idx: usize)
        requires
            old(self).wf(),
        ensures
            final(self).wf(),
            idx == match position {
                QueuePosition::Add => old(self).spec_tracks().len() as int,
                QueuePosition::Next => if old(self).spec_head() + 1 <= old(
                    self,
                ).spec_tracks().len() {
                    old(self).spec_head() + 1
                } else {
                    old(self).spec_tracks().len() as int
                },
            },
            final(self).spec_tracks() == old(self).spec_tracks().insert(idx as int, track),
            final(self).spec_head() == old(self).spec_head(),
            final(self).spec_events() == old(self).spec_events().push(
                QueueEvent::TrackAdded { position: idx },
            ),
            final(self).spec_cursors() == old(self).spec_cursors(),
    {
        let idx: usize = match position {
            QueuePosition::Add => self.tracks.len(),
            QueuePosition::Next => {
                if self.head < self.tracks.len() {
                    self.head + 1
                } else {
                    self.tracks.len()
                }
            },
        };
        self.tracks.insert(idx, track);
        self.events.push(QueueEvent::TrackAdded { position: idx });
        proof {
            assert forall|i: int|
                0 <= i < self.spec_cursors().len() implies (#[trigger] self.spec_cursors()[i])
                <= self.spec_events().len() by {
                assert(old(self).spec_cursors()[i] <= old(self).spec_events().len());
            }
        }
        idx
    }

    /// Moves the head one track forward, saturating one past the end, and
    /// records an `Advanced` event. Exactly one event per call: an event
    /// count is a call count.
    pub fn next(&mut self)
        requires
            old(self).wf(),
        ensures
            final(self).wf(),
            final(self).spec_head() == if old(self).spec_head() < old(self).spec_tracks().len() {
                old(self).spec_head() + 1
            } else {
                old(self).spec_head()
            },
            final(self).spec_tracks() == old(self).spec_tracks(),
            final(self).spec_events() == old(self).spec_events().push(
                QueueEvent::Advanced { new_head: final(self).spec_head() as usize },
            ),
            final(self).spec_cursors() == old(self).spec_cursors(),
    {
        if self.head < self.tracks.len() {
            self.head = self.head + 1;
        }
        self.events.push(QueueEvent::Advanced { new_head: self.head });
        proof {
            assert forall|i: int|
                0 <= i < self.spec_cursors().len() implies (#[trigger] self.spec_cursors()[i])
                <= self.spec_events().len() by {
                assert(old(self).spec_cursors()[i] <= old(self).spec_events().len());
            }
        }
    }

    /// A consistent snapshot of up to `k` tracks starting at the head.
    pub fn peek_ahead(&self, k: usize) -> (r: Vec<Track>)
        requires
            self.wf(),
        ensures
            r@ == if self.spec_upcoming().len() <= k {
                self.spec_upcoming()
            } else {
                self.spec_upcoming().take(k as int)
            },
    {
        let mut r: Vec<Track> = Vec::new();
        let avail = self.tracks.len() - self.head;
        let n: usize = if k <= avail {
            k
        } else {
            avail
        };
        let mut i: usize = 0;
        while i < n
            invariant
                i <= n,
                self.head + n <= self.spec_tracks().len(),
                self.head + n <= usize::MAX,
                r@ == self.spec_tracks().subrange(self.spec_head(), self.spec_head() + i),
            decreases n - i,
        {
            r.push(self.tracks[self.head + i]);
            proof {
                assert(self.spec_tracks().subrange(self.spec_head(), self.spec_head() + i + 1)
                    =~= self.spec_tracks().subrange(self.spec_head(), self.spec_head() + i).push(
                    self.spec_tracks()[self.spec_head() + i],
                ));
            }
            i = i + 1;
        }
        proof {
            if self.spec_upcoming().len() <= k {
                assert(r@ =~= self.spec_upcoming());
            } else {
                assert(r@ =~= self.spec_upcoming().take(k as int));
            }
        }
        r
    }

    /// Empties the queue and resets the head, recording `QueueCleared`.
    pub fn clear(&mut self)
        requires
            old(self).wf(),
        ensures
            final(self).wf(),
            final(self).spec_tracks() == Seq::<Track>::empty(),
            final(self).spec_head() == 0,
            final(self).spec_events() == old(self).spec_events().push(QueueEvent::QueueCleared),
            final(self).spec_cursors() == old(self).spec_cursors(),
    {
        self.tracks.clear();
        self.head = 0;
        self.events.push(QueueEvent::QueueCleared);
        proof {
            assert forall|i: int|
                0 <= i < self.spec_cursors().len() implies (#[trigger] self.spec_cursors()[i])
                <= self.spec_events().len() by {
                assert(old(self).spec_cursors()[i] <= old(self).spec_events().len());
            }
        }
    }

    /// Removes the track at `index` if there is one, recording
    /// `TrackRemoved`. Removing a track before the head pulls the head back
    /// one, so the now-playing track stays the same.
    pub fn remove(&mut self, index: usize)
        requires
            old(self).wf(),
        ensures
            final(self).wf(),
            index < old(self).spec_tracks().len() ==> {
                &&& final(self).spec_tracks() == old(self).spec_tracks().remove(index as int)
                &&& final(self).spec_head() == if index < old(self).spec_head() {
                    old(self).spec_head() - 1
                } else {
                    old(self).spec_head()
                }
                &&& final(self).spec_events() == old(self).spec_events().push(
                    QueueEvent::TrackRemoved { position: index },
                )
            },
            final(self).spec_cursors() == old(self).spec_cursors(),
            index >= old(self).spec_tracks().len() ==> *final(self) == *old(self),
    {
        if index < self.tracks.len() {
            self.tracks.remove(index);
            if index < self.head {
                self.head = self.head - 1;
            }
            self.events.push(QueueEvent::TrackRemoved { position: index });
        }
        proof {
            assert forall|i: int|
                0 <= i < self.spec_cursors().len() implies (#[trigger] self.spec_cursors()[i])
                <= self.spec_events().len() by {
                assert(old(self).spec_cursors()[i] <= old(self).spec_events().len());
            }
        }
    }

    /// Moves the track at `from` to sit at `to`, keeping the head index as it
    /// is; out-of-range indices do nothing. Records the removal and the
    /// re-insertion.
    pub fn move_track(&mut self, from: usize, to: usize)
        requires
            old(self).wf(),
        ensures
            final(self).wf(),
            from < old(self).spec_tracks().len() && to < old(self).spec_tracks().len() ==> {
                &&& final(self).spec_tracks() == old(self).spec_tracks().remove(
                    from as int,
                ).insert(to as int, old(self).spec_tracks()[from as int])
                &&& final(self).spec_head() == old(self).spec_head()
                &&& final(self).spec_events() == old(self).spec_events().push(
                    QueueEvent::TrackRemoved { position: from },
                ).push(QueueEvent::TrackAdded { position: to })
            },
            final(self).spec_cursors() == old(self).spec_cursors(),
            !(from < old(self).spec_tracks().len() && to < old(self).spec_tracks().len())
                ==> *final(self) == *old(self),
    {
        if from < self.tracks.len() && to < self.tracks.len() {
            let track = self.tracks.remove(from);
            self.tracks.insert(to, track);
            self.events.push(QueueEvent::TrackRemoved { position: from });
            self.events.push(QueueEvent::TrackAdded { position: to });
        }
        proof {
            assert forall|i: int|
                0 <= i < self.spec_cursors().len() implies (#[trigger] self.spec_cursors()[i])
                <= self.spec_events().len() by {
                assert(old(self).spec_cursors()[i] <= old(self).spec_events().len());
            }
        }
    }

    /// Registers a new event subscriber; it will see exactly the events
    /// recorded after this call.
    pub fn subscribe(&mut self) -> (s: usize)
        requires
            old(self).wf(),
        ensures
            final(self).wf(),
            s as int == old(self).spec_cursors().len(),
            final(self).spec_cursors() == old(self).spec_cursors().push(
                old(self).spec_events().len() as usize,
            ),
            final(self).spec_events() == old(self).spec_events(),
            final(self).spec_tracks() == old(self).spec_tracks(),
            final(self).spec_head() == old(self).spec_head(),
    {
        let s = self.cursors.len();
        let here = self.events.len();
        self.cursors.push(here);
        proof {
            assert forall|i: int|
                0 <= i < self.spec_cursors().len() implies (#[trigger] self.spec_cursors()[i])
                <= self.spec_events().len() by {
                if i < old(self).spec_cursors().len() {
                    assert(old(self).spec_cursors()[i] <= old(self).spec_events().len());
                } else {
                    assert(self.spec_cursors()[i] == here);
                }
            }
        }
        s
    }

    /// Hands subscriber `s` every event it has not seen yet, in order, and
    /// moves its cursor to the end of the log. Subscribers are independent:
    /// polling one hides nothing from another.
    pub fn poll_events(&mut self, s: usize) -> (r: Vec<QueueEvent>)
        requires
            old(self).wf(),
            s < old(self).spec_cursors().len(),
        ensures
            final(self).wf(),
            r@ == old(self).spec_events().skip(old(self).spec_cursors()[s as int] as int),
            final(self).spec_cursors() == old(self).spec_cursors().update(
                s as int,
                old(self).spec_events().len() as usize,
            ),
            final(self).spec_events() == old(self).spec_events(),
            final(self).spec_tracks() == old(self).spec_tracks(),
            final(self).spec_head() == old(self).spec_head(),
    {
        let from = self.cursors[s];
        let mut r: Vec<QueueEvent> = Vec::new();
        let mut i: usize = from;
        proof {
            assert(self.events@.subrange(from as int, from as int) =~= Seq::<QueueEvent>::empty());
        }
        while i < self.events.len()
            invariant
                from <= i <= self.events@.len(),
                self.events@ == old(self).spec_events(),
                self.tracks@ == old(self).spec_tracks(),
                self.head == old(self).head,
                self.cursors@ == old(self).spec_cursors(),
                r@ == self.events@.subrange(from as int, i as int),
            decreases self.events@.len() - i,
        {
            r.push(self.events[i]);
            proof {
                assert(self.events@.subrange(from as int, i + 1) =~= self.events@.subrange(
                    from as int,
                    i as int,
                ).push(self.events@[i as int]));
            }
            i = i + 1;
        }
        let here = self.events.len();
        self.cursors.set(s, here);
        proof {
            assert(old(self).spec_events().skip(from as int) =~= old(self).spec_events().subrange(
                from as int,
                old(self).spec_events().len() as int,
            ));
        }
        r
    }
}

} // verus!
