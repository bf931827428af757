use audio_core::Pool;
use audio_core::Queue;
use audio_core::QueueEvent;
use audio_core::QueuePosition;
use audio_core::Scheduler;
use audio_core::Track;
use audio_core::TrackId;
use audio_core::VecSampleReader;
use audio_core::PRELOAD_TARGET;

#[test]
fn sample_bytes_round_trip_little_endian() {
    let one = 1.0f32;
    let samples: Vec<u32> = vec![one.to_bits(), 0u32, 0xdeadbeefu32];
    let bytes = audio_core::serialize_samples(&samples);
    assert_eq!(bytes[0..4].to_vec(), one.to_le_bytes().to_vec());
    assert_eq!(bytes[4..8].to_vec(), vec![0u8, 0, 0, 0]);
    assert_eq!(bytes[8..12].to_vec(), vec![0xefu8, 0xbe, 0xad, 0xde]);
    let back = audio_core::raw_samples_from_bytes(&bytes);
    assert_eq!(back, samples);
    assert_eq!(f32::from_bits(back[0]), one);
}

#[test]
fn pool_write_then_read_same_bytes() {
    let mut pool: Pool<VecSampleReader> = Pool::new();
    let sample = 0.25f32.to_bits();
    let id = pool.add(VecSampleReader::new(vec![sample]), 1);
    assert_eq!(pool.load(id, 10), 1);
    let mut out: Vec<u32> = vec![0u32; 1];
    let n = pool.read(id, 0, &mut out, 0, 1);
    assert_eq!(n, 1);
    let bytes = audio_core::serialize_samples(&out);
    assert_eq!(bytes, 0.25f32.to_le_bytes().to_vec());
}

#[test]
fn pool_load_grows_and_keeps_prefix() {
    let mut pool: Pool<VecSampleReader> = Pool::new();
    let id = pool.add(VecSampleReader::new((0..100u32).collect()), 100);
    let first = pool.load(id, 30);
    assert_eq!(first, 30);
    let second = pool.load(id, 30);
    assert_eq!(second, 60);
    let mut out: Vec<u32> = vec![0u32; 30];
    pool.read(id, 0, &mut out, 0, 30);
    assert_eq!(out, (0..30u32).collect::<Vec<u32>>());
}

#[test]
fn pool_read_past_loaded_returns_zero_and_leaves_buffer() {
    let mut pool: Pool<VecSampleReader> = Pool::new();
    let id = pool.add(VecSampleReader::new(vec![5u32, 6, 7]), 3);
    pool.load(id, 3);
    let mut out: Vec<u32> = vec![42u32; 4];
    let n = pool.read(id, 3, &mut out, 0, 4);
    assert_eq!(n, 0);
    assert_eq!(out, vec![42u32; 4]);
    let n = pool.read(id, 100, &mut out, 0, 4);
    assert_eq!(n, 0);
    assert_eq!(out, vec![42u32; 4]);
}

#[test]
fn pool_flags_exhausted_when_length_stops_growing() {
    let mut pool: Pool<VecSampleReader> = Pool::new();
    let id = pool.add(VecSampleReader::new((0..500u32).collect()), 40000);
    assert_eq!(pool.load(id, 1000), 500);
    assert!(!pool.is_exhausted(id));
    assert_eq!(pool.load(id, 1000), 500);
    assert!(pool.is_exhausted(id));
    // Exhaustion is sticky and the buffer no longer changes.
    assert_eq!(pool.load(id, 1000), 500);
    assert!(pool.is_exhausted(id));
}

#[test]
fn queue_positions_events_and_editing() {
    let mut q = Queue::new();
    let sub = q.subscribe();
    let t = |i: usize| Track::new(TrackId { index: i });
    q.add_track(t(0), QueuePosition::Add);
    q.add_track(t(1), QueuePosition::Add);
    q.add_track(t(2), QueuePosition::Next);
    // Next inserts right after the head.
    let peek = q.peek_ahead(3);
    assert_eq!(peek[0].id.index, 0);
    assert_eq!(peek[1].id.index, 2);
    assert_eq!(peek[2].id.index, 1);

    q.next();
    assert_eq!(q.head(), 1);
    let peek = q.peek_ahead(3);
    assert_eq!(peek[0].id.index, 2);

    // Removing before the head keeps the same now-playing track.
    q.remove(0);
    assert_eq!(q.head(), 0);
    assert_eq!(q.peek_ahead(1)[0].id.index, 2);

    q.move_track(0, 1);
    assert_eq!(q.peek_ahead(2)[0].id.index, 1);

    let events = q.poll_events(sub);
    assert_eq!(
        events,
        vec![
            QueueEvent::TrackAdded { position: 0 },
            QueueEvent::TrackAdded { position: 1 },
            QueueEvent::TrackAdded { position: 1 },
            QueueEvent::Advanced { new_head: 1 },
            QueueEvent::TrackRemoved { position: 0 },
            QueueEvent::TrackRemoved { position: 0 },
            QueueEvent::TrackAdded { position: 1 },
        ]
    );
    assert!(q.poll_events(sub).is_empty());

    q.clear();
    assert_eq!(q.len(), 0);
    assert_eq!(q.head(), 0);
    assert_eq!(q.poll_events(sub), vec![QueueEvent::QueueCleared]);
}

#[test]
fn set_loaders_keeps_cursor_for_same_head() {
    let mut s = Scheduler::new();
    let a = TrackId { index: 0 };
    let b = TrackId { index: 1 };
    s.set_loaders(&vec![a, b]);
    s.notify_load(a, 5000);
    let (segs, _) = s.advance(100);
    assert_eq!(segs.len(), 1);
    assert_eq!(s.cursor(), 100);

    // Same head id: the cursor survives, twice over.
    s.set_loaders(&vec![a, b]);
    assert_eq!(s.cursor(), 100);
    s.set_loaders(&vec![a, b]);
    assert_eq!(s.cursor(), 100);

    // New head id: the cursor resets.
    s.set_loaders(&vec![b]);
    assert_eq!(s.cursor(), 0);
}

#[test]
fn advance_zero_is_a_no_op() {
    let mut s = Scheduler::new();
    let a = TrackId { index: 0 };
    s.set_loaders(&vec![a]);
    s.notify_load(a, 1000);
    s.advance(400);
    let (segs, rollovers) = s.advance(0);
    assert!(segs.is_empty());
    assert_eq!(rollovers, 0);
    assert_eq!(s.cursor(), 400);
}

#[test]
fn advance_emits_bounded_ordered_segments() {
    let mut s = Scheduler::new();
    let a = TrackId { index: 0 };
    let b = TrackId { index: 1 };
    s.set_loaders(&vec![a, b]);
    // Track a is fully known and over at 150 samples; b has plenty.
    s.notify_load(a, 150);
    s.notify_load(b, 10000);
    s.preload();
    s.notify_load(a, 150);
    assert!(s.slot(0).exhausted);

    let (segs, rollovers) = s.advance(500);
    let total: usize = segs.iter().map(|g| g.end - g.start).sum();
    assert!(total <= 500);
    assert_eq!(rollovers, 1);
    assert_eq!(segs.len(), 2);
    assert_eq!(segs[0].id, a);
    assert_eq!((segs[0].start, segs[0].end), (0, 150));
    assert_eq!(segs[1].id, b);
    assert_eq!((segs[1].start, segs[1].end), (0, 350));
    assert_eq!(s.cursor(), 350);
    assert_eq!(s.window_len(), 1);
}

#[test]
fn preload_requests_top_up_to_target() {
    let mut s = Scheduler::new();
    let a = TrackId { index: 0 };
    s.set_loaders(&vec![a]);
    let requests = s.preload();
    assert_eq!(requests, vec![(a, PRELOAD_TARGET)]);
    s.notify_load(a, PRELOAD_TARGET);
    let slot = s.slot(0);
    assert_eq!(slot.known_length - s.cursor(), PRELOAD_TARGET);
    // Standing at the target, the track asks for nothing more.
    assert!(s.preload().is_empty());
}
