use audio_core::AudioSystem;
use audio_core::Input;
use audio_core::QueueEvent;
use audio_core::VecSampleReader;
use audio_core::CONSUMER_RING_SIZE;
use audio_core::STREAM_CHUNK_SIZE;

fn ramp(start: u32, len: usize) -> Vec<u32> {
    (0..len).map(|i| start + i as u32).collect()
}

fn system_with_tracks(tracks: &[Vec<u32>]) -> AudioSystem<VecSampleReader> {
    let mut sys: AudioSystem<VecSampleReader> = AudioSystem::new();
    for t in tracks {
        let expected = t.len();
        sys.add(Input::new(VecSampleReader::new(t.clone()), expected));
    }
    sys
}

fn bytes_of(samples: &[u32]) -> Vec<u8> {
    let v: Vec<u32> = samples.to_vec();
    audio_core::serialize_samples(&v)
}

#[test]
fn single_finite_track_plays_then_silence() {
    let track = ramp(1, 44100);
    let mut sys = system_with_tracks(&[track.clone()]);
    // Load everything, then detect the end of the reader.
    sys.loader_tick();
    sys.loader_tick();
    let sub = sys.events();

    let mut next_events: usize = 0;
    for tick in 0..5 {
        let (chunk, rollovers) = sys.playback_tick();
        let lo = tick * STREAM_CHUNK_SIZE;
        let hi = lo + STREAM_CHUNK_SIZE;
        assert_eq!(chunk, bytes_of(&track[lo..hi]));
        if tick < 4 {
            assert_eq!(rollovers, 0);
        } else {
            assert_eq!(rollovers, 1);
        }
        next_events += sys
            .poll_events(sub)
            .iter()
            .filter(|e| matches!(e, QueueEvent::Advanced { .. }))
            .count();
    }
    assert_eq!(next_events, 1);
    assert_eq!(sys.queue().head(), 1);

    let (chunk, rollovers) = sys.playback_tick();
    assert_eq!(rollovers, 0);
    assert_eq!(chunk, vec![0u8; 4 * STREAM_CHUNK_SIZE]);
}

#[test]
fn two_tracks_advance_automatically() {
    let a = ramp(1, 10000);
    let b = ramp(1_000_000, 100000);
    let mut sys = system_with_tracks(&[a.clone(), b.clone()]);
    sys.loader_tick();
    sys.loader_tick();
    let sub = sys.events();

    let (chunk1, roll1) = sys.playback_tick();
    assert_eq!(roll1, 0);
    assert_eq!(chunk1, bytes_of(&a[0..8820]));

    let (chunk2, roll2) = sys.playback_tick();
    assert_eq!(roll2, 1);
    let mut expected: Vec<u32> = a[8820..10000].to_vec();
    expected.extend_from_slice(&b[0..7640]);
    assert_eq!(chunk2, bytes_of(&expected));
    let advanced = sys
        .poll_events(sub)
        .iter()
        .filter(|e| matches!(e, QueueEvent::Advanced { .. }))
        .count();
    assert_eq!(advanced, 1);
    assert_eq!(sys.queue().head(), 1);

    let (chunk3, roll3) = sys.playback_tick();
    assert_eq!(roll3, 0);
    assert_eq!(chunk3, bytes_of(&b[7640..7640 + 8820]));
}

#[test]
fn underrun_pads_with_silence_and_does_not_advance() {
    // The reader has produced only 100 samples so far; the track is not over.
    let a = ramp(7, 100);
    let mut sys: AudioSystem<VecSampleReader> = AudioSystem::new();
    sys.add(Input::new(VecSampleReader::new(a.clone()), 44100));
    sys.loader_tick();
    let sub = sys.events();

    let (chunk, rollovers) = sys.playback_tick();
    assert_eq!(rollovers, 0);
    let mut expected = a.clone();
    expected.extend(std::iter::repeat(0u32).take(STREAM_CHUNK_SIZE - 100));
    assert_eq!(chunk, bytes_of(&expected));
    assert!(sys.poll_events(sub).is_empty());
    assert_eq!(sys.queue().head(), 0);
}

#[test]
fn skip_resets_cursor_and_plays_next_track() {
    let a = ramp(1, 50000);
    let b = ramp(500_000, 50000);
    let mut sys = system_with_tracks(&[a.clone(), b.clone()]);
    sys.loader_tick();
    sys.loader_tick();

    let (chunk1, _) = sys.playback_tick();
    assert_eq!(chunk1, bytes_of(&a[0..8820]));
    assert!(sys.scheduler().cursor() > 0);

    sys.next();
    assert_eq!(sys.scheduler().cursor(), 0);

    let (chunk2, _) = sys.playback_tick();
    assert_eq!(chunk2, bytes_of(&b[0..8820]));
}

#[test]
fn slow_consumer_drops_oldest_and_blocks_nobody() {
    let a = ramp(3, 90000);
    let mut sys = system_with_tracks(&[a.clone()]);
    sys.loader_tick();
    let stalled = sys.stream();
    let active = sys.stream();
    // Enough ticks to overflow the stalled ring (it holds eight chunks).
    let mut all: Vec<u8> = Vec::new();
    for _ in 0..9 {
        let (chunk, _) = sys.playback_tick();
        // A consumer that drains between ticks gets every chunk whole, in
        // order: the stalled one never slows it down.
        let seen = sys.read_consumer(active, CONSUMER_RING_SIZE);
        assert_eq!(seen, chunk);
        all.extend_from_slice(&chunk);
    }
    // The stalled ring overflowed: it holds only the newest bytes, in order.
    let got = sys.read_consumer(stalled, 10 * 4 * STREAM_CHUNK_SIZE);
    assert_eq!(got.len(), CONSUMER_RING_SIZE);
    assert_eq!(got, all[all.len() - CONSUMER_RING_SIZE..].to_vec());
}

#[test]
fn late_consumer_sees_no_history() {
    let a = ramp(11, 90000);
    let mut sys = system_with_tracks(&[a.clone()]);
    sys.loader_tick();
    let (_, _) = sys.playback_tick();

    let late = sys.stream();
    let nothing = sys.read_consumer(late, 1024);
    assert!(nothing.is_empty());

    // Its first bytes are the start of the chunk written after it joined.
    let (chunk2, _) = sys.playback_tick();
    let got = sys.read_consumer(late, 1024);
    assert_eq!(got, chunk2[..1024].to_vec());
}

#[test]
fn loader_keeps_wanting_tracks_at_target() {
    // One slow reader: the first round asks for the full target and the pool
    // delivers what it has; the report brings the window up to date.
    let a = ramp(9, 2000);
    let mut sys = system_with_tracks(&[a.clone()]);
    sys.loader_tick();
    let slot = sys.scheduler().slot(0);
    assert_eq!(slot.known_length, 2000);
    assert!(!slot.exhausted);
    // A second round learns the reader is done.
    sys.loader_tick();
    let slot = sys.scheduler().slot(0);
    assert!(slot.exhausted);
}

#[test]
fn event_subscribers_are_independent() {
    let a = ramp(1, 1000);
    let mut sys: AudioSystem<VecSampleReader> = AudioSystem::new();
    let early = sys.events();
    sys.add(Input::new(VecSampleReader::new(a.clone()), 1000));
    let late = sys.events();
    sys.next();
    // The early subscriber sees the add and the skip; the late one only the
    // skip; polling one hides nothing from the other.
    let early_events = sys.poll_events(early);
    assert_eq!(
        early_events,
        vec![
            QueueEvent::TrackAdded { position: 0 },
            QueueEvent::Advanced { new_head: 1 },
        ]
    );
    let late_events = sys.poll_events(late);
    assert_eq!(late_events, vec![QueueEvent::Advanced { new_head: 1 }]);
    assert!(sys.poll_events(early).is_empty());
}
