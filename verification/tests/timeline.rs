//! Merging tracks and resolving the tempo map.

use violino::smf::{parse, EventKind, Smf, TrackEvent};
use violino::timeline::{merge_tracks, tempo_spans, tick_timeline, TickEvent};

fn ev(delta: u32, kind: EventKind) -> TrackEvent {
    TrackEvent { delta, kind }
}

fn note(key: u8) -> EventKind {
    EventKind::NoteOn { channel: 0, key, velocity: 100 }
}

/// The bytes of the original end-to-end test: CC11, A4 for 960 ticks.
fn minimal_smf() -> Vec<u8> {
    let track: &[u8] = &[
        0x00, 0xB0, 0x0B, 0x64, 0x00, 0x90, 0x45, 0x40, 0x87, 0x40, 0x80, 0x45, 0x00, 0x00, 0xFF,
        0x2F, 0x00,
    ];
    let mut f = Vec::new();
    f.extend_from_slice(b"MThd");
    f.extend_from_slice(&6u32.to_be_bytes());
    f.extend_from_slice(&0u16.to_be_bytes());
    f.extend_from_slice(&1u16.to_be_bytes());
    f.extend_from_slice(&480u16.to_be_bytes());
    f.extend_from_slice(b"MTrk");
    f.extend_from_slice(&(track.len() as u32).to_be_bytes());
    f.extend_from_slice(track);
    f
}

#[test]
fn midi_note_lasts_one_second_at_default_tempo() {
    let smf = parse(&minimal_smf()).expect("parse");
    let (events, spans) = tick_timeline(&smf);
    assert_eq!(events.len(), 4);
    assert_eq!(events.last().unwrap().tick, 960);
    // note lasts 960 ticks at default 120 BPM = 1.0 s
    let mut time = 0.0f64;
    for s in &spans {
        assert_eq!(s.microseconds_per_quarter, 500_000);
        time += s.ticks as f64 * s.microseconds_per_quarter as f64 / 480.0 / 1e6;
    }
    assert!((time - 1.0).abs() < 1e-9);
}

#[test]
fn tracks_merge_by_tick_then_track() {
    let smf = Smf {
        ticks_per_quarter: 96,
        tracks: vec![
            vec![ev(0, EventKind::Tempo { microseconds_per_quarter: 400_000 }), ev(100, note(60))],
            vec![ev(50, note(62)), ev(50, note(64))],
        ],
    };
    let merged = merge_tracks(&smf);
    let got: Vec<(u128, usize, usize)> = merged.iter().map(|e| (e.tick, e.track, e.index)).collect();
    assert_eq!(got, vec![(0, 0, 0), (50, 1, 0), (100, 0, 1), (100, 1, 1)]);
    assert_eq!(merged[1].kind, note(62));
    assert_eq!(merged[2].kind, note(60));

    let spans = tempo_spans(&merged);
    let got: Vec<(u128, u32)> = spans.iter().map(|s| (s.ticks, s.microseconds_per_quarter)).collect();
    assert_eq!(got, vec![(0, 500_000), (50, 400_000), (50, 400_000), (0, 400_000)]);
}

#[test]
fn simultaneous_events_of_one_track_keep_file_order() {
    let smf = Smf { ticks_per_quarter: 96, tracks: vec![vec![ev(10, note(1)), ev(0, note(2)), ev(0, note(3))]] };
    let merged = merge_tracks(&smf);
    let keys: Vec<EventKind> = merged.iter().map(|e| e.kind).collect();
    assert_eq!(keys, vec![note(1), note(2), note(3)]);
    assert!(merged.iter().all(|e| e.tick == 10));
}

#[test]
fn tempo_change_applies_from_the_next_event_on() {
    let events = vec![
        TickEvent { tick: 10, track: 0, index: 0, kind: EventKind::Tempo { microseconds_per_quarter: 250_000 } },
        TickEvent { tick: 30, track: 0, index: 1, kind: note(60) },
        TickEvent { tick: 30, track: 1, index: 0, kind: EventKind::Tempo { microseconds_per_quarter: 1_000_000 } },
        TickEvent { tick: 45, track: 1, index: 1, kind: note(61) },
    ];
    let spans = tempo_spans(&events);
    let got: Vec<(u128, u32)> = spans.iter().map(|s| (s.ticks, s.microseconds_per_quarter)).collect();
    assert_eq!(got, vec![(10, 500_000), (20, 250_000), (0, 250_000), (15, 1_000_000)]);
}

#[test]
fn empty_file_gives_empty_timeline() {
    let smf = Smf { ticks_per_quarter: 96, tracks: vec![vec![], vec![]] };
    let (events, spans) = tick_timeline(&smf);
    assert!(events.is_empty());
    assert!(spans.is_empty());
}

#[test]
fn large_deltas_do_not_overflow() {
    let smf = Smf { ticks_per_quarter: 96, tracks: vec![vec![ev(u32::MAX, note(1)); 3]] };
    let merged = merge_tracks(&smf);
    assert_eq!(merged[2].tick, 3 * u32::MAX as u128);
}
