//! The Standard MIDI File parser on hand-built files.

use violino::smf::{parse, EventKind, SmfError, TrackEvent};

/// A header chunk followed by the given tracks.
fn file(format: u16, division: u16, tracks: &[&[u8]]) -> Vec<u8> {
    let mut f = Vec::new();
    f.extend_from_slice(b"MThd");
    f.extend_from_slice(&6u32.to_be_bytes());
    f.extend_from_slice(&format.to_be_bytes());
    f.extend_from_slice(&(tracks.len() as u16).to_be_bytes());
    f.extend_from_slice(&division.to_be_bytes());
    for t in tracks {
        f.extend_from_slice(b"MTrk");
        f.extend_from_slice(&(t.len() as u32).to_be_bytes());
        f.extend_from_slice(t);
    }
    f
}

/// Format 0, 480 tpq: CC11=100, NoteOn A4, 2 beats, NoteOff, EOT.
fn minimal_smf() -> Vec<u8> {
    let track: &[u8] = &[
        0x00, 0xB0, 0x0B, 0x64, // CC11 = 100
        0x00, 0x90, 0x45, 0x40, // NoteOn A4 vel 64
        0x87, 0x40, 0x80, 0x45, 0x00, // delta 960, NoteOff
        0x00, 0xFF, 0x2F, 0x00, // end of track
    ];
    file(0, 480, &[track])
}

fn kinds(events: &[TrackEvent]) -> Vec<EventKind> {
    events.iter().map(|e| e.kind).collect()
}

#[test]
fn parses_minimal_file() {
    let smf = parse(&minimal_smf()).expect("parse");
    assert_eq!(smf.ticks_per_quarter, 480);
    assert_eq!(smf.tracks.len(), 1);
    let t = &smf.tracks[0];
    assert_eq!(t.len(), 4);
    assert_eq!(t[0].delta, 0);
    assert_eq!(t[0].kind, EventKind::ControlChange { channel: 0, controller: 11, value: 100 });
    assert_eq!(t[1].kind, EventKind::NoteOn { channel: 0, key: 69, velocity: 64 });
    assert_eq!(t[2].delta, 960);
    assert_eq!(t[2].kind, EventKind::NoteOff { channel: 0, key: 69 });
    assert_eq!(t[3].kind, EventKind::Other);
}

#[test]
fn note_on_with_velocity_zero_is_note_off() {
    let smf = parse(&file(0, 96, &[&[0x00, 0x93, 0x3C, 0x00]])).unwrap();
    assert_eq!(kinds(&smf.tracks[0]), vec![EventKind::NoteOff { channel: 3, key: 60 }]);
}

#[test]
fn running_status_repeats_the_last_channel_status() {
    let smf = parse(&file(0, 96, &[&[0x00, 0x91, 0x3C, 0x40, 0x10, 0x3E, 0x41]])).unwrap();
    let t = &smf.tracks[0];
    assert_eq!(t[1].delta, 16);
    assert_eq!(
        kinds(t),
        vec![
            EventKind::NoteOn { channel: 1, key: 60, velocity: 64 },
            EventKind::NoteOn { channel: 1, key: 62, velocity: 65 },
        ]
    );
}

#[test]
fn meta_events_keep_the_running_status() {
    let smf = parse(&file(0, 96, &[&[0x00, 0x90, 0x3C, 0x40, 0x00, 0xFF, 0x01, 0x01, 0x41, 0x00, 0x3C, 0x00]]))
        .unwrap();
    assert_eq!(
        kinds(&smf.tracks[0]),
        vec![
            EventKind::NoteOn { channel: 0, key: 60, velocity: 64 },
            EventKind::Other,
            EventKind::NoteOff { channel: 0, key: 60 },
        ]
    );
}

#[test]
fn tempo_meta_event() {
    let smf = parse(&file(0, 96, &[&[0x00, 0xFF, 0x51, 0x03, 0x07, 0xA1, 0x20]])).unwrap();
    assert_eq!(kinds(&smf.tracks[0]), vec![EventKind::Tempo { microseconds_per_quarter: 500_000 }]);
}

#[test]
fn tempo_meta_event_of_wrong_length_is_skipped() {
    let smf = parse(&file(0, 96, &[&[0x00, 0xFF, 0x51, 0x02, 0x07, 0xA1]])).unwrap();
    assert_eq!(kinds(&smf.tracks[0]), vec![EventKind::Other]);
}

#[test]
fn pitch_bend_values() {
    let smf = parse(&file(
        0,
        96,
        &[&[0x00, 0xE0, 0x00, 0x40, 0x00, 0xE1, 0x7F, 0x7F, 0x00, 0xE2, 0x00, 0x00, 0x00, 0xE3, 0x00, 0xFF]],
    ))
    .unwrap();
    assert_eq!(
        kinds(&smf.tracks[0]),
        vec![
            EventKind::PitchBend { channel: 0, value: 0 },
            EventKind::PitchBend { channel: 1, value: 8191 },
            EventKind::PitchBend { channel: 2, value: -8192 },
            // the top bit of a data byte is dropped: 0x7F << 7 | 0x00
            EventKind::PitchBend { channel: 3, value: 8064 },
        ]
    );
}

#[test]
fn other_channel_messages_are_skipped_with_their_data() {
    let smf = parse(&file(
        0,
        96,
        &[&[0x00, 0xA0, 0x3C, 0x10, 0x00, 0xC0, 0x05, 0x00, 0xD0, 0x20, 0x00, 0xB2, 0x07, 0x64]],
    ))
    .unwrap();
    assert_eq!(
        kinds(&smf.tracks[0]),
        vec![
            EventKind::Other,
            EventKind::Other,
            EventKind::Other,
            EventKind::ControlChange { channel: 2, controller: 7, value: 100 },
        ]
    );
}

#[test]
fn sysex_is_skipped() {
    let smf = parse(&file(0, 96, &[&[0x00, 0xF0, 0x03, 0x01, 0x02, 0xF7, 0x00, 0xF7, 0x01, 0x05]])).unwrap();
    assert_eq!(kinds(&smf.tracks[0]), vec![EventKind::Other, EventKind::Other]);
}

#[test]
fn longest_variable_length_quantity() {
    let smf = parse(&file(0, 96, &[&[0xFF, 0xFF, 0xFF, 0x7F, 0xC0, 0x01]])).unwrap();
    assert_eq!(smf.tracks[0][0].delta, 0x0FFF_FFFF);
}

#[test]
fn format_one_with_two_tracks() {
    let smf = parse(&file(1, 960, &[&[0x00, 0xFF, 0x2F, 0x00], &[0x00, 0x90, 0x40, 0x50]])).unwrap();
    assert_eq!(smf.ticks_per_quarter, 960);
    assert_eq!(smf.tracks.len(), 2);
    assert_eq!(kinds(&smf.tracks[1]), vec![EventKind::NoteOn { channel: 0, key: 64, velocity: 80 }]);
}

#[test]
fn no_tracks() {
    let smf = parse(&file(0, 96, &[])).unwrap();
    assert_eq!(smf.tracks.len(), 0);
}

#[test]
fn error_unexpected_eof() {
    assert_eq!(parse(b"MTh").err(), Some(SmfError::UnexpectedEof));
    let mut f = minimal_smf();
    f.truncate(f.len() - 2);
    assert_eq!(parse(&f).err(), Some(SmfError::UnexpectedEof));
}

#[test]
fn error_track_longer_than_file() {
    let mut f = file(0, 96, &[&[0x00, 0x90, 0x3C, 0x40]]);
    let n = f.len();
    f[n - 5] = 9; // announce 9 bytes, give 4
    assert_eq!(parse(&f).err(), Some(SmfError::UnexpectedEof));
}

#[test]
fn error_not_midi() {
    let mut f = minimal_smf();
    f[3] = b'x';
    assert_eq!(parse(&f).err(), Some(SmfError::NotMidi));
}

#[test]
fn error_bad_header_length() {
    let mut f = minimal_smf();
    f[7] = 7;
    assert_eq!(parse(&f).err(), Some(SmfError::BadHeaderLength));
}

#[test]
fn error_unsupported_format() {
    assert_eq!(parse(&file(2, 96, &[])).err(), Some(SmfError::UnsupportedFormat(2)));
}

#[test]
fn error_smpte_division() {
    assert_eq!(parse(&file(0, 0xE728, &[])).err(), Some(SmfError::SmpteDivision));
}

#[test]
fn error_missing_track() {
    let mut f = minimal_smf();
    f[16] = b'X';
    assert_eq!(parse(&f).err(), Some(SmfError::MissingTrack));
}

#[test]
fn next_track_starts_where_the_length_says() {
    // the first track announces 3 bytes but its event takes 4
    let mut f = file(1, 96, &[&[0x00, 0x90, 0x3C, 0x40], &[]]);
    f[21] = 3;
    assert_eq!(parse(&f).err(), Some(SmfError::MissingTrack));
}

#[test]
fn error_no_running_status() {
    assert_eq!(parse(&file(0, 96, &[&[0x00, 0x3C, 0x40]])).err(), Some(SmfError::NoRunningStatus));
}

#[test]
fn meta_event_does_not_start_a_running_status() {
    assert_eq!(
        parse(&file(0, 96, &[&[0x00, 0xFF, 0x2F, 0x00, 0x00, 0x3C, 0x40]])).err(),
        Some(SmfError::NoRunningStatus)
    );
}

#[test]
fn error_vlq_too_long() {
    assert_eq!(parse(&file(0, 96, &[&[0x81, 0x81, 0x81, 0x81, 0x00]])).err(), Some(SmfError::VlqTooLong));
}

#[test]
fn error_unsupported_status() {
    assert_eq!(parse(&file(0, 96, &[&[0x00, 0xF4]])).err(), Some(SmfError::UnsupportedStatus(0xF4)));
}

/// The encoder of the demo generator: 7-bit groups, most significant
/// first, 0x80 on every byte but the last.
fn vlq(mut value: u32) -> Vec<u8> {
    let mut stack = vec![(value & 0x7F) as u8];
    value >>= 7;
    while value > 0 {
        stack.push(0x80 | (value & 0x7F) as u8);
        value >>= 7;
    }
    stack.reverse();
    stack
}

#[test]
fn delta_times_decode_the_encoder_output() {
    for &v in &[0u32, 1, 127, 128, 960, 16383, 16384, 2_097_151, 2_097_152, 0x0FFF_FFFF] {
        let mut track = vlq(v);
        track.extend_from_slice(&[0xC0, 0x01]);
        let smf = parse(&file(0, 96, &[&track])).unwrap();
        assert_eq!(smf.tracks[0][0].delta, v);
        assert_eq!(smf.tracks[0][0].kind, EventKind::Other);
    }
}

#[test]
fn pitch_bend_data_bytes_are_seven_bit() {
    let smf = parse(&file(0, 96, &[&[0x00, 0xE0, 0xFF, 0xFF, 0x00, 0xE0, 0x80, 0xC0]])).unwrap();
    assert_eq!(
        kinds(&smf.tracks[0]),
        vec![EventKind::PitchBend { channel: 0, value: 8191 }, EventKind::PitchBend { channel: 0, value: 0 }]
    );
}

#[test]
fn bytes_after_the_last_track_are_ignored() {
    let f = minimal_smf();
    let mut g = f.clone();
    g.extend_from_slice(&[0xDE, 0xAD, 0xBE, 0xEF, b'M', b'T', b'r', b'k']);
    let a = parse(&f).unwrap();
    let b = parse(&g).unwrap();
    assert_eq!(a.ticks_per_quarter, b.ticks_per_quarter);
    assert_eq!(a.tracks.len(), b.tracks.len());
    assert_eq!(kinds(&a.tracks[0]), kinds(&b.tracks[0]));
}

#[test]
fn every_cut_of_a_file_is_refused() {
    let f = file(1, 96, &[&[0x00, 0x90, 0x3C, 0x40], &[0x00, 0xFF, 0x51, 0x03, 0x07, 0xA1, 0x20]]);
    assert!(parse(&f).is_ok());
    for k in 0..f.len() {
        assert!(parse(&f[..k]).is_err(), "cut at {k} parsed");
    }
}
