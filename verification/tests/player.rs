//! The held-note stack, the controller mapping and the noise generator.

use violino::player::{xorshift32, Mapping, PlayerState};
use violino::smf::EventKind;

fn on(channel: u8, key: u8) -> EventKind {
    EventKind::NoteOn { channel, key, velocity: 90 }
}

fn off(channel: u8, key: u8) -> EventKind {
    EventKind::NoteOff { channel, key }
}

fn cc(controller: u8, value: u8) -> EventKind {
    EventKind::ControlChange { channel: 0, controller, value }
}

#[test]
fn default_mapping_follows_swam() {
    let m = Mapping::default();
    assert_eq!((m.expression, m.vibrato_depth, m.vibrato_rate, m.portamento_time), (11, 1, 19, 5));
}

#[test]
fn legato_returns_to_the_previous_note() {
    let m = Mapping::default();
    let mut p = PlayerState::new();
    assert_eq!(p.sounding(), None);
    p.apply(on(0, 69), None, &m);
    p.apply(on(0, 71), None, &m);
    assert_eq!(p.sounding(), Some(71));
    p.apply(off(0, 71), None, &m);
    assert_eq!(p.sounding(), Some(69));
    p.apply(off(0, 69), None, &m);
    assert_eq!(p.sounding(), None);
}

#[test]
fn repeated_note_on_moves_the_key_to_the_top_once() {
    let m = Mapping::default();
    let mut p = PlayerState::new();
    p.apply(on(0, 60), None, &m);
    p.apply(on(0, 62), None, &m);
    p.apply(on(0, 60), None, &m);
    assert_eq!(p.held(), &vec![62, 60]);
    p.apply(off(0, 60), None, &m);
    assert_eq!(p.held(), &vec![62]);
}

#[test]
fn releasing_an_unheld_key_changes_nothing() {
    let m = Mapping::default();
    let mut p = PlayerState::new();
    p.apply(on(0, 60), None, &m);
    p.apply(off(0, 61), None, &m);
    assert_eq!(p.held(), &vec![60]);
}

#[test]
fn channel_filter() {
    let m = Mapping::default();
    let mut p = PlayerState::new();
    p.apply(on(0, 60), Some(1), &m);
    p.apply(EventKind::PitchBend { channel: 0, value: 100 }, Some(1), &m);
    assert_eq!(p.sounding(), None);
    assert_eq!(p.pitch_bend(), 0);
    p.apply(on(1, 64), Some(1), &m);
    assert_eq!(p.sounding(), Some(64));
    // no filter: every channel plays
    p.apply(on(5, 67), None, &m);
    assert_eq!(p.sounding(), Some(67));
}

#[test]
fn controllers_follow_the_mapping() {
    let m = Mapping::default();
    let mut p = PlayerState::new();
    assert_eq!(p.expression(), None);
    p.apply(cc(11, 100), None, &m);
    p.apply(cc(1, 20), None, &m);
    p.apply(cc(19, 30), None, &m);
    p.apply(cc(5, 40), None, &m);
    p.apply(cc(7, 50), None, &m);
    assert_eq!(p.expression(), Some(100));
    assert_eq!(p.vibrato_depth(), Some(20));
    assert_eq!(p.vibrato_rate(), Some(30));
    assert_eq!(p.portamento_time(), Some(40));
    p.apply(EventKind::PitchBend { channel: 0, value: -4096 }, None, &m);
    assert_eq!(p.pitch_bend(), -4096);
}

#[test]
fn first_matching_controller_wins() {
    let m = Mapping { expression: 7, vibrato_depth: 7, vibrato_rate: 8, portamento_time: 9 };
    let mut p = PlayerState::new();
    p.apply(cc(7, 33), None, &m);
    assert_eq!(p.expression(), Some(33));
    assert_eq!(p.vibrato_depth(), None);
}

#[test]
fn tempo_and_other_events_change_nothing() {
    let m = Mapping::default();
    let mut p = PlayerState::new();
    p.apply(on(0, 60), None, &m);
    p.apply(EventKind::Tempo { microseconds_per_quarter: 1 }, Some(0), &m);
    p.apply(EventKind::Other, None, &m);
    assert_eq!(p.held(), &vec![60]);
    assert_eq!(p.expression(), None);
}

#[test]
fn xorshift_values() {
    assert_eq!(xorshift32(1), 270369);
    assert_eq!(xorshift32(0x76696F6C), 723294062);
    assert_eq!(xorshift32(723294062), 2278586710);
    assert_eq!(xorshift32(0), 0);
}

#[test]
fn playing_one_channel_is_playing_the_blanked_list() {
    let m = Mapping::default();
    let events = [on(0, 60), on(1, 62), cc(11, 80), EventKind::PitchBend { channel: 1, value: 5 }, off(1, 62)];
    let mut filtered = PlayerState::new();
    let mut blanked = PlayerState::new();
    for &e in &events {
        filtered.apply(e, Some(1), &m);
        let kept = match e {
            EventKind::NoteOn { channel, .. }
            | EventKind::NoteOff { channel, .. }
            | EventKind::ControlChange { channel, .. }
            | EventKind::PitchBend { channel, .. } if channel != 1 => EventKind::Other,
            _ => e,
        };
        blanked.apply(kept, None, &m);
        assert_eq!(filtered.held(), blanked.held());
        assert_eq!(filtered.expression(), blanked.expression());
        assert_eq!(filtered.pitch_bend(), blanked.pitch_bend());
    }
    assert_eq!(filtered.pitch_bend(), 5);
    assert_eq!(filtered.expression(), None);
}

#[test]
fn unmapped_controllers_leave_the_player_alone() {
    let m = Mapping::default();
    let mut p = PlayerState::new();
    p.apply(cc(64, 127), None, &m);
    p.apply(cc(7, 100), None, &m);
    assert_eq!(p.expression(), None);
    assert_eq!(p.vibrato_depth(), None);
    assert_eq!(p.vibrato_rate(), None);
    assert_eq!(p.portamento_time(), None);
    assert!(p.held().is_empty());
}
