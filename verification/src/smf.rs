//! Minimal Standard MIDI File (SMF format 0/1) parser.
//!
//! Only what a player needs: notes, controllers, pitch bend, tempo.
//! Everything else is parsed past and discarded.
//!
//! The file format is written down below as spec functions over the input
//! bytes (`byte_at`, `vlq_at`, `event_at`, `events_from`, `tracks_at`,
//! `smf_spec`); `parse` returns exactly what `smf_spec` describes.

use vstd::prelude::*;

verus! {

/// What one track event means to the player.
#[allow(inconsistent_fields)]
#[derive(Debug, Clone, Copy, PartialEq, Eq, Structural)]
pub enum EventKind {
    NoteOn { channel: u8, key: u8, velocity: u8 },
    NoteOff { channel: u8, key: u8 },
    ControlChange { channel: u8, controller: u8, value: u8 },
    /// -8192..=8191, center 0.
    PitchBend { channel: u8, value: i16 },
    /// Microseconds per quarter note.
    Tempo { microseconds_per_quarter: u32 },
    Other,
}

/// An event with its delta time in ticks since the previous event of its track.
#[derive(Debug, Clone, Copy, PartialEq, Eq, Structural)]
pub struct TrackEvent {
    pub delta: u32,
    pub kind: EventKind,
}

/// A parsed file: the time division and the events of each track.
pub struct Smf {
    pub ticks_per_quarter: u16,
    pub tracks: Vec<Vec<TrackEvent>>,
}

/// Why a file was refused.
#[derive(Debug, Clone, Copy, PartialEq, Eq, Structural)]
pub enum SmfError {
    /// The data ended in the middle of a chunk, an event or a number.
    UnexpectedEof,
    /// The file does not start with `MThd`.
    NotMidi,
    /// The header chunk length is not 6.
    BadHeaderLength,
    /// Only SMF formats 0 and 1 are read; the field holds the format found.
    UnsupportedFormat(u16),
    /// The time division counts SMPTE frames rather than ticks per quarter.
    SmpteDivision,
    /// A track chunk does not start with `MTrk`.
    MissingTrack,
    /// A data byte arrived where a status byte was needed and no status
    /// was running.
    NoRunningStatus,
    /// A variable-length quantity did not end within four bytes.
    VlqTooLong,
    /// A status byte from 0xF1 to 0xFE other than 0xF7; the field holds it.
    UnsupportedStatus(u8),
}

/// The mathematical content of an `Smf`.
pub struct SmfView {
    pub ticks_per_quarter: u16,
    pub tracks: Seq<Seq<TrackEvent>>,
}

impl View for Smf {
    type V = SmfView;

    open spec fn view(&self) -> SmfView {
        SmfView {
            ticks_per_quarter: self.ticks_per_quarter,
            tracks: self.tracks@.map_values(|t: Vec<TrackEvent>| t@),
        }
    }
}

// ---------------------------------------------------------------------
// The format, as spec functions over the bytes of the file.
// Each reader takes a position and gives the value read and the position
// after it, or the error that stops the parse.
// ---------------------------------------------------------------------

/// The byte at `pos`.
pub open spec fn byte_at(s: Seq<u8>, pos: int) -> Result<(u8, int), SmfError> {
    if 0 <= pos < s.len() {
        Ok((s[pos], pos + 1))
    } else {
        Err(SmfError::UnexpectedEof)
    }
}

/// The `n` bytes from `pos` on.
pub open spec fn bytes_at(s: Seq<u8>, pos: int, n: int) -> Result<(Seq<u8>, int), SmfError> {
    if 0 <= pos && 0 <= n && pos + n <= s.len() {
        Ok((s.subrange(pos, pos + n), pos + n))
    } else {
        Err(SmfError::UnexpectedEof)
    }
}

/// Big-endian value of a byte string.
pub open spec fn be_value(b: Seq<u8>) -> int
    decreases b.len(),
{
    if b.len() == 0 {
        0
    } else {
        be_value(b.drop_last()) * 256 + b.last()
    }
}

/// A big-endian 16-bit number at `pos`.
pub open spec fn u16_at(s: Seq<u8>, pos: int) -> Result<(u16, int), SmfError> {
    match bytes_at(s, pos, 2) {
        Ok((b, p)) => Ok((be_value(b) as u16, p)),
        Err(e) => Err(e),
    }
}

/// A big-endian 32-bit number at `pos`.
pub open spec fn u32_at(s: Seq<u8>, pos: int) -> Result<(u32, int), SmfError> {
    match bytes_at(s, pos, 4) {
        Ok((b, p)) => Ok((be_value(b) as u32, p)),
        Err(e) => Err(e),
    }
}

/// Reading a variable-length quantity after `count` continuation bytes
/// whose 7-bit groups make up `acc`.
pub open spec fn vlq_from(s: Seq<u8>, pos: int, acc: nat, count: nat) -> Result<(u32, int), SmfError>
    decreases 4 - count,
{
    if count >= 4 {
        Err(SmfError::VlqTooLong)
    } else {
        match byte_at(s, pos) {
            Err(e) => Err(e),
            Ok((b, p)) => {
                let acc2 = (acc * 128 + b % 128) as nat;
                if b < 128 {
                    Ok((acc2 as u32, p))
                } else {
                    vlq_from(s, p, acc2, count + 1)
                }
            },
        }
    }
}

/// A MIDI variable-length quantity at `pos`: at most four bytes, seven
/// bits each, most significant group first, the last byte below 0x80.
pub open spec fn vlq_at(s: Seq<u8>, pos: int) -> Result<(u32, int), SmfError> {
    vlq_from(s, pos, 0, 0)
}

/// The pitch-bend value of a pair of data bytes: the 14-bit number made
/// of the 7-bit groups of `msb` and `lsb`, centred on 0. A data byte's top
/// bit is not part of its value and is dropped.
pub open spec fn pitch_bend_value(lsb: u8, msb: u8) -> int {
    (msb % 128) * 128 + (lsb % 128) - 8192
}

/// The number of data bytes that a channel message with this status takes.
pub open spec fn channel_data_len(status: u8) -> int {
    if status / 16 == 0xC || status / 16 == 0xD {
        1
    } else {
        2
    }
}

/// A channel message (status 0x80..=0xEF) whose data starts at `pos`.
pub open spec fn channel_message(s: Seq<u8>, pos: int, status: u8) -> Result<(EventKind, int), SmfError> {
    let channel = status % 16;
    let kind = status / 16;
    match bytes_at(s, pos, channel_data_len(status)) {
        Err(e) => Err(e),
        Ok((d, p)) => Ok((
            if kind == 0x8 {
                EventKind::NoteOff { channel, key: d[0] }
            } else if kind == 0x9 {
                if d[1] == 0 {
                    EventKind::NoteOff { channel, key: d[0] }
                } else {
                    EventKind::NoteOn { channel, key: d[0], velocity: d[1] }
                }
            } else if kind == 0xB {
                EventKind::ControlChange { channel, controller: d[0], value: d[1] }
            } else if kind == 0xE {
                EventKind::PitchBend { channel, value: pitch_bend_value(d[0], d[1]) as i16 }
            } else {
                EventKind::Other
            },
            p,
        )),
    }
}

/// A meta event (status 0xFF) or a system-exclusive event (0xF0, 0xF7)
/// whose body starts at `pos`. Only a 3-byte set-tempo meta event (type
/// 0x51) means anything; every other one is skipped.
pub open spec fn system_message(s: Seq<u8>, pos: int, status: u8) -> Result<(EventKind, int), SmfError> {
    if status == 0xFF {
        match byte_at(s, pos) {
            Err(e) => Err(e),
            Ok((meta_type, p1)) => match vlq_at(s, p1) {
                Err(e) => Err(e),
                Ok((len, p2)) => match bytes_at(s, p2, len as int) {
                    Err(e) => Err(e),
                    Ok((body, p3)) => Ok((
                        if meta_type == 0x51 && len == 3 {
                            EventKind::Tempo { microseconds_per_quarter: be_value(body) as u32 }
                        } else {
                            EventKind::Other
                        },
                        p3,
                    )),
                },
            },
        }
    } else if status == 0xF0 || status == 0xF7 {
        match vlq_at(s, pos) {
            Err(e) => Err(e),
            Ok((len, p1)) => match bytes_at(s, p1, len as int) {
                Err(e) => Err(e),
                Ok((_body, p2)) => Ok((EventKind::Other, p2)),
            },
        }
    } else {
        Err(SmfError::UnsupportedStatus(status))
    }
}

/// The message with this status byte whose data starts at `pos`.
pub open spec fn message_at(s: Seq<u8>, pos: int, status: u8) -> Result<(EventKind, int), SmfError> {
    if 0x80 <= status < 0xF0 {
        channel_message(s, pos, status)
    } else {
        system_message(s, pos, status)
    }
}

/// One track event at `pos`, with the running status before it; gives the
/// event, the position after it and the running status after it. A status
/// byte below 0xF0 becomes the running status; a data byte in the status
/// place reuses it.
pub open spec fn event_at(s: Seq<u8>, pos: int, running: Option<u8>) -> Result<(TrackEvent, int, Option<u8>), SmfError> {
    match vlq_at(s, pos) {
        Err(e) => Err(e),
        Ok((delta, p1)) => {
            if !(0 <= p1 < s.len()) {
                Err(SmfError::UnexpectedEof)
            } else if s[p1] >= 128 {
                let status = s[p1];
                let next_running = if status < 0xF0 { Some(status) } else { running };
                match message_at(s, p1 + 1, status) {
                    Err(e) => Err(e),
                    Ok((kind, p2)) => Ok((TrackEvent { delta, kind }, p2, next_running)),
                }
            } else {
                match running {
                    None => Err(SmfError::NoRunningStatus),
                    Some(status) => match message_at(s, p1, status) {
                        Err(e) => Err(e),
                        Ok((kind, p2)) => Ok((TrackEvent { delta, kind }, p2, running)),
                    },
                }
            }
        },
    }
}

/// The events read from `pos` on while the position stays before `end`.
pub open spec fn events_from(s: Seq<u8>, pos: int, end: int, running: Option<u8>) -> Result<Seq<TrackEvent>, SmfError>
    decreases s.len() - pos,
{
    if pos >= end {
        Ok(Seq::empty())
    } else {
        match event_at(s, pos, running) {
            Err(e) => Err(e),
            Ok((ev, p, r)) => {
                proof {
                    lemma_event_advances(s, pos, running);
                }
                match events_from(s, p, end, r) {
                    Err(e) => Err(e),
                    Ok(rest) => Ok(seq![ev] + rest),
                }
            },
        }
    }
}

/// The bytes `MThd`.
pub open spec fn header_tag() -> Seq<u8> {
    seq![0x4Du8, 0x54u8, 0x68u8, 0x64u8]
}

/// The bytes `MTrk`.
pub open spec fn track_tag() -> Seq<u8> {
    seq![0x4Du8, 0x54u8, 0x72u8, 0x6Bu8]
}

/// One track chunk at `pos`: `MTrk`, a 32-bit length and the events.
/// The position after it is where the length says, whatever the events
/// consumed.
pub open spec fn track_at(s: Seq<u8>, pos: int) -> Result<(Seq<TrackEvent>, int), SmfError> {
    match bytes_at(s, pos, 4) {
        Err(e) => Err(e),
        Ok((tag, p1)) => if tag != track_tag() {
            Err(SmfError::MissingTrack)
        } else {
            match u32_at(s, p1) {
                Err(e) => Err(e),
                Ok((len, p2)) => {
                    let end = p2 + len;
                    match events_from(s, p2, end, None) {
                        Err(e) => Err(e),
                        Ok(events) => Ok((events, end)),
                    }
                },
            }
        },
    }
}

/// `n` track chunks from `pos` on.
pub open spec fn tracks_at(s: Seq<u8>, pos: int, n: nat) -> Result<Seq<Seq<TrackEvent>>, SmfError>
    decreases n,
{
    if n == 0 {
        Ok(Seq::empty())
    } else {
        match track_at(s, pos) {
            Err(e) => Err(e),
            Ok((events, end)) => match tracks_at(s, end, (n - 1) as nat) {
                Err(e) => Err(e),
                Ok(rest) => Ok(seq![events] + rest),
            },
        }
    }
}

/// The `MThd` chunk: the tag, length 6, format 0 or 1, the number of
/// tracks and a division in ticks per quarter. Gives the number of tracks,
/// the division and the position after the chunk.
pub open spec fn header_at(s: Seq<u8>) -> Result<(u16, u16, int), SmfError> {
    match bytes_at(s, 0, 4) {
        Err(e) => Err(e),
        Ok((tag, p1)) => if tag != header_tag() {
            Err(SmfError::NotMidi)
        } else {
            match u32_at(s, p1) {
                Err(e) => Err(e),
                Ok((hlen, p2)) => if hlen != 6 {
                    Err(SmfError::BadHeaderLength)
                } else {
                    match u16_at(s, p2) {
                        Err(e) => Err(e),
                        Ok((format, p3)) => if format > 1 {
                            Err(SmfError::UnsupportedFormat(format))
                        } else {
                            match u16_at(s, p3) {
                                Err(e) => Err(e),
                                Ok((ntracks, p4)) => match u16_at(s, p4) {
                                    Err(e) => Err(e),
                                    Ok((division, p5)) => if division >= 0x8000 {
                                        Err(SmfError::SmpteDivision)
                                    } else {
                                        Ok((ntracks, division, p5))
                                    },
                                },
                            }
                        },
                    }
                },
            }
        },
    }
}

/// A whole file: the header chunk, then as many track chunks as it says.
pub open spec fn smf_spec(s: Seq<u8>) -> Result<SmfView, SmfError> {
    match header_at(s) {
        Err(e) => Err(e),
        Ok((ntracks, division, p)) => match tracks_at(s, p, ntracks as nat) {
            Err(e) => Err(e),
            Ok(tracks) => Ok(SmfView { ticks_per_quarter: division, tracks }),
        },
    }
}

// ---------------------------------------------------------------------
// The reader.
// ---------------------------------------------------------------------

/// Whether an executable read `r` that left the cursor at `pos` did what
/// the spec reader's outcome `expected` says.
pub open spec fn read_matches<T>(r: Result<T, SmfError>, expected: Result<(T, int), SmfError>, pos: int) -> bool {
    match expected {
        Ok((v, p)) => r == Ok::<T, SmfError>(v) && pos == p,
        Err(e) => r == Err::<T, SmfError>(e),
    }
}

/// Where a failed variable-length quantity leaves the reader: after four
/// bytes, or at the end of the data if that comes first.
pub open spec fn vlq_error_pos(s: Seq<u8>, pos: int) -> int {
    if pos + 4 <= s.len() {
        pos + 4
    } else {
        s.len() as int
    }
}

/// A read position in the file.
struct Cursor<'a> {
    data: &'a [u8],
    pos: usize,
}

impl<'a> Cursor<'a> {
    spec fn wf(&self) -> bool {
        self.pos <= self.data@.len()
    }

    /// Read one byte.
    fn u8(&mut self) -> (r: Result<u8, SmfError>)
        requires
            old(self).wf(),
        ensures
            final(self).wf(),
            final(self).data@ == old(self).data@,
            read_matches(r, byte_at(old(self).data@, old(self).pos as int), final(self).pos as int),
            r is Err ==> final(self).pos == old(self).pos,
    {
        if self.pos < self.data.len() {
            let b = self.data[self.pos];
            self.pos = self.pos + 1;
            Ok(b)
        } else {
            Err(SmfError::UnexpectedEof)
        }
    }

    /// The next byte, without moving.
    fn peek(&self) -> (r: Result<u8, SmfError>)
        requires
            self.wf(),
        ensures
            read_matches(r, byte_at(self.data@, self.pos as int), self.pos + 1),
    {
        if self.pos < self.data.len() {
            Ok(self.data[self.pos])
        } else {
            Err(SmfError::UnexpectedEof)
        }
    }

    /// Read `n` bytes.
    fn bytes(&mut self, n: usize) -> (r: Result<&'a [u8], SmfError>)
        requires
            old(self).wf(),
        ensures
            final(self).wf(),
            final(self).data@ == old(self).data@,
            match bytes_at(old(self).data@, old(self).pos as int, n as int) {
                Ok((b, p)) => r matches Ok(x) && x@ == b && final(self).pos == p,
                Err(e) => r == Err::<&'a [u8], SmfError>(e),
            },
            r is Err ==> final(self).pos == old(self).pos,
    {
        if n <= self.data.len() - self.pos {
            let s = vstd::slice::slice_subrange(self.data, self.pos, self.pos + n);
            self.pos = self.pos + n;
            Ok(s)
        } else {
            Err(SmfError::UnexpectedEof)
        }
    }

    /// Read a big-endian 16-bit number.
    fn u16(&mut self) -> (r: Result<u16, SmfError>)
        requires
            old(self).wf(),
        ensures
            final(self).wf(),
            final(self).data@ == old(self).data@,
            read_matches(r, u16_at(old(self).data@, old(self).pos as int), final(self).pos as int),
            r is Err ==> final(self).pos == old(self).pos,
    {
        let b = self.bytes(2)?;
        proof {
            lemma_be_value_2(b@);
        }
        Ok((b[0] as u16) * 256 + (b[1] as u16))
    }

    /// Read a big-endian 32-bit number.
    fn u32(&mut self) -> (r: Result<u32, SmfError>)
        requires
            old(self).wf(),
        ensures
            final(self).wf(),
            final(self).data@ == old(self).data@,
            read_matches(r, u32_at(old(self).data@, old(self).pos as int), final(self).pos as int),
            r is Err ==> final(self).pos == old(self).pos,
    {
        let b = self.bytes(4)?;
        proof {
            lemma_be_value_4(b@);
        }
        Ok((((b[0] as u32) * 256 + (b[1] as u32)) * 256 + (b[2] as u32)) * 256 + (b[3] as u32))
    }

    /// MIDI variable-length quantity.
    fn vlq(&mut self) -> (r: Result<u32, SmfError>)
        requires
            old(self).wf(),
        ensures
            final(self).wf(),
            final(self).data@ == old(self).data@,
            read_matches(r, vlq_at(old(self).data@, old(self).pos as int), final(self).pos as int),
            r is Err ==> final(self).pos == vlq_error_pos(old(self).data@, old(self).pos as int),
    {
        let ghost s = self.data@;
        let ghost start = self.pos as int;
        let mut value: u32 = 0;
        let mut i: u32 = 0;
        while i < 4
            invariant
                self.wf(),
                self.data@ == s,
                s == old(self).data@,
                start == old(self).pos,
                self.pos == start + i,
                i <= 4,
                value < pow128(i as nat),
                vlq_at(s, start) == vlq_from(s, self.pos as int, value as nat, i as nat),
            decreases 4 - i,
        {
            let b = self.u8()?;
            proof {
                lemma_vlq_step(value, b, i as nat);
            }
            value = (value << 7) | (b & 0x7F) as u32;
            if b & 0x80 == 0 {
                return Ok(value);
            }
            i = i + 1;
        }
        Err(SmfError::VlqTooLong)
    }
}


/// A running status is a channel status byte.
pub open spec fn running_ok(running: Option<u8>) -> bool {
    running matches Some(st) ==> 0x80 <= st < 0xF0
}

/// `prefix` in front of the sequence that `r` gives, or `r`'s error.
pub open spec fn prepend<T>(prefix: Seq<T>, r: Result<Seq<T>, SmfError>) -> Result<Seq<T>, SmfError> {
    match r {
        Ok(rest) => Ok(prefix + rest),
        Err(e) => Err(e),
    }
}

proof fn lemma_status_bits(status: u8)
    ensures
        status & 0x0F == status % 16,
        status & 0xF0 == (status / 16) * 16,
        (status & 0x80 != 0) == (status >= 128),
{
    assert(status & 0x0F == status % 16) by (bit_vector);
    assert(status & 0xF0 == (status / 16) * 16) by (bit_vector);
    assert((status & 0x80 != 0) == (status >= 128)) by (bit_vector);
}

/// Read the data of a message with this status byte.
fn read_message(c: &mut Cursor, status: u8) -> (r: Result<EventKind, SmfError>)
    requires
        old(c).wf(),
    ensures
        final(c).wf(),
        final(c).data@ == old(c).data@,
        read_matches(r, message_at(old(c).data@, old(c).pos as int, status), final(c).pos as int),
{
    let ghost s = c.data@;
    let ghost pos = c.pos as int;
    proof {
        lemma_status_bits(status);
    }
    let channel = status & 0x0F;
    match status & 0xF0 {
        0x80 => {
            let key = c.u8()?;
            c.u8()?;  // release velocity
            proof {
                assert(s.subrange(pos, pos + 2)[0] == key);
            }
            Ok(EventKind::NoteOff { channel, key })
        },
        0x90 => {
            let key = c.u8()?;
            let velocity = c.u8()?;
            proof {
                assert(s.subrange(pos, pos + 2)[0] == key);
                assert(s.subrange(pos, pos + 2)[1] == velocity);
            }
            if velocity == 0 {
                Ok(EventKind::NoteOff { channel, key })
            } else {
                Ok(EventKind::NoteOn { channel, key, velocity })
            }
        },
        0xA0 => {
            c.bytes(2)?;  // polyphonic aftertouch
            Ok(EventKind::Other)
        },
        0xB0 => {
            let controller = c.u8()?;
            let value = c.u8()?;
            proof {
                assert(s.subrange(pos, pos + 2)[0] == controller);
                assert(s.subrange(pos, pos + 2)[1] == value);
            }
            Ok(EventKind::ControlChange { channel, controller, value })
        },
        0xC0 => {
            c.u8()?;  // program change
            Ok(EventKind::Other)
        },
        0xD0 => {
            c.u8()?;  // channel aftertouch
            Ok(EventKind::Other)
        },
        0xE0 => {
            let lsb = c.u8()?;
            let msb = c.u8()?;
            proof {
                assert(s.subrange(pos, pos + 2)[0] == lsb);
                assert(s.subrange(pos, pos + 2)[1] == msb);
            }
            let raw: u16 = (((msb & 0x7F) as u16) << 7) | ((lsb & 0x7F) as u16);
            proof {
                assert((((msb & 0x7F) as u16) << 7) | ((lsb & 0x7F) as u16) == (msb % 128) * 128
                    + (lsb % 128)) by (bit_vector);
            }
            Ok(EventKind::PitchBend { channel, value: (raw as i16) - 8192 })
        },
        _ => read_system_message(c, status),
    }
}

/// Read the body of a meta or system-exclusive event.
fn read_system_message(c: &mut Cursor, status: u8) -> (r: Result<EventKind, SmfError>)
    requires
        old(c).wf(),
    ensures
        final(c).wf(),
        final(c).data@ == old(c).data@,
        read_matches(r, system_message(old(c).data@, old(c).pos as int, status), final(c).pos as int),
{
    if status == 0xFF {
        let meta_type = c.u8()?;
        let len = c.vlq()? as usize;
        let body = c.bytes(len)?;
        if meta_type == 0x51 && len == 3 {
            proof {
                lemma_be_value_3(body@);
            }
            Ok(EventKind::Tempo {
                microseconds_per_quarter: ((body[0] as u32) * 256 + (body[1] as u32)) * 256 + (body[2] as u32),
            })
        } else {
            Ok(EventKind::Other)
        }
    } else if status == 0xF0 || status == 0xF7 {
        let len = c.vlq()? as usize;
        c.bytes(len)?;
        Ok(EventKind::Other)
    } else {
        Err(SmfError::UnsupportedStatus(status))
    }
}

/// Read one track event, keeping the running status up to date.
fn read_event(c: &mut Cursor, running: &mut Option<u8>) -> (r: Result<TrackEvent, SmfError>)
    requires
        old(c).wf(),
        running_ok(*old(running)),
    ensures
        final(c).wf(),
        final(c).data@ == old(c).data@,
        running_ok(*final(running)),
        match event_at(old(c).data@, old(c).pos as int, *old(running)) {
            Ok((ev, p, run)) => r == Ok::<TrackEvent, SmfError>(ev) && final(c).pos == p && *final(running) == run,
            Err(e) => r == Err::<TrackEvent, SmfError>(e),
        },
{
    let delta = c.vlq()?;
    let first = c.peek()?;
    proof {
        lemma_status_bits(first);
    }
    let status = if first & 0x80 != 0 {
        let s = c.u8()?;
        if s < 0xF0 {
            *running = Some(s);
        }
        s
    } else {
        match *running {
            Some(s) => s,
            None => {
                return Err(SmfError::NoRunningStatus);
            },
        }
    };
    let kind = read_message(c, status)?;
    Ok(TrackEvent { delta, kind })
}

/// Read events from the cursor on while it stays before `end`; the cursor
/// is then at `end`.
fn read_events(c: &mut Cursor, end: u128) -> (r: Result<Vec<TrackEvent>, SmfError>)
    requires
        old(c).wf(),
    ensures
        final(c).wf(),
        final(c).data@ == old(c).data@,
        match events_from(old(c).data@, old(c).pos as int, end as int, None) {
            Ok(events) => r matches Ok(v) && v@ == events && final(c).pos == end,
            Err(e) => r matches Err(x) && x == e,
        },
{
    let ghost s = c.data@;
    let ghost start = c.pos as int;
    let mut events: Vec<TrackEvent> = Vec::new();
    let mut running: Option<u8> = None;
    while (c.pos as u128) < end
        invariant
            c.wf(),
            c.data@ == s,
            s == old(c).data@,
            start == old(c).pos,
            running_ok(running),
            events_from(s, start, end as int, None)
                == prepend(events@, events_from(s, c.pos as int, end as int, running)),
        decreases s.len() - c.pos,
    {
        let ghost pos = c.pos as int;
        let ghost run = running;
        proof {
            lemma_event_advances(s, pos, run);
        }
        let ev = read_event(c, &mut running)?;
        proof {
            let rest = events_from(s, c.pos as int, end as int, running);
            assert(events_from(s, pos, end as int, run) == prepend(seq![ev], rest));
            if let Ok(tail) = rest {
                assert(events@ + (seq![ev] + tail) =~= events@.push(ev) + tail);
            }
        }
        events.push(ev);
    }
    proof {
        assert(events@ + Seq::<TrackEvent>::empty() =~= events@);
    }
    c.pos = end as usize;
    Ok(events)
}

/// Read one track chunk; the cursor ends where the chunk's length says.
fn read_track(c: &mut Cursor) -> (r: Result<Vec<TrackEvent>, SmfError>)
    requires
        old(c).wf(),
    ensures
        final(c).wf(),
        final(c).data@ == old(c).data@,
        match track_at(old(c).data@, old(c).pos as int) {
            Ok((events, p)) => r matches Ok(v) && v@ == events && final(c).pos == p,
            Err(e) => r matches Err(x) && x == e,
        },
{
    let tag = c.bytes(4)?;
    if !(tag[0] == 0x4D && tag[1] == 0x54 && tag[2] == 0x72 && tag[3] == 0x6B) {
        proof {
            assert(tag@ != track_tag()) by {
                if tag@ == track_tag() {
                    assert(tag@[0] == track_tag()[0]);
                    assert(tag@[1] == track_tag()[1]);
                    assert(tag@[2] == track_tag()[2]);
                    assert(tag@[3] == track_tag()[3]);
                }
            }
        }
        return Err(SmfError::MissingTrack);
    }
    proof {
        assert(tag@ =~= track_tag());
    }
    let len = c.u32()?;
    let end: u128 = c.pos as u128 + len as u128;
    read_events(c, end)
}

/// Read the header chunk.
fn read_header(c: &mut Cursor) -> (r: Result<(u16, u16), SmfError>)
    requires
        old(c).wf(),
        old(c).pos == 0,
    ensures
        final(c).wf(),
        final(c).data@ == old(c).data@,
        match header_at(old(c).data@) {
            Ok((n, d, p)) => r == Ok::<(u16, u16), SmfError>((n, d)) && final(c).pos == p,
            Err(e) => r == Err::<(u16, u16), SmfError>(e),
        },
{
    let tag = c.bytes(4)?;
    if !(tag[0] == 0x4D && tag[1] == 0x54 && tag[2] == 0x68 && tag[3] == 0x64) {
        proof {
            assert(tag@ != header_tag()) by {
                if tag@ == header_tag() {
                    assert(tag@[0] == header_tag()[0]);
                    assert(tag@[1] == header_tag()[1]);
                    assert(tag@[2] == header_tag()[2]);
                    assert(tag@[3] == header_tag()[3]);
                }
            }
        }
        return Err(SmfError::NotMidi);
    }
    proof {
        assert(tag@ =~= header_tag());
    }
    if c.u32()? != 6 {
        return Err(SmfError::BadHeaderLength);
    }
    let format = c.u16()?;
    if format > 1 {
        return Err(SmfError::UnsupportedFormat(format));
    }
    let ntracks = c.u16()?;
    let division = c.u16()?;
    proof {
        assert((division & 0x8000 != 0) == (division >= 0x8000)) by (bit_vector);
    }
    if division & 0x8000 != 0 {
        return Err(SmfError::SmpteDivision);
    }
    Ok((ntracks, division))
}

/// Parse a Standard MIDI File.
pub fn parse(data: &[u8]) -> (r: Result<Smf, SmfError>)
    ensures
        match smf_spec(data@) {
            Ok(v) => r matches Ok(smf) && smf@ == v,
            Err(e) => r matches Err(x) && x == e,
        },
        r matches Ok(smf) ==> smf@.well_formed(),
{
    let mut c = Cursor { data, pos: 0 };
    let ghost s = data@;
    let (ntracks, division) = read_header(&mut c)?;
    let ghost first = c.pos as int;
    let mut tracks: Vec<Vec<TrackEvent>> = Vec::with_capacity(ntracks as usize);
    let mut t: u16 = 0;
    while t < ntracks
        invariant
            c.wf(),
            c.data@ == s,
            s == data@,
            t <= ntracks,
            smf_spec(s) == match tracks_at(s, first, ntracks as nat) {
                Ok(tracks) => Ok(SmfView { ticks_per_quarter: division, tracks }),
                Err(e) => Err(e),
            },
            tracks_at(s, first, ntracks as nat) == prepend(
                tracks@.map_values(|v: Vec<TrackEvent>| v@),
                tracks_at(s, c.pos as int, (ntracks - t) as nat),
            ),
        decreases ntracks - t,
    {
        let ghost old_view = tracks@.map_values(|v: Vec<TrackEvent>| v@);
        let events = read_track(&mut c)?;
        proof {
            let rest = tracks_at(s, c.pos as int, (ntracks - t - 1) as nat);
            if let Ok(tail) = rest {
                assert(old_view + (seq![events@] + tail) =~= old_view.push(events@) + tail);
            }
        }
        tracks.push(events);
        proof {
            assert(tracks@.map_values(|v: Vec<TrackEvent>| v@) =~= old_view.push(events@));
        }
        t = t + 1;
    }
    proof {
        let view = tracks@.map_values(|v: Vec<TrackEvent>| v@);
        assert(view + Seq::<Seq<TrackEvent>>::empty() =~= view);
        lemma_parsed_file(data@);
    }
    Ok(Smf { ticks_per_quarter: division, tracks })
}

/// 128 to the power `n`.
pub open spec fn pow128(n: nat) -> int
    decreases n,
{
    if n == 0 {
        1
    } else {
        128 * pow128((n - 1) as nat)
    }
}

proof fn lemma_be_value_2(b: Seq<u8>)
    requires
        b.len() == 2,
    ensures
        be_value(b) == b[0] * 256 + b[1],
{
    reveal_with_fuel(be_value, 3);
    assert(b.drop_last().drop_last().len() == 0);
    assert(b.drop_last().last() == b[0]);
}

proof fn lemma_be_value_4(b: Seq<u8>)
    requires
        b.len() == 4,
    ensures
        be_value(b) == ((b[0] * 256 + b[1]) * 256 + b[2]) * 256 + b[3],
{
    reveal_with_fuel(be_value, 5);
    let b3 = b.drop_last();
    let b2 = b3.drop_last();
    let b1 = b2.drop_last();
    assert(b1.drop_last().len() == 0);
    assert(b1.last() == b[0]);
    assert(b2.last() == b[1]);
    assert(b3.last() == b[2]);
}

proof fn lemma_be_value_3(b: Seq<u8>)
    requires
        b.len() == 3,
    ensures
        be_value(b) == (b[0] * 256 + b[1]) * 256 + b[2],
        be_value(b) < 0x100_0000,
{
    reveal_with_fuel(be_value, 4);
    let b2 = b.drop_last();
    let b1 = b2.drop_last();
    assert(b1.drop_last().len() == 0);
    assert(b1.last() == b[0]);
    assert(b2.last() == b[1]);
}

/// One step of the variable-length quantity reader, on machine words.
proof fn lemma_vlq_step(value: u32, b: u8, i: nat)
    requires
        i < 4,
        value < pow128(i),
    ensures
        ((value << 7) | (b & 0x7F) as u32) as int == value * 128 + b % 128,
        value * 128 + b % 128 < pow128(i + 1),
        (b & 0x80 == 0) == (b < 128),
{
    reveal_with_fuel(pow128, 5);
    assert(pow128(1) == 128);
    assert(pow128(2) == 128 * 128);
    assert(pow128(3) == 128 * 128 * 128);
    assert(pow128(4) == 128 * 128 * 128 * 128);
    assert(value < 0x200000);
    assert(value < 0x200000 ==> ((value << 7) | (b & 0x7F) as u32) == value * 128 + b % 128) by (bit_vector);
    assert((b & 0x80 == 0) == (b < 128)) by (bit_vector);
}


// ---------------------------------------------------------------------
// What every parsed file satisfies.
// ---------------------------------------------------------------------

/// The ranges that the decoder guarantees for one event: a channel is
/// 4 bits, a note-on never has velocity 0 (that is a note-off), a pitch
/// bend is within -8192..=8191, a tempo fits in 24 bits.
pub open spec fn event_well_formed(k: EventKind) -> bool {
    match k {
        EventKind::NoteOn { channel, key: _, velocity } => channel < 16 && velocity != 0,
        EventKind::NoteOff { channel, key: _ } => channel < 16,
        EventKind::ControlChange { channel, controller: _, value: _ } => channel < 16,
        EventKind::PitchBend { channel, value } => channel < 16 && -8192 <= value <= 8191,
        EventKind::Tempo { microseconds_per_quarter } => microseconds_per_quarter < 0x100_0000,
        EventKind::Other => true,
    }
}

/// Every event is well-formed and its delta time fits in the 28 bits of
/// a variable-length quantity.
pub open spec fn events_well_formed(events: Seq<TrackEvent>) -> bool {
    forall|i: int|
        0 <= i < events.len() ==> event_well_formed(#[trigger] events[i].kind) && events[i].delta
            < 0x1000_0000
}

/// A variable-length quantity holds at most 28 bits.
pub proof fn lemma_vlq_bound(s: Seq<u8>, pos: int)
    ensures
        vlq_at(s, pos) matches Ok((v, _)) ==> v < 0x1000_0000,
{
    reveal_with_fuel(pow128, 5);
    lemma_vlq_from_bound(s, pos, 0, 0);
}

proof fn lemma_vlq_from_bound(s: Seq<u8>, pos: int, acc: nat, count: nat)
    requires
        acc < pow128(count),
    ensures
        vlq_from(s, pos, acc, count) matches Ok((v, _)) ==> v < pow128(4),
    decreases 4 - count,
{
    reveal_with_fuel(pow128, 5);
    if count < 4 {
        if let Ok((b, p)) = byte_at(s, pos) {
            let acc2 = (acc * 128 + b % 128) as nat;
            assert(acc2 < pow128(count + 1)) by {
                assert(pow128(count + 1) == 128 * pow128(count));
                assert(acc * 128 + b % 128 < 128 * pow128(count)) by (nonlinear_arith)
                    requires
                        acc < pow128(count),
                        b % 128 < 128,
                ;
            }
            if b >= 128 {
                lemma_vlq_from_bound(s, p, acc2, count + 1);
            } else {
                assert(pow128(count + 1) <= pow128(4)) by {
                    assert(count + 1 <= 4);
                }
            }
        }
    }
}

impl SmfView {
    /// A division in ticks per quarter (no SMPTE) and well-formed events.
    pub open spec fn well_formed(self) -> bool {
        &&& self.ticks_per_quarter < 0x8000
        &&& forall|t: int| 0 <= t < self.tracks.len() ==> events_well_formed(#[trigger] self.tracks[t])
    }
}

/// A pitch bend is within -8192..=8191, centred on 0; with 7-bit data
/// bytes it is `msb * 128 + lsb - 8192`.
pub proof fn lemma_pitch_bend_range(lsb: u8, msb: u8)
    ensures
        -8192 <= pitch_bend_value(lsb, msb) <= 8191,
        lsb < 128 && msb < 128 ==> pitch_bend_value(lsb, msb) == msb * 128 + lsb - 8192,
{
}

proof fn lemma_message_well_formed(s: Seq<u8>, pos: int, status: u8)
    ensures
        message_at(s, pos, status) matches Ok((k, _)) ==> event_well_formed(k),
{
    if let Ok((k, _)) = message_at(s, pos, status) {
        if 0x80 <= status < 0xF0 {
            if let Ok((d, _)) = bytes_at(s, pos, channel_data_len(status)) {
                if status / 16 == 0xE {
                    lemma_pitch_bend_range(d[0], d[1]);
                }
            }
        } else if status == 0xFF {
            if let Ok((_, p1)) = byte_at(s, pos) {
                if let Ok((len, p2)) = vlq_at(s, p1) {
                    if let Ok((body, _)) = bytes_at(s, p2, len as int) {
                        if len == 3 {
                            lemma_be_value_3(body);
                        }
                    }
                }
            }
        }
    }
}

proof fn lemma_events_well_formed(s: Seq<u8>, pos: int, end: int, running: Option<u8>)
    ensures
        events_from(s, pos, end, running) matches Ok(evs) ==> events_well_formed(evs),
    decreases s.len() - pos,
{
    if pos < end {
        if let Ok((ev, p, r)) = event_at(s, pos, running) {
            lemma_event_advances(s, pos, running);
            lemma_vlq_bound(s, pos);
            lemma_events_well_formed(s, p, end, r);
            if let Ok((_, p1)) = vlq_at(s, pos) {
                lemma_message_well_formed(s, p1, s[p1]);
                lemma_message_well_formed(s, p1 + 1, s[p1]);
                if let Some(st) = running {
                    lemma_message_well_formed(s, p1, st);
                }
            }
            if let Ok(rest) = events_from(s, p, end, r) {
                let all = seq![ev] + rest;
                assert forall|i: int| 0 <= i < all.len() implies event_well_formed(#[trigger] all[i].kind)
                    && all[i].delta < 0x1000_0000 by {
                    if i > 0 {
                        assert(all[i] == rest[i - 1]);
                    }
                }
            }
        }
    }
}

proof fn lemma_tracks_facts(s: Seq<u8>, pos: int, n: nat)
    ensures
        tracks_at(s, pos, n) matches Ok(ts) ==> ts.len() == n && forall|t: int|
            0 <= t < ts.len() ==> events_well_formed(#[trigger] ts[t]),
    decreases n,
{
    if n > 0 {
        if let Ok((evs, end)) = track_at(s, pos) {
            if let Ok((_, p1)) = bytes_at(s, pos, 4) {
                if let Ok((len, p2)) = u32_at(s, p1) {
                    lemma_events_well_formed(s, p2, p2 + len, None);
                }
            }
            lemma_tracks_facts(s, end, (n - 1) as nat);
            if let Ok(rest) = tracks_at(s, end, (n - 1) as nat) {
                let all = seq![evs] + rest;
                assert forall|t: int| 0 <= t < all.len() implies events_well_formed(#[trigger] all[t]) by {
                    if t > 0 {
                        assert(all[t] == rest[t - 1]);
                    }
                }
            }
        }
    }
}

/// What a successful parse guarantees of the file and of the result: the
/// file starts with `MThd`, its header has length 6 and format 0 or 1; the
/// result has as many tracks as the header announces, the header's
/// division as ticks per quarter, and is well-formed.
pub proof fn lemma_parsed_file(s: Seq<u8>)
    ensures
        smf_spec(s) matches Ok(v) ==> {
            &&& s.len() >= 14
            &&& s.subrange(0, 4) == header_tag()
            &&& be_value(s.subrange(4, 8)) == 6
            &&& be_value(s.subrange(8, 10)) <= 1
            &&& v.tracks.len() == be_value(s.subrange(10, 12))
            &&& v.ticks_per_quarter == be_value(s.subrange(12, 14))
            &&& v.well_formed()
        },
{
    if let Ok(v) = smf_spec(s) {
        lemma_be_value_4(s.subrange(4, 8));
        lemma_be_value_2(s.subrange(8, 10));
        lemma_be_value_2(s.subrange(10, 12));
        lemma_be_value_2(s.subrange(12, 14));
        let ntracks = be_value(s.subrange(10, 12)) as u16;
        lemma_tracks_facts(s, 14, ntracks as nat);
    }
}

// ---------------------------------------------------------------------
// Lemmas about the readers.
// ---------------------------------------------------------------------

/// The number of bytes of the shortest variable-length quantity for `v`.
pub open spec fn vlq_len(v: nat) -> nat {
    if v < pow128(1) {
        1
    } else if v < pow128(2) {
        2
    } else if v < pow128(3) {
        3
    } else {
        4
    }
}

/// The shortest variable-length quantity for `v` (below 2^28): its 7-bit
/// groups, most significant first, with 0x80 set on every byte but the last.
pub open spec fn vlq_encoding(v: nat) -> Seq<u8> {
    let n = vlq_len(v);
    Seq::new(
        n,
        |i: int|
            {
                let group = (v as int / pow128((n - 1 - i) as nat)) % 128;
                if i < n - 1 {
                    (group + 128) as u8
                } else {
                    group as u8
                }
            },
    )
}

proof fn lemma_vlq_decode_from(s: Seq<u8>, v: nat, i: int)
    requires
        v < 0x1000_0000,
        vlq_encoding(v).len() <= s.len(),
        forall|j: int| 0 <= j < vlq_encoding(v).len() ==> s[j] == #[trigger] vlq_encoding(v)[j],
        0 <= i < vlq_len(v),
    ensures
        vlq_from(s, i, (v as int / pow128((vlq_len(v) - i) as nat)) as nat, i as nat) == Ok::<(u32, int), SmfError>(
            (v as u32, vlq_len(v) as int),
        ),
    decreases vlq_len(v) - i,
{
    reveal_with_fuel(pow128, 5);
    let n = vlq_len(v) as int;
    let p = pow128((n - 1 - i) as nat);
    let q = v as int / p;
    let acc = v as int / pow128((n - i) as nat);
    assert(pow128((n - i) as nat) == p * 128);
    assert(p > 0);
    vstd::arithmetic::div_mod::lemma_div_denominator(v as int, p, 128);
    vstd::arithmetic::div_mod::lemma_fundamental_div_mod(q, 128);
    assert(acc == q / 128);
    let b = s[i];
    assert(b == vlq_encoding(v)[i]);
    assert(b % 128 == q % 128);
    let acc2 = (acc * 128 + b % 128) as nat;
    assert(acc2 == q);
    if i == n - 1 {
        assert(p == 1);
        assert(b < 128);
    } else {
        assert(b >= 128);
        lemma_vlq_decode_from(s, v, i + 1);
    }
}

/// Decoding a variable-length quantity undoes its encoding and reads
/// exactly the encoding's bytes, whatever follows. (`Cursor::vlq` returns
/// what `vlq_at` gives and moves to the position it gives.)
pub proof fn lemma_vlq_round_trip(v: nat, rest: Seq<u8>)
    requires
        v < 0x1000_0000,
    ensures
        vlq_at(vlq_encoding(v) + rest, 0) == Ok::<(u32, int), SmfError>(
            (v as u32, vlq_encoding(v).len() as int),
        ),
{
    reveal_with_fuel(pow128, 5);
    let s = vlq_encoding(v) + rest;
    let n = vlq_len(v);
    assert(v < pow128(n));
    vstd::arithmetic::div_mod::lemma_basic_div_specific_divisor(pow128(n));
    assert(v as int / pow128(n) == 0);
    lemma_vlq_decode_from(s, v, 0);
}

/// What a channel message means. With status byte `0x80 + 16 * m + c`
/// (message kind `m`, channel `c` in 0..16) and data bytes `d0`, `d1`: a
/// note-on (`0x9c`) with nonzero velocity is `NoteOn { c, d0, d1 }`, a
/// note-off (`0x8c`) or a note-on with velocity 0 is `NoteOff { c, d0 }`,
/// a controller change (`0xBc`) is `ControlChange { c, d0, d1 }`, a pitch
/// bend (`0xEc`) is `PitchBend { c, d1 * 128 + d0 - 8192 }` over the 7-bit
/// groups, and the others are `Other`. Program change and channel
/// pressure take one data byte, the rest two.
pub proof fn lemma_channel_message_meaning(s: Seq<u8>, pos: int, status: u8)
    requires
        0x80 <= status < 0xF0,
        0 <= pos,
        pos + 2 <= s.len(),
    ensures
        ({
            let c = status & 0x0F;
            let m = status & 0xF0;
            let d0 = s[pos];
            let d1 = s[pos + 1];
            let k = message_at(s, pos, status).unwrap().0;
            &&& message_at(s, pos, status) is Ok
            &&& message_at(s, pos, status).unwrap().1 == pos + if m == 0xC0 || m == 0xD0 {
                1int
            } else {
                2int
            }
            &&& c < 16
            &&& m == 0x90 && d1 != 0 ==> k == EventKind::NoteOn { channel: c, key: d0, velocity: d1 }
            &&& (m == 0x80 || (m == 0x90 && d1 == 0)) ==> k == EventKind::NoteOff { channel: c, key: d0 }
            &&& m == 0xB0 ==> k == EventKind::ControlChange { channel: c, controller: d0, value: d1 }
            &&& m == 0xE0 ==> k == EventKind::PitchBend {
                channel: c,
                value: ((d1 & 0x7F) as int * 128 + (d0 & 0x7F) as int - 8192) as i16,
            }
            &&& (m == 0xA0 || m == 0xC0 || m == 0xD0) ==> k == EventKind::Other
        }),
{
    lemma_status_bits(status);
    let d0 = s[pos];
    let d1 = s[pos + 1];
    assert((d0 & 0x7F) == d0 % 128) by (bit_vector);
    assert((d1 & 0x7F) == d1 % 128) by (bit_vector);
    assert(status & 0x0F < 16) by (bit_vector);
    let n = channel_data_len(status);
    assert(s.subrange(pos, pos + n)[0] == d0);
    if n == 2 {
        assert(s.subrange(pos, pos + n)[1] == d1);
    }
}

/// A variable-length quantity that reads takes at least one byte and
/// stays within the data.
pub proof fn lemma_vlq_from_advances(s: Seq<u8>, pos: int, acc: nat, count: nat)
    ensures
        vlq_from(s, pos, acc, count) matches Ok((_, p)) ==> pos < p <= s.len(),
    decreases 4 - count,
{
    if count < 4 {
        if let Ok((b, p)) = byte_at(s, pos) {
            if b >= 128 {
                lemma_vlq_from_advances(s, p, (acc * 128 + b % 128) as nat, count + 1);
            }
        }
    }
}

/// An event that reads takes at least one byte and stays within the data,
/// so reading a track always ends.
pub proof fn lemma_event_advances(s: Seq<u8>, pos: int, running: Option<u8>)
    ensures
        event_at(s, pos, running) matches Ok((_, p, _)) ==> pos < p <= s.len(),
{
    lemma_vlq_from_advances(s, pos, 0, 0);
    if let Ok((_, p1)) = vlq_at(s, pos) {
        lemma_vlq_from_advances(s, p1, 0, 0);
        lemma_vlq_from_advances(s, p1 + 1, 0, 0);
        lemma_vlq_from_advances(s, p1 + 2, 0, 0);
    }
}

// ---------------------------------------------------------------------
// Reading depends only on the bytes read.
// ---------------------------------------------------------------------

/// `t` is a prefix of `u`.
pub open spec fn prefix_of(t: Seq<u8>, u: Seq<u8>) -> bool {
    t.len() <= u.len() && forall|i: int| 0 <= i < t.len() ==> #[trigger] t[i] == u[i]
}

/// Where the track chunks end, by the lengths in their headers: the first
/// starts at `pos`, each takes 8 bytes of header and its stated length.
pub open spec fn chunks_end(s: Seq<u8>, pos: int, n: nat) -> int
    decreases n,
{
    if n == 0 {
        pos
    } else {
        match u32_at(s, pos + 4) {
            Ok((len, _)) => chunks_end(s, pos + 8 + len, (n - 1) as nat),
            Err(_) => pos,
        }
    }
}

proof fn lemma_bytes_prefix(t: Seq<u8>, u: Seq<u8>, pos: int, n: int)
    requires
        prefix_of(t, u),
    ensures
        bytes_at(t, pos, n) matches Ok((_, p)) ==> bytes_at(u, pos, n) == bytes_at(t, pos, n) && p
            <= t.len(),
{
    if let Ok((b, p)) = bytes_at(t, pos, n) {
        assert(u.subrange(pos, pos + n) =~= t.subrange(pos, pos + n));
    }
}

proof fn lemma_vlq_from_prefix(t: Seq<u8>, u: Seq<u8>, pos: int, acc: nat, count: nat)
    requires
        prefix_of(t, u),
    ensures
        vlq_from(t, pos, acc, count) matches Ok((_, p)) ==> vlq_from(u, pos, acc, count) == vlq_from(
            t,
            pos,
            acc,
            count,
        ) && p <= t.len(),
    decreases 4 - count,
{
    if count < 4 {
        if let Ok((b, p)) = byte_at(t, pos) {
            if b >= 128 {
                lemma_vlq_from_prefix(t, u, p, (acc * 128 + b % 128) as nat, count + 1);
            }
        }
    }
}

proof fn lemma_message_prefix(t: Seq<u8>, u: Seq<u8>, pos: int, status: u8)
    requires
        prefix_of(t, u),
    ensures
        message_at(t, pos, status) matches Ok((_, p)) ==> message_at(u, pos, status) == message_at(
            t,
            pos,
            status,
        ) && p <= t.len(),
{
    lemma_bytes_prefix(t, u, pos, channel_data_len(status));
    lemma_vlq_from_prefix(t, u, pos, 0, 0);
    lemma_vlq_from_prefix(t, u, pos + 1, 0, 0);
    if let Ok((len, p1)) = vlq_at(t, pos) {
        lemma_bytes_prefix(t, u, p1, len as int);
    }
    if let Ok((len, p2)) = vlq_at(t, pos + 1) {
        lemma_bytes_prefix(t, u, p2, len as int);
    }
}

proof fn lemma_event_prefix(t: Seq<u8>, u: Seq<u8>, pos: int, running: Option<u8>)
    requires
        prefix_of(t, u),
    ensures
        event_at(t, pos, running) matches Ok((_, p, _)) ==> event_at(u, pos, running) == event_at(
            t,
            pos,
            running,
        ) && p <= t.len(),
{
    lemma_vlq_from_prefix(t, u, pos, 0, 0);
    if let Ok((_, p1)) = vlq_at(t, pos) {
        if 0 <= p1 < t.len() {
            lemma_message_prefix(t, u, p1 + 1, t[p1]);
            if let Some(st) = running {
                lemma_message_prefix(t, u, p1, st);
            }
        }
    }
}

proof fn lemma_events_prefix(t: Seq<u8>, u: Seq<u8>, pos: int, end: int, running: Option<u8>)
    requires
        prefix_of(t, u),
        0 <= pos <= t.len(),
    ensures
        events_from(t, pos, end, running) is Ok ==> events_from(u, pos, end, running) == events_from(
            t,
            pos,
            end,
            running,
        ) && (pos < end ==> end <= t.len()),
    decreases t.len() - pos,
{
    if pos < end {
        if let Ok((ev, p, r)) = event_at(t, pos, running) {
            lemma_event_advances(t, pos, running);
            lemma_event_prefix(t, u, pos, running);
            lemma_events_prefix(t, u, p, end, r);
        }
    }
}

proof fn lemma_tracks_prefix(t: Seq<u8>, u: Seq<u8>, pos: int, n: nat)
    requires
        prefix_of(t, u),
        0 <= pos <= t.len(),
    ensures
        tracks_at(t, pos, n) is Ok ==> {
            &&& tracks_at(u, pos, n) == tracks_at(t, pos, n)
            &&& chunks_end(u, pos, n) == chunks_end(t, pos, n)
            &&& chunks_end(t, pos, n) <= t.len()
        },
    decreases n,
{
    if n > 0 {
        if let Ok((evs, end)) = track_at(t, pos) {
            lemma_bytes_prefix(t, u, pos, 4);
            if let Ok((_, p1)) = bytes_at(t, pos, 4) {
                lemma_bytes_prefix(t, u, p1, 4);
                if let Ok((len, p2)) = u32_at(t, p1) {
                    lemma_events_prefix(t, u, p2, p2 + len, None);
                    assert(p1 == pos + 4);
                    assert(end == pos + 8 + len);
                    assert(end <= t.len());
                    lemma_tracks_prefix(t, u, end, (n - 1) as nat);
                }
            }
        }
    }
}

proof fn lemma_header_prefix(t: Seq<u8>, u: Seq<u8>)
    requires
        prefix_of(t, u),
    ensures
        header_at(t) matches Ok((_, _, p)) ==> header_at(u) == header_at(t) && p == 14 && p
            <= t.len(),
{
    lemma_bytes_prefix(t, u, 0, 4);
    lemma_bytes_prefix(t, u, 4, 4);
    lemma_bytes_prefix(t, u, 8, 2);
    lemma_bytes_prefix(t, u, 10, 2);
    lemma_bytes_prefix(t, u, 12, 2);
}

/// Whatever follows the last declared track is not read: appending bytes
/// to a file that parses gives the same result.
pub proof fn lemma_trailing_bytes_ignored(s: Seq<u8>, extra: Seq<u8>)
    ensures
        smf_spec(s) is Ok ==> smf_spec(s + extra) == smf_spec(s),
{
    let u = s + extra;
    assert(prefix_of(s, u));
    lemma_header_prefix(s, u);
    if let Ok((n, d, p)) = header_at(s) {
        lemma_tracks_prefix(s, u, p, n as nat);
    }
}

/// A file that parses reaches to the end of its last declared chunk, and
/// every cut before that end is refused: a cut file is never read as a
/// shorter valid one.
pub proof fn lemma_cut_file_refused(s: Seq<u8>)
    ensures
        smf_spec(s) matches Ok(v) ==> {
            let end = chunks_end(s, 14, v.tracks.len());
            &&& end <= s.len()
            &&& forall|k: int| 0 <= k < end ==> (#[trigger] smf_spec(s.take(k))) is Err
        },
{
    if let Ok(v) = smf_spec(s) {
        lemma_parsed_file(s);
        let (n, d, p) = header_at(s).unwrap();
        assert(prefix_of(s, s));
        lemma_tracks_prefix(s, s, p, n as nat);
        lemma_tracks_facts(s, p, n as nat);
        assert(p == 14);
        assert(v.tracks.len() == n);
        let end = chunks_end(s, 14, v.tracks.len());
        assert forall|k: int| 0 <= k < end implies (#[trigger] smf_spec(s.take(k))) is Err by {
            let t = s.take(k);
            if smf_spec(t) is Ok {
                assert(prefix_of(t, s));
                lemma_header_prefix(t, s);
                let (n2, d2, p2) = header_at(t).unwrap();
                lemma_tracks_prefix(t, s, p2, n2 as nat);
                assert(chunks_end(t, 14, n as nat) <= k);
            }
        }
    }
}

} // verus!
