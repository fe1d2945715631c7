//! Player-side state that the audio renderer reads: controller mapping,
//! held notes and bow noise.

use vstd::prelude::*;
use crate::smf::EventKind;

verus! {

/// Which MIDI controller numbers drive which gesture.
pub struct Mapping {
    pub expression: u8,
    pub vibrato_depth: u8,
    pub vibrato_rate: u8,
    pub portamento_time: u8,
}

impl Default for Mapping {
    fn default() -> (m: Self)
        ensures
            m.expression == 11,
            m.vibrato_depth == 1,
            m.vibrato_rate == 19,
            m.portamento_time == 5,
    {
        Mapping { expression: 11, vibrato_depth: 1, vibrato_rate: 19, portamento_time: 5 }
    }
}

/// Whether a channel filter lets through events of `channel`: `None`
/// plays every channel.
pub open spec fn accepts(filter: Option<u8>, channel: u8) -> bool {
    match filter {
        None => true,
        Some(c) => c == channel,
    }
}

/// The predicate "is not `key`".
pub open spec fn not_key(key: u8) -> spec_fn(u8) -> bool {
    |k: u8| k != key
}

/// The held notes with every occurrence of `key` removed.
pub open spec fn without(held: Seq<u8>, key: u8) -> Seq<u8> {
    held.filter(not_key(key))
}

/// The content of a `PlayerState`. Controllers that have not been sent
/// yet are `None`: the renderer then uses its own resting value.
pub struct PlayerView {
    /// Held keys, oldest first; the last one sounds.
    pub held: Seq<u8>,
    pub expression: Option<u8>,
    pub vibrato_depth: Option<u8>,
    pub vibrato_rate: Option<u8>,
    pub portamento_time: Option<u8>,
    pub pitch_bend: i16,
}

/// What one event does to the player: a note-on moves its key to the top
/// of the held stack, a note-off releases its key, a controller named in
/// the mapping sets that control (the first match in the order expression,
/// vibrato depth, vibrato rate, portamento time), a pitch bend sets the
/// bend. Events that the channel filter refuses, and all others, change
/// nothing.
pub open spec fn step(s: PlayerView, kind: EventKind, filter: Option<u8>, m: Mapping) -> PlayerView {
    match kind {
        EventKind::NoteOn { channel, key, velocity: _ } => if accepts(filter, channel) {
            PlayerView { held: without(s.held, key).push(key), ..s }
        } else {
            s
        },
        EventKind::NoteOff { channel, key } => if accepts(filter, channel) {
            PlayerView { held: without(s.held, key), ..s }
        } else {
            s
        },
        EventKind::ControlChange { channel, controller, value } => if !accepts(filter, channel) {
            s
        } else if controller == m.expression {
            PlayerView { expression: Some(value), ..s }
        } else if controller == m.vibrato_depth {
            PlayerView { vibrato_depth: Some(value), ..s }
        } else if controller == m.vibrato_rate {
            PlayerView { vibrato_rate: Some(value), ..s }
        } else if controller == m.portamento_time {
            PlayerView { portamento_time: Some(value), ..s }
        } else {
            s
        },
        EventKind::PitchBend { channel, value } => if accepts(filter, channel) {
            PlayerView { pitch_bend: value, ..s }
        } else {
            s
        },
        _ => s,
    }
}

/// The note that sounds: the most recently pressed key still held.
pub open spec fn sounding_of(held: Seq<u8>) -> Option<u8> {
    if held.len() == 0 {
        None
    } else {
        Some(held.last())
    }
}

/// The channel an event is addressed to, for the events that have one.
pub open spec fn event_channel(kind: EventKind) -> Option<u8> {
    match kind {
        EventKind::NoteOn { channel, key: _, velocity: _ } => Some(channel),
        EventKind::NoteOff { channel, key: _ } => Some(channel),
        EventKind::ControlChange { channel, controller: _, value: _ } => Some(channel),
        EventKind::PitchBend { channel, value: _ } => Some(channel),
        _ => None,
    }
}

/// A note-on that the filter lets through makes its key the sounding note;
/// every other held key stays held.
pub proof fn lemma_note_on_sounds(s: PlayerView, channel: u8, key: u8, velocity: u8, filter: Option<u8>, m: Mapping)
    requires
        accepts(filter, channel),
    ensures
        ({
            let t = step(s, EventKind::NoteOn { channel, key, velocity }, filter, m);
            &&& sounding_of(t.held) == Some(key)
            &&& forall|x: u8| #[trigger] t.held.contains(x) <==> (s.held.contains(x) || x == key)
        }),
{
    lemma_without(s.held, key);
    let w = without(s.held, key);
    let t = w.push(key);
    assert forall|x: u8| #[trigger] t.contains(x) <==> (s.held.contains(x) || x == key) by {
        if t.contains(x) && x != key {
            let i = choose|i: int| 0 <= i < t.len() && t[i] == x;
            assert(w[i] == x);
            assert(w.contains(x));
        }
        if w.contains(x) {
            let i = choose|i: int| 0 <= i < w.len() && w[i] == x;
            assert(t[i] == x);
        }
        if x == key {
            assert(t[t.len() - 1] == key);
        }
    }
}

/// A note-off that the filter lets through releases its key and only it.
pub proof fn lemma_note_off_releases(s: PlayerView, channel: u8, key: u8, filter: Option<u8>, m: Mapping)
    requires
        accepts(filter, channel),
    ensures
        ({
            let t = step(s, EventKind::NoteOff { channel, key }, filter, m);
            forall|x: u8| #[trigger] t.held.contains(x) <==> (s.held.contains(x) && x != key)
        }),
{
    lemma_without(s.held, key);
}

/// Pressing a key that is not held and releasing it again gives back the
/// state from before: after a legato neighbour note the previous note
/// sounds again.
pub proof fn lemma_press_release_restores(s: PlayerView, channel: u8, key: u8, velocity: u8, filter: Option<u8>, m: Mapping)
    requires
        accepts(filter, channel),
        !s.held.contains(key),
    ensures
        step(
            step(s, EventKind::NoteOn { channel, key, velocity }, filter, m),
            EventKind::NoteOff { channel, key },
            filter,
            m,
        ) == s,
{
    lemma_without(s.held, key);
    s.held.lemma_filter_push(key, not_key(key));
}

/// With a channel filter, an event that is not addressed to that channel
/// changes nothing.
pub proof fn lemma_other_channels_ignored(s: PlayerView, kind: EventKind, c: u8, m: Mapping)
    requires
        event_channel(kind) != Some(c),
    ensures
        step(s, kind, Some(c), m) == s,
{
}

/// No key is ever held twice.
pub proof fn lemma_step_keeps_keys_distinct(s: PlayerView, kind: EventKind, filter: Option<u8>, m: Mapping)
    requires
        s.held.no_duplicates(),
    ensures
        step(s, kind, filter, m).held.no_duplicates(),
{
    match kind {
        EventKind::NoteOn { channel, key, velocity: _ } => {
            lemma_without(s.held, key);
            let w = without(s.held, key);
            let t = w.push(key);
            assert forall|i: int, j: int| 0 <= i < t.len() && 0 <= j < t.len() && i != j implies t[i] != t[j] by {
                if i == t.len() - 1 || j == t.len() - 1 {
                    let k = if i == t.len() - 1 { j } else { i };
                    assert(w[k] == t[k]);
                    assert(w.contains(t[k]));
                }
            }
        },
        EventKind::NoteOff { channel, key } => {
            lemma_without(s.held, key);
        },
        _ => {},
    }
}

/// `kind` with its channel kept only if it is `c`: an event addressed to
/// another channel becomes `Other`.
pub open spec fn keep_channel(kind: EventKind, c: u8) -> EventKind {
    match event_channel(kind) {
        Some(ch) => if ch == c {
            kind
        } else {
            EventKind::Other
        },
        None => kind,
    }
}

/// Playing one channel is playing every channel of a list from which the
/// events of the other channels have been blanked out.
pub proof fn lemma_channel_filter_is_blanking(s: PlayerView, kind: EventKind, c: u8, m: Mapping)
    ensures
        step(s, kind, Some(c), m) == step(s, keep_channel(kind, c), None, m),
{
}

/// Whether an event leaves the player alone: it is not a note, a mapped
/// controller or a pitch bend that the filter lets through.
pub open spec fn inert(kind: EventKind, filter: Option<u8>, m: Mapping) -> bool {
    match kind {
        EventKind::ControlChange { channel, controller, value: _ } => !accepts(filter, channel) || (
        controller != m.expression && controller != m.vibrato_depth && controller != m.vibrato_rate
            && controller != m.portamento_time),
        EventKind::NoteOn { channel, key: _, velocity: _ } => !accepts(filter, channel),
        EventKind::NoteOff { channel, key: _ } => !accepts(filter, channel),
        EventKind::PitchBend { channel, value: _ } => !accepts(filter, channel),
        EventKind::Tempo { microseconds_per_quarter: _ } => true,
        EventKind::Other => true,
    }
}

/// Only notes, mapped controllers and pitch bends move the player:
/// tempo and other events, unmapped controllers and filtered-out channels
/// leave it as it was.
pub proof fn lemma_inert_events(s: PlayerView, kind: EventKind, filter: Option<u8>, m: Mapping)
    requires
        inert(kind, filter, m),
    ensures
        step(s, kind, filter, m) == s,
{
}

proof fn lemma_without_split(a: Seq<u8>, key: u8, b: Seq<u8>)
    requires
        !a.contains(key),
        !b.contains(key),
    ensures
        without(a.push(key) + b, key) == a + b,
        without(a + b, key) == a + b,
{
    lemma_without(a, key);
    lemma_without(b, key);
    a.lemma_filter_push(key, not_key(key));
    Seq::filter_distributes_over_add(a.push(key), b, not_key(key));
    Seq::filter_distributes_over_add(a, b, not_key(key));
}

/// Releasing a held key takes it out of the stack and keeps every other
/// key in its place: the stack `a + [key] + b` becomes `a + b`. So
/// releasing a key other than the sounding one leaves the sounding note as
/// it was, and releasing the sounding key brings back the key pressed
/// before it.
pub proof fn lemma_note_off_keeps_order(
    s: PlayerView,
    a: Seq<u8>,
    key: u8,
    b: Seq<u8>,
    channel: u8,
    filter: Option<u8>,
    m: Mapping,
)
    requires
        accepts(filter, channel),
        s.held == a.push(key) + b,
        !a.contains(key),
        !b.contains(key),
    ensures
        step(s, EventKind::NoteOff { channel, key }, filter, m).held == a + b,
        b.len() > 0 ==> sounding_of(step(s, EventKind::NoteOff { channel, key }, filter, m).held)
            == sounding_of(s.held),
        b.len() == 0 ==> sounding_of(step(s, EventKind::NoteOff { channel, key }, filter, m).held)
            == sounding_of(a),
{
    lemma_without_split(a, key, b);
    if b.len() > 0 {
        assert((a.push(key) + b).last() == b.last());
        assert((a + b).last() == b.last());
    } else {
        assert(a.push(key) + b =~= a.push(key));
        assert(a + b =~= a);
    }
}

/// Pressing a key puts it on top of the stack and keeps every other key in
/// its place: `a + [key] + b` becomes `a + b + [key]`, and a stack `h`
/// without the key becomes `h + [key]`.
pub proof fn lemma_note_on_keeps_order(
    s: PlayerView,
    a: Seq<u8>,
    key: u8,
    b: Seq<u8>,
    velocity: u8,
    channel: u8,
    filter: Option<u8>,
    m: Mapping,
)
    requires
        accepts(filter, channel),
        !a.contains(key),
        !b.contains(key),
        s.held == a.push(key) + b || s.held == a + b,
    ensures
        step(s, EventKind::NoteOn { channel, key, velocity }, filter, m).held == (a + b).push(key),
{
    lemma_without_split(a, key, b);
}

/// A controller change that the filter lets through, on a controller that
/// the mapping names, stores the value sent, whatever it is (0 included),
/// in the first of expression, vibrato depth, vibrato rate, portamento
/// time whose number it is; nothing else changes.
pub proof fn lemma_mapped_controller_sets_value(
    s: PlayerView,
    channel: u8,
    controller: u8,
    value: u8,
    filter: Option<u8>,
    m: Mapping,
)
    requires
        accepts(filter, channel),
    ensures
        ({
            let t = step(s, EventKind::ControlChange { channel, controller, value }, filter, m);
            &&& t.held == s.held
            &&& t.pitch_bend == s.pitch_bend
            &&& controller == m.expression ==> t.expression == Some(value)
            &&& controller != m.expression ==> t.expression == s.expression
            &&& controller != m.expression && controller == m.vibrato_depth ==> t.vibrato_depth
                == Some(value)
            &&& (controller == m.expression || controller != m.vibrato_depth) ==> t.vibrato_depth
                == s.vibrato_depth
            &&& controller != m.expression && controller != m.vibrato_depth && controller
                == m.vibrato_rate ==> t.vibrato_rate == Some(value)
            &&& (controller == m.expression || controller == m.vibrato_depth || controller
                != m.vibrato_rate) ==> t.vibrato_rate == s.vibrato_rate
            &&& controller != m.expression && controller != m.vibrato_depth && controller
                != m.vibrato_rate && controller == m.portamento_time ==> t.portamento_time
                == Some(value)
            &&& (controller == m.expression || controller == m.vibrato_depth || controller
                == m.vibrato_rate || controller != m.portamento_time) ==> t.portamento_time
                == s.portamento_time
        }),
{
}

/// A pitch bend that the filter lets through stores its value, whatever it
/// is; nothing else changes.
pub proof fn lemma_pitch_bend_sets_value(s: PlayerView, channel: u8, value: i16, filter: Option<u8>, m: Mapping)
    requires
        accepts(filter, channel),
    ensures
        step(s, EventKind::PitchBend { channel, value }, filter, m) == (PlayerView { pitch_bend: value, ..s }),
{
}

/// The controller and note state of a monophonic legato player.
pub struct PlayerState {
    held: Vec<u8>,
    expression: Option<u8>,
    vibrato_depth: Option<u8>,
    vibrato_rate: Option<u8>,
    portamento_time: Option<u8>,
    pitch_bend: i16,
}

impl View for PlayerState {
    type V = PlayerView;

    closed spec fn view(&self) -> PlayerView {
        PlayerView {
            held: self.held@,
            expression: self.expression,
            vibrato_depth: self.vibrato_depth,
            vibrato_rate: self.vibrato_rate,
            portamento_time: self.portamento_time,
            pitch_bend: self.pitch_bend,
        }
    }
}

proof fn lemma_without(h: Seq<u8>, key: u8)
    ensures
        forall|x: u8| #[trigger] without(h, key).contains(x) <==> (h.contains(x) && x != key),
        h.no_duplicates() ==> without(h, key).no_duplicates(),
        !h.contains(key) ==> without(h, key) == h,
    decreases h.len(),
{
    reveal(Seq::filter);
    if h.len() > 0 {
        let t = h.drop_last();
        lemma_without(t, key);
        assert(h =~= t.push(h.last()));
        assert forall|x: u8| #[trigger] without(h, key).contains(x) <==> (h.contains(x) && x != key) by {
            if h.contains(x) && x != key {
                if x != h.last() {
                    let i = choose|i: int| 0 <= i < h.len() && h[i] == x;
                    assert(t[i] == x);
                }
            }
            if without(h, key).contains(x) && without(t, key).contains(x) {
                assert(t.contains(x));
                let i = choose|i: int| 0 <= i < t.len() && t[i] == x;
                assert(h[i] == x);
            }
        }
        if h.no_duplicates() {
            assert(t.no_duplicates()) by {
                assert forall|i: int, j: int| 0 <= i < t.len() && 0 <= j < t.len() && i != j implies t[i] != t[j] by {
                    assert(h[i] == t[i] && h[j] == t[j]);
                }
            }
            if h.last() != key {
                assert(!t.contains(h.last())) by {
                    if t.contains(h.last()) {
                        let i = choose|i: int| 0 <= i < t.len() && t[i] == h.last();
                        assert(h[i] == h[h.len() - 1]);
                    }
                }
                assert(!without(t, key).contains(h.last()));
            }
        }
    } else {
        assert(without(h, key) =~= h);
    }
}

impl PlayerState {
    #[verifier::type_invariant]
    spec fn distinct_held(self) -> bool {
        self.held@.no_duplicates()
    }

    /// No note held, no controller sent, pitch bend centred.
    pub fn new() -> (r: Self)
        ensures
            r@ == (PlayerView {
                held: Seq::empty(),
                expression: None,
                vibrato_depth: None,
                vibrato_rate: None,
                portamento_time: None,
                pitch_bend: 0,
            }),
    {
        PlayerState {
            held: Vec::new(),
            expression: None,
            vibrato_depth: None,
            vibrato_rate: None,
            portamento_time: None,
            pitch_bend: 0,
        }
    }

    /// The held keys, oldest first; no key occurs twice.
    pub fn held(&self) -> (r: &Vec<u8>)
        ensures
            r@ == self@.held,
            r@.no_duplicates(),
    {
        proof {
            use_type_invariant(self);
        }
        &self.held
    }

    /// The note that sounds, if any: the last key held.
    pub fn sounding(&self) -> (r: Option<u8>)
        ensures
            r == sounding_of(self@.held),
    {
        if self.held.len() == 0 {
            None
        } else {
            Some(self.held[self.held.len() - 1])
        }
    }

    /// The last expression value received, if any.
    pub fn expression(&self) -> (r: Option<u8>)
        ensures
            r == self@.expression,
    {
        self.expression
    }

    /// The last vibrato-depth value received, if any.
    pub fn vibrato_depth(&self) -> (r: Option<u8>)
        ensures
            r == self@.vibrato_depth,
    {
        self.vibrato_depth
    }

    /// The last vibrato-rate value received, if any.
    pub fn vibrato_rate(&self) -> (r: Option<u8>)
        ensures
            r == self@.vibrato_rate,
    {
        self.vibrato_rate
    }

    /// The last portamento-time value received, if any.
    pub fn portamento_time(&self) -> (r: Option<u8>)
        ensures
            r == self@.portamento_time,
    {
        self.portamento_time
    }

    /// The last pitch-bend value received (0 before any).
    pub fn pitch_bend(&self) -> (r: i16)
        ensures
            r == self@.pitch_bend,
    {
        self.pitch_bend
    }

    /// Apply one event, keeping only those of `channel` (all when `None`).
    pub fn apply(&mut self, kind: EventKind, channel: Option<u8>, mapping: &Mapping)
        ensures
            final(self)@ == step(old(self)@, kind, channel, *mapping),
            final(self)@.held.no_duplicates(),
    {
        proof {
            use_type_invariant(&*self);
        }
        let pass = |c: u8| -> (b: bool)
            ensures
                b == accepts(channel, c),
            {
                match channel {
                    None => true,
                    Some(f) => f == c,
                }
            };
        match kind {
            EventKind::NoteOn { channel: ch, key, .. } => {
                if pass(ch) {
                    let mut held = without_key(&self.held, key);
                    proof {
                        lemma_without(self.held@, key);
                    }
                    held.push(key);
                    proof {
                        assert forall|i: int, j: int|
                            0 <= i < held@.len() && 0 <= j < held@.len() && i != j implies held@[i]
                            != held@[j] by {
                            if i == held@.len() - 1 || j == held@.len() - 1 {
                                let k = if i == held@.len() - 1 { j } else { i };
                                assert(without(self.held@, key)[k] == held@[k]);
                                assert(without(self.held@, key).contains(held@[k]));
                            }
                        }
                    }
                    self.held = held;
                }
            },
            EventKind::NoteOff { channel: ch, key } => {
                if pass(ch) {
                    let held = without_key(&self.held, key);
                    proof {
                        lemma_without(self.held@, key);
                    }
                    self.held = held;
                }
            },
            EventKind::ControlChange { channel: ch, controller, value } => {
                if pass(ch) {
                    if controller == mapping.expression {
                        self.expression = Some(value);
                    } else if controller == mapping.vibrato_depth {
                        self.vibrato_depth = Some(value);
                    } else if controller == mapping.vibrato_rate {
                        self.vibrato_rate = Some(value);
                    } else if controller == mapping.portamento_time {
                        self.portamento_time = Some(value);
                    }
                }
            },
            EventKind::PitchBend { channel: ch, value } => {
                if pass(ch) {
                    self.pitch_bend = value;
                }
            },
            _ => {},
        }
        proof {
            use_type_invariant(&*self);
        }
    }
}

/// `held` with every occurrence of `key` removed, order kept.
fn without_key(held: &Vec<u8>, key: u8) -> (r: Vec<u8>)
    ensures
        r@ == without(held@, key),
{
    let mut r: Vec<u8> = Vec::new();
    let mut i: usize = 0;
    while i < held.len()
        invariant
            i <= held.len(),
            r@ == without(held@.take(i as int), key),
        decreases held.len() - i,
    {
        let k = held[i];
        proof {
            assert(held@.take(i + 1) =~= held@.take(i as int).push(k));
            held@.take(i as int).lemma_filter_push(k, not_key(key));
        }
        if k != key {
            r.push(k);
        }
        i = i + 1;
    }
    assert(held@.take(held.len() as int) =~= held@);
    r
}

/// One step of the xorshift32 generator.
pub open spec fn xorshift32_spec(x: u32) -> u32 {
    let a = x ^ (x << 13u32);
    let b = a ^ (a >> 17u32);
    b ^ (b << 5u32)
}

/// One step of the xorshift32 generator behind the bow noise. A nonzero
/// state never falls to zero.
pub fn xorshift32(x: u32) -> (r: u32)
    ensures
        r == xorshift32_spec(x),
        x != 0 ==> r != 0,
{
    let mut v = x;
    v = v ^ (v << 13);
    v = v ^ (v >> 17);
    v = v ^ (v << 5);
    proof {
        let a = x ^ (x << 13u32);
        let b = a ^ (a >> 17u32);
        assert(x != 0 ==> a != 0) by (bit_vector)
            requires
                a == x ^ (x << 13u32),
        ;
        assert(a != 0 ==> b != 0) by (bit_vector)
            requires
                b == a ^ (a >> 17u32),
        ;
        assert(b != 0 ==> b ^ (b << 5u32) != 0) by (bit_vector);
    }
    v
}

} // verus!
