//! Merge SMF tracks into one event list in tick order and resolve which
//! tempo governs the time before each event (120 BPM, 500 000 us per
//! quarter, until the first tempo event). Turning ticks into seconds is
//! left to the caller.

use vstd::prelude::*;
use crate::smf::{EventKind, Smf, SmfView, TrackEvent};

verus! {

broadcast use vstd::seq_lib::group_to_multiset_ensures;

/// An event at its absolute tick, with the track and the position in the
/// track that it came from.
#[derive(Debug, Clone, Copy, PartialEq, Eq, Structural)]
pub struct TickEvent {
    pub tick: u128,
    pub track: usize,
    pub index: usize,
    pub kind: EventKind,
}

/// The ticks since the previous event and the tempo that governs them.
#[derive(Debug, Clone, Copy, PartialEq, Eq, Structural)]
pub struct TempoSpan {
    pub ticks: u128,
    pub microseconds_per_quarter: u32,
}

/// Tempo before the first tempo event: 120 BPM.
pub const DEFAULT_MICROSECONDS_PER_QUARTER: u32 = 500_000;

/// Sum of the delta times of the first `n` events of a track.
pub open spec fn ticks_through(track: Seq<TrackEvent>, n: int) -> int
    decreases n,
{
    if n <= 0 || n > track.len() {
        0
    } else {
        ticks_through(track, n - 1) + track[n - 1].delta
    }
}

/// The events of track `ti`, each at its absolute tick.
pub open spec fn track_entries(track: Seq<TrackEvent>, ti: int) -> Seq<TickEvent> {
    Seq::new(
        track.len(),
        |ei: int|
            TickEvent {
                tick: ticks_through(track, ei + 1) as u128,
                track: ti as usize,
                index: ei as usize,
                kind: track[ei].kind,
            },
    )
}

/// The events of the first `n` tracks, track by track.
pub open spec fn all_entries(tracks: Seq<Seq<TrackEvent>>, n: int) -> Seq<TickEvent>
    decreases n,
{
    if n <= 0 || n > tracks.len() {
        Seq::empty()
    } else {
        all_entries(tracks, n - 1) + track_entries(tracks[n - 1], n - 1)
    }
}

/// The order of the merged list: by tick, then by track, then by position
/// in the track.
pub open spec fn key_lt(a: TickEvent, b: TickEvent) -> bool {
    ||| a.tick < b.tick
    ||| (a.tick == b.tick && a.track < b.track)
    ||| (a.tick == b.tick && a.track == b.track && a.index < b.index)
}

pub open spec fn strictly_sorted(s: Seq<TickEvent>) -> bool {
    forall|i: int, j: int| 0 <= i < j < s.len() ==> key_lt(#[trigger] s[i], #[trigger] s[j])
}

/// The tempo in force before event `k`: that of the last tempo event
/// before it, or the default.
pub open spec fn tempo_before(events: Seq<TickEvent>, k: int) -> u32
    decreases k,
{
    if k <= 0 || k > events.len() {
        DEFAULT_MICROSECONDS_PER_QUARTER
    } else {
        match events[k - 1].kind {
            EventKind::Tempo { microseconds_per_quarter } => microseconds_per_quarter,
            _ => tempo_before(events, k - 1),
        }
    }
}

/// The tick of the event before `k`, or 0 for the first.
pub open spec fn previous_tick(events: Seq<TickEvent>, k: int) -> int {
    if k <= 0 {
        0
    } else {
        events[k - 1].tick as int
    }
}

/// What `tempo_spans` gives for a list of events.
pub open spec fn spans_of(events: Seq<TickEvent>, spans: Seq<TempoSpan>) -> bool {
    &&& spans.len() == events.len()
    &&& forall|k: int|
        0 <= k < events.len() ==> {
            &&& (#[trigger] spans[k]).ticks == events[k].tick - previous_tick(events, k)
            &&& spans[k].microseconds_per_quarter == tempo_before(events, k)
        }
}

fn key_less(a: &TickEvent, b: &TickEvent) -> (r: bool)
    ensures
        r == key_lt(*a, *b),
{
    a.tick < b.tick || (a.tick == b.tick && (a.track < b.track || (a.track == b.track && a.index
        < b.index)))
}

proof fn lemma_ticks_through_monotone(track: Seq<TrackEvent>, i: int, j: int)
    requires
        0 <= i <= j <= track.len(),
    ensures
        ticks_through(track, i) <= ticks_through(track, j),
    decreases j - i,
{
    if i < j {
        lemma_ticks_through_monotone(track, i, j - 1);
    }
}

proof fn lemma_ticks_through_bound(track: Seq<TrackEvent>, n: int)
    requires
        0 <= n <= track.len(),
    ensures
        0 <= ticks_through(track, n) <= n * 0xFFFF_FFFF,
    decreases n,
{
    if n > 0 {
        lemma_ticks_through_bound(track, n - 1);
        assert((n - 1) * 0xFFFF_FFFF + 0xFFFF_FFFF == n * 0xFFFF_FFFF) by (nonlinear_arith);
    }
}

proof fn lemma_track_entries_sorted(track: Seq<TrackEvent>, ti: int)
    requires
        track.len() <= usize::MAX,
    ensures
        strictly_sorted(track_entries(track, ti)),
{
    let e = track_entries(track, ti);
    assert forall|i: int, j: int| 0 <= i < j < e.len() implies key_lt(#[trigger] e[i], #[trigger] e[j]) by {
        lemma_ticks_through_monotone(track, i + 1, j + 1);
        lemma_ticks_through_bound(track, i + 1);
        lemma_ticks_through_bound(track, j + 1);
        assert((i + 1) * 0xFFFF_FFFF <= (j + 1) * 0xFFFF_FFFF) by (nonlinear_arith)
            requires
                i < j,
        ;
        assert((j + 1) * 0xFFFF_FFFF <= 0x1_0000_0000_0000_0000 * 0xFFFF_FFFF) by (nonlinear_arith)
            requires
                j + 1 <= 0x1_0000_0000_0000_0000,
        ;
        assert(e[i].tick == ticks_through(track, i + 1));
        assert(e[j].tick == ticks_through(track, j + 1));
    }
}

/// The events of one track at their absolute ticks.
fn entries_of_track(track: &Vec<TrackEvent>, ti: usize) -> (r: Vec<TickEvent>)
    ensures
        r@ == track_entries(track@, ti as int),
{
    let mut r: Vec<TickEvent> = Vec::new();
    let mut tick: u128 = 0;
    let mut ei: usize = 0;
    while ei < track.len()
        invariant
            ei <= track.len(),
            tick == ticks_through(track@, ei as int),
            tick <= ei * 0xFFFF_FFFF,
            r@ =~= track_entries(track@, ti as int).take(ei as int),
        decreases track.len() - ei,
    {
        let ev = track[ei];
        proof {
            assert(tick + ev.delta <= (ei + 1) * 0xFFFF_FFFF) by (nonlinear_arith)
                requires
                    tick <= ei * 0xFFFF_FFFF,
                    ev.delta <= 0xFFFF_FFFF,
            ;
            assert((ei + 1) * 0xFFFF_FFFF <= 0x1_0000_0000_0000_0000 * 0xFFFF_FFFF) by (nonlinear_arith)
                requires
                    ei < 0x1_0000_0000_0000_0000,
            ;
        }
        tick = tick + ev.delta as u128;
        r.push(TickEvent { tick, track: ti, index: ei, kind: ev.kind });
        ei = ei + 1;
    }
    r
}

/// Merge two lists sorted by `key_lt` whose keys differ pairwise.
fn merge(a: &Vec<TickEvent>, b: &Vec<TickEvent>) -> (c: Vec<TickEvent>)
    requires
        strictly_sorted(a@),
        strictly_sorted(b@),
        forall|p: int, q: int|
            0 <= p < a@.len() && 0 <= q < b@.len() ==> key_lt(#[trigger] a@[p], #[trigger] b@[q])
                || key_lt(b@[q], a@[p]),
    ensures
        strictly_sorted(c@),
        c@.to_multiset() =~= a@.to_multiset().add(b@.to_multiset()),
        forall|k: int| 0 <= k < c@.len() ==> a@.contains(#[trigger] c@[k]) || b@.contains(c@[k]),
{
    broadcast use vstd::multiset::group_multiset_axioms;

    let mut c: Vec<TickEvent> = Vec::new();
    let mut i: usize = 0;
    let mut j: usize = 0;
    while i < a.len() || j < b.len()
        invariant
            i <= a.len(),
            j <= b.len(),
            c.len() == i + j,
            strictly_sorted(a@),
            strictly_sorted(b@),
            forall|p: int, q: int|
                0 <= p < a@.len() && 0 <= q < b@.len() ==> key_lt(#[trigger] a@[p], #[trigger] b@[q])
                    || key_lt(b@[q], a@[p]),
            strictly_sorted(c@),
            c@.to_multiset() =~= a@.take(i as int).to_multiset().add(b@.take(j as int).to_multiset()),
            forall|k: int| 0 <= k < c@.len() ==> a@.contains(#[trigger] c@[k]) || b@.contains(c@[k]),
            c.len() > 0 && i < a.len() ==> key_lt(c@.last(), a@[i as int]),
            c.len() > 0 && j < b.len() ==> key_lt(c@.last(), b@[j as int]),
        decreases a.len() + b.len() - i - j,
    {
        let ghost old_c = c@;
        if j >= b.len() || (i < a.len() && key_less(&a[i], &b[j])) {
            let x = a[i];
            assert(a@.take(i + 1) =~= a@.take(i as int).push(x));
            assert(a@.contains(x)) by {
                assert(a@[i as int] == x);
            }
            c.push(x);
            i = i + 1;
        } else {
            let x = b[j];
            assert(b@.take(j + 1) =~= b@.take(j as int).push(x));
            assert(b@.contains(x)) by {
                assert(b@[j as int] == x);
            }
            c.push(x);
            j = j + 1;
        }
        assert(c@ =~= old_c.push(c@.last()));
    }
    assert(a@.take(a.len() as int) =~= a@);
    assert(b@.take(b.len() as int) =~= b@);
    c
}

/// All events of all tracks in one list, ordered by absolute tick; events
/// at the same tick keep file order (track, then position in the track).
pub fn merge_tracks(smf: &Smf) -> (r: Vec<TickEvent>)
    ensures
        strictly_sorted(r@),
        r@.to_multiset() =~= all_entries(smf@.tracks, smf@.tracks.len() as int).to_multiset(),
{
    broadcast use vstd::multiset::group_multiset_axioms;

    let mut merged: Vec<TickEvent> = Vec::new();
    let mut ti: usize = 0;
    while ti < smf.tracks.len()
        invariant
            ti <= smf.tracks.len(),
            strictly_sorted(merged@),
            merged@.to_multiset() =~= all_entries(smf@.tracks, ti as int).to_multiset(),
            forall|k: int| 0 <= k < merged@.len() ==> (#[trigger] merged@[k]).track < ti,
        decreases smf.tracks.len() - ti,
    {
        let entries = entries_of_track(&smf.tracks[ti], ti);
        proof {
            assert(smf@.tracks[ti as int] == smf.tracks@[ti as int]@);
            assert(smf.tracks@[ti as int]@.len() == smf.tracks@[ti as int].len());
            lemma_track_entries_sorted(smf@.tracks[ti as int], ti as int);
            vstd::seq_lib::lemma_multiset_commutative(
                all_entries(smf@.tracks, ti as int),
                entries@,
            );
        }
        let ghost old_merged = merged@;
        merged = merge(&merged, &entries);
        proof {
            assert forall|k: int| 0 <= k < merged@.len() implies (#[trigger] merged@[k]).track < ti
                + 1 by {
                if old_merged.contains(merged@[k]) {
                    let p = choose|p: int| 0 <= p < old_merged.len() && old_merged[p] == merged@[k];
                    assert(old_merged[p].track < ti);
                } else {
                    let q = choose|q: int| 0 <= q < entries@.len() && entries@[q] == merged@[k];
                    assert(entries@[q].track == ti);
                }
            }
        }
        ti = ti + 1;
    }
    merged
}

/// For each event, the ticks since the previous one (the first counts from
/// tick 0) and the tempo that governs them.
pub fn tempo_spans(events: &Vec<TickEvent>) -> (r: Vec<TempoSpan>)
    requires
        forall|i: int, j: int|
            0 <= i <= j < events@.len() ==> (#[trigger] events@[i]).tick <= (#[trigger] events@[j]).tick,
    ensures
        spans_of(events@, r@),
{
    let mut r: Vec<TempoSpan> = Vec::new();
    let mut us_per_quarter: u32 = DEFAULT_MICROSECONDS_PER_QUARTER;
    let mut prev_tick: u128 = 0;
    let mut k: usize = 0;
    while k < events.len()
        invariant
            k <= events.len(),
            forall|i: int, j: int|
                0 <= i <= j < events@.len() ==> (#[trigger] events@[i]).tick <= (#[trigger] events@[j]).tick,
            prev_tick == previous_tick(events@, k as int),
            us_per_quarter == tempo_before(events@, k as int),
            spans_of(events@.take(k as int), r@),
        decreases events.len() - k,
    {
        let ev = events[k];
        proof {
            if k > 0 {
                assert(events@[k - 1].tick <= events@[k as int].tick);
            }
        }
        let ghost old_r = r@;
        r.push(TempoSpan { ticks: ev.tick - prev_tick, microseconds_per_quarter: us_per_quarter });
        proof {
            let t = events@.take(k + 1);
            assert forall|m: int| 0 <= m < t.len() implies {
                &&& (#[trigger] r@[m]).ticks == t[m].tick - previous_tick(t, m)
                &&& r@[m].microseconds_per_quarter == tempo_before(t, m)
            } by {
                lemma_tempo_before_prefix(events@, k + 1, m);
                if m < k {
                    assert(old_r[m] == r@[m]);
                    assert(events@.take(k as int)[m] == t[m]);
                    lemma_tempo_before_prefix(events@, k as int, m);
                }
            }
        }
        prev_tick = ev.tick;
        if let EventKind::Tempo { microseconds_per_quarter } = ev.kind {
            us_per_quarter = microseconds_per_quarter;
        }
        k = k + 1;
    }
    assert(events@.take(k as int) =~= events@);
    r
}

/// The tempo before an event depends only on the events before it.
proof fn lemma_tempo_before_prefix(events: Seq<TickEvent>, n: int, m: int)
    requires
        0 <= m < n <= events.len(),
    ensures
        tempo_before(events.take(n), m) == tempo_before(events, m),
    decreases m,
{
    if m > 0 {
        lemma_tempo_before_prefix(events, n, m - 1);
    }
}

/// The merged list of a file and the tempo span before each of its events.
pub fn tick_timeline(smf: &Smf) -> (r: (Vec<TickEvent>, Vec<TempoSpan>))
    ensures
        strictly_sorted(r.0@),
        r.0@.to_multiset() =~= all_entries(smf@.tracks, smf@.tracks.len() as int).to_multiset(),
        spans_of(r.0@, r.1@),
{
    let events = merge_tracks(smf);
    assert forall|i: int, j: int| 0 <= i <= j < events@.len() implies (#[trigger] events@[i]).tick
        <= (#[trigger] events@[j]).tick by {
        if i < j {
            assert(key_lt(events@[i], events@[j]));
        }
    }
    let spans = tempo_spans(&events);
    (events, spans)
}

/// Every entry of the merged list is the event at its index in its track,
/// at that event's absolute tick.
pub proof fn lemma_entry_origin(tracks: Seq<Seq<TrackEvent>>, n: int, x: TickEvent)
    requires
        0 <= n <= tracks.len() <= usize::MAX,
        forall|t: int| 0 <= t < tracks.len() ==> (#[trigger] tracks[t]).len() <= usize::MAX,
        all_entries(tracks, n).contains(x),
    ensures
        0 <= x.track < n,
        0 <= x.index < tracks[x.track as int].len(),
        x == track_entries(tracks[x.track as int], x.track as int)[x.index as int],
    decreases n,
{
    let prev = all_entries(tracks, n - 1);
    let e = track_entries(tracks[n - 1], n - 1);
    assert(all_entries(tracks, n) == prev + e);
    let i = choose|i: int| 0 <= i < (prev + e).len() && (prev + e)[i] == x;
    if i < prev.len() {
        assert(prev[i] == x);
        lemma_entry_origin(tracks, n - 1, x);
    } else {
        let q = i - prev.len();
        assert(e[q] == x);
        assert(tracks[n - 1].len() <= usize::MAX);
        assert(x.track == n - 1);
        assert(x.index == q);
    }
}

/// Events of one track keep their order in the merged list (so do events
/// at the same tick: the list is ordered by tick, then track, then
/// position).
pub proof fn lemma_track_order_kept(smf: SmfView, r: Seq<TickEvent>)
    requires
        smf.tracks.len() <= usize::MAX,
        forall|t: int| 0 <= t < smf.tracks.len() ==> (#[trigger] smf.tracks[t]).len() <= usize::MAX,
        strictly_sorted(r),
        r.to_multiset() =~= all_entries(smf.tracks, smf.tracks.len() as int).to_multiset(),
    ensures
        forall|i: int, j: int|
            0 <= i < j < r.len() && (#[trigger] r[i]).track == (#[trigger] r[j]).track ==> r[i].index
                < r[j].index,
{
    let all = all_entries(smf.tracks, smf.tracks.len() as int);
    assert forall|i: int, j: int|
        0 <= i < j < r.len() && (#[trigger] r[i]).track == (#[trigger] r[j]).track implies r[i].index
        < r[j].index by {
        let x = r[i];
        let y = r[j];
        assert(r.contains(x));
        assert(r.contains(y));
        assert(r.to_multiset().count(x) > 0);
        assert(r.to_multiset().count(y) > 0);
        assert(all.to_multiset().count(x) > 0);
        assert(all.to_multiset().count(y) > 0);
        assert(all.contains(x));
        assert(all.contains(y));
        lemma_entry_origin(smf.tracks, smf.tracks.len() as int, x);
        lemma_entry_origin(smf.tracks, smf.tracks.len() as int, y);
        let track = smf.tracks[x.track as int];
        let a = x.index as int;
        let b = y.index as int;
        assert(key_lt(x, y));
        if a >= b {
            lemma_ticks_through_monotone(track, b + 1, a + 1);
            lemma_ticks_through_bound(track, a + 1);
            assert((a + 1) * 0xFFFF_FFFF <= 0x1_0000_0000_0000_0000 * 0xFFFF_FFFF) by (nonlinear_arith)
                requires
                    a + 1 <= 0x1_0000_0000_0000_0000,
            ;
            lemma_ticks_through_bound(track, b + 1);
            assert(x.tick == ticks_through(track, a + 1));
            assert(y.tick == ticks_through(track, b + 1));
        }
    }
}

/// Sum of the span ticks of the first `k` spans.
pub open spec fn span_total(spans: Seq<TempoSpan>, k: int) -> int
    decreases k,
{
    if k <= 0 || k > spans.len() {
        0
    } else {
        span_total(spans, k - 1) + spans[k - 1].ticks
    }
}

/// The spans add up: the ticks of the spans up to and including event `k`
/// are the tick of event `k`.
pub proof fn lemma_spans_add_up(events: Seq<TickEvent>, spans: Seq<TempoSpan>, k: int)
    requires
        spans_of(events, spans),
        0 <= k < events.len(),
    ensures
        span_total(spans, k + 1) == events[k].tick,
    decreases k,
{
    assert(spans[k].ticks == events[k].tick - previous_tick(events, k));
    assert(span_total(spans, k + 1) == span_total(spans, k) + spans[k].ticks);
    if k > 0 {
        lemma_spans_add_up(events, spans, k - 1);
        assert(span_total(spans, k) == events[k - 1].tick);
    }
}

/// Until the first tempo event the tempo is 120 BPM.
pub proof fn lemma_default_tempo(events: Seq<TickEvent>, k: int)
    requires
        0 <= k <= events.len(),
        forall|m: int| 0 <= m < k ==> !((#[trigger] events[m]).kind is Tempo),
    ensures
        tempo_before(events, k) == DEFAULT_MICROSECONDS_PER_QUARTER,
    decreases k,
{
    if k > 0 {
        assert(!(events[k - 1].kind is Tempo));
        lemma_default_tempo(events, k - 1);
    }
}

/// The tempo of a span is 120 BPM before any event; after a tempo event it
/// is that event's tempo, wherever the event stands in its track; after
/// any other event it is the tempo of the span before.
pub proof fn lemma_tempo_follows_tempo_events(events: Seq<TickEvent>, spans: Seq<TempoSpan>)
    requires
        spans_of(events, spans),
    ensures
        events.len() > 0 ==> spans[0].microseconds_per_quarter == DEFAULT_MICROSECONDS_PER_QUARTER,
        forall|k: int|
            1 <= k < events.len() ==> (#[trigger] events[k - 1].kind matches EventKind::Tempo {
                microseconds_per_quarter,
            } ==> spans[k].microseconds_per_quarter == microseconds_per_quarter),
        forall|k: int|
            1 <= k < events.len() && !(#[trigger] events[k - 1].kind is Tempo) ==> spans[k].microseconds_per_quarter
                == spans[k - 1].microseconds_per_quarter,
{
    assert forall|k: int|
        1 <= k < events.len() && !(#[trigger] events[k - 1].kind is Tempo) implies spans[k].microseconds_per_quarter
        == spans[k - 1].microseconds_per_quarter by {
        assert(spans[k].microseconds_per_quarter == tempo_before(events, k));
        assert(spans[k - 1].microseconds_per_quarter == tempo_before(events, k - 1));
    }
    assert forall|k: int|
        1 <= k < events.len() implies (#[trigger] events[k - 1].kind matches EventKind::Tempo {
            microseconds_per_quarter,
        } ==> spans[k].microseconds_per_quarter == microseconds_per_quarter) by {
        assert(spans[k].microseconds_per_quarter == tempo_before(events, k));
    }
    if events.len() > 0 {
        assert(spans[0].microseconds_per_quarter == tempo_before(events, 0));
    }
}

/// Every event of every track is among the entries of the tracks up to it.
proof fn lemma_entry_in_all(tracks: Seq<Seq<TrackEvent>>, n: int, t: int, i: int)
    requires
        0 <= t < n <= tracks.len(),
        0 <= i < tracks[t].len(),
    ensures
        all_entries(tracks, n).contains(track_entries(tracks[t], t)[i]),
    decreases n,
{
    let prev = all_entries(tracks, n - 1);
    let e = track_entries(tracks[n - 1], n - 1);
    assert(all_entries(tracks, n) == prev + e);
    if t < n - 1 {
        lemma_entry_in_all(tracks, n - 1, t, i);
        let j = choose|j: int| 0 <= j < prev.len() && prev[j] == track_entries(tracks[t], t)[i];
        assert((prev + e)[j] == prev[j]);
    } else {
        assert((prev + e)[prev.len() + i] == e[i]);
    }
}

/// Absolute ticks accumulate every delta time of a track, whatever the
/// kind of the event that carries it: in the merged list the first event
/// of a track stands at its own delta, and every later one stands its
/// delta after the event before it in the same track, which is in the list
/// too. Each entry carries the kind of the event it stands for.
pub proof fn lemma_merged_ticks_accumulate(smf: SmfView, r: Seq<TickEvent>)
    requires
        smf.tracks.len() <= usize::MAX,
        forall|t: int| 0 <= t < smf.tracks.len() ==> (#[trigger] smf.tracks[t]).len() <= usize::MAX,
        r.to_multiset() =~= all_entries(smf.tracks, smf.tracks.len() as int).to_multiset(),
    ensures
        forall|k: int|
            0 <= k < r.len() ==> {
                let x = #[trigger] r[k];
                let track = smf.tracks[x.track as int];
                &&& x.track < smf.tracks.len()
                &&& x.index < track.len()
                &&& x.kind == track[x.index as int].kind
                &&& x.index == 0 ==> x.tick == track[0].delta
                &&& x.index > 0 ==> exists|j: int|
                    0 <= j < r.len() && (#[trigger] r[j]).track == x.track && r[j].index == x.index
                        - 1 && x.tick == r[j].tick + track[x.index as int].delta
            },
{
    let all = all_entries(smf.tracks, smf.tracks.len() as int);
    assert forall|k: int|
        0 <= k < r.len() implies {
            let x = #[trigger] r[k];
            let track = smf.tracks[x.track as int];
            &&& x.track < smf.tracks.len()
            &&& x.index < track.len()
            &&& x.kind == track[x.index as int].kind
            &&& x.index == 0 ==> x.tick == track[0].delta
            &&& x.index > 0 ==> exists|j: int|
                0 <= j < r.len() && (#[trigger] r[j]).track == x.track && r[j].index == x.index - 1
                    && x.tick == r[j].tick + track[x.index as int].delta
        } by {
        let x = r[k];
        assert(r.contains(x));
        assert(r.to_multiset().count(x) > 0);
        assert(all.to_multiset().count(x) > 0);
        lemma_entry_origin(smf.tracks, smf.tracks.len() as int, x);
        let t = x.track as int;
        let i = x.index as int;
        let track = smf.tracks[t];
        lemma_ticks_through_bound(track, i + 1);
        assert((i + 1) * 0xFFFF_FFFF <= 0x1_0000_0000_0000_0000 * 0xFFFF_FFFF) by (nonlinear_arith)
            requires
                i + 1 <= 0x1_0000_0000_0000_0000,
        ;
        assert(x.tick == ticks_through(track, i + 1));
        assert(x.kind == track[i].kind);
        if i == 0 {
            assert(ticks_through(track, 0) == 0);
            assert(ticks_through(track, 1) == track[0].delta);
        }
        if i > 0 {
            lemma_entry_in_all(smf.tracks, smf.tracks.len() as int, t, i - 1);
            let y = track_entries(track, t)[i - 1];
            assert(all.to_multiset().count(y) > 0);
            assert(r.to_multiset().count(y) > 0);
            assert(r.contains(y));
            let j = choose|j: int| 0 <= j < r.len() && r[j] == y;
            lemma_ticks_through_bound(track, i);
            assert(y.tick == ticks_through(track, i));
            assert(ticks_through(track, i + 1) == ticks_through(track, i) + track[i].delta);
            assert(r[j].track == x.track && r[j].index == x.index - 1 && x.tick == r[j].tick
                + track[x.index as int].delta);
            assert(exists|j: int|
                0 <= j < r.len() && (#[trigger] r[j]).track == x.track && r[j].index == x.index - 1
                    && x.tick == r[j].tick + track[x.index as int].delta);
        }
    }
}

} // verus!
