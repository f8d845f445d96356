//! MIDI events built from population dynamics, chords, and text export.

use vstd::prelude::*;
use crate::text::{
    decimal, zero_padded, push_decimal, push_zero_padded, no_newline, split_lines,
    lemma_decimal_no_newline, lemma_split_lines_break, lemma_split_lines_single,
};

verus! {

/// A single MIDI event.
#[derive(Debug, Clone, Copy, PartialEq, Eq, Structural)]
pub struct MidiEvent {
    /// MIDI tick / time offset.
    pub tick: u32,
    /// MIDI note number (0-127).
    pub note: u8,
    /// Velocity (0-127).
    pub velocity: u8,
    /// Duration in ticks.
    pub duration: u32,
    /// Channel (0-15).
    pub channel: u8,
}

// ---------------------------------------------------------------------------
// Text export
// ---------------------------------------------------------------------------

/// One event as a line of text:
/// `t=<tick, 5 digits> ch=<channel> note=<note, 3 digits> vel=<velocity, 3 digits> dur=<duration>`.
pub open spec fn event_line(e: MidiEvent) -> Seq<char> {
    "t="@ + zero_padded(e.tick as nat, 5) + " ch="@ + decimal(e.channel as nat) + " note="@
        + zero_padded(e.note as nat, 3) + " vel="@ + zero_padded(e.velocity as nat, 3) + " dur="@
        + decimal(e.duration as nat)
}

/// The event lines, each preceded by a line break.
pub open spec fn event_lines(events: Seq<MidiEvent>) -> Seq<char>
    decreases events.len(),
{
    if events.len() == 0 {
        Seq::empty()
    } else {
        event_lines(events.drop_last()) + "\n"@ + event_line(events.last())
    }
}

/// The text export of a sequence: a header of four lines (name, tempo and
/// resolution, event count, separator) followed by one line per event,
/// joined with line breaks.
pub open spec fn midi_text(name: Seq<char>, tempo: Seq<char>, ppqn: u16, events: Seq<MidiEvent>) -> Seq<char> {
    "Sequence: "@ + name + "\nTempo: "@ + tempo + " BPM, PPQN: "@ + decimal(ppqn as nat)
        + "\nEvents: "@ + decimal(events.len()) + "\n---"@ + event_lines(events)
}


/// An event line holds no line break.
proof fn lemma_event_line_no_newline(e: MidiEvent)
    ensures
        no_newline(event_line(e)),
{
    reveal_strlit("t=");
    reveal_strlit(" ch=");
    reveal_strlit(" note=");
    reveal_strlit(" vel=");
    reveal_strlit(" dur=");
    lemma_decimal_no_newline(e.tick as nat);
    lemma_decimal_no_newline(e.channel as nat);
    lemma_decimal_no_newline(e.note as nat);
    lemma_decimal_no_newline(e.velocity as nat);
    lemma_decimal_no_newline(e.duration as nat);
    let parts = seq![
        "t="@, zero_padded(e.tick as nat, 5), " ch="@, decimal(e.channel as nat), " note="@,
        zero_padded(e.note as nat, 3), " vel="@, zero_padded(e.velocity as nat, 3), " dur="@,
        decimal(e.duration as nat),
    ];
    assert forall|k: int| 0 <= k < parts.len() implies no_newline(#[trigger] parts[k]) by {
        assert(no_newline(zero_padded(e.tick as nat, 5)));
        assert(no_newline(zero_padded(e.note as nat, 3)));
        assert(no_newline(zero_padded(e.velocity as nat, 3)));
    }
    lemma_concat_no_newline(parts);
    assert(concat(parts) =~= event_line(e)) by {
        reveal_with_fuel(concat, 11);
    }
}

/// Pieces joined end to end.
spec fn concat(parts: Seq<Seq<char>>) -> Seq<char>
    decreases parts.len(),
{
    if parts.len() == 0 { Seq::empty() } else { concat(parts.drop_last()) + parts.last() }
}

proof fn lemma_concat_no_newline(parts: Seq<Seq<char>>)
    requires
        forall|k: int| 0 <= k < parts.len() ==> no_newline(#[trigger] parts[k]),
    ensures
        no_newline(concat(parts)),
    decreases parts.len(),
{
    if parts.len() > 0 {
        let t = parts.drop_last();
        assert forall|k: int| 0 <= k < t.len() implies no_newline(#[trigger] t[k]) by {
            assert(t[k] == parts[k]);
        }
        lemma_concat_no_newline(t);
        let a = concat(t);
        let b = parts.last();
        assert(no_newline(parts[parts.len() - 1]));
        assert forall|i: int| 0 <= i < (a + b).len() implies (a + b)[i] != '\n' by {
            if i >= a.len() {
                assert((a + b)[i] == b[i - a.len()]);
            } else {
                assert((a + b)[i] == a[i]);
            }
        }
    }
}

/// After any prefix, each event adds exactly one line: its own.
proof fn lemma_event_lines_split(prefix: Seq<char>, events: Seq<MidiEvent>)
    ensures
        split_lines(prefix + event_lines(events))
            == split_lines(prefix) + events.map_values(|e: MidiEvent| event_line(e)),
    decreases events.len(),
{
    if events.len() == 0 {
        assert(prefix + event_lines(events) =~= prefix);
        assert(split_lines(prefix) + events.map_values(|e: MidiEvent| event_line(e)) =~= split_lines(prefix));
    } else {
        let t = events.drop_last();
        lemma_event_lines_split(prefix, t);
        reveal_strlit("\n");
        assert("\n"@ =~= seq!['\n']);
        let e = events.last();
        lemma_event_line_no_newline(e);
        assert(prefix + event_lines(events) =~= (prefix + event_lines(t)) + seq!['\n'] + event_line(e));
        lemma_split_lines_break(prefix + event_lines(t), event_line(e));
        assert((split_lines(prefix) + t.map_values(|x: MidiEvent| event_line(x))).push(event_line(e))
            =~= split_lines(prefix) + events.map_values(|x: MidiEvent| event_line(x)));
    }
}

/// The text export has four header lines, then exactly one line per event, in
/// the order of the events, whatever their ticks: line `4 + k` is the line of
/// event `k`.
pub proof fn lemma_midi_text_lines(name: Seq<char>, tempo: Seq<char>, ppqn: u16, events: Seq<MidiEvent>)
    requires
        no_newline(name),
        no_newline(tempo),
    ensures
        split_lines(midi_text(name, tempo, ppqn, events)) == seq![
            "Sequence: "@ + name,
            "Tempo: "@ + tempo + " BPM, PPQN: "@ + decimal(ppqn as nat),
            "Events: "@ + decimal(events.len()),
            "---"@,
        ] + events.map_values(|e: MidiEvent| event_line(e)),
        split_lines(midi_text(name, tempo, ppqn, events)).len() == 4 + events.len(),
        forall|k: int| 0 <= k < events.len() ==>
            split_lines(midi_text(name, tempo, ppqn, events))[4 + k] == event_line(#[trigger] events[k]),
{
    reveal_strlit("Sequence: ");
    reveal_strlit("\nTempo: ");
    reveal_strlit("Tempo: ");
    reveal_strlit(" BPM, PPQN: ");
    reveal_strlit("\nEvents: ");
    reveal_strlit("Events: ");
    reveal_strlit("\n---");
    reveal_strlit("---");
    lemma_decimal_no_newline(ppqn as nat);
    lemma_decimal_no_newline(events.len());
    let a = "Sequence: "@ + name;
    let b = "Tempo: "@ + tempo + " BPM, PPQN: "@ + decimal(ppqn as nat);
    let c = "Events: "@ + decimal(events.len());
    let d = "---"@;
    assert(no_newline(a)) by {
        assert forall|i: int| 0 <= i < a.len() implies a[i] != '\n' by {
            if i >= "Sequence: "@.len() { assert(a[i] == name[i - "Sequence: "@.len()]); }
        }
    }
    assert(no_newline(b)) by {
        let b1 = "Tempo: "@ + tempo;
        assert forall|i: int| 0 <= i < b1.len() implies b1[i] != '\n' by {
            if i >= "Tempo: "@.len() { assert(b1[i] == tempo[i - "Tempo: "@.len()]); }
        }
        let b2 = b1 + " BPM, PPQN: "@;
        assert forall|i: int| 0 <= i < b2.len() implies b2[i] != '\n' by {
            if i >= b1.len() { assert(b2[i] == " BPM, PPQN: "@[i - b1.len()]); } else { assert(b2[i] == b1[i]); }
        }
        let dp = decimal(ppqn as nat);
        assert forall|i: int| 0 <= i < b.len() implies b[i] != '\n' by {
            if i >= b2.len() { assert(b[i] == dp[i - b2.len()]); } else { assert(b[i] == b2[i]); }
        }
    }
    assert(no_newline(c)) by {
        let de = decimal(events.len());
        assert forall|i: int| 0 <= i < c.len() implies c[i] != '\n' by {
            if i >= "Events: "@.len() { assert(c[i] == de[i - "Events: "@.len()]); }
        }
    }
    assert(no_newline(d));
    let header = a + seq!['\n'] + b + seq!['\n'] + c + seq!['\n'] + d;
    assert(midi_text(name, tempo, ppqn, events) =~= header + event_lines(events));
    lemma_split_lines_single(a);
    lemma_split_lines_break(a, b);
    lemma_split_lines_break(a + seq!['\n'] + b, c);
    lemma_split_lines_break(a + seq!['\n'] + b + seq!['\n'] + c, d);
    assert(split_lines(header) =~= seq![a, b, c, d]);
    lemma_event_lines_split(header, events);
}

/// Append the text line of one event.
pub fn push_event_line(s: &mut String, e: &MidiEvent)
    ensures
        final(s)@ == old(s)@ + event_line(*e),
{
    s.append("t=");
    push_zero_padded(s, e.tick as u64, 5);
    s.append(" ch=");
    push_decimal(s, e.channel as u64);
    s.append(" note=");
    push_zero_padded(s, e.note as u64, 3);
    s.append(" vel=");
    push_zero_padded(s, e.velocity as u64, 3);
    s.append(" dur=");
    push_decimal(s, e.duration as u64);
    assert(s@ =~= old(s)@ + event_line(*e));
}

/// Export a MIDI sequence as text. `tempo` is the tempo as the caller wants
/// it printed (one decimal place in BPM).
pub fn midi_to_text(name: &str, tempo: &str, ppqn: u16, events: &Vec<MidiEvent>) -> (text: String)
    ensures
        text@ == midi_text(name@, tempo@, ppqn, events@),
        // With a name and a tempo of one line each, the text has the four header lines and
        // then exactly one line per event, line 4 + k being the line of event k.
        no_newline(name@) && no_newline(tempo@) ==> {
            &&& split_lines(text@).len() == 4 + events@.len()
            &&& split_lines(text@)[0] == "Sequence: "@ + name@
            &&& split_lines(text@)[1] == "Tempo: "@ + tempo@ + " BPM, PPQN: "@ + decimal(ppqn as nat)
            &&& split_lines(text@)[2] == "Events: "@ + decimal(events@.len())
            &&& split_lines(text@)[3] == "---"@
            &&& forall|k: int| 0 <= k < events@.len() ==>
                split_lines(text@)[4 + k] == event_line(#[trigger] events@[k])
        },
{
    let mut s = String::new();
    s.append("Sequence: ");
    s.append(name);
    s.append("\nTempo: ");
    s.append(tempo);
    s.append(" BPM, PPQN: ");
    push_decimal(&mut s, ppqn as u64);
    s.append("\nEvents: ");
    push_decimal(&mut s, events.len() as u64);
    s.append("\n---");
    let ghost header = s@;
    assert(events@.subrange(0, 0) =~= Seq::<MidiEvent>::empty());
    let mut i: usize = 0;
    while i < events.len()
        invariant
            i <= events.len(),
            s@ == header + event_lines(events@.subrange(0, i as int)),
        decreases events.len() - i,
    {
        s.append("\n");
        push_event_line(&mut s, &events[i]);
        assert(events@.subrange(0, i + 1).drop_last() =~= events@.subrange(0, i as int));
        i = i + 1;
    }
    assert(events@.subrange(0, events.len() as int) =~= events@);
    assert(s@ =~= midi_text(name@, tempo@, ppqn, events@));
    proof {
        if no_newline(name@) && no_newline(tempo@) {
            lemma_midi_text_lines(name@, tempo@, ppqn, events@);
        }
    }
    s
}

// ---------------------------------------------------------------------------
// Chronological order
// ---------------------------------------------------------------------------

/// Insert `e` into `sorted` after every event whose tick is at most `e.tick`.
pub open spec fn insert_by_tick(sorted: Seq<MidiEvent>, e: MidiEvent) -> Seq<MidiEvent>
    decreases sorted.len(),
{
    if sorted.len() == 0 {
        seq![e]
    } else if sorted.last().tick <= e.tick {
        sorted.push(e)
    } else {
        insert_by_tick(sorted.drop_last(), e).push(sorted.last())
    }
}

/// Stable sort of events by tick: events with equal ticks keep their order.
pub open spec fn sort_by_tick(events: Seq<MidiEvent>) -> Seq<MidiEvent>
    decreases events.len(),
{
    if events.len() == 0 {
        events
    } else {
        insert_by_tick(sort_by_tick(events.drop_last()), events.last())
    }
}

/// Events are in chronological order.
pub open spec fn ticks_sorted(events: Seq<MidiEvent>) -> bool {
    forall|i: int, j: int| 0 <= i <= j < events.len() ==> events[i].tick <= events[j].tick
}

/// Inserting at the position found by scanning back over the later events
/// is the same as `insert_by_tick`.
proof fn lemma_insert_by_tick_at(s: Seq<MidiEvent>, e: MidiEvent, pos: int)
    requires
        0 <= pos <= s.len(),
        forall|k: int| pos <= k < s.len() ==> s[k].tick > e.tick,
        pos > 0 ==> s[pos - 1].tick <= e.tick,
    ensures
        insert_by_tick(s, e) == s.insert(pos, e),
    decreases s.len(),
{
    if s.len() == 0 {
        assert(s.insert(pos, e) =~= seq![e]);
    } else if pos == s.len() {
        assert(s.insert(pos, e) =~= s.push(e));
    } else {
        let t = s.drop_last();
        lemma_insert_by_tick_at(t, e, pos);
        assert(s.insert(pos, e) =~= t.insert(pos, e).push(s.last()));
    }
}

/// Every event of `insert_by_tick(s, e)` is `e` or an event of `s`, and
/// nothing is lost.
proof fn lemma_insert_by_tick_multiset(s: Seq<MidiEvent>, e: MidiEvent)
    ensures
        insert_by_tick(s, e).to_multiset() == s.to_multiset().insert(e),
        insert_by_tick(s, e).len() == s.len() + 1,
    decreases s.len(),
{
    broadcast use vstd::multiset::group_multiset_axioms;
    s.to_multiset_ensures();
    if s.len() == 0 {
        assert(seq![e] =~= s.push(e));
    } else if s.last().tick <= e.tick {
    } else {
        let t = s.drop_last();
        let r = insert_by_tick(t, e);
        lemma_insert_by_tick_multiset(t, e);
        r.to_multiset_ensures();
        t.to_multiset_ensures();
        assert(t.push(s.last()) =~= s);
        assert(t.to_multiset().insert(e).insert(s.last()) =~= t.to_multiset().insert(s.last()).insert(e));
    }
}

proof fn lemma_insert_by_tick_sorted(s: Seq<MidiEvent>, e: MidiEvent)
    requires
        ticks_sorted(s),
    ensures
        ticks_sorted(insert_by_tick(s, e)),
    decreases s.len(),
{
    if s.len() == 0 {
    } else if s.last().tick <= e.tick {
    } else {
        let t = s.drop_last();
        lemma_insert_by_tick_sorted(t, e);
        lemma_insert_by_tick_multiset(t, e);
        let r = insert_by_tick(t, e);
        r.to_multiset_ensures();
        t.to_multiset_ensures();
        assert forall|k: int| 0 <= k < r.len() implies r[k].tick <= s.last().tick by {
            broadcast use vstd::multiset::group_multiset_axioms;
            assert(r.contains(r[k]));
            assert(r.to_multiset().count(r[k]) > 0);
            if r[k] != e {
                assert(t.to_multiset().count(r[k]) > 0);
                assert(t.contains(r[k]));
                let m = choose|m: int| 0 <= m < t.len() && t[m] == r[k];
                assert(s[m] == t[m]);
            }
        }
    }
}

/// The events of one tick value, in order.
pub open spec fn at_tick(events: Seq<MidiEvent>, tick: u32) -> Seq<MidiEvent> {
    events.filter(|e: MidiEvent| e.tick == tick)
}

proof fn lemma_insert_by_tick_stable(s: Seq<MidiEvent>, e: MidiEvent, tick: u32)
    ensures
        at_tick(insert_by_tick(s, e), tick) == if e.tick == tick {
            at_tick(s, tick).push(e)
        } else {
            at_tick(s, tick)
        },
    decreases s.len(),
{
    broadcast use Seq::lemma_filter_push;
    let p = |x: MidiEvent| x.tick == tick;
    if s.len() == 0 {
        assert(seq![e] =~= s.push(e));
        reveal(Seq::filter);
        assert(s.filter(p) =~= s);
    } else if s.last().tick <= e.tick {
    } else {
        let t = s.drop_last();
        lemma_insert_by_tick_stable(t, e, tick);
        assert(t.push(s.last()) =~= s);
    }
}

/// The stable sort by tick puts the events in chronological order.
pub proof fn lemma_sort_by_tick_sorted(events: Seq<MidiEvent>)
    ensures
        ticks_sorted(sort_by_tick(events)),
    decreases events.len(),
{
    if events.len() > 0 {
        lemma_sort_by_tick_sorted(events.drop_last());
        lemma_insert_by_tick_sorted(sort_by_tick(events.drop_last()), events.last());
    }
}

/// The stable sort by tick neither loses nor adds events.
pub proof fn lemma_sort_by_tick_permutes(events: Seq<MidiEvent>)
    ensures
        sort_by_tick(events).to_multiset() == events.to_multiset(),
        sort_by_tick(events).len() == events.len(),
    decreases events.len(),
{
    if events.len() > 0 {
        let t = events.drop_last();
        lemma_sort_by_tick_permutes(t);
        lemma_insert_by_tick_multiset(sort_by_tick(t), events.last());
        t.to_multiset_ensures();
        assert(t.push(events.last()) =~= events);
    }
}

/// Events that share a tick keep their relative order.
pub proof fn lemma_sort_by_tick_stable(events: Seq<MidiEvent>, tick: u32)
    ensures
        at_tick(sort_by_tick(events), tick) == at_tick(events, tick),
    decreases events.len(),
{
    broadcast use Seq::lemma_filter_push;
    if events.len() == 0 {
    } else {
        let t = events.drop_last();
        lemma_sort_by_tick_stable(t, tick);
        lemma_insert_by_tick_stable(sort_by_tick(t), events.last(), tick);
        assert(t.push(events.last()) =~= events);
    }
}

/// Sort events by tick, keeping the order of events with equal ticks.
pub fn sort_events_by_tick(events: &mut Vec<MidiEvent>)
    ensures
        final(events)@ == sort_by_tick(old(events)@),
        ticks_sorted(final(events)@),
        final(events)@.to_multiset() == old(events)@.to_multiset(),
{
    let mut out: Vec<MidiEvent> = Vec::new();
    let n = events.len();
    let mut i: usize = 0;
    assert(old(events)@.subrange(0, 0) =~= Seq::<MidiEvent>::empty());
    while i < n
        invariant
            n == events.len(),
            events@ == old(events)@,
            i <= n,
            out@ == sort_by_tick(events@.subrange(0, i as int)),
        decreases n - i,
    {
        let e = events[i];
        let mut pos = out.len();
        while pos > 0 && out[pos - 1].tick > e.tick
            invariant
                pos <= out.len(),
                forall|k: int| pos <= k < out.len() ==> out@[k].tick > e.tick,
            decreases pos,
        {
            pos = pos - 1;
        }
        proof {
            lemma_insert_by_tick_at(out@, e, pos as int);
            assert(events@.subrange(0, i + 1).drop_last() =~= events@.subrange(0, i as int));
        }
        out.insert(pos, e);
        i = i + 1;
    }
    assert(events@.subrange(0, n as int) =~= events@);
    proof {
        lemma_sort_by_tick_sorted(old(events)@);
        lemma_sort_by_tick_permutes(old(events)@);
    }
    *events = out;
}

// ---------------------------------------------------------------------------
// Events from population dynamics
// ---------------------------------------------------------------------------

/// Ticks per quarter note of the generated sequences.
pub const PPQN: u16 = 480;

/// Ticks per history step: one whole note (four quarter notes).
pub const TICKS_PER_STEP: u32 = 1920;

/// The notes that one species plays during one history step. The caller has
/// already derived, from the floating-point populations, how loud and how
/// long the notes are and where each falls within the step.
#[derive(Debug)]
pub struct NoteGroup {
    /// Index of the history step.
    pub step: usize,
    /// Index of the species.
    pub species: usize,
    /// Velocity of every note of the group (capped at 127).
    pub velocity: u8,
    /// Duration of every note of the group, in ticks.
    pub duration: u32,
    /// Tick offset of each note within the step, in the order played.
    pub offsets: Vec<u32>,
}

/// Pitch class of note `note_i` of species `species`: the scale is walked
/// from the species' own index; an empty scale falls back to 60.
pub open spec fn pitch_class(species: int, note_i: int, scale: Seq<u8>) -> int {
    if scale.len() > 0 {
        scale[(species + note_i) % (scale.len() as int)] as int
    } else {
        60
    }
}

/// Octave of a species' melody: 4, 5 or 6 by species index.
pub open spec fn melody_octave(species: int) -> int {
    4 + species % 3
}

/// MIDI note number of note `note_i` of species `species`, capped at 127.
pub open spec fn melody_note(species: int, note_i: int, scale: Seq<u8>) -> int {
    let n = melody_octave(species) * 12 + pitch_class(species, note_i, scale);
    if n < 127 { n } else { 127 }
}

/// First tick of history step `step` (the index is taken modulo `2^32`).
pub open spec fn step_tick(step: usize) -> int {
    (#[verifier::truncate] (step as u32)) as int * TICKS_PER_STEP as int
}

/// Note `k` of a group.
pub open spec fn group_event(g: NoteGroup, scale: Seq<u8>, k: int) -> MidiEvent {
    MidiEvent {
        tick: (step_tick(g.step) + g.offsets@[k]) as u32,
        note: melody_note(g.species as int, k, scale) as u8,
        velocity: if g.velocity < 127 { g.velocity } else { 127 },
        duration: g.duration,
        channel: (g.species % 16) as u8,
    }
}

/// The notes of a group, in the order played.
pub open spec fn group_events(g: NoteGroup, scale: Seq<u8>) -> Seq<MidiEvent> {
    Seq::new(g.offsets@.len(), |k: int| group_event(g, scale, k))
}

/// The notes of all groups, group after group.
pub open spec fn all_group_events(groups: Seq<NoteGroup>, scales: Seq<Vec<u8>>) -> Seq<MidiEvent>
    decreases groups.len(),
{
    if groups.len() == 0 {
        Seq::empty()
    } else {
        all_group_events(groups.drop_last(), scales)
            + group_events(groups.last(), scales[groups.last().species as int]@)
    }
}

/// The arithmetic of a group stays within the machine integers: the species
/// has a scale, note indices do not overflow, ticks fit in 32 bits and note
/// numbers fit in a byte before they are capped.
pub open spec fn group_fits(g: NoteGroup, scales: Seq<Vec<u8>>) -> bool {
    &&& g.species < scales.len()
    &&& g.species + g.offsets@.len() <= usize::MAX
    &&& step_tick(g.step) <= u32::MAX
    &&& forall|k: int| 0 <= k < g.offsets@.len() ==> step_tick(g.step) + #[trigger] g.offsets@[k] <= u32::MAX
    &&& forall|k: int| 0 <= k < g.offsets@.len() ==>
        melody_octave(g.species as int) * 12 + #[trigger] pitch_class(g.species as int, k, scales[g.species as int]@) <= 255
}

/// Note number, velocity and channel are valid MIDI values.
pub open spec fn event_in_range(e: MidiEvent) -> bool {
    e.note <= 127 && e.velocity <= 127 && e.channel <= 15
}

/// The event sounds on the channel of one of the groups' species.
pub open spec fn on_group_channel(groups: Seq<NoteGroup>, e: MidiEvent) -> bool {
    exists|i: int| 0 <= i < groups.len() && e.channel == (#[trigger] groups[i]).species % 16
}

proof fn lemma_all_group_events_in_range(groups: Seq<NoteGroup>, scales: Seq<Vec<u8>>)
    requires
        forall|i: int| 0 <= i < groups.len() ==> group_fits(#[trigger] groups[i], scales),
    ensures
        forall|j: int| 0 <= j < all_group_events(groups, scales).len() ==>
            event_in_range(#[trigger] all_group_events(groups, scales)[j]),
        forall|j: int| 0 <= j < all_group_events(groups, scales).len() ==>
            on_group_channel(groups, #[trigger] all_group_events(groups, scales)[j]),
    decreases groups.len(),
{
    if groups.len() > 0 {
        let t = groups.drop_last();
        assert forall|i: int| 0 <= i < t.len() implies group_fits(#[trigger] t[i], scales) by {
            assert(t[i] == groups[i]);
        }
        lemma_all_group_events_in_range(t, scales);
        let last = groups.len() - 1;
        let g = groups.last();
        assert(group_fits(groups[last], scales));
        let a = all_group_events(t, scales);
        let b = group_events(g, scales[g.species as int]@);
        assert forall|j: int| 0 <= j < b.len() implies event_in_range(#[trigger] b[j]) by {
            let n = melody_octave(g.species as int) * 12 + pitch_class(g.species as int, j, scales[g.species as int]@);
            assert(n <= 255);
        }
        assert forall|j: int| 0 <= j < (a + b).len() implies event_in_range(#[trigger] (a + b)[j])
            && on_group_channel(groups, (a + b)[j]) by {
            if j < a.len() {
                assert((a + b)[j] == a[j]);
                assert(on_group_channel(t, a[j]));
                let i = choose|i: int| 0 <= i < t.len() && a[j].channel == (#[trigger] t[i]).species % 16;
                assert(t[i] == groups[i]);
            } else {
                assert((a + b)[j] == b[j - a.len()]);
                assert(b[j - a.len()].channel == groups[last].species % 16);
            }
        }
    }
}

/// `e` is note `k` of group `i` for some `i` and `k`.
spec fn is_group_note(groups: Seq<NoteGroup>, scales: Seq<Vec<u8>>, e: MidiEvent) -> bool {
    exists|i: int, k: int| #![trigger groups[i].offsets@[k]]
        0 <= i < groups.len() && 0 <= k < groups[i].offsets@.len()
        && e == group_event(groups[i], scales[groups[i].species as int]@, k)
}

/// Every note of every group is among the assembled events, and every
/// assembled event is a note of some group.
proof fn lemma_all_group_events_members(groups: Seq<NoteGroup>, scales: Seq<Vec<u8>>)
    ensures
        forall|i: int, k: int| #![trigger groups[i].offsets@[k]]
            0 <= i < groups.len() && 0 <= k < groups[i].offsets@.len() ==>
            all_group_events(groups, scales).contains(
                group_event(groups[i], scales[groups[i].species as int]@, k),
            ),
        forall|j: int| 0 <= j < all_group_events(groups, scales).len() ==>
            is_group_note(groups, scales, #[trigger] all_group_events(groups, scales)[j]),
    decreases groups.len(),
{
    if groups.len() > 0 {
        let t = groups.drop_last();
        lemma_all_group_events_members(t, scales);
        let last = groups.len() - 1;
        let g = groups[last];
        let a = all_group_events(t, scales);
        let b = group_events(g, scales[g.species as int]@);
        assert(all_group_events(groups, scales) == a + b);
        assert forall|i: int, k: int| #![trigger groups[i].offsets@[k]]
            0 <= i < groups.len() && 0 <= k < groups[i].offsets@.len() implies
            (a + b).contains(group_event(groups[i], scales[groups[i].species as int]@, k)) by {
            if i < last {
                assert(t[i] == groups[i]);
                assert(t[i].offsets@[k] == groups[i].offsets@[k]);
                let m = choose|m: int| 0 <= m < a.len() && a[m] == group_event(t[i], scales[t[i].species as int]@, k);
                assert((a + b)[m] == a[m]);
            } else {
                assert((a + b)[a.len() + k] == b[k]);
            }
        }
        assert forall|j: int| 0 <= j < (a + b).len() implies is_group_note(groups, scales, #[trigger] (a + b)[j]) by {
            if j < a.len() {
                assert((a + b)[j] == a[j]);
                assert(is_group_note(t, scales, a[j]));
                let (i, k) = choose|i: int, k: int| #![trigger t[i].offsets@[k]]
                    0 <= i < t.len() && 0 <= k < t[i].offsets@.len()
                    && a[j] == group_event(t[i], scales[t[i].species as int]@, k);
                assert(t[i] == groups[i]);
                assert(groups[i].offsets@[k] == t[i].offsets@[k]);
            } else {
                let k = j - a.len();
                assert((a + b)[j] == b[k]);
                assert(groups[last].offsets@[k] == g.offsets@[k]);
            }
        }
    }
}

/// Two rearrangements of each other hold the same events.
proof fn lemma_permutation_contains(a: Seq<MidiEvent>, b: Seq<MidiEvent>, e: MidiEvent)
    requires
        a.to_multiset() == b.to_multiset(),
    ensures
        a.contains(e) <==> b.contains(e),
{
    a.to_multiset_ensures();
    b.to_multiset_ensures();
    assert(a.contains(e) <==> a.to_multiset().count(e) > 0);
    assert(b.contains(e) <==> b.to_multiset().count(e) > 0);
}

/// A property of every event carries over to any rearrangement.
proof fn lemma_permutation_keeps(a: Seq<MidiEvent>, b: Seq<MidiEvent>, p: spec_fn(MidiEvent) -> bool)
    requires
        a.to_multiset() == b.to_multiset(),
        forall|j: int| 0 <= j < b.len() ==> p(#[trigger] b[j]),
    ensures
        forall|j: int| 0 <= j < a.len() ==> p(#[trigger] a[j]),
{
    a.to_multiset_ensures();
    b.to_multiset_ensures();
    assert forall|j: int| 0 <= j < a.len() implies p(#[trigger] a[j]) by {
        assert(a.contains(a[j]));
        assert(a.to_multiset().count(a[j]) > 0);
        assert(b.to_multiset().count(a[j]) > 0);
        assert(b.contains(a[j]));
        let m = choose|m: int| 0 <= m < b.len() && b[m] == a[j];
        assert(p(b[m]));
    }
}

/// The notes of one group.
fn push_group_events(events: &mut Vec<MidiEvent>, g: &NoteGroup, scale: &Vec<u8>)
    requires
        g.species + g.offsets@.len() <= usize::MAX,
        step_tick(g.step) <= u32::MAX,
        forall|k: int| 0 <= k < g.offsets@.len() ==> step_tick(g.step) + #[trigger] g.offsets@[k] <= u32::MAX,
        forall|k: int| 0 <= k < g.offsets@.len() ==>
            melody_octave(g.species as int) * 12 + #[trigger] pitch_class(g.species as int, k as int, scale@) <= 255,
    ensures
        final(events)@ == old(events)@ + group_events(*g, scale@),
{
    let base: u32 = (#[verifier::truncate] (g.step as u32)) * TICKS_PER_STEP;
    let octave: u8 = 4 + (g.species % 3) as u8;
    let channel: u8 = (g.species % 16) as u8;
    let n = g.offsets.len();
    let mut k: usize = 0;
    while k < n
        invariant
            n == g.offsets@.len(),
            k <= n,
            base == step_tick(g.step),
            octave == melody_octave(g.species as int),
            channel == g.species % 16,
            g.species + n <= usize::MAX,
            forall|j: int| 0 <= j < n ==> step_tick(g.step) + #[trigger] g.offsets@[j] <= u32::MAX,
            forall|j: int| 0 <= j < n ==>
                melody_octave(g.species as int) * 12 + #[trigger] pitch_class(g.species as int, j, scale@) <= 255,
            events@ == old(events)@ + group_events(*g, scale@).subrange(0, k as int),
        decreases n - k,
    {
        let pc: u8 = if scale.len() > 0 {
            scale[(g.species + k) % scale.len()]
        } else {
            60
        };
        assert(pc == pitch_class(g.species as int, k as int, scale@));
        assert(melody_octave(g.species as int) * 12 + pitch_class(g.species as int, k as int, scale@) <= 255);
        assert(octave * 12 + pc <= 255);
        let raw: u8 = octave * 12 + pc;
        let note: u8 = if raw < 127 { raw } else { 127 };
        let e = MidiEvent {
            tick: base + g.offsets[k],
            note,
            velocity: if g.velocity < 127 { g.velocity } else { 127 },
            duration: g.duration,
            channel,
        };
        assert(e == group_event(*g, scale@, k as int));
        events.push(e);
        assert(group_events(*g, scale@).subrange(0, k + 1) =~= group_events(*g, scale@).subrange(0, k as int).push(e));
        k = k + 1;
    }
    assert(group_events(*g, scale@).subrange(0, n as int) =~= group_events(*g, scale@));
}

/// All notes of all groups, in chronological order; notes that fall on the
/// same tick keep the order of the groups and, within a group, the order
/// played. Every note is a valid MIDI note with a velocity of at most 127 on
/// the channel of its species (index modulo 16).
pub fn midi_events(groups: &Vec<NoteGroup>, scales: &Vec<Vec<u8>>) -> (events: Vec<MidiEvent>)
    requires
        forall|i: int| 0 <= i < groups@.len() ==> group_fits(#[trigger] groups@[i], scales@),
    ensures
        events@ == sort_by_tick(all_group_events(groups@, scales@)),
        ticks_sorted(events@),
        events@.to_multiset() == all_group_events(groups@, scales@).to_multiset(),
        forall|j: int| 0 <= j < events@.len() ==> event_in_range(#[trigger] events@[j]),
        forall|j: int| 0 <= j < events@.len() ==> on_group_channel(groups@, #[trigger] events@[j]),
        // Note k of group i: octave 4 + species mod 3, pitch class scale[(species + k) mod len]
        // (60 without a scale), capped at 127; tick step * 1920 + offset; velocity capped at 127;
        // channel species mod 16. Every such note is an event, and every event is such a note.
        forall|i: int, k: int| #![trigger groups@[i].offsets@[k]]
            0 <= i < groups@.len() && 0 <= k < groups@[i].offsets@.len() ==> {
            let g = groups@[i];
            let scale = scales@[g.species as int]@;
            let pc: int = if scale.len() > 0 { scale[(g.species + k) % (scale.len() as int)] as int } else { 60 };
            let n: int = (4 + g.species % 3) * 12 + pc;
            events@.contains(MidiEvent {
                tick: ((#[verifier::truncate] (g.step as u32)) as int * 1920 + g.offsets@[k]) as u32,
                note: (if n < 127 { n } else { 127 }) as u8,
                velocity: if g.velocity < 127 { g.velocity } else { 127 },
                duration: g.duration,
                channel: (g.species % 16) as u8,
            })
        },
        forall|j: int| 0 <= j < events@.len() ==> exists|i: int, k: int| #![trigger groups@[i].offsets@[k]]
            0 <= i < groups@.len() && 0 <= k < groups@[i].offsets@.len() && {
            let g = groups@[i];
            let scale = scales@[g.species as int]@;
            let pc: int = if scale.len() > 0 { scale[(g.species + k) % (scale.len() as int)] as int } else { 60 };
            let n: int = (4 + g.species % 3) * 12 + pc;
            #[trigger] events@[j] == (MidiEvent {
                tick: ((#[verifier::truncate] (g.step as u32)) as int * 1920 + g.offsets@[k]) as u32,
                note: (if n < 127 { n } else { 127 }) as u8,
                velocity: if g.velocity < 127 { g.velocity } else { 127 },
                duration: g.duration,
                channel: (g.species % 16) as u8,
            })
        },
{
    let mut events: Vec<MidiEvent> = Vec::new();
    let mut i: usize = 0;
    assert(groups@.subrange(0, 0) =~= Seq::<NoteGroup>::empty());
    while i < groups.len()
        invariant
            i <= groups@.len(),
            forall|j: int| 0 <= j < groups@.len() ==> group_fits(#[trigger] groups@[j], scales@),
            events@ == all_group_events(groups@.subrange(0, i as int), scales@),
        decreases groups.len() - i,
    {
        let g = &groups[i];
        assert(group_fits(groups@[i as int], scales@));
        push_group_events(&mut events, g, &scales[g.species]);
        assert(groups@.subrange(0, i + 1).drop_last() =~= groups@.subrange(0, i as int));
        i = i + 1;
    }
    assert(groups@.subrange(0, groups.len() as int) =~= groups@);
    let ghost unsorted = events@;
    sort_events_by_tick(&mut events);
    proof {
        lemma_all_group_events_in_range(groups@, scales@);
        lemma_permutation_keeps(events@, unsorted, |e: MidiEvent| event_in_range(e));
        lemma_permutation_keeps(events@, unsorted, |e: MidiEvent| on_group_channel(groups@, e));
        lemma_all_group_events_members(groups@, scales@);
        assert forall|i: int, k: int| #![trigger groups@[i].offsets@[k]]
            0 <= i < groups@.len() && 0 <= k < groups@[i].offsets@.len() implies
            events@.contains(group_event(groups@[i], scales@[groups@[i].species as int]@, k)) by {
            lemma_permutation_contains(events@, unsorted,
                group_event(groups@[i], scales@[groups@[i].species as int]@, k));
        }
        lemma_permutation_keeps(events@, unsorted, |e: MidiEvent| is_group_note(groups@, scales@, e));
        assert forall|j: int| 0 <= j < events@.len() implies exists|i: int, k: int| #![trigger groups@[i].offsets@[k]]
            0 <= i < groups@.len() && 0 <= k < groups@[i].offsets@.len() && {
            let g = groups@[i];
            let scale = scales@[g.species as int]@;
            let pc: int = if scale.len() > 0 { scale[(g.species + k) % (scale.len() as int)] as int } else { 60 };
            let n: int = (4 + g.species % 3) * 12 + pc;
            #[trigger] events@[j] == (MidiEvent {
                tick: ((#[verifier::truncate] (g.step as u32)) as int * 1920 + g.offsets@[k]) as u32,
                note: (if n < 127 { n } else { 127 }) as u8,
                velocity: if g.velocity < 127 { g.velocity } else { 127 },
                duration: g.duration,
                channel: (g.species % 16) as u8,
            })
        } by {
            assert(is_group_note(groups@, scales@, events@[j]));
            let (i, k) = choose|i: int, k: int| #![trigger groups@[i].offsets@[k]]
                0 <= i < groups@.len() && 0 <= k < groups@[i].offsets@.len()
                && events@[j] == group_event(groups@[i], scales@[groups@[i].species as int]@, k);
            assert(groups@[i].offsets@[k] == groups@[i].offsets@[k]);
        }
    }
    events
}

// ---------------------------------------------------------------------------
// Chords
// ---------------------------------------------------------------------------

/// Octave of a species' chord voice: 4 or 5 by species index.
pub open spec fn chord_octave(i: int) -> int {
    4 + i % 2
}

/// The chord third of a scale: its third entry, or a major third above the
/// root when the scale has fewer than three entries.
pub open spec fn chord_third(scale: Seq<u8>) -> int {
    if scale.len() > 2 { scale[2] as int } else { scale[0] as int + 4 }
}

/// `n` capped at the highest MIDI note.
pub open spec fn cap_note(n: int) -> int {
    if n < 127 { n } else { 127 }
}

/// The root note that species `i` adds to a chord.
pub open spec fn chord_root_note(i: int, scale: Seq<u8>) -> int {
    cap_note(chord_octave(i) * 12 + scale[0] as int)
}

/// The third that species `i` adds to a chord.
pub open spec fn chord_third_note(i: int, scale: Seq<u8>) -> int {
    cap_note(chord_octave(i) * 12 + chord_third(scale))
}

/// Species `i` contributes to the chord: it is loud enough and has a scale.
pub open spec fn voices(scales: Seq<Vec<u8>>, loud: Seq<bool>, i: int) -> bool {
    loud[i] && scales[i]@.len() > 0
}

/// The notes of the chord contributed by the first `m` species.
pub open spec fn chord_notes_upto(scales: Seq<Vec<u8>>, loud: Seq<bool>, m: int) -> Set<u8> {
    Set::new(|n: u8| exists|i: int| 0 <= i < m && #[trigger] voices(scales, loud, i)
        && (n == chord_root_note(i, scales[i]@) || n == chord_third_note(i, scales[i]@)))
}

/// The notes of the chord: root and third of every contributing species.
pub open spec fn chord_notes(scales: Seq<Vec<u8>>, loud: Seq<bool>) -> Set<u8> {
    chord_notes_upto(scales, loud, scales.len() as int)
}

/// The byte arithmetic of a species' voice does not overflow.
pub open spec fn voice_fits(i: int, scale: Seq<u8>) -> bool {
    scale.len() > 0 ==> {
        &&& chord_third(scale) <= 255
        &&& chord_octave(i) * 12 + scale[0] <= 255
        &&& chord_octave(i) * 12 + chord_third(scale) <= 255
    }
}

/// Strictly increasing: sorted, with no note twice.
pub open spec fn strictly_increasing(s: Seq<u8>) -> bool {
    forall|i: int, j: int| 0 <= i < j < s.len() ==> s[i] < s[j]
}

/// Add `x` to a strictly increasing list of notes, keeping it so.
fn insert_note(notes: &mut Vec<u8>, x: u8)
    requires
        strictly_increasing(old(notes)@),
    ensures
        strictly_increasing(final(notes)@),
        final(notes)@.to_set() == old(notes)@.to_set().insert(x),
{
    let mut pos: usize = 0;
    while pos < notes.len() && notes[pos] < x
        invariant
            pos <= notes.len(),
            forall|k: int| 0 <= k < pos ==> notes@[k] < x,
        decreases notes.len() - pos,
    {
        pos = pos + 1;
    }
    if pos < notes.len() && notes[pos] == x {
        assert(notes@.to_set().insert(x) =~= notes@.to_set()) by {
            assert(notes@.contains(x));
        }
    } else {
        let ghost before = notes@;
        notes.insert(pos, x);
        proof {
            before.insert_ensures(pos as int, x);
            assert(strictly_increasing(notes@)) by {
                assert forall|i: int, j: int| 0 <= i < j < notes@.len() implies notes@[i] < notes@[j] by {
                    if i < pos && j < pos {
                    } else if i < pos && j == pos {
                    } else if i < pos {
                        assert(notes@[j] == before[j - 1]);
                        assert(before[j - 1] >= x) by {
                            assert(before[pos as int] >= x);
                        }
                    } else if i == pos {
                        assert(notes@[j] == before[j - 1]);
                        assert(before[pos as int] > x);
                        if j - 1 > pos {
                            assert(before[pos as int] < before[j - 1]);
                        }
                    } else {
                        assert(notes@[i] == before[i - 1]);
                        assert(notes@[j] == before[j - 1]);
                    }
                }
            }
            assert(notes@.to_set() =~= before.to_set().insert(x)) by {
                assert forall|y: u8| notes@.contains(y) implies before.to_set().insert(x).contains(y) by {
                    let k = choose|k: int| 0 <= k < notes@.len() && notes@[k] == y;
                    if k < pos {
                        assert(before.contains(y));
                    } else if k > pos {
                        assert(before[k - 1] == y);
                        assert(before.contains(y));
                    }
                }
                assert forall|y: u8| before.to_set().insert(x).contains(y) implies notes@.contains(y) by {
                    if y == x {
                        assert(notes@[pos as int] == x);
                    } else {
                        let k = choose|k: int| 0 <= k < before.len() && before[k] == y;
                        if k < pos {
                            assert(notes@[k] == y);
                        } else {
                            assert(notes@[k + 1] == y);
                        }
                    }
                }
            }
        }
    }
}

/// A chord whose notes are exactly `chord_notes` holds the root and the
/// third of every loud species with a scale.
proof fn lemma_chord_members(chord: Seq<u8>, scales: Seq<Vec<u8>>, loud: Seq<bool>)
    requires
        chord.to_set() == chord_notes(scales, loud),
        loud.len() == scales.len(),
    ensures
        forall|i: int| 0 <= i < scales.len() && loud[i] && (#[trigger] scales[i])@.len() > 0 ==> {
            let sc = scales[i]@;
            let root: int = (4 + i % 2) * 12 + sc[0];
            let third: int = (4 + i % 2) * 12 + (if sc.len() >= 3 { sc[2] as int } else { sc[0] + 4 });
            &&& chord.contains((if root < 127 { root } else { 127 }) as u8)
            &&& chord.contains((if third < 127 { third } else { 127 }) as u8)
        },
{
    assert forall|i: int| 0 <= i < scales.len() && loud[i] && (#[trigger] scales[i])@.len() > 0 implies {
        let sc = scales[i]@;
        let root: int = (4 + i % 2) * 12 + sc[0];
        let third: int = (4 + i % 2) * 12 + (if sc.len() >= 3 { sc[2] as int } else { sc[0] + 4 });
        &&& chord.contains((if root < 127 { root } else { 127 }) as u8)
        &&& chord.contains((if third < 127 { third } else { 127 }) as u8)
    } by {
        assert(voices(scales, loud, i));
        let r = chord_root_note(i, scales[i]@) as u8;
        let t = chord_third_note(i, scales[i]@) as u8;
        assert(chord_notes(scales, loud).contains(r));
        assert(chord_notes(scales, loud).contains(t));
        assert(chord.to_set().contains(r));
        assert(chord.to_set().contains(t));
    }
}

/// The chord sounded by the species whose share of the population is large
/// enough (`loud[i]`): every such species with a non-empty scale adds the
/// root and the third of its scale in its chord octave, capped at 127. The
/// notes come sorted, each once.
pub fn population_to_chord(scales: &Vec<Vec<u8>>, loud: &Vec<bool>) -> (chord: Vec<u8>)
    requires
        loud@.len() == scales@.len(),
        forall|i: int| 0 <= i < scales@.len() && loud@[i] ==> voice_fits(i, #[trigger] scales@[i]@),
    ensures
        strictly_increasing(chord@),
        chord@.to_set() == chord_notes(scales@, loud@),
        forall|k: int| 0 <= k < chord@.len() ==> chord@[k] <= 127,
        // Each loud species i with a scale adds its root and its third in octave 4 + i mod 2,
        // capped at 127; the third is scale[2] when the scale has at least three entries and
        // the root plus four otherwise.
        forall|i: int| 0 <= i < scales@.len() && loud@[i] && (#[trigger] scales@[i])@.len() > 0 ==> {
            let sc = scales@[i]@;
            let root: int = (4 + i % 2) * 12 + sc[0];
            let third: int = (4 + i % 2) * 12 + (if sc.len() >= 3 { sc[2] as int } else { sc[0] + 4 });
            &&& chord@.contains((if root < 127 { root } else { 127 }) as u8)
            &&& chord@.contains((if third < 127 { third } else { 127 }) as u8)
        },
{
    let mut chord: Vec<u8> = Vec::new();
    let mut i: usize = 0;
    assert(chord@.to_set() =~= chord_notes_upto(scales@, loud@, 0));
    while i < scales.len()
        invariant
            i <= scales@.len(),
            loud@.len() == scales@.len(),
            forall|k: int| 0 <= k < scales@.len() && loud@[k] ==> voice_fits(k, #[trigger] scales@[k]@),
            strictly_increasing(chord@),
            chord@.to_set() == chord_notes_upto(scales@, loud@, i as int),
        decreases scales.len() - i,
    {
        let scale = &scales[i];
        if loud[i] && scale.len() > 0 {
            assert(voice_fits(i as int, scales@[i as int]@));
            let root: u8 = scale[0];
            let third: u8 = if scale.len() > 2 { scale[2] } else { root + 4 };
            let octave: u8 = 4 + (i % 2) as u8;
            let r: u8 = octave * 12 + root;
            let t: u8 = octave * 12 + third;
            let rn: u8 = if r < 127 { r } else { 127 };
            let tn: u8 = if t < 127 { t } else { 127 };
            insert_note(&mut chord, rn);
            insert_note(&mut chord, tn);
            assert(chord@.to_set() =~= chord_notes_upto(scales@, loud@, i + 1)) by {
                assert(voices(scales@, loud@, i as int));
                assert forall|n: u8| chord_notes_upto(scales@, loud@, i + 1).contains(n)
                    implies chord@.to_set().contains(n) by {
                    let k = choose|k: int| 0 <= k < i + 1 && #[trigger] voices(scales@, loud@, k)
                        && (n == chord_root_note(k, scales@[k]@) || n == chord_third_note(k, scales@[k]@));
                    if k < i {
                        assert(chord_notes_upto(scales@, loud@, i as int).contains(n));
                    }
                }
                assert forall|n: u8| chord@.to_set().contains(n)
                    implies chord_notes_upto(scales@, loud@, i + 1).contains(n) by {
                    if n != rn && n != tn {
                        assert(chord_notes_upto(scales@, loud@, i as int).contains(n));
                        let k = choose|k: int| 0 <= k < i && #[trigger] voices(scales@, loud@, k)
                            && (n == chord_root_note(k, scales@[k]@) || n == chord_third_note(k, scales@[k]@));
                        assert(0 <= k < i + 1);
                    }
                }
            }
        } else {
            assert(chord@.to_set() =~= chord_notes_upto(scales@, loud@, i + 1)) by {
                assert forall|n: u8| chord_notes_upto(scales@, loud@, i + 1).contains(n)
                    implies chord_notes_upto(scales@, loud@, i as int).contains(n) by {
                    let k = choose|k: int| 0 <= k < i + 1 && #[trigger] voices(scales@, loud@, k)
                        && (n == chord_root_note(k, scales@[k]@) || n == chord_third_note(k, scales@[k]@));
                    assert(k != i);
                }
            }
        }
        i = i + 1;
    }
    assert forall|k: int| 0 <= k < chord@.len() implies chord@[k] <= 127 by {
        assert(chord@.to_set().contains(chord@[k]));
        assert(chord_notes(scales@, loud@).contains(chord@[k]));
    }
    proof {
        lemma_chord_members(chord@, scales@, loud@);
    }
    chord
}

} // verus!
