//! MIDI events, the per-track byte buffers that collect them, and the
//! Standard MIDI File layout that the buffers are written out in.

use vstd::prelude::*;
use crate::vlq::{to_variable_length_bytes, vlq};

verus! {

/// The events that this library writes into a track.
#[derive(Debug, Clone, Copy, PartialEq, Eq, Structural)]
pub enum MidiEvent {
    /// Channel, pitch, velocity.
    NoteOn(u8, u8, u8),
    /// Channel, pitch, velocity.
    NoteOff(u8, u8, u8),
    /// Channel, program.
    ProgramChange(u8, u8),
    /// Channel, controller, value.
    ControlChange(u8, u8, u8),
    /// Microseconds per quarter note (three bytes of it are written).
    SetTempo(u32),
    EndOfTrack,
}

/// The bytes of an event: a status byte with the channel in its low bits,
/// then the data bytes; tempo and end of track are meta events.
pub open spec fn event_encoding(e: MidiEvent) -> Seq<u8> {
    match e {
        MidiEvent::NoteOn(c, n, v) => seq![0x90u8 | c, n, v],
        MidiEvent::NoteOff(c, n, v) => seq![0x80u8 | c, n, v],
        MidiEvent::ProgramChange(c, p) => seq![0xC0u8 | c, p],
        MidiEvent::ControlChange(c, k, v) => seq![0xB0u8 | c, k, v],
        MidiEvent::SetTempo(t) => seq![
            0xFFu8,
            0x51u8,
            0x03u8,
            (t / 0x1_0000 % 256) as u8,
            (t / 256 % 256) as u8,
            (t % 256) as u8,
        ],
        MidiEvent::EndOfTrack => seq![0xFFu8, 0x2Fu8, 0x00u8],
    }
}

/// Relies on apres's `MIDIBytes::as_bytes` for `MIDIEvent`, which writes
/// each of these events as the status and data bytes above.
#[verifier::external_body]
fn event_bytes(e: &MidiEvent) -> (r: Vec<u8>)
    ensures
        r@ == event_encoding(*e),
{
    let ev = match *e {
        MidiEvent::NoteOn(c, n, v) => apres::MIDIEvent::NoteOn(c, n, v),
        MidiEvent::NoteOff(c, n, v) => apres::MIDIEvent::NoteOff(c, n, v),
        MidiEvent::ProgramChange(c, p) => apres::MIDIEvent::ProgramChange(c, p),
        MidiEvent::ControlChange(c, k, v) => apres::MIDIEvent::ControlChange(c, k, v),
        MidiEvent::SetTempo(t) => apres::MIDIEvent::SetTempo(t),
        MidiEvent::EndOfTrack => apres::MIDIEvent::EndOfTrack,
    };
    apres::MIDIBytes::as_bytes(&ev)
}

/// What a writer holds: the time resolution and each track's bytes.
pub struct SmfModel {
    pub ppqn: u16,
    pub tracks: Seq<Seq<u8>>,
}

/// `tracks` with empty tracks appended until index `i` exists.
pub open spec fn grow(tracks: Seq<Seq<u8>>, i: nat) -> Seq<Seq<u8>> {
    if i < tracks.len() {
        tracks
    } else {
        tracks + Seq::new((i + 1 - tracks.len()) as nat, |_k: int| Seq::<u8>::empty())
    }
}

/// `tracks` after `event` is pushed on track `track` after `wait` ticks.
pub open spec fn with_event(tracks: Seq<Seq<u8>>, track: nat, wait: nat, event: MidiEvent) -> Seq<
    Seq<u8>,
> {
    let g = grow(tracks, track);
    g.update(track as int, g[track as int] + vlq(wait) + event_encoding(event))
}

/// `tracks` after each `(track, wait, event)` of `pushes` is pushed, in order.
pub open spec fn with_events(tracks: Seq<Seq<u8>>, pushes: Seq<(nat, nat, MidiEvent)>) -> Seq<
    Seq<u8>,
>
    decreases pushes.len(),
{
    if pushes.len() == 0 {
        tracks
    } else {
        let p = pushes.last();
        with_event(with_events(tracks, pushes.drop_last()), p.0, p.1, p.2)
    }
}

/// `x` as two big-endian bytes.
pub open spec fn be16(x: nat) -> Seq<u8> {
    seq![(x / 256 % 256) as u8, (x % 256) as u8]
}

/// `x` as four big-endian bytes.
pub open spec fn be32(x: nat) -> Seq<u8> {
    seq![(x / 0x100_0000 % 256) as u8, (x / 0x1_0000 % 256) as u8, (x / 256 % 256) as u8, (x % 256) as u8]
}

/// The header chunk: `MThd`, length 6, format 1, track count, resolution.
pub open spec fn header_chunk(n_tracks: nat, ppqn: nat) -> Seq<u8> {
    seq![0x4Du8, 0x54u8, 0x68u8, 0x64u8] + be32(6) + be16(1) + be16(n_tracks) + be16(ppqn)
}

/// A track chunk: `MTrk`, the length of the content, the content.
pub open spec fn track_chunk(t: Seq<u8>) -> Seq<u8> {
    seq![0x4Du8, 0x54u8, 0x72u8, 0x6Bu8] + be32(t.len()) + t
}

/// The chunks of all tracks, in index order.
pub open spec fn track_chunks(ts: Seq<Seq<u8>>) -> Seq<u8>
    decreases ts.len(),
{
    if ts.len() == 0 {
        Seq::empty()
    } else {
        track_chunks(ts.drop_last()) + track_chunk(ts.last())
    }
}

/// The whole file.
pub open spec fn smf_bytes(m: SmfModel) -> Seq<u8> {
    header_chunk(m.tracks.len(), m.ppqn as nat) + track_chunks(m.tracks)
}

/// Pushing one more event extends the fold by one step.
pub(crate) proof fn lemma_with_events_push(
    tracks: Seq<Seq<u8>>,
    pushes: Seq<(nat, nat, MidiEvent)>,
    p: (nat, nat, MidiEvent),
)
    ensures
        with_events(tracks, pushes.push(p)) == with_event(with_events(tracks, pushes), p.0, p.1, p.2),
{
    assert(pushes.push(p).drop_last() =~= pushes);
}

/// The value of two big-endian bytes.
pub open spec fn be16_value(b: Seq<u8>) -> nat {
    b[0] as nat * 256 + b[1] as nat
}

/// The value of four big-endian bytes.
pub open spec fn be32_value(b: Seq<u8>) -> nat {
    b[0] as nat * 0x100_0000 + b[1] as nat * 0x1_0000 + b[2] as nat * 256 + b[3] as nat
}

proof fn lemma_be16(x: u16)
    ensures
        be16(x as nat).len() == 2,
        be16_value(be16(x as nat)) == x,
{
    assert((x / 256 % 256) as u8 as nat * 256 + (x % 256) as u8 as nat == x) by (bit_vector);
}

proof fn lemma_be32(x: u32)
    ensures
        be32(x as nat).len() == 4,
        be32_value(be32(x as nat)) == x,
{
    assert((x / 0x100_0000 % 256) as u8 as nat * 0x100_0000 + (x / 0x1_0000 % 256) as u8 as nat * 0x1_0000
        + (x / 256 % 256) as u8 as nat * 256 + (x % 256) as u8 as nat == x) by (bit_vector);
}

/// The header of every file holds `MThd`, the length 6, the format 1, the
/// number of tracks held and the resolution.
pub proof fn lemma_header_fields(m: SmfModel)
    requires
        m.tracks.len() <= 0xFFFF,
    ensures
        smf_bytes(m).len() >= 14,
        smf_bytes(m).subrange(0, 4) == seq![0x4Du8, 0x54u8, 0x68u8, 0x64u8],
        be32_value(smf_bytes(m).subrange(4, 8)) == 6,
        be16_value(smf_bytes(m).subrange(8, 10)) == 1,
        be16_value(smf_bytes(m).subrange(10, 12)) == m.tracks.len(),
        be16_value(smf_bytes(m).subrange(12, 14)) == m.ppqn,
{
    let b = smf_bytes(m);
    let h = header_chunk(m.tracks.len(), m.ppqn as nat);
    lemma_be32(6);
    lemma_be16(1);
    lemma_be16(m.tracks.len() as u16);
    lemma_be16(m.ppqn);
    assert(h.len() == 14);
    assert(b.subrange(0, 4) =~= seq![0x4Du8, 0x54u8, 0x68u8, 0x64u8]);
    assert(b.subrange(4, 8) =~= be32(6));
    assert(b.subrange(8, 10) =~= be16(1));
    assert(b.subrange(10, 12) =~= be16(m.tracks.len()));
    assert(b.subrange(12, 14) =~= be16(m.ppqn as nat));
}

/// Where the chunk of track `i` starts, counted from the end of the header:
/// each earlier track takes eight bytes of tag and length plus its content.
pub open spec fn chunks_before(ts: Seq<Seq<u8>>, i: nat) -> nat
    decreases i,
{
    if i == 0 || i > ts.len() {
        0
    } else {
        chunks_before(ts, (i - 1) as nat) + 8 + ts[i - 1].len()
    }
}

proof fn lemma_chunks_before_prefix(ts: Seq<Seq<u8>>, n: nat, i: nat)
    requires
        i <= n <= ts.len(),
    ensures
        chunks_before(ts.subrange(0, n as int), i) == chunks_before(ts, i),
    decreases i,
{
    if i > 0 {
        lemma_chunks_before_prefix(ts, n, (i - 1) as nat);
    }
}

proof fn lemma_chunks_layout(ts: Seq<Seq<u8>>, i: nat)
    requires
        i < ts.len(),
    ensures
        track_chunks(ts).len() == chunks_before(ts, ts.len()),
        chunks_before(ts, i) + 8 + ts[i as int].len() <= track_chunks(ts).len(),
        track_chunks(ts).subrange(
            chunks_before(ts, i) as int,
            (chunks_before(ts, i) + 8 + ts[i as int].len()) as int,
        ) == track_chunk(ts[i as int]),
    decreases ts.len(),
{
    let n = (ts.len() - 1) as nat;
    let init = ts.drop_last();
    lemma_chunks_before_prefix(ts, n, n);
    lemma_chunks_before_prefix(ts, n, i);
    assert(init =~= ts.subrange(0, n as int));
    if n > 0 {
        lemma_chunks_layout(init, if i < n { i } else { 0 });
    } else {
        assert(track_chunks(init) =~= Seq::<u8>::empty());
    }
    let c = track_chunk(ts[n as int]);
    assert(c.len() == 8 + ts[n as int].len());
    if i < n {
        assert(track_chunks(ts).subrange(
            chunks_before(ts, i) as int,
            (chunks_before(ts, i) + 8 + ts[i as int].len()) as int,
        ) =~= track_chunks(init).subrange(
            chunks_before(ts, i) as int,
            (chunks_before(ts, i) + 8 + ts[i as int].len()) as int,
        ));
    } else {
        assert(track_chunks(ts).subrange(
            chunks_before(ts, i) as int,
            (chunks_before(ts, i) + 8 + ts[i as int].len()) as int,
        ) =~= c);
    }
}

/// Every track chunk of a file holds `MTrk`, then a big-endian length equal
/// to the length of the track's content, then exactly that content.
pub proof fn lemma_track_framing(m: SmfModel, i: nat)
    requires
        i < m.tracks.len(),
        m.tracks[i as int].len() <= 0xFFFF_FFFF,
    ensures
        ({
            let b = smf_bytes(m);
            let o: int = 14 + chunks_before(m.tracks, i) as int;
            let t = m.tracks[i as int];
            &&& o + 8 + t.len() <= b.len()
            &&& b.subrange(o, o + 4) == seq![0x4Du8, 0x54u8, 0x72u8, 0x6Bu8]
            &&& be32_value(b.subrange(o + 4, o + 8)) == t.len()
            &&& b.subrange(o + 8, o + 8 + t.len()) == t
        }),
{
    let b = smf_bytes(m);
    let h = header_chunk(m.tracks.len(), m.ppqn as nat);
    let t = m.tracks[i as int];
    let r: int = chunks_before(m.tracks, i) as int;
    lemma_chunks_layout(m.tracks, i);
    lemma_be32(t.len() as u32);
    assert(h.len() == 14);
    let c = track_chunk(t);
    assert(b.subrange(14 + r, 14 + r + 8 + t.len()) =~= c);
    assert(b.subrange(14 + r, 14 + r + 4) =~= c.subrange(0, 4));
    let whole = b.subrange(14 + r, 14 + r + 8 + t.len());
    assert(c.subrange(4, 8) =~= be32(t.len()));
    assert(c.subrange(8, 8 + t.len() as int) =~= t);
    assert(b.subrange(14 + r + 4, 14 + r + 8) =~= whole.subrange(4, 8));
    assert(b.subrange(14 + r + 8, 14 + r + 8 + t.len()) =~= whole.subrange(8, 8 + t.len() as int));
    assert(b.subrange(14 + r + 4, 14 + r + 8) =~= be32((t.len() as u32) as nat));
    assert(b.subrange(14 + r + 8, 14 + r + 8 + t.len()) =~= t);
}

/// Two writers that start empty and receive the same events in the same
/// order, with the same resolution, write byte-identical files.
pub proof fn lemma_serialization_deterministic(
    a: SmfModel,
    b: SmfModel,
    pushes: Seq<(nat, nat, MidiEvent)>,
)
    requires
        a.ppqn == b.ppqn,
        a.tracks == with_events(Seq::empty(), pushes),
        b.tracks == with_events(Seq::empty(), pushes),
    ensures
        smf_bytes(a) == smf_bytes(b),
{
}

/// Builds a multi-track Standard MIDI File in memory: a resolution in ticks
/// per quarter note and one byte buffer per track.
pub struct MidiWriterRaw {
    ppqn: u16,
    tracks: Vec<Vec<u8>>,
}

impl View for MidiWriterRaw {
    type V = SmfModel;

    closed spec fn view(&self) -> SmfModel {
        SmfModel { ppqn: self.ppqn, tracks: self.tracks@.map_values(|t: Vec<u8>| t@) }
    }
}

fn push_be16(out: &mut Vec<u8>, x: u16)
    ensures
        final(out)@ == old(out)@ + be16(x as nat),
{
    out.push((x / 256) as u8);
    out.push((x % 256) as u8);
    assert(final(out)@ =~= old(out)@ + be16(x as nat));
}

fn push_be32(out: &mut Vec<u8>, x: u32)
    ensures
        final(out)@ == old(out)@ + be32(x as nat),
{
    out.push((x / 0x100_0000) as u8);
    out.push((x / 0x1_0000 % 256) as u8);
    out.push((x / 256 % 256) as u8);
    out.push((x % 256) as u8);
    assert(final(out)@ =~= old(out)@ + be32(x as nat));
}

fn push_tag(out: &mut Vec<u8>, a: u8, b: u8, c: u8, d: u8)
    ensures
        final(out)@ == old(out)@ + seq![a, b, c, d],
{
    out.push(a);
    out.push(b);
    out.push(c);
    out.push(d);
    assert(final(out)@ =~= old(out)@ + seq![a, b, c, d]);
}

impl MidiWriterRaw {
    /// A writer with resolution 480 and no tracks.
    pub fn new() -> (r: MidiWriterRaw)
        ensures
            r@.ppqn == 480,
            r@.tracks == Seq::<Seq<u8>>::empty(),
    {
        let r = MidiWriterRaw { ppqn: 480, tracks: Vec::new() };
        assert(r@.tracks =~= Seq::<Seq<u8>>::empty());
        r
    }

    /// Sets the resolution written into the header.
    pub fn set_ppqn(&mut self, ppqn: u16)
        ensures
            final(self)@.ppqn == ppqn,
            final(self)@.tracks == old(self)@.tracks,
    {
        self.ppqn = ppqn;
    }

    /// Appends an empty track and returns its index.
    pub fn add_track(&mut self) -> (r: usize)
        ensures
            final(self)@.ppqn == old(self)@.ppqn,
            final(self)@.tracks == old(self)@.tracks.push(Seq::<u8>::empty()),
            r == old(self)@.tracks.len(),
    {
        self.tracks.push(Vec::new());
        assert(self@.tracks =~= old(self)@.tracks.push(Seq::<u8>::empty()));
        self.tracks.len() - 1
    }

    /// Appends empty tracks until index `i` exists.
    pub fn ensure_track(&mut self, i: usize)
        ensures
            final(self)@.ppqn == old(self)@.ppqn,
            final(self)@.tracks == grow(old(self)@.tracks, i as nat),
            final(self)@.tracks.len() > i,
    {
        let ghost start = self@.tracks;
        while self.tracks.len() <= i
            invariant
                self@.ppqn == old(self)@.ppqn,
                start == old(self)@.tracks,
                start.len() <= self@.tracks.len(),
                self@.tracks.len() <= i + 1 || self@.tracks == start,
                self@.tracks =~= start + Seq::new(
                    (self@.tracks.len() - start.len()) as nat,
                    |_k: int| Seq::<u8>::empty(),
                ),
            decreases i + 1 - self.tracks.len(),
        {
            self.add_track();
        }
        assert(self@.tracks =~= grow(start, i as nat));
    }

    /// Appends the encoding of `wait` and the bytes of `event` to track
    /// `track`, creating empty tracks up to it first.
    pub fn push_event(&mut self, track: usize, wait: usize, event: MidiEvent)
        ensures
            final(self)@.ppqn == old(self)@.ppqn,
            final(self)@.tracks == with_event(old(self)@.tracks, track as nat, wait as nat, event),
    {
        self.ensure_track(track);
        let mut bytes = to_variable_length_bytes(wait);
        let mut ev = event_bytes(&event);
        bytes.append(&mut ev);
        let ghost g = self@.tracks;
        let ghost before = self.tracks@;
        assert(before.len() == g.len());
        assert(bytes@ == vlq(wait as nat) + event_encoding(event));
        self.tracks[track].append(&mut bytes);
        assert(self.tracks@ == before.update(track as int, self.tracks@[track as int]));
        assert(self.tracks@[track as int]@ == g[track as int] + vlq(wait as nat) + event_encoding(event));
        assert(self@.tracks =~= g.update(track as int, g[track as int] + vlq(wait as nat) + event_encoding(event)));
        assert(self@.tracks =~= with_event(old(self)@.tracks, track as nat, wait as nat, event));
    }

    /// Whether the file's size fields can hold this writer: at most 65535
    /// tracks, each of at most 2^32 - 1 bytes.
    pub fn fits_in_file(&self) -> (r: bool)
        ensures
            r == (self@.tracks.len() <= 0xFFFF && forall|i: int|
                0 <= i < self@.tracks.len() ==> #[trigger] self@.tracks[i].len() <= 0xFFFF_FFFF),
    {
        if self.tracks.len() > 0xFFFF {
            return false;
        }
        let mut i: usize = 0;
        while i < self.tracks.len()
            invariant
                i <= self@.tracks.len(),
                forall|k: int| 0 <= k < i ==> #[trigger] self@.tracks[k].len() <= 0xFFFF_FFFF,
            decreases self@.tracks.len() - i,
        {
            if self.tracks[i].len() > 0xFFFF_FFFF {
                assert(self@.tracks[i as int].len() > 0xFFFF_FFFF);
                return false;
            }
            i = i + 1;
        }
        true
    }

    /// The Standard MIDI File: the header chunk, then one chunk per track in
    /// index order, empty ones included.
    pub fn serialize(&self) -> (r: Vec<u8>)
        requires
            self@.tracks.len() <= 0xFFFF,
            forall|i: int| 0 <= i < self@.tracks.len() ==> #[trigger] self@.tracks[i].len() <= 0xFFFF_FFFF,
        ensures
            r@ == smf_bytes(self@),
    {
        let mut out: Vec<u8> = Vec::new();
        push_tag(&mut out, 0x4D, 0x54, 0x68, 0x64);
        push_be32(&mut out, 6);
        push_be16(&mut out, 1);
        push_be16(&mut out, self.tracks.len() as u16);
        push_be16(&mut out, self.ppqn);
        assert(out@ =~= header_chunk(self@.tracks.len(), self@.ppqn as nat));
        let ghost ts = self@.tracks;
        let mut i: usize = 0;
        while i < self.tracks.len()
            invariant
                i <= self@.tracks.len(),
                ts == self@.tracks,
                forall|k: int| 0 <= k < ts.len() ==> #[trigger] ts[k].len() <= 0xFFFF_FFFF,
                out@ == header_chunk(ts.len(), self@.ppqn as nat) + track_chunks(ts.subrange(0, i as int)),
            decreases self.tracks.len() - i,
        {
            let track = &self.tracks[i];
            assert(track@ == ts[i as int]);
            push_tag(&mut out, 0x4D, 0x54, 0x72, 0x6B);
            push_be32(&mut out, track.len() as u32);
            let mut content = track.clone();
            assert(content@ =~= track@);
            out.append(&mut content);
            proof {
                assert(ts.subrange(0, i + 1).drop_last() =~= ts.subrange(0, i as int));
                assert(ts.subrange(0, i + 1).last() == ts[i as int]);
            }
            assert(out@ =~= header_chunk(ts.len(), self@.ppqn as nat) + track_chunks(ts.subrange(0, i + 1)));
            i = i + 1;
        }
        assert(ts.subrange(0, ts.len() as int) =~= ts);
        out
    }
}

} // verus!
