//! Turns PCM samples into notes: one note per non-silent sample, with a
//! velocity that follows the amplitude and a voice chosen by the channel and
//! the sample's sign. One MIDI tick stands for one sample period.

use vstd::prelude::*;
use crate::smf::{MidiEvent, MidiWriterRaw, with_events, lemma_with_events_push};

verus! {

/// A pushed event: track, delta time, event.
pub type Push = (nat, nat, MidiEvent);

/// The controller number that sets a channel's pan position.
pub const PAN_CONTROLLER: u8 = 10;

/// The fixed choices of the mapping: the note pitch, the programs of the
/// voices for non-negative and for negative samples, the pan positions of
/// the left and the right voices, and the tempo in microseconds per quarter
/// note.
#[derive(Debug, Clone, Copy)]
pub struct MapperConfig {
    pub pitch: u8,
    pub program_positive: u8,
    pub program_negative: u8,
    pub pan_left: u8,
    pub pan_right: u8,
    pub tempo: u32,
}

/// Pitch 60, programs 0 and 74, pans 1 and 127, tempo 10000: with a
/// resolution of a hundredth of the sample rate, one tick is one sample.
pub open spec fn standard_config() -> MapperConfig {
    MapperConfig {
        pitch: 60,
        program_positive: 0,
        program_negative: 74,
        pan_left: 1,
        pan_right: 127,
        tempo: 10000,
    }
}

impl MapperConfig {
    /// The standard configuration.
    pub fn standard() -> (r: MapperConfig)
        ensures
            r == standard_config(),
    {
        MapperConfig {
            pitch: 60,
            program_positive: 0,
            program_negative: 74,
            pan_left: 1,
            pan_right: 127,
            tempo: 10000,
        }
    }
}

/// Receives a mark for about every twentieth of each channel's samples.
/// Marks have no bearing on what is written.
pub trait ProgressObserver {
    fn advance(&mut self);
}

/// An observer that ignores the marks.
pub struct NoProgress;

impl ProgressObserver for NoProgress {
    fn advance(&mut self) {
    }
}

/// Why a conversion was refused.
#[derive(Debug, Clone, Copy, PartialEq, Eq, Structural)]
pub enum MapError {
    /// The input has neither one nor two channels.
    UnsupportedChannelLayout,
}

/// The magnitude of a sample.
pub open spec fn amplitude(x: i16) -> nat {
    if x < 0 { (-(x as int)) as nat } else { x as nat }
}

/// `v` is `round(sqrt(a * 127^2 / 32768))`, halves rounded up: with
/// `y = a * 127^2 / 32768`, it is `v - 1/2 <= sqrt(y) < v + 1/2`, that is
/// `(2v - 1)^2 <= 4y < (2v + 1)^2`, and `4y = a * 16129 / 8192`.
pub open spec fn is_rounded_velocity(v: nat, a: nat) -> bool {
    &&& (v == 0 || (2 * v - 1) * (2 * v - 1) * 8192 <= a * 16129)
    &&& a * 16129 < (2 * v + 1) * (2 * v + 1) * 8192
}

/// The velocity of a sample of magnitude `a`.
pub open spec fn velocity(a: nat) -> nat {
    choose|v: nat| is_rounded_velocity(v, a)
}

/// The voice of a sample: 2 on the right channel, plus 1 when negative.
pub open spec fn voice_of(x: i16, right: bool) -> nat {
    (if right { 2nat } else { 0nat }) + (if x < 0 { 1nat } else { 0nat })
}

/// Any `v` with `is_rounded_velocity(v, a)` is the velocity of `a`: the
/// rounded root is unique.
pub proof fn lemma_velocity_is(v: nat, a: nat)
    requires
        is_rounded_velocity(v, a),
    ensures
        velocity(a) == v,
{
    lemma_velocity_unique(v, velocity(a), a);
}

proof fn lemma_velocity_unique(v: nat, w: nat, a: nat)
    requires
        is_rounded_velocity(v, a),
        is_rounded_velocity(w, a),
    ensures
        v == w,
{
    if v < w {
        assert((2 * v + 1) * (2 * v + 1) <= (2 * w - 1) * (2 * w - 1)) by (nonlinear_arith)
            requires v < w;
    } else if w < v {
        assert((2 * w + 1) * (2 * w + 1) <= (2 * v - 1) * (2 * v - 1)) by (nonlinear_arith)
            requires w < v;
    }
}

/// Whether `(2v + 1)^2 * 8192` is above `x`.
fn exceeds(v: u64, x: u64) -> (r: bool)
    requires
        v <= 127,
    ensures
        r == ((2 * v + 1) * (2 * v + 1) * 8192 > x),
{
    let w: u64 = 2 * v + 1;
    assert(w * w * 8192 <= 532684800) by (nonlinear_arith)
        requires
            w <= 255,
    ;
    w * w * 8192 > x
}

/// The velocity and the voice of a sample. The velocity is computed exactly
/// in integers; it is at most 127, since the magnitude is at most 32768.
pub fn amp2vel(point: i16, is_right_channel: bool) -> (r: (u8, u8))
    ensures
        r.0 as nat == velocity(amplitude(point)),
        r.0 <= 127,
        r.1 as nat == voice_of(point, is_right_channel),
{
    let a: u64 = if point < 0 { (0i64 - point as i64) as u64 } else { point as u64 };
    let x: u64 = a * 16129;
    let mut v: u64 = 0;
    while !exceeds(v, x)
        invariant
            a == amplitude(point),
            a <= 32768,
            x == a * 16129,
            v <= 127,
            v == 0 || (2 * v - 1) * (2 * v - 1) * 8192 <= x,
        decreases 127 - v,
    {
        assert(v < 127) by {
            if v == 127 {
                assert((2 * v + 1) * (2 * v + 1) * 8192 == 532684800) by (nonlinear_arith)
                    requires
                        v == 127,
                ;
            }
        }
        assert((2 * (v + 1) - 1) * (2 * (v + 1) - 1) == (2 * v + 1) * (2 * v + 1));
        v = v + 1;
    }
    proof {
        lemma_velocity_is(v as nat, a as nat);
    }
    let mut u: u8 = if point >= 0 { 0 } else { 1 };
    if is_right_channel {
        u = u + 2;
    }
    (v as u8, u)
}

/// The four running delta times, each one tick further on.
pub open spec fn ticked(d: Seq<nat>) -> Seq<nat> {
    Seq::new(4, |k: int| d[k] + 1)
}

/// One sample: a silent one only advances the four delta times; any other
/// pushes a note on and, one tick later, a note off on its voice, whose
/// delta time then starts again from zero while the others advance.
pub open spec fn sample_step(
    state: (Seq<Push>, Seq<nat>),
    x: i16,
    right: bool,
    pitch: u8,
) -> (Seq<Push>, Seq<nat>) {
    let (p, d) = state;
    let vel = velocity(amplitude(x));
    let u = voice_of(x, right);
    if vel == 0 {
        (p, ticked(d))
    } else {
        (
            p.push((u, d[u as int], MidiEvent::NoteOn(u as u8, pitch, vel as u8))).push(
                (u, 1, MidiEvent::NoteOff(u as u8, pitch, vel as u8)),
            ),
            ticked(d).update(u as int, 0),
        )
    }
}

/// The pushes after the first `n` samples of a channel, following `start`,
/// and the delta times then; all four start at zero.
pub open spec fn channel_run(start: Seq<Push>, s: Seq<i16>, right: bool, pitch: u8, n: nat) -> (
    Seq<Push>,
    Seq<nat>,
)
    decreases n,
{
    if n == 0 {
        (start, seq![0nat, 0nat, 0nat, 0nat])
    } else {
        sample_step(channel_run(start, s, right, pitch, (n - 1) as nat), s[n - 1], right, pitch)
    }
}

/// The pushes after the first `k` channels, following `start`; channel 1 is
/// the right one.
pub open spec fn channels_run(start: Seq<Push>, src: Seq<Seq<i16>>, pitch: u8, k: nat) -> Seq<Push>
    decreases k,
{
    if k == 0 {
        start
    } else {
        let c = (k - 1) as nat;
        channel_run(channels_run(start, src, pitch, c), src[c as int], c == 1, pitch, src[c as int].len()).0
    }
}

/// The program of a voice: one for non-negative samples, one for negative.
pub open spec fn program_of(cfg: MapperConfig, v: nat) -> u8 {
    if v % 2 == 0 { cfg.program_positive } else { cfg.program_negative }
}

/// The pan position of a voice: voices 0 and 1 are left, 2 and 3 right.
pub open spec fn pan_of(cfg: MapperConfig, v: nat) -> u8 {
    if v < 2 { cfg.pan_left } else { cfg.pan_right }
}

/// The tempo on track 0, then a program change on each voice, then a pan
/// change on each voice, all at time zero.
pub open spec fn setup_pushes(cfg: MapperConfig, voices: nat) -> Seq<Push> {
    seq![(0nat, 0nat, MidiEvent::SetTempo(cfg.tempo))] + Seq::new(
        voices,
        |v: int| (v as nat, 0nat, MidiEvent::ProgramChange(v as u8, program_of(cfg, v as nat))),
    ) + Seq::new(
        voices,
        |v: int| (v as nat, 0nat, MidiEvent::ControlChange(v as u8, PAN_CONTROLLER, pan_of(cfg, v as nat))),
    )
}

/// An end of track on each voice.
pub open spec fn end_pushes(voices: nat) -> Seq<Push> {
    Seq::new(voices, |v: int| (v as nat, 0nat, MidiEvent::EndOfTrack))
}

/// Everything the mapping pushes for the channels `src`: two voices per channel.
pub open spec fn mapping_pushes(src: Seq<Seq<i16>>, cfg: MapperConfig) -> Seq<Push> {
    let voices = 2 * src.len();
    channels_run(setup_pushes(cfg, voices), src, cfg.pitch, src.len()) + end_pushes(voices)
}

/// How many of the first `n` samples of `s` are not silent.
pub open spec fn notes_in(s: Seq<i16>, n: nat) -> nat
    decreases n,
{
    if n == 0 {
        0
    } else {
        notes_in(s, (n - 1) as nat) + if velocity(amplitude(s[n - 1])) > 0 { 1nat } else { 0nat }
    }
}

/// How many samples of the first `k` channels are not silent.
pub open spec fn notes_total(src: Seq<Seq<i16>>, k: nat) -> nat
    decreases k,
{
    if k == 0 {
        0
    } else {
        notes_total(src, (k - 1) as nat) + notes_in(src[k - 1], src[k - 1].len())
    }
}

/// The samples of each channel.
pub open spec fn channels_view(src: Seq<Vec<i16>>) -> Seq<Seq<i16>> {
    src.map_values(|c: Vec<i16>| c@)
}

/// `smf` after `event` is pushed, with the log of pushes extended to match.
fn push_logged(
    smf: &mut MidiWriterRaw,
    track: usize,
    wait: usize,
    event: MidiEvent,
    Ghost(base): Ghost<Seq<Seq<u8>>>,
    Ghost(log): Ghost<Seq<Push>>,
)
    requires
        old(smf)@.tracks == with_events(base, log),
    ensures
        final(smf)@.tracks == with_events(base, log.push((track as nat, wait as nat, event))),
        final(smf)@.ppqn == old(smf)@.ppqn,
{
    smf.push_event(track, wait, event);
    proof {
        lemma_with_events_push(base, log, (track as nat, wait as nat, event));
    }
}

/// Pushes the tempo, then a program change and a pan change on each voice.
fn push_setup(smf: &mut MidiWriterRaw, cfg: &MapperConfig, voices: usize)
    requires
        voices <= 4,
    ensures
        final(smf)@.tracks == with_events(old(smf)@.tracks, setup_pushes(*cfg, voices as nat)),
        final(smf)@.ppqn == old(smf)@.ppqn,
{
    let ghost base = smf@.tracks;
    let ghost mut log: Seq<Push> = Seq::empty();
    push_logged(smf, 0, 0, MidiEvent::SetTempo(cfg.tempo), Ghost(base), Ghost(log));
    proof {
        log = log.push((0nat, 0nat, MidiEvent::SetTempo(cfg.tempo)));
    }
    let ghost head = log;
    let ghost programs = Seq::new(
        voices as nat,
        |v: int| (v as nat, 0nat, MidiEvent::ProgramChange(v as u8, program_of(*cfg, v as nat))),
    );
    let ghost pans = Seq::new(
        voices as nat,
        |v: int| (v as nat, 0nat, MidiEvent::ControlChange(v as u8, PAN_CONTROLLER, pan_of(*cfg, v as nat))),
    );
    let mut v: usize = 0;
    while v < voices
        invariant
            v <= voices <= 4,
            log == head + programs.subrange(0, v as int),
            programs.len() == voices,
            forall|k: int| 0 <= k < voices ==> #[trigger] programs[k] == (k as nat, 0nat, MidiEvent::ProgramChange(k as u8, program_of(*cfg, k as nat))),
            smf@.tracks == with_events(base, log),
            smf@.ppqn == old(smf)@.ppqn,
        decreases voices - v,
    {
        let program = if v % 2 == 0 { cfg.program_positive } else { cfg.program_negative };
        let event = MidiEvent::ProgramChange(v as u8, program);
        push_logged(smf, v, 0, event, Ghost(base), Ghost(log));
        proof {
            log = log.push((v as nat, 0nat, event));
            assert(log =~= head + programs.subrange(0, v + 1));
        }
        v = v + 1;
    }
    assert(programs.subrange(0, voices as int) =~= programs);
    let ghost mid = log;
    v = 0;
    while v < voices
        invariant
            v <= voices <= 4,
            log == mid + pans.subrange(0, v as int),
            pans.len() == voices,
            forall|k: int| 0 <= k < voices ==> #[trigger] pans[k] == (k as nat, 0nat, MidiEvent::ControlChange(k as u8, PAN_CONTROLLER, pan_of(*cfg, k as nat))),
            smf@.tracks == with_events(base, log),
            smf@.ppqn == old(smf)@.ppqn,
        decreases voices - v,
    {
        let pan = if v < 2 { cfg.pan_left } else { cfg.pan_right };
        let event = MidiEvent::ControlChange(v as u8, PAN_CONTROLLER, pan);
        push_logged(smf, v, 0, event, Ghost(base), Ghost(log));
        proof {
            log = log.push((v as nat, 0nat, event));
            assert(log =~= mid + pans.subrange(0, v + 1));
        }
        v = v + 1;
    }
    assert(pans.subrange(0, voices as int) =~= pans);
    assert(log =~= setup_pushes(*cfg, voices as nat));
}

/// Pushes the notes of one channel and returns how many there were.
fn map_channel<P: ProgressObserver>(
    smf: &mut MidiWriterRaw,
    progress: &mut P,
    samples: &Vec<i16>,
    right: bool,
    pitch: u8,
    Ghost(base): Ghost<Seq<Seq<u8>>>,
    Ghost(log): Ghost<Seq<Push>>,
) -> (r: u64)
    requires
        old(smf)@.tracks == with_events(base, log),
        samples@.len() <= isize::MAX,
    ensures
        final(smf)@.tracks == with_events(base, channel_run(log, samples@, right, pitch, samples@.len()).0),
        final(smf)@.ppqn == old(smf)@.ppqn,
        r == notes_in(samples@, samples@.len()),
        r <= samples@.len(),
{
    let mut deltatimes: Vec<usize> = Vec::new();
    deltatimes.push(0);
    deltatimes.push(0);
    deltatimes.push(0);
    deltatimes.push(0);
    let step: usize = samples.len() / 20;
    let mut count: u64 = 0;
    let ghost mut pushes = log;
    let mut i: usize = 0;
    assert(channel_run(log, samples@, right, pitch, 0).1 =~= deltatimes@.map_values(|d: usize| d as nat));
    while i < samples.len()
        invariant
            i <= samples@.len() <= isize::MAX,
            deltatimes@.len() == 4,
            forall|k: int| 0 <= k < 4 ==> #[trigger] deltatimes@[k] <= i,
            channel_run(log, samples@, right, pitch, i as nat).0 == pushes,
            channel_run(log, samples@, right, pitch, i as nat).1 == deltatimes@.map_values(|d: usize| d as nat),
            smf@.tracks == with_events(base, pushes),
            smf@.ppqn == old(smf)@.ppqn,
            count == notes_in(samples@, i as nat),
            count <= i,
        decreases samples@.len() - i,
    {
        let x = samples[i];
        let (vel, u) = amp2vel(x, right);
        let ghost d = deltatimes@.map_values(|d: usize| d as nat);
        if vel != 0 {
            let d1 = deltatimes[u as usize];
            let on = MidiEvent::NoteOn(u, pitch, vel);
            let off = MidiEvent::NoteOff(u, pitch, vel);
            push_logged(smf, u as usize, d1, on, Ghost(base), Ghost(pushes));
            proof {
                pushes = pushes.push((u as nat, d1 as nat, on));
            }
            push_logged(smf, u as usize, 1, off, Ghost(base), Ghost(pushes));
            proof {
                pushes = pushes.push((u as nat, 1nat, off));
            }
            count = count + 1;
        }
        deltatimes[0] = deltatimes[0] + 1;
        deltatimes[1] = deltatimes[1] + 1;
        deltatimes[2] = deltatimes[2] + 1;
        deltatimes[3] = deltatimes[3] + 1;
        if vel != 0 {
            deltatimes[u as usize] = 0;
        }
        if step != 0 && i % step == 0 && i != 0 {
            progress.advance();
        }
        proof {
            let next = sample_step((channel_run(log, samples@, right, pitch, i as nat).0, d), x, right, pitch);
            assert(samples@[i as int] == x);
            assert(channel_run(log, samples@, right, pitch, (i + 1) as nat) == next);
            assert(next.1 =~= deltatimes@.map_values(|d: usize| d as nat));
        }
        i = i + 1;
    }
    count
}

/// Pushes an end of track on each voice.
fn push_ends(smf: &mut MidiWriterRaw, voices: usize, Ghost(base): Ghost<Seq<Seq<u8>>>, Ghost(log): Ghost<Seq<Push>>)
    requires
        old(smf)@.tracks == with_events(base, log),
    ensures
        final(smf)@.tracks == with_events(base, log + end_pushes(voices as nat)),
        final(smf)@.ppqn == old(smf)@.ppqn,
{
    let ghost mut pushes = log;
    let mut v: usize = 0;
    while v < voices
        invariant
            v <= voices,
            pushes == log + end_pushes(voices as nat).subrange(0, v as int),
            smf@.tracks == with_events(base, pushes),
            smf@.ppqn == old(smf)@.ppqn,
        decreases voices - v,
    {
        push_logged(smf, v, 0, MidiEvent::EndOfTrack, Ghost(base), Ghost(pushes));
        proof {
            pushes = pushes.push((v as nat, 0nat, MidiEvent::EndOfTrack));
            assert(pushes =~= log + end_pushes(voices as nat).subrange(0, v + 1));
        }
        v = v + 1;
    }
    assert(end_pushes(voices as nat).subrange(0, voices as int) =~= end_pushes(voices as nat));
}

/// Converts one or two channels of samples into notes on `smf` under
/// `cfg`, and returns the number of notes; `progress` is told as the
/// channels advance. The resolution becomes a
/// hundredth of the sample rate `fs`, so that one tick is one sample period.
/// Any other number of channels is refused before `smf` is touched.
pub fn gen_midi_with_config<P: ProgressObserver>(
    src: &Vec<Vec<i16>>,
    smf: &mut MidiWriterRaw,
    fs: u32,
    cfg: &MapperConfig,
    progress: &mut P,
) -> (r: Result<u64, MapError>)
    requires
        fs / 100 <= 0xFFFF,
        forall|c: int| 0 <= c < src@.len() ==> #[trigger] src@[c]@.len() <= isize::MAX,
    ensures
        !(src@.len() == 1 || src@.len() == 2) ==> r == Err::<u64, MapError>(
            MapError::UnsupportedChannelLayout,
        ) && final(smf)@ == old(smf)@,
        src@.len() == 1 || src@.len() == 2 ==> {
            let cv = channels_view(src@);
            &&& r == Ok::<u64, MapError>(notes_total(cv, cv.len()) as u64)
            &&& final(smf)@.ppqn == fs / 100
            &&& final(smf)@.tracks == with_events(old(smf)@.tracks, mapping_pushes(cv, *cfg))
        },
{
    if src.len() != 1 && src.len() != 2 {
        return Err(MapError::UnsupportedChannelLayout);
    }
    let ghost cv = channels_view(src@);
    let ghost base = smf@.tracks;
    smf.set_ppqn((fs / 100) as u16);
    let voices: usize = 2 * src.len();
    push_setup(smf, cfg, voices);
    let ghost mut log = setup_pushes(*cfg, voices as nat);
    let mut note_count: u64 = 0;
    let mut ch: usize = 0;
    while ch < src.len()
        invariant
            src@.len() == 1 || src@.len() == 2,
            cv == channels_view(src@),
            forall|c: int| 0 <= c < src@.len() ==> #[trigger] src@[c]@.len() <= isize::MAX,
            ch <= src@.len(),
            log == channels_run(setup_pushes(*cfg, voices as nat), cv, cfg.pitch, ch as nat),
            smf@.tracks == with_events(base, log),
            smf@.ppqn == fs / 100,
            note_count == notes_total(cv, ch as nat),
            ch == 0 ==> note_count == 0,
            ch <= 1 ==> note_count <= isize::MAX,
            note_count <= 2 * (isize::MAX as nat),
        decreases src@.len() - ch,
    {
        let samples = &src[ch];
        assert(cv[ch as int] == samples@);
        let n = map_channel(smf, progress, samples, ch == 1, cfg.pitch, Ghost(base), Ghost(log));
        proof {
            log = channel_run(log, cv[ch as int], ch == 1, cfg.pitch, cv[ch as int].len()).0;
        }
        note_count = note_count + n;
        ch = ch + 1;
    }
    push_ends(smf, voices, Ghost(base), Ghost(log));
    Ok(note_count)
}

/// `gen_midi_with_config` under the standard configuration, without progress marks.
pub fn gen_midi_from_pcm(src: &Vec<Vec<i16>>, smf: &mut MidiWriterRaw, fs: u32) -> (r: Result<
    u64,
    MapError,
>)
    requires
        fs / 100 <= 0xFFFF,
        forall|c: int| 0 <= c < src@.len() ==> #[trigger] src@[c]@.len() <= isize::MAX,
    ensures
        !(src@.len() == 1 || src@.len() == 2) ==> r == Err::<u64, MapError>(
            MapError::UnsupportedChannelLayout,
        ) && final(smf)@ == old(smf)@,
        src@.len() == 1 || src@.len() == 2 ==> {
            let cv = channels_view(src@);
            &&& r == Ok::<u64, MapError>(notes_total(cv, cv.len()) as u64)
            &&& final(smf)@.ppqn == fs / 100
            &&& final(smf)@.tracks == with_events(
                old(smf)@.tracks,
                mapping_pushes(cv, standard_config()),
            )
        },
{
    let cfg = MapperConfig::standard();
    let mut quiet = NoProgress;
    gen_midi_with_config(src, smf, fs, &cfg, &mut quiet)
}

} // verus!
