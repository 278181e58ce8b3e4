use pcm2midi::mapper::{
    amp2vel, gen_midi_from_pcm, gen_midi_with_config, MapError, MapperConfig, NoProgress,
    ProgressObserver,
};
use pcm2midi::pcm::deinterleave;
use pcm2midi::smf::MidiWriterRaw;

fn track_contents(bytes: &[u8]) -> Vec<Vec<u8>> {
    let mut out = Vec::new();
    let mut pos = 14;
    while pos < bytes.len() {
        let len = ((bytes[pos + 4] as usize) << 24)
            | ((bytes[pos + 5] as usize) << 16)
            | ((bytes[pos + 6] as usize) << 8)
            | (bytes[pos + 7] as usize);
        out.push(bytes[pos + 8..pos + 8 + len].to_vec());
        pos += 8 + len;
    }
    out
}

#[test]
fn silent_sample_has_velocity_zero() {
    assert_eq!(amp2vel(0, false), (0, 0));
    assert_eq!(amp2vel(0, true), (0, 2));
}

#[test]
fn full_scale_samples_have_velocity_127() {
    assert_eq!(amp2vel(32767, false), (127, 0));
    assert_eq!(amp2vel(-32768, false), (127, 1));
    assert_eq!(amp2vel(-32768, true), (127, 3));
}

#[test]
fn unit_samples_share_the_lowest_tier() {
    let (vp, up) = amp2vel(1, false);
    let (vn, un) = amp2vel(-1, false);
    assert_eq!(vp, 1);
    assert_eq!(vn, 1);
    assert_eq!(up, 0);
    assert_eq!(un, 1);
}

#[test]
fn velocity_formula_values() {
    assert_eq!(amp2vel(100, false).0, 7);
    assert_eq!(amp2vel(-50, false).0, 5);
    // sqrt(8192 * 127^2 / 32768) = 63.5 exactly: halves round up.
    assert_eq!(amp2vel(8192, false).0, 64);
    assert_eq!(amp2vel(8191, false).0, 63);
    // sqrt(a * 127^2 / 32768) < 0.5 for a <= 0: a = 1 gives 0.70..
    assert_eq!(amp2vel(2, false).0, 1);
    assert_eq!(amp2vel(3, false).0, 1);
    assert_eq!(amp2vel(6, false).0, 2);
}

#[test]
fn velocity_matches_real_formula_everywhere() {
    for a in -32768i32..=32767 {
        let mag = (a as f64).abs();
        let expected = (mag * 127.0 * 127.0 / 32768.0).sqrt();
        let (v, _) = amp2vel(a as i16, false);
        // Away from halves, the rounding of the real value decides.
        let frac = expected - expected.floor();
        if (frac - 0.5).abs() > 1e-9 {
            assert_eq!(v as f64, (expected + 0.5).floor(), "sample {}", a);
        }
    }
}

#[test]
fn voice_routing() {
    assert_eq!(amp2vel(-5, true).1, 3);
    assert_eq!(amp2vel(5, true).1, 2);
    assert_eq!(amp2vel(5, false).1, 0);
    assert_eq!(amp2vel(-5, false).1, 1);
}

#[test]
fn mono_scenario() {
    let src = vec![vec![100i16, -50, 0]];
    let mut smf = MidiWriterRaw::new();
    let n = gen_midi_from_pcm(&src, &mut smf, 44100);
    assert_eq!(n, Ok(2));
    let b = smf.serialize();
    assert_eq!(&b[0..14], &[0x4D, 0x54, 0x68, 0x64, 0, 0, 0, 6, 0, 1, 0, 2, 0x01, 0xB9]);
    let tracks = track_contents(&b);
    assert_eq!(tracks.len(), 2);
    assert_eq!(
        tracks[0],
        vec![
            0x00, 0xFF, 0x51, 0x03, 0x00, 0x27, 0x10, //
            0x00, 0xC0, 0x00, //
            0x00, 0xB0, 0x0A, 0x01, //
            0x00, 0x90, 0x3C, 0x07, //
            0x01, 0x80, 0x3C, 0x07, //
            0x00, 0xFF, 0x2F, 0x00,
        ]
    );
    assert_eq!(
        tracks[1],
        vec![
            0x00, 0xC1, 0x4A, //
            0x00, 0xB1, 0x0A, 0x01, //
            0x01, 0x91, 0x3C, 0x05, //
            0x01, 0x81, 0x3C, 0x05, //
            0x00, 0xFF, 0x2F, 0x00,
        ]
    );
}

#[test]
fn stereo_routes_right_channel_to_upper_voices() {
    let src = vec![vec![0i16, 1000], vec![-1000i16, 0]];
    let mut smf = MidiWriterRaw::new();
    assert_eq!(gen_midi_from_pcm(&src, &mut smf, 48000), Ok(2));
    let b = smf.serialize();
    assert_eq!(&b[10..14], &[0, 4, 0x01, 0xE0]);
    let tracks = track_contents(&b);
    assert_eq!(tracks.len(), 4);
    let v1000 = amp2vel(1000, false).0;
    // Voice 0: the left sample 1000 at position 1, after one silent sample.
    assert_eq!(
        tracks[0],
        vec![
            0x00, 0xFF, 0x51, 0x03, 0x00, 0x27, 0x10, 0x00, 0xC0, 0x00, 0x00, 0xB0, 0x0A, 0x01,
            0x01, 0x90, 0x3C, v1000, 0x01, 0x80, 0x3C, v1000, 0x00, 0xFF, 0x2F, 0x00,
        ]
    );
    assert_eq!(tracks[1], vec![0x00, 0xC1, 0x4A, 0x00, 0xB1, 0x0A, 0x01, 0x00, 0xFF, 0x2F, 0x00]);
    assert_eq!(tracks[2], vec![0x00, 0xC2, 0x00, 0x00, 0xB2, 0x0A, 0x7F, 0x00, 0xFF, 0x2F, 0x00]);
    // Voice 3: the right sample -1000 at position 0; the clock restarts per channel.
    assert_eq!(
        tracks[3],
        vec![
            0x00, 0xC3, 0x4A, 0x00, 0xB3, 0x0A, 0x7F, //
            0x00, 0x93, 0x3C, v1000, 0x01, 0x83, 0x3C, v1000, //
            0x00, 0xFF, 0x2F, 0x00,
        ]
    );
}

#[test]
fn delta_times_accumulate_over_silence() {
    let src = vec![vec![5i16, 0, 0, 0, 5, -5]];
    let mut smf = MidiWriterRaw::new();
    assert_eq!(gen_midi_from_pcm(&src, &mut smf, 100), Ok(3));
    let tracks = track_contents(&smf.serialize());
    let v = amp2vel(5, false).0;
    assert_eq!(&tracks[0][14..], &[0x00, 0x90, 0x3C, v, 0x01, 0x80, 0x3C, v, 0x03, 0x90, 0x3C, v, 0x01, 0x80, 0x3C, v, 0x00, 0xFF, 0x2F, 0x00]);
    assert_eq!(&tracks[1][7..], &[0x05, 0x91, 0x3C, v, 0x01, 0x81, 0x3C, v, 0x00, 0xFF, 0x2F, 0x00]);
}

#[test]
fn unsupported_channel_layouts_leave_writer_untouched() {
    let mut smf = MidiWriterRaw::new();
    smf.push_event(0, 0, pcm2midi::smf::MidiEvent::EndOfTrack);
    let before = smf.serialize();
    let none: Vec<Vec<i16>> = vec![];
    assert_eq!(gen_midi_from_pcm(&none, &mut smf, 44100), Err(MapError::UnsupportedChannelLayout));
    let three = vec![vec![1i16], vec![2i16], vec![3i16]];
    assert_eq!(gen_midi_from_pcm(&three, &mut smf, 44100), Err(MapError::UnsupportedChannelLayout));
    assert_eq!(smf.serialize(), before);
}

#[test]
fn custom_configuration_is_used() {
    let cfg = MapperConfig { pitch: 72, program_positive: 5, program_negative: 6, pan_left: 20, pan_right: 100, tempo: 500000 };
    let src = vec![vec![32767i16]];
    let mut smf = MidiWriterRaw::new();
    assert_eq!(gen_midi_with_config(&src, &mut smf, 8000, &cfg, &mut NoProgress), Ok(1));
    let b = smf.serialize();
    assert_eq!(&b[12..14], &[0, 80]);
    let tracks = track_contents(&b);
    assert_eq!(
        tracks[0],
        vec![
            0x00, 0xFF, 0x51, 0x03, 0x07, 0xA1, 0x20, 0x00, 0xC0, 0x05, 0x00, 0xB0, 0x0A, 20,
            0x00, 0x90, 72, 127, 0x01, 0x80, 72, 127, 0x00, 0xFF, 0x2F, 0x00,
        ]
    );
    assert_eq!(tracks[1], vec![0x00, 0xC1, 0x06, 0x00, 0xB1, 0x0A, 20, 0x00, 0xFF, 0x2F, 0x00]);
}

#[test]
fn standard_configuration_values() {
    let c = MapperConfig::standard();
    assert_eq!((c.pitch, c.program_positive, c.program_negative), (60, 0, 74));
    assert_eq!((c.pan_left, c.pan_right, c.tempo), (1, 127, 10000));
}

#[test]
fn deinterleave_splits_frames() {
    let s = vec![1i16, 2, 3, 4, 5];
    assert_eq!(deinterleave(&s, 2), vec![vec![1, 3, 5], vec![2, 4]]);
    assert_eq!(deinterleave(&s, 1), vec![vec![1, 2, 3, 4, 5]]);
    assert_eq!(deinterleave(&vec![], 2), vec![Vec::<i16>::new(), vec![]]);
}

struct Counter(usize);

impl ProgressObserver for Counter {
    fn advance(&mut self) {
        self.0 += 1;
    }
}

#[test]
fn progress_marks_do_not_change_output() {
    let src = vec![(0..40).map(|i| (i * 37 - 700) as i16).collect::<Vec<i16>>()];
    let mut counter = Counter(0);
    let mut a = MidiWriterRaw::new();
    let na = gen_midi_with_config(&src, &mut a, 44100, &MapperConfig::standard(), &mut counter);
    let mut b = MidiWriterRaw::new();
    let nb = gen_midi_from_pcm(&src, &mut b, 44100);
    assert_eq!(na, nb);
    assert_eq!(a.serialize(), b.serialize());
    // One mark every two samples of forty, the first one excluded.
    assert_eq!(counter.0, 19);
}

#[test]
fn short_inputs_give_no_progress_marks() {
    let src = vec![vec![1i16, 2, 3]];
    let mut counter = Counter(0);
    let mut smf = MidiWriterRaw::new();
    assert_eq!(gen_midi_with_config(&src, &mut smf, 44100, &MapperConfig::standard(), &mut counter), Ok(3));
    assert_eq!(counter.0, 0);
}
