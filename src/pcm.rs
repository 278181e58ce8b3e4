//! Interleaved PCM frames, split into one sample sequence per channel.

use vstd::prelude::*;

verus! {

/// `s` is channel `c` of the interleaved `samples` with `channels` channels:
/// the samples at `c`, `c + channels`, `c + 2 * channels`, ... that exist.
pub open spec fn is_channel_of(s: Seq<i16>, samples: Seq<i16>, channels: nat, c: nat) -> bool {
    &&& forall|k: int| 0 <= k < s.len() ==> #[trigger] s[k] == samples[c + k * channels]
    &&& c + s.len() * channels >= samples.len()
    &&& s.len() > 0 ==> c + (s.len() - 1) * channels < samples.len()
}

fn channel_of(samples: &Vec<i16>, channels: usize, c: usize) -> (r: Vec<i16>)
    requires
        channels > 0,
    ensures
        is_channel_of(r@, samples@, channels as nat, c as nat),
{
    let mut v: Vec<i16> = Vec::new();
    let mut j: usize = c;
    let mut more: bool = c < samples.len();
    while more
        invariant
            channels > 0,
            more ==> j < samples@.len() && j == c + v@.len() * channels,
            !more ==> c + v@.len() * channels >= samples@.len(),
            v@.len() > 0 ==> c + (v@.len() - 1) * channels < samples@.len(),
            forall|k: int| 0 <= k < v@.len() ==> #[trigger] v@[k] == samples@[c + k * channels],
        decreases if more { samples@.len() - j + 1 } else { 0 },
    {
        let ghost n = v@.len();
        v.push(samples[j]);
        assert(c + (n + 1) * channels == c + n * channels + channels) by (nonlinear_arith);
        assert(c + ((n + 1) - 1) * channels == c + n * channels);
        if samples.len() - j > channels {
            j = j + channels;
        } else {
            more = false;
        }
    }
    v
}

/// Splits interleaved frames into `channels` sequences, channel `c` taking
/// every `channels`-th sample from position `c` on.
pub fn deinterleave(samples: &Vec<i16>, channels: usize) -> (r: Vec<Vec<i16>>)
    requires
        channels > 0,
    ensures
        r@.len() == channels,
        forall|c: int| 0 <= c < channels ==> is_channel_of(#[trigger] r@[c]@, samples@, channels as nat, c as nat),
{
    let mut out: Vec<Vec<i16>> = Vec::new();
    let mut c: usize = 0;
    while c < channels
        invariant
            c <= channels,
            channels > 0,
            out@.len() == c,
            forall|k: int| 0 <= k < c ==> is_channel_of(#[trigger] out@[k]@, samples@, channels as nat, k as nat),
        decreases channels - c,
    {
        out.push(channel_of(samples, channels, c));
        c = c + 1;
    }
    out
}

} // verus!
