//! The mixing engine: the microphone track and the system track become one.
use crate::sample::{in_unit_range, mix_sample, mix_samples, SILENCE};
use vstd::prelude::*;
use vstd::slice::slice_to_vec;

verus! {

/// The sample of a track at an index, or silence past its end.
pub open spec fn sample_or_silence(track: Seq<u32>, i: int) -> u32 {
    if 0 <= i < track.len() {
        track[i]
    } else {
        SILENCE
    }
}

/// The number of samples of the longer track.
pub open spec fn longer(mic: Seq<u32>, system: Seq<u32>) -> nat {
    if mic.len() >= system.len() {
        mic.len()
    } else {
        system.len()
    }
}

/// The mixed track. Without system audio it is the microphone track as it
/// stands. With system audio it is as long as the longer track; the shorter
/// one is continued with silence, and each pair of samples is summed,
/// attenuated and clamped.
pub open spec fn mixed_track(mic: Seq<u32>, system: Seq<u32>) -> Seq<u32> {
    if system.len() == 0 {
        mic
    } else {
        Seq::new(
            longer(mic, system),
            |i: int| mix_sample(sample_or_silence(mic, i), sample_or_silence(system, i)),
        )
    }
}

/// Every sample of the track lies in [-1.0, 1.0].
pub open spec fn all_in_unit_range(track: Seq<u32>) -> bool {
    forall|i: int| 0 <= i < track.len() ==> in_unit_range(#[trigger] track[i])
}

/// Mixes the microphone track with the system track.
pub fn mix_audio(mic: &[u32], system: &[u32]) -> (mixed: Vec<u32>)
    ensures
        mixed@ == mixed_track(mic@, system@),
        mixed@.len() == longer(mic@, system@),
        system@.len() == 0 ==> mixed@ == mic@,
        system@.len() > 0 ==> all_in_unit_range(mixed@),
{
    if system.len() == 0 {
        return slice_to_vec(mic);
    }
    let max_len = if mic.len() >= system.len() {
        mic.len()
    } else {
        system.len()
    };
    let mut mixed: Vec<u32> = Vec::with_capacity(max_len);
    let mut i: usize = 0;
    while i < max_len
        invariant
            i <= max_len,
            max_len == longer(mic@, system@),
            mixed@.len() == i,
            forall|j: int|
                0 <= j < i ==> mixed@[j] == mix_sample(
                    sample_or_silence(mic@, j),
                    sample_or_silence(system@, j),
                ),
            forall|j: int| 0 <= j < i ==> in_unit_range(#[trigger] mixed@[j]),
        decreases max_len - i,
    {
        let mic_sample = if i < mic.len() {
            mic[i]
        } else {
            SILENCE
        };
        let system_sample = if i < system.len() {
            system[i]
        } else {
            SILENCE
        };
        mixed.push(mix_samples(mic_sample, system_sample));
        i += 1;
    }
    mixed
}

/// The mixed track is as long as the longer of its two sources, and where
/// there is system audio to mix, or where the microphone track is already
/// within full scale, every sample of it lies in [-1.0, 1.0].
pub proof fn lemma_mixed_length_and_range(mic: Seq<u32>, system: Seq<u32>)
    requires
        system.len() > 0 || all_in_unit_range(mic),
    ensures
        mixed_track(mic, system).len() == longer(mic, system),
        all_in_unit_range(mixed_track(mic, system)),
{
}

/// Without system audio the mixed track is the microphone track, sample for
/// sample.
pub proof fn lemma_mixed_without_system(mic: Seq<u32>)
    ensures
        mixed_track(mic, Seq::empty()) == mic,
{
}

} // verus!
