use lilapu_audio::mix::mix_audio;

fn bits(samples: &[f32]) -> Vec<u32> {
    samples.iter().map(|s| s.to_bits()).collect()
}

fn numbers(samples: &[u32]) -> Vec<f32> {
    samples.iter().map(|s| f32::from_bits(*s)).collect()
}

#[test]
fn mix_is_as_long_as_the_longer_track() {
    for m in 0..6usize {
        for s in 1..6usize {
            let mic = vec![0.25f32.to_bits(); m];
            let system = vec![0.5f32.to_bits(); s];
            let mixed = mix_audio(&mic, &system);
            assert_eq!(mixed.len(), m.max(s));
            for value in numbers(&mixed) {
                assert!((-1.0..=1.0).contains(&value));
            }
        }
    }
}

#[test]
fn mix_without_system_audio_is_the_microphone_track() {
    let mic = bits(&[0.5, -0.5, 0.2, 3.0, -7.5]);
    assert_eq!(mix_audio(&mic, &[]), mic);
    assert_eq!(mix_audio(&[], &[]), Vec::<u32>::new());
}

#[test]
fn mix_pads_the_shorter_track_with_silence() {
    let mic = bits(&[1.0, 1.0]);
    let system = bits(&[1.0, 1.0, 1.0]);
    let mixed = numbers(&mix_audio(&mic, &system));
    assert_eq!(mixed.len(), 3);
    assert_eq!(mixed[0], 1.0);
    assert_eq!(mixed[1], 1.0);
    assert_eq!(mixed[2], 0.7);
}

#[test]
fn mix_pads_a_short_system_track_too() {
    let mic = bits(&[0.5, 0.5, -0.25]);
    let system = bits(&[0.5]);
    let mixed = numbers(&mix_audio(&mic, &system));
    assert_eq!(mixed, vec![(0.5f32 + 0.5) * 0.7, (0.5f32 + 0.0) * 0.7, (-0.25f32 + 0.0) * 0.7]);
}

#[test]
fn mix_with_an_empty_microphone_track_attenuates_the_system_track() {
    let system = bits(&[1.0, -1.0, 0.5]);
    let mixed = numbers(&mix_audio(&[], &system));
    assert_eq!(mixed, vec![0.7, -0.7, 0.5f32 * 0.7]);
}

#[test]
fn mix_clamps_what_attenuation_leaves_too_loud() {
    let mic = bits(&[2.0, -2.0, f32::INFINITY, f32::NAN]);
    let system = bits(&[2.0, -2.0, 1.0, 0.0]);
    let mixed = numbers(&mix_audio(&mic, &system));
    assert_eq!(mixed, vec![1.0, -1.0, 1.0, -1.0]);
}
