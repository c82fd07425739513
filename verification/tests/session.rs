use lilapu_audio::session::{
    RecordingState, SessionError, Source, CHANNELS, SAMPLE_RATE, SETTLE_DELAY_MS,
};

fn bits(samples: &[f32]) -> Vec<u32> {
    samples.iter().map(|s| s.to_bits()).collect()
}

#[test]
fn default_state_is_idle_at_16_khz() {
    let state = RecordingState::default();
    assert!(!state.is_recording);
    assert!(!state.is_active());
    assert!(state.mic_samples.is_empty());
    assert!(state.system_samples.is_empty());
    assert_eq!(state.sample_rate, 16000);
    assert_eq!(SAMPLE_RATE, 16000);
    assert_eq!(CHANNELS, 1);
    assert_eq!(SETTLE_DELAY_MS, 100);
}

#[test]
fn reset_arms_and_clears_both_tracks() {
    let mut state = RecordingState::default();
    state.mic_samples = bits(&[0.1, 0.2]);
    state.system_samples = bits(&[0.3]);
    assert!(state.reset().is_ok());
    assert!(state.is_active());
    assert!(state.mic_samples.is_empty());
    assert!(state.system_samples.is_empty());
    assert_eq!(state.sample_rate, 16000);
}

#[test]
fn reset_while_active_is_refused_and_changes_nothing() {
    let mut state = RecordingState::default();
    assert!(state.reset().is_ok());
    state.append(Source::Microphone, &bits(&[0.5, -0.5]));
    state.append(Source::System, &bits(&[0.25]));
    assert!(matches!(state.reset(), Err(SessionError::AlreadyRecording)));
    assert!(state.is_active());
    assert_eq!(state.mic_samples, bits(&[0.5, -0.5]));
    assert_eq!(state.system_samples, bits(&[0.25]));
}

#[test]
fn append_keeps_the_order_of_delivery_per_source() {
    let mut state = RecordingState::default();
    assert!(state.reset().is_ok());
    state.append(Source::Microphone, &bits(&[0.1, 0.2]));
    state.append(Source::System, &bits(&[0.9]));
    state.append(Source::Microphone, &bits(&[0.3]));
    state.append(Source::System, &bits(&[0.8, 0.7]));
    state.append(Source::Microphone, &[]);
    assert_eq!(state.mic_samples, bits(&[0.1, 0.2, 0.3]));
    assert_eq!(state.system_samples, bits(&[0.9, 0.8, 0.7]));
}

#[test]
fn append_is_dropped_while_inactive() {
    let mut state = RecordingState::default();
    state.append(Source::Microphone, &bits(&[0.1]));
    state.append(Source::System, &bits(&[0.1]));
    assert!(state.mic_samples.is_empty());
    assert!(state.system_samples.is_empty());
    assert!(state.reset().is_ok());
    state.append(Source::Microphone, &bits(&[0.4]));
    state.deactivate();
    state.append(Source::Microphone, &bits(&[0.5]));
    state.append(Source::System, &bits(&[0.6]));
    assert_eq!(state.mic_samples, bits(&[0.4]));
    assert!(state.system_samples.is_empty());
}

#[test]
fn deactivate_keeps_what_was_captured() {
    let mut state = RecordingState::default();
    assert!(state.reset().is_ok());
    state.append(Source::Microphone, &bits(&[0.4, 0.5]));
    state.deactivate();
    assert!(!state.is_active());
    assert_eq!(state.mic_samples, bits(&[0.4, 0.5]));
    state.deactivate();
    assert!(!state.is_active());
}

#[test]
fn snapshot_copies_tracks_and_rate() {
    let mut state = RecordingState::default();
    assert!(state.reset().is_ok());
    state.append(Source::Microphone, &bits(&[0.4, 0.5]));
    state.append(Source::System, &bits(&[-0.4]));
    state.deactivate();
    let copy = state.snapshot();
    assert_eq!(copy.mic_samples, bits(&[0.4, 0.5]));
    assert_eq!(copy.system_samples, bits(&[-0.4]));
    assert_eq!(copy.sample_rate, 16000);
    assert_eq!(state.mic_samples, bits(&[0.4, 0.5]));
}

#[test]
fn a_new_session_starts_empty_after_a_stop() {
    let mut state = RecordingState::default();
    assert!(state.reset().is_ok());
    state.append(Source::Microphone, &bits(&[0.4, 0.5]));
    state.deactivate();
    assert!(state.reset().is_ok());
    assert!(state.mic_samples.is_empty());
    assert!(state.system_samples.is_empty());
}
