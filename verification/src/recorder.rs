//! The session controller: starting a session, stopping it, and turning
//! what it captured into three encoded tracks.
//!
//! The controller decides; it does not touch a device. Its caller starts
//! and stops the capture sources around these calls and waits the settle
//! delay between asking the sources to stop and reading the tracks.
use crate::mix::{longer, mix_audio, mixed_track};
use crate::session::{RecordingState, Session};
use crate::wav::{
    encode_wav, encoded, lemma_encode_round_trip, length_fits, rate_fits, EncodeError,
};
use base64::Engine;
use vstd::prelude::*;

verus! {

/// Why a start or a stop failed.
#[derive(Debug)]
pub enum RecordingError {
    /// A session is active: it must be stopped before the next one starts.
    AlreadyRecording,
    /// The session that was stopped holds no sample of either source.
    NoAudioCaptured,
    /// A track could not be encoded.
    Encoding(EncodeError),
    /// An encoded track is too large to be written as text on this machine.
    TrackTooLarge,
}

/// The three tracks of a stopped session, each a WAV file as base64 text:
/// the microphone track, the system track if there was system audio, and
/// the mix of both.
#[derive(Debug)]
pub struct DiarizedRecording {
    pub mixed_wav_b64: String,
    pub mic_wav_b64: String,
    pub system_wav_b64: Option<String>,
    pub has_system_audio: bool,
}

/// The text of `base64::engine::general_purpose::STANDARD.encode` for the
/// given bytes: standard alphabet, padded.
pub uninterp spec fn base64_text(bytes: Seq<u8>) -> Seq<char>;

/// A file of `n` bytes can be written as base64 text: the text's length,
/// four characters for every three bytes or part thereof, is a valid
/// length on this machine.
pub open spec fn text_fits(n: nat) -> bool {
    (n / 3) * 4 + 4 <= usize::MAX
}

/// Calls `Engine::encode` of the base64 crate on its `STANDARD` engine.
/// The result depends on the bytes alone. The call panics where the length
/// of the text overflows, which `text_fits` rules out.
#[verifier::external_body]
fn to_base64(bytes: &Vec<u8>) -> (text: String)
    requires
        text_fits(bytes@.len()),
    ensures
        text@ == base64_text(bytes@),
{
    base64::engine::general_purpose::STANDARD.encode(bytes)
}

/// The text of a track: its WAV file in base64.
pub open spec fn track_text(samples: Seq<u32>, sample_rate: u32) -> Seq<char> {
    base64_text(encoded(samples, sample_rate))
}

/// Every track of the session can be encoded and written as text: the rate
/// fits a WAV header, and the longest track fits a WAV file and, encoded,
/// the machine's text length.
pub open spec fn tracks_fit(s: Session) -> bool {
    &&& rate_fits(s.sample_rate)
    &&& length_fits(longer(s.mic, s.system))
    &&& text_fits(44 + 2 * longer(s.mic, s.system))
}

/// A stop returns tracks: the session was active when the stop began, it
/// holds a sample of at least one source, and its tracks fit.
pub open spec fn stop_succeeds(s: Session, was_active: bool) -> bool {
    was_active && !s.is_silent() && tracks_fit(s)
}

/// Why a stop returns no tracks, or `None` where it returns them. A stop
/// that found no session active comes first: whatever the store still
/// holds of an earlier session, nothing is handed out a second time. Then
/// an empty session, the rate, the length of the file, the length of the
/// text.
pub open spec fn stop_refusal(s: Session, was_active: bool) -> Option<RecordingError> {
    if !was_active || s.is_silent() {
        Some(RecordingError::NoAudioCaptured)
    } else if !rate_fits(s.sample_rate) {
        Some(RecordingError::Encoding(EncodeError::UnsupportedRate))
    } else if !length_fits(longer(s.mic, s.system)) {
        Some(RecordingError::Encoding(EncodeError::TooLong))
    } else if !text_fits(44 + 2 * longer(s.mic, s.system)) {
        Some(RecordingError::TrackTooLarge)
    } else {
        None
    }
}

/// The tracks are those of the session: the microphone track, the system
/// track exactly where there is system audio, and the mixed track, which
/// without system audio is the microphone track again.
pub open spec fn tracks_of(s: Session, tracks: (String, Option<String>, String)) -> bool {
    &&& tracks.0@ == track_text(s.mic, s.sample_rate)
    &&& tracks.1 is Some <==> s.system.len() > 0
    &&& tracks.1 matches Some(text) ==> text@ == track_text(s.system, s.sample_rate)
    &&& tracks.2@ == track_text(mixed_track(s.mic, s.system), s.sample_rate)
}

/// Starts a session: arms the store and clears both tracks. Refused while
/// a session is active, which is then left untouched.
pub fn start_recording(state: &mut RecordingState) -> (r: Result<(), RecordingError>)
    ensures
        final(state)@ == old(state)@.started(),
        old(state)@.can_start() ==> r is Ok,
        !old(state)@.can_start() ==> r == Err::<(), RecordingError>(
            RecordingError::AlreadyRecording,
        ) && final(state)@ == old(state)@,
{
    match state.reset() {
        Ok(()) => Ok(()),
        Err(_) => Err(RecordingError::AlreadyRecording),
    }
}

/// Takes a start back: a session whose microphone could not be started is
/// no session. The store is disarmed, so that the next start is accepted.
pub fn abort_start(state: &mut RecordingState)
    ensures
        final(state)@ == old(state)@.stopped(),
{
    state.deactivate();
}

/// Whether a session is active.
pub fn is_recording(state: &RecordingState) -> (active: bool)
    ensures
        active == state@.active,
{
    state.is_active()
}

/// The first step of a stop: disarms the store and says whether a session
/// was active. The caller stops the sources and waits the settle delay,
/// then asks for the tracks with this answer.
pub fn begin_stop(state: &mut RecordingState) -> (was_active: bool)
    ensures
        final(state)@ == old(state)@.stopped(),
        was_active == old(state)@.active,
{
    let was_active = state.is_active();
    state.deactivate();
    was_active
}

/// Encodes one track and writes it as text.
fn encode_track(samples: &[u32], sample_rate: u32) -> (r: Result<String, RecordingError>)
    requires
        rate_fits(sample_rate),
        length_fits(samples@.len()),
        text_fits(44 + 2 * samples@.len()),
    ensures
        r is Ok,
        r matches Ok(text) ==> text@ == track_text(samples@, sample_rate),
{
    match encode_wav(samples, sample_rate) {
        Ok(bytes) => {
            proof {
                lemma_encode_round_trip(samples@, sample_rate);
            }
            Ok(to_base64(&bytes))
        },
        Err(e) => Err(RecordingError::Encoding(e)),
    }
}

/// The second step of a stop: the tracks of the session as base64 WAV
/// text, microphone, system if any, and mix.
///
/// `was_active` is the answer of `begin_stop`. A stop that found no
/// session active is an error, and so is a session without a sample: no
/// empty files, and no tracks of an earlier session. The store is left
/// disarmed whatever the outcome.
pub fn stop_and_get_tracks(state: &mut RecordingState, was_active: bool) -> (r: Result<
    (String, Option<String>, String),
    RecordingError,
>)
    ensures
        final(state)@ == old(state)@.stopped(),
        stop_refusal(old(state)@, was_active) matches Some(e) ==> r == Err::<
            (String, Option<String>, String),
            RecordingError,
        >(e),
        stop_succeeds(old(state)@, was_active) ==> r is Ok,
        r matches Ok(tracks) ==> tracks_of(old(state)@, tracks),
{
    state.deactivate();
    let sample_rate = state.sample_rate;
    let mic_len = state.mic_samples.len();
    let system_len = state.system_samples.len();
    if !was_active || (mic_len == 0 && system_len == 0) {
        return Err(RecordingError::NoAudioCaptured);
    }
    if sample_rate == 0 || sample_rate > 0x7fff_ffff {
        return Err(RecordingError::Encoding(EncodeError::UnsupportedRate));
    }
    let longest = if mic_len >= system_len {
        mic_len
    } else {
        system_len
    };
    if longest > 0x7fff_ffed || longest > (usize::MAX - 44) / 2 {
        return Err(RecordingError::Encoding(EncodeError::TooLong));
    }
    if (44 + 2 * longest) / 3 > (usize::MAX - 4) / 4 {
        return Err(RecordingError::TrackTooLarge);
    }
    let mic_b64 = match encode_track(state.mic_samples.as_slice(), sample_rate) {
        Ok(text) => text,
        Err(e) => {
            return Err(e);
        },
    };
    let system_b64 = if system_len > 0 {
        match encode_track(state.system_samples.as_slice(), sample_rate) {
            Ok(text) => Some(text),
            Err(e) => {
                return Err(e);
            },
        }
    } else {
        None
    };
    let mixed_samples = mix_audio(state.mic_samples.as_slice(), state.system_samples.as_slice());
    let mixed_b64 = match encode_track(mixed_samples.as_slice(), sample_rate) {
        Ok(text) => text,
        Err(e) => {
            return Err(e);
        },
    };
    Ok((mic_b64, system_b64, mixed_b64))
}

/// The second step of a stop for a caller that wants the mixed track
/// alone.
pub fn stop_recording(state: &mut RecordingState, was_active: bool) -> (r: Result<
    String,
    RecordingError,
>)
    ensures
        final(state)@ == old(state)@.stopped(),
        stop_refusal(old(state)@, was_active) matches Some(e) ==> r == Err::<
            String,
            RecordingError,
        >(e),
        stop_succeeds(old(state)@, was_active) ==> r is Ok,
        r matches Ok(mixed) ==> mixed@ == track_text(
            mixed_track(old(state)@.mic, old(state)@.system),
            old(state)@.sample_rate,
        ),
{
    match stop_and_get_tracks(state, was_active) {
        Ok((_, _, mixed)) => Ok(mixed),
        Err(e) => Err(e),
    }
}

/// The recording that a set of tracks makes up; the flag says whether a
/// system track is among them.
pub fn diarized(tracks: (String, Option<String>, String)) -> (recording: DiarizedRecording)
    ensures
        recording.mic_wav_b64 == tracks.0,
        recording.system_wav_b64 == tracks.1,
        recording.mixed_wav_b64 == tracks.2,
        recording.has_system_audio == tracks.1 is Some,
{
    let (mic, system, mixed) = tracks;
    let has_system_audio = system.is_some();
    DiarizedRecording {
        mixed_wav_b64: mixed,
        mic_wav_b64: mic,
        system_wav_b64: system,
        has_system_audio,
    }
}

/// The second step of a stop for a caller that tells the speakers apart
/// by their track: the tracks one by one.
pub fn stop_recording_diarized(state: &mut RecordingState, was_active: bool) -> (r: Result<
    DiarizedRecording,
    RecordingError,
>)
    ensures
        final(state)@ == old(state)@.stopped(),
        stop_refusal(old(state)@, was_active) matches Some(e) ==> r == Err::<
            DiarizedRecording,
            RecordingError,
        >(e),
        stop_succeeds(old(state)@, was_active) ==> r is Ok,
        r matches Ok(recording) ==> {
            &&& tracks_of(
                old(state)@,
                (recording.mic_wav_b64, recording.system_wav_b64, recording.mixed_wav_b64),
            )
            &&& recording.has_system_audio == (old(state)@.system.len() > 0)
        },
{
    match stop_and_get_tracks(state, was_active) {
        Ok(tracks) => Ok(diarized(tracks)),
        Err(e) => Err(e),
    }
}

/// A stop either returns tracks or says why not, never both and never
/// neither.
pub proof fn lemma_stop_decided(s: Session, was_active: bool)
    ensures
        stop_succeeds(s, was_active) <==> stop_refusal(s, was_active) is None,
{
}

/// A stop that finds no sample of either source is refused for want of
/// audio, whatever the rate; so is the stop of a session that was started
/// and received nothing.
pub proof fn lemma_stop_without_audio(s: Session, was_active: bool)
    ensures
        s.is_silent() ==> stop_refusal(s, was_active) == Some(RecordingError::NoAudioCaptured),
        s.can_start() ==> stop_refusal(s.started().stopped(), true) == Some(
            RecordingError::NoAudioCaptured,
        ),
{
}

/// A stop from idle is refused for want of audio, whatever the store still
/// holds; and after a stop the store is idle, so that a second stop finds
/// no session active.
pub proof fn lemma_stop_from_idle(s: Session)
    ensures
        stop_refusal(s, false) == Some(RecordingError::NoAudioCaptured),
        !s.stopped().active,
{
}

/// While a session is active, one sample of one source is enough: at the
/// session's rate of 16 kHz, a stop returns tracks for every session that
/// holds at least one and fewer than 2^30 samples per source.
pub proof fn lemma_one_source_is_enough(s: Session)
    requires
        s.sample_rate == 16000,
        s.mic.len() < 0x4000_0000,
        s.system.len() < 0x4000_0000,
        s.mic.len() > 0 || s.system.len() > 0,
    ensures
        stop_succeeds(s, true),
{
}

/// Without system audio the mixed track is the microphone track: the two
/// texts are the same, and no system track is reported.
pub proof fn lemma_microphone_only(s: Session, tracks: (String, Option<String>, String))
    requires
        s.system.len() == 0,
        tracks_of(s, tracks),
    ensures
        tracks.2@ == tracks.0@,
        tracks.1 is None,
{
}

} // verus!
