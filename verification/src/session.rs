//! The sample buffer store: the state of one recording session.
//!
//! Two sources append to the store while a session is active; the
//! controller arms it, disarms it and reads it. The owner of the store
//! serialises these calls; each call is one indivisible step.
use vstd::prelude::*;
use vstd::slice::slice_to_vec;

verus! {

/// The rate, in samples per second, of every source and every track.
pub const SAMPLE_RATE: u32 = 16000;

/// The number of channels of every source and every track.
pub const CHANNELS: u16 = 1;

/// How long, in milliseconds, the controller waits after it has asked the
/// sources to stop, before it reads the store.
pub const SETTLE_DELAY_MS: u64 = 100;

/// Where a block of samples comes from.
#[derive(Clone, Copy, PartialEq, Eq, Debug)]
pub enum Source {
    Microphone,
    System,
}

/// Why a start or a stop was refused.
#[derive(Debug)]
pub enum SessionError {
    /// A session is active: it must be stopped before the next one starts.
    AlreadyRecording,
}

/// The state of the recording session.
pub struct RecordingState {
    pub is_recording: bool,
    pub mic_samples: Vec<u32>,
    pub system_samples: Vec<u32>,
    pub sample_rate: u32,
}

/// A copy of what a finished session holds.
#[derive(Debug)]
pub struct Snapshot {
    pub mic_samples: Vec<u32>,
    pub system_samples: Vec<u32>,
    pub sample_rate: u32,
}

/// The session as a mathematical value.
pub ghost struct Session {
    pub active: bool,
    pub mic: Seq<u32>,
    pub system: Seq<u32>,
    pub sample_rate: u32,
}

impl Session {
    /// The session before its first start: idle, empty, at 16 kHz.
    pub open spec fn idle() -> Session {
        Session { active: false, mic: Seq::empty(), system: Seq::empty(), sample_rate: SAMPLE_RATE }
    }

    /// A start is accepted exactly when no session is active.
    pub open spec fn can_start(self) -> bool {
        !self.active
    }

    /// The session after a start: armed, both tracks cleared together. A
    /// refused start leaves it as it is.
    pub open spec fn started(self) -> Session {
        if self.active {
            self
        } else {
            Session { active: true, mic: Seq::empty(), system: Seq::empty(), ..self }
        }
    }

    /// The session after a source has delivered a block: the block is at
    /// the end of that source's track, in order, if the session is active,
    /// and dropped if it is not.
    pub open spec fn appended(self, source: Source, block: Seq<u32>) -> Session {
        if !self.active {
            self
        } else {
            match source {
                Source::Microphone => Session { mic: self.mic + block, ..self },
                Source::System => Session { system: self.system + block, ..self },
            }
        }
    }

    /// The session after a stop: disarmed, with what it holds.
    pub open spec fn stopped(self) -> Session {
        Session { active: false, ..self }
    }

    /// Nothing was captured.
    pub open spec fn is_silent(self) -> bool {
        self.mic.len() == 0 && self.system.len() == 0
    }
}

impl View for RecordingState {
    type V = Session;

    open spec fn view(&self) -> Session {
        Session {
            active: self.is_recording,
            mic: self.mic_samples@,
            system: self.system_samples@,
            sample_rate: self.sample_rate,
        }
    }
}

impl Default for RecordingState {
    fn default() -> (state: Self)
        ensures
            state@ == Session::idle(),
    {
        RecordingState {
            is_recording: false,
            mic_samples: Vec::new(),
            system_samples: Vec::new(),
            sample_rate: SAMPLE_RATE,
        }
    }
}

impl RecordingState {
    /// Arms the store for a new session and clears both tracks. Refused
    /// while a session is active; the store is then left untouched.
    pub fn reset(&mut self) -> (r: Result<(), SessionError>)
        ensures
            final(self)@ == old(self)@.started(),
            old(self)@.can_start() <==> r is Ok,
            !old(self)@.can_start() ==> r == Err::<(), SessionError>(
                SessionError::AlreadyRecording,
            ) && final(self)@ == old(self)@,
    {
        if self.is_recording {
            return Err(SessionError::AlreadyRecording);
        }
        self.mic_samples.clear();
        self.system_samples.clear();
        self.is_recording = true;
        Ok(())
    }

    /// Takes a block of samples from a source. While no session is active
    /// the block is dropped.
    pub fn append(&mut self, source: Source, block: &[u32])
        ensures
            final(self)@ == old(self)@.appended(source, block@),
    {
        if !self.is_recording {
            return ;
        }
        match source {
            Source::Microphone => {
                self.mic_samples.extend_from_slice(block);
                assert(self.mic_samples@ =~= old(self).mic_samples@ + block@);
            },
            Source::System => {
                self.system_samples.extend_from_slice(block);
                assert(self.system_samples@ =~= old(self).system_samples@ + block@);
            },
        }
    }

    /// Disarms the store: from now on blocks are dropped.
    pub fn deactivate(&mut self)
        ensures
            final(self)@ == old(self)@.stopped(),
    {
        self.is_recording = false;
    }

    /// Whether a session is active.
    pub fn is_active(&self) -> (active: bool)
        ensures
            active == self@.active,
    {
        self.is_recording
    }

    /// Copies of both tracks and the rate of a session that has been
    /// stopped.
    pub fn snapshot(&self) -> (copy: Snapshot)
        requires
            !self@.active,
        ensures
            copy.mic_samples@ == self@.mic,
            copy.system_samples@ == self@.system,
            copy.sample_rate == self@.sample_rate,
    {
        Snapshot {
            mic_samples: slice_to_vec(self.mic_samples.as_slice()),
            system_samples: slice_to_vec(self.system_samples.as_slice()),
            sample_rate: self.sample_rate,
        }
    }
}

/// A second start without a stop in between is refused, and it changes
/// nothing: the session after it is the session before it.
pub proof fn lemma_second_start_refused(s: Session)
    ensures
        !s.started().can_start(),
        s.started().started() == s.started(),
{
}

/// Blocks that arrive after a stop are dropped, whatever their source.
pub proof fn lemma_append_after_stop_dropped(s: Session, source: Source, block: Seq<u32>)
    ensures
        s.stopped().appended(source, block) == s.stopped(),
{
}

/// A source's blocks land on its own track in the order of delivery, and
/// leave the other track alone.
pub proof fn lemma_append_keeps_order(s: Session, source: Source, first: Seq<u32>, second: Seq<u32>)
    requires
        s.active,
    ensures
        s.appended(source, first).appended(source, second) == s.appended(source, first + second),
        source == Source::Microphone ==> s.appended(source, first).system == s.system,
        source == Source::System ==> s.appended(source, first).mic == s.mic,
{
    match source {
        Source::Microphone => {
            assert((s.mic + first) + second =~= s.mic + (first + second));
        },
        Source::System => {
            assert((s.system + first) + second =~= s.system + (first + second));
        },
    }
}

/// A session that is started and stopped with no block in between holds
/// nothing.
pub proof fn lemma_start_then_stop_is_silent(s: Session)
    requires
        s.can_start(),
    ensures
        s.started().stopped().is_silent(),
{
}

} // verus!
