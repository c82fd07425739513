//! What the capture sources hand to the store.
//!
//! The microphone delivers blocks of samples, which go to the store as
//! they are. The system source delivers buffers of raw bytes, four bytes
//! to a sample, low byte first.
use crate::session::{RecordingState, Session, Source};
use vstd::prelude::*;

verus! {

/// The sample stored in the four bytes from `4 * i` on, low byte first.
pub open spec fn le_word(raw: Seq<u8>, i: int) -> u32 {
    (raw[4 * i] + 256 * raw[4 * i + 1] + 65536 * raw[4 * i + 2] + 16777216 * raw[4 * i + 3]) as u32
}

/// The samples of a raw buffer: one for each complete group of four bytes,
/// in order. Up to three bytes left at the end are ignored.
pub open spec fn samples_of_bytes(raw: Seq<u8>) -> Seq<u32> {
    Seq::new(raw.len() / 4, |i: int| le_word(raw, i))
}

/// The session after the system source has delivered the buffers in
/// order.
pub open spec fn delivered(s: Session, buffers: Seq<Vec<u8>>) -> Session
    decreases buffers.len(),
{
    if buffers.len() == 0 {
        s
    } else {
        delivered(s, buffers.drop_last()).appended(
            Source::System,
            samples_of_bytes(buffers.last()@),
        )
    }
}

/// Reads the samples of a raw buffer.
pub fn samples_from_le_bytes(raw: &[u8]) -> (samples: Vec<u32>)
    ensures
        samples@ == samples_of_bytes(raw@),
{
    let count = raw.len() / 4;
    let mut samples: Vec<u32> = Vec::with_capacity(count);
    let mut i: usize = 0;
    while i < count
        invariant
            i <= count,
            count == raw@.len() / 4,
            raw@.len() <= usize::MAX,
            samples@.len() == i,
            forall|j: int| 0 <= j < i ==> samples@[j] == le_word(raw@, j),
        decreases count - i,
    {
        assert(4 * i + 3 < raw@.len());
        let b0 = raw[4 * i] as u32;
        let b1 = raw[4 * i + 1] as u32;
        let b2 = raw[4 * i + 2] as u32;
        let b3 = raw[4 * i + 3] as u32;
        samples.push(b0 + 256 * b1 + 65536 * b2 + 16777216 * b3);
        i += 1;
    }
    assert(samples@ =~= samples_of_bytes(raw@));
    samples
}

/// Takes what the system source put out. Output that is not audio is
/// ignored; the samples of each audio buffer go to the system track, in
/// order, while the session is active.
pub fn did_output_sample_buffer(state: &mut RecordingState, is_audio: bool, buffers: &Vec<Vec<u8>>)
    ensures
        !is_audio ==> final(state)@ == old(state)@,
        is_audio ==> final(state)@ == delivered(old(state)@, buffers@),
{
    if !is_audio {
        return ;
    }
    let mut i: usize = 0;
    assert(buffers@.take(0) =~= Seq::empty());
    while i < buffers.len()
        invariant
            i <= buffers.len(),
            state@ == delivered(old(state)@, buffers@.take(i as int)),
        decreases buffers.len() - i,
    {
        proof {
            assert(buffers@.take(i + 1).drop_last() =~= buffers@.take(i as int));
            assert(buffers@.take(i + 1).last() == buffers@[i as int]);
        }
        let samples = samples_from_le_bytes(buffers[i].as_slice());
        state.append(Source::System, samples.as_slice());
        i += 1;
    }
    assert(buffers@.take(buffers@.len() as int) =~= buffers@);
}

/// While the session is not active, whatever the system source puts out
/// leaves it unchanged.
pub proof fn lemma_delivery_needs_active_session(s: Session, buffers: Seq<Vec<u8>>)
    requires
        !s.active,
    ensures
        delivered(s, buffers) == s,
    decreases buffers.len(),
{
    if buffers.len() > 0 {
        lemma_delivery_needs_active_session(s, buffers.drop_last());
    }
}

} // verus!
