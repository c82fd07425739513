//! The WAV encoder: a track of samples becomes a mono, 16-bit PCM WAV file
//! in memory.
use crate::sample::{clamp_unit, quantize, quantize_sample};
use vstd::prelude::*;

verus! {

/// `hound::WavSpec`, with its four public fields: channels, sample rate,
/// bits per sample and sample format.
#[verifier::external_type_specification]
pub struct ExWavSpec(hound::WavSpec);

/// `hound::SampleFormat`, with its two variants, `Float` and `Int`.
#[verifier::external_type_specification]
pub struct ExSampleFormat(hound::SampleFormat);

/// The two bytes of a 16-bit number, low byte first.
pub open spec fn le16(x: int) -> Seq<u8> {
    seq![(x % 256) as u8, ((x / 256) % 256) as u8]
}

/// The four bytes of a 32-bit number, low byte first.
pub open spec fn le32(x: int) -> Seq<u8> {
    seq![
        (x % 256) as u8,
        ((x / 256) % 256) as u8,
        ((x / 65536) % 256) as u8,
        ((x / 16777216) % 256) as u8,
    ]
}

/// The two bytes of a PCM value: its two's complement, low byte first.
pub open spec fn pcm_bytes(v: i16) -> Seq<u8> {
    if v < 0 {
        le16(v + 65536)
    } else {
        le16(v as int)
    }
}

/// The data chunk's payload: two bytes for each PCM value, in order.
pub open spec fn data_bytes(pcm: Seq<i16>) -> Seq<u8> {
    Seq::new(2 * pcm.len(), |i: int| pcm_bytes(pcm[i / 2])[i % 2])
}

/// The RIFF header: the tag, the number of bytes that follow it in the
/// file, and the form type.
pub open spec fn riff_header(data_len: int) -> Seq<u8> {
    seq![0x52u8, 0x49, 0x46, 0x46] + le32(data_len + 36) + seq![0x57u8, 0x41, 0x56, 0x45]
}

/// The format chunk of a mono, 16-bit PCM stream: the tag, the chunk's
/// length of 16, format 1 (PCM), one channel, the sample rate, the byte
/// rate, a block of 2 bytes, 16 bits per sample.
pub open spec fn format_chunk(sample_rate: u32) -> Seq<u8> {
    seq![0x66u8, 0x6d, 0x74, 0x20] + le32(16) + le16(1) + le16(1) + le32(sample_rate as int)
        + le32(2 * sample_rate) + le16(2) + le16(16)
}

/// The header of the data chunk: the tag and the payload's length.
pub open spec fn data_header(data_len: int) -> Seq<u8> {
    seq![0x64u8, 0x61, 0x74, 0x61] + le32(data_len)
}

/// The 44 bytes before the payload.
pub open spec fn header_bytes(sample_rate: u32, data_len: int) -> Seq<u8> {
    riff_header(data_len) + format_chunk(sample_rate) + data_header(data_len)
}

/// The whole file for the given PCM values.
pub open spec fn wav_image(sample_rate: u32, pcm: Seq<i16>) -> Seq<u8> {
    header_bytes(sample_rate, 2 * pcm.len() as int) + data_bytes(pcm)
}

/// What the writer was doing when it failed.
#[derive(Debug)]
pub enum WriteStage {
    Create,
    Samples,
    Finalize,
}

/// Why a track could not be encoded.
#[derive(Debug)]
pub enum EncodeError {
    /// The sample rate is zero, or twice the rate does not fit the header's
    /// 32-bit byte rate.
    UnsupportedRate,
    /// The track has more samples than the 32-bit length fields of a WAV
    /// file can describe.
    TooLong,
    /// The container writer could not be constructed; its message.
    Create(String),
    /// The container writer refused a sample; its message.
    Write(String),
    /// The container writer could not be finalized; its message.
    Finalize(String),
}

/// The rate can be written into a WAV header.
pub open spec fn rate_fits(sample_rate: u32) -> bool {
    0 < sample_rate <= 0x7fff_ffff
}

/// A track of `n` samples fits a WAV file: the file's length after the
/// first eight bytes fits the header's 32 bits, and the whole file, 44
/// bytes of header and two for each sample, has a length that this machine
/// can hold.
pub open spec fn length_fits(n: nat) -> bool {
    2 * n + 36 <= u32::MAX && 2 * n + 44 <= usize::MAX
}

/// The PCM values of a track.
pub open spec fn quantized(samples: Seq<u32>) -> Seq<i16> {
    Seq::new(samples.len(), |i: int| quantize(samples[i]))
}

/// The file that encodes a track.
pub open spec fn encoded(samples: Seq<u32>, sample_rate: u32) -> Seq<u8> {
    wav_image(sample_rate, quantized(samples))
}

/// Writes PCM values through `hound::WavWriter` into a buffer in memory:
/// `WavWriter::new` on a cursor over an empty vector, `write_sample` for
/// each value in order, `finalize`, and the cursor's vector is the result.
/// An error would come back as the step that raised it and the text that
/// `hound::Error` displays.
///
/// For one channel of 16-bit integer samples the writer emits the 44-byte
/// header of `header_bytes`, with the two length fields filled in by
/// `finalize`, followed by each value as two bytes, low byte first. The
/// sample rate must not be zero, and twice the rate and the file's length
/// must fit in 32 bits: the writer divides by the rate and computes both
/// without a check.
///
/// On such input the writer has no error of its own: it refuses other bit
/// depths, samples too wide for the depth and an unfinished frame, none of
/// which can occur here. What is left is the destination's failure, and
/// the destination is a vector in memory whose cursor never passes a
/// length that the machine can hold. So the call succeeds.
#[verifier::external_body]
fn write_pcm16(spec: hound::WavSpec, pcm: &Vec<i16>) -> (r: Result<Vec<u8>, (WriteStage, String)>)
    requires
        spec.channels == 1,
        spec.bits_per_sample == 16,
        spec.sample_format == hound::SampleFormat::Int,
        0 < spec.sample_rate,
        2 * spec.sample_rate <= u32::MAX,
        2 * pcm@.len() + 36 <= u32::MAX,
        2 * pcm@.len() + 44 <= usize::MAX,
    ensures
        r is Ok,
        r matches Ok(bytes) ==> bytes@ == wav_image(spec.sample_rate, pcm@),
{
    let mut cursor = std::io::Cursor::new(Vec::new());
    let mut writer = hound::WavWriter::new(&mut cursor, spec).map_err(
        |e| (WriteStage::Create, e.to_string()),
    )?;
    for value in pcm.iter() {
        writer.write_sample(*value).map_err(|e| (WriteStage::Samples, e.to_string()))?;
    }
    writer.finalize().map_err(|e| (WriteStage::Finalize, e.to_string()))?;
    Ok(cursor.into_inner())
}

/// The PCM values of a track.
pub fn quantize_track(samples: &[u32]) -> (pcm: Vec<i16>)
    ensures
        pcm@ == quantized(samples@),
{
    let mut pcm: Vec<i16> = Vec::with_capacity(samples.len());
    let mut i: usize = 0;
    while i < samples.len()
        invariant
            i <= samples.len(),
            pcm@.len() == i,
            forall|j: int| 0 <= j < i ==> pcm@[j] == quantize(samples@[j]),
        decreases samples.len() - i,
    {
        pcm.push(quantize_sample(samples[i]));
        i += 1;
    }
    assert(pcm@ =~= quantized(samples@));
    pcm
}

/// The encoder's answer to an outcome of the container writer.
pub open spec fn answer(outcome: Result<Vec<u8>, (WriteStage, String)>) -> Result<
    Vec<u8>,
    EncodeError,
> {
    match outcome {
        Ok(bytes) => Ok(bytes),
        Err((WriteStage::Create, text)) => Err(EncodeError::Create(text)),
        Err((WriteStage::Samples, text)) => Err(EncodeError::Write(text)),
        Err((WriteStage::Finalize, text)) => Err(EncodeError::Finalize(text)),
    }
}

/// What the encoder returns for each outcome of the container writer: the
/// file as it was written, or the writer's message under the step that
/// failed.
pub fn encoding_result(outcome: Result<Vec<u8>, (WriteStage, String)>) -> (r: Result<
    Vec<u8>,
    EncodeError,
>)
    ensures
        r == answer(outcome),
{
    match outcome {
        Ok(bytes) => Ok(bytes),
        Err((stage, text)) => match stage {
            WriteStage::Create => Err(EncodeError::Create(text)),
            WriteStage::Samples => Err(EncodeError::Write(text)),
            WriteStage::Finalize => Err(EncodeError::Finalize(text)),
        },
    }
}

/// Encodes a track as a mono, 16-bit PCM WAV file.
///
/// A rate or a length that the file cannot hold is refused. Every other
/// track is encoded: the result is the file `encoded`, which depends on
/// the samples and the rate alone.
pub fn encode_wav(samples: &[u32], sample_rate: u32) -> (r: Result<Vec<u8>, EncodeError>)
    ensures
        !rate_fits(sample_rate) ==> r == Err::<Vec<u8>, EncodeError>(EncodeError::UnsupportedRate),
        rate_fits(sample_rate) && !length_fits(samples@.len()) ==> r == Err::<
            Vec<u8>,
            EncodeError,
        >(EncodeError::TooLong),
        rate_fits(sample_rate) && length_fits(samples@.len()) ==> r is Ok,
        r matches Ok(bytes) ==> bytes@ == encoded(samples@, sample_rate),
{
    if sample_rate == 0 || sample_rate > 0x7fff_ffff {
        return Err(EncodeError::UnsupportedRate);
    }
    if samples.len() > 0x7fff_ffed || samples.len() > (usize::MAX - 44) / 2 {
        return Err(EncodeError::TooLong);
    }
    let spec = hound::WavSpec {
        channels: 1,
        sample_rate,
        bits_per_sample: 16,
        sample_format: hound::SampleFormat::Int,
    };
    let pcm = quantize_track(samples);
    encoding_result(write_pcm16(spec, &pcm))
}

/// The 32-bit number stored low byte first at an offset of a file.
pub open spec fn read_le32(file: Seq<u8>, at: int) -> int {
    file[at] + 256 * file[at + 1] + 65536 * file[at + 2] + 16777216 * file[at + 3]
}

/// The PCM value stored at an offset of a file.
pub open spec fn read_pcm(file: Seq<u8>, at: int) -> int {
    let u = file[at] + 256 * file[at + 1];
    if u >= 32768 {
        u - 65536
    } else {
        u
    }
}

/// The sample rate that a WAV file declares in its format chunk.
pub open spec fn declared_rate(file: Seq<u8>) -> int {
    read_le32(file, 24)
}

/// The number of 16-bit samples that a WAV file declares in its data chunk.
pub open spec fn declared_samples(file: Seq<u8>) -> int {
    read_le32(file, 40) / 2
}

/// The PCM value of a sample of a WAV file.
pub open spec fn stored_pcm(file: Seq<u8>, i: int) -> int {
    read_pcm(file, 44 + 2 * i)
}

/// Four bytes written low byte first read back as the number.
pub proof fn lemma_le32_reads_back(x: int)
    requires
        0 <= x <= u32::MAX,
    ensures
        le32(x).len() == 4,
        read_le32(le32(x), 0) == x,
{
}

/// Two bytes of a PCM value read back as the value.
pub proof fn lemma_pcm_reads_back(v: i16)
    ensures
        pcm_bytes(v).len() == 2,
        read_pcm(pcm_bytes(v), 0) == v,
{
}

/// Where the header keeps the rate and the payload's length.
pub proof fn lemma_header_layout(sample_rate: u32, data_len: int)
    requires
        0 <= data_len <= u32::MAX,
    ensures
        header_bytes(sample_rate, data_len).len() == 44,
        read_le32(header_bytes(sample_rate, data_len), 24) == sample_rate,
        read_le32(header_bytes(sample_rate, data_len), 40) == data_len,
{
    let riff = riff_header(data_len);
    let format = format_chunk(sample_rate);
    let data = data_header(data_len);
    let head = header_bytes(sample_rate, data_len);
    assert(riff.len() == 12);
    assert(format.len() == 24);
    assert(data.len() == 8);
    let rate = le32(sample_rate as int);
    lemma_le32_reads_back(sample_rate as int);
    assert forall|k: int| 0 <= k < 4 implies head[24 + k] == #[trigger] rate[k] by {
        assert(head[24 + k] == format[12 + k]);
    }
    let len = le32(data_len);
    lemma_le32_reads_back(data_len);
    assert forall|k: int| 0 <= k < 4 implies head[40 + k] == #[trigger] len[k] by {
        assert(head[40 + k] == data[4 + k]);
    }
}

/// Reading an encoded file back gives what went in: the file declares the
/// rate and the number of samples it was encoded with, holds exactly that
/// many samples after its 44-byte header, and each stored value is the PCM
/// value of its sample.
pub proof fn lemma_encode_round_trip(samples: Seq<u32>, sample_rate: u32)
    requires
        length_fits(samples.len()),
    ensures
        encoded(samples, sample_rate).len() == 44 + 2 * samples.len(),
        declared_rate(encoded(samples, sample_rate)) == sample_rate,
        declared_samples(encoded(samples, sample_rate)) == samples.len(),
        forall|i: int|
            0 <= i < samples.len() ==> #[trigger] stored_pcm(encoded(samples, sample_rate), i)
                == quantize(samples[i]),
{
    let file = encoded(samples, sample_rate);
    let pcm = quantized(samples);
    let data_len = 2 * pcm.len() as int;
    let head = header_bytes(sample_rate, data_len);
    let payload = data_bytes(pcm);
    lemma_header_layout(sample_rate, data_len);
    assert(file == head + payload);
    assert forall|k: int| 0 <= k < 44 implies file[k] == head[k] by {}
    assert forall|i: int| 0 <= i < samples.len() implies #[trigger] stored_pcm(file, i) == quantize(
        samples[i],
    ) by {
        let at = 44 + 2 * i;
        lemma_pcm_reads_back(pcm[i]);
        assert(file[at] == payload[2 * i]);
        assert(file[at + 1] == payload[2 * i + 1]);
        assert(payload[2 * i] == pcm_bytes(pcm[i])[0]);
        assert(payload[2 * i + 1] == pcm_bytes(pcm[i])[1]);
    }
}

/// Encoding is a function of the samples and the rate: equal inputs give
/// the same file, byte for byte.
pub proof fn lemma_encode_deterministic(a: Seq<u32>, b: Seq<u32>, rate_a: u32, rate_b: u32)
    requires
        a =~= b,
        rate_a == rate_b,
    ensures
        encoded(a, rate_a) == encoded(b, rate_b),
{
}

/// Out-of-range samples saturate: a track encodes to the same file as
/// the track of its samples clamped to [-1.0, 1.0].
pub proof fn lemma_encode_saturates(samples: Seq<u32>, clamped: Seq<u32>, sample_rate: u32)
    requires
        clamped.len() == samples.len(),
        forall|i: int| 0 <= i < samples.len() ==> clamped[i] == clamp_unit(samples[i]),
    ensures
        encoded(clamped, sample_rate) == encoded(samples, sample_rate),
{
    assert forall|i: int| 0 <= i < samples.len() implies quantize(clamped[i]) == quantize(
        samples[i],
    ) by {
        assert(clamp_unit(clamp_unit(samples[i])) == clamp_unit(samples[i]));
    }
    assert(quantized(clamped) =~= quantized(samples));
}

/// Every sample is encoded on its own and in order: the payload of two
/// tracks joined is the payload of the first followed by the payload of
/// the second.
pub proof fn lemma_encode_concatenates(a: Seq<u32>, b: Seq<u32>, sample_rate: u32)
    ensures
        encoded(a + b, sample_rate).skip(44) == encoded(a, sample_rate).skip(44) + encoded(
            b,
            sample_rate,
        ).skip(44),
{
    let qa = quantized(a);
    let qb = quantized(b);
    let qab = quantized(a + b);
    assert(qab =~= qa + qb);
    assert(data_bytes(qab) =~= data_bytes(qa) + data_bytes(qb)) by {
        assert forall|i: int| 0 <= i < 2 * qab.len() implies data_bytes(qab)[i] == (data_bytes(qa)
            + data_bytes(qb))[i] by {
            if i < 2 * qa.len() {
                assert(qab[i / 2] == qa[i / 2]);
            } else {
                assert((i - 2 * qa.len()) / 2 == i / 2 - qa.len());
                assert((i - 2 * qa.len()) % 2 == i % 2);
                assert(qab[i / 2] == qb[i / 2 - qa.len()]);
            }
        }
    }
    assert(header_bytes(sample_rate, 2 * qa.len() as int).len() == 44);
    assert(header_bytes(sample_rate, 2 * qb.len() as int).len() == 44);
    assert(header_bytes(sample_rate, 2 * qab.len() as int).len() == 44);
    assert(encoded(a + b, sample_rate).skip(44) =~= data_bytes(qab));
    assert(encoded(a, sample_rate).skip(44) =~= data_bytes(qa));
    assert(encoded(b, sample_rate).skip(44) =~= data_bytes(qb));
}

} // verus!
