use lilapu_audio::sample::quantize_sample;
use lilapu_audio::wav::{encode_wav, encoding_result, quantize_track, EncodeError, WriteStage};

fn bits(samples: &[f32]) -> Vec<u32> {
    samples.iter().map(|s| s.to_bits()).collect()
}

fn decode(file: &[u8]) -> (hound::WavSpec, Vec<i16>) {
    let mut reader = hound::WavReader::new(std::io::Cursor::new(file.to_vec())).unwrap();
    let spec = reader.spec();
    let samples: Vec<i16> = reader.samples::<i16>().map(|s| s.unwrap()).collect();
    (spec, samples)
}

#[test]
fn encode_writes_the_canonical_header_and_the_samples() {
    let file = match encode_wav(&bits(&[0.5, -0.5, 0.2]), 16000) {
        Ok(file) => file,
        Err(_) => panic!("encoding failed"),
    };
    let expected: Vec<u8> = vec![
        0x52, 0x49, 0x46, 0x46, 42, 0, 0, 0, 0x57, 0x41, 0x56, 0x45, // RIFF, 36 + 6, WAVE
        0x66, 0x6d, 0x74, 0x20, 16, 0, 0, 0, 1, 0, 1, 0, // fmt, 16, PCM, mono
        0x80, 0x3e, 0, 0, 0x00, 0x7d, 0, 0, 2, 0, 16, 0, // 16000, 32000, 2, 16
        0x64, 0x61, 0x74, 0x61, 6, 0, 0, 0, // data, 6
        0xff, 0x3f, 0x00, 0xc0, 0x99, 0x19, // 16383, -16384, 6553
    ];
    assert_eq!(file, expected);
}

#[test]
fn encode_of_an_empty_track_is_a_bare_header() {
    let file = match encode_wav(&[], 16000) {
        Ok(file) => file,
        Err(_) => panic!("encoding failed"),
    };
    assert_eq!(file.len(), 44);
    assert_eq!(&file[40..44], &[0, 0, 0, 0]);
    assert_eq!(&file[4..8], &[36, 0, 0, 0]);
}

#[test]
fn encode_is_deterministic() {
    let samples = bits(&[0.1, 0.9, -0.3, 1.5, -1.5, 0.0]);
    let first = encode_wav(&samples, 16000).ok().unwrap();
    let second = encode_wav(&samples, 16000).ok().unwrap();
    assert_eq!(first, second);
}

#[test]
fn encode_round_trips_count_and_rate() {
    for &rate in [1u32, 8000, 16000, 44100, 0x7fff_ffff].iter() {
        for count in [0usize, 1, 2, 7, 1000] {
            let samples: Vec<u32> =
                (0..count).map(|i| ((i as f32 / 500.0) - 1.0).to_bits()).collect();
            let file = encode_wav(&samples, rate).ok().unwrap();
            assert_eq!(file.len(), 44 + 2 * count);
            let (spec, decoded) = decode(&file);
            assert_eq!(spec.sample_rate, rate);
            assert_eq!(spec.channels, 1);
            assert_eq!(spec.bits_per_sample, 16);
            assert_eq!(spec.sample_format, hound::SampleFormat::Int);
            assert_eq!(decoded.len(), count);
            let expected: Vec<i16> = samples.iter().map(|s| quantize_sample(*s)).collect();
            assert_eq!(decoded, expected);
        }
    }
}

#[test]
fn encode_refuses_a_rate_the_header_cannot_hold() {
    assert!(matches!(encode_wav(&bits(&[0.5]), 0), Err(EncodeError::UnsupportedRate)));
    assert!(matches!(encode_wav(&bits(&[0.5]), 0x8000_0000), Err(EncodeError::UnsupportedRate)));
    assert!(matches!(encode_wav(&bits(&[0.5]), u32::MAX), Err(EncodeError::UnsupportedRate)));
    assert!(encode_wav(&bits(&[0.5]), 0x7fff_ffff).is_ok());
}

#[test]
fn quantize_track_quantizes_each_sample_in_order() {
    let pcm = quantize_track(&bits(&[1.0, -1.0, 0.5, -0.5, 0.0, 2.0, -2.0]));
    assert_eq!(pcm, vec![32767, -32768, 16383, -16384, 0, 32767, -32768]);
}

#[test]
fn writer_failures_keep_their_step_and_message() {
    match encoding_result(Err((WriteStage::Create, "no writer".to_string()))) {
        Err(EncodeError::Create(message)) => assert_eq!(message, "no writer"),
        _ => panic!("expected a construction failure"),
    }
    match encoding_result(Err((WriteStage::Samples, "no room".to_string()))) {
        Err(EncodeError::Write(message)) => assert_eq!(message, "no room"),
        _ => panic!("expected a write failure"),
    }
    match encoding_result(Err((WriteStage::Finalize, "no end".to_string()))) {
        Err(EncodeError::Finalize(message)) => assert_eq!(message, "no end"),
        _ => panic!("expected a finalize failure"),
    }
    match encoding_result(Ok(vec![1, 2, 3])) {
        Ok(bytes) => assert_eq!(bytes, vec![1, 2, 3]),
        Err(_) => panic!("expected the bytes"),
    }
}

#[test]
fn encode_succeeds_on_every_kind_of_sample() {
    let samples = vec![
        f32::NAN.to_bits(),
        f32::INFINITY.to_bits(),
        f32::NEG_INFINITY.to_bits(),
        0x0000_0001,
        0x8000_0000,
        f32::MAX.to_bits(),
        f32::MIN.to_bits(),
    ];
    let file = encode_wav(&samples, 16000).ok().unwrap();
    assert_eq!(file.len(), 44 + 14);
    assert_eq!(
        &file[44..],
        &[0x00, 0x80, 0xff, 0x7f, 0x00, 0x80, 0, 0, 0, 0, 0xff, 0x7f, 0x00, 0x80]
    );
}

#[test]
fn encode_of_full_scale_does_not_wrap() {
    let file = encode_wav(&bits(&[1.0, -1.0]), 16000).ok().unwrap();
    assert_eq!(file.len(), 48);
    assert_eq!(&file[40..44], &[4, 0, 0, 0]);
    assert_eq!(&file[44..48], &[0xff, 0x7f, 0x00, 0x80]);
}

#[test]
fn encode_of_clamped_samples_is_the_same_file() {
    let loud = encode_wav(&bits(&[2.0, -3.0, 0.25]), 16000).ok().unwrap();
    let clamped = encode_wav(&bits(&[1.0, -1.0, 0.25]), 16000).ok().unwrap();
    assert_eq!(loud, clamped);
}

#[test]
fn encode_writes_samples_one_after_another() {
    let a = bits(&[0.1, -0.2]);
    let b = bits(&[0.3, 0.4, -0.5]);
    let mut both = a.clone();
    both.extend_from_slice(&b);
    let whole = encode_wav(&both, 8000).ok().unwrap();
    let first = encode_wav(&a, 8000).ok().unwrap();
    let second = encode_wav(&b, 8000).ok().unwrap();
    let mut payload = first[44..].to_vec();
    payload.extend_from_slice(&second[44..]);
    assert_eq!(&whole[44..], &payload[..]);
}
