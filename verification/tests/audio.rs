use tetoscribe::audio::{
    decode_audio_bytes, looks_like_wav, read_u16_le, read_u32_le, AudioError, AudioInfo,
    DecodedAudio,
};

const LAYOUT: AudioInfo = AudioInfo { sample_rate_hz: 8_000, channels: 2, bits_per_sample: 8 };

fn wav_with_data(data: &[u8]) -> Vec<u8> {
    let mut out = Vec::new();
    out.extend_from_slice(b"RIFF");
    out.extend_from_slice(&(36 + data.len() as u32).to_le_bytes());
    out.extend_from_slice(b"WAVE");
    out.extend_from_slice(b"fmt ");
    out.extend_from_slice(&16u32.to_le_bytes());
    out.extend_from_slice(&1u16.to_le_bytes()); // PCM
    out.extend_from_slice(&1u16.to_le_bytes()); // mono
    out.extend_from_slice(&16_000u32.to_le_bytes());
    out.extend_from_slice(&32_000u32.to_le_bytes()); // byte rate
    out.extend_from_slice(&2u16.to_le_bytes()); // block align
    out.extend_from_slice(&16u16.to_le_bytes());
    out.extend_from_slice(b"data");
    out.extend_from_slice(&(data.len() as u32).to_le_bytes());
    out.extend_from_slice(data);
    out
}

fn fault(wav: &[u8]) -> AudioError {
    decode_audio_bytes(wav, LAYOUT).unwrap_err()
}

#[test]
fn decodes_pcm_wav_header() {
    let wav = wav_with_data(&[0, 0, 0x80, 0x7f, 0, 0]);
    let decoded = decode_audio_bytes(
        &wav,
        AudioInfo { sample_rate_hz: 16_000, channels: 1, bits_per_sample: 16 },
    )
    .unwrap();

    assert_eq!(decoded.info.sample_rate_hz, 16_000);
    assert_eq!(decoded.info.channels, 1);
    assert_eq!(decoded.info.bits_per_sample, 16);
    assert_eq!(decoded.samples, vec![0, 0, 0x80, 0x7f, 0, 0]);
}

#[test]
fn treats_non_wav_bytes_as_raw_pcm_with_default_info() {
    let decoded = decode_audio_bytes(
        &[1, 2, 3, 4],
        AudioInfo { sample_rate_hz: 8_000, channels: 1, bits_per_sample: 16 },
    )
    .unwrap();

    assert_eq!(decoded.samples, vec![1, 2, 3, 4]);
    assert_eq!(decoded.info.sample_rate_hz, 8_000);
}

#[test]
fn a_header_takes_twelve_bytes() {
    assert!(looks_like_wav(b"RIFF....WAVE"));
    assert!(!looks_like_wav(b"RIFF....WAV"));
    assert!(!looks_like_wav(b"RIFX....WAVE"));
    assert_eq!(
        decode_audio_bytes(b"RIFF....WAV", LAYOUT),
        Ok(DecodedAudio { info: LAYOUT, samples: b"RIFF....WAV".to_vec() })
    );
}

#[test]
fn little_endian_numbers_are_read_within_bounds() {
    assert_eq!(read_u16_le(&[1, 2, 3], 1), Ok(0x0302));
    assert_eq!(read_u32_le(&[9, 4, 3, 2, 1], 1), Ok(0x0102_0304));
    assert_eq!(read_u16_le(&[1, 2, 3], 2), Err(AudioError::ShortU16 { offset: 2 }));
    assert_eq!(read_u32_le(&[1, 2, 3], 0), Err(AudioError::ShortU32 { offset: 0 }));
}

#[test]
fn other_chunks_and_padding_are_skipped() {
    let plain = wav_with_data(&[1, 2]);
    let mut wav = plain[..36].to_vec();
    wav.extend_from_slice(b"LIST");
    wav.extend_from_slice(&3u32.to_le_bytes());
    wav.extend_from_slice(&[7, 7, 7, 0]);
    wav.extend_from_slice(&plain[36..]);
    assert_eq!(decode_audio_bytes(&wav, LAYOUT).unwrap().samples, vec![1, 2]);
    let mut twice = wav.clone();
    twice.extend_from_slice(b"data");
    twice.extend_from_slice(&4u32.to_le_bytes());
    twice.extend_from_slice(&[5, 6, 7, 8]);
    assert_eq!(decode_audio_bytes(&twice, LAYOUT).unwrap().samples, vec![5, 6, 7, 8]);
}

#[test]
fn faults_are_told_apart() {
    let good = wav_with_data(&[1, 2]);

    let mut wav = good.clone();
    wav[40] = 200;
    assert_eq!(fault(&wav), AudioError::InvalidChunkSize { chunk_id: 0x6174_6164 });
    assert_eq!(fault(&wav).message(), "invalid WAV chunk size for chunk 0x61746164");

    let mut wav = good.clone();
    wav[16] = 14;
    assert_eq!(fault(&wav), AudioError::FmtTooSmall { chunk_size: 14 });
    assert_eq!(fault(&wav).message(), "WAV fmt chunk is too small: 14 bytes");

    let mut wav = good.clone();
    wav[20] = 3;
    assert_eq!(fault(&wav), AudioError::UnsupportedFormat { audio_format: 3 });
    assert_eq!(
        fault(&wav).message(),
        "unsupported WAV audio format 3; expected PCM format 1"
    );

    let mut wav = good.clone();
    wav[22] = 0;
    assert_eq!(
        fault(&wav),
        AudioError::InvalidFmt { channels: 0, sample_rate_hz: 16_000, bits_per_sample: 16 }
    );
    assert_eq!(
        fault(&wav).message(),
        "invalid WAV fmt values: channels=0, sample_rate=16000, bits=16"
    );

    let mut wav = good.clone();
    wav[34] = 12;
    assert_eq!(fault(&wav), AudioError::UnsupportedBitDepth { bits_per_sample: 12 });
    assert_eq!(
        fault(&wav).message(),
        "unsupported WAV bit depth 12; expected byte-aligned PCM"
    );

    assert_eq!(fault(b"RIFF....WAVE"), AudioError::MissingFmt);
    assert_eq!(fault(b"RIFF....WAVE").message(), "WAV file is missing fmt chunk");
    assert_eq!(fault(&good[..36]), AudioError::MissingData);
    assert_eq!(fault(&good[..36]).message(), "WAV file is missing data chunk");

    let wav = wav_with_data(&[1, 2, 3]);
    assert_eq!(fault(&wav), AudioError::MisalignedData { data_size: 3, block_align: 2 });
    assert_eq!(
        fault(&wav).message(),
        "WAV data chunk has 3 bytes, not divisible by block align 2"
    );
    assert_eq!(
        AudioError::ShortU16 { offset: 7 }.message(),
        "failed to read u16 at byte offset 7"
    );
    assert_eq!(
        AudioError::ShortU32 { offset: 12 }.message(),
        "failed to read u32 at byte offset 12"
    );
}
