use tetoscribe::audio::{AudioError, AudioInfo};
use tetoscribe::env::EnvVars;
use tetoscribe::fingerprint::{
    bridge_audio_fingerprint_from_timeline, bridge_audio_fingerprints,
    bridge_audio_fingerprints_from_timeline, fnv1a64, frame_bounds, pcm_i16_samples,
    set_fingerprint, speaker_fallback_components, FingerprintSource, BINS, FRAMES,
};
use tetoscribe::protocol::{TranscriptionSegment, VoiceFingerprint, VOICE_FINGERPRINT_DIM};
use tetoscribe::riva::{
    Alternative, RivaClientConfig, StreamingRecognitionResult, WordInfo,
};
use tetoscribe::timeline::{
    audio_slice_for_time_range, chunk_bytes, chunk_duration_ms, sample_index_for_ms, AudioTimeline,
};
use tetoscribe::worker::{
    worker_ready, JobProcessor, LiveAudio, LiveAudioAction, LiveAudioEvent, WorkerConfig,
};

const INFO: AudioInfo = AudioInfo { sample_rate_hz: 16_000, channels: 1, bits_per_sample: 16 };

fn normalized(values: Vec<f32>) -> VoiceFingerprint {
    let norm = values.iter().map(|value| value * value).sum::<f32>().sqrt();
    let bits = values
        .iter()
        .map(|value| if norm > 0.0 { (value / norm).to_bits() } else { value.to_bits() })
        .collect();
    VoiceFingerprint::new(bits).unwrap()
}

fn speaker_fingerprint(tag: &str) -> VoiceFingerprint {
    normalized(
        speaker_fallback_components(tag)
            .iter()
            .map(|component| (*component as f32) / ((1u64 << 53) as f32) * 2.0 - 1.0)
            .collect(),
    )
}

fn fingerprint(source: &FingerprintSource) -> VoiceFingerprint {
    match source {
        FingerprintSource::Speaker(tag) => speaker_fingerprint(tag),
        FingerprintSource::Samples(samples) => {
            let mut values = Vec::new();
            for (start, end) in frame_bounds(samples.len()) {
                let sum: f32 = samples[start..end].iter().map(|s| f32::from(*s)).sum();
                values.extend_from_slice(&[sum; BINS]);
            }
            normalized(values)
        }
    }
}

fn segment(tag: &str, start_ms: u64, end_ms: u64) -> TranscriptionSegment {
    TranscriptionSegment::new("session", tag, "words", start_ms, end_ms)
}

fn speaker(tag: &str) -> Option<FingerprintSource> {
    Some(FingerprintSource::Speaker(tag.to_owned()))
}

fn result(text: &str) -> StreamingRecognitionResult {
    StreamingRecognitionResult {
        alternatives: vec![Alternative {
            transcript: text.to_owned(),
            confidence: 0.5f32.to_bits(),
            words: vec![WordInfo { start_time: 0, end_time: 50, speaker_tag: 1 }],
        }],
        is_final: true,
        audio_processed_ms: 0,
    }
}

#[test]
fn worker_ready_reports_status() {
    assert_eq!(worker_ready(), "teto-worker ready");
}

#[test]
fn chunk_bytes_splits_by_configured_size() {
    let chunks = chunk_bytes(&[0; 100], 32);

    assert_eq!(chunks.len(), 4);
    assert_eq!(chunks[0].len(), 32);
    assert_eq!(chunks[1].len(), 32);
    assert_eq!(chunks[2].len(), 32);
    assert_eq!(chunks[3].len(), 4);
}

#[test]
fn bridge_audio_fingerprints_uses_audio_slice() {
    let audio = vec![0u8; 16_000 * 2];
    let segments = vec![
        TranscriptionSegment::new("session", "Speaker_1", "first", 0, 100),
        TranscriptionSegment::new("session", "Speaker_2", "second", 100, 200),
    ];
    let info = AudioInfo { sample_rate_hz: 16_000, channels: 1, bits_per_sample: 16 };

    let sources = bridge_audio_fingerprints(&segments, &audio, info);
    let segments: Vec<TranscriptionSegment> = segments
        .into_iter()
        .zip(sources)
        .map(|(segment, source)| set_fingerprint(segment, source.as_ref().map(fingerprint)))
        .collect();

    assert!(segments[0].voice_fingerprint.is_some());
    assert!(segments[1].voice_fingerprint.is_some());
    assert_ne!(
        segments[0].voice_fingerprint.as_ref().unwrap(),
        segments[1].voice_fingerprint.as_ref().unwrap()
    );
}

#[test]
fn audio_timeline_tracks_chunk_offsets() {
    let mut timeline = AudioTimeline::new();
    let info = AudioInfo { sample_rate_hz: 16_000, channels: 1, bits_per_sample: 16 };

    assert_eq!(timeline.push(vec![0; 3_200], info), 0);
    assert_eq!(timeline.push(vec![0; 3_200], info), 100);
    assert_eq!(
        timeline.audio_for_range(50, 150).map(|bytes| bytes.len()),
        Some(3_200)
    );
}

#[test]
fn fnv1a64_changes_with_input() {
    assert_ne!(fnv1a64(b"Speaker_1"), fnv1a64(b"Speaker_2"));
}

#[test]
fn speaker_fallback_fingerprint_is_deterministic_and_dimensional() {
    let first = speaker_fingerprint("Speaker_1");
    let second = speaker_fingerprint("Speaker_1");
    let other = speaker_fingerprint("Speaker_2");

    assert_eq!(first.as_slice().len(), VOICE_FINGERPRINT_DIM);
    assert_eq!(first, second);
    assert_ne!(first, other);
}

#[test]
fn hashes_are_those_of_fnv() {
    assert_eq!(fnv1a64(b""), 0xcbf2_9ce4_8422_2325);
    assert_eq!(fnv1a64(b"a"), 0xaf63_dc4c_8601_ec8c);
    assert_eq!(fnv1a64(b"foobar"), 0x8594_4171_f739_67e8);
    for b in 0..=255u8 {
        if b != b'x' {
            assert_ne!(fnv1a64(&[b'a', b, b'c']), fnv1a64(b"axc"));
        }
    }
}

#[test]
fn speaker_components_mix_the_hash_with_the_place() {
    let components = speaker_fallback_components("Speaker_1");
    let seed = fnv1a64(b"Speaker_1");
    assert_eq!(components.len(), VOICE_FINGERPRINT_DIM);
    for (i, component) in components.iter().enumerate() {
        let mixed = seed ^ (i as u64).wrapping_mul(0x9E37_79B9_7F4A_7C15);
        assert_eq!(*component, mixed >> 11);
        assert!(*component < 1 << 53);
    }
}

#[test]
fn samples_are_little_endian_and_signed() {
    assert_eq!(
        pcm_i16_samples(&[0, 0, 0xff, 0x7f, 0, 0x80, 0xff, 0xff, 9]),
        vec![0, i16::MAX, i16::MIN, -1]
    );
    assert!(pcm_i16_samples(&[1]).is_empty());
}

#[test]
fn frames_cover_all_samples() {
    assert_eq!(FRAMES * BINS, VOICE_FINGERPRINT_DIM);
    for len in [0usize, 1, 15, 16, 17, 100, 1_601] {
        let bounds = frame_bounds(len);
        assert_eq!(bounds.len(), FRAMES);
        let mut at = 0;
        for (i, (start, end)) in bounds.iter().enumerate() {
            assert_eq!(*start, at);
            assert_eq!(*end, (i + 1) * len / FRAMES);
            at = *end;
        }
        assert_eq!(at, len);
    }
}

#[test]
fn chunks_make_up_the_audio() {
    let audio: Vec<u8> = (0..100).collect();
    for size in [0usize, 1, 7, 99, 100, 101] {
        let chunks = chunk_bytes(&audio, size);
        assert_eq!(chunks.concat(), audio);
        assert!(chunks.iter().all(|chunk| !chunk.is_empty() && chunk.len() <= size.max(1)));
    }
    assert!(chunk_bytes(&[], 5).is_empty());
}

#[test]
fn moments_are_found_among_the_bytes() {
    assert_eq!(sample_index_for_ms(0, INFO), 0);
    assert_eq!(sample_index_for_ms(50, INFO), 1_600);
    assert_eq!(sample_index_for_ms(u64::MAX, INFO), usize::MAX);
    let odd = AudioInfo { sample_rate_hz: 11_025, channels: 2, bits_per_sample: 24 };
    assert_eq!(sample_index_for_ms(3, odd), 3 * 11_025 * 6 / 1_000);
    let mut last = 0;
    for ms in 0..100 {
        assert!(sample_index_for_ms(ms, odd) >= last);
        last = sample_index_for_ms(ms, odd);
    }
}

#[test]
fn slices_stop_where_the_audio_does() {
    let audio: Vec<u8> = (0..64).collect();
    assert_eq!(audio_slice_for_time_range(&audio, 1, 1, INFO), None);
    assert_eq!(audio_slice_for_time_range(&audio, 2, 3, INFO), None);
    assert_eq!(audio_slice_for_time_range(&audio, 1, 9, INFO), Some((32..64).collect()));
    let first = audio_slice_for_time_range(&audio, 0, 1, INFO).unwrap();
    let second = audio_slice_for_time_range(&audio, 1, 2, INFO).unwrap();
    assert_eq!([first, second].concat(), audio);
}

#[test]
fn durations_are_rounded_up() {
    assert_eq!(chunk_duration_ms(3_200, INFO), 100);
    assert_eq!(chunk_duration_ms(3_201, INFO), 101);
    assert_eq!(chunk_duration_ms(1, INFO), 1);
    assert_eq!(chunk_duration_ms(0, INFO), 1);
    assert_eq!(chunk_duration_ms(5, AudioInfo { channels: 0, ..INFO }), 0);
}

#[test]
fn timelines_have_no_gaps() {
    let mut timeline = AudioTimeline::new();
    assert_eq!(timeline.audio_for_range(0, 10), None);
    let silent = AudioInfo { sample_rate_hz: 0, ..INFO };
    assert_eq!(timeline.push((0..64).collect(), INFO), 0);
    assert_eq!(timeline.push(Vec::new(), silent), 2);
    assert_eq!(timeline.push((64..128).collect(), INFO), 3);
    assert_eq!(timeline.push(Vec::new(), INFO), 5);
    assert_eq!(timeline.audio_for_range(0, 5), Some((0..128).collect()));
    assert_eq!(timeline.audio_for_range(1, 4), Some((32..96).collect()));
    for middle in 1..5 {
        let first = timeline.audio_for_range(0, middle).unwrap_or_default();
        let second = timeline.audio_for_range(middle, 5).unwrap_or_default();
        assert_eq!([first, second].concat(), (0..128).collect::<Vec<u8>>());
    }
    assert_eq!(timeline.audio_for_range(4, 4), None);
    assert_eq!(timeline.audio_for_range(2, 3), None);
    assert_eq!(timeline.audio_for_range(9, 12), None);
    assert_eq!(timeline.clone(), timeline);
}

#[test]
fn voices_are_told_by_audio_where_there_is_any() {
    let mut audio = vec![0u8; 3_200];
    audio.extend_from_slice(&[1u8; 3_200]);
    audio.push(7);
    let heard = segment("Speaker_1", 100, 200);
    let silent = segment("Speaker_2", 0, 100);
    let beyond = segment("Speaker_3", 500, 600);
    let known = segment("Speaker_4", 500, 600).with_voice_fingerprint(speaker_fingerprint("x"));
    let odd = segment("Speaker_5", 100, 101);
    let sources = bridge_audio_fingerprints(
        &vec![heard.clone(), silent.clone(), beyond, known.clone(), odd],
        &audio,
        INFO,
    );
    assert_eq!(sources[0], Some(FingerprintSource::Samples(vec![0x101; 1_600])));
    assert_eq!(sources[1], speaker("Speaker_2"));
    let renewed = silent.clone().with_voice_fingerprint(speaker_fingerprint("x"));
    assert_eq!(
        bridge_audio_fingerprints(&vec![renewed], &audio, INFO),
        vec![Some(FingerprintSource::Samples(vec![0; 1_600]))]
    );
    assert_eq!(sources[2], speaker("Speaker_3"));
    assert_eq!(sources[3], None);
    assert_eq!(sources[4], Some(FingerprintSource::Samples(vec![0x101; 16])));
    let tail = vec![segment("Speaker_6", 200, 300).with_voice_fingerprint(speaker_fingerprint("x"))];
    assert_eq!(
        bridge_audio_fingerprints(&tail, &audio, INFO),
        vec![speaker("Speaker_unknown")]
    );

    let mut timeline = AudioTimeline::new();
    timeline.push(audio, INFO);
    assert_eq!(
        bridge_audio_fingerprints_from_timeline(&vec![heard.clone(), silent.clone()], &timeline),
        vec![
            Some(FingerprintSource::Samples(vec![0x101; 1_600])),
            Some(FingerprintSource::Samples(vec![0; 1_600])),
        ]
    );
    assert_eq!(
        bridge_audio_fingerprint_from_timeline(&heard, &timeline),
        Some(FingerprintSource::Samples(vec![0x101; 1_600]))
    );
    assert_eq!(
        bridge_audio_fingerprint_from_timeline(&silent, &timeline),
        Some(FingerprintSource::Samples(vec![0; 1_600]))
    );
    assert_eq!(
        bridge_audio_fingerprint_from_timeline(&segment("Speaker_7", 500, 600), &timeline),
        speaker("Speaker_7")
    );
    let voiced = heard.with_voice_fingerprint(speaker_fingerprint("x"));
    assert_eq!(bridge_audio_fingerprint_from_timeline(&voiced, &timeline), None);
    assert_eq!(set_fingerprint(voiced.clone(), None), voiced);
}

#[test]
fn worker_config_reads_the_environment() {
    let mut env = EnvVars::new();
    let config = WorkerConfig::from_env(&env);
    assert_eq!(config.redis_url, "redis://127.0.0.1/");
    assert_eq!(config.archive_queue, "teto_archive_jobs");
    assert_eq!(config.live_channel, "teto_audio_live");
    assert_eq!(config.transcription_stream, "teto_transcription_stream");
    assert_eq!(config.transcription_field, "segment");
    assert_eq!(config.file_chunk_bytes, 32_768);
    assert_eq!(config.reconnect_delay_secs, 2);
    env.set("TETO_FILE_CHUNK_BYTES", "4");
    env.set("RIVA_SAMPLE_RATE_HZ", "8000");
    let processor = JobProcessor::from_env(&env);
    assert_eq!(processor.config().file_chunk_bytes, 4);
    assert_eq!(processor.riva().config().sample_rate_hertz, 8_000);
    assert_eq!(
        processor.riva_audio_info(),
        AudioInfo { sample_rate_hz: 8_000, channels: 1, bits_per_sample: 16 }
    );
}

#[test]
fn recordings_are_made_ready() {
    let mut config = WorkerConfig::from_env(&EnvVars::new());
    config.file_chunk_bytes = 2;
    let processor = JobProcessor::new(config, RivaClientConfig::from_env(&EnvVars::new()));
    let job = processor.start_archive_job("  ./mike_and_nick.wav\n");
    assert_eq!(job.path, "./mike_and_nick.wav");
    assert_eq!(job.session_id.len(), 36);
    assert_ne!(job.session_id, processor.start_archive_job("").session_id);
    let ready = processor.process_archive_job(&[1, 2, 3]).unwrap();
    assert_eq!(ready.audio.info, INFO);
    assert_eq!(ready.audio.samples, vec![1, 2, 3]);
    assert_eq!(ready.chunks, vec![vec![1, 2], vec![3]]);
    assert_eq!(
        processor.process_archive_job(b"RIFF....WAVE"),
        Err(AudioError::MissingFmt)
    );
}

#[test]
fn live_audio_is_sent_and_its_segments_published() {
    let mut live = LiveAudio::new("session".to_owned(), INFO);
    assert_eq!(live.session_id(), "session");
    match live.run_live_connected(LiveAudioEvent::Audio(vec![1; 3_200])) {
        LiveAudioAction::Send(chunk) => assert_eq!(chunk, vec![1; 3_200]),
        other => panic!("not sent: {other:?}"),
    }
    assert!(matches!(
        live.run_live_connected(LiveAudioEvent::ChunkSent),
        LiveAudioAction::Receive
    ));
    match live.run_live_connected(LiveAudioEvent::Results(vec![
        result("  "), result("one"), result("two"),
    ])) {
        LiveAudioAction::Publish(voiced) => {
            assert_eq!(voiced.segment.text, "one");
            assert_eq!(voiced.segment.session_id, "session");
            assert_eq!(
                voiced.source,
                Some(FingerprintSource::Samples(vec![0x101; 800]))
            );
        }
        other => panic!("not published: {other:?}"),
    }
    assert!(matches!(
        live.run_live_connected(LiveAudioEvent::Published),
        LiveAudioAction::Receive
    ));
    assert!(matches!(
        live.run_live_connected(LiveAudioEvent::Results(Vec::new())),
        LiveAudioAction::Receive
    ));
    assert!(matches!(
        live.run_live_connected(LiveAudioEvent::ResultsEnded),
        LiveAudioAction::Listen
    ));
    assert!(matches!(
        live.run_live_connected(LiveAudioEvent::Audio(Vec::new())),
        LiveAudioAction::Receive
    ));
    assert!(matches!(
        live.run_live_connected(LiveAudioEvent::AudioEnded),
        LiveAudioAction::EndAudio
    ));
    assert!(matches!(
        live.run_live_connected(LiveAudioEvent::Results(vec![result("three"), result("four")])),
        LiveAudioAction::Receive
    ));
    match live.run_live_connected(LiveAudioEvent::ResultsEnded) {
        LiveAudioAction::Finish(last) => {
            let texts: Vec<&str> = last.iter().map(|v| v.segment.text.as_str()).collect();
            assert_eq!(texts, vec!["three", "four"]);
            assert!(last.iter().all(|v| v.source.is_some()));
        }
        other => panic!("not finished: {other:?}"),
    }
    let fresh = JobProcessor::from_env(&EnvVars::new()).open_live_audio();
    assert_eq!(fresh.session_id().len(), 36);
}
