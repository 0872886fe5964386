use tetoscribe::env::EnvVars;
use tetoscribe::riva::{
    audio_chunks, parse_custom_configuration, result_to_segment, speaker_tag_from_words,
    time_range_from_words, Alternative, AudioEncoding, RivaClient, RivaClientConfig, RivaError,
    RivaStreamingSession, StreamingRecognitionResult, StreamingRequest, WordInfo,
};

fn word(start_time: i32, end_time: i32, speaker_tag: i32) -> WordInfo {
    WordInfo { start_time, end_time, speaker_tag }
}

fn reading(transcript: &str, confidence: f32) -> Alternative {
    Alternative {
        transcript: transcript.to_owned(),
        confidence: confidence.to_bits(),
        words: vec![word(10, 20, 1)],
    }
}

fn result(alternatives: Vec<Alternative>) -> StreamingRecognitionResult {
    StreamingRecognitionResult { alternatives, is_final: true, audio_processed_ms: 0 }
}

fn chosen(confidences: &[f32]) -> usize {
    let alternatives = confidences
        .iter()
        .enumerate()
        .map(|(i, confidence)| reading(&i.to_string(), *confidence))
        .collect();
    result_to_segment("s", &result(alternatives)).unwrap().text.parse().unwrap()
}

#[test]
fn audio_chunks_split_linear_pcm_by_configured_duration() {
    let audio = vec![0u8; 16_000 * 2];
    let chunks = audio_chunks(&audio, 100, 16_000);

    assert_eq!(chunks.len(), 10);
    assert!(chunks.iter().all(|chunk| chunk.len() == 3_200));
}

#[test]
fn parse_custom_configuration_ignores_invalid_entries() {
    assert_eq!(
        parse_custom_configuration("task=transcribe, invalid, model=asr"),
        vec![
            ("task".to_owned(), "transcribe".to_owned()),
            ("model".to_owned(), "asr".to_owned()),
        ]
    );
}

#[test]
fn custom_configuration_is_trimmed() {
    assert_eq!(
        parse_custom_configuration(" , a = b = c ,=, d="),
        vec![
            ("a".to_owned(), "b = c".to_owned()),
            (String::new(), String::new()),
            ("d".to_owned(), String::new()),
        ]
    );
    assert!(parse_custom_configuration("").is_empty());
}

#[test]
fn audio_chunks_round_the_rate_up() {
    let audio: Vec<u8> = (0..50).collect();
    let chunks = audio_chunks(&audio, 2, 11_025);
    assert_eq!(chunks.iter().map(Vec::len).collect::<Vec<_>>(), vec![46, 4]);
    assert_eq!(chunks.concat(), audio);
    assert!(audio_chunks(&audio, 0, 16_000).is_empty());
    assert!(audio_chunks(&audio, 2, 0).is_empty());
    assert!(audio_chunks(&audio, 2, -5).is_empty());
    assert!(audio_chunks(&[], 2, 16_000).is_empty());
    assert_eq!(audio_chunks(&audio, 1, 1).len(), 50);
}

#[test]
fn riva_config_reads_the_environment() {
    let mut env = EnvVars::new();
    let config = RivaClientConfig::from_env(&env);
    assert_eq!(config.asr_endpoint, "http://127.0.0.1:50051");
    assert_eq!(config.language_code, "en-US");
    assert_eq!(config.sample_rate_hertz, 16_000);
    assert_eq!(config.encoding, AudioEncoding::LinearPcm);
    assert_eq!(config.chunk_duration_ms, 100);
    assert!(config.enable_interim_results);
    assert_eq!(config.max_speaker_count, 2);
    assert_eq!(config.model_name, "");
    assert!(config.custom_configuration.is_empty());
    env.set("RIVA_INTERIM_RESULTS", "Off");
    env.set("RIVA_MAX_SPEAKER_COUNT", "4");
    env.set("RIVA_SAMPLE_RATE_HZ", "99999999999");
    env.set("RIVA_CUSTOM_CONFIGURATION", "a=1,a=2");
    env.set("RIVA_ASR_MODEL", " m ");
    let config = RivaClientConfig::from_env(&env);
    assert!(!config.enable_interim_results);
    assert_eq!(config.max_speaker_count, 4);
    assert_eq!(config.sample_rate_hertz, 16_000);
    assert_eq!(config.model_name, "m");
    let client = RivaClient::new(config.clone());
    assert_eq!(client.config(), &config);
    let recognition = client.recognition_config();
    assert_eq!(recognition.custom_configuration.get("a"), Some(&"2".to_owned()));
    assert_eq!(recognition.custom_configuration.len(), 1);
    assert_eq!(recognition.max_alternatives, 1);
    assert_eq!(recognition.audio_channel_count, 1);
    assert_eq!(recognition.max_speaker_count, 4);
    assert_eq!(recognition.model, "m");
    assert_eq!(recognition.language_code, "en-US");
    assert_eq!(recognition.sample_rate_hertz, 16_000);
    assert!(recognition.enable_word_time_offsets && recognition.enable_automatic_punctuation);
    assert!(recognition.enable_speaker_diarization);
    assert!(!recognition.profanity_filter && !recognition.verbatim_transcripts);
    assert!(!recognition.enable_separate_recognition_per_channel);
}

#[test]
fn requests_begin_with_the_configuration() {
    let client = RivaClient::new(RivaClientConfig::from_env(&EnvVars::new()));
    let requests = client.streaming_requests(vec![vec![1, 2], vec![3]]);
    assert_eq!(requests.len(), 3);
    assert!(matches!(
        &requests[0],
        StreamingRequest::Config { config, interim_results: true } if config.sample_rate_hertz == 16_000
    ));
    assert!(matches!(&requests[1], StreamingRequest::Audio(chunk) if *chunk == vec![1, 2]));
    assert!(matches!(&requests[2], StreamingRequest::Audio(chunk) if *chunk == vec![3]));
}

#[test]
fn empty_audio_is_refused() {
    let client = RivaClient::new(RivaClientConfig::from_env(&EnvVars::new()));
    assert_eq!(client.stream_audio_to_riva(&[]), Err(RivaError::EmptyAudio));
    assert_eq!(
        RivaError::EmptyAudio.message(),
        "cannot stream empty audio payload to Riva"
    );
    assert_eq!(client.stream_audio_to_riva(&[0; 6_401]).unwrap().len(), 3);
    assert_eq!(client.extract_voice_fingerprint(&[1, 2]), None);
}

#[test]
fn speakers_are_told_by_the_highest_tag() {
    assert_eq!(speaker_tag_from_words(&vec![]), "Speaker_unknown");
    assert_eq!(speaker_tag_from_words(&vec![word(0, 1, 0), word(1, 2, -3)]), "Speaker_unknown");
    assert_eq!(
        speaker_tag_from_words(&vec![word(0, 1, 2), word(1, 2, 11), word(2, 3, 3)]),
        "Speaker_11"
    );
}

#[test]
fn times_run_from_the_first_word_to_the_last() {
    assert_eq!(time_range_from_words(&vec![], 700), (0, 700));
    assert_eq!(
        time_range_from_words(&vec![word(50, 90, 1), word(20, 60, 1), word(-1, -1, 1)], 700),
        (20, 90)
    );
    assert_eq!(time_range_from_words(&vec![word(900, -1, 1)], 700), (900, 900));
    assert_eq!(time_range_from_words(&vec![word(-5, 300, 1)], 700), (0, 300));
}

#[test]
fn results_become_segments() {
    let mut good = result(vec![reading("  hello there ", 0.9)]);
    let segment = result_to_segment("s", &good).unwrap();
    assert_eq!(segment.session_id, "s");
    assert_eq!(segment.speaker_tag, "Speaker_1");
    assert_eq!(segment.text, "hello there");
    assert_eq!((segment.start_ms, segment.end_ms), (10, 20));
    assert!(segment.is_final);
    assert_eq!(segment.voice_fingerprint, None);
    assert_eq!(segment.identified_name, None);
    good.is_final = false;
    assert_eq!(result_to_segment("s", &good), None);
    assert_eq!(result_to_segment("s", &result(vec![])), None);
    assert_eq!(result_to_segment("s", &result(vec![reading(" \n", 0.9)])), None);
    assert_eq!(
        result_to_segment("s", &result(vec![reading("a", 0.1), reading("", 0.9)])),
        None
    );
}

#[test]
fn the_last_of_the_most_confident_readings_is_preferred() {
    assert_eq!(chosen(&[0.1, 0.9, 0.5]), 1);
    assert_eq!(chosen(&[0.9, 0.1, 0.9]), 2);
    assert_eq!(chosen(&[0.0, -0.0]), 1);
    assert_eq!(chosen(&[-0.0, 0.0, -1.0]), 1);
    assert_eq!(chosen(&[-0.5, -0.25, -0.75]), 1);
    assert_eq!(chosen(&[f32::INFINITY, 1.0]), 0);
    assert_eq!(chosen(&[f32::NEG_INFINITY, f32::MIN]), 1);
}

#[test]
fn readings_are_preferred_as_max_by_does() {
    let values = [0.5f32, f32::NAN, 0.2, -f32::NAN, 0.7, 0.7, -1.0];
    for a in values {
        for b in values {
            for c in values {
                let list = [a, b, c];
                let expected = list
                    .iter()
                    .enumerate()
                    .max_by(|x, y| x.1.partial_cmp(y.1).unwrap_or(std::cmp::Ordering::Equal))
                    .unwrap()
                    .0;
                assert_eq!(chosen(&list), expected, "{list:?}");
            }
        }
    }
}

#[test]
fn sessions_hand_out_segments() {
    let session = RivaStreamingSession::new("s");
    let results = vec![
        result(vec![]),
        result(vec![reading("one", 0.5)]),
        result(vec![reading("two", 0.5)]),
    ];
    assert_eq!(session.recv_next(&results).unwrap().text, "one");
    assert_eq!(session.recv_next(&vec![result(vec![])]), None);
    let mut segments = Vec::new();
    session.collect(&results, &mut segments);
    session.collect(&results, &mut segments);
    let texts: Vec<&str> = segments.iter().map(|s| s.text.as_str()).collect();
    assert_eq!(texts, vec!["one", "two", "one", "two"]);
    assert_eq!(session.send_chunk(Vec::new()), None);
    assert_eq!(session.send_chunk(vec![1]), Some(vec![1]));
}
