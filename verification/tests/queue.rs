use tetoscribe::brain::{parse_speaker_lines, BrainBackend, BrainStep, KnownNames, RegexIdentityEngine};
use tetoscribe::env::EnvVars;
use tetoscribe::protocol::{
    BrainIdentityRequest, BrainIdentityResponse, IdentitySource, TranscriptionSegment,
    VoiceFingerprint, DEFAULT_BRAIN_CONFIDENCE_THRESHOLD, VOICE_FINGERPRINT_DIM,
};
use tetoscribe::queue::{
    handle_live_socket, is_busy_group, pending_start_id, BrainResolutionListener, LiveAction,
    LiveEvent, PendingIdentityBuffer, QueueConfig, Resolution, ResolutionEffect, SegmentStep,
    StepOutcome, StreamListener, RECONNECT_DELAY_SECS,
};
use tetoscribe::storage::MatchedVoice;
use tetoscribe::string_map::StringMap;

fn config(brain_request_segments: usize) -> QueueConfig {
    let mut config = QueueConfig::from_env(&EnvVars::new(), None);
    config.brain_request_segments = brain_request_segments;
    config
}

fn voice(value: f32) -> VoiceFingerprint {
    VoiceFingerprint::new(vec![value.to_bits(); VOICE_FINGERPRINT_DIM])
        .expect("test fingerprint has the required dimension")
}

fn spoken(session: &str, tag: &str, text: &str) -> TranscriptionSegment {
    TranscriptionSegment::new(session, tag, text, 0, 1_000).with_voice_fingerprint(voice(0.42))
}

fn identities(pairs: &[(&str, &str)]) -> StringMap<String> {
    let mut map = StringMap::new();
    for (tag, name) in pairs {
        map.insert(tag.to_string(), name.to_string());
    }
    map
}

fn request(step: SegmentStep) -> BrainIdentityRequest {
    match step {
        SegmentStep::Dispatch(request) => request,
        other => panic!("no request: {other:?}"),
    }
}

fn effects(resolution: Resolution) -> Vec<ResolutionEffect> {
    match resolution {
        Resolution::Apply(effects) => effects,
        other => panic!("nothing to apply: {other:?}"),
    }
}

#[derive(Default)]
struct MockStorage {
    voices: Vec<(Vec<u32>, String)>,
}

impl MockStorage {
    fn match_voice(&self, fingerprint: &VoiceFingerprint) -> Option<MatchedVoice> {
        self.voices
            .iter()
            .find(|(stored, _)| stored.as_slice() == fingerprint.as_slice())
            .map(|(_, name)| MatchedVoice {
                name: name.clone(),
                confidence: 1.0f32.to_bits(),
                point_id: None,
            })
    }
}

#[test]
fn queue_config_uses_safe_defaults_when_env_is_missing() {
    let config = QueueConfig::from_env(&EnvVars::new(), None);

    assert_eq!(config.redis_url, "redis://127.0.0.1/");
    assert_eq!(config.transcription_stream, "teto_transcription_stream");
    assert_eq!(config.controller_group, "teto_controller");
    assert_eq!(config.controller_consumer, "teto_controller");
    assert_eq!(config.brain_queue, "teto_brain_queue");
    assert_eq!(config.brain_resolutions_queue, "brain_resolutions");
    assert_eq!(config.live_channel, "teto_live_transcripts");
    assert_eq!(config.stream_block_ms, 5_000);
    assert_eq!(config.stream_batch_size, 10);
    assert_eq!(config.brain_request_segments, 5);
    assert_eq!(config.controller_addr, "127.0.0.1:3030");
    assert_eq!(config.transcription_field, "segment");
    assert_eq!(RECONNECT_DELAY_SECS, 2);
}

#[test]
fn queue_config_reads_the_environment() {
    let mut env = EnvVars::new();
    env.set("TETO_TRANSCRIPTION_FIELD", "line");
    env.set("TETO_CONTROLLER_GROUP", "g");
    env.set("TETO_CONTROLLER_CONSUMER", "c");
    env.set("TETO_STREAM_BLOCK_MS", "9");
    env.set("TETO_STREAM_BATCH_SIZE", "-1");
    env.set("TETO_BRAIN_REQUEST_SEGMENTS", "1");
    env.set("TETO_LIVE_CHANNEL", "live");
    let config = QueueConfig::from_env(&env, Some("[::1]:80".to_owned()));
    assert_eq!(config.transcription_field, "line");
    assert_eq!(config.controller_group, "g");
    assert_eq!(config.controller_consumer, "c");
    assert_eq!(config.stream_block_ms, 9);
    assert_eq!(config.stream_batch_size, 10);
    assert_eq!(config.brain_request_segments, 1);
    assert_eq!(config.live_channel, "live");
    assert_eq!(config.controller_addr, "[::1]:80");
}

#[test]
fn identity_loop_closes_without_riva() {
    let mut storage = MockStorage::default();
    let mut pending = StreamListener::new_pending();
    let listener = StreamListener::new(config(1), true);
    let brain_listener = BrainResolutionListener::new(config(1), true);

    let segment =
        TranscriptionSegment::new("session-1", "Speaker_1", "Меня зовут Алиса.", 0, 1_000)
            .with_voice_fingerprint(voice(0.42));
    let step = listener.process_segment(&mut pending, segment);
    let found = match &step {
        SegmentStep::MatchVoice(sought) => {
            storage.match_voice(sought.voice_fingerprint.as_ref().unwrap())
        }
        other => panic!("no search: {other:?}"),
    };
    let step = listener.advance(&mut pending, step, StepOutcome::Searched(found)).unwrap();
    let asked = request(step);
    assert_eq!(asked.session_id, "session-1");
    assert_eq!(asked.speaker_tags, vec!["Speaker_1".to_owned()]);
    assert!(asked.transcript.contains("Speaker_1: Меня зовут Алиса."));
    let step = listener.advance(&mut pending, SegmentStep::Dispatch(asked), StepOutcome::Done);
    assert!(matches!(step, Some(SegmentStep::Acknowledge)));

    let response =
        BrainIdentityResponse::new("session-1", identities(&[("Speaker_1", "Алиса")]));
    let followed = effects(brain_listener.handle_resolution(&mut pending, &response));
    assert_eq!(followed.len(), 3);
    match &followed[0] {
        ResolutionEffect::Upsert(upsert) => {
            assert_eq!(upsert.session_id, "session-1");
            assert_eq!(upsert.speaker_tag, "Speaker_1");
            assert_eq!(upsert.name, "Алиса");
            assert_eq!(upsert.source, IdentitySource::BrainReasoning);
            assert_eq!(upsert.confidence, DEFAULT_BRAIN_CONFIDENCE_THRESHOLD);
            assert_eq!(upsert.fingerprint, voice(0.42));
            storage
                .voices
                .push((upsert.fingerprint.as_slice().to_owned(), upsert.name.clone()));
        }
        other => panic!("not stored: {other:?}"),
    }
    match &followed[1] {
        ResolutionEffect::Announce(identity) => {
            assert_eq!(identity.event_type, "IdentityResolved");
            assert_eq!(identity.session_id, "session-1");
            assert_eq!(identity.speaker_tag, "Speaker_1");
            assert_eq!(identity.name, "Алиса");
            assert_eq!(identity.source, IdentitySource::BrainReasoning);
        }
        other => panic!("not announced: {other:?}"),
    }
    match &followed[2] {
        ResolutionEffect::Replay(replayed) => {
            assert_eq!(replayed.session_id, "session-1");
            assert_eq!(replayed.speaker_tag, "Speaker_1");
            assert_eq!(replayed.text, "Меня зовут Алиса.");
            assert_eq!(replayed.identified_name.as_deref(), Some("Алиса"));
        }
        other => panic!("not replayed: {other:?}"),
    }

    let fast_path_segment = TranscriptionSegment::new(
        "session-1",
        "Speaker_1",
        "Алиса продолжает разговор.",
        1_001,
        2_000,
    )
    .with_voice_fingerprint(voice(0.42));
    let step = listener.process_segment(&mut pending, fast_path_segment);
    let found = storage.match_voice(&voice(0.42));
    match listener.advance(&mut pending, step, StepOutcome::Searched(found)) {
        Some(SegmentStep::Emit(fast_path)) => {
            assert_eq!(fast_path.text, "Алиса продолжает разговор.");
            assert_eq!(fast_path.identified_name.as_deref(), Some("Алиса"));
        }
        other => panic!("not sent on: {other:?}"),
    }
    assert!(pending.remove("session-1").is_none());
}

#[test]
fn segments_without_a_voice_are_sent_on() {
    let mut pending = StreamListener::new_pending();
    for has_memory in [true, false] {
        let listener = StreamListener::new(config(1), has_memory);
        let plain = TranscriptionSegment::new("s", "a", "hi", 0, 1);
        let step = listener.process_segment(&mut pending, plain.clone());
        assert!(matches!(&step, SegmentStep::Emit(sent) if *sent == plain));
        assert!(matches!(
            listener.advance(&mut pending, step, StepOutcome::Done),
            Some(SegmentStep::Acknowledge)
        ));
        assert_eq!(listener.config().brain_request_segments, 1);
    }
    assert!(pending.remove("s").is_none());
}

#[test]
fn without_a_memory_voices_are_held_back() {
    let mut pending = StreamListener::new_pending();
    let listener = StreamListener::new(config(2), false);
    assert!(matches!(
        listener.process_segment(&mut pending, spoken("s", "a", "one")),
        SegmentStep::Acknowledge
    ));
    let asked = request(listener.process_segment(&mut pending, spoken("s", "a", "two")));
    assert_eq!(asked.transcript, "a: one\na: two");
    let unheard = BrainResolutionListener::new(config(2), false);
    let response = BrainIdentityResponse::new("s", identities(&[("a", "Ann")]));
    assert!(matches!(
        unheard.handle_resolution(&mut pending, &response),
        Resolution::NoMemory
    ));
    assert!(matches!(
        unheard.handle_resolution(&mut pending, &response),
        Resolution::NotPending
    ));
    assert_eq!(unheard.config().brain_request_segments, 2);
}

#[test]
fn failed_steps_are_not_followed_up() {
    let mut pending = StreamListener::new_pending();
    let listener = StreamListener::new(config(1), true);
    let step = SegmentStep::MatchVoice(spoken("s", "a", "one"));
    assert!(listener.advance(&mut pending, step, StepOutcome::Failed).is_none());
    let step = SegmentStep::Emit(spoken("s", "a", "one"));
    assert!(listener.advance(&mut pending, step, StepOutcome::Failed).is_none());
    assert!(pending.remove("s").is_none());
    let asked = listener.buffer_unknown_segment(&mut pending, spoken("s", "a", "one"));
    assert!(listener.advance(&mut pending, asked, StepOutcome::Failed).is_none());
    let asked = request(listener.buffer_unknown_segment(&mut pending, spoken("s", "a", "one")));
    assert_eq!(asked.transcript, "a: one\na: one");
    assert!(listener
        .advance(&mut pending, SegmentStep::Acknowledge, StepOutcome::Done)
        .is_none());
}

#[test]
fn the_brain_is_asked_once_and_sessions_stay_apart() {
    let mut pending = PendingIdentityBuffer::new();
    assert!(pending.push(spoken("s", "b", "one"), 3).is_none());
    assert!(pending.push(spoken("other", "z", "else"), 3).is_none());
    let bare = TranscriptionSegment::new("s", "c", "no voice", 0, 1);
    assert!(pending.push(bare, 3).is_none());
    let asked = pending.push(spoken("s", "a", "two"), 3).unwrap();
    assert_eq!(asked.session_id, "s");
    assert_eq!(asked.speaker_tags, vec!["a".to_owned(), "b".to_owned()]);
    assert_eq!(asked.transcript, "b: one\nc: no voice\na: two");
    assert_eq!(
        parse_speaker_lines(&asked.transcript),
        vec![
            ("b".to_owned(), "one".to_owned()),
            ("c".to_owned(), "no voice".to_owned()),
            ("a".to_owned(), "two".to_owned()),
        ]
    );
    assert!(pending.push(spoken("s", "a", "three"), 3).is_some());
    pending.mark_brain_requested("s");
    pending.mark_brain_requested("unheard of");
    assert!(pending.push(spoken("s", "a", "four"), 3).is_none());
    assert!(pending.remove("unheard of").is_none());
    let session = pending.remove("s").unwrap();
    assert_eq!(format!("{:?}", session.clone()), format!("{session:?}"));
    assert!(pending.remove("s").is_none());
    assert!(pending.remove("other").is_some());
}

#[test]
fn voiceless_sessions_do_not_reach_the_brain() {
    let mut pending = PendingIdentityBuffer::new();
    for _ in 0..4 {
        let bare = TranscriptionSegment::new("s", "c", "no voice", 0, 1);
        assert!(pending.push(bare, 1).is_none());
    }
}

#[test]
fn the_first_voice_of_a_speaker_is_stored_and_each_segment_replayed_once() {
    let mut pending = PendingIdentityBuffer::new();
    let first = spoken("s", "b", "one");
    let second = TranscriptionSegment::new("s", "b", "two", 5, 6)
        .with_voice_fingerprint(voice(0.1))
        .with_finality(true);
    let known = spoken("s", "b", "known").with_identified_name("Old");
    let unnamed = spoken("s", "c", "stays");
    let voiceless = TranscriptionSegment::new("s", "d", "voiceless", 0, 1);
    let other = spoken("s", "a", "three");
    for segment in [
        first.clone(), other.clone(), second.clone(), known, unnamed, voiceless,
    ] {
        let _ = pending.push(segment, 100);
    }
    let listener = BrainResolutionListener::new(config(1), true);
    let response = BrainIdentityResponse::new(
        "s",
        identities(&[("b", "Bob"), ("a", "Ann"), ("d", "Dan"), ("e", "Eve")]),
    );
    let followed = effects(listener.handle_resolution(&mut pending, &response));
    let told: Vec<String> = followed
        .iter()
        .map(|effect| match effect {
            ResolutionEffect::Upsert(upsert) => format!("store {}", upsert.name),
            ResolutionEffect::Announce(event) => format!("announce {}", event.name),
            ResolutionEffect::Replay(segment) => format!("replay {}", segment.text),
        })
        .collect();
    assert_eq!(
        told,
        vec![
            "store Ann", "announce Ann", "replay three",
            "store Bob", "announce Bob", "replay one", "replay two",
        ]
    );
    match &followed[3] {
        ResolutionEffect::Upsert(upsert) => assert_eq!(upsert.fingerprint, voice(0.42)),
        other => panic!("not stored: {other:?}"),
    }
    match &followed[6] {
        ResolutionEffect::Replay(segment) => {
            assert_eq!(*segment, second.with_identified_name("Bob"));
        }
        other => panic!("not replayed: {other:?}"),
    }
}

#[test]
fn the_brain_and_the_controller_fit_together() {
    let names = KnownNames::from_json(r#"{"Ann": ["ann"], "Bob": ["bob"]}"#).unwrap();
    let backend = BrainBackend::Regex(RegexIdentityEngine::new(names));
    let mut pending = StreamListener::new_pending();
    let listener = StreamListener::new(config(2), true);
    let _ = listener.buffer_unknown_segment(&mut pending, spoken("s", "Speaker_1", "Hi, I am Ann"));
    let asked =
        request(listener.buffer_unknown_segment(&mut pending, spoken("s", "Speaker_2", "hello")));
    let response = match backend.infer(&asked) {
        Ok(BrainStep::Answer(response)) => response,
        other => panic!("no answer: {other:?}"),
    };
    let resolved = BrainResolutionListener::new(config(2), true);
    let followed = effects(resolved.handle_resolution(&mut pending, &response));
    let replayed: Vec<(String, Option<String>)> = followed
        .into_iter()
        .filter_map(|effect| match effect {
            ResolutionEffect::Replay(segment) => Some((segment.text, segment.identified_name)),
            _ => None,
        })
        .collect();
    assert_eq!(
        replayed,
        vec![
            ("Hi, I am Ann".to_owned(), Some("Ann".to_owned())),
            ("hello".to_owned(), Some("Bob".to_owned())),
        ]
    );
}

#[test]
fn live_clients_are_served_until_one_side_ends() {
    assert!(matches!(
        handle_live_socket(LiveEvent::Encoded("{}".to_owned())),
        LiveAction::Send(message) if message == "{}"
    ));
    for event in [
        LiveEvent::EncodeFailed, LiveEvent::Lagged, LiveEvent::Sent, LiveEvent::ClientMessage,
    ] {
        assert!(matches!(handle_live_socket(event), LiveAction::Wait));
    }
    for event in [
        LiveEvent::FeedClosed, LiveEvent::SendFailed, LiveEvent::ClientClosed,
        LiveEvent::ClientFailed,
    ] {
        assert!(matches!(
            handle_live_socket(event),
            LiveAction::Close { code: 1000, reason: "live transcript stream closed" }
        ));
    }
}

#[test]
fn unacknowledged_messages_are_read_first() {
    assert_eq!(pending_start_id(0), ">");
    assert_eq!(pending_start_id(1), "0");
    assert_eq!(pending_start_id(usize::MAX), "0");
}

#[test]
fn a_busy_group_is_no_error() {
    assert!(is_busy_group(true, "BUSYGROUP: Consumer Group name already exists"));
    assert!(!is_busy_group(false, "BUSYGROUP: Consumer Group name already exists"));
    assert!(!is_busy_group(true, "WRONGTYPE"));
}
