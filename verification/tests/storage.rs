use serde_json::{Number, Value};
use tetoscribe::env::EnvVars;
use tetoscribe::protocol::{
    IdentitySource, TranscriptEmbedding, VoiceFingerprint, VoiceIdentityUpsert,
    DEFAULT_VOICE_MATCH_THRESHOLD, VOICE_FINGERPRINT_DIM,
};
use tetoscribe::storage::{
    ensure_collection, memory_bootstrapped, memory_connected, point_id_to_string, voice_point_id,
    Attempt, FoundPoint, MatchedVoice, MemoryStep, PointId, SovereignMemory, StorageConfig,
    StorageError,
};

fn memory() -> SovereignMemory {
    let mut env = EnvVars::new();
    env.set("TETO_TRANSCRIPT_DIM", "3");
    SovereignMemory::new(StorageConfig::from_env(&env, None))
}

fn fingerprint() -> VoiceFingerprint {
    VoiceFingerprint::new(vec![0.5f32.to_bits(); VOICE_FINGERPRINT_DIM]).unwrap()
}

fn object(fields: &[(&str, Value)]) -> Value {
    let mut map = serde_json::Map::new();
    for (name, value) in fields {
        map.insert(name.to_string(), value.clone());
    }
    Value::Object(map)
}

fn upsert() -> VoiceIdentityUpsert {
    VoiceIdentityUpsert {
        session_id: "session-1".to_owned(),
        speaker_tag: "Speaker_1".to_owned(),
        name: "Nick".to_owned(),
        fingerprint: fingerprint(),
        confidence: 0.8f32.to_bits(),
        source: IdentitySource::BrainReasoning,
    }
}

#[test]
fn storage_config_uses_safe_defaults_when_env_is_missing() {
    let config = StorageConfig::from_env(&EnvVars::new(), None);

    assert_eq!(config.qdrant_url, "http://localhost:6334");
    assert_eq!(config.voice_collection, "teto_voices");
    assert_eq!(config.transcript_collection, "teto_transcripts");
    assert_eq!(config.transcript_dim, 1024);
    assert_eq!(config.voice_match_threshold, DEFAULT_VOICE_MATCH_THRESHOLD);
}

#[test]
fn storage_config_reads_the_environment() {
    let mut env = EnvVars::new();
    env.set("QDRANT_URL", " http://q:1 ");
    env.set("TETO_VOICE_COLLECTION", "v");
    env.set("TETO_TRANSCRIPT_COLLECTION", "t");
    env.set("TETO_TRANSCRIPT_DIM", "768");
    let config = StorageConfig::from_env(&env, Some(0.5f32.to_bits()));
    assert_eq!(config.qdrant_url, "http://q:1");
    assert_eq!(config.voice_collection, "v");
    assert_eq!(config.transcript_collection, "t");
    assert_eq!(config.transcript_dim, 768);
    assert_eq!(f32::from_bits(config.voice_match_threshold), 0.5);
    let config = StorageConfig::from_env(&env, Some(1.5f32.to_bits()));
    assert_eq!(f32::from_bits(config.voice_match_threshold), 0.85);
}

#[test]
fn voice_point_id_is_stable_for_same_session_and_speaker() {
    assert_eq!(
        voice_point_id("session-1", "Speaker_1"),
        voice_point_id("session-1", "Speaker_1")
    );
    assert_ne!(
        voice_point_id("session-1", "Speaker_1"),
        voice_point_id("session-2", "Speaker_1")
    );
}

#[test]
fn voice_point_id_joins_session_and_speaker() {
    assert_eq!(voice_point_id("session-1", "Speaker_1"), "session-1:Speaker_1");
    assert_ne!(voice_point_id("s", "a"), voice_point_id("s", "b"));
    assert_ne!(voice_point_id("s:1", "a"), voice_point_id("s", "1a"));
}

#[test]
fn point_ids_are_spelled() {
    assert_eq!(point_id_to_string(&PointId::Uuid("u-1".to_owned())), "u-1");
    assert_eq!(point_id_to_string(&PointId::Num(1_234)), "1234");
    assert_eq!(point_id_to_string(&PointId::Unset), "");
}

#[test]
fn a_voice_is_searched_for_by_its_fingerprint() {
    let query = memory().voice_query(&fingerprint());
    assert_eq!(query.collection, "teto_voices");
    assert_eq!(query.vector, fingerprint().into_vec());
    assert_eq!(query.limit, 1);
    assert!(query.with_payload);
    assert_eq!(f32::from_bits(query.score_threshold), 0.85);
}

#[test]
fn a_match_needs_a_name() {
    let memory = memory();
    assert_eq!(memory.match_voice(&Vec::new()), None);
    let named = FoundPoint {
        id: Some(PointId::Num(7)),
        score: 0.9f32.to_bits(),
        payload: object(&[("name", Value::String("Nick".to_owned()))]),
    };
    let other = FoundPoint {
        id: None,
        score: 0.95f32.to_bits(),
        payload: object(&[("name", Value::String("Mike".to_owned()))]),
    };
    assert_eq!(
        memory.match_voice(&vec![named, other]),
        Some(MatchedVoice {
            name: "Nick".to_owned(),
            confidence: 0.9f32.to_bits(),
            point_id: Some("7".to_owned()),
        })
    );
    for payload in [
        object(&[]),
        object(&[("name", Value::from(5))]),
        object(&[("title", Value::String("Nick".to_owned()))]),
        Value::Null,
        Value::String("name".to_owned()),
    ] {
        let point = FoundPoint { id: None, score: 0, payload };
        assert_eq!(memory.match_voice(&vec![point]), None);
    }
}

#[test]
fn a_voice_is_stored_with_its_owner() {
    let confidence = Number::from_f64(f64::from(0.8f32));
    let point = memory().upsert_voice_identity(&upsert(), confidence.clone());
    assert_eq!(point.collection, "teto_voices");
    assert_eq!(point.id, "session-1:Speaker_1");
    assert_eq!(point.vector, fingerprint().into_vec());
    assert_eq!(
        point.payload,
        object(&[
            ("session_id", Value::String("session-1".to_owned())),
            ("speaker_tag", Value::String("Speaker_1".to_owned())),
            ("name", Value::String("Nick".to_owned())),
            ("confidence", Value::Number(confidence.unwrap())),
            ("source", Value::String("BrainReasoning".to_owned())),
        ])
    );
    let point = memory().upsert_voice_identity(&upsert(), None);
    assert_eq!(point.payload.get("confidence"), Some(&Value::Null));
}

#[test]
fn a_stored_voice_is_recognised() {
    let memory = memory();
    let stored = memory.upsert_voice_identity(&upsert(), None);
    let found = FoundPoint { id: None, score: 1.0f32.to_bits(), payload: stored.payload };
    assert_eq!(memory.match_voice(&vec![found]).unwrap().name, "Nick");
}

#[test]
fn a_transcript_is_stored_under_a_fresh_identifier() {
    let memory = memory();
    let embedding = TranscriptEmbedding {
        session_id: "s".to_owned(),
        text: "hello".to_owned(),
        vector: vec![1, 2, 3],
    };
    let point = memory.index_transcript(&embedding).unwrap();
    let again = memory.index_transcript(&embedding).unwrap();
    assert_eq!(point.collection, "teto_transcripts");
    assert_eq!(point.vector, vec![1, 2, 3]);
    assert_eq!(
        point.payload,
        object(&[
            ("session_id", Value::String("s".to_owned())),
            ("text", Value::String("hello".to_owned())),
        ])
    );
    assert_ne!(point.id, again.id);
    let id: Vec<char> = point.id.chars().collect();
    assert_eq!(id.len(), 36);
    assert_eq!((id[8], id[13], id[18], id[23]), ('-', '-', '-', '-'));
    assert_eq!(id[14], '4');
    assert!(matches!(id[19], '8' | '9' | 'a' | 'b'));
    assert!(id.iter().all(|c| *c == '-' || matches!(c, '0'..='9' | 'a'..='f')));
    assert_eq!(memory.transcript_point(&embedding, "x".to_owned()).unwrap().id, "x");
}

#[test]
fn a_transcript_of_another_dimension_is_refused() {
    let embedding = TranscriptEmbedding {
        session_id: "s".to_owned(),
        text: "hello".to_owned(),
        vector: vec![1, 2],
    };
    let err = memory().index_transcript(&embedding).unwrap_err();
    assert_eq!(
        err,
        StorageError::InvalidDimension {
            collection: "teto_transcripts".to_owned(),
            expected: 3,
            actual: 2,
        }
    );
    assert_eq!(
        err.message(),
        "invalid transcript embedding dimension for collection 'teto_transcripts': expected 3, got 2"
    );
}

#[test]
fn missing_collections_are_created() {
    let memory = memory();
    let plans = memory.ensure_collections();
    assert_eq!(plans.len(), 2);
    assert_eq!(
        (plans[0].name.as_str(), plans[0].dim, plans[0].kind),
        ("teto_voices", 192, "voice")
    );
    assert_eq!(
        (plans[1].name.as_str(), plans[1].dim, plans[1].kind),
        ("teto_transcripts", 3, "transcript")
    );
    assert_eq!(ensure_collection(&plans[0], true), None);
    assert_eq!(ensure_collection(&plans[1], false), Some(("teto_transcripts".to_owned(), 3)));
    assert_eq!(memory.config().transcript_dim, 3);
}

#[test]
fn the_controller_runs_without_a_memory_that_is_out_of_reach() {
    assert_eq!(memory_connected(Attempt::Succeeded), MemoryStep::EnsureCollections);
    assert_eq!(memory_bootstrapped(Attempt::Succeeded), MemoryStep::UseMemory);
    assert_eq!(
        memory_connected(Attempt::Failed),
        MemoryStep::RunWithout(
            "Qdrant client initialization failed; controller will keep running without memory"
        )
    );
    assert_eq!(
        memory_connected(Attempt::TimedOut),
        MemoryStep::RunWithout(
            "Qdrant client initialization timed out; controller will keep running without memory"
        )
    );
    assert_eq!(
        memory_bootstrapped(Attempt::Failed),
        MemoryStep::RunWithout(
            "Qdrant collection bootstrap failed; controller will keep running without memory"
        )
    );
    assert_eq!(
        memory_bootstrapped(Attempt::TimedOut),
        MemoryStep::RunWithout(
            "Qdrant collection bootstrap timed out; controller will keep running without memory"
        )
    );
}
