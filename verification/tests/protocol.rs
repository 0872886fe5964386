use tetoscribe::protocol::{
    BrainIdentityRequest, BrainIdentityResponse, FingerprintError, IdentityResolved,
    IdentityResolution, IdentitySource, MemoryCollections, SpeakerMetadata, TranscriptEmbedding,
    TranscriptionBatch, TranscriptionSegment, VoiceFingerprint, VoiceIdentityUpsert, DEFAULT_BRAIN_CONFIDENCE_THRESHOLD, DEFAULT_VOICE_MATCH_THRESHOLD,
    VOICE_FINGERPRINT_DIM,
};
use tetoscribe::float_bits::{are_equal, is_equal, is_greater};
use tetoscribe::storage::MatchedVoice;
use tetoscribe::string_map::StringMap;

fn fingerprint(value: f32) -> VoiceFingerprint {
    VoiceFingerprint::new(vec![value.to_bits(); VOICE_FINGERPRINT_DIM]).unwrap()
}

#[test]
fn voice_fingerprint_rejects_wrong_dimension() {
    let err = VoiceFingerprint::new(vec![0.0f32.to_bits(); 3]).unwrap_err();

    assert_eq!(
        err.message(),
        "invalid voice fingerprint dimension: expected 192, got 3"
    );
    assert_eq!(err, FingerprintError::InvalidDimension { expected: 192, actual: 3 });
}

#[test]
fn voice_fingerprint_keeps_its_components() {
    let print = fingerprint(0.25);
    assert_eq!(print.as_slice().len(), VOICE_FINGERPRINT_DIM);
    assert!(print.as_slice().iter().all(|bits| f32::from_bits(*bits) == 0.25));
    assert_eq!(print.clone(), print);
    assert_eq!(print.into_vec(), vec![0.25f32.to_bits(); 192]);
    assert!(VoiceFingerprint::new(Vec::new()).is_err());
    assert!(VoiceFingerprint::new(vec![0; 193]).is_err());
}

#[test]
fn thresholds_are_what_they_say() {
    assert_eq!(f32::from_bits(DEFAULT_VOICE_MATCH_THRESHOLD), 0.85);
    assert_eq!(f32::from_bits(DEFAULT_BRAIN_CONFIDENCE_THRESHOLD), 0.80);
}

#[test]
fn segments_are_built_step_by_step() {
    let segment = TranscriptionSegment::new("session", "Speaker_1", "Hello Nick.", 0, 2500);
    assert!(!segment.is_final);
    assert_eq!(segment.voice_fingerprint, None);
    assert_eq!(segment.identified_name, None);
    let segment = segment
        .with_finality(true)
        .with_voice_fingerprint(fingerprint(0.5))
        .with_identified_name("Nick");
    assert_eq!(segment.session_id, "session");
    assert_eq!(segment.speaker_tag, "Speaker_1");
    assert_eq!(segment.text, "Hello Nick.");
    assert_eq!((segment.start_ms, segment.end_ms), (0, 2500));
    assert!(segment.is_final);
    assert_eq!(segment.voice_fingerprint, Some(fingerprint(0.5)));
    assert_eq!(segment.identified_name.as_deref(), Some("Nick"));
    assert_eq!(segment.clone(), segment);
}

#[test]
fn batches_and_speakers_are_built_step_by_step() {
    let mut batch = TranscriptionBatch::new("session");
    batch.push_segment(TranscriptionSegment::new("session", "a", "one", 0, 1));
    batch.push_segment(TranscriptionSegment::new("session", "b", "two", 1, 2));
    assert_eq!(batch.session_id, "session");
    assert_eq!(batch.segments.len(), 2);
    assert_eq!(batch.segments[1].text, "two");
    assert!(batch.speaker_metadata.is_empty());

    let speaker = SpeakerMetadata::unknown();
    assert_eq!((&speaker.voice_vector, &speaker.resolved_name), (&None, &None));
    let speaker = speaker.with_voice_vector(fingerprint(1.0)).with_resolved_name("Nick");
    assert_eq!(speaker.voice_vector, Some(fingerprint(1.0)));
    assert_eq!(speaker.resolved_name.as_deref(), Some("Nick"));
}

#[test]
fn messages_hold_what_they_are_given() {
    let request = BrainIdentityRequest::new("s", vec!["a".to_owned()], "a: hi");
    assert_eq!(
        (request.session_id.as_str(), request.speaker_tags.len(), request.transcript.as_str()),
        ("s", 1, "a: hi")
    );
    let mut identities = StringMap::new();
    identities.insert("a".to_owned(), "Ann".to_owned());
    let response = BrainIdentityResponse::new("s", identities);
    assert_eq!(response.session_id, "s");
    assert_eq!(response.identities.get("a"), Some(&"Ann".to_owned()));
    let event = IdentityResolved::new("s", "a", "Ann", 0.8f32.to_bits(), IdentitySource::Manual);
    assert_eq!(event.event_type, "IdentityResolved");
    assert_eq!(
        (event.session_id.as_str(), event.speaker_tag.as_str(), event.name.as_str()),
        ("s", "a", "Ann")
    );
    assert_eq!((event.confidence, event.source), (0.8f32.to_bits(), IdentitySource::Manual));
    assert_eq!(IdentitySource::VoiceMatch.label(), "VoiceMatch");
    assert_eq!(IdentitySource::BrainReasoning.label(), "BrainReasoning");
    assert_eq!(IdentitySource::Manual.label(), "Manual");
    let collections = MemoryCollections::default();
    assert_eq!(
        (collections.voices.as_str(), collections.transcripts.as_str()),
        ("teto_voices", "teto_history")
    );
}

const NUMBERS: [f32; 10] = [
    0.0, -0.0, 1.0, -1.0, 0.5, f32::INFINITY, f32::NEG_INFINITY, f32::NAN, -f32::NAN, 1.0e-45,
];

#[test]
fn bits_compare_as_the_numbers_do() {
    for a in NUMBERS {
        for b in NUMBERS {
            assert_eq!(is_equal(a.to_bits(), b.to_bits()), a == b, "{a} {b}");
            assert_eq!(is_greater(a.to_bits(), b.to_bits()), a > b, "{a} {b}");
            assert_eq!(
                are_equal(&[0, a.to_bits()], &[0, b.to_bits()]),
                [0.0, a] == [0.0, b]
            );
        }
    }
    assert!(!are_equal(&[1], &[1, 2]));
    assert!(are_equal(&[], &[]));
}

#[test]
fn messages_compare_as_their_numbers_do() {
    let resolution = |confidence: f32| IdentityResolution {
        speaker_tag: "a".to_owned(),
        name: "Ann".to_owned(),
        confidence: confidence.to_bits(),
        source: IdentitySource::Manual,
    };
    let event = |confidence: f32| {
        IdentityResolved::new("s", "a", "Ann", confidence.to_bits(), IdentitySource::Manual)
    };
    let upsert = |voice: f32, confidence: f32| VoiceIdentityUpsert {
        session_id: "s".to_owned(),
        speaker_tag: "a".to_owned(),
        name: "Ann".to_owned(),
        fingerprint: fingerprint(voice),
        confidence: confidence.to_bits(),
        source: IdentitySource::Manual,
    };
    let embedding = |value: f32| TranscriptEmbedding {
        session_id: "s".to_owned(),
        text: "hi".to_owned(),
        vector: vec![value.to_bits()],
    };
    let matched = |confidence: f32| MatchedVoice {
        name: "Ann".to_owned(),
        confidence: confidence.to_bits(),
        point_id: Some("1".to_owned()),
    };
    let segment =
        |voice: f32| TranscriptionSegment::new("s", "a", "hi", 0, 1).with_voice_fingerprint(fingerprint(voice));
    for a in NUMBERS {
        for b in NUMBERS {
            assert_eq!(fingerprint(a) == fingerprint(b), a == b);
            assert_eq!(resolution(a) == resolution(b), a == b);
            assert_eq!(event(a) == event(b), a == b);
            assert_eq!(upsert(a, 1.0) == upsert(b, 1.0), a == b);
            assert_eq!(upsert(1.0, a) == upsert(1.0, b), a == b);
            assert_eq!(embedding(a) == embedding(b), a == b);
            assert_eq!(matched(a) == matched(b), a == b);
            assert_eq!(segment(a) == segment(b), a == b);
        }
    }
    assert_ne!(matched(1.0), MatchedVoice { point_id: None, ..matched(1.0) });
    assert_ne!(event(1.0), IdentityResolved { name: "Bob".to_owned(), ..event(1.0) });
    assert_ne!(
        resolution(1.0),
        IdentityResolution { source: IdentitySource::VoiceMatch, ..resolution(1.0) }
    );
    assert_ne!(embedding(1.0), TranscriptEmbedding { text: "ho".to_owned(), ..embedding(1.0) });
    let mut renamed = upsert(1.0, 1.0);
    renamed.name = "Bob".to_owned();
    assert_ne!(upsert(1.0, 1.0), renamed);
}

#[test]
fn clones_hold_the_same() {
    let speaker = SpeakerMetadata::unknown()
        .with_voice_vector(fingerprint(1.0))
        .with_resolved_name("Nick");
    assert_eq!(speaker.clone(), speaker);

    let mut batch = TranscriptionBatch::new("s");
    batch.push_segment(
        TranscriptionSegment::new("s", "a", "one", 0, 1).with_voice_fingerprint(fingerprint(0.5)),
    );
    batch.speaker_metadata.insert("b".to_owned(), SpeakerMetadata::unknown());
    batch.speaker_metadata.insert("a".to_owned(), speaker);
    let copy = batch.clone();
    assert_eq!(copy, batch);
    batch.speaker_metadata.insert("c".to_owned(), SpeakerMetadata::unknown());
    assert_ne!(copy, batch);

    let request = BrainIdentityRequest::new("s", vec!["b".to_owned(), "a".to_owned()], "a: hi");
    assert_eq!(request.clone(), request);

    let mut identities = StringMap::new();
    identities.insert("b".to_owned(), "Bob".to_owned());
    identities.insert("a".to_owned(), "Ann".to_owned());
    let response = BrainIdentityResponse::new("s", identities);
    assert_eq!(response.clone(), response);
    assert_eq!(response.clone().identities.keys(), vec!["a", "b"]);
    assert_ne!(response, BrainIdentityResponse::new("s", StringMap::new()));

    let upsert = VoiceIdentityUpsert {
        session_id: "s".to_owned(),
        speaker_tag: "a".to_owned(),
        name: "Ann".to_owned(),
        fingerprint: fingerprint(0.25),
        confidence: 0.8f32.to_bits(),
        source: IdentitySource::BrainReasoning,
    };
    assert_eq!(upsert.clone(), upsert);
}
