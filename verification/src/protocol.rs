//! The messages that the worker, the controller and the brain exchange.
//!
//! Floating point quantities are held as the bits of 32-bit numbers.
use vstd::prelude::*;
use vstd::std_specs::cmp::PartialEqSpecImpl;
use vstd::string::*;

use crate::float_bits;
use crate::numeric;
use crate::string_map;
use crate::string_map::StringMap;
use crate::text;

verus! {

/// The number of components of a voice fingerprint.
pub const VOICE_FINGERPRINT_DIM: usize = 192;

/// The bits of 0.85, the score from which on a voice counts as recognised.
pub const DEFAULT_VOICE_MATCH_THRESHOLD: u32 = 0x3f59_999a;

/// The bits of 0.80, the confidence given to what the brain infers.
pub const DEFAULT_BRAIN_CONFIDENCE_THRESHOLD: u32 = 0x3f4c_cccd;

/// The view of an optional text.
pub open spec fn opt_text(s: Option<String>) -> Option<Seq<char>> {
    match s {
        Some(t) => Some(t@),
        None => None,
    }
}

/// A voice as a vector of 192 components.
#[derive(Debug)]
pub struct VoiceFingerprint {
    values: Vec<u32>,
}

/// Why a vector is no voice fingerprint.
#[derive(Debug, Clone, Copy, PartialEq, Eq, Structural)]
pub enum FingerprintError {
    InvalidDimension { expected: usize, actual: usize },
}

impl View for VoiceFingerprint {
    type V = Seq<u32>;

    closed spec fn view(&self) -> Seq<u32> {
        self.values@
    }
}

impl VoiceFingerprint {
    #[verifier::type_invariant]
    spec fn has_dimension(&self) -> bool {
        self.values@.len() == VOICE_FINGERPRINT_DIM
    }

    /// A fingerprint with the given components.
    pub fn new(values: Vec<u32>) -> (r: Result<Self, FingerprintError>)
        ensures
            match r {
                Ok(f) => values@.len() == VOICE_FINGERPRINT_DIM && f@ == values@,
                Err(e) => values@.len() != VOICE_FINGERPRINT_DIM && e == (
                FingerprintError::InvalidDimension {
                    expected: VOICE_FINGERPRINT_DIM,
                    actual: values@.len() as usize,
                }),
            },
    {
        if values.len() != VOICE_FINGERPRINT_DIM {
            return Err(
                FingerprintError::InvalidDimension {
                    expected: VOICE_FINGERPRINT_DIM,
                    actual: values.len(),
                },
            );
        }
        Ok(VoiceFingerprint { values })
    }

    /// The components.
    pub fn as_slice(&self) -> (r: &[u32])
        ensures
            r@ == self@,
            r@.len() == VOICE_FINGERPRINT_DIM,
    {
        proof {
            use_type_invariant(self);
        }
        self.values.as_slice()
    }

    /// The components, handed over.
    pub fn into_vec(self) -> (r: Vec<u32>)
        ensures
            r@ == self@,
            r@.len() == VOICE_FINGERPRINT_DIM,
    {
        proof {
            use_type_invariant(&self);
        }
        self.values
    }
}

impl Clone for VoiceFingerprint {
    fn clone(&self) -> (r: Self)
        ensures
            r@ == self@,
    {
        proof {
            use_type_invariant(self);
        }
        let values = self.values.clone();
        assert(values@ == self.values@);
        VoiceFingerprint { values }
    }
}

impl PartialEq for VoiceFingerprint {
    fn eq(&self, other: &Self) -> (r: bool) {
        float_bits::are_equal(self.values.as_slice(), other.values.as_slice())
    }
}

impl PartialEqSpecImpl for VoiceFingerprint {
    open spec fn obeys_eq_spec() -> bool {
        true
    }

    open spec fn eq_spec(&self, other: &Self) -> bool {
        float_bits::equal_vectors(self@, other@)
    }
}

impl FingerprintError {
    /// The message in words.
    pub open spec fn words(self) -> Seq<char> {
        match self {
            FingerprintError::InvalidDimension { expected, actual } => {
                "invalid voice fingerprint dimension: expected "@ + numeric::decimal(
                    expected as nat,
                ) + ", got "@ + numeric::decimal(actual as nat)
            },
        }
    }

    /// The message in words.
    pub fn message(&self) -> (r: String)
        ensures
            r@ == self.words(),
    {
        match self {
            FingerprintError::InvalidDimension { expected, actual } => {
                let mut out = "invalid voice fingerprint dimension: expected ".to_owned();
                out.append(numeric::decimal_text(*expected as u64).as_str());
                out.append(", got ");
                out.append(numeric::decimal_text(*actual as u64).as_str());
                out
            },
        }
    }
}

/// A stretch of speech by one speaker.
#[derive(Debug, PartialEq)]
pub struct TranscriptionSegment {
    pub session_id: String,
    pub speaker_tag: String,
    pub text: String,
    pub start_ms: u64,
    pub end_ms: u64,
    pub is_final: bool,
    pub voice_fingerprint: Option<VoiceFingerprint>,
    pub identified_name: Option<String>,
}

/// The contents of a segment.
#[verifier::ext_equal]
pub struct SegmentView {
    pub session_id: Seq<char>,
    pub speaker_tag: Seq<char>,
    pub text: Seq<char>,
    pub start_ms: u64,
    pub end_ms: u64,
    pub is_final: bool,
    pub voice_fingerprint: Option<Seq<u32>>,
    pub identified_name: Option<Seq<char>>,
}

/// The view of an optional fingerprint.
pub open spec fn opt_fingerprint(f: Option<VoiceFingerprint>) -> Option<Seq<u32>> {
    match f {
        Some(v) => Some(v@),
        None => None,
    }
}

impl View for TranscriptionSegment {
    type V = SegmentView;

    open spec fn view(&self) -> SegmentView {
        SegmentView {
            session_id: self.session_id@,
            speaker_tag: self.speaker_tag@,
            text: self.text@,
            start_ms: self.start_ms,
            end_ms: self.end_ms,
            is_final: self.is_final,
            voice_fingerprint: opt_fingerprint(self.voice_fingerprint),
            identified_name: opt_text(self.identified_name),
        }
    }
}

impl Clone for TranscriptionSegment {
    fn clone(&self) -> (r: Self)
        ensures
            r@ == self@,
    {
        TranscriptionSegment {
            session_id: self.session_id.clone(),
            speaker_tag: self.speaker_tag.clone(),
            text: self.text.clone(),
            start_ms: self.start_ms,
            end_ms: self.end_ms,
            is_final: self.is_final,
            voice_fingerprint: match &self.voice_fingerprint {
                Some(f) => Some(f.clone()),
                None => None,
            },
            identified_name: match &self.identified_name {
                Some(s) => Some(s.clone()),
                None => None,
            },
        }
    }
}

impl TranscriptionSegment {
    /// A segment that is not final, by a speaker who is not identified.
    pub fn new(
        session_id: &str,
        speaker_tag: &str,
        text: &str,
        start_ms: u64,
        end_ms: u64,
    ) -> (r: Self)
        ensures
            r@ == (SegmentView {
                session_id: session_id@,
                speaker_tag: speaker_tag@,
                text: text@,
                start_ms,
                end_ms,
                is_final: false,
                voice_fingerprint: None,
                identified_name: None,
            }),
    {
        TranscriptionSegment {
            session_id: session_id.to_owned(),
            speaker_tag: speaker_tag.to_owned(),
            text: text.to_owned(),
            start_ms,
            end_ms,
            is_final: false,
            voice_fingerprint: None,
            identified_name: None,
        }
    }

    /// The segment with its finality set.
    pub fn with_finality(self, is_final: bool) -> (r: Self)
        ensures
            r@ == (SegmentView { is_final, ..self@ }),
    {
        let mut segment = self;
        segment.is_final = is_final;
        segment
    }

    /// The segment with its voice set.
    pub fn with_voice_fingerprint(self, fingerprint: VoiceFingerprint) -> (r: Self)
        ensures
            r@ == (SegmentView { voice_fingerprint: Some(fingerprint@), ..self@ }),
    {
        let mut segment = self;
        segment.voice_fingerprint = Some(fingerprint);
        segment
    }

    /// The segment with the name of its speaker set.
    pub fn with_identified_name(self, name: &str) -> (r: Self)
        ensures
            r@ == (SegmentView { identified_name: Some(name@), ..self@ }),
    {
        let mut segment = self;
        segment.identified_name = Some(name.to_owned());
        segment
    }
}

/// What is known of a speaker.
#[derive(Debug, PartialEq)]
pub struct SpeakerMetadata {
    pub voice_vector: Option<VoiceFingerprint>,
    pub resolved_name: Option<String>,
}

/// The contents of what is known of a speaker.
pub struct SpeakerView {
    pub voice_vector: Option<Seq<u32>>,
    pub resolved_name: Option<Seq<char>>,
}

impl View for SpeakerMetadata {
    type V = SpeakerView;

    open spec fn view(&self) -> SpeakerView {
        SpeakerView {
            voice_vector: opt_fingerprint(self.voice_vector),
            resolved_name: opt_text(self.resolved_name),
        }
    }
}

impl Clone for SpeakerMetadata {
    fn clone(&self) -> (r: Self)
        ensures
            r@ == self@,
    {
        SpeakerMetadata {
            voice_vector: match &self.voice_vector {
                Some(f) => Some(f.clone()),
                None => None,
            },
            resolved_name: match &self.resolved_name {
                Some(s) => Some(s.clone()),
                None => None,
            },
        }
    }
}

impl SpeakerMetadata {
    /// A speaker of whom nothing is known.
    pub fn unknown() -> (r: Self)
        ensures
            r@ == (SpeakerView { voice_vector: None, resolved_name: None }),
    {
        SpeakerMetadata { voice_vector: None, resolved_name: None }
    }

    /// The same speaker with a voice.
    pub fn with_voice_vector(self, voice_vector: VoiceFingerprint) -> (r: Self)
        ensures
            r@ == (SpeakerView { voice_vector: Some(voice_vector@), ..self@ }),
    {
        let mut speaker = self;
        speaker.voice_vector = Some(voice_vector);
        speaker
    }

    /// The same speaker with a name.
    pub fn with_resolved_name(self, resolved_name: &str) -> (r: Self)
        ensures
            r@ == (SpeakerView { resolved_name: Some(resolved_name@), ..self@ }),
    {
        let mut speaker = self;
        speaker.resolved_name = Some(resolved_name.to_owned());
        speaker
    }
}

/// The segments of a session with what is known of its speakers.
#[derive(Debug, PartialEq)]
pub struct TranscriptionBatch {
    pub session_id: String,
    pub segments: Vec<TranscriptionSegment>,
    pub speaker_metadata: StringMap<SpeakerMetadata>,
}

/// The contents of a batch.
#[verifier::ext_equal]
pub struct BatchView {
    pub session_id: Seq<char>,
    pub segments: Seq<SegmentView>,
    pub speaker_metadata: Map<Seq<char>, SpeakerView>,
}

impl View for TranscriptionBatch {
    type V = BatchView;

    open spec fn view(&self) -> BatchView {
        BatchView {
            session_id: self.session_id@,
            segments: self.segments@.map_values(|s: TranscriptionSegment| s@),
            speaker_metadata: self.speaker_metadata@,
        }
    }
}

impl Clone for TranscriptionBatch {
    fn clone(&self) -> (r: Self)
        ensures
            r@ == self@,
    {
        let segments = self.segments.clone();
        let speaker_metadata = self.speaker_metadata.clone();
        assert(string_map::clones_hold_the_same::<SpeakerMetadata>());
        let r = TranscriptionBatch {
            session_id: self.session_id.clone(),
            segments,
            speaker_metadata,
        };
        assert forall|i: int| 0 <= i < self.segments@.len() implies (#[trigger] segments@[i])@
            == self.segments@[i]@ by {
            assert(cloned(self.segments@[i], segments@[i]));
        }
        assert(r@ == self@);
        r
    }
}

impl TranscriptionBatch {
    /// A batch without segments.
    pub fn new(session_id: &str) -> (r: Self)
        ensures
            r.session_id@ == session_id@,
            r.segments@ == Seq::<TranscriptionSegment>::empty(),
            r.speaker_metadata@ == Map::<Seq<char>, SpeakerView>::empty(),
    {
        TranscriptionBatch {
            session_id: session_id.to_owned(),
            segments: Vec::new(),
            speaker_metadata: StringMap::new(),
        }
    }

    /// Adds a segment at the end.
    pub fn push_segment(&mut self, segment: TranscriptionSegment)
        ensures
            final(self).segments@ == old(self).segments@.push(segment),
            final(self).session_id == old(self).session_id,
            final(self).speaker_metadata == old(self).speaker_metadata,
    {
        self.segments.push(segment);
    }
}

/// A request to name the speakers of a session.
#[derive(Debug, PartialEq)]
pub struct BrainIdentityRequest {
    pub session_id: String,
    pub speaker_tags: Vec<String>,
    pub transcript: String,
}

/// The contents of a request.
#[verifier::ext_equal]
pub struct RequestView {
    pub session_id: Seq<char>,
    pub speaker_tags: Seq<Seq<char>>,
    pub transcript: Seq<char>,
}

impl View for BrainIdentityRequest {
    type V = RequestView;

    open spec fn view(&self) -> RequestView {
        RequestView {
            session_id: self.session_id@,
            speaker_tags: string_map::strings(self.speaker_tags@),
            transcript: self.transcript@,
        }
    }
}

impl Clone for BrainIdentityRequest {
    fn clone(&self) -> (r: Self)
        ensures
            r@ == self@,
    {
        let speaker_tags = self.speaker_tags.clone();
        assert forall|i: int| 0 <= i < self.speaker_tags@.len() implies (
        #[trigger] speaker_tags@[i])@ == self.speaker_tags@[i]@ by {
            assert(cloned(self.speaker_tags@[i], speaker_tags@[i]));
        }
        assert(string_map::strings(speaker_tags@) == string_map::strings(self.speaker_tags@));
        BrainIdentityRequest {
            session_id: self.session_id.clone(),
            speaker_tags,
            transcript: self.transcript.clone(),
        }
    }
}

impl BrainIdentityRequest {
    /// A request with the given contents.
    pub fn new(session_id: &str, speaker_tags: Vec<String>, transcript: &str) -> (r: Self)
        ensures
            r.session_id@ == session_id@,
            r.speaker_tags == speaker_tags,
            r.transcript@ == transcript@,
    {
        BrainIdentityRequest {
            session_id: session_id.to_owned(),
            speaker_tags,
            transcript: transcript.to_owned(),
        }
    }
}

/// The names of the speakers of a session, by speaker tag.
#[derive(Debug, PartialEq)]
pub struct BrainIdentityResponse {
    pub session_id: String,
    pub identities: StringMap<String>,
}

/// The contents of a response.
#[verifier::ext_equal]
pub struct ResponseView {
    pub session_id: Seq<char>,
    pub identities: Map<Seq<char>, Seq<char>>,
}

impl View for BrainIdentityResponse {
    type V = ResponseView;

    open spec fn view(&self) -> ResponseView {
        ResponseView { session_id: self.session_id@, identities: self.identities@ }
    }
}

impl Clone for BrainIdentityResponse {
    fn clone(&self) -> (r: Self)
        ensures
            r@ == self@,
            r.identities.in_order() == self.identities.in_order(),
    {
        let identities = self.identities.clone();
        assert(string_map::clones_hold_the_same::<String>());
        BrainIdentityResponse { session_id: self.session_id.clone(), identities }
    }
}

impl BrainIdentityResponse {
    /// A response with the given contents.
    pub fn new(session_id: &str, identities: StringMap<String>) -> (r: Self)
        ensures
            r.session_id@ == session_id@,
            r.identities == identities,
    {
        BrainIdentityResponse { session_id: session_id.to_owned(), identities }
    }
}

/// What a name was concluded from.
#[derive(Debug, Clone, Copy, PartialEq, Eq, Structural)]
pub enum IdentitySource {
    VoiceMatch,
    BrainReasoning,
    Manual,
}

impl IdentitySource {
    /// The name of the source.
    pub open spec fn name(self) -> Seq<char> {
        match self {
            IdentitySource::VoiceMatch => "VoiceMatch"@,
            IdentitySource::BrainReasoning => "BrainReasoning"@,
            IdentitySource::Manual => "Manual"@,
        }
    }

    /// The name of the source.
    pub fn label(&self) -> (r: &'static str)
        ensures
            r@ == self.name(),
    {
        match self {
            IdentitySource::VoiceMatch => "VoiceMatch",
            IdentitySource::BrainReasoning => "BrainReasoning",
            IdentitySource::Manual => "Manual",
        }
    }
}

/// A name for a speaker.
#[derive(Debug, Clone)]
pub struct IdentityResolution {
    pub speaker_tag: String,
    pub name: String,
    pub confidence: u32,
    pub source: IdentitySource,
}

impl PartialEq for IdentityResolution {
    fn eq(&self, other: &Self) -> (r: bool) {
        text::same_text(self.speaker_tag.as_str(), other.speaker_tag.as_str()) && text::same_text(
            self.name.as_str(),
            other.name.as_str(),
        ) && float_bits::is_equal(self.confidence, other.confidence) && self.source == other.source
    }
}

impl PartialEqSpecImpl for IdentityResolution {
    open spec fn obeys_eq_spec() -> bool {
        true
    }

    open spec fn eq_spec(&self, other: &Self) -> bool {
        &&& self.speaker_tag@ == other.speaker_tag@
        &&& self.name@ == other.name@
        &&& float_bits::equal_numbers(self.confidence, other.confidence)
        &&& self.source == other.source
    }
}

/// The event that a speaker has been named.
#[derive(Debug, Clone)]
pub struct IdentityResolved {
    pub event_type: String,
    pub session_id: String,
    pub speaker_tag: String,
    pub name: String,
    pub confidence: u32,
    pub source: IdentitySource,
}

/// The contents of the event that a speaker has been named.
#[verifier::ext_equal]
pub struct ResolvedView {
    pub event_type: Seq<char>,
    pub session_id: Seq<char>,
    pub speaker_tag: Seq<char>,
    pub name: Seq<char>,
    pub confidence: u32,
    pub source: IdentitySource,
}

impl View for IdentityResolved {
    type V = ResolvedView;

    open spec fn view(&self) -> ResolvedView {
        ResolvedView {
            event_type: self.event_type@,
            session_id: self.session_id@,
            speaker_tag: self.speaker_tag@,
            name: self.name@,
            confidence: self.confidence,
            source: self.source,
        }
    }
}

impl PartialEq for IdentityResolved {
    fn eq(&self, other: &Self) -> (r: bool) {
        text::same_text(self.event_type.as_str(), other.event_type.as_str()) && text::same_text(
            self.session_id.as_str(),
            other.session_id.as_str(),
        ) && text::same_text(self.speaker_tag.as_str(), other.speaker_tag.as_str())
            && text::same_text(self.name.as_str(), other.name.as_str()) && float_bits::is_equal(
            self.confidence,
            other.confidence,
        ) && self.source == other.source
    }
}

impl PartialEqSpecImpl for IdentityResolved {
    open spec fn obeys_eq_spec() -> bool {
        true
    }

    open spec fn eq_spec(&self, other: &Self) -> bool {
        &&& self.event_type@ == other.event_type@
        &&& self.session_id@ == other.session_id@
        &&& self.speaker_tag@ == other.speaker_tag@
        &&& self.name@ == other.name@
        &&& float_bits::equal_numbers(self.confidence, other.confidence)
        &&& self.source == other.source
    }
}

impl IdentityResolved {
    /// The event for the given speaker.
    pub fn new(
        session_id: &str,
        speaker_tag: &str,
        name: &str,
        confidence: u32,
        source: IdentitySource,
    ) -> (r: Self)
        ensures
            r@ == (ResolvedView {
                event_type: "IdentityResolved"@,
                session_id: session_id@,
                speaker_tag: speaker_tag@,
                name: name@,
                confidence,
                source,
            }),
    {
        IdentityResolved {
            event_type: "IdentityResolved".to_owned(),
            session_id: session_id.to_owned(),
            speaker_tag: speaker_tag.to_owned(),
            name: name.to_owned(),
            confidence,
            source,
        }
    }
}

/// A voice to be stored with the name of its owner.
#[derive(Debug)]
pub struct VoiceIdentityUpsert {
    pub session_id: String,
    pub speaker_tag: String,
    pub name: String,
    pub fingerprint: VoiceFingerprint,
    pub confidence: u32,
    pub source: IdentitySource,
}

/// The contents of a voice to be stored.
#[verifier::ext_equal]
pub struct UpsertView {
    pub session_id: Seq<char>,
    pub speaker_tag: Seq<char>,
    pub name: Seq<char>,
    pub fingerprint: Seq<u32>,
    pub confidence: u32,
    pub source: IdentitySource,
}

impl View for VoiceIdentityUpsert {
    type V = UpsertView;

    open spec fn view(&self) -> UpsertView {
        UpsertView {
            session_id: self.session_id@,
            speaker_tag: self.speaker_tag@,
            name: self.name@,
            fingerprint: self.fingerprint@,
            confidence: self.confidence,
            source: self.source,
        }
    }
}

impl Clone for VoiceIdentityUpsert {
    fn clone(&self) -> (r: Self)
        ensures
            r@ == self@,
    {
        VoiceIdentityUpsert {
            session_id: self.session_id.clone(),
            speaker_tag: self.speaker_tag.clone(),
            name: self.name.clone(),
            fingerprint: self.fingerprint.clone(),
            confidence: self.confidence,
            source: self.source,
        }
    }
}

impl PartialEq for VoiceIdentityUpsert {
    fn eq(&self, other: &Self) -> (r: bool) {
        text::same_text(self.session_id.as_str(), other.session_id.as_str()) && text::same_text(
            self.speaker_tag.as_str(),
            other.speaker_tag.as_str(),
        ) && text::same_text(self.name.as_str(), other.name.as_str()) && self.fingerprint
            == other.fingerprint && float_bits::is_equal(self.confidence, other.confidence)
            && self.source == other.source
    }
}

impl PartialEqSpecImpl for VoiceIdentityUpsert {
    open spec fn obeys_eq_spec() -> bool {
        true
    }

    open spec fn eq_spec(&self, other: &Self) -> bool {
        &&& self.session_id@ == other.session_id@
        &&& self.speaker_tag@ == other.speaker_tag@
        &&& self.name@ == other.name@
        &&& float_bits::equal_vectors(self.fingerprint@, other.fingerprint@)
        &&& float_bits::equal_numbers(self.confidence, other.confidence)
        &&& self.source == other.source
    }
}

/// The embedding of a stretch of transcript.
#[derive(Debug, Clone)]
pub struct TranscriptEmbedding {
    pub session_id: String,
    pub text: String,
    pub vector: Vec<u32>,
}

impl PartialEq for TranscriptEmbedding {
    fn eq(&self, other: &Self) -> (r: bool) {
        text::same_text(self.session_id.as_str(), other.session_id.as_str()) && text::same_text(
            self.text.as_str(),
            other.text.as_str(),
        ) && float_bits::are_equal(self.vector.as_slice(), other.vector.as_slice())
    }
}

impl PartialEqSpecImpl for TranscriptEmbedding {
    open spec fn obeys_eq_spec() -> bool {
        true
    }

    open spec fn eq_spec(&self, other: &Self) -> bool {
        &&& self.session_id@ == other.session_id@
        &&& self.text@ == other.text@
        &&& float_bits::equal_vectors(self.vector@, other.vector@)
    }
}

/// A task in a Redis queue.
#[derive(Debug, Clone, PartialEq)]
pub enum RedisTask<T> {
    TranscribeOffline { payload: T },
    TranscribeLive { payload: T },
    ResolveIdentities { payload: T },
    IndexTranscript { payload: T },
}

/// The names of the collections that hold what is remembered.
#[derive(Debug, Clone, PartialEq)]
pub struct MemoryCollections {
    pub voices: String,
    pub transcripts: String,
}

impl Default for MemoryCollections {
    fn default() -> (r: Self)
        ensures
            r.voices@ == "teto_voices"@,
            r.transcripts@ == "teto_history"@,
    {
        MemoryCollections {
            voices: "teto_voices".to_owned(),
            transcripts: "teto_history".to_owned(),
        }
    }
}

/// Nothing of a segment is lost from view.
pub proof fn segments_are_seen_whole(segment: TranscriptionSegment)
    ensures
        segment@.session_id == segment.session_id@,
        segment@.speaker_tag == segment.speaker_tag@,
        segment@.text == segment.text@,
        segment@.start_ms == segment.start_ms,
        segment@.end_ms == segment.end_ms,
        segment@.is_final == segment.is_final,
        segment@.voice_fingerprint is Some <==> segment.voice_fingerprint is Some,
        segment.voice_fingerprint is Some ==> segment@.voice_fingerprint->0
            == segment.voice_fingerprint->0@,
        segment@.identified_name is Some <==> segment.identified_name is Some,
        segment.identified_name is Some ==> segment@.identified_name->0
            == segment.identified_name->0@,
{
}

/// Nothing of a voice to be stored, nor of the event that a speaker has been named, is lost from
/// view.
pub proof fn namings_are_seen_whole(upsert: VoiceIdentityUpsert, event: IdentityResolved)
    ensures
        upsert@.session_id == upsert.session_id@,
        upsert@.speaker_tag == upsert.speaker_tag@,
        upsert@.name == upsert.name@,
        upsert@.fingerprint == upsert.fingerprint@,
        upsert@.confidence == upsert.confidence,
        upsert@.source == upsert.source,
        event@.event_type == event.event_type@,
        event@.session_id == event.session_id@,
        event@.speaker_tag == event.speaker_tag@,
        event@.name == event.name@,
        event@.confidence == event.confidence,
        event@.source == event.source,
{
}

/// Sources have names of their own.
pub proof fn sources_are_told_apart(a: IdentitySource, b: IdentitySource)
    ensures
        a.name() == b.name() <==> a == b,
{
    reveal_strlit("VoiceMatch");
    reveal_strlit("BrainReasoning");
    reveal_strlit("Manual");
    assert("VoiceMatch"@.len() == 10 && "BrainReasoning"@.len() == 14 && "Manual"@.len() == 6);
}

} // verus!
