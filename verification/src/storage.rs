//! What is remembered of voices and transcripts in a vector database.
use vstd::prelude::*;
use vstd::std_specs::cmp::PartialEqSpecImpl;
use vstd::string::*;

use crate::env;
use crate::env::EnvVars;
use crate::float_bits;
use crate::identifier;
use crate::json;
use crate::json::JsonTree;
use crate::numeric;
use crate::protocol;
use crate::protocol::{
    TranscriptEmbedding, VoiceFingerprint, VoiceIdentityUpsert, DEFAULT_VOICE_MATCH_THRESHOLD,
    VOICE_FINGERPRINT_DIM,
};
use crate::text;

verus! {

/// The settings of the memory.
#[derive(Debug, Clone)]
pub struct StorageConfig {
    pub qdrant_url: String,
    pub voice_collection: String,
    pub transcript_collection: String,
    pub transcript_dim: usize,
    /// The bits of the score from which on a voice counts as recognised.
    pub voice_match_threshold: u32,
}

impl StorageConfig {
    /// The settings that the environment gives. `threshold` holds the bits of the number that
    /// `TETO_VOICE_MATCH_THRESHOLD` spells, where it spells one.
    pub fn from_env(env: &EnvVars, threshold: Option<u32>) -> (r: Self)
        ensures
            r.qdrant_url@ == env::text_setting(env@, "QDRANT_URL"@, "http://localhost:6334"@),
            r.voice_collection@ == env::text_setting(
                env@,
                "TETO_VOICE_COLLECTION"@,
                "teto_voices"@,
            ),
            r.transcript_collection@ == env::text_setting(
                env@,
                "TETO_TRANSCRIPT_COLLECTION"@,
                "teto_transcripts"@,
            ),
            r.transcript_dim == env::number_setting(
                env@,
                "TETO_TRANSCRIPT_DIM"@,
                1024,
                usize::MAX as nat,
            ),
            r.voice_match_threshold == match threshold {
                Some(bits) => if env::in_unit_interval(bits) {
                    bits
                } else {
                    DEFAULT_VOICE_MATCH_THRESHOLD
                },
                None => DEFAULT_VOICE_MATCH_THRESHOLD,
            },
    {
        StorageConfig {
            qdrant_url: env::env_or_default(env, "QDRANT_URL", "http://localhost:6334"),
            voice_collection: env::env_or_default(env, "TETO_VOICE_COLLECTION", "teto_voices"),
            transcript_collection: env::env_or_default(
                env,
                "TETO_TRANSCRIPT_COLLECTION",
                "teto_transcripts",
            ),
            transcript_dim: env::env_usize(env, "TETO_TRANSCRIPT_DIM", 1024),
            voice_match_threshold: env::env_f32(threshold, DEFAULT_VOICE_MATCH_THRESHOLD),
        }
    }
}

/// A voice that was recognised.
#[derive(Debug, Clone)]
pub struct MatchedVoice {
    pub name: String,
    /// The bits of the score.
    pub confidence: u32,
    pub point_id: Option<String>,
}

impl PartialEq for MatchedVoice {
    fn eq(&self, other: &Self) -> (r: bool) {
        let same_id: bool = match (&self.point_id, &other.point_id) {
            (Some(a), Some(b)) => text::same_text(a.as_str(), b.as_str()),
            (None, None) => true,
            _ => false,
        };
        same_id && text::same_text(self.name.as_str(), other.name.as_str()) && float_bits::is_equal(
            self.confidence,
            other.confidence,
        )
    }
}

impl PartialEqSpecImpl for MatchedVoice {
    open spec fn obeys_eq_spec() -> bool {
        true
    }

    open spec fn eq_spec(&self, other: &Self) -> bool {
        &&& self.name@ == other.name@
        &&& float_bits::equal_numbers(self.confidence, other.confidence)
        &&& protocol::opt_text(self.point_id) == protocol::opt_text(other.point_id)
    }
}

/// The identifier of a stored point.
#[derive(Debug, Clone, PartialEq, Eq)]
pub enum PointId {
    Uuid(String),
    Num(u64),
    /// An identifier without contents.
    Unset,
}

impl PointId {
    /// The identifier as text.
    pub open spec fn spelled(self) -> Seq<char> {
        match self {
            PointId::Uuid(uuid) => uuid@,
            PointId::Num(num) => numeric::decimal(num as nat),
            PointId::Unset => ""@,
        }
    }
}

/// The identifier of a point as text.
pub fn point_id_to_string(point_id: &PointId) -> (r: String)
    ensures
        r@ == point_id.spelled(),
{
    match point_id {
        PointId::Uuid(uuid) => uuid.clone(),
        PointId::Num(num) => numeric::decimal_text(*num),
        PointId::Unset => "".to_owned(),
    }
}

/// The identifier under which the voice of a speaker is stored.
pub open spec fn voice_id(session_id: Seq<char>, speaker_tag: Seq<char>) -> Seq<char> {
    session_id + ":"@ + speaker_tag
}

/// The identifier under which the voice of a speaker is stored.
pub fn voice_point_id(session_id: &str, speaker_tag: &str) -> (r: String)
    ensures
        r@ == voice_id(session_id@, speaker_tag@),
{
    let mut id = session_id.to_owned();
    id.append(":");
    id.append(speaker_tag);
    id
}

/// The same tag in two sessions gives two identifiers, and so do two tags in one session.
pub proof fn voice_id_tells_apart(a: Seq<char>, b: Seq<char>, c: Seq<char>)
    ensures
        voice_id(a, c) == voice_id(b, c) <==> a == b,
        voice_id(c, a) == voice_id(c, b) <==> a == b,
{
    reveal_strlit(":");
    assert(voice_id(a, c).len() == a.len() + 1 + c.len());
    assert(voice_id(b, c).len() == b.len() + 1 + c.len());
    assert(voice_id(c, a).len() == c.len() + 1 + a.len());
    assert(voice_id(c, b).len() == c.len() + 1 + b.len());
    if voice_id(a, c) == voice_id(b, c) {
        assert forall|i: int| 0 <= i < a.len() implies a[i] == b[i] by {
            assert(voice_id(a, c)[i] == a[i]);
            assert(voice_id(b, c)[i] == b[i]);
        }
        assert(a == b);
    }
    if voice_id(c, a) == voice_id(c, b) {
        assert forall|i: int| 0 <= i < a.len() implies a[i] == b[i] by {
            assert(voice_id(c, a)[c.len() + 1 + i] == a[i]);
            assert(voice_id(c, b)[c.len() + 1 + i] == b[i]);
        }
        assert(a == b);
    }
}

/// Where tags hold no colon, no two speakers share an identifier, whatever their sessions.
pub proof fn voice_id_is_one_to_one(s: Seq<char>, t: Seq<char>, u: Seq<char>, v: Seq<char>)
    requires
        !t.contains(':'),
        !v.contains(':'),
    ensures
        voice_id(s, t) == voice_id(u, v) <==> s == u && t == v,
{
    reveal_strlit(":");
    if voice_id(s, t) == voice_id(u, v) {
        let x = voice_id(s, t);
        assert(x.len() == s.len() + 1 + t.len());
        assert(voice_id(u, v).len() == u.len() + 1 + v.len());
        assert(x[s.len() as int] == ':');
        assert(voice_id(u, v)[u.len() as int] == ':');
        if s.len() < u.len() {
            assert(t[u.len() - s.len() - 1] == x[u.len() as int]);
        } else if u.len() < s.len() {
            assert(v[s.len() - u.len() - 1] == voice_id(u, v)[s.len() as int]);
        }
        assert(s == x.take(s.len() as int));
        assert(u == voice_id(u, v).take(u.len() as int));
        assert(t == x.skip((s.len() + 1) as int));
        assert(v == voice_id(u, v).skip((u.len() + 1) as int));
    }
}

/// A search for the voice that is nearest to a fingerprint.
#[derive(Debug, Clone)]
pub struct VoiceQuery {
    pub collection: String,
    pub vector: Vec<u32>,
    pub limit: u64,
    pub with_payload: bool,
    pub score_threshold: u32,
}

/// A point that a search found.
#[derive(Debug)]
pub struct FoundPoint {
    pub id: Option<PointId>,
    /// The bits of the score.
    pub score: u32,
    pub payload: serde_json::Value,
}

/// The name that a stored voice carries, if it carries one.
pub open spec fn stored_name(payload: JsonTree) -> Option<Seq<char>> {
    match payload {
        JsonTree::Object(fields) => if fields.contains_key("name"@) {
            match fields["name"@] {
                JsonTree::Text(name) => Some(name),
                _ => None,
            }
        } else {
            None
        },
        _ => None,
    }
}

/// The voice that a search recognised: the first point, if it carries a name.
pub open spec fn recognised(points: Seq<FoundPoint>) -> Option<Seq<char>> {
    if points.len() == 0 {
        None
    } else {
        stored_name(json::json_tree(points[0].payload))
    }
}

/// A point to be stored.
#[derive(Debug)]
pub struct StoredPoint {
    pub collection: String,
    pub id: String,
    pub vector: Vec<u32>,
    pub payload: serde_json::Value,
}

/// A collection that is to exist, with vectors of the given dimension that are compared by the
/// cosine of their angle.
#[derive(Debug, Clone, PartialEq)]
pub struct CollectionPlan {
    pub name: String,
    pub dim: usize,
    pub kind: &'static str,
}

/// Why something cannot be stored.
#[derive(Debug, Clone, PartialEq)]
pub enum StorageError {
    InvalidDimension { collection: String, expected: usize, actual: usize },
}

impl StorageError {
    /// The message in words.
    pub open spec fn words(self) -> Seq<char> {
        match self {
            StorageError::InvalidDimension { collection, expected, actual } => {
                "invalid transcript embedding dimension for collection '"@ + collection@
                    + "': expected "@ + numeric::decimal(expected as nat) + ", got "@
                    + numeric::decimal(actual as nat)
            },
        }
    }

    /// The message in words.
    pub fn message(&self) -> (r: String)
        ensures
            r@ == self.words(),
    {
        match self {
            StorageError::InvalidDimension { collection, expected, actual } => {
                let mut out = "invalid transcript embedding dimension for collection '".to_owned();
                out.append(collection.as_str());
                out.append("': expected ");
                out.append(numeric::decimal_text(*expected as u64).as_str());
                out.append(", got ");
                out.append(numeric::decimal_text(*actual as u64).as_str());
                out
            },
        }
    }
}

/// The fields that are stored with a voice.
pub open spec fn voice_payload(
    upsert: protocol::UpsertView,
    confidence: Option<serde_json::Number>,
) -> Map<Seq<char>, JsonTree> {
    Map::<Seq<char>, JsonTree>::empty().insert(
        "session_id"@,
        JsonTree::Text(upsert.session_id),
    ).insert("speaker_tag"@, JsonTree::Text(upsert.speaker_tag)).insert(
        "name"@,
        JsonTree::Text(upsert.name),
    ).insert(
        "confidence"@,
        match confidence {
            Some(n) => JsonTree::Number(n),
            None => JsonTree::Null,
        },
    ).insert("source"@, JsonTree::Text(upsert.source.name()))
}

/// The fields that are stored with a stretch of transcript.
pub open spec fn transcript_payload(session_id: Seq<char>, text: Seq<char>) -> Map<
    Seq<char>,
    JsonTree,
> {
    Map::<Seq<char>, JsonTree>::empty().insert("session_id"@, JsonTree::Text(session_id)).insert(
        "text"@,
        JsonTree::Text(text),
    )
}

/// A voice that was stored under a name is recognised by that name.
pub proof fn stored_voice_is_recognised(
    upsert: protocol::UpsertView,
    confidence: Option<serde_json::Number>,
)
    ensures
        stored_name(JsonTree::Object(voice_payload(upsert, confidence))) == Some(upsert.name),
{
    reveal_strlit("name");
    reveal_strlit("confidence");
    reveal_strlit("source");
    assert("name"@.len() != "confidence"@.len());
    assert("name"@.len() != "source"@.len());
}

/// The memory: where voices and transcripts are kept.
#[derive(Debug, Clone)]
pub struct SovereignMemory {
    config: StorageConfig,
}

impl SovereignMemory {
    /// The settings.
    pub closed spec fn settings(self) -> StorageConfig {
        self.config
    }

    /// A memory with the given settings.
    pub fn new(config: StorageConfig) -> (r: Self)
        ensures
            r.settings() == config,
    {
        SovereignMemory { config }
    }

    /// The settings.
    pub fn config(&self) -> (r: &StorageConfig)
        ensures
            *r == self.settings(),
    {
        &self.config
    }

    /// The search for the owner of a voice.
    pub fn voice_query(&self, fingerprint: &VoiceFingerprint) -> (r: VoiceQuery)
        ensures
            r.collection@ == self.settings().voice_collection@,
            r.vector@ == fingerprint@,
            r.limit == 1,
            r.with_payload,
            r.score_threshold == self.settings().voice_match_threshold,
    {
        VoiceQuery {
            collection: self.config.voice_collection.clone(),
            vector: fingerprint.clone().into_vec(),
            limit: 1,
            with_payload: true,
            score_threshold: self.config.voice_match_threshold,
        }
    }

    /// The owner of a voice, going by what the search for it found.
    pub fn match_voice(&self, points: &Vec<FoundPoint>) -> (r: Option<MatchedVoice>)
        ensures
            match r {
                Some(voice) => {
                    &&& recognised(points@) == Some(voice.name@)
                    &&& voice.confidence == points@[0].score
                    &&& protocol::opt_text(voice.point_id) == match points@[0].id {
                        Some(id) => Some(id.spelled()),
                        None => None,
                    }
                },
                None => recognised(points@) is None,
            },
    {
        if points.len() == 0 {
            return None;
        }
        let point = &points[0];
        let name = match json::json_field(&point.payload, "name") {
            Some(field) => json::json_text(field),
            None => None,
        };
        match name {
            Some(name) => Some(
                MatchedVoice {
                    name: name.to_owned(),
                    confidence: point.score,
                    point_id: match &point.id {
                        Some(id) => Some(point_id_to_string(id)),
                        None => None,
                    },
                },
            ),
            None => None,
        }
    }

    /// The point that stores a voice with the name of its owner. `confidence` is the confidence
    /// as a JSON number, where there is such a number.
    pub fn upsert_voice_identity(
        &self,
        upsert: &VoiceIdentityUpsert,
        confidence: Option<serde_json::Number>,
    ) -> (r: StoredPoint)
        ensures
            r.collection@ == self.settings().voice_collection@,
            r.id@ == voice_id(upsert.session_id@, upsert.speaker_tag@),
            r.vector@ == upsert.fingerprint@,
            json::json_tree(r.payload) == JsonTree::Object(voice_payload(upsert@, confidence)),
    {
        let mut fields = serde_json::Map::new();
        let confidence = match confidence {
            Some(n) => json::json_number(n),
            None => json::json_null(),
        };
        fields.insert("session_id".to_owned(), json::json_string(upsert.session_id.clone()));
        fields.insert("speaker_tag".to_owned(), json::json_string(upsert.speaker_tag.clone()));
        fields.insert("name".to_owned(), json::json_string(upsert.name.clone()));
        fields.insert("confidence".to_owned(), confidence);
        fields.insert("source".to_owned(), json::json_string(upsert.source.label().to_owned()));
        StoredPoint {
            collection: self.config.voice_collection.clone(),
            id: voice_point_id(upsert.session_id.as_str(), upsert.speaker_tag.as_str()),
            vector: upsert.fingerprint.clone().into_vec(),
            payload: json::json_object(fields),
        }
    }

    /// The point that stores a stretch of transcript, given the identifier that it gets.
    pub fn transcript_point(&self, embedding: &TranscriptEmbedding, id: String) -> (r: Result<
        StoredPoint,
        StorageError,
    >)
        ensures
            match r {
                Ok(point) => {
                    &&& embedding.vector@.len() == self.settings().transcript_dim
                    &&& point.collection@ == self.settings().transcript_collection@
                    &&& point.id == id
                    &&& point.vector@ == embedding.vector@
                    &&& json::json_tree(point.payload) == JsonTree::Object(
                        transcript_payload(embedding.session_id@, embedding.text@),
                    )
                },
                Err(StorageError::InvalidDimension { collection, expected, actual }) => {
                    &&& embedding.vector@.len() != self.settings().transcript_dim
                    &&& collection@ == self.settings().transcript_collection@
                    &&& expected == self.settings().transcript_dim
                    &&& actual == embedding.vector@.len()
                },
            },
    {
        if embedding.vector.len() != self.config.transcript_dim {
            return Err(
                StorageError::InvalidDimension {
                    collection: self.config.transcript_collection.clone(),
                    expected: self.config.transcript_dim,
                    actual: embedding.vector.len(),
                },
            );
        }
        let mut fields = serde_json::Map::new();
        fields.insert("session_id".to_owned(), json::json_string(embedding.session_id.clone()));
        fields.insert("text".to_owned(), json::json_string(embedding.text.clone()));
        let vector = embedding.vector.clone();
        assert(vector@ == embedding.vector@);
        Ok(
            StoredPoint {
                collection: self.config.transcript_collection.clone(),
                id,
                vector,
                payload: json::json_object(fields),
            },
        )
    }

    /// The point that stores a stretch of transcript, under an identifier picked at random.
    pub fn index_transcript(&self, embedding: &TranscriptEmbedding) -> (r: Result<
        StoredPoint,
        StorageError,
    >)
        ensures
            match r {
                Ok(point) => {
                    &&& embedding.vector@.len() == self.settings().transcript_dim
                    &&& point.collection@ == self.settings().transcript_collection@
                    &&& identifier::is_random_uuid(point.id@)
                    &&& point.vector@ == embedding.vector@
                    &&& json::json_tree(point.payload) == JsonTree::Object(
                        transcript_payload(embedding.session_id@, embedding.text@),
                    )
                },
                Err(StorageError::InvalidDimension { collection, expected, actual }) => {
                    &&& embedding.vector@.len() != self.settings().transcript_dim
                    &&& collection@ == self.settings().transcript_collection@
                    &&& expected == self.settings().transcript_dim
                    &&& actual == embedding.vector@.len()
                },
            },
    {
        self.transcript_point(embedding, identifier::random_uuid())
    }

    /// The collections that are to exist, in the order in which they are looked for.
    pub fn ensure_collections(&self) -> (r: Vec<CollectionPlan>)
        ensures
            r@.len() == 2,
            r@[0].name@ == self.settings().voice_collection@,
            r@[0].dim == VOICE_FINGERPRINT_DIM,
            r@[0].kind@ == "voice"@,
            r@[1].name@ == self.settings().transcript_collection@,
            r@[1].dim == self.settings().transcript_dim,
            r@[1].kind@ == "transcript"@,
    {
        let mut plans: Vec<CollectionPlan> = Vec::new();
        plans.push(
            CollectionPlan {
                name: self.config.voice_collection.clone(),
                dim: VOICE_FINGERPRINT_DIM,
                kind: "voice",
            },
        );
        plans.push(
            CollectionPlan {
                name: self.config.transcript_collection.clone(),
                dim: self.config.transcript_dim,
                kind: "transcript",
            },
        );
        plans
    }
}

/// The collection that has to be created, unless it exists: its name and the dimension of its
/// vectors.
pub fn ensure_collection(plan: &CollectionPlan, exists: bool) -> (r: Option<(String, u64)>)
    ensures
        match r {
            Some((name, dim)) => !exists && name@ == plan.name@ && dim == plan.dim,
            None => exists,
        },
{
    if exists {
        None
    } else {
        Some((plan.name.clone(), plan.dim as u64))
    }
}

/// How an attempt on the memory ended.
#[derive(Debug, Clone, Copy, PartialEq, Eq, Structural)]
pub enum Attempt {
    Succeeded,
    Failed,
    TimedOut,
}

/// What is to be done after an attempt on the memory.
#[derive(Debug, Clone, Copy, PartialEq, Eq)]
pub enum MemoryStep {
    /// See to it that the collections exist.
    EnsureCollections,
    /// Run with the memory.
    UseMemory,
    /// Run without the memory, for the reason given.
    RunWithout(&'static str),
}

/// What follows an attempt to reach the memory.
pub fn memory_connected(attempt: Attempt) -> (r: MemoryStep)
    ensures
        match attempt {
            Attempt::Succeeded => r == MemoryStep::EnsureCollections,
            Attempt::Failed => r matches MemoryStep::RunWithout(why) && why@
                == "Qdrant client initialization failed; controller will keep running without memory"@,
            Attempt::TimedOut => r matches MemoryStep::RunWithout(why) && why@
                == "Qdrant client initialization timed out; controller will keep running without memory"@,
        },
{
    match attempt {
        Attempt::Succeeded => MemoryStep::EnsureCollections,
        Attempt::Failed => MemoryStep::RunWithout(
            "Qdrant client initialization failed; controller will keep running without memory",
        ),
        Attempt::TimedOut => MemoryStep::RunWithout(
            "Qdrant client initialization timed out; controller will keep running without memory",
        ),
    }
}

/// What follows an attempt to see to the collections.
pub fn memory_bootstrapped(attempt: Attempt) -> (r: MemoryStep)
    ensures
        match attempt {
            Attempt::Succeeded => r == MemoryStep::UseMemory,
            Attempt::Failed => r matches MemoryStep::RunWithout(why) && why@
                == "Qdrant collection bootstrap failed; controller will keep running without memory"@,
            Attempt::TimedOut => r matches MemoryStep::RunWithout(why) && why@
                == "Qdrant collection bootstrap timed out; controller will keep running without memory"@,
        },
{
    match attempt {
        Attempt::Succeeded => MemoryStep::UseMemory,
        Attempt::Failed => MemoryStep::RunWithout(
            "Qdrant collection bootstrap failed; controller will keep running without memory",
        ),
        Attempt::TimedOut => MemoryStep::RunWithout(
            "Qdrant collection bootstrap timed out; controller will keep running without memory",
        ),
    }
}

/// The identifier of a voice is the session, a colon and the tag.
pub proof fn voice_id_is_spelled_out(session_id: Seq<char>, speaker_tag: Seq<char>)
    ensures
        voice_id(session_id, speaker_tag) == session_id + seq![':'] + speaker_tag,
{
    reveal_strlit(":");
    assert(":"@ == seq![':']);
}

/// A stored voice carries five fields: the session, the tag, the name, the confidence and how the
/// name was found.
pub proof fn stored_voice_carries_its_fields(
    upsert: protocol::UpsertView,
    confidence: Option<serde_json::Number>,
)
    ensures
        ({
            let fields = voice_payload(upsert, confidence);
            &&& fields.dom() == set![
                "session_id"@,
                "speaker_tag"@,
                "name"@,
                "confidence"@,
                "source"@,
            ]
            &&& fields["session_id"@] == JsonTree::Text(upsert.session_id)
            &&& fields["speaker_tag"@] == JsonTree::Text(upsert.speaker_tag)
            &&& fields["name"@] == JsonTree::Text(upsert.name)
            &&& fields["source"@] == JsonTree::Text(upsert.source.name())
            &&& confidence is Some ==> fields["confidence"@] == JsonTree::Number(confidence->0)
            &&& confidence is None ==> fields["confidence"@] is Null
        }),
{
    reveal_strlit("session_id");
    reveal_strlit("speaker_tag");
    reveal_strlit("name");
    reveal_strlit("confidence");
    reveal_strlit("source");
    assert("session_id"@[0] != "confidence"@[0]);
    assert("session_id"@.len() == 10 && "speaker_tag"@.len() == 11 && "name"@.len() == 4
        && "confidence"@.len() == 10 && "source"@.len() == 6);
    assert(voice_payload(upsert, confidence).dom() =~= set![
        "session_id"@,
        "speaker_tag"@,
        "name"@,
        "confidence"@,
        "source"@,
    ]);
}

/// A stored stretch of transcript carries the session and the whole text.
pub proof fn stored_transcript_carries_its_text(session_id: Seq<char>, text: Seq<char>)
    ensures
        ({
            let fields = transcript_payload(session_id, text);
            &&& fields.dom() == set!["session_id"@, "text"@]
            &&& fields["session_id"@] == JsonTree::Text(session_id)
            &&& fields["text"@] == JsonTree::Text(text)
        }),
{
    reveal_strlit("session_id");
    reveal_strlit("text");
    assert("session_id"@.len() != "text"@.len());
    assert(transcript_payload(session_id, text).dom() =~= set!["session_id"@, "text"@]);
}

/// The voice recognised is that of the first point, by the name that it carries, whatever other
/// points were found and whatever else it carries; without points, or without a name that is text,
/// nobody is recognised.
pub proof fn first_point_is_recognised(
    points: Seq<FoundPoint>,
    fields: Map<Seq<char>, JsonTree>,
    name: Seq<char>,
)
    requires
        points.len() > 0,
        json::json_tree(points[0].payload) == JsonTree::Object(fields),
    ensures
        fields.contains_key("name"@) && fields["name"@] == JsonTree::Text(name) ==> recognised(
            points,
        ) == Some(name),
        !fields.contains_key("name"@) || !(fields["name"@] is Text) ==> recognised(points) is None,
        recognised(points) == recognised(seq![points[0]]),
        recognised(seq![]) is None,
        forall|payload: JsonTree| !(payload is Object) ==> #[trigger] stored_name(payload) is None,
{
}

/// The identifier of a point is spelled as it is: text as that text, and a number in decimal
/// notation, from which it can be read back.
pub proof fn point_ids_are_spelled_whole(uuid: String, num: u64)
    ensures
        PointId::Uuid(uuid).spelled() == uuid@,
        numeric::unsigned_number(PointId::Num(num).spelled(), u64::MAX as nat) == Some(num as nat),
        PointId::Unset.spelled().len() == 0,
{
    reveal_strlit("");
    numeric::decimal_reads_back(num as nat, u64::MAX as nat);
}

} // verus!
