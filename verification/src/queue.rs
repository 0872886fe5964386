//! The controller's part of the identity loop: segments of unknown speakers are held back until
//! the brain has named the speakers, and are then sent on.
use vstd::prelude::*;
use vstd::string::*;

use crate::brain;
use crate::env;
use crate::env::EnvVars;
use crate::json::JsonTree;
use crate::protocol::{
    BrainIdentityRequest, BrainIdentityResponse, IdentityResolved, IdentitySource, ResolvedView,
    SegmentView, TranscriptionSegment, UpsertView, VoiceFingerprint, VoiceIdentityUpsert,
    DEFAULT_BRAIN_CONFIDENCE_THRESHOLD,
};
use crate::storage;
use crate::storage::MatchedVoice;
use crate::string_map;
use crate::string_map::StringMap;
use crate::text;

verus! {

/// How many seconds to wait before a lost connection is taken up again.
pub const RECONNECT_DELAY_SECS: u64 = 2;

/// The settings of the controller.
#[derive(Debug, Clone, PartialEq, Eq)]
pub struct QueueConfig {
    pub redis_url: String,
    pub transcription_stream: String,
    pub transcription_field: String,
    pub controller_group: String,
    pub controller_consumer: String,
    pub brain_queue: String,
    pub brain_resolutions_queue: String,
    pub live_channel: String,
    pub stream_block_ms: usize,
    pub stream_batch_size: usize,
    pub brain_request_segments: usize,
    pub controller_addr: String,
}

impl QueueConfig {
    /// The settings that the environment gives. `addr` spells the socket address that
    /// `TETO_CONTROLLER_ADDR` holds, where it holds one.
    pub fn from_env(env: &EnvVars, addr: Option<String>) -> (r: Self)
        ensures
            r.redis_url@ == env::text_setting(env@, "REDIS_URL"@, "redis://127.0.0.1/"@),
            r.transcription_stream@ == env::text_setting(
                env@,
                "TETO_TRANSCRIPTION_STREAM"@,
                "teto_transcription_stream"@,
            ),
            r.transcription_field@ == env::text_setting(
                env@,
                "TETO_TRANSCRIPTION_FIELD"@,
                "segment"@,
            ),
            r.controller_group@ == env::text_setting(
                env@,
                "TETO_CONTROLLER_GROUP"@,
                "teto_controller"@,
            ),
            r.controller_consumer@ == env::text_setting(
                env@,
                "TETO_CONTROLLER_CONSUMER"@,
                "teto_controller"@,
            ),
            r.brain_queue@ == env::text_setting(env@, "TETO_BRAIN_QUEUE"@, "teto_brain_queue"@),
            r.brain_resolutions_queue@ == env::text_setting(
                env@,
                "TETO_BRAIN_RESOLUTIONS_QUEUE"@,
                "brain_resolutions"@,
            ),
            r.live_channel@ == env::text_setting(
                env@,
                "TETO_LIVE_CHANNEL"@,
                "teto_live_transcripts"@,
            ),
            r.stream_block_ms == env::number_setting(
                env@,
                "TETO_STREAM_BLOCK_MS"@,
                5000,
                usize::MAX as nat,
            ),
            r.stream_batch_size == env::number_setting(
                env@,
                "TETO_STREAM_BATCH_SIZE"@,
                10,
                usize::MAX as nat,
            ),
            r.brain_request_segments == env::number_setting(
                env@,
                "TETO_BRAIN_REQUEST_SEGMENTS"@,
                5,
                usize::MAX as nat,
            ),
            r.controller_addr@ == match addr {
                Some(a) => a@,
                None => "127.0.0.1:3030"@,
            },
    {
        QueueConfig {
            redis_url: env::env_or_default(env, "REDIS_URL", "redis://127.0.0.1/"),
            transcription_stream: env::env_or_default(
                env,
                "TETO_TRANSCRIPTION_STREAM",
                "teto_transcription_stream",
            ),
            transcription_field: env::env_or_default(env, "TETO_TRANSCRIPTION_FIELD", "segment"),
            controller_group: env::env_or_default(env, "TETO_CONTROLLER_GROUP", "teto_controller"),
            controller_consumer: env::env_or_default(
                env,
                "TETO_CONTROLLER_CONSUMER",
                "teto_controller",
            ),
            brain_queue: env::env_or_default(env, "TETO_BRAIN_QUEUE", "teto_brain_queue"),
            brain_resolutions_queue: env::env_or_default(
                env,
                "TETO_BRAIN_RESOLUTIONS_QUEUE",
                "brain_resolutions",
            ),
            live_channel: env::env_or_default(env, "TETO_LIVE_CHANNEL", "teto_live_transcripts"),
            stream_block_ms: env::env_usize(env, "TETO_STREAM_BLOCK_MS", 5000),
            stream_batch_size: env::env_usize(env, "TETO_STREAM_BATCH_SIZE", 10),
            brain_request_segments: env::env_usize(env, "TETO_BRAIN_REQUEST_SEGMENTS", 5),
            controller_addr: match addr {
                Some(a) => a,
                None => "127.0.0.1:3030".to_owned(),
            },
        }
    }
}

/// The contents of a list of segments.
pub open spec fn segment_views(segments: Seq<TranscriptionSegment>) -> Seq<SegmentView> {
    segments.map_values(|s: TranscriptionSegment| s@)
}

/// The line of a transcript that a segment gives.
pub open spec fn transcript_line(segment: SegmentView) -> Seq<char> {
    segment.speaker_tag + ": "@ + segment.text
}

/// The transcript of a list of segments: a line for each.
pub open spec fn transcript_of(segments: Seq<SegmentView>) -> Seq<char>
    decreases segments.len(),
{
    if segments.len() == 0 {
        seq![]
    } else if segments.len() == 1 {
        transcript_line(segments[0])
    } else {
        transcript_of(segments.drop_last()) + "\n"@ + transcript_line(segments.last())
    }
}

/// The voices of the speakers, by speaker tag: of each the first that was heard.
pub open spec fn voices_of(segments: Seq<SegmentView>) -> Map<Seq<char>, Seq<u32>>
    decreases segments.len(),
{
    if segments.len() == 0 {
        Map::empty()
    } else {
        let before = voices_of(segments.drop_last());
        let segment = segments.last();
        match segment.voice_fingerprint {
            Some(voice) => if before.contains_key(segment.speaker_tag) {
                before
            } else {
                before.insert(segment.speaker_tag, voice)
            },
            None => before,
        }
    }
}

/// What is held back of a session.
#[derive(Debug)]
pub struct PendingSession {
    transcript: String,
    segments: Vec<TranscriptionSegment>,
    fingerprints: StringMap<VoiceFingerprint>,
    brain_requested: bool,
}

/// The contents of what is held back of a session.
#[verifier::ext_equal]
pub struct PendingView {
    pub segments: Seq<SegmentView>,
    pub brain_requested: bool,
}

impl View for PendingSession {
    type V = PendingView;

    closed spec fn view(&self) -> PendingView {
        PendingView {
            segments: segment_views(self.segments@),
            brain_requested: self.brain_requested,
        }
    }
}

/// A session of which nothing is held back.
pub open spec fn nothing_pending() -> PendingView {
    PendingView { segments: seq![], brain_requested: false }
}

/// Tells whether the brain is to be asked about a session: it has not been asked, enough has
/// been said, and there is a voice to be named.
pub open spec fn wants_brain(session: PendingView, request_segments: nat) -> bool {
    &&& !session.brain_requested
    &&& session.segments.len() >= request_segments
    &&& voices_of(session.segments) != Map::<Seq<char>, Seq<u32>>::empty()
}

/// Tells whether `tags` lists the speakers of the given voices, each once, in ascending order.
pub open spec fn lists_speakers(tags: Seq<Seq<char>>, voices: Map<Seq<char>, Seq<u32>>) -> bool {
    &&& string_map::ascending(tags)
    &&& forall|tag: Seq<char>| #[trigger] tags.contains(tag) <==> voices.contains_key(tag)
}

/// Tells whether a request asks about all that is held back of a session.
pub open spec fn asks_about(
    request: BrainIdentityRequest,
    session_id: Seq<char>,
    session: PendingView,
) -> bool {
    &&& request.session_id@ == session_id
    &&& lists_speakers(
        string_map::strings(request.speaker_tags@),
        voices_of(session.segments),
    )
    &&& request.transcript@ == transcript_of(session.segments)
}

impl PendingSession {
    #[verifier::type_invariant]
    spec fn is_summed_up(&self) -> bool {
        &&& self.transcript@ == transcript_of(segment_views(self.segments@))
        &&& self.fingerprints@ == voices_of(segment_views(self.segments@))
    }

    fn new() -> (r: Self)
        ensures
            r@ == nothing_pending(),
    {
        let transcript = "".to_owned();
        let segments: Vec<TranscriptionSegment> = Vec::new();
        let fingerprints: StringMap<VoiceFingerprint> = StringMap::new();
        proof {
            reveal_strlit("");
            assert(segment_views(segments@) == Seq::<SegmentView>::empty());
            assert(transcript@ == transcript_of(segment_views(segments@)));
            assert(fingerprints@ == voices_of(segment_views(segments@)));
        }
        PendingSession { transcript, segments, fingerprints, brain_requested: false }
    }

    /// The session with one more segment held back.
    fn with_segment(self, segment: TranscriptionSegment) -> (r: Self)
        ensures
            r@ == (PendingView { segments: self@.segments.push(segment@), ..self@ }),
    {
        proof {
            use_type_invariant(&self);
        }
        let ghost before = segment_views(self.segments@);
        let brain_requested = self.brain_requested;
        let mut transcript = self.transcript;
        let mut segments = self.segments;
        let mut fingerprints = self.fingerprints;
        if let Some(fingerprint) = &segment.voice_fingerprint {
            fingerprints.or_insert(segment.speaker_tag.clone(), fingerprint.clone());
        }
        proof {
            lemma_transcript_is_blank(before);
        }
        if !transcript.as_str().is_empty() {
            transcript.append("\n");
        }
        transcript.append(segment.speaker_tag.as_str());
        transcript.append(": ");
        transcript.append(segment.text.as_str());
        let ghost view = segment@;
        segments.push(segment);
        proof {
            let after = segment_views(segments@);
            assert(after == before.push(view));
            assert(after.drop_last() == before);
            assert(fingerprints@ == voices_of(after));
            if before.len() == 0 {
                assert(transcript@ == transcript_line(view));
            } else {
                assert(transcript@ == transcript_of(before) + "\n"@ + transcript_line(view));
            }
        }
        PendingSession { transcript, segments, fingerprints, brain_requested }
    }

    /// The session with a note that the brain has been asked.
    fn with_brain_requested(self) -> (r: Self)
        ensures
            r@ == (PendingView { brain_requested: true, ..self@ }),
    {
        proof {
            use_type_invariant(&self);
        }
        PendingSession {
            transcript: self.transcript,
            segments: self.segments,
            fingerprints: self.fingerprints,
            brain_requested: true,
        }
    }

    /// The request to be put to the brain, if it is time to ask.
    fn request(&self, session_id: &str, request_segments: usize) -> (r: Option<
        BrainIdentityRequest,
    >)
        ensures
            match r {
                Some(request) => wants_brain(self@, request_segments as nat) && asks_about(
                    request,
                    session_id@,
                    self@,
                ),
                None => !wants_brain(self@, request_segments as nat),
            },
            r is Some <==> {
                &&& !self@.brain_requested
                &&& self@.segments.len() >= request_segments
                &&& exists|i: int|
                    0 <= i < self@.segments.len() && (
                    #[trigger] self@.segments[i]).voice_fingerprint is Some
            },
    {
        proof {
            use_type_invariant(self);
            lemma_some_voice(self@.segments);
        }
        if !self.brain_requested && self.segments.len() >= request_segments
            && !self.fingerprints.is_empty() {
            Some(
                BrainIdentityRequest::new(
                    session_id,
                    self.fingerprints.keys(),
                    self.transcript.as_str(),
                ),
            )
        } else {
            None
        }
    }
}

impl Clone for PendingSession {
    fn clone(&self) -> (r: Self)
        ensures
            r@ == self@,
    {
        proof {
            use_type_invariant(self);
        }
        let segments = self.segments.clone();
        let fingerprints = self.fingerprints.clone();
        proof {
            assert(string_map::clones_hold_the_same::<VoiceFingerprint>());
            assert forall|i: int| 0 <= i < self.segments@.len() implies (#[trigger] segments@[i])@
                == self.segments@[i]@ by {
                assert(cloned(self.segments@[i], segments@[i]));
            }
            assert(segment_views(segments@) == segment_views(self.segments@));
        }
        PendingSession {
            transcript: self.transcript.clone(),
            segments,
            fingerprints,
            brain_requested: self.brain_requested,
        }
    }
}

/// A transcript is blank only where nothing was said.
proof fn lemma_transcript_is_blank(segments: Seq<SegmentView>)
    ensures
        transcript_of(segments).len() == 0 <==> segments.len() == 0,
{
    reveal_strlit(": ");
    reveal_strlit("\n");
    if segments.len() > 0 {
        assert(transcript_line(segments.last()).len() >= 2);
        if segments.len() == 1 {
            assert(segments[0] == segments.last());
        }
    }
}

/// What is held back, by session.
#[derive(Debug)]
pub struct PendingIdentityBuffer {
    sessions: StringMap<PendingSession>,
}

/// Tells whether every session holds back something, and only what was said in it.
pub open spec fn sessions_are_kept_apart(sessions: Map<Seq<char>, PendingView>) -> bool {
    forall|id: Seq<char>| #[trigger]
        sessions.contains_key(id) ==> {
            &&& sessions[id].segments.len() > 0
            &&& forall|i: int|
                0 <= i < sessions[id].segments.len() ==> (
                #[trigger] sessions[id].segments[i]).session_id == id
        }
}

/// What is held back of a session.
pub open spec fn pending_in(sessions: Map<Seq<char>, PendingView>, id: Seq<char>) -> PendingView {
    if sessions.contains_key(id) {
        sessions[id]
    } else {
        nothing_pending()
    }
}

/// What is held back once a segment has been put to the rest of its session.
pub open spec fn with_pending_segment(
    sessions: Map<Seq<char>, PendingView>,
    segment: SegmentView,
) -> Map<Seq<char>, PendingView> {
    let before = pending_in(sessions, segment.session_id);
    sessions.insert(
        segment.session_id,
        PendingView { segments: before.segments.push(segment), ..before },
    )
}

/// What is held back once the brain has been asked about a session.
pub open spec fn with_brain_asked(
    sessions: Map<Seq<char>, PendingView>,
    id: Seq<char>,
) -> Map<Seq<char>, PendingView> {
    if sessions.contains_key(id) {
        sessions.insert(id, PendingView { brain_requested: true, ..sessions[id] })
    } else {
        sessions
    }
}

impl View for PendingIdentityBuffer {
    type V = Map<Seq<char>, PendingView>;

    closed spec fn view(&self) -> Map<Seq<char>, PendingView> {
        self.sessions@
    }
}

impl PendingIdentityBuffer {
    #[verifier::type_invariant]
    spec fn is_kept_apart(&self) -> bool {
        sessions_are_kept_apart(self.sessions@)
    }

    /// A buffer that holds nothing back.
    pub fn new() -> (r: Self)
        ensures
            r@ == Map::<Seq<char>, PendingView>::empty(),
    {
        PendingIdentityBuffer { sessions: StringMap::new() }
    }

    /// Holds back a segment. Where it is time to ask the brain about the session, the request
    /// comes back; `mark_brain_requested` is to follow once it has been sent.
    pub fn push(&mut self, segment: TranscriptionSegment, request_segments: usize) -> (r: Option<
        BrainIdentityRequest,
    >)
        ensures
            final(self)@ == with_pending_segment(old(self)@, segment@),
            sessions_are_kept_apart(final(self)@),
            ({
                let session = pending_in(final(self)@, segment@.session_id);
                match r {
                    Some(request) => wants_brain(session, request_segments as nat) && asks_about(
                        request,
                        segment@.session_id,
                        session,
                    ),
                    None => !wants_brain(session, request_segments as nat),
                }
            }),
            ({
                let id = segment@.session_id;
                let asked = old(self)@.contains_key(id) && old(self)@[id].brain_requested;
                let held = if old(self)@.contains_key(id) {
                    old(self)@[id].segments
                } else {
                    Seq::<SegmentView>::empty()
                };
                &&& final(self)@ == old(self)@.insert(
                    id,
                    PendingView { segments: held.push(segment@), brain_requested: asked },
                )
                &&& r is Some <==> {
                    &&& !asked
                    &&& held.len() + 1 >= request_segments
                    &&& segment@.voice_fingerprint is Some || old(self)@.contains_key(id)
                        && exists|i: int|
                        0 <= i < old(self)@[id].segments.len() && (#[trigger] old(
                            self,
                        )@[id].segments[i]).voice_fingerprint is Some
                }
            }),
    {
        proof {
            use_type_invariant(&*self);
        }
        let mut sessions: StringMap<PendingSession> = StringMap::new();
        core::mem::swap(&mut self.sessions, &mut sessions);
        let id = segment.session_id.clone();
        let ghost before = sessions@;
        let ghost view = segment@;
        let session = match sessions.remove(id.as_str()) {
            Some(session) => session,
            None => PendingSession::new(),
        };
        let session = session.with_segment(segment);
        let request = session.request(id.as_str(), request_segments);
        sessions.insert(id, session);
        proof {
            let after = with_pending_segment(before, view);
            let held = pending_in(before, view.session_id).segments;
            let asked = pending_in(before, view.session_id).brain_requested;
            lemma_voice_in_all(held, view);
            lemma_some_voice(held.push(view));
            assert(after == before.insert(
                view.session_id,
                PendingView { segments: held.push(view), brain_requested: asked },
            ));
            assert(request is Some <==> !asked && held.len() + 1 >= request_segments && (
            view.voice_fingerprint is Some || exists|i: int|
                0 <= i < held.len() && (#[trigger] held[i]).voice_fingerprint is Some));
            assert(sessions@ == after);
            assert forall|key: Seq<char>| #[trigger] after.contains_key(key) implies {
                &&& after[key].segments.len() > 0
                &&& forall|i: int|
                    0 <= i < after[key].segments.len() ==> (
                    #[trigger] after[key].segments[i]).session_id == key
            } by {
                if key == view.session_id {
                    let old_segments = pending_in(before, key).segments;
                    assert(after[key].segments == old_segments.push(view));
                    assert forall|i: int| 0 <= i < after[key].segments.len() implies (
                    #[trigger] after[key].segments[i]).session_id == key by {
                        if i < old_segments.len() {
                            assert(before.contains_key(key));
                            assert(old_segments[i].session_id == key);
                        }
                    }
                } else {
                    assert(before.contains_key(key));
                }
            }
        }
        self.sessions = sessions;
        request
    }

    /// Notes that the brain has been asked about a session.
    pub fn mark_brain_requested(&mut self, session_id: &str)
        ensures
            final(self)@ == with_brain_asked(old(self)@, session_id@),
            sessions_are_kept_apart(final(self)@),
    {
        proof {
            use_type_invariant(&*self);
        }
        let mut sessions: StringMap<PendingSession> = StringMap::new();
        core::mem::swap(&mut self.sessions, &mut sessions);
        let ghost before = sessions@;
        if let Some(session) = sessions.remove(session_id) {
            sessions.insert(session_id.to_owned(), session.with_brain_requested());
        }
        proof {
            let after = with_brain_asked(before, session_id@);
            assert(sessions@ == after);
            assert forall|key: Seq<char>| #[trigger] after.contains_key(key) implies {
                &&& after[key].segments.len() > 0
                &&& forall|i: int|
                    0 <= i < after[key].segments.len() ==> (
                    #[trigger] after[key].segments[i]).session_id == key
            } by {
                assert(before.contains_key(key));
            }
        }
        self.sessions = sessions;
    }

    /// Lets go of all that is held back of a session.
    pub fn remove(&mut self, session_id: &str) -> (r: Option<PendingSession>)
        ensures
            final(self)@ == old(self)@.remove(session_id@),
            sessions_are_kept_apart(final(self)@),
            match r {
                Some(session) => old(self)@.contains_key(session_id@) && session@ == old(
                    self,
                )@[session_id@],
                None => !old(self)@.contains_key(session_id@),
            },
    {
        proof {
            use_type_invariant(&*self);
        }
        let mut sessions: StringMap<PendingSession> = StringMap::new();
        core::mem::swap(&mut self.sessions, &mut sessions);
        let ghost before = sessions@;
        let session = sessions.remove(session_id);
        proof {
            let after = before.remove(session_id@);
            assert forall|key: Seq<char>| #[trigger] after.contains_key(key) implies {
                &&& after[key].segments.len() > 0
                &&& forall|i: int|
                    0 <= i < after[key].segments.len() ==> (
                    #[trigger] after[key].segments[i]).session_id == key
            } by {
                assert(before.contains_key(key));
            }
        }
        self.sessions = sessions;
        session
    }
}

/// What is to be done next about a segment that came in.
#[derive(Debug)]
pub enum SegmentStep {
    /// Send the segment to those who listen.
    Emit(TranscriptionSegment),
    /// Search the memory for the voice of the segment.
    MatchVoice(TranscriptionSegment),
    /// Ask the brain.
    Dispatch(BrainIdentityRequest),
    /// The segment is dealt with: acknowledge the message that it came in.
    Acknowledge,
}

/// How a step ended.
#[derive(Debug)]
pub enum StepOutcome {
    /// It was done.
    Done,
    /// The memory was searched, with what it found.
    Searched(Option<MatchedVoice>),
    /// It failed.
    Failed,
}

/// Tells whether holding back a segment has led to the given step.
pub open spec fn held_back(
    before: Map<Seq<char>, PendingView>,
    segment: SegmentView,
    request_segments: nat,
    after: Map<Seq<char>, PendingView>,
    step: SegmentStep,
) -> bool {
    let session = pending_in(after, segment.session_id);
    &&& after == with_pending_segment(before, segment)
    &&& match step {
        SegmentStep::Dispatch(request) => wants_brain(session, request_segments) && asks_about(
            request,
            segment.session_id,
            session,
        ),
        SegmentStep::Acknowledge => !wants_brain(session, request_segments),
        _ => false,
    }
}

/// Listens to the stream of segments.
#[derive(Debug, Clone)]
pub struct StreamListener {
    config: QueueConfig,
    has_memory: bool,
}

impl StreamListener {
    /// The settings.
    pub closed spec fn settings(self) -> QueueConfig {
        self.config
    }

    /// Tells whether there is a memory to be searched.
    pub closed spec fn remembers(self) -> bool {
        self.has_memory
    }

    /// A buffer that holds nothing back.
    pub fn new_pending() -> (r: PendingIdentityBuffer)
        ensures
            r@ == Map::<Seq<char>, PendingView>::empty(),
    {
        PendingIdentityBuffer::new()
    }

    /// A listener with the given settings, with a memory or without.
    pub fn new(config: QueueConfig, has_memory: bool) -> (r: Self)
        ensures
            r.settings() == config,
            r.remembers() == has_memory,
    {
        StreamListener { config, has_memory }
    }

    /// The settings.
    pub fn config(&self) -> (r: &QueueConfig)
        ensures
            *r == self.settings(),
    {
        &self.config
    }

    /// Begins with a segment that came in: one without a voice is sent on, one with a voice is
    /// searched for in the memory, or held back where there is no memory.
    pub fn process_segment(
        &self,
        pending: &mut PendingIdentityBuffer,
        segment: TranscriptionSegment,
    ) -> (r: SegmentStep)
        ensures
            if segment@.voice_fingerprint is None {
                &&& r matches SegmentStep::Emit(sent) && sent@ == segment@
                &&& final(pending)@ == old(pending)@
            } else if self.remembers() {
                &&& r matches SegmentStep::MatchVoice(sought) && sought@ == segment@
                &&& final(pending)@ == old(pending)@
            } else {
                held_back(
                    old(pending)@,
                    segment@,
                    self.settings().brain_request_segments as nat,
                    final(pending)@,
                    r,
                )
            },
    {
        if segment.voice_fingerprint.is_none() {
            return SegmentStep::Emit(segment);
        }
        if !self.has_memory {
            return self.buffer_unknown_segment(pending, segment);
        }
        SegmentStep::MatchVoice(segment)
    }

    /// Holds back a segment of an unknown speaker.
    pub fn buffer_unknown_segment(
        &self,
        pending: &mut PendingIdentityBuffer,
        segment: TranscriptionSegment,
    ) -> (r: SegmentStep)
        ensures
            held_back(
                old(pending)@,
                segment@,
                self.settings().brain_request_segments as nat,
                final(pending)@,
                r,
            ),
    {
        match pending.push(segment, self.config.brain_request_segments) {
            Some(request) => SegmentStep::Dispatch(request),
            None => SegmentStep::Acknowledge,
        }
    }

    /// Goes on after a step. Where the step failed, nothing follows: the message stays
    /// unacknowledged and will be read again.
    pub fn advance(
        &self,
        pending: &mut PendingIdentityBuffer,
        step: SegmentStep,
        outcome: StepOutcome,
    ) -> (r: Option<SegmentStep>)
        ensures
            match (step, outcome) {
                (SegmentStep::Emit(_), StepOutcome::Done) => r == Some(SegmentStep::Acknowledge)
                    && final(pending)@ == old(pending)@,
                (SegmentStep::Dispatch(request), StepOutcome::Done) => r == Some(
                    SegmentStep::Acknowledge,
                ) && final(pending)@ == with_brain_asked(old(pending)@, request.session_id@),
                (SegmentStep::MatchVoice(segment), StepOutcome::Searched(Some(voice))) => {
                    &&& r matches Some(SegmentStep::Emit(sent)) && sent@ == (SegmentView {
                        identified_name: Some(voice.name@),
                        ..segment@
                    })
                    &&& final(pending)@ == old(pending)@
                },
                (SegmentStep::MatchVoice(segment), StepOutcome::Searched(None)) => r is Some
                    && held_back(
                    old(pending)@,
                    segment@,
                    self.settings().brain_request_segments as nat,
                    final(pending)@,
                    r->0,
                ),
                _ => r is None && final(pending)@ == old(pending)@,
            },
    {
        match (step, outcome) {
            (SegmentStep::Emit(_), StepOutcome::Done) => Some(SegmentStep::Acknowledge),
            (SegmentStep::Dispatch(request), StepOutcome::Done) => {
                pending.mark_brain_requested(request.session_id.as_str());
                Some(SegmentStep::Acknowledge)
            },
            (SegmentStep::MatchVoice(segment), StepOutcome::Searched(Some(voice))) => {
                Some(SegmentStep::Emit(segment.with_identified_name(voice.name.as_str())))
            },
            (SegmentStep::MatchVoice(segment), StepOutcome::Searched(None)) => Some(
                self.buffer_unknown_segment(pending, segment),
            ),
            _ => None,
        }
    }
}

/// The segments of a speaker that have no name yet, in their order, with the given name.
pub open spec fn replays(
    segments: Seq<SegmentView>,
    speaker_tag: Seq<char>,
    name: Seq<char>,
) -> Seq<SegmentView>
    decreases segments.len(),
{
    if segments.len() == 0 {
        seq![]
    } else {
        let before = replays(segments.drop_last(), speaker_tag, name);
        let segment = segments.last();
        if segment.speaker_tag == speaker_tag && segment.identified_name is None {
            before.push(SegmentView { identified_name: Some(name), ..segment })
        } else {
            before
        }
    }
}

/// Something that follows from a name that the brain found.
#[derive(Debug)]
pub enum ResolutionEffect {
    /// Store the voice under the name.
    Upsert(VoiceIdentityUpsert),
    /// Tell those who listen that the speaker is named.
    Announce(IdentityResolved),
    /// Send a segment that was held back to those who listen.
    Replay(TranscriptionSegment),
}

/// The contents of something that follows from a name.
pub enum EffectView {
    Upsert(UpsertView),
    Announce(ResolvedView),
    Replay(SegmentView),
}

impl View for ResolutionEffect {
    type V = EffectView;

    open spec fn view(&self) -> EffectView {
        match self {
            ResolutionEffect::Upsert(upsert) => EffectView::Upsert(upsert@),
            ResolutionEffect::Announce(event) => EffectView::Announce(event@),
            ResolutionEffect::Replay(segment) => EffectView::Replay(segment@),
        }
    }
}

/// The contents of a list of things that follow.
pub open spec fn effect_views(effects: Seq<ResolutionEffect>) -> Seq<EffectView> {
    effects.map_values(|e: ResolutionEffect| e@)
}

/// What follows from the name of one speaker: nothing where no voice of the speaker was heard.
pub open spec fn effects_of_name(
    session_id: Seq<char>,
    segments: Seq<SegmentView>,
    speaker_tag: Seq<char>,
    name: Seq<char>,
) -> Seq<EffectView> {
    if voices_of(segments).contains_key(speaker_tag) {
        seq![
            EffectView::Upsert(
                UpsertView {
                    session_id,
                    speaker_tag,
                    name,
                    fingerprint: voices_of(segments)[speaker_tag],
                    confidence: DEFAULT_BRAIN_CONFIDENCE_THRESHOLD,
                    source: IdentitySource::BrainReasoning,
                },
            ),
            EffectView::Announce(
                ResolvedView {
                    event_type: "IdentityResolved"@,
                    session_id,
                    speaker_tag,
                    name,
                    confidence: DEFAULT_BRAIN_CONFIDENCE_THRESHOLD,
                    source: IdentitySource::BrainReasoning,
                },
            ),
        ] + replays(segments, speaker_tag, name).map_values(|s: SegmentView| EffectView::Replay(s))
    } else {
        seq![]
    }
}

/// What follows from the names of speakers, one after the other.
pub open spec fn effects_of_names(
    session_id: Seq<char>,
    segments: Seq<SegmentView>,
    names: Seq<(Seq<char>, Seq<char>)>,
) -> Seq<EffectView>
    decreases names.len(),
{
    if names.len() == 0 {
        seq![]
    } else {
        effects_of_names(session_id, segments, names.drop_last()) + effects_of_name(
            session_id,
            segments,
            names.last().0,
            names.last().1,
        )
    }
}

/// What becomes of an answer of the brain.
#[derive(Debug)]
pub enum Resolution {
    /// Nothing is held back of the session.
    NotPending,
    /// There is no memory to store voices in; what was held back is dropped.
    NoMemory,
    /// These things are to be done, in this order.
    Apply(Vec<ResolutionEffect>),
}

impl PendingSession {
    /// The segments of a speaker that have no name yet, with the given name.
    fn replay_buffered_segments(&self, speaker_tag: &str, name: &str) -> (r: Vec<
        TranscriptionSegment,
    >)
        ensures
            segment_views(r@) == replays(self@.segments, speaker_tag@, name@),
    {
        let ghost all = segment_views(self.segments@);
        let n: usize = self.segments.len();
        let mut out: Vec<TranscriptionSegment> = Vec::new();
        let mut i: usize = 0;
        assert(all.take(0) == Seq::<SegmentView>::empty());
        assert(segment_views(out@) == replays(all.take(0), speaker_tag@, name@));
        while i < n
            invariant
                n == self.segments.len(),
                i <= n,
                all == segment_views(self.segments@),
                segment_views(out@) == replays(all.take(i as int), speaker_tag@, name@),
            decreases n - i,
        {
            let segment = &self.segments[i];
            let ghost before = segment_views(out@);
            assert(all.take(i + 1).drop_last() == all.take(i as int));
            assert(all.take(i + 1).last() == segment@);
            if text::same_text(segment.speaker_tag.as_str(), speaker_tag)
                && segment.identified_name.is_none() {
                let named = segment.clone().with_identified_name(name);
                out.push(named);
                assert(segment_views(out@) == before.push(named@));
            }
            i = i + 1;
        }
        assert(all.take(n as int) == all);
        out
    }

    /// Adds what follows from the name of one speaker.
    fn resolve(
        &self,
        session_id: &str,
        speaker_tag: &str,
        name: &str,
        effects: &mut Vec<ResolutionEffect>,
    )
        ensures
            effect_views(final(effects)@) == effect_views(old(effects)@) + effects_of_name(
                session_id@,
                self@.segments,
                speaker_tag@,
                name@,
            ),
    {
        proof {
            use_type_invariant(self);
        }
        let ghost start = effect_views(effects@);
        let ghost all = self@.segments;
        if let Some(fingerprint) = self.fingerprints.get(speaker_tag) {
            let upsert = VoiceIdentityUpsert {
                session_id: session_id.to_owned(),
                speaker_tag: speaker_tag.to_owned(),
                name: name.to_owned(),
                fingerprint: fingerprint.clone(),
                confidence: DEFAULT_BRAIN_CONFIDENCE_THRESHOLD,
                source: IdentitySource::BrainReasoning,
            };
            let event = IdentityResolved::new(
                session_id,
                speaker_tag,
                name,
                DEFAULT_BRAIN_CONFIDENCE_THRESHOLD,
                IdentitySource::BrainReasoning,
            );
            let ghost head = seq![EffectView::Upsert(upsert@), EffectView::Announce(event@)];
            effects.push(ResolutionEffect::Upsert(upsert));
            effects.push(ResolutionEffect::Announce(event));
            assert(effect_views(effects@) == start + head);
            let replayed = self.replay_buffered_segments(speaker_tag, name);
            let ghost tail = replays(all, speaker_tag@, name@);
            let n: usize = replayed.len();
            let mut i: usize = 0;
            assert(start + head == start + head + tail.take(0).map_values(
                |s: SegmentView| EffectView::Replay(s),
            ));
            while i < n
                invariant
                    n == replayed.len(),
                    i <= n,
                    tail == segment_views(replayed@),
                    effect_views(effects@) == start + head + tail.take(i as int).map_values(
                        |s: SegmentView| EffectView::Replay(s),
                    ),
                decreases n - i,
            {
                let ghost before = effect_views(effects@);
                let segment = replayed[i].clone();
                effects.push(ResolutionEffect::Replay(segment));
                proof {
                    assert(effect_views(effects@) == before.push(EffectView::Replay(tail[i as int])));
                    assert(tail.take(i + 1) == tail.take(i as int).push(tail[i as int]));
                    assert(tail.take(i + 1).map_values(|s: SegmentView| EffectView::Replay(s))
                        == tail.take(i as int).map_values(
                        |s: SegmentView| EffectView::Replay(s),
                    ).push(EffectView::Replay(tail[i as int])));
                }
                i = i + 1;
            }
            assert(tail.take(n as int) == tail);
            assert(effect_views(effects@) == start + effects_of_name(
                session_id@,
                all,
                speaker_tag@,
                name@,
            ));
        } else {
            assert(effect_views(effects@) == start + effects_of_name(
                session_id@,
                all,
                speaker_tag@,
                name@,
            ));
        }
    }
}

/// Listens to the answers of the brain.
#[derive(Debug, Clone)]
pub struct BrainResolutionListener {
    config: QueueConfig,
    has_memory: bool,
}

impl BrainResolutionListener {
    /// The settings.
    pub closed spec fn settings(self) -> QueueConfig {
        self.config
    }

    /// Tells whether there is a memory to store voices in.
    pub closed spec fn remembers(self) -> bool {
        self.has_memory
    }

    /// A listener with the given settings, with a memory or without.
    pub fn new(config: QueueConfig, has_memory: bool) -> (r: Self)
        ensures
            r.settings() == config,
            r.remembers() == has_memory,
    {
        BrainResolutionListener { config, has_memory }
    }

    /// The settings.
    pub fn config(&self) -> (r: &QueueConfig)
        ensures
            *r == self.settings(),
    {
        &self.config
    }

    /// Works out what follows from an answer of the brain. All that was held back of the session
    /// is let go.
    pub fn handle_resolution(
        &self,
        pending: &mut PendingIdentityBuffer,
        response: &BrainIdentityResponse,
    ) -> (r: Resolution)
        ensures
            final(pending)@ == old(pending)@.remove(response.session_id@),
            sessions_are_kept_apart(final(pending)@),
            match r {
                Resolution::NotPending => !old(pending)@.contains_key(response.session_id@),
                Resolution::NoMemory => old(pending)@.contains_key(response.session_id@)
                    && !self.remembers(),
                Resolution::Apply(effects) => {
                    &&& old(pending)@.contains_key(response.session_id@)
                    &&& self.remembers()
                    &&& effect_views(effects@) == effects_of_names(
                        response.session_id@,
                        old(pending)@[response.session_id@].segments,
                        response.identities.in_order(),
                    )
                },
            },
    {
        let session = match pending.remove(response.session_id.as_str()) {
            Some(session) => session,
            None => {
                return Resolution::NotPending;
            },
        };
        if !self.has_memory {
            return Resolution::NoMemory;
        }
        let ghost names = response.identities.in_order();
        let ghost segments = session@.segments;
        let n: usize = response.identities.len();
        let mut effects: Vec<ResolutionEffect> = Vec::new();
        let mut i: usize = 0;
        assert(names.take(0) == Seq::<(Seq<char>, Seq<char>)>::empty());
        assert(effect_views(effects@) == effects_of_names(
            response.session_id@,
            segments,
            names.take(0),
        ));
        while i < n
            invariant
                n == names.len(),
                i <= n,
                names == response.identities.in_order(),
                segments == session@.segments,
                effect_views(effects@) == effects_of_names(
                    response.session_id@,
                    segments,
                    names.take(i as int),
                ),
            decreases n - i,
        {
            let (speaker_tag, name) = response.identities.entry(i);
            assert(names.take(i + 1).drop_last() == names.take(i as int));
            assert(names.take(i + 1).last() == names[i as int]);
            session.resolve(
                response.session_id.as_str(),
                speaker_tag.as_str(),
                name.as_str(),
                &mut effects,
            );
            i = i + 1;
        }
        assert(names.take(n as int) == names);
        Resolution::Apply(effects)
    }
}

/// What a client that follows the transcript, or what it follows, has come up with.
#[derive(Debug)]
pub enum LiveEvent {
    /// A segment or an event came in and was encoded.
    Encoded(String),
    /// A segment or an event came in and could not be encoded.
    EncodeFailed,
    /// The client fell behind, and some segments or events were lost.
    Lagged,
    /// No more segments or events will come.
    FeedClosed,
    /// A message has been sent.
    Sent,
    /// A message could not be sent.
    SendFailed,
    /// The client closed the connection, or it ended.
    ClientClosed,
    /// The client sent something else.
    ClientMessage,
    /// The connection could not be read.
    ClientFailed,
}

/// What is to be done for a client that follows the transcript.
#[derive(Debug)]
pub enum LiveAction {
    /// Send a message.
    Send(String),
    /// Wait for what comes next.
    Wait,
    /// Close the connection with the given code and reason.
    Close { code: u16, reason: &'static str },
}

/// Serves a client that follows the transcript.
pub fn handle_live_socket(event: LiveEvent) -> (r: LiveAction)
    ensures
        match event {
            LiveEvent::Encoded(payload) => r matches LiveAction::Send(message) && message
                == payload,
            LiveEvent::EncodeFailed
            | LiveEvent::Lagged
            | LiveEvent::Sent
            | LiveEvent::ClientMessage => r is Wait,
            LiveEvent::FeedClosed
            | LiveEvent::SendFailed
            | LiveEvent::ClientClosed
            | LiveEvent::ClientFailed => r matches LiveAction::Close { code, reason } && code
                == 1000 && reason@ == "live transcript stream closed"@,
        },
{
    match event {
        LiveEvent::Encoded(payload) => LiveAction::Send(payload),
        LiveEvent::EncodeFailed
        | LiveEvent::Lagged
        | LiveEvent::Sent
        | LiveEvent::ClientMessage => LiveAction::Wait,
        LiveEvent::FeedClosed
        | LiveEvent::SendFailed
        | LiveEvent::ClientClosed
        | LiveEvent::ClientFailed => LiveAction::Close {
            code: 1000,
            reason: "live transcript stream closed",
        },
    }
}

/// From where the stream is to be read: from the start of what is unacknowledged, where there is
/// such a message, and otherwise from what is new.
pub fn pending_start_id(unacknowledged: usize) -> (r: &'static str)
    ensures
        r@ == if unacknowledged > 0 {
            "0"@
        } else {
            ">"@
        },
{
    if unacknowledged > 0 {
        "0"
    } else {
        ">"
    }
}

/// Tells whether an error says that the consumer group exists already.
pub fn is_busy_group(is_response_error: bool, message: &str) -> (r: bool)
    ensures
        r == (is_response_error && text::has_substring(message@, "BUSYGROUP"@)),
{
    is_response_error && text::contains(message, "BUSYGROUP")
}

/// Tells whether a segment can be told from its line: the tag holds no colon, and neither the tag
/// nor the text breaks the line.
pub open spec fn fits_on_a_line(segment: SegmentView) -> bool {
    &&& !segment.speaker_tag.contains(':')
    &&& !segment.speaker_tag.contains('\n')
    &&& !segment.text.contains('\n')
}

proof fn lemma_line_reads_back(segment: SegmentView)
    requires
        fits_on_a_line(segment),
    ensures
        !transcript_line(segment).contains('\n'),
        text::trimmed(transcript_line(segment)).len() > 0,
        brain::speaker_line(text::trimmed(transcript_line(segment))) == (
            text::trimmed(segment.speaker_tag),
            text::trimmed(segment.text),
        ),
{
    reveal_strlit(": ");
    let tag = segment.speaker_tag;
    let line = transcript_line(segment);
    let words = seq![' '] + segment.text;
    assert(": "@ == seq![':', ' ']);
    assert(line == tag + (seq![':'] + words));
    if line.contains('\n') {
        let i = choose|i: int| 0 <= i < line.len() && line[i] == '\n';
        if i < tag.len() {
            assert(tag[i] == '\n');
        } else if i >= tag.len() + 2 {
            assert(segment.text[i - tag.len() - 2] == '\n');
        }
    }
    text::lemma_trim_start_append(tag, seq![':'] + words);
    let head = text::trim_start(tag) + seq![':'];
    assert(text::trim_start(line) == head + words);
    text::lemma_trim_end_append(head, words);
    let rest = text::trim_end(words);
    assert(text::trimmed(line) == text::trim_start(tag) + seq![':'] + rest);
    lemma_trim_start_part(tag);
    text::lemma_cut(text::trim_start(tag), ':', rest);
    text::lemma_trim_again(tag);
    text::lemma_trim_again(words);
    assert(words.drop_first() == segment.text);
    assert(text::trim_start(words) == text::trim_start(segment.text));
}

proof fn lemma_trim_start_part(s: Seq<char>)
    ensures
        forall|c: char| #[trigger] text::trim_start(s).contains(c) ==> s.contains(c),
    decreases s.len(),
{
    if s.len() > 0 {
        lemma_trim_start_part(s.drop_first());
        assert forall|c: char| #[trigger] text::trim_start(s).contains(c) implies s.contains(c) by {
            if text::white_space(s.first()) {
                assert(text::trim_start(s.drop_first()).contains(c));
                let i = choose|i: int| 0 <= i < s.drop_first().len() && s.drop_first()[i] == c;
                assert(s[i + 1] == c);
            }
        }
    }
}

/// The brain reads from a transcript what was said: of each segment, in order, the speaker and
/// the words, without white space around them.
pub proof fn brain_reads_what_was_said(segments: Seq<SegmentView>)
    requires
        forall|i: int| 0 <= i < segments.len() ==> fits_on_a_line(#[trigger] segments[i]),
    ensures
        brain::transcript_lines(transcript_of(segments)) == segments.map_values(
            |s: SegmentView| (text::trimmed(s.speaker_tag), text::trimmed(s.text)),
        ),
    decreases segments.len(),
{
    let read = |s: SegmentView| (text::trimmed(s.speaker_tag), text::trimmed(s.text));
    if segments.len() == 0 {
        let none = Seq::<char>::empty();
        text::lemma_pieces_whole(none, '\n');
        let lines = seq![none];
        assert(lines.drop_last() == Seq::<Seq<char>>::empty());
        assert(brain::spoken_lines(lines.drop_last()) == Seq::<(Seq<char>, Seq<char>)>::empty());
        assert(segments.map_values(read) == Seq::<(Seq<char>, Seq<char>)>::empty());
    } else {
        let last = segments.last();
        let line = transcript_line(last);
        lemma_line_reads_back(last);
        if segments.len() == 1 {
            text::lemma_pieces_whole(line, '\n');
            let lines = seq![line];
            assert(lines.drop_last() == Seq::<Seq<char>>::empty());
            assert(brain::spoken_lines(lines.drop_last()) == Seq::<(Seq<char>, Seq<char>)>::empty());
            assert(segments.map_values(read) == seq![read(last)]);
        } else {
            let before = segments.drop_last();
            assert forall|i: int| 0 <= i < before.len() implies fits_on_a_line(
                #[trigger] before[i],
            ) by {
                assert(fits_on_a_line(segments[i]));
            }
            brain_reads_what_was_said(before);
            reveal_strlit("\n");
            assert("\n"@ == seq!['\n']);
            let lines = text::pieces(transcript_of(before), '\n');
            text::lemma_pieces_append(transcript_of(before), '\n', line);
            assert(lines.push(line).drop_last() == lines);
            assert(segments.map_values(read) == before.map_values(read).push(read(last)));
        }
    }
}

/// Holding back a segment leaves every other session as it is.
pub proof fn other_sessions_are_left_alone(
    sessions: Map<Seq<char>, PendingView>,
    segment: SegmentView,
    other: Seq<char>,
)
    requires
        other != segment.session_id,
    ensures
        pending_in(with_pending_segment(sessions, segment), other) == pending_in(sessions, other),
        pending_in(with_brain_asked(sessions, segment.session_id), other) == pending_in(
            sessions,
            other,
        ),
        pending_in(sessions.remove(segment.session_id), other) == pending_in(sessions, other),
{
}

/// A segment that was held back is there, behind what was held back of its session before.
pub proof fn held_back_segment_is_kept(
    before: Map<Seq<char>, PendingView>,
    segment: SegmentView,
    request_segments: nat,
    after: Map<Seq<char>, PendingView>,
    step: SegmentStep,
)
    requires
        held_back(before, segment, request_segments, after, step),
    ensures
        after.contains_key(segment.session_id),
        after[segment.session_id].segments == pending_in(before, segment.session_id).segments.push(
            segment,
        ),
        step is Dispatch || step is Acknowledge,
{
}

/// What is held back of a session once further segments have been put to it.
pub open spec fn with_pending_segments(
    sessions: Map<Seq<char>, PendingView>,
    segments: Seq<SegmentView>,
) -> Map<Seq<char>, PendingView>
    decreases segments.len(),
{
    if segments.len() == 0 {
        sessions
    } else {
        with_pending_segment(with_pending_segments(sessions, segments.drop_last()), segments.last())
    }
}

/// Once the brain has been asked about a session, it is not asked again, however much more is
/// held back.
pub proof fn brain_is_asked_once(
    sessions: Map<Seq<char>, PendingView>,
    id: Seq<char>,
    segments: Seq<SegmentView>,
    request_segments: nat,
)
    requires
        sessions.contains_key(id),
    ensures
        ({
            let asked = with_pending_segments(with_brain_asked(sessions, id), segments);
            &&& asked.contains_key(id)
            &&& asked[id].brain_requested
            &&& !wants_brain(asked[id], request_segments)
        }),
    decreases segments.len(),
{
    if segments.len() > 0 {
        brain_is_asked_once(sessions, id, segments.drop_last(), request_segments);
    }
}

/// The voice that is kept of a speaker is the first that was heard, and later segments do not
/// change it.
pub proof fn first_voice_is_kept(segments: Seq<SegmentView>, tag: Seq<char>)
    ensures
        voices_of(segments).contains_key(tag) <==> exists|i: int|
            0 <= i < segments.len() && (#[trigger] segments[i]).speaker_tag == tag
                && segments[i].voice_fingerprint is Some,
        voices_of(segments).contains_key(tag) ==> exists|i: int|
            {
                &&& 0 <= i < segments.len()
                &&& (#[trigger] segments[i]).speaker_tag == tag
                &&& segments[i].voice_fingerprint == Some(voices_of(segments)[tag])
                &&& forall|j: int|
                    0 <= j < i ==> (#[trigger] segments[j]).speaker_tag != tag
                        || segments[j].voice_fingerprint is None
            },
    decreases segments.len(),
{
    if segments.len() > 0 {
        let before = segments.drop_last();
        let n = before.len() as int;
        first_voice_is_kept(before, tag);
        if voices_of(before).contains_key(tag) {
            let i = choose|i: int|
                {
                    &&& 0 <= i < before.len()
                    &&& (#[trigger] before[i]).speaker_tag == tag
                    &&& before[i].voice_fingerprint == Some(voices_of(before)[tag])
                    &&& forall|j: int|
                        0 <= j < i ==> (#[trigger] before[j]).speaker_tag != tag
                            || before[j].voice_fingerprint is None
                };
            assert(segments[i] == before[i]);
            assert forall|j: int| 0 <= j < i implies (#[trigger] segments[j]).speaker_tag != tag
                || segments[j].voice_fingerprint is None by {
                assert(before[j] == segments[j]);
            }
        } else {
            assert forall|j: int| 0 <= j < n implies (#[trigger] segments[j]).speaker_tag != tag
                || segments[j].voice_fingerprint is None by {
                assert(before[j] == segments[j]);
            }
            if voices_of(segments).contains_key(tag) {
                assert(segments[n].speaker_tag == tag);
            }
        }
    }
}

/// Of a named speaker, all and only the segments without a name are replayed, and nothing about
/// them is changed but the name.
pub proof fn replays_change_only_the_name(
    segments: Seq<SegmentView>,
    tag: Seq<char>,
    name: Seq<char>,
)
    ensures
        forall|k: int|
            0 <= k < replays(segments, tag, name).len() ==> exists|i: int|
                {
                    &&& 0 <= i < segments.len()
                    &&& (#[trigger] segments[i]).speaker_tag == tag
                    &&& segments[i].identified_name is None
                    &&& #[trigger] replays(segments, tag, name)[k] == (SegmentView {
                        identified_name: Some(name),
                        ..segments[i]
                    })
                },
        forall|i: int|
            0 <= i < segments.len() && (#[trigger] segments[i]).speaker_tag == tag
                && segments[i].identified_name is None ==> replays(segments, tag, name).contains(
                (SegmentView { identified_name: Some(name), ..segments[i] }),
            ),
    decreases segments.len(),
{
    if segments.len() > 0 {
        let before = segments.drop_last();
        let fewer = replays(before, tag, name);
        let all = replays(segments, tag, name);
        let n = before.len() as int;
        replays_change_only_the_name(before, tag, name);
        assert forall|k: int| 0 <= k < all.len() implies exists|i: int|
            {
                &&& 0 <= i < segments.len()
                &&& (#[trigger] segments[i]).speaker_tag == tag
                &&& segments[i].identified_name is None
                &&& #[trigger] all[k] == (SegmentView {
                    identified_name: Some(name),
                    ..segments[i]
                })
            } by {
            if k < fewer.len() {
                assert(all[k] == fewer[k]);
                let i = choose|i: int|
                    {
                        &&& 0 <= i < before.len()
                        &&& (#[trigger] before[i]).speaker_tag == tag
                        &&& before[i].identified_name is None
                        &&& fewer[k] == (SegmentView { identified_name: Some(name), ..before[i] })
                    };
                assert(segments[i] == before[i]);
            } else {
                assert(segments[n].speaker_tag == tag);
            }
        }
        assert forall|i: int|
            0 <= i < segments.len() && (#[trigger] segments[i]).speaker_tag == tag
                && segments[i].identified_name is None implies all.contains(
            (SegmentView { identified_name: Some(name), ..segments[i] }),
        ) by {
            let named = SegmentView { identified_name: Some(name), ..segments[i] };
            if i < n {
                assert(before[i] == segments[i]);
                assert(fewer.contains(named));
                let k = choose|k: int| 0 <= k < fewer.len() && fewer[k] == named;
                assert(all[k] == named);
            } else {
                assert(all[all.len() - 1] == named);
            }
        }
    }
}

/// The number of segments that are replayed.
pub open spec fn replay_count(effects: Seq<EffectView>) -> nat
    decreases effects.len(),
{
    if effects.len() == 0 {
        0
    } else {
        replay_count(effects.drop_last()) + if effects.last() is Replay {
            1nat
        } else {
            0
        }
    }
}

/// The number of segments without a name whose speaker is among `names` and has a voice.
pub open spec fn owed_count(
    segments: Seq<SegmentView>,
    voices: Map<Seq<char>, Seq<u32>>,
    names: Seq<(Seq<char>, Seq<char>)>,
) -> nat
    decreases segments.len(),
{
    if segments.len() == 0 {
        0
    } else {
        let segment = segments.last();
        owed_count(segments.drop_last(), voices, names) + if segment.identified_name is None
            && voices.contains_key(segment.speaker_tag) && string_map::entry_keys(names).contains(
            segment.speaker_tag,
        ) {
            1nat
        } else {
            0
        }
    }
}

proof fn lemma_replay_count_append(a: Seq<EffectView>, b: Seq<EffectView>)
    ensures
        replay_count(a + b) == replay_count(a) + replay_count(b),
    decreases b.len(),
{
    if b.len() == 0 {
        assert(a + b == a);
    } else {
        assert((a + b).drop_last() == a + b.drop_last());
        lemma_replay_count_append(a, b.drop_last());
    }
}

proof fn lemma_replay_count_all(segments: Seq<SegmentView>)
    ensures
        replay_count(segments.map_values(|s: SegmentView| EffectView::Replay(s))) == segments.len(),
    decreases segments.len(),
{
    let all = segments.map_values(|s: SegmentView| EffectView::Replay(s));
    if segments.len() > 0 {
        lemma_replay_count_all(segments.drop_last());
        assert(all.drop_last() == segments.drop_last().map_values(
            |s: SegmentView| EffectView::Replay(s),
        ));
    }
}

proof fn lemma_owed_to_one_more(
    segments: Seq<SegmentView>,
    voices: Map<Seq<char>, Seq<u32>>,
    names: Seq<(Seq<char>, Seq<char>)>,
)
    requires
        names.len() > 0,
        string_map::ascending(string_map::entry_keys(names)),
    ensures
        owed_count(segments, voices, names) == owed_count(segments, voices, names.drop_last())
            + if voices.contains_key(names.last().0) {
            replays(segments, names.last().0, names.last().1).len()
        } else {
            0
        },
    decreases segments.len(),
{
    if segments.len() > 0 {
        lemma_owed_to_one_more(segments.drop_last(), voices, names);
        let tag = segments.last().speaker_tag;
        let keys = string_map::entry_keys(names);
        let fewer = string_map::entry_keys(names.drop_last());
        assert(fewer == keys.drop_last());
        assert(keys.last() == names.last().0);
        if fewer.contains(tag) {
            let i = choose|i: int| 0 <= i < fewer.len() && fewer[i] == tag;
            assert(keys[i] == tag);
            string_map::text_less_is_total(keys[i], keys.last());
            assert(string_map::text_less(keys[i], keys[keys.len() - 1]));
        }
        if keys.contains(tag) && !fewer.contains(tag) {
            let i = choose|i: int| 0 <= i < keys.len() && keys[i] == tag;
            if i < fewer.len() {
                assert(fewer[i] == tag);
            }
        }
        if keys.last() == tag {
            assert(keys[keys.len() - 1] == tag);
        }
    }
}

/// Of the segments held back of a session, each one without a name whose speaker the brain has
/// named, and whose speaker has a voice, is replayed exactly once: there are as many replays as
/// there are such segments.
pub proof fn held_back_segments_are_replayed_once(
    session_id: Seq<char>,
    segments: Seq<SegmentView>,
    names: Seq<(Seq<char>, Seq<char>)>,
)
    requires
        string_map::ascending(string_map::entry_keys(names)),
    ensures
        replay_count(effects_of_names(session_id, segments, names)) == owed_count(
            segments,
            voices_of(segments),
            names,
        ),
    decreases names.len(),
{
    let voices = voices_of(segments);
    if names.len() == 0 {
        lemma_nothing_owed(segments, voices, names);
    } else {
        let before = names.drop_last();
        let tag = names.last().0;
        let name = names.last().1;
        assert(string_map::entry_keys(before) == string_map::entry_keys(names).drop_last());
        held_back_segments_are_replayed_once(session_id, segments, before);
        lemma_owed_to_one_more(segments, voices, names);
        let one = effects_of_name(session_id, segments, tag, name);
        lemma_replay_count_append(effects_of_names(session_id, segments, before), one);
        if voices.contains_key(tag) {
            let tail = replays(segments, tag, name).map_values(
                |s: SegmentView| EffectView::Replay(s),
            );
            let head = one.take(2);
            assert(one == head + tail);
            lemma_replay_count_append(head, tail);
            lemma_replay_count_all(replays(segments, tag, name));
            assert(head.drop_last().drop_last() == Seq::<EffectView>::empty());
            reveal_with_fuel(replay_count, 3);
        }
    }
}

proof fn lemma_nothing_owed(
    segments: Seq<SegmentView>,
    voices: Map<Seq<char>, Seq<u32>>,
    names: Seq<(Seq<char>, Seq<char>)>,
)
    requires
        names.len() == 0,
    ensures
        owed_count(segments, voices, names) == 0,
    decreases segments.len(),
{
    if segments.len() > 0 {
        lemma_nothing_owed(segments.drop_last(), voices, names);
    }
}

/// Every speaker whom the brain has named, and who has a voice, is stored under that name with
/// that voice and announced.
pub proof fn named_speakers_are_stored(
    session_id: Seq<char>,
    segments: Seq<SegmentView>,
    names: Seq<(Seq<char>, Seq<char>)>,
    i: int,
)
    requires
        0 <= i < names.len(),
        voices_of(segments).contains_key(names[i].0),
    ensures
        effects_of_names(session_id, segments, names).contains(
            EffectView::Upsert(
                UpsertView {
                    session_id,
                    speaker_tag: names[i].0,
                    name: names[i].1,
                    fingerprint: voices_of(segments)[names[i].0],
                    confidence: DEFAULT_BRAIN_CONFIDENCE_THRESHOLD,
                    source: IdentitySource::BrainReasoning,
                },
            ),
        ),
        effects_of_names(session_id, segments, names).contains(
            EffectView::Announce(
                ResolvedView {
                    event_type: "IdentityResolved"@,
                    session_id,
                    speaker_tag: names[i].0,
                    name: names[i].1,
                    confidence: DEFAULT_BRAIN_CONFIDENCE_THRESHOLD,
                    source: IdentitySource::BrainReasoning,
                },
            ),
        ),
    decreases names.len(),
{
    let all = effects_of_names(session_id, segments, names);
    let before = effects_of_names(session_id, segments, names.drop_last());
    let one = effects_of_name(session_id, segments, names.last().0, names.last().1);
    let n = before.len() as int;
    if i == names.len() - 1 {
        assert(all[n] == one[0]);
        assert(all[n + 1] == one[1]);
    } else {
        named_speakers_are_stored(session_id, segments, names.drop_last(), i);
        assert forall|e: EffectView| before.contains(e) implies #[trigger] all.contains(e) by {
            let k = choose|k: int| 0 <= k < before.len() && before[k] == e;
            assert(all[k] == e);
        }
    }
}

/// A speaker whom the brain has named can be recognised: the voice is stored first of all, and
/// what is stored with it gives a search that finds it the name.
pub proof fn named_speakers_are_known(
    segments: Seq<SegmentView>,
    session_id: Seq<char>,
    tag: Seq<char>,
    name: Seq<char>,
    confidence: Option<serde_json::Number>,
)
    requires
        voices_of(segments).contains_key(tag),
    ensures
        effects_of_name(session_id, segments, tag, name)[0] matches EffectView::Upsert(upsert)
            && upsert.fingerprint == voices_of(segments)[tag] && storage::stored_name(
            JsonTree::Object(storage::voice_payload(upsert, confidence)),
        ) == Some(name),
{
    let effect = effects_of_name(session_id, segments, tag, name)[0];
    storage::stored_voice_is_recognised(effect->Upsert_0, confidence);
}

proof fn lemma_some_voice(segments: Seq<SegmentView>)
    ensures
        voices_of(segments) != Map::<Seq<char>, Seq<u32>>::empty() <==> exists|i: int|
            0 <= i < segments.len() && (#[trigger] segments[i]).voice_fingerprint is Some,
{
    let voices = voices_of(segments);
    if exists|i: int|
        0 <= i < segments.len() && (#[trigger] segments[i]).voice_fingerprint is Some {
        let i = choose|i: int|
            0 <= i < segments.len() && (#[trigger] segments[i]).voice_fingerprint is Some;
        first_voice_is_kept(segments, segments[i].speaker_tag);
        assert(voices.contains_key(segments[i].speaker_tag));
    }
    if voices != Map::<Seq<char>, Seq<u32>>::empty() {
        if forall|tag: Seq<char>| !(#[trigger] voices.contains_key(tag)) {
            assert(voices == Map::<Seq<char>, Seq<u32>>::empty());
        }
        let tag = choose|tag: Seq<char>| #[trigger] voices.contains_key(tag);
        first_voice_is_kept(segments, tag);
    }
}

/// The brain is asked in time: once `request_segments` segments of a session have been put to an
/// empty buffer and one of them has a voice, it is to be asked, however many there are; with fewer
/// segments, or without a voice, it is not.
pub proof fn brain_is_asked_in_time(
    id: Seq<char>,
    segments: Seq<SegmentView>,
    request_segments: nat,
)
    requires
        segments.len() > 0,
        forall|i: int| 0 <= i < segments.len() ==> (#[trigger] segments[i]).session_id == id,
    ensures
        ({
            let sessions = with_pending_segments(Map::empty(), segments);
            let voiced = exists|i: int|
                0 <= i < segments.len() && (#[trigger] segments[i]).voice_fingerprint is Some;
            &&& sessions == Map::<Seq<char>, PendingView>::empty().insert(
                id,
                PendingView { segments, brain_requested: false },
            )
            &&& segments.len() >= request_segments && voiced ==> wants_brain(
                sessions[id],
                request_segments,
            )
            &&& segments.len() < request_segments || !voiced ==> !wants_brain(
                sessions[id],
                request_segments,
            )
        }),
    decreases segments.len(),
{
    let none = Map::<Seq<char>, PendingView>::empty();
    let before = segments.drop_last();
    let sessions = with_pending_segments(none, segments);
    assert(segments == before.push(segments.last()));
    assert(segments[segments.len() - 1].session_id == id);
    if before.len() > 0 {
        assert forall|i: int| 0 <= i < before.len() implies (#[trigger] before[i]).session_id
            == id by {
            assert(segments[i].session_id == id);
        }
        brain_is_asked_in_time(id, before, request_segments);
    } else {
        assert(before == Seq::<SegmentView>::empty());
    }
    assert(sessions[id] == (PendingView { segments, brain_requested: false }));
    assert(sessions == none.insert(id, PendingView { segments, brain_requested: false }));
    lemma_some_voice(segments);
}

/// Holding back a segment leads to a request if and only if the brain has not been asked about the
/// session, enough segments of it are held back with this one, and one of them has a voice.
/// Otherwise the message is acknowledged.
pub proof fn holding_back_asks_in_time(
    before: Map<Seq<char>, PendingView>,
    segment: SegmentView,
    request_segments: nat,
    after: Map<Seq<char>, PendingView>,
    step: SegmentStep,
)
    requires
        held_back(before, segment, request_segments, after, step),
    ensures
        ({
            let id = segment.session_id;
            let asked = before.contains_key(id) && before[id].brain_requested;
            let held = if before.contains_key(id) {
                before[id].segments
            } else {
                Seq::<SegmentView>::empty()
            };
            &&& after == before.insert(
                id,
                PendingView { segments: held.push(segment), brain_requested: asked },
            )
            &&& step is Dispatch <==> {
                &&& !asked
                &&& held.len() + 1 >= request_segments
                &&& segment.voice_fingerprint is Some || before.contains_key(id) && exists|i: int|
                    0 <= i < before[id].segments.len() && (
                    #[trigger] before[id].segments[i]).voice_fingerprint is Some
            }
            &&& step is Dispatch || step is Acknowledge
            &&& step matches SegmentStep::Dispatch(request) ==> request.session_id@ == id
                && request.transcript@ == transcript_of(held.push(segment))
        }),
{
    let id = segment.session_id;
    let held = pending_in(before, id).segments;
    let asked = pending_in(before, id).brain_requested;
    lemma_voice_in_all(held, segment);
    assert(after == before.insert(
        id,
        PendingView { segments: held.push(segment), brain_requested: asked },
    ));
    assert(after[id] == (PendingView { segments: held.push(segment), brain_requested: asked }));
}

proof fn lemma_voice_in_all(held: Seq<SegmentView>, segment: SegmentView)
    ensures
        voices_of(held.push(segment)) != Map::<Seq<char>, Seq<u32>>::empty() <==> (
        segment.voice_fingerprint is Some || exists|i: int|
            0 <= i < held.len() && (#[trigger] held[i]).voice_fingerprint is Some),
{
    let all = held.push(segment);
    lemma_some_voice(all);
    if exists|i: int| 0 <= i < all.len() && (#[trigger] all[i]).voice_fingerprint is Some {
        let i = choose|i: int|
            0 <= i < all.len() && (#[trigger] all[i]).voice_fingerprint is Some;
        if i < held.len() {
            assert(held[i].voice_fingerprint is Some);
        }
    }
    if segment.voice_fingerprint is Some {
        assert(all[held.len() as int].voice_fingerprint is Some);
    } else if exists|i: int| 0 <= i < held.len() && (#[trigger] held[i]).voice_fingerprint is Some {
        let i = choose|i: int|
            0 <= i < held.len() && (#[trigger] held[i]).voice_fingerprint is Some;
        assert(all[i].voice_fingerprint is Some);
    }
}

/// A request names the session, lists each speaker of whom a voice was heard and nobody else, in
/// ascending order, and holds all that was said.
pub proof fn request_lists_the_voices_heard(
    request: BrainIdentityRequest,
    id: Seq<char>,
    session: PendingView,
)
    requires
        asks_about(request, id, session),
    ensures
        request.session_id@ == id,
        request.transcript@ == transcript_of(session.segments),
        forall|i: int|
            0 <= i < session.segments.len() && (
            #[trigger] session.segments[i]).voice_fingerprint is Some ==> string_map::strings(
                request.speaker_tags@,
            ).contains(session.segments[i].speaker_tag),
        forall|tag: Seq<char>| #[trigger]
            string_map::strings(request.speaker_tags@).contains(tag) ==> exists|i: int|
                0 <= i < session.segments.len() && (#[trigger] session.segments[i]).speaker_tag
                    == tag && session.segments[i].voice_fingerprint is Some,
        forall|i: int, j: int|
            0 <= i < j < request.speaker_tags@.len() ==> string_map::text_less(
                (#[trigger] request.speaker_tags@[i])@,
                (#[trigger] request.speaker_tags@[j])@,
            ),
{
    let tags = string_map::strings(request.speaker_tags@);
    assert forall|i: int|
        0 <= i < session.segments.len() && (
        #[trigger] session.segments[i]).voice_fingerprint is Some implies tags.contains(
        session.segments[i].speaker_tag,
    ) by {
        first_voice_is_kept(session.segments, session.segments[i].speaker_tag);
    }
    assert forall|tag: Seq<char>| #[trigger] tags.contains(tag) implies exists|i: int|
        0 <= i < session.segments.len() && (#[trigger] session.segments[i]).speaker_tag == tag
            && session.segments[i].voice_fingerprint is Some by {
        first_voice_is_kept(session.segments, tag);
    }
    assert forall|i: int, j: int| 0 <= i < j < request.speaker_tags@.len() implies
        string_map::text_less(
        (#[trigger] request.speaker_tags@[i])@,
        (#[trigger] request.speaker_tags@[j])@,
    ) by {
        assert(tags[i] == request.speaker_tags@[i]@);
        assert(tags[j] == request.speaker_tags@[j]@);
    }
}

/// A transcript holds all that was said: it is the transcript of what was said first, a line break,
/// and the transcript of what was said then. What one speaker said once is the tag and the text.
pub proof fn transcript_holds_all_that_was_said(
    a: Seq<SegmentView>,
    segment: SegmentView,
    b: Seq<SegmentView>,
)
    ensures
        a.len() > 0 && b.len() > 0 ==> transcript_of(a + b) == transcript_of(a) + seq!['\n']
            + transcript_of(b),
        transcript_of(seq![segment]) == segment.speaker_tag + seq![':', ' '] + segment.text,
        transcript_of(seq![]) == Seq::<char>::empty(),
    decreases b.len(),
{
    reveal_strlit("\n");
    reveal_strlit(": ");
    assert("\n"@ == seq!['\n']);
    assert(": "@ == seq![':', ' ']);
    assert(seq![segment][0] == segment);
    if a.len() > 0 && b.len() > 0 {
        let rest = b.drop_last();
        let line = transcript_line(b.last());
        assert((a + b).drop_last() == a + rest);
        assert((a + b).last() == b.last());
        if rest.len() == 0 {
            assert(a + rest == a);
            assert(b[0] == b.last());
        } else {
            transcript_holds_all_that_was_said(a, segment, rest);
            assert(transcript_of(a) + seq!['\n'] + transcript_of(rest) + seq!['\n'] + line
                == transcript_of(a) + seq!['\n'] + (transcript_of(rest) + seq!['\n'] + line));
        }
    }
}

/// Segments are replayed one by one and in their order: one of the speaker without a name is
/// replayed under the name, and no other.
pub proof fn segments_are_replayed_one_by_one(
    a: Seq<SegmentView>,
    segment: SegmentView,
    b: Seq<SegmentView>,
    tag: Seq<char>,
    name: Seq<char>,
)
    ensures
        replays(a + b, tag, name) == replays(a, tag, name) + replays(b, tag, name),
        replays(seq![segment], tag, name) == if segment.speaker_tag == tag
            && segment.identified_name is None {
            seq![SegmentView { identified_name: Some(name), ..segment }]
        } else {
            Seq::<SegmentView>::empty()
        },
    decreases b.len(),
{
    let one = seq![segment];
    let none = Seq::<SegmentView>::empty();
    assert(one.drop_last() == none);
    assert(replays(none, tag, name) == none);
    assert(replays(one, tag, name) == if segment.speaker_tag == tag
        && segment.identified_name is None {
        seq![SegmentView { identified_name: Some(name), ..segment }]
    } else {
        none
    });
    if b.len() == 0 {
        assert(a + b == a);
        assert(replays(a, tag, name) + replays(b, tag, name) == replays(a, tag, name));
    } else {
        assert((a + b).drop_last() == a + b.drop_last());
        assert((a + b).last() == b.last());
        segments_are_replayed_one_by_one(a, segment, b.drop_last(), tag, name);
        assert(replays(a + b, tag, name) == replays(a, tag, name) + replays(b, tag, name));
    }
}

/// Names are dealt with one by one. Of a speaker with a voice the voice is stored, then the name is
/// announced, then the segments are replayed; for a speaker without a voice nothing is done.
pub proof fn names_are_dealt_with_one_by_one(
    session_id: Seq<char>,
    segments: Seq<SegmentView>,
    a: Seq<(Seq<char>, Seq<char>)>,
    b: Seq<(Seq<char>, Seq<char>)>,
    tag: Seq<char>,
    name: Seq<char>,
)
    ensures
        effects_of_names(session_id, segments, a + b) == effects_of_names(session_id, segments, a)
            + effects_of_names(session_id, segments, b),
        ({
            let one = effects_of_names(session_id, segments, seq![(tag, name)]);
            if exists|i: int|
                0 <= i < segments.len() && (#[trigger] segments[i]).speaker_tag == tag
                    && segments[i].voice_fingerprint is Some {
                let sent = replays(segments, tag, name);
                &&& one.len() == 2 + sent.len()
                &&& one[0] is Upsert && one[0]->Upsert_0.speaker_tag == tag
                &&& one[1] is Announce && one[1]->Announce_0.speaker_tag == tag
                &&& forall|k: int|
                    0 <= k < sent.len() ==> #[trigger] one[k + 2] == EffectView::Replay(sent[k])
            } else {
                one.len() == 0
            }
        }),
    decreases b.len(),
{
    let single = seq![(tag, name)];
    assert(single.drop_last() == Seq::<(Seq<char>, Seq<char>)>::empty());
    let one = effects_of_name(session_id, segments, tag, name);
    assert(effects_of_names(session_id, segments, single.drop_last()) == Seq::<
        EffectView,
    >::empty());
    assert(effects_of_names(session_id, segments, single) == one);
    first_voice_is_kept(segments, tag);
    if b.len() == 0 {
        assert(a + b == a);
        assert(effects_of_names(session_id, segments, a) + effects_of_names(
            session_id,
            segments,
            b,
        ) == effects_of_names(session_id, segments, a));
    } else {
        assert((a + b).drop_last() == a + b.drop_last());
        assert((a + b).last() == b.last());
        names_are_dealt_with_one_by_one(session_id, segments, a, b.drop_last(), tag, name);
        assert(effects_of_names(session_id, segments, a + b) == effects_of_names(
            session_id,
            segments,
            a,
        ) + effects_of_names(session_id, segments, b));
    }
}

/// The contents of lists of segments and of effects are those of their members, one for one.
pub proof fn lists_are_seen_whole(
    segments: Seq<TranscriptionSegment>,
    effects: Seq<ResolutionEffect>,
)
    ensures
        segment_views(segments).len() == segments.len(),
        forall|i: int| 0 <= i < segments.len() ==> #[trigger] segment_views(segments)[i]
            == segments[i]@,
        effect_views(effects).len() == effects.len(),
        forall|i: int| 0 <= i < effects.len() ==> #[trigger] effect_views(effects)[i]
            == effects[i]@,
{
}

/// Noting that the brain has been asked about a session keeps all that is held back of it, and a
/// session of which nothing is held back is not noted.
pub proof fn asking_keeps_what_is_held_back(sessions: Map<Seq<char>, PendingView>, id: Seq<char>)
    ensures
        sessions.contains_key(id) ==> with_brain_asked(sessions, id) == sessions.insert(
            id,
            PendingView { segments: sessions[id].segments, brain_requested: true },
        ),
        !sessions.contains_key(id) ==> with_brain_asked(sessions, id) == sessions,
{
}

} // verus!
