//! The worker: it sends audio to the recogniser and publishes the segments that come back.
use vstd::prelude::*;
use vstd::string::*;

use crate::audio;
use crate::audio::{decode_audio_bytes, AudioError, AudioInfo, DecodedAudio};
use crate::env;
use crate::env::EnvVars;
use crate::fingerprint;
use crate::fingerprint::{
    bridge_audio_fingerprint_from_timeline, bridge_audio_fingerprints_from_timeline,
    FingerprintSource,
};
use crate::identifier;
use crate::numeric;
use crate::protocol::{SegmentView, TranscriptionSegment};
use crate::queue;
use crate::riva;
use crate::riva::{
    RivaClient, RivaClientConfig, RivaStreamingSession, StreamingRecognitionResult,
};
use crate::text;
use crate::timeline;
use crate::timeline::{chunk_bytes, AudioTimeline, EntryView};

verus! {

/// The word that the worker is up.
pub fn worker_ready() -> (r: &'static str)
    ensures
        r@ == "teto-worker ready"@,
{
    "teto-worker ready"
}

/// The settings of the worker.
#[derive(Debug, Clone, PartialEq, Eq)]
pub struct WorkerConfig {
    pub redis_url: String,
    pub archive_queue: String,
    pub live_channel: String,
    pub transcription_stream: String,
    pub transcription_field: String,
    pub file_chunk_bytes: usize,
    pub reconnect_delay_secs: u64,
}

/// Tells whether settings of the worker are those that an environment gives.
pub open spec fn is_worker_config(c: WorkerConfig, env: Map<Seq<char>, Seq<char>>) -> bool {
    &&& c.redis_url@ == env::text_setting(env, "REDIS_URL"@, "redis://127.0.0.1/"@)
    &&& c.archive_queue@ == env::text_setting(env, "TETO_ARCHIVE_JOBS"@, "teto_archive_jobs"@)
    &&& c.live_channel@ == env::text_setting(env, "TETO_AUDIO_LIVE"@, "teto_audio_live"@)
    &&& c.transcription_stream@ == env::text_setting(
        env,
        "TETO_TRANSCRIPTION_STREAM"@,
        "teto_transcription_stream"@,
    )
    &&& c.transcription_field@ == env::text_setting(env, "TETO_TRANSCRIPTION_FIELD"@, "segment"@)
    &&& c.file_chunk_bytes == env::number_setting(
        env,
        "TETO_FILE_CHUNK_BYTES"@,
        32768,
        usize::MAX as nat,
    )
    &&& c.reconnect_delay_secs == env::number_setting(
        env,
        "TETO_RECONNECT_DELAY_SECS"@,
        2,
        u64::MAX as nat,
    )
}

impl WorkerConfig {
    /// The settings that the environment gives.
    pub fn from_env(env: &EnvVars) -> (r: Self)
        ensures
            is_worker_config(r, env@),
    {
        WorkerConfig {
            redis_url: env::env_or_default(env, "REDIS_URL", "redis://127.0.0.1/"),
            archive_queue: env::env_or_default(env, "TETO_ARCHIVE_JOBS", "teto_archive_jobs"),
            live_channel: env::env_or_default(env, "TETO_AUDIO_LIVE", "teto_audio_live"),
            transcription_stream: env::env_or_default(
                env,
                "TETO_TRANSCRIPTION_STREAM",
                "teto_transcription_stream",
            ),
            transcription_field: env::env_or_default(env, "TETO_TRANSCRIPTION_FIELD", "segment"),
            file_chunk_bytes: env::env_usize(env, "TETO_FILE_CHUNK_BYTES", 32768),
            reconnect_delay_secs: env::env_u64(env, "TETO_RECONNECT_DELAY_SECS", 2),
        }
    }
}

/// A recording that is to be transcribed.
#[derive(Debug, Clone, PartialEq, Eq)]
pub struct ArchiveJob {
    pub session_id: String,
    pub path: String,
}

/// A recording, decoded and cut into the chunks in which it is sent.
#[derive(Debug, Clone, PartialEq, Eq)]
pub struct ArchiveAudio {
    pub audio: DecodedAudio,
    pub chunks: Vec<Vec<u8>>,
}

/// Turns jobs into segments.
#[derive(Debug, Clone)]
pub struct JobProcessor {
    config: WorkerConfig,
    riva: RivaClient,
}

/// The layout of the audio that a recogniser with the given settings takes: one channel of 16-bit
/// samples.
pub open spec fn recogniser_layout(settings: RivaClientConfig) -> AudioInfo {
    AudioInfo {
        sample_rate_hz: settings.sample_rate_hertz as u32,
        channels: 1,
        bits_per_sample: 16,
    }
}

impl JobProcessor {
    /// The settings.
    pub closed spec fn settings(self) -> WorkerConfig {
        self.config
    }

    /// The settings of the client of the recogniser.
    pub closed spec fn recogniser(self) -> RivaClientConfig {
        self.riva.settings()
    }

    /// A processor with the settings that the environment gives.
    pub fn from_env(env: &EnvVars) -> (r: Self)
        ensures
            is_worker_config(r.settings(), env@),
            riva::is_client_config(r.recogniser(), env@),
    {
        JobProcessor::new(WorkerConfig::from_env(env), RivaClientConfig::from_env(env))
    }

    /// A processor with the given settings.
    pub fn new(config: WorkerConfig, riva_config: RivaClientConfig) -> (r: Self)
        ensures
            r.settings() == config,
            r.recogniser() == riva_config,
    {
        JobProcessor { config, riva: RivaClient::new(riva_config) }
    }

    /// The settings.
    pub fn config(&self) -> (r: &WorkerConfig)
        ensures
            *r == self.settings(),
    {
        &self.config
    }

    /// The client of the recogniser.
    pub fn riva(&self) -> (r: &RivaClient)
        ensures
            r.settings() == self.recogniser(),
    {
        &self.riva
    }

    /// The layout of the audio that the recogniser takes.
    pub fn riva_audio_info(&self) -> (r: AudioInfo)
        ensures
            r == recogniser_layout(self.recogniser()),
    {
        AudioInfo {
            sample_rate_hz: self.riva.config().sample_rate_hertz as u32,
            channels: 1,
            bits_per_sample: 16,
        }
    }

    /// Takes up a job: it gets an identifier picked at random, and the path is trimmed.
    pub fn start_archive_job(&self, payload: &str) -> (r: ArchiveJob)
        ensures
            r.path@ == text::trimmed(payload@),
            identifier::is_random_uuid(r.session_id@),
    {
        ArchiveJob {
            session_id: identifier::random_uuid(),
            path: text::trim(payload).to_owned(),
        }
    }

    /// Makes a recording ready to be sent: the file is decoded and cut into chunks.
    pub fn process_archive_job(&self, file: &[u8]) -> (r: Result<ArchiveAudio, AudioError>)
        ensures
            match r {
                Ok(ready) => {
                    &&& audio::audio_contents(file@, recogniser_layout(self.recogniser())) == Ok::<
                        (AudioInfo, Seq<u8>),
                        AudioError,
                    >((ready.audio.info, ready.audio.samples@))
                    &&& timeline::chunk_views(ready.chunks@) == timeline::chunks_of(
                        ready.audio.samples@,
                        if self.settings().file_chunk_bytes == 0 {
                            1
                        } else {
                            self.settings().file_chunk_bytes as nat
                        },
                    )
                },
                Err(e) => audio::audio_contents(file@, recogniser_layout(self.recogniser()))
                    == Err::<(AudioInfo, Seq<u8>), AudioError>(e),
            },
    {
        match decode_audio_bytes(file, self.riva_audio_info()) {
            Ok(audio) => {
                let chunks = chunk_bytes(audio.samples.as_slice(), self.config.file_chunk_bytes);
                Ok(ArchiveAudio { audio, chunks })
            },
            Err(e) => Err(e),
        }
    }

    /// Opens live audio in a session with an identifier picked at random.
    pub fn open_live_audio(&self) -> (r: LiveAudio)
        ensures
            identifier::is_random_uuid(r@.session_id),
            r@ == fresh_live_audio(r@.session_id, recogniser_layout(self.recogniser())),
    {
        LiveAudio::new(identifier::random_uuid(), self.riva_audio_info())
    }
}

/// Something that happened to live audio.
#[derive(Debug)]
pub enum LiveAudioEvent {
    /// Audio came in.
    Audio(Vec<u8>),
    /// No more audio will come.
    AudioEnded,
    /// A chunk was sent to the recogniser.
    ChunkSent,
    /// The recogniser sent results.
    Results(Vec<StreamingRecognitionResult>),
    /// The recogniser has nothing more to say.
    ResultsEnded,
    /// A segment was published.
    Published,
}

/// A segment that is to be published, with what its voice is told by where it has none.
#[derive(Debug)]
pub struct VoicedSegment {
    pub segment: TranscriptionSegment,
    pub source: Option<FingerprintSource>,
}

/// What is to be done about live audio.
#[derive(Debug)]
pub enum LiveAudioAction {
    /// Wait for audio.
    Listen,
    /// Send a chunk to the recogniser.
    Send(Vec<u8>),
    /// Wait for results.
    Receive,
    /// Publish a segment.
    Publish(VoicedSegment),
    /// Tell the recogniser that no more audio will come.
    EndAudio,
    /// Publish the last segments, and be done.
    Finish(Vec<VoicedSegment>),
}

/// Live audio that is being transcribed.
#[derive(Debug)]
pub struct LiveAudio {
    session_id: String,
    info: AudioInfo,
    timeline: AudioTimeline,
    closing: bool,
    last: Vec<TranscriptionSegment>,
}

/// The contents of live audio.
#[verifier::ext_equal]
pub struct LiveAudioView {
    pub session_id: Seq<char>,
    pub info: AudioInfo,
    pub timeline: Seq<EntryView>,
    pub offset_ms: u64,
    pub closing: bool,
    pub last: Seq<SegmentView>,
}

/// Live audio of which nothing has come in yet.
pub open spec fn fresh_live_audio(session_id: Seq<char>, info: AudioInfo) -> LiveAudioView {
    LiveAudioView { session_id, info, timeline: seq![], offset_ms: 0, closing: false, last: seq![] }
}

/// Live audio once more of it has come in.
pub open spec fn with_audio(live: LiveAudioView, samples: Seq<u8>) -> LiveAudioView {
    let duration = timeline::duration_of(samples.len(), live.info) as u64;
    let entry = EntryView {
        start_ms: live.offset_ms,
        duration_ms: if duration == 0 {
            1
        } else {
            duration
        },
        samples,
        info: live.info,
    };
    LiveAudioView {
        timeline: live.timeline.push(entry),
        offset_ms: timeline::later(live.offset_ms, entry.duration_ms),
        ..live
    }
}

/// Tells whether a segment is published as it is, with its voice told by the audio so far unless
/// the voice is known.
pub open spec fn is_voiced(
    voiced: VoicedSegment,
    segment: SegmentView,
    timeline: Seq<EntryView>,
) -> bool {
    &&& voiced.segment@ == segment
    &&& fingerprint::opt_source(voiced.source) == if segment.voice_fingerprint is Some {
        None
    } else {
        fingerprint::segment_source(
            segment,
            fingerprint::timeline_audio(timeline, segment.start_ms, segment.end_ms),
        )
    }
}

impl View for LiveAudio {
    type V = LiveAudioView;

    closed spec fn view(&self) -> LiveAudioView {
        LiveAudioView {
            session_id: self.session_id@,
            info: self.info,
            timeline: self.timeline@,
            offset_ms: self.timeline.offset(),
            closing: self.closing,
            last: queue::segment_views(self.last@),
        }
    }
}

impl LiveAudio {
    /// Live audio of which nothing has come in yet.
    pub fn new(session_id: String, info: AudioInfo) -> (r: Self)
        ensures
            r@ == fresh_live_audio(session_id@, info),
    {
        let last: Vec<TranscriptionSegment> = Vec::new();
        assert(queue::segment_views(last@) == Seq::<SegmentView>::empty());
        LiveAudio { session_id, info, timeline: AudioTimeline::new(), closing: false, last }
    }

    /// The identifier of the session.
    pub fn session_id(&self) -> (r: &String)
        ensures
            r@ == self@.session_id,
    {
        &self.session_id
    }

    /// Goes on after something happened. While audio comes in, each message of results gives at
    /// most one segment, the first; once it has ended, all segments are kept to be published at
    /// the end.
    pub fn run_live_connected(&mut self, event: LiveAudioEvent) -> (r: LiveAudioAction)
        requires
            event matches LiveAudioEvent::Audio(samples) ==> timeline::byte_rate(old(self)@.info)
                > 0 ==> samples@.len() * 1000 <= u64::MAX,
        ensures
            ({
                let before = old(self)@;
                let after = final(self)@;
                match event {
                    LiveAudioEvent::Audio(samples) => {
                        &&& after == with_audio(before, samples@)
                        &&& if samples@.len() == 0 {
                            r is Receive
                        } else {
                            r matches LiveAudioAction::Send(chunk) && chunk@ == samples@
                        }
                    },
                    LiveAudioEvent::ChunkSent | LiveAudioEvent::Published => r is Receive && after
                        == before,
                    LiveAudioEvent::AudioEnded => r is EndAudio && after == (LiveAudioView {
                        closing: true,
                        ..before
                    }),
                    LiveAudioEvent::Results(results) => {
                        let segments = riva::result_segments(before.session_id, results@);
                        if before.closing {
                            r is Receive && after == (LiveAudioView {
                                last: before.last + segments,
                                ..before
                            })
                        } else if segments.len() > 0 {
                            &&& r matches LiveAudioAction::Publish(voiced) && is_voiced(
                                voiced,
                                segments[0],
                                before.timeline,
                            )
                            &&& after == before
                        } else {
                            r is Receive && after == before
                        }
                    },
                    LiveAudioEvent::ResultsEnded => if before.closing {
                        &&& r matches LiveAudioAction::Finish(voiced) && voiced@.len()
                            == before.last.len() && forall|i: int|
                            0 <= i < voiced@.len() ==> {
                                &&& (#[trigger] voiced@[i]).segment@ == before.last[i]
                                &&& fingerprint::opt_source(voiced@[i].source)
                                    == fingerprint::segment_source(
                                    before.last[i],
                                    fingerprint::timeline_audio(
                                        before.timeline,
                                        before.last[i].start_ms,
                                        before.last[i].end_ms,
                                    ),
                                )
                            }
                        &&& after == before
                    } else {
                        r is Listen && after == before
                    },
                }
            }),
    {
        match event {
            LiveAudioEvent::Audio(samples) => {
                let copy = samples.clone();
                assert(copy@ == samples@);
                self.timeline.push(copy, self.info);
                if samples.len() == 0 {
                    LiveAudioAction::Receive
                } else {
                    LiveAudioAction::Send(samples)
                }
            },
            LiveAudioEvent::ChunkSent | LiveAudioEvent::Published => LiveAudioAction::Receive,
            LiveAudioEvent::AudioEnded => {
                self.closing = true;
                LiveAudioAction::EndAudio
            },
            LiveAudioEvent::Results(results) => {
                let session = RivaStreamingSession::new(self.session_id.as_str());
                if self.closing {
                    session.collect(&results, &mut self.last);
                    return LiveAudioAction::Receive;
                }
                match session.recv_next(&results) {
                    Some(segment) => {
                        let source = bridge_audio_fingerprint_from_timeline(
                            &segment,
                            &self.timeline,
                        );
                        LiveAudioAction::Publish(VoicedSegment { segment, source })
                    },
                    None => LiveAudioAction::Receive,
                }
            },
            LiveAudioEvent::ResultsEnded => {
                if self.closing {
                    LiveAudioAction::Finish(self.voiced_last())
                } else {
                    LiveAudioAction::Listen
                }
            },
        }
    }

    fn voiced_last(&self) -> (r: Vec<VoicedSegment>)
        ensures
            r@.len() == self@.last.len(),
            forall|i: int|
                0 <= i < r@.len() ==> {
                    &&& (#[trigger] r@[i]).segment@ == self@.last[i]
                    &&& fingerprint::opt_source(r@[i].source) == fingerprint::segment_source(
                        self@.last[i],
                        fingerprint::timeline_audio(
                            self@.timeline,
                            self@.last[i].start_ms,
                            self@.last[i].end_ms,
                        ),
                    )
                },
    {
        let sources = bridge_audio_fingerprints_from_timeline(&self.last, &self.timeline);
        let ghost want = queue::segment_views(self.last@).map_values(
            |s: SegmentView|
                fingerprint::segment_source(
                    s,
                    fingerprint::timeline_audio(self.timeline@, s.start_ms, s.end_ms),
                ),
        );
        let n: usize = self.last.len();
        let mut out: Vec<VoicedSegment> = Vec::new();
        let mut i: usize = 0;
        assert(fingerprint::opt_sources(sources@).len() == want.len());
        while i < n
            invariant
                n == self.last.len(),
                n == sources.len(),
                i <= n,
                out.len() == i,
                fingerprint::opt_sources(sources@) == want,
                want == self@.last.map_values(
                    |s: SegmentView|
                        fingerprint::segment_source(
                            s,
                            fingerprint::timeline_audio(self@.timeline, s.start_ms, s.end_ms),
                        ),
                ),
                forall|k: int|
                    0 <= k < i ==> {
                        &&& (#[trigger] out@[k]).segment@ == self@.last[k]
                        &&& fingerprint::opt_source(out@[k].source) == want[k]
                    },
            decreases n - i,
        {
            let source = match &sources[i] {
                Some(source) => Some(source.clone()),
                None => None,
            };
            assert(fingerprint::opt_source(source) == fingerprint::opt_sources(sources@)[i as int]);
            out.push(VoicedSegment { segment: self.last[i].clone(), source });
            i = i + 1;
        }
        out
    }
}

/// Audio that comes in is put behind what is there, whole: all samples so far are those before and
/// those that came in, the stretch begins where the audio before it ended, it lasts as long as the
/// samples take, and nothing else changes.
pub proof fn incoming_audio_is_kept_whole(live: LiveAudioView, samples: Seq<u8>)
    requires
        samples.len() * 1000 <= u64::MAX,
    ensures
        ({
            let after = with_audio(live, samples);
            let n = live.timeline.len() as int;
            let last = after.timeline[n];
            let rate = live.info.sample_rate_hz as nat * (live.info.channels as nat * (
            live.info.bits_per_sample as nat / 8));
            &&& timeline::all_samples(after.timeline) == timeline::all_samples(live.timeline)
                + samples
            &&& after.timeline.len() == n + 1
            &&& after.timeline.take(n) == live.timeline
            &&& last.start_ms == live.offset_ms
            &&& last.samples == samples
            &&& last.info == live.info
            &&& last.duration_ms >= 1
            &&& rate > 0 ==> samples.len() * 1000 <= last.duration_ms * rate
            &&& last.duration_ms > 1 ==> (last.duration_ms - 1) * rate < samples.len() * 1000
            &&& live.offset_ms + last.duration_ms <= u64::MAX ==> after.offset_ms == live.offset_ms
                + last.duration_ms
            &&& after.session_id == live.session_id
            &&& after.info == live.info
            &&& after.closing == live.closing
            &&& after.last == live.last
        }),
{
    let after = with_audio(live, samples);
    let n = live.timeline.len() as int;
    timeline::duration_is_the_least_that_holds(samples.len(), live.info);
    lemma_duration_fits(samples.len(), live.info);
    assert(after.timeline.drop_last() == live.timeline);
    assert(after.timeline.take(n) == live.timeline);
}

proof fn lemma_duration_fits(len: nat, info: AudioInfo)
    requires
        len * 1000 <= u64::MAX,
    ensures
        timeline::duration_of(len, info) <= u64::MAX,
{
    let rate = timeline::byte_rate(info) as int;
    if rate > 0 && len > 0 {
        let total = len * 1000 - 1;
        assert(total / rate <= total) by (nonlinear_arith)
            requires
                total >= 0,
                rate >= 1,
        ;
    }
}

/// A segment is published whole, and its voice, where it is not known, is told by all samples of the
/// audio in which it was said.
pub proof fn voice_is_told_by_the_audio_of_the_segment(
    voiced: VoicedSegment,
    segment: SegmentView,
    entries: Seq<EntryView>,
)
    requires
        is_voiced(voiced, segment, entries),
    ensures
        voiced.segment@ == segment,
        segment.voice_fingerprint is Some ==> voiced.source is None,
        ({
            let audio = timeline::entries_between(entries, segment.start_ms, segment.end_ms);
            segment.voice_fingerprint is None && segment.start_ms < segment.end_ms && audio.len()
                >= 2 ==> (voiced.source matches Some(FingerprintSource::Samples(samples))
                && samples@.len() == audio.len() / 2 && forall|i: int|
                0 <= i < audio.len() / 2 ==> #[trigger] samples@[i] == audio[2 * i] + 256 * audio[2
                    * i + 1] - (if audio[2 * i + 1] >= 128 {
                    65536int
                } else {
                    0
                }))
        }),
        segment.voice_fingerprint is None && segment.start_ms >= segment.end_ms ==> (
        voiced.source matches Some(FingerprintSource::Speaker(tag)) && tag@ == segment.speaker_tag),
{
    let audio = fingerprint::timeline_audio(entries, segment.start_ms, segment.end_ms);
    if audio.len() >= 2 {
        fingerprint::audio_is_told_by_its_samples(segment, audio);
    }
    fingerprint::tag_tells_a_voice_only_without_samples(segment, audio);
}

/// A setting of the worker is what its variable holds.
pub proof fn worker_settings_are_those_set(
    c: WorkerConfig,
    env: Map<Seq<char>, Seq<char>>,
    before: Seq<char>,
    value: Seq<char>,
    after: Seq<char>,
    n: nat,
)
    requires
        is_worker_config(c, env),
        text::all_white(before),
        text::all_white(after),
        value.len() > 0,
        !text::white_space(value.first()),
        !text::white_space(value.last()),
        n > 0,
    ensures
        env.contains_key("REDIS_URL"@) && env["REDIS_URL"@] == before + value + after
            ==> c.redis_url@ == value,
        env.contains_key("TETO_ARCHIVE_JOBS"@) && env["TETO_ARCHIVE_JOBS"@] == before + value + after
            ==> c.archive_queue@ == value,
        env.contains_key("TETO_AUDIO_LIVE"@) && env["TETO_AUDIO_LIVE"@] == before + value + after
            ==> c.live_channel@ == value,
        env.contains_key("TETO_TRANSCRIPTION_STREAM"@) && env["TETO_TRANSCRIPTION_STREAM"@] == before + value + after
            ==> c.transcription_stream@ == value,
        env.contains_key("TETO_TRANSCRIPTION_FIELD"@) && env["TETO_TRANSCRIPTION_FIELD"@] == before + value + after
            ==> c.transcription_field@ == value,
        n <= usize::MAX && env.contains_key("TETO_FILE_CHUNK_BYTES"@) && env["TETO_FILE_CHUNK_BYTES"@]
            == numeric::decimal(n) ==> c.file_chunk_bytes == n,
        n <= u64::MAX && env.contains_key("TETO_RECONNECT_DELAY_SECS"@) && env["TETO_RECONNECT_DELAY_SECS"@]
            == numeric::decimal(n) ==> c.reconnect_delay_secs == n,
{
    text::trimming_leaves_the_middle(before, value, after);
    if n <= u64::MAX {
        numeric::decimal_reads_back(n, u64::MAX as nat);
    }
    if n <= usize::MAX {
        numeric::decimal_reads_back(n, usize::MAX as nat);
    }
}

/// A setting of the worker whose variable is not set has its default.
pub proof fn worker_settings_have_defaults(
    c: WorkerConfig,
    env: Map<Seq<char>, Seq<char>>,
)
    requires
        is_worker_config(c, env),
    ensures
        !env.contains_key("REDIS_URL"@) ==> c.redis_url@ == "redis://127.0.0.1/"@,
        !env.contains_key("TETO_ARCHIVE_JOBS"@) ==> c.archive_queue@ == "teto_archive_jobs"@,
        !env.contains_key("TETO_AUDIO_LIVE"@) ==> c.live_channel@ == "teto_audio_live"@,
        !env.contains_key("TETO_TRANSCRIPTION_STREAM"@) ==> c.transcription_stream@ == "teto_transcription_stream"@,
        !env.contains_key("TETO_TRANSCRIPTION_FIELD"@) ==> c.transcription_field@ == "segment"@,
        !env.contains_key("TETO_FILE_CHUNK_BYTES"@) ==> c.file_chunk_bytes == 32768,
        !env.contains_key("TETO_RECONNECT_DELAY_SECS"@) ==> c.reconnect_delay_secs == 2,
{
}

} // verus!
