//! The client of the speech recogniser: what is sent to it, and what is made of its results.
use vstd::prelude::*;
use vstd::string::*;

use crate::brain;
use crate::env;
use crate::env::EnvVars;
use crate::float_bits;
use crate::numeric;
use crate::protocol::{SegmentView, TranscriptionSegment, VoiceFingerprint};
use crate::queue;
use crate::string_map::StringMap;
use crate::text;
use crate::timeline;
use crate::timeline::chunk_bytes;

verus! {

/// How audio is encoded.
#[derive(Debug, Clone, Copy, PartialEq, Eq, Structural)]
pub enum AudioEncoding {
    /// Samples one after the other, 16 bits each.
    LinearPcm,
}

/// The settings of the client.
#[derive(Debug, Clone, PartialEq, Eq)]
pub struct RivaClientConfig {
    pub asr_endpoint: String,
    pub language_code: String,
    pub sample_rate_hertz: i32,
    pub encoding: AudioEncoding,
    pub chunk_duration_ms: u64,
    pub enable_interim_results: bool,
    pub max_speaker_count: i32,
    pub model_name: String,
    pub custom_configuration: Vec<(String, String)>,
}

/// The name and the value that an entry of a configuration gives, if it gives any.
pub open spec fn configuration_entry(entry: Seq<char>) -> Option<(Seq<char>, Seq<char>)> {
    match text::cut(text::trimmed(entry), '=') {
        Some((key, value)) => Some((text::trimmed(key), text::trimmed(value))),
        None => None,
    }
}

/// The names and values that entries of a configuration give, in their order.
pub open spec fn configuration_entries(entries: Seq<Seq<char>>) -> Seq<(Seq<char>, Seq<char>)>
    decreases entries.len(),
{
    if entries.len() == 0 {
        seq![]
    } else {
        let before = configuration_entries(entries.drop_last());
        match configuration_entry(entries.last()) {
            Some(pair) => before.push(pair),
            None => before,
        }
    }
}

/// Reads names and values from a text in which they are joined by equals signs and set apart by
/// commas. What has no equals sign is passed over.
pub fn parse_custom_configuration(raw: &str) -> (r: Vec<(String, String)>)
    ensures
        brain::text_pairs(r@) == configuration_entries(text::pieces(raw@, ',')),
{
    let entries = text::split(raw, ',');
    let ghost all = text::texts(entries@);
    let n: usize = entries.len();
    let mut out: Vec<(String, String)> = Vec::new();
    let mut i: usize = 0;
    assert(all.take(0) == Seq::<Seq<char>>::empty());
    assert(brain::text_pairs(out@) == configuration_entries(all.take(0)));
    while i < n
        invariant
            n == entries.len(),
            i <= n,
            all == text::texts(entries@),
            brain::text_pairs(out@) == configuration_entries(all.take(i as int)),
        decreases n - i,
    {
        let entry = text::trim(entries[i]);
        let ghost before = brain::text_pairs(out@);
        assert(all.take(i + 1).drop_last() == all.take(i as int));
        assert(all.take(i + 1).last() == entries@[i as int]@);
        if let Some((key, value)) = text::split_once(entry, '=') {
            let pair = (text::trim(key).to_owned(), text::trim(value).to_owned());
            out.push(pair);
            assert(brain::text_pairs(out@) == before.push((pair.0@, pair.1@)));
        }
        i = i + 1;
    }
    assert(all.take(n as int) == all);
    out
}

/// Tells whether settings of the client are those that an environment gives.
pub open spec fn is_client_config(c: RivaClientConfig, env: Map<Seq<char>, Seq<char>>) -> bool {
    &&& c.asr_endpoint@ == env::text_setting(env, "RIVA_ASR_ENDPOINT"@, "http://127.0.0.1:50051"@)
    &&& c.language_code@ == env::text_setting(env, "RIVA_LANGUAGE_CODE"@, "en-US"@)
    &&& c.sample_rate_hertz == env::number_setting(
        env,
        "RIVA_SAMPLE_RATE_HZ"@,
        16000,
        i32::MAX as nat,
    )
    &&& c.encoding == AudioEncoding::LinearPcm
    &&& c.chunk_duration_ms == env::number_setting(
        env,
        "RIVA_CHUNK_DURATION_MS"@,
        100,
        u64::MAX as nat,
    )
    &&& c.enable_interim_results == env::flag_setting(env, "RIVA_INTERIM_RESULTS"@, true)
    &&& c.max_speaker_count == env::number_setting(
        env,
        "RIVA_MAX_SPEAKER_COUNT"@,
        2,
        i32::MAX as nat,
    )
    &&& c.model_name@ == env::text_setting(env, "RIVA_ASR_MODEL"@, ""@)
    &&& brain::text_pairs(c.custom_configuration@) == configuration_entries(
        text::pieces(
            if env.contains_key("RIVA_CUSTOM_CONFIGURATION"@) {
                env["RIVA_CUSTOM_CONFIGURATION"@]
            } else {
                ""@
            },
            ',',
        ),
    )
}

impl RivaClientConfig {
    /// The settings that the environment gives.
    pub fn from_env(env: &EnvVars) -> (r: Self)
        ensures
            is_client_config(r, env@),
    {
        RivaClientConfig {
            asr_endpoint: env::env_or_default(env, "RIVA_ASR_ENDPOINT", "http://127.0.0.1:50051"),
            language_code: env::env_or_default(env, "RIVA_LANGUAGE_CODE", "en-US"),
            sample_rate_hertz: env::env_i32(env, "RIVA_SAMPLE_RATE_HZ", 16000),
            encoding: AudioEncoding::LinearPcm,
            chunk_duration_ms: env::env_u64(env, "RIVA_CHUNK_DURATION_MS", 100),
            enable_interim_results: env::env_bool(env, "RIVA_INTERIM_RESULTS", true),
            max_speaker_count: env::env_i32(env, "RIVA_MAX_SPEAKER_COUNT", 2),
            model_name: env::env_or_default(env, "RIVA_ASR_MODEL", ""),
            custom_configuration: match env.var("RIVA_CUSTOM_CONFIGURATION") {
                Some(raw) => parse_custom_configuration(raw.as_str()),
                None => parse_custom_configuration(""),
            },
        }
    }
}

/// How speech is to be recognised.
#[derive(Debug)]
pub struct RecognitionConfig {
    pub encoding: AudioEncoding,
    pub sample_rate_hertz: i32,
    pub language_code: String,
    pub max_alternatives: i32,
    pub profanity_filter: bool,
    pub audio_channel_count: i32,
    pub enable_word_time_offsets: bool,
    pub enable_automatic_punctuation: bool,
    pub enable_separate_recognition_per_channel: bool,
    pub model: String,
    pub verbatim_transcripts: bool,
    pub enable_speaker_diarization: bool,
    pub max_speaker_count: i32,
    pub custom_configuration: StringMap<String>,
}

/// The map that pairs give; of pairs with the same name the last one counts.
pub open spec fn last_values(pairs: Seq<(Seq<char>, Seq<char>)>) -> Map<Seq<char>, Seq<char>>
    decreases pairs.len(),
{
    if pairs.len() == 0 {
        Map::empty()
    } else {
        last_values(pairs.drop_last()).insert(pairs.last().0, pairs.last().1)
    }
}

fn collect_pairs(pairs: &Vec<(String, String)>) -> (r: StringMap<String>)
    ensures
        r@ == last_values(brain::text_pairs(pairs@)),
{
    let ghost all = brain::text_pairs(pairs@);
    let n: usize = pairs.len();
    let mut out: StringMap<String> = StringMap::new();
    let mut i: usize = 0;
    assert(all.take(0) == Seq::<(Seq<char>, Seq<char>)>::empty());
    while i < n
        invariant
            n == pairs.len(),
            i <= n,
            all == brain::text_pairs(pairs@),
            out@ == last_values(all.take(i as int)),
        decreases n - i,
    {
        let pair = &pairs[i];
        assert(all.take(i + 1).drop_last() == all.take(i as int));
        assert(all.take(i + 1).last() == (pair.0@, pair.1@));
        out.insert(pair.0.clone(), pair.1.clone());
        i = i + 1;
    }
    assert(all.take(n as int) == all);
    out
}

/// Tells whether speech is recognised as the settings ask for: one reading of one channel, with
/// punctuation, the times of the words and their speakers.
pub open spec fn is_set_up(config: RecognitionConfig, settings: RivaClientConfig) -> bool {
    &&& config.encoding == settings.encoding
    &&& config.sample_rate_hertz == settings.sample_rate_hertz
    &&& config.language_code@ == settings.language_code@
    &&& config.max_alternatives == 1
    &&& !config.profanity_filter
    &&& config.audio_channel_count == 1
    &&& config.enable_word_time_offsets
    &&& config.enable_automatic_punctuation
    &&& !config.enable_separate_recognition_per_channel
    &&& config.model@ == settings.model_name@
    &&& !config.verbatim_transcripts
    &&& config.enable_speaker_diarization
    &&& config.max_speaker_count == settings.max_speaker_count
    &&& config.custom_configuration@ == last_values(
        brain::text_pairs(settings.custom_configuration@),
    )
}

/// What is sent to the recogniser.
#[derive(Debug)]
pub enum StreamingRequest {
    /// How speech is to be recognised, and whether results that may still change are wanted.
    Config { config: RecognitionConfig, interim_results: bool },
    /// Audio.
    Audio(Vec<u8>),
}

/// Why audio cannot be sent to the recogniser.
#[derive(Debug, Clone, Copy, PartialEq, Eq, Structural)]
pub enum RivaError {
    EmptyAudio,
}

impl RivaError {
    /// The message in words.
    pub open spec fn words(self) -> Seq<char> {
        "cannot stream empty audio payload to Riva"@
    }

    /// The message in words.
    pub fn message(&self) -> (r: String)
        ensures
            r@ == self.words(),
    {
        "cannot stream empty audio payload to Riva".to_owned()
    }
}

/// The number of bytes of 16-bit audio that a millisecond takes, rounded up.
pub open spec fn bytes_per_ms(sample_rate_hertz: int) -> int {
    (sample_rate_hertz * 2 + 999) / 1000
}

/// The chunks in which audio is sent.
pub open spec fn timed_chunks(audio: Seq<u8>, chunk_duration_ms: nat, sample_rate_hertz: int) -> Seq<
    Seq<u8>,
> {
    if chunk_duration_ms == 0 || sample_rate_hertz <= 0 {
        seq![]
    } else {
        timeline::chunks_of(audio, (chunk_duration_ms * bytes_per_ms(sample_rate_hertz)) as nat)
    }
}

/// Cuts 16-bit audio into chunks of the given duration.
pub fn audio_chunks(audio: &[u8], chunk_duration_ms: u64, sample_rate_hertz: i32) -> (r: Vec<
    Vec<u8>,
>)
    requires
        audio@.len() > 0 && sample_rate_hertz > 0 ==> chunk_duration_ms * bytes_per_ms(
            sample_rate_hertz as int,
        ) <= usize::MAX,
    ensures
        timeline::chunk_views(r@) == timed_chunks(
            audio@,
            chunk_duration_ms as nat,
            sample_rate_hertz as int,
        ),
{
    if audio.len() == 0 || chunk_duration_ms == 0 || sample_rate_hertz <= 0 {
        let none: Vec<Vec<u8>> = Vec::new();
        assert(timeline::chunk_views(none@) == Seq::<Seq<u8>>::empty());
        return none;
    }
    let per_ms: u64 = (sample_rate_hertz as u64 * 2 + 999) / 1000;
    proof {
        assert(per_ms == bytes_per_ms(sample_rate_hertz as int));
        assert(chunk_duration_ms <= chunk_duration_ms * per_ms && per_ms <= chunk_duration_ms
            * per_ms && chunk_duration_ms * per_ms > 0) by (nonlinear_arith)
            requires
                chunk_duration_ms >= 1,
                per_ms >= 1,
        ;
    }
    chunk_bytes(audio, chunk_duration_ms as usize * per_ms as usize)
}

/// A client of the speech recogniser.
#[derive(Debug, Clone)]
pub struct RivaClient {
    config: RivaClientConfig,
}

impl RivaClient {
    /// The settings.
    pub closed spec fn settings(self) -> RivaClientConfig {
        self.config
    }

    /// A client with the given settings.
    pub fn new(config: RivaClientConfig) -> (r: Self)
        ensures
            r.settings() == config,
    {
        RivaClient { config }
    }

    /// The settings.
    pub fn config(&self) -> (r: &RivaClientConfig)
        ensures
            *r == self.settings(),
    {
        &self.config
    }

    /// How speech is to be recognised.
    pub fn recognition_config(&self) -> (r: RecognitionConfig)
        ensures
            is_set_up(r, self.settings()),
    {
        RecognitionConfig {
            encoding: self.config.encoding,
            sample_rate_hertz: self.config.sample_rate_hertz,
            language_code: self.config.language_code.clone(),
            max_alternatives: 1,
            profanity_filter: false,
            audio_channel_count: 1,
            enable_word_time_offsets: true,
            enable_automatic_punctuation: true,
            enable_separate_recognition_per_channel: false,
            model: self.config.model_name.clone(),
            verbatim_transcripts: false,
            enable_speaker_diarization: true,
            max_speaker_count: self.config.max_speaker_count,
            custom_configuration: collect_pairs(&self.config.custom_configuration),
        }
    }

    /// What is sent to the recogniser: how speech is to be recognised, and then the audio.
    pub fn streaming_requests(&self, chunks: Vec<Vec<u8>>) -> (r: Vec<StreamingRequest>)
        ensures
            r@.len() == chunks@.len() + 1,
            r@[0] matches StreamingRequest::Config { config, interim_results } && is_set_up(
                config,
                self.settings(),
            ) && interim_results == self.settings().enable_interim_results,
            forall|i: int|
                1 <= i < r@.len() ==> ((#[trigger] r@[i]) matches StreamingRequest::Audio(chunk)
                    && chunk@ == chunks@[i - 1]@),
    {
        let mut out: Vec<StreamingRequest> = Vec::new();
        out.push(
            StreamingRequest::Config {
                config: self.recognition_config(),
                interim_results: self.config.enable_interim_results,
            },
        );
        let ghost first = out@[0];
        let n: usize = chunks.len();
        let mut i: usize = 0;
        while i < n
            invariant
                n == chunks.len(),
                i <= n,
                out.len() == i + 1,
                out@[0] == first,
                forall|k: int|
                    1 <= k < out@.len() ==> ((#[trigger] out@[k]) matches StreamingRequest::Audio(
                        chunk,
                    ) && chunk@ == chunks@[k - 1]@),
            decreases n - i,
        {
            let ghost before = out@;
            let chunk = chunks[i].clone();
            assert(chunk@ == chunks@[i as int]@);
            out.push(StreamingRequest::Audio(chunk));
            assert(out@ == before.push(StreamingRequest::Audio(chunk)));
            i = i + 1;
        }
        out
    }

    /// The chunks in which a whole recording is sent.
    pub fn stream_audio_to_riva(&self, audio: &[u8]) -> (r: Result<Vec<Vec<u8>>, RivaError>)
        requires
            audio@.len() > 0 && self.settings().sample_rate_hertz > 0
                ==> self.settings().chunk_duration_ms * bytes_per_ms(
                self.settings().sample_rate_hertz as int,
            ) <= usize::MAX,
        ensures
            match r {
                Ok(chunks) => audio@.len() > 0 && timeline::chunk_views(chunks@) == timed_chunks(
                    audio@,
                    self.settings().chunk_duration_ms as nat,
                    self.settings().sample_rate_hertz as int,
                ),
                Err(e) => audio@.len() == 0 && e == RivaError::EmptyAudio,
            },
    {
        if audio.len() == 0 {
            return Err(RivaError::EmptyAudio);
        }
        Ok(audio_chunks(audio, self.config.chunk_duration_ms, self.config.sample_rate_hertz))
    }

    /// The voice in a recording: the recogniser tells none.
    pub fn extract_voice_fingerprint(&self, _audio: &[u8]) -> (r: Option<VoiceFingerprint>)
        ensures
            r is None,
    {
        None
    }
}

/// A word that was recognised. Times are in milliseconds; a negative one is unknown, and so is a
/// speaker tag that is not positive.
#[derive(Debug, Clone, Copy, PartialEq, Eq, Structural)]
pub struct WordInfo {
    pub start_time: i32,
    pub end_time: i32,
    pub speaker_tag: i32,
}

/// A reading of what was said.
#[derive(Debug, Clone)]
pub struct Alternative {
    pub transcript: String,
    /// The bits of the confidence.
    pub confidence: u32,
    pub words: Vec<WordInfo>,
}

/// A result of the recogniser.
#[derive(Debug, Clone)]
pub struct StreamingRecognitionResult {
    pub alternatives: Vec<Alternative>,
    pub is_final: bool,
    /// How many milliseconds of audio have been dealt with.
    pub audio_processed_ms: u64,
}

/// The position of the reading that is preferred: a later one is, unless an earlier one is more
/// confident.
pub open spec fn preferred(alternatives: Seq<Alternative>) -> int
    decreases alternatives.len(),
{
    if alternatives.len() <= 1 {
        0
    } else {
        let before = preferred(alternatives.drop_last());
        if float_bits::exceeds(alternatives[before].confidence, alternatives.last().confidence) {
            before
        } else {
            alternatives.len() - 1
        }
    }
}

proof fn lemma_preferred_is_one(alternatives: Seq<Alternative>)
    requires
        alternatives.len() > 0,
    ensures
        0 <= preferred(alternatives) < alternatives.len(),
    decreases alternatives.len(),
{
    if alternatives.len() > 1 {
        lemma_preferred_is_one(alternatives.drop_last());
    }
}

/// Where every confidence is a number, no reading is more confident than the one preferred, and
/// every later one is less.
pub proof fn preferred_is_most_confident(alternatives: Seq<Alternative>, i: int)
    requires
        0 <= i < alternatives.len(),
        forall|k: int|
            0 <= k < alternatives.len() ==> float_bits::rank((#[trigger] alternatives[k]).confidence) is Some,
    ensures
        ({
            let best = preferred(alternatives);
            &&& 0 <= best < alternatives.len()
            &&& !float_bits::exceeds(alternatives[i].confidence, alternatives[best].confidence)
            &&& i > best ==> float_bits::exceeds(alternatives[best].confidence, alternatives[i].confidence)
        }),
    decreases alternatives.len(),
{
    lemma_preferred_is_one(alternatives);
    if alternatives.len() > 1 {
        let before = alternatives.drop_last();
        lemma_preferred_is_one(before);
        assert forall|k: int| 0 <= k < before.len() implies float_bits::rank(
            (#[trigger] before[k]).confidence,
        ) is Some by {
            assert(before[k] == alternatives[k]);
        }
        let j = preferred(before);
        assert(float_bits::rank(alternatives[j].confidence) is Some);
        assert(float_bits::rank(alternatives.last().confidence) is Some);
        if i < before.len() {
            preferred_is_most_confident(before, i);
            assert(before[i] == alternatives[i] && before[j] == alternatives[j]);
        }
    }
}

/// Finds the reading that is preferred.
fn preferred_index(alternatives: &Vec<Alternative>) -> (r: usize)
    requires
        alternatives@.len() > 0,
    ensures
        r == preferred(alternatives@),
        r < alternatives@.len(),
{
    let n: usize = alternatives.len();
    let mut best: usize = 0;
    let mut i: usize = 1;
    while i < n
        invariant
            n == alternatives.len(),
            1 <= i <= n,
            best < i,
            best == preferred(alternatives@.take(i as int)),
        decreases n - i,
    {
        assert(alternatives@.take(i + 1).drop_last() == alternatives@.take(i as int));
        if !float_bits::is_greater(alternatives[best].confidence, alternatives[i].confidence) {
            best = i;
        }
        i = i + 1;
    }
    assert(alternatives@.take(n as int) == alternatives@);
    best
}

/// The highest positive speaker tag of words, or zero where there is none.
pub open spec fn highest_tag(words: Seq<WordInfo>) -> int
    decreases words.len(),
{
    if words.len() == 0 {
        0
    } else {
        let before = highest_tag(words.drop_last());
        if words.last().speaker_tag > before {
            words.last().speaker_tag as int
        } else {
            before
        }
    }
}

/// The speaker tag of a segment with the given words.
pub open spec fn words_tag(words: Seq<WordInfo>) -> Seq<char> {
    if highest_tag(words) > 0 {
        "Speaker_"@ + numeric::decimal(highest_tag(words) as nat)
    } else {
        "Speaker_unknown"@
    }
}

/// The speaker tag of a segment with the given words.
pub fn speaker_tag_from_words(words: &Vec<WordInfo>) -> (r: String)
    ensures
        r@ == words_tag(words@),
{
    let n: usize = words.len();
    let mut highest: i32 = 0;
    let mut i: usize = 0;
    assert(words@.take(0) == Seq::<WordInfo>::empty());
    while i < n
        invariant
            n == words.len(),
            i <= n,
            0 <= highest,
            highest == highest_tag(words@.take(i as int)),
        decreases n - i,
    {
        assert(words@.take(i + 1).drop_last() == words@.take(i as int));
        if words[i].speaker_tag > highest {
            highest = words[i].speaker_tag;
        }
        i = i + 1;
    }
    assert(words@.take(n as int) == words@);
    if highest > 0 {
        let mut tag = "Speaker_".to_owned();
        tag.append(numeric::decimal_text(highest as u64).as_str());
        tag
    } else {
        "Speaker_unknown".to_owned()
    }
}

/// The earliest known start of words, if any is known.
pub open spec fn earliest_start(words: Seq<WordInfo>) -> Option<int>
    decreases words.len(),
{
    if words.len() == 0 {
        None
    } else {
        let before = earliest_start(words.drop_last());
        let start = words.last().start_time as int;
        if start >= 0 && (before is None || start < before->0) {
            Some(start)
        } else {
            before
        }
    }
}

/// The latest known end of words, if any is known.
pub open spec fn latest_end(words: Seq<WordInfo>) -> Option<int>
    decreases words.len(),
{
    if words.len() == 0 {
        None
    } else {
        let before = latest_end(words.drop_last());
        let end = words.last().end_time as int;
        if end >= 0 && (before is None || end > before->0) {
            Some(end)
        } else {
            before
        }
    }
}

/// When a segment with the given words begins.
pub open spec fn words_start(words: Seq<WordInfo>) -> int {
    match earliest_start(words) {
        Some(start) => start,
        None => 0,
    }
}

/// When a segment with the given words ends, given how much audio has been dealt with: not before
/// it begins.
pub open spec fn words_end(words: Seq<WordInfo>, audio_processed_ms: int) -> int {
    let end = match latest_end(words) {
        Some(end) => end,
        None => audio_processed_ms,
    };
    if end >= words_start(words) {
        end
    } else {
        words_start(words)
    }
}

/// When a segment with the given words begins and ends.
pub fn time_range_from_words(words: &Vec<WordInfo>, audio_processed_ms: u64) -> (r: (u64, u64))
    ensures
        r.0 == words_start(words@),
        r.1 == words_end(words@, audio_processed_ms as int),
        r.0 <= r.1,
{
    let n: usize = words.len();
    let mut start: Option<u64> = None;
    let mut end: Option<u64> = None;
    let mut i: usize = 0;
    assert(words@.take(0) == Seq::<WordInfo>::empty());
    while i < n
        invariant
            n == words.len(),
            i <= n,
            match start {
                Some(s) => earliest_start(words@.take(i as int)) == Some(s as int),
                None => earliest_start(words@.take(i as int)) is None,
            },
            match end {
                Some(e) => latest_end(words@.take(i as int)) == Some(e as int),
                None => latest_end(words@.take(i as int)) is None,
            },
        decreases n - i,
    {
        assert(words@.take(i + 1).drop_last() == words@.take(i as int));
        let word = words[i];
        if word.start_time >= 0 {
            let s: u64 = word.start_time as u64;
            match start {
                Some(before) => {
                    if s < before {
                        start = Some(s);
                    }
                },
                None => {
                    start = Some(s);
                },
            }
        }
        if word.end_time >= 0 {
            let e: u64 = word.end_time as u64;
            match end {
                Some(before) => {
                    if e > before {
                        end = Some(e);
                    }
                },
                None => {
                    end = Some(e);
                },
            }
        }
        i = i + 1;
    }
    assert(words@.take(n as int) == words@);
    let start_ms: u64 = match start {
        Some(s) => s,
        None => 0,
    };
    let end_ms: u64 = match end {
        Some(e) => e,
        None => audio_processed_ms,
    };
    if end_ms >= start_ms {
        (start_ms, end_ms)
    } else {
        (start_ms, start_ms)
    }
}

/// The segment that a result gives: none where the result may still change, or where the
/// preferred reading is blank.
pub open spec fn result_segment(session_id: Seq<char>, result: StreamingRecognitionResult) -> Option<
    SegmentView,
> {
    if !result.is_final || result.alternatives@.len() == 0 {
        None
    } else {
        let reading = result.alternatives@[preferred(result.alternatives@)];
        if text::trimmed(reading.transcript@).len() == 0 {
            None
        } else {
            Some(
                SegmentView {
                    session_id,
                    speaker_tag: words_tag(reading.words@),
                    text: text::trimmed(reading.transcript@),
                    start_ms: words_start(reading.words@) as u64,
                    end_ms: words_end(reading.words@, result.audio_processed_ms as int) as u64,
                    is_final: true,
                    voice_fingerprint: None,
                    identified_name: None,
                },
            )
        }
    }
}

/// The view of an optional segment.
pub open spec fn opt_segment(segment: Option<TranscriptionSegment>) -> Option<SegmentView> {
    match segment {
        Some(s) => Some(s@),
        None => None,
    }
}

/// The segment that a result gives.
pub fn result_to_segment(session_id: &str, result: &StreamingRecognitionResult) -> (r: Option<
    TranscriptionSegment,
>)
    ensures
        opt_segment(r) == result_segment(session_id@, *result),
        r is Some <==> result.is_final && result.alternatives@.len() > 0 && !text::all_white(
            result.alternatives@[preferred(result.alternatives@)].transcript@,
        ),
{
    proof {
        only_blank_results_give_nothing(session_id@, *result);
    }
    if !result.is_final || result.alternatives.len() == 0 {
        return None;
    }
    let reading = &result.alternatives[preferred_index(&result.alternatives)];
    let transcript = text::trim(reading.transcript.as_str());
    if transcript.is_empty() {
        return None;
    }
    let speaker_tag = speaker_tag_from_words(&reading.words);
    let (start_ms, end_ms) = time_range_from_words(&reading.words, result.audio_processed_ms);
    Some(
        TranscriptionSegment::new(
            session_id,
            speaker_tag.as_str(),
            transcript,
            start_ms,
            end_ms,
        ).with_finality(true),
    )
}

/// A segment that comes from the recogniser is final, ends no earlier than it begins, and holds
/// words.
pub proof fn recognised_segments_are_sound(
    session_id: Seq<char>,
    result: StreamingRecognitionResult,
)
    requires
        result_segment(session_id, result) is Some,
    ensures
        ({
            let segment = result_segment(session_id, result)->0;
            &&& result.is_final
            &&& segment.is_final
            &&& segment.session_id == session_id
            &&& segment.start_ms <= segment.end_ms
            &&& segment.text.len() > 0
            &&& segment.voice_fingerprint is None
            &&& segment.identified_name is None
        }),
{
    let words = result.alternatives@[preferred(result.alternatives@)].words@;
    lemma_times_fit(words);
}

proof fn lemma_times_fit(words: Seq<WordInfo>)
    ensures
        earliest_start(words) is Some ==> 0 <= earliest_start(words)->0 <= i32::MAX,
        latest_end(words) is Some ==> 0 <= latest_end(words)->0 <= i32::MAX,
    decreases words.len(),
{
    if words.len() > 0 {
        lemma_times_fit(words.drop_last());
    }
}

/// The segments that results give, in their order.
pub open spec fn result_segments(
    session_id: Seq<char>,
    results: Seq<StreamingRecognitionResult>,
) -> Seq<SegmentView>
    decreases results.len(),
{
    if results.len() == 0 {
        seq![]
    } else {
        let before = result_segments(session_id, results.drop_last());
        match result_segment(session_id, results.last()) {
            Some(segment) => before.push(segment),
            None => before,
        }
    }
}

/// A session with the recogniser.
#[derive(Debug, Clone, PartialEq, Eq)]
pub struct RivaStreamingSession {
    session_id: String,
}

impl RivaStreamingSession {
    /// The identifier of the session.
    pub closed spec fn id(self) -> Seq<char> {
        self.session_id@
    }

    /// A session with the given identifier.
    pub fn new(session_id: &str) -> (r: Self)
        ensures
            r.id() == session_id@,
    {
        RivaStreamingSession { session_id: session_id.to_owned() }
    }

    /// What is to be sent of a chunk of audio: an empty one is not sent.
    pub fn send_chunk(&self, chunk: Vec<u8>) -> (r: Option<Vec<u8>>)
        ensures
            r == if chunk@.len() == 0 {
                None
            } else {
                Some(chunk)
            },
    {
        if chunk.len() == 0 {
            None
        } else {
            Some(chunk)
        }
    }

    /// The first segment that the results of a message give; where there is none, the next
    /// message is waited for.
    pub fn recv_next(&self, results: &Vec<StreamingRecognitionResult>) -> (r: Option<
        TranscriptionSegment,
    >)
        ensures
            opt_segment(r) == if result_segments(self.id(), results@).len() > 0 {
                Some(result_segments(self.id(), results@)[0])
            } else {
                None
            },
    {
        let n: usize = results.len();
        let mut i: usize = 0;
        assert(results@.take(0) == Seq::<StreamingRecognitionResult>::empty());
        while i < n
            invariant
                n == results.len(),
                i <= n,
                result_segments(self.id(), results@.take(i as int)).len() == 0,
            decreases n - i,
        {
            assert(results@.take(i + 1).drop_last() == results@.take(i as int));
            let segment = result_to_segment(self.session_id.as_str(), &results[i]);
            if segment.is_some() {
                proof {
                    lemma_first_segment_stays(self.id(), results@, i + 1);
                }
                return segment;
            }
            i = i + 1;
        }
        assert(results@.take(n as int) == results@);
        None
    }

    /// Adds the segments that the results of a message give.
    pub fn collect(
        &self,
        results: &Vec<StreamingRecognitionResult>,
        segments: &mut Vec<TranscriptionSegment>,
    )
        ensures
            queue::segment_views(final(segments)@) == queue::segment_views(old(segments)@)
                + result_segments(self.id(), results@),
    {
        let ghost start = queue::segment_views(segments@);
        let n: usize = results.len();
        let mut i: usize = 0;
        proof {
            assert(results@.take(0) == Seq::<StreamingRecognitionResult>::empty());
            assert(start == start + result_segments(self.id(), results@.take(0)));
        }
        while i < n
            invariant
                n == results.len(),
                i <= n,
                queue::segment_views(segments@) == start + result_segments(
                    self.id(),
                    results@.take(i as int),
                ),
            decreases n - i,
        {
            let ghost before = queue::segment_views(segments@);
            let ghost fewer = result_segments(self.id(), results@.take(i as int));
            assert(results@.take(i + 1).drop_last() == results@.take(i as int));
            if let Some(segment) = result_to_segment(self.session_id.as_str(), &results[i]) {
                segments.push(segment);
                assert(queue::segment_views(segments@) == before.push(segment@));
                assert(before.push(segment@) == start + fewer.push(segment@));
            }
            i = i + 1;
        }
        assert(results@.take(n as int) == results@);
    }
}

proof fn lemma_first_segment_stays(
    session_id: Seq<char>,
    results: Seq<StreamingRecognitionResult>,
    n: int,
)
    requires
        0 <= n <= results.len(),
        result_segments(session_id, results.take(n)).len() > 0,
    ensures
        result_segments(session_id, results).len() > 0,
        result_segments(session_id, results)[0] == result_segments(session_id, results.take(n))[0],
    decreases results.len(),
{
    if n == results.len() {
        assert(results.take(n) == results);
    } else {
        assert(results.drop_last().take(n) == results.take(n));
        lemma_first_segment_stays(session_id, results.drop_last(), n);
    }
}

proof fn lemma_blank(s: Seq<char>)
    ensures
        text::trimmed(s).len() == 0 <==> text::all_white(s),
{
    let (a, b) = text::trimming_takes_off_only_white_space(s);
    if text::trimmed(s).len() == 0 {
        assert(s == a + b);
    }
    if text::all_white(s) {
        text::trimming_leaves_the_middle(s, seq![], seq![]);
        assert(s + Seq::<char>::empty() + Seq::<char>::empty() == s);
    }
}

/// A segment holds all of what was read but for white space at the ends: the preferred reading is
/// white space, the text of the segment and white space, and the text neither begins nor ends with
/// white space.
pub proof fn segment_holds_all_that_was_read(
    session_id: Seq<char>,
    result: StreamingRecognitionResult,
) -> (ends: (Seq<char>, Seq<char>))
    requires
        result.is_final,
        result.alternatives@.len() > 0,
        !text::all_white(result.alternatives@[preferred(result.alternatives@)].transcript@),
    ensures
        ({
            let reading = result.alternatives@[preferred(result.alternatives@)];
            result_segment(session_id, result) matches Some(segment) && {
                &&& reading.transcript@ == ends.0 + segment.text + ends.1
                &&& text::all_white(ends.0)
                &&& text::all_white(ends.1)
                &&& segment.text.len() > 0
                &&& !text::white_space(segment.text.first())
                &&& !text::white_space(segment.text.last())
                &&& segment.session_id == session_id
                &&& segment.speaker_tag == words_tag(reading.words@)
                &&& segment.start_ms == words_start(reading.words@)
                &&& segment.end_ms == words_end(reading.words@, result.audio_processed_ms as int)
                &&& segment.is_final
            }
        }),
{
    let reading = result.alternatives@[preferred(result.alternatives@)];
    lemma_blank(reading.transcript@);
    lemma_times_fit(reading.words@);
    text::trimming_takes_off_only_white_space(reading.transcript@)
}

/// A result gives a segment unless it may still change, there is no reading, or the preferred one
/// is blank.
pub proof fn only_blank_results_give_nothing(
    session_id: Seq<char>,
    result: StreamingRecognitionResult,
)
    ensures
        result_segment(session_id, result) is None <==> {
            ||| !result.is_final
            ||| result.alternatives@.len() == 0
            ||| text::all_white(result.alternatives@[preferred(result.alternatives@)].transcript@)
        },
{
    lemma_blank(result.alternatives@[preferred(result.alternatives@)].transcript@);
}

/// One more reading is preferred unless the one preferred before is more confident; a single one is
/// preferred in any case.
pub proof fn later_reading_is_preferred(alternatives: Seq<Alternative>, one: Alternative)
    ensures
        preferred(seq![one]) == 0,
        alternatives.len() > 0 ==> 0 <= preferred(alternatives) < alternatives.len(),
        alternatives.len() > 0 ==> preferred(alternatives.push(one)) == if float_bits::exceeds(
            alternatives[preferred(alternatives)].confidence,
            one.confidence,
        ) {
            preferred(alternatives)
        } else {
            alternatives.len() as int
        },
{
    assert(alternatives.push(one).drop_last() == alternatives);
    if alternatives.len() > 0 {
        lemma_preferred_is_one(alternatives);
        assert(alternatives.push(one)[preferred(alternatives)] == alternatives[preferred(
            alternatives,
        )]);
    }
}

/// The tag of a segment is that of the highest positive speaker tag of its words, and that of nobody
/// where none is positive.
pub proof fn segment_has_the_highest_tag(words: Seq<WordInfo>, at: int)
    ensures
        0 <= at < words.len() && words[at].speaker_tag > 0 && (forall|i: int|
            0 <= i < words.len() ==> (#[trigger] words[i]).speaker_tag <= words[at].speaker_tag)
            ==> words_tag(words) == "Speaker_"@ + numeric::decimal(words[at].speaker_tag as nat),
        (forall|i: int| 0 <= i < words.len() ==> (#[trigger] words[i]).speaker_tag <= 0)
            ==> words_tag(words) == "Speaker_unknown"@,
{
    lemma_highest_tag(words);
}

proof fn lemma_highest_tag(words: Seq<WordInfo>)
    ensures
        highest_tag(words) >= 0,
        forall|i: int| 0 <= i < words.len() ==> (#[trigger] words[i]).speaker_tag <= highest_tag(
            words,
        ),
        highest_tag(words) > 0 ==> exists|i: int|
            0 <= i < words.len() && (#[trigger] words[i]).speaker_tag == highest_tag(words),
    decreases words.len(),
{
    if words.len() > 0 {
        let before = words.drop_last();
        lemma_highest_tag(before);
        assert forall|i: int| 0 <= i < words.len() implies (#[trigger] words[i]).speaker_tag
            <= highest_tag(words) by {
            if i < before.len() {
                assert(before[i] == words[i]);
            }
        }
        if highest_tag(words) > 0 {
            if words.last().speaker_tag > highest_tag(before) {
                assert(words[words.len() - 1].speaker_tag == highest_tag(words));
            } else {
                let i = choose|i: int|
                    0 <= i < before.len() && (#[trigger] before[i]).speaker_tag == highest_tag(
                        before,
                    );
                assert(words[i].speaker_tag == highest_tag(words));
            }
        }
    }
}

/// A segment begins when the first of its words does: not later than any, and at the known start of
/// one of them, or at zero where none is known.
pub proof fn segment_begins_with_its_first_word(words: Seq<WordInfo>)
    ensures
        forall|i: int|
            0 <= i < words.len() && (#[trigger] words[i]).start_time >= 0 ==> words_start(words)
                <= words[i].start_time,
        (exists|i: int|
            0 <= i < words.len() && (#[trigger] words[i]).start_time >= 0 && words[i].start_time
                == words_start(words)) || (words_start(words) == 0 && forall|i: int|
            0 <= i < words.len() ==> (#[trigger] words[i]).start_time < 0),
{
    lemma_earliest_start(words);
}

proof fn lemma_earliest_start(words: Seq<WordInfo>)
    ensures
        match earliest_start(words) {
            Some(start) => {
                &&& exists|i: int|
                    0 <= i < words.len() && (#[trigger] words[i]).start_time >= 0
                        && words[i].start_time == start
                &&& forall|i: int|
                    0 <= i < words.len() && (#[trigger] words[i]).start_time >= 0 ==> start
                        <= words[i].start_time
            },
            None => forall|i: int| 0 <= i < words.len() ==> (#[trigger] words[i]).start_time < 0,
        },
    decreases words.len(),
{
    if words.len() > 0 {
        let before = words.drop_last();
        lemma_earliest_start(before);
        assert(forall|i: int| 0 <= i < before.len() ==> before[i] == #[trigger] words[i]);
        assert(words[words.len() - 1] == words.last());
        if let Some(start) = earliest_start(before) {
            let i = choose|i: int|
                0 <= i < before.len() && (#[trigger] before[i]).start_time >= 0
                    && before[i].start_time == start;
            assert(words[i].start_time == start);
        }
    }
}

/// A segment ends when the last of its words does, or, where no end is known, where the audio that
/// has been dealt with ends; and in no case before it begins.
pub proof fn segment_ends_with_its_last_word(words: Seq<WordInfo>, audio_processed_ms: int)
    ensures
        ({
            let end = words_end(words, audio_processed_ms);
            &&& end >= words_start(words)
            &&& forall|i: int| 0 <= i < words.len() ==> end >= (#[trigger] words[i]).end_time
            &&& end > words_start(words) ==> (exists|i: int|
                0 <= i < words.len() && (#[trigger] words[i]).end_time == end) || (end
                == audio_processed_ms && forall|i: int|
                0 <= i < words.len() ==> (#[trigger] words[i]).end_time < 0)
            &&& (forall|i: int| 0 <= i < words.len() ==> (#[trigger] words[i]).end_time < 0) && audio_processed_ms
                >= words_start(words) ==> end == audio_processed_ms
        }),
{
    lemma_latest_end(words);
    lemma_times_fit(words);
}

proof fn lemma_latest_end(words: Seq<WordInfo>)
    ensures
        match latest_end(words) {
            Some(end) => {
                &&& exists|i: int|
                    0 <= i < words.len() && (#[trigger] words[i]).end_time >= 0 && words[i].end_time
                        == end
                &&& forall|i: int|
                    0 <= i < words.len() && (#[trigger] words[i]).end_time >= 0 ==> end
                        >= words[i].end_time
            },
            None => forall|i: int| 0 <= i < words.len() ==> (#[trigger] words[i]).end_time < 0,
        },
    decreases words.len(),
{
    if words.len() > 0 {
        let before = words.drop_last();
        lemma_latest_end(before);
        assert(forall|i: int| 0 <= i < before.len() ==> before[i] == #[trigger] words[i]);
        assert(words[words.len() - 1] == words.last());
        if let Some(end) = latest_end(before) {
            let i = choose|i: int|
                0 <= i < before.len() && (#[trigger] before[i]).end_time >= 0 && before[i].end_time
                    == end;
            assert(words[i].end_time == end);
        }
    }
}

/// Results give their segments one by one, in order.
pub proof fn results_are_taken_one_by_one(
    session_id: Seq<char>,
    a: Seq<StreamingRecognitionResult>,
    result: StreamingRecognitionResult,
    b: Seq<StreamingRecognitionResult>,
)
    ensures
        result_segments(session_id, a + b) == result_segments(session_id, a) + result_segments(
            session_id,
            b,
        ),
        result_segments(session_id, seq![result]) == match result_segment(session_id, result) {
            Some(segment) => seq![segment],
            None => Seq::<SegmentView>::empty(),
        },
    decreases b.len(),
{
    let one = seq![result];
    assert(one.drop_last() == Seq::<StreamingRecognitionResult>::empty());
    assert(result_segments(session_id, one.drop_last()) == Seq::<SegmentView>::empty());
    assert(result_segments(session_id, one) == match result_segment(session_id, result) {
        Some(segment) => seq![segment],
        None => Seq::<SegmentView>::empty(),
    });
    if b.len() == 0 {
        assert(a + b == a);
        assert(result_segments(session_id, a) + result_segments(session_id, b) == result_segments(
            session_id,
            a,
        ));
    } else {
        assert((a + b).drop_last() == a + b.drop_last());
        assert((a + b).last() == b.last());
        results_are_taken_one_by_one(session_id, a, result, b.drop_last());
        assert(result_segments(session_id, a + b) == result_segments(session_id, a)
            + result_segments(session_id, b));
    }
}

/// Entries of a configuration are read one by one.
pub proof fn entries_are_read_one_by_one(a: Seq<Seq<char>>, b: Seq<Seq<char>>)
    ensures
        configuration_entries(a + b) == configuration_entries(a) + configuration_entries(b),
    decreases b.len(),
{
    if b.len() == 0 {
        assert(a + b == a);
        assert(configuration_entries(a) + configuration_entries(b) == configuration_entries(a));
    } else {
        assert((a + b).drop_last() == a + b.drop_last());
        assert((a + b).last() == b.last());
        entries_are_read_one_by_one(a, b.drop_last());
        assert(configuration_entries(a + b) == configuration_entries(a) + configuration_entries(b));
    }
}

/// A name and a value that are joined by an equals sign are read wherever they stand between commas,
/// white space around either not counting; what has no equals sign is passed over.
pub proof fn joined_name_and_value_are_read(
    before: Seq<char>,
    name: Seq<char>,
    value: Seq<char>,
    other: Seq<char>,
    after: Seq<char>,
)
    requires
        !name.contains(','),
        !name.contains('='),
        !value.contains(','),
        !other.contains(','),
        !other.contains('='),
    ensures
        configuration_entries(
            text::pieces(
                before + seq![','] + (name + seq!['='] + value) + seq![','] + after,
                ',',
            ),
        ) == configuration_entries(text::pieces(before, ',')) + seq![
            (text::trimmed(name), text::trimmed(value)),
        ] + configuration_entries(text::pieces(after, ',')),
        configuration_entries(text::pieces(before + seq![','] + other + seq![','] + after, ','))
            == configuration_entries(text::pieces(before, ',')) + configuration_entries(
            text::pieces(after, ','),
        ),
{
    let entry = name + seq!['='] + value;
    assert(!entry.contains(',')) by {
        if entry.contains(',') {
            let i = choose|i: int| 0 <= i < entry.len() && entry[i] == ',';
            if i < name.len() {
                assert(name[i] == ',');
            } else if i > name.len() {
                assert(value[i - name.len() - 1] == ',');
            }
        }
    }
    lemma_one_entry(before, entry, after);
    lemma_one_entry(before, other, after);
    text::lemma_trimmed_cut(name, '=', value);
    let t = text::trimmed(other);
    let (a, b) = text::trimming_takes_off_only_white_space(other);
    assert(!t.contains('=')) by {
        if t.contains('=') {
            let i = choose|i: int| 0 <= i < t.len() && t[i] == '=';
            assert(other[i + a.len()] == '=');
        }
    }
    text::lemma_no_cut(t, '=');
    assert(configuration_entries(text::pieces(before, ',')) + Seq::<(Seq<char>, Seq<char>)>::empty()
        == configuration_entries(text::pieces(before, ',')));
}

proof fn lemma_one_entry(before: Seq<char>, entry: Seq<char>, after: Seq<char>)
    requires
        !entry.contains(','),
    ensures
        configuration_entries(text::pieces(before + seq![','] + entry + seq![','] + after, ','))
            == configuration_entries(text::pieces(before, ',')) + (match configuration_entry(
            entry,
        ) {
            Some(pair) => seq![pair],
            None => Seq::<(Seq<char>, Seq<char>)>::empty(),
        }) + configuration_entries(text::pieces(after, ',')),
{
    let head = before + seq![','] + entry;
    text::separator_splits_the_pieces(head, ',', after);
    text::separator_splits_the_pieces(before, ',', entry);
    text::lemma_pieces_whole(entry, ',');
    let one = seq![entry];
    entries_are_read_one_by_one(text::pieces(head, ','), text::pieces(after, ','));
    entries_are_read_one_by_one(text::pieces(before, ','), one);
    assert(one.drop_last() == Seq::<Seq<char>>::empty());
    assert(configuration_entries(one.drop_last()) == Seq::<(Seq<char>, Seq<char>)>::empty());
    assert(configuration_entries(one) == match configuration_entry(entry) {
        Some(pair) => seq![pair],
        None => Seq::<(Seq<char>, Seq<char>)>::empty(),
    });
}

/// Of pairs with the same name the last one counts, wherever it stands, and there are no other names.
pub proof fn last_pair_counts(pairs: Seq<(Seq<char>, Seq<char>)>, at: int, name: Seq<char>)
    ensures
        0 <= at < pairs.len() && pairs[at].0 == name && (forall|i: int|
            at < i < pairs.len() ==> (#[trigger] pairs[i]).0 != name) ==> last_values(
            pairs,
        ).contains_key(name) && last_values(pairs)[name] == pairs[at].1,
        last_values(pairs).contains_key(name) ==> exists|i: int|
            0 <= i < pairs.len() && (#[trigger] pairs[i]).0 == name,
    decreases pairs.len(),
{
    if pairs.len() > 0 {
        let before = pairs.drop_last();
        last_pair_counts(before, at, name);
        assert(forall|i: int| 0 <= i < before.len() ==> before[i] == #[trigger] pairs[i]);
        assert(pairs[pairs.len() - 1] == pairs.last());
        if last_values(before).contains_key(name) {
            let i = choose|i: int| 0 <= i < before.len() && (#[trigger] before[i]).0 == name;
            assert(pairs[i].0 == name);
        }
    }
}

/// The chunks in which audio is sent hold as many bytes as a millisecond takes, rounded up, for each
/// millisecond, and each stands where the ones before it end.
pub proof fn chunks_last_as_long_as_asked_for(
    audio: Seq<u8>,
    chunk_duration_ms: nat,
    sample_rate_hertz: int,
    per_ms: nat,
    i: int,
)
    requires
        chunk_duration_ms > 0,
        sample_rate_hertz > 0,
        per_ms * 1000 >= sample_rate_hertz * 2 > per_ms * 1000 - 1000,
        0 <= i,
        i * (chunk_duration_ms * per_ms) < audio.len(),
    ensures
        timeline::joined(timed_chunks(audio, chunk_duration_ms, sample_rate_hertz)) == audio,
        i < timed_chunks(audio, chunk_duration_ms, sample_rate_hertz).len(),
        timed_chunks(audio, chunk_duration_ms, sample_rate_hertz)[i] == audio.subrange(
            i * (chunk_duration_ms * per_ms),
            if (i + 1) * (chunk_duration_ms * per_ms) <= audio.len() {
                (i + 1) * (chunk_duration_ms * per_ms)
            } else {
                audio.len() as int
            },
        ),
{
    assert(bytes_per_ms(sample_rate_hertz) == per_ms);
    assert(chunk_duration_ms * per_ms > 0) by (nonlinear_arith)
        requires
            chunk_duration_ms > 0,
            per_ms > 0,
    ;
    timeline::chunks_make_up_the_whole(audio, chunk_duration_ms * per_ms);
    timeline::chunks_stand_in_order(audio, chunk_duration_ms * per_ms, i);
}

/// A setting of the client is what its variable holds.
pub proof fn client_settings_are_those_set(
    c: RivaClientConfig,
    env: Map<Seq<char>, Seq<char>>,
    before: Seq<char>,
    value: Seq<char>,
    after: Seq<char>,
    n: nat,
)
    requires
        is_client_config(c, env),
        text::all_white(before),
        text::all_white(after),
        value.len() > 0,
        !text::white_space(value.first()),
        !text::white_space(value.last()),
        n > 0,
    ensures
        env.contains_key("RIVA_ASR_ENDPOINT"@) && env["RIVA_ASR_ENDPOINT"@] == before + value + after
            ==> c.asr_endpoint@ == value,
        env.contains_key("RIVA_LANGUAGE_CODE"@) && env["RIVA_LANGUAGE_CODE"@] == before + value + after
            ==> c.language_code@ == value,
        env.contains_key("RIVA_ASR_MODEL"@) && env["RIVA_ASR_MODEL"@] == before + value + after
            ==> c.model_name@ == value,
        n <= i32::MAX && env.contains_key("RIVA_SAMPLE_RATE_HZ"@) && env["RIVA_SAMPLE_RATE_HZ"@]
            == numeric::decimal(n) ==> c.sample_rate_hertz == n,
        n <= u64::MAX && env.contains_key("RIVA_CHUNK_DURATION_MS"@) && env["RIVA_CHUNK_DURATION_MS"@]
            == numeric::decimal(n) ==> c.chunk_duration_ms == n,
        n <= i32::MAX && env.contains_key("RIVA_MAX_SPEAKER_COUNT"@) && env["RIVA_MAX_SPEAKER_COUNT"@]
            == numeric::decimal(n) ==> c.max_speaker_count == n,
{
    text::trimming_leaves_the_middle(before, value, after);
    if n <= i32::MAX {
        numeric::decimal_reads_back(n, i32::MAX as nat);
    }
    if n <= u64::MAX {
        numeric::decimal_reads_back(n, u64::MAX as nat);
    }
}

/// A setting of the client whose variable is not set has its default.
pub proof fn client_settings_have_defaults(
    c: RivaClientConfig,
    env: Map<Seq<char>, Seq<char>>,
)
    requires
        is_client_config(c, env),
    ensures
        !env.contains_key("RIVA_ASR_ENDPOINT"@) ==> c.asr_endpoint@ == "http://127.0.0.1:50051"@,
        !env.contains_key("RIVA_LANGUAGE_CODE"@) ==> c.language_code@ == "en-US"@,
        !env.contains_key("RIVA_ASR_MODEL"@) ==> c.model_name@ == ""@,
        !env.contains_key("RIVA_SAMPLE_RATE_HZ"@) ==> c.sample_rate_hertz == 16000,
        !env.contains_key("RIVA_CHUNK_DURATION_MS"@) ==> c.chunk_duration_ms == 100,
        !env.contains_key("RIVA_MAX_SPEAKER_COUNT"@) ==> c.max_speaker_count == 2,
        !env.contains_key("RIVA_INTERIM_RESULTS"@) ==> c.enable_interim_results,
{
}

/// Speech is recognised as the settings ask for: what they give is handed on as it is, and of the
/// entries of the configuration the last one of each name.
pub proof fn settings_are_handed_on(
    config: RecognitionConfig,
    settings: RivaClientConfig,
    at: int,
)
    requires
        is_set_up(config, settings),
    ensures
        config.sample_rate_hertz == settings.sample_rate_hertz,
        config.language_code@ == settings.language_code@,
        config.model@ == settings.model_name@,
        config.max_speaker_count == settings.max_speaker_count,
        config.max_alternatives == 1,
        config.audio_channel_count == 1,
        config.enable_word_time_offsets,
        config.enable_automatic_punctuation,
        config.enable_speaker_diarization,
        !config.profanity_filter,
        !config.verbatim_transcripts,
        !config.enable_separate_recognition_per_channel,
        0 <= at < settings.custom_configuration@.len() && (forall|i: int|
            at < i < settings.custom_configuration@.len() ==> (
            #[trigger] settings.custom_configuration@[i]).0@ != settings.custom_configuration@[at].0@)
            ==> config.custom_configuration@.contains_key(settings.custom_configuration@[at].0@)
            && config.custom_configuration@[settings.custom_configuration@[at].0@]
            == settings.custom_configuration@[at].1@,
{
    let pairs = brain::text_pairs(settings.custom_configuration@);
    if 0 <= at < pairs.len() {
        last_pair_counts(pairs, at, pairs[at].0);
    }
}

/// The entries of the configuration are those that the variable spells; where it is not set there
/// are none. Results that may still change are wanted unless the variable says otherwise.
pub proof fn configuration_is_that_set(c: RivaClientConfig, env: Map<Seq<char>, Seq<char>>)
    requires
        is_client_config(c, env),
    ensures
        env.contains_key("RIVA_CUSTOM_CONFIGURATION"@) ==> brain::text_pairs(c.custom_configuration@)
            == configuration_entries(text::pieces(env["RIVA_CUSTOM_CONFIGURATION"@], ',')),
        !env.contains_key("RIVA_CUSTOM_CONFIGURATION"@) ==> c.custom_configuration@.len() == 0,
        env.contains_key("RIVA_INTERIM_RESULTS"@) ==> (c.enable_interim_results
            <==> env::truth_word(env["RIVA_INTERIM_RESULTS"@]) != Some(false)),
{
    if !env.contains_key("RIVA_CUSTOM_CONFIGURATION"@) {
        reveal_strlit("");
        assert(""@ == Seq::<char>::empty());
        assert(!""@.contains(','));
        text::lemma_pieces_whole(""@, ',');
        let one = seq![""@];
        assert(one.drop_last() == Seq::<Seq<char>>::empty());
        text::trimming_leaves_the_middle(seq![], ""@, seq![]);
        assert(Seq::<char>::empty() + ""@ + Seq::<char>::empty() == ""@);
        text::lemma_no_cut(""@, '=');
        assert(configuration_entries(one.drop_last()).len() == 0);
        assert(configuration_entries(one).len() == 0);
        assert(brain::text_pairs(c.custom_configuration@).len() == c.custom_configuration@.len());
    }
}

/// Nothing is sent of audio that has no duration, or where a chunk has none.
pub proof fn chunks_without_duration_are_not_sent(
    audio: Seq<u8>,
    chunk_duration_ms: nat,
    sample_rate_hertz: int,
)
    requires
        audio.len() == 0 || chunk_duration_ms == 0 || sample_rate_hertz <= 0,
    ensures
        timed_chunks(audio, chunk_duration_ms, sample_rate_hertz).len() == 0,
{
}

} // verus!
