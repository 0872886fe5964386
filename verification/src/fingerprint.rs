//! What the voice of a segment is told by: the audio of the segment, or the tag of its speaker.
use vstd::arithmetic::div_mod::*;
use vstd::prelude::*;
use vstd::string::*;
use vstd::utf8::*;

use crate::audio::AudioInfo;
use crate::protocol;
use crate::protocol::{
    SegmentView, TranscriptionSegment, VoiceFingerprint, VOICE_FINGERPRINT_DIM,
};
use crate::queue;
use crate::timeline;
use crate::timeline::{audio_slice_for_time_range, AudioTimeline, EntryView};

verus! {

/// The number of frames into which the samples of a segment are divided.
pub const FRAMES: usize = 16;

/// The number of frequencies that are looked at in each frame.
pub const BINS: usize = 12;

/// The 64-bit FNV-1a hash of a sequence of bytes.
pub open spec fn fnv1a(bytes: Seq<u8>) -> u64
    decreases bytes.len(),
{
    if bytes.len() == 0 {
        0xcbf2_9ce4_8422_2325
    } else {
        (fnv1a(bytes.drop_last()) ^ (bytes.last() as u64)).wrapping_mul(0x0000_0100_0000_01b3)
    }
}

/// The 64-bit FNV-1a hash of a sequence of bytes.
pub fn fnv1a64(bytes: &[u8]) -> (r: u64)
    ensures
        r == fnv1a(bytes@),
{
    let n: usize = bytes.len();
    let mut hash: u64 = 0xcbf2_9ce4_8422_2325;
    let mut i: usize = 0;
    assert(bytes@.take(0) == Seq::<u8>::empty());
    while i < n
        invariant
            n == bytes@.len(),
            i <= n,
            hash == fnv1a(bytes@.take(i as int)),
        decreases n - i,
    {
        assert(bytes@.take(i + 1).drop_last() == bytes@.take(i as int));
        hash = (hash ^ (bytes[i] as u64)).wrapping_mul(0x0000_0100_0000_01b3);
        i = i + 1;
    }
    assert(bytes@.take(n as int) == bytes@);
    hash
}

/// Multiplying by the FNV prime can be undone.
proof fn lemma_prime_is_invertible(x: u64)
    ensures
        (x.wrapping_mul(0x0000_0100_0000_01b3) as int * 0xce96_5057_aff6_957b)
            % 0x1_0000_0000_0000_0000 == x,
{
    let m: int = 0x1_0000_0000_0000_0000;
    let p: int = 0x0000_0100_0000_01b3;
    let q: int = 0xce96_5057_aff6_957b;
    let k: int = 887_285_111_055;
    let y = (x as int * p) % m;
    assert(x.wrapping_mul(0x0000_0100_0000_01b3) as int == y);
    lemma_mul_mod_noop_left(x as int * p, q, m);
    assert(p * q == 1 + k * m);
    assert(x as int * p * q == x as int + (x as int * k) * m) by (nonlinear_arith)
        requires
            p * q == 1 + k * m,
    ;
    lemma_mod_multiples_vanish(x as int * k, x as int, m);
    assert(m * (x as int * k) + x as int == x as int + (x as int * k) * m) by (nonlinear_arith);
    lemma_small_mod(x as nat, m as nat);
}

proof fn lemma_hash_step_is_one_to_one(x: u64, y: u64, a: u8, b: u8)
    ensures
        (x ^ (a as u64)).wrapping_mul(0x0000_0100_0000_01b3) == (y ^ (b as u64)).wrapping_mul(
            0x0000_0100_0000_01b3,
        ) <==> x ^ (a as u64) == y ^ (b as u64),
        x ^ (a as u64) == x ^ (b as u64) <==> a == b,
        x ^ (a as u64) == y ^ (a as u64) <==> x == y,
{
    lemma_prime_is_invertible(x ^ (a as u64));
    lemma_prime_is_invertible(y ^ (b as u64));
    assert(x ^ (a as u64) == x ^ (b as u64) <==> a == b) by (bit_vector);
    assert(x ^ (a as u64) == y ^ (a as u64) <==> x == y) by (bit_vector);
}

/// Sequences of bytes that differ in one byte only have different hashes.
pub proof fn hash_tells_one_byte_apart(before: Seq<u8>, a: u8, b: u8, after: Seq<u8>)
    requires
        a != b,
    ensures
        fnv1a(before.push(a) + after) != fnv1a(before.push(b) + after),
    decreases after.len(),
{
    if after.len() == 0 {
        assert(before.push(a) + after == before.push(a));
        assert(before.push(b) + after == before.push(b));
        assert(before.push(a).drop_last() == before);
        assert(before.push(b).drop_last() == before);
        lemma_hash_step_is_one_to_one(fnv1a(before), fnv1a(before), a, b);
    } else {
        let rest = after.drop_last();
        hash_tells_one_byte_apart(before, a, b, rest);
        assert((before.push(a) + after).drop_last() == before.push(a) + rest);
        assert((before.push(b) + after).drop_last() == before.push(b) + rest);
        lemma_hash_step_is_one_to_one(
            fnv1a(before.push(a) + rest),
            fnv1a(before.push(b) + rest),
            after.last(),
            after.last(),
        );
    }
}

/// The component of a fingerprint that stands for a speaker tag, before it is scaled: one of the
/// numbers below two to the power of 53.
pub open spec fn tag_component(tag: Seq<char>, index: nat) -> u64 {
    (fnv1a(encode_utf8(tag)) ^ (index as u64).wrapping_mul(0x9e37_79b9_7f4a_7c15)) >> 11
}

/// The components of a fingerprint that stands for a speaker tag, before they are scaled.
pub fn speaker_fallback_components(speaker_tag: &str) -> (r: Vec<u64>)
    ensures
        r@.len() == VOICE_FINGERPRINT_DIM,
        forall|i: int|
            0 <= i < r@.len() ==> #[trigger] r@[i] == tag_component(speaker_tag@, i as nat),
        forall|i: int| 0 <= i < r@.len() ==> #[trigger] r@[i] < 0x20_0000_0000_0000,
{
    let seed: u64 = fnv1a64(speaker_tag.as_bytes());
    let mut out: Vec<u64> = Vec::new();
    let mut i: usize = 0;
    while i < VOICE_FINGERPRINT_DIM
        invariant
            i <= VOICE_FINGERPRINT_DIM,
            out.len() == i,
            seed == fnv1a(encode_utf8(speaker_tag@)),
            forall|k: int|
                0 <= k < i ==> #[trigger] out@[k] == tag_component(speaker_tag@, k as nat),
            forall|k: int| 0 <= k < i ==> #[trigger] out@[k] < 0x20_0000_0000_0000,
        decreases VOICE_FINGERPRINT_DIM - i,
    {
        let mixed: u64 = seed ^ (i as u64).wrapping_mul(0x9e37_79b9_7f4a_7c15);
        assert(mixed >> 11 < 0x20_0000_0000_0000) by (bit_vector);
        out.push(mixed >> 11);
        i = i + 1;
    }
    out
}

/// The signed 16-bit number whose little-endian bytes are given.
pub open spec fn sample_of(low: u8, high: u8) -> i16 {
    let v = low + 256 * high;
    if v >= 0x8000 {
        (v - 0x10000) as i16
    } else {
        v as i16
    }
}

/// The samples that bytes hold, two bytes each; an odd byte at the end is left out.
pub open spec fn samples_of(bytes: Seq<u8>) -> Seq<i16> {
    Seq::new(bytes.len() / 2, |i: int| sample_of(bytes[2 * i], bytes[2 * i + 1]))
}

/// The samples that bytes hold, two bytes each; an odd byte at the end is left out.
pub fn pcm_i16_samples(bytes: &[u8]) -> (r: Vec<i16>)
    ensures
        r@ == samples_of(bytes@),
{
    let len: usize = bytes.len();
    let n: usize = len / 2;
    let mut out: Vec<i16> = Vec::new();
    let mut i: usize = 0;
    while i < n
        invariant
            len == bytes@.len(),
            n == len / 2,
            i <= n,
            out.len() == i,
            forall|k: int|
                0 <= k < i ==> #[trigger] out@[k] == sample_of(bytes@[2 * k], bytes@[2 * k + 1]),
        decreases n - i,
    {
        let v: i32 = bytes[2 * i] as i32 + 256 * bytes[2 * i + 1] as i32;
        let sample: i16 = if v >= 0x8000 {
            (v - 0x10000) as i16
        } else {
            v as i16
        };
        out.push(sample);
        i = i + 1;
    }
    assert(out@ == samples_of(bytes@));
    out
}

/// Where a frame begins among a number of samples.
pub open spec fn frame_start(len: nat, frame: nat) -> nat {
    frame * len / FRAMES as nat
}

/// Where the frames of a number of samples begin and end.
pub fn frame_bounds(len: usize) -> (r: Vec<(usize, usize)>)
    requires
        len * (FRAMES - 1) <= usize::MAX,
    ensures
        r@.len() == FRAMES,
        forall|i: int|
            0 <= i < FRAMES ==> (#[trigger] r@[i]).0 == frame_start(len as nat, i as nat) && r@[i].1
                == frame_start(len as nat, (i + 1) as nat),
        forall|i: int| 0 <= i < FRAMES ==> (#[trigger] r@[i]).0 <= r@[i].1 <= len,
{
    let mut out: Vec<(usize, usize)> = Vec::new();
    let mut i: usize = 0;
    while i < FRAMES
        invariant
            len * (FRAMES - 1) <= usize::MAX,
            i <= FRAMES,
            out.len() == i,
            forall|k: int|
                0 <= k < i ==> (#[trigger] out@[k]).0 == frame_start(len as nat, k as nat)
                    && out@[k].1 == frame_start(len as nat, (k + 1) as nat),
            forall|k: int| 0 <= k < i ==> (#[trigger] out@[k]).0 <= out@[k].1 <= len,
        decreases FRAMES - i,
    {
        proof {
            lemma_frames_ascend(len as nat, i as nat);
            assert(i * len <= len * 15) by (nonlinear_arith)
                requires
                    i <= 15,
            ;
            assert(i + 1 < 16 ==> (i + 1) * len <= len * 15) by (nonlinear_arith);
        }
        let start: usize = i * len / FRAMES;
        let end: usize = if i + 1 == FRAMES {
            len
        } else {
            (i + 1) * len / FRAMES
        };
        out.push((start, end));
        i = i + 1;
    }
    out
}

proof fn lemma_frames_ascend(len: nat, frame: nat)
    requires
        frame < FRAMES,
    ensures
        frame_start(len, frame) <= frame_start(len, frame + 1) <= len,
        frame_start(len, FRAMES as nat) == len,
{
    assert(frame * len <= (frame + 1) * len <= 16 * len) by (nonlinear_arith)
        requires
            frame < 16,
    ;
}

/// The frames of a number of samples take them up from the first to the last, each where the one
/// before it ended.
pub proof fn frames_cover_the_samples(len: nat, frame: nat)
    requires
        frame < FRAMES,
    ensures
        frame_start(len, 0) == 0,
        frame_start(len, FRAMES as nat) == len,
        frame_start(len, frame) <= frame_start(len, frame + 1),
{
    lemma_frames_ascend(len, frame);
}

/// What a voice is told by.
#[derive(Debug, PartialEq, Eq)]
pub enum FingerprintSource {
    /// The samples of the segment.
    Samples(Vec<i16>),
    /// The tag of a speaker.
    Speaker(String),
}

/// The contents of what a voice is told by.
pub enum SourceView {
    Samples(Seq<i16>),
    Speaker(Seq<char>),
}

impl View for FingerprintSource {
    type V = SourceView;

    open spec fn view(&self) -> SourceView {
        match self {
            FingerprintSource::Samples(samples) => SourceView::Samples(samples@),
            FingerprintSource::Speaker(tag) => SourceView::Speaker(tag@),
        }
    }
}

impl Clone for FingerprintSource {
    fn clone(&self) -> (r: Self)
        ensures
            r@ == self@,
    {
        match self {
            FingerprintSource::Samples(samples) => {
                let copy = samples.clone();
                assert(copy@ == samples@);
                FingerprintSource::Samples(copy)
            },
            FingerprintSource::Speaker(tag) => FingerprintSource::Speaker(tag.clone()),
        }
    }
}

/// The view of an optional source.
pub open spec fn opt_source(source: Option<FingerprintSource>) -> Option<SourceView> {
    match source {
        Some(s) => Some(s@),
        None => None,
    }
}

/// The views of optional sources.
pub open spec fn opt_sources(sources: Seq<Option<FingerprintSource>>) -> Seq<Option<SourceView>> {
    sources.map_values(|s: Option<FingerprintSource>| opt_source(s))
}

/// Tells whether there are samples, all of them silent.
pub open spec fn is_silent(samples: Seq<i16>) -> bool {
    &&& samples.len() > 0
    &&& forall|i: int| 0 <= i < samples.len() ==> #[trigger] samples[i] == 0
}

/// What the voice in a stretch of audio is told by: its samples, where it holds any.
pub open spec fn acoustic_source(audio: Seq<u8>) -> SourceView {
    if samples_of(audio).len() == 0 {
        SourceView::Speaker("Speaker_unknown"@)
    } else {
        SourceView::Samples(samples_of(audio))
    }
}

/// What the voice of a segment is told by, given its audio: the audio, or, where there is none,
/// the tag of the speaker, unless the voice is known.
pub open spec fn segment_source(segment: SegmentView, audio: Seq<u8>) -> Option<SourceView> {
    if audio.len() > 0 {
        Some(acoustic_source(audio))
    } else if segment.voice_fingerprint is None {
        Some(SourceView::Speaker(segment.speaker_tag))
    } else {
        None
    }
}

/// What the voice of a segment of a recording is told by, given its audio. Silence tells no two
/// speakers apart, so it does not tell a voice that is not known: the tag of the speaker does.
pub open spec fn recording_source(segment: SegmentView, audio: Seq<u8>) -> Option<SourceView> {
    if is_silent(samples_of(audio)) && segment.voice_fingerprint is None {
        Some(SourceView::Speaker(segment.speaker_tag))
    } else {
        segment_source(segment, audio)
    }
}

/// The audio of a timeline between two moments.
pub open spec fn timeline_audio(entries: Seq<EntryView>, start_ms: u64, end_ms: u64) -> Seq<u8> {
    if start_ms < end_ms {
        timeline::entries_between(entries, start_ms, end_ms)
    } else {
        seq![]
    }
}

/// Every segment has a voice in the end: where there is nothing to tell it by, it is known.
pub proof fn every_segment_gets_a_voice(segment: SegmentView, audio: Seq<u8>)
    ensures
        segment_source(segment, audio) is None ==> segment.voice_fingerprint is Some,
        recording_source(segment, audio) is None ==> segment.voice_fingerprint is Some,
        segment.voice_fingerprint is None && audio.len() == 0 ==> segment_source(segment, audio)
            == Some(SourceView::Speaker(segment.speaker_tag)),
        segment.voice_fingerprint is None && audio.len() == 0 ==> recording_source(segment, audio)
            == Some(SourceView::Speaker(segment.speaker_tag)),
{
}

/// In a recording, silence under two tags gives two voices where none is known.
pub proof fn silent_speakers_are_told_apart(
    a: SegmentView,
    b: SegmentView,
    audio: Seq<u8>,
    other: Seq<u8>,
)
    requires
        a.voice_fingerprint is None,
        b.voice_fingerprint is None,
        a.speaker_tag != b.speaker_tag,
        is_silent(samples_of(audio)),
        is_silent(samples_of(other)),
    ensures
        recording_source(a, audio) != recording_source(b, other),
{
}

fn all_silent(samples: &Vec<i16>) -> (r: bool)
    ensures
        r == is_silent(samples@),
{
    let n: usize = samples.len();
    let mut i: usize = 0;
    while i < n
        invariant
            n == samples.len(),
            i <= n,
            forall|k: int| 0 <= k < i ==> #[trigger] samples@[k] == 0,
        decreases n - i,
    {
        if samples[i] != 0 {
            return false;
        }
        i = i + 1;
    }
    n > 0
}

/// The bytes of a stretch of audio, where there is one.
spec fn opt_bytes(audio: Option<Vec<u8>>) -> Seq<u8> {
    match audio {
        Some(bytes) => bytes@,
        None => seq![],
    }
}

/// What the voice of a segment is told by, given its audio, where there is any.
fn source_for(segment: &TranscriptionSegment, audio: Option<Vec<u8>>) -> (r: Option<
    FingerprintSource,
>)
    ensures
        opt_source(r) == segment_source(segment@, opt_bytes(audio)),
        audio is Some && audio->0@.len() >= 2 ==> (r matches Some(
            FingerprintSource::Samples(samples),
        ) && samples@.len() == audio->0@.len() / 2 && samples@ == samples_of(audio->0@)),
{
    if let Some(bytes) = audio {
        if bytes.len() > 0 {
            let samples = pcm_i16_samples(bytes.as_slice());
            if samples.len() == 0 {
                return Some(FingerprintSource::Speaker("Speaker_unknown".to_owned()));
            }
            return Some(FingerprintSource::Samples(samples));
        }
    }
    if segment.voice_fingerprint.is_none() {
        Some(FingerprintSource::Speaker(segment.speaker_tag.clone()))
    } else {
        None
    }
}

/// What the voice of a segment of a recording is told by, given its audio, where there is any.
fn recording_source_for(segment: &TranscriptionSegment, audio: Option<Vec<u8>>) -> (r: Option<
    FingerprintSource,
>)
    ensures
        opt_source(r) == recording_source(segment@, opt_bytes(audio)),
{
    match source_for(segment, audio) {
        Some(FingerprintSource::Samples(samples)) => {
            if segment.voice_fingerprint.is_none() && all_silent(&samples) {
                Some(FingerprintSource::Speaker(segment.speaker_tag.clone()))
            } else {
                Some(FingerprintSource::Samples(samples))
            }
        },
        source => source,
    }
}

/// What the voices of the segments of a recording are told by.
pub fn bridge_audio_fingerprints(
    segments: &Vec<TranscriptionSegment>,
    audio: &[u8],
    info: AudioInfo,
) -> (r: Vec<Option<FingerprintSource>>)
    ensures
        opt_sources(r@) == queue::segment_views(segments@).map_values(
            |s: SegmentView|
                recording_source(
                    s,
                    timeline::bytes_between(audio@, s.start_ms as nat, s.end_ms as nat, info),
                ),
        ),
{
    let ghost want = queue::segment_views(segments@).map_values(
        |s: SegmentView|
            recording_source(
                s,
                timeline::bytes_between(audio@, s.start_ms as nat, s.end_ms as nat, info),
            ),
    );
    let n: usize = segments.len();
    let mut out: Vec<Option<FingerprintSource>> = Vec::new();
    let mut i: usize = 0;
    while i < n
        invariant
            n == segments.len(),
            i <= n,
            out.len() == i,
            want == queue::segment_views(segments@).map_values(
                |s: SegmentView|
                    recording_source(
                        s,
                        timeline::bytes_between(audio@, s.start_ms as nat, s.end_ms as nat, info),
                    ),
            ),
            forall|k: int| 0 <= k < i ==> opt_source(#[trigger] out@[k]) == want[k],
        decreases n - i,
    {
        let segment = &segments[i];
        let slice = audio_slice_for_time_range(audio, segment.start_ms, segment.end_ms, info);
        let ghost bytes = timeline::bytes_between(
            audio@,
            segment.start_ms as nat,
            segment.end_ms as nat,
            info,
        );
        assert(slice is None ==> bytes == Seq::<u8>::empty());
        let source = recording_source_for(segment, slice);
        out.push(source);
        i = i + 1;
    }
    assert(opt_sources(out@) == want);
    out
}

/// What the voices of the last segments of live audio are told by.
pub fn bridge_audio_fingerprints_from_timeline(
    segments: &Vec<TranscriptionSegment>,
    timeline: &AudioTimeline,
) -> (r: Vec<Option<FingerprintSource>>)
    ensures
        opt_sources(r@) == queue::segment_views(segments@).map_values(
            |s: SegmentView| segment_source(s, timeline_audio(timeline@, s.start_ms, s.end_ms)),
        ),
{
    let ghost want = queue::segment_views(segments@).map_values(
        |s: SegmentView| segment_source(s, timeline_audio(timeline@, s.start_ms, s.end_ms)),
    );
    let n: usize = segments.len();
    let mut out: Vec<Option<FingerprintSource>> = Vec::new();
    let mut i: usize = 0;
    while i < n
        invariant
            n == segments.len(),
            i <= n,
            out.len() == i,
            want == queue::segment_views(segments@).map_values(
                |s: SegmentView| segment_source(s, timeline_audio(timeline@, s.start_ms, s.end_ms)),
            ),
            forall|k: int| 0 <= k < i ==> opt_source(#[trigger] out@[k]) == want[k],
        decreases n - i,
    {
        let segment = &segments[i];
        let slice = timeline.audio_for_range(segment.start_ms, segment.end_ms);
        assert(slice is None ==> timeline_audio(timeline@, segment.start_ms, segment.end_ms)
            == Seq::<u8>::empty());
        let source = source_for(segment, slice);
        out.push(source);
        i = i + 1;
    }
    assert(opt_sources(out@) == want);
    out
}

/// What the voice of a segment of live audio is told by, unless the voice is known.
pub fn bridge_audio_fingerprint_from_timeline(
    segment: &TranscriptionSegment,
    timeline: &AudioTimeline,
) -> (r: Option<FingerprintSource>)
    ensures
        opt_source(r) == if segment@.voice_fingerprint is Some {
            None
        } else {
            segment_source(segment@, timeline_audio(timeline@, segment.start_ms, segment.end_ms))
        },
{
    if segment.voice_fingerprint.is_some() {
        return None;
    }
    let slice = timeline.audio_for_range(segment.start_ms, segment.end_ms);
    assert(slice is None ==> timeline_audio(timeline@, segment.start_ms, segment.end_ms) == Seq::<
        u8,
    >::empty());
    source_for(segment, slice)
}

/// A segment with its voice set, where there is one to be set.
pub open spec fn with_voice(segment: SegmentView, voice: Option<Seq<u32>>) -> SegmentView {
    match voice {
        Some(v) => SegmentView { voice_fingerprint: Some(v), ..segment },
        None => segment,
    }
}

/// Sets the voice of a segment, where there is one to be set.
pub fn set_fingerprint(segment: TranscriptionSegment, fingerprint: Option<VoiceFingerprint>) -> (r:
    TranscriptionSegment)
    ensures
        r@ == with_voice(segment@, protocol::opt_fingerprint(fingerprint)),
{
    match fingerprint {
        Some(f) => segment.with_voice_fingerprint(f),
        None => segment,
    }
}

/// The samples that bytes hold are their little-endian 16-bit numbers, one for every two bytes.
pub proof fn samples_are_little_endian(bytes: Seq<u8>)
    ensures
        samples_of(bytes).len() == bytes.len() / 2,
        forall|i: int|
            0 <= i < bytes.len() / 2 ==> #[trigger] samples_of(bytes)[i] == bytes[2 * i] + 256
                * bytes[2 * i + 1] - (if bytes[2 * i + 1] >= 128 {
                65536int
            } else {
                0
            }),
{
}

/// Audio that holds samples is told by them, all of them, however many there are; only silence in a
/// recording is not, where the voice is not known.
pub proof fn audio_is_told_by_its_samples(segment: SegmentView, audio: Seq<u8>)
    requires
        audio.len() >= 2,
    ensures
        segment_source(segment, audio) matches Some(SourceView::Samples(samples)) && samples.len()
            == audio.len() / 2 && forall|i: int|
            0 <= i < audio.len() / 2 ==> #[trigger] samples[i] == audio[2 * i] + 256 * audio[2 * i
                + 1] - (if audio[2 * i + 1] >= 128 {
                65536int
            } else {
                0
            }),
        segment.voice_fingerprint is Some || (exists|k: int|
            0 <= k < audio.len() / 2 * 2 && #[trigger] audio[k] != 0) ==> recording_source(
            segment,
            audio,
        ) == segment_source(segment, audio),
        segment.voice_fingerprint is None && (forall|k: int|
            0 <= k < audio.len() / 2 * 2 ==> #[trigger] audio[k] == 0) ==> recording_source(
            segment,
            audio,
        ) == Some(SourceView::Speaker(segment.speaker_tag)),
{
    let samples = samples_of(audio);
    if exists|k: int| 0 <= k < audio.len() / 2 * 2 && #[trigger] audio[k] != 0 {
        let k = choose|k: int| 0 <= k < audio.len() / 2 * 2 && #[trigger] audio[k] != 0;
        assert(k == 2 * (k / 2) || k == 2 * (k / 2) + 1);
        assert(samples[k / 2] == sample_of(audio[2 * (k / 2)], audio[2 * (k / 2) + 1]));
        assert(samples[k / 2] != 0);
    }
    if forall|k: int| 0 <= k < audio.len() / 2 * 2 ==> #[trigger] audio[k] == 0 {
        assert forall|i: int| 0 <= i < samples.len() implies #[trigger] samples[i] == 0 by {
            assert(audio[2 * i] == 0);
            assert(audio[2 * i + 1] == 0);
        }
    }
}

/// A tag tells a voice only where there is nothing else to tell it by: the tag of the segment, where
/// the voice is not known and there is no audio or only silence; and the tag of nobody, where there
/// is one byte of audio, which holds no sample.
pub proof fn tag_tells_a_voice_only_without_samples(segment: SegmentView, audio: Seq<u8>)
    ensures
        segment_source(segment, audio) matches Some(SourceView::Speaker(tag)) ==> {
            ||| audio.len() == 1 && tag == "Speaker_unknown"@
            ||| audio.len() == 0 && segment.voice_fingerprint is None && tag == segment.speaker_tag
        },
        recording_source(segment, audio) matches Some(SourceView::Speaker(tag)) ==> {
            ||| audio.len() == 1 && tag == "Speaker_unknown"@
            ||| segment.voice_fingerprint is None && tag == segment.speaker_tag && forall|k: int|
                0 <= k < audio.len() / 2 * 2 ==> #[trigger] audio[k] == 0
        },
        audio.len() == 1 ==> segment_source(segment, audio) == Some(
            SourceView::Speaker("Speaker_unknown"@),
        ) && recording_source(segment, audio) == Some(SourceView::Speaker("Speaker_unknown"@)),
        segment_source(segment, audio) is None <==> audio.len() == 0
            && segment.voice_fingerprint is Some,
        recording_source(segment, audio) is None <==> audio.len() == 0
            && segment.voice_fingerprint is Some,
{
    if audio.len() >= 2 {
        audio_is_told_by_its_samples(segment, audio);
        if exists|k: int| 0 <= k < audio.len() / 2 * 2 && #[trigger] audio[k] != 0 {
        } else {
            assert(forall|k: int| 0 <= k < audio.len() / 2 * 2 ==> #[trigger] audio[k] == 0);
        }
    }
}

/// Segments with different samples have different sources: one more sample, or another byte in any
/// of them, gives another source. In a recording it does so unless both are silent.
pub proof fn different_samples_give_different_sources(
    a: SegmentView,
    b: SegmentView,
    audio: Seq<u8>,
    other: Seq<u8>,
)
    requires
        audio.len() >= 2,
        other.len() >= 2,
        audio.len() / 2 != other.len() / 2 || exists|k: int|
            0 <= k < audio.len() / 2 * 2 && #[trigger] audio[k] != other[k],
    ensures
        segment_source(a, audio) != segment_source(b, other),
        a.voice_fingerprint is Some && b.voice_fingerprint is Some ==> recording_source(a, audio)
            != recording_source(b, other),
        (exists|k: int| 0 <= k < audio.len() / 2 * 2 && #[trigger] audio[k] != 0)
            ==> recording_source(a, audio) != recording_source(b, other),
        (exists|k: int| 0 <= k < other.len() / 2 * 2 && #[trigger] other[k] != 0)
            ==> recording_source(a, audio) != recording_source(b, other),
{
    let x = samples_of(audio);
    let y = samples_of(other);
    audio_is_told_by_its_samples(a, audio);
    audio_is_told_by_its_samples(b, other);
    if audio.len() / 2 == other.len() / 2 {
        let k = choose|k: int| 0 <= k < audio.len() / 2 * 2 && #[trigger] audio[k] != other[k];
        let i = k / 2;
        assert(k == 2 * i || k == 2 * i + 1);
        assert(x[i] == sample_of(audio[2 * i], audio[2 * i + 1]));
        assert(y[i] == sample_of(other[2 * i], other[2 * i + 1]));
        lemma_samples_differ(audio[2 * i], audio[2 * i + 1], other[2 * i], other[2 * i + 1]);
        assert(x[i] != y[i]);
    }
    assert(x != y);
}

proof fn lemma_samples_differ(low: u8, high: u8, other_low: u8, other_high: u8)
    requires
        low != other_low || high != other_high,
    ensures
        sample_of(low, high) != sample_of(other_low, other_high),
{
}

/// A hash goes on byte by byte: each byte is mixed into the lowest eight bits, and the whole is
/// multiplied by the prime.
pub proof fn hash_goes_on_byte_by_byte(bytes: Seq<u8>, byte: u8)
    ensures
        fnv1a(bytes.push(byte)) == ((fnv1a(bytes) ^ (byte as u64)) * 0x0000_0100_0000_01b3)
            % 0x1_0000_0000_0000_0000,
        fnv1a(seq![]) == 0xcbf2_9ce4_8422_2325,
{
    assert(bytes.push(byte).drop_last() == bytes);
}

/// A component that stands for a tag is the upper 53 bits of the hash, mixed with a number that
/// tells the components apart.
pub proof fn component_is_the_upper_bits(tag: Seq<char>, index: nat)
    requires
        index < VOICE_FINGERPRINT_DIM,
    ensures
        tag_component(tag, index) == (fnv1a(encode_utf8(tag)) ^ ((index * 0x9e37_79b9_7f4a_7c15)
            % 0x1_0000_0000_0000_0000) as u64) / 2048,
{
    let mixed = fnv1a(encode_utf8(tag)) ^ (index as u64).wrapping_mul(0x9e37_79b9_7f4a_7c15);
    assert(mixed >> 11 == mixed / 2048) by (bit_vector);
}

/// A frame begins where its share of the samples, rounded down, ends.
pub proof fn frames_are_even(len: nat, frame: nat)
    ensures
        frame_start(len, frame) * 16 <= frame * len < frame_start(len, frame) * 16 + 16,
{
}

/// Setting a voice changes nothing but the voice, and where there is none to be set, nothing at all.
pub proof fn voice_is_set_alone(segment: SegmentView, voice: Seq<u32>)
    ensures
        with_voice(segment, None) == segment,
        with_voice(segment, Some(voice)).voice_fingerprint == Some(voice),
        with_voice(
            SegmentView { voice_fingerprint: Some(voice), ..segment },
            segment.voice_fingerprint,
        ) == (SegmentView {
            voice_fingerprint: if segment.voice_fingerprint is Some {
                segment.voice_fingerprint
            } else {
                Some(voice)
            },
            ..segment
        }),
{
}

/// The views of sources are those of the sources, one for one.
pub proof fn sources_are_seen_whole(sources: Seq<Option<FingerprintSource>>)
    ensures
        opt_sources(sources).len() == sources.len(),
        forall|i: int|
            0 <= i < sources.len() ==> {
                &&& (#[trigger] opt_sources(sources)[i]) is None <==> sources[i] is None
                &&& sources[i] is Some ==> opt_sources(sources)[i] == Some(sources[i]->0@)
            },
{
}

} // verus!
