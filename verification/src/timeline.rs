//! Where a moment of a recording stands among its bytes.
use vstd::arithmetic::div_mod::*;
use vstd::prelude::*;
use vstd::slice::*;

use crate::audio;
use crate::audio::AudioInfo;

verus! {

/// The byte at which a moment of a recording begins; a byte that cannot be counted is the last
/// one that can.
pub open spec fn byte_at(ms: nat, info: AudioInfo) -> nat {
    let at = ms * info.sample_rate_hz as nat * audio::frame_bytes(info) / 1000;
    if at > usize::MAX {
        usize::MAX as nat
    } else {
        at
    }
}

/// The byte at which a moment of a recording begins.
pub fn sample_index_for_ms(ms: u64, info: AudioInfo) -> (r: usize)
    ensures
        r == byte_at(ms as nat, info),
{
    let bytes_per_sample: u128 = (info.bits_per_sample / 8) as u128;
    let channels: u128 = info.channels as u128;
    assert(bytes_per_sample * channels <= 0x1fff * 0xffff) by (nonlinear_arith)
        requires
            bytes_per_sample <= 0x1fff,
            channels <= 0xffff,
    ;
    let bytes_per_frame: u128 = bytes_per_sample * channels;
    let sample_rate: u128 = info.sample_rate_hz as u128;
    proof {
        assert(audio::frame_bytes(info) == bytes_per_frame) by {
            assert(bytes_per_sample * channels == channels * bytes_per_sample) by (nonlinear_arith);
        }
        assert(0 <= ms as u128 * sample_rate <= 0xffff_ffff_ffff_ffff * 0xffff_ffff)
            by (nonlinear_arith)
            requires
                ms <= 0xffff_ffff_ffff_ffff,
                sample_rate <= 0xffff_ffff,
        ;
    }
    let product: u128 = ms as u128 * sample_rate;
    assert(product * bytes_per_frame <= 0xffff_ffff_ffff_ffff * 0xffff_ffff * 0x1ffe_e001)
        by (nonlinear_arith)
        requires
            product <= 0xffff_ffff_ffff_ffff * 0xffff_ffff,
            bytes_per_frame <= 0x1fff * 0xffff,
            0x1fff * 0xffff == 0x1ffe_e001,
    ;
    let at: u128 = product * bytes_per_frame / 1000;
    if at > usize::MAX as u128 {
        usize::MAX
    } else {
        at as usize
    }
}

/// A later moment does not begin earlier.
pub proof fn byte_at_is_monotone(a: nat, b: nat, info: AudioInfo)
    requires
        a <= b,
    ensures
        byte_at(a, info) <= byte_at(b, info),
{
    let rate = info.sample_rate_hz as nat;
    let frame = audio::frame_bytes(info);
    assert(a * rate <= b * rate) by (nonlinear_arith)
        requires
            a <= b,
    ;
    assert(a * rate * frame <= b * rate * frame) by (nonlinear_arith)
        requires
            a * rate <= b * rate,
            frame >= 0,
    ;
}

/// The bytes of a recording from one moment to another, as far as there are any.
pub open spec fn bytes_between(audio: Seq<u8>, start_ms: nat, end_ms: nat, info: AudioInfo) -> Seq<
    u8,
> {
    let start = byte_at(start_ms, info) as int;
    let end = if byte_at(end_ms, info) <= audio.len() {
        byte_at(end_ms, info) as int
    } else {
        audio.len() as int
    };
    if start_ms < end_ms && start < end {
        audio.subrange(start, end)
    } else {
        seq![]
    }
}

/// The bytes of a recording from one moment to another, where there are any.
pub fn audio_slice_for_time_range(
    audio: &[u8],
    start_ms: u64,
    end_ms: u64,
    info: AudioInfo,
) -> (r: Option<Vec<u8>>)
    ensures
        match r {
            Some(slice) => slice@ == bytes_between(audio@, start_ms as nat, end_ms as nat, info)
                && slice@.len() > 0,
            None => bytes_between(audio@, start_ms as nat, end_ms as nat, info).len() == 0,
        },
{
    if end_ms <= start_ms {
        return None;
    }
    let start: usize = sample_index_for_ms(start_ms, info);
    let at: usize = sample_index_for_ms(end_ms, info);
    let end: usize = if at <= audio.len() {
        at
    } else {
        audio.len()
    };
    if start < end {
        Some(slice_to_vec(slice_subrange(audio, start, end)))
    } else {
        None
    }
}

/// Two stretches of a recording that meet make up the stretch from the start of the one to the
/// end of the other.
pub proof fn adjoining_stretches_join(
    audio: Seq<u8>,
    start_ms: nat,
    middle_ms: nat,
    end_ms: nat,
    info: AudioInfo,
)
    requires
        start_ms <= middle_ms <= end_ms,
    ensures
        bytes_between(audio, start_ms, middle_ms, info) + bytes_between(
            audio,
            middle_ms,
            end_ms,
            info,
        ) == bytes_between(audio, start_ms, end_ms, info),
{
    byte_at_is_monotone(start_ms, middle_ms, info);
    byte_at_is_monotone(middle_ms, end_ms, info);
}

/// A sequence of bytes cut into chunks of `size` bytes, the last of which may be shorter.
pub open spec fn chunks_of(bytes: Seq<u8>, size: nat) -> Seq<Seq<u8>>
    recommends
        size > 0,
    decreases bytes.len(),
{
    if size == 0 || bytes.len() == 0 {
        seq![]
    } else if bytes.len() <= size {
        seq![bytes]
    } else {
        seq![bytes.take(size as int)] + chunks_of(bytes.skip(size as int), size)
    }
}

/// The contents of a list of chunks.
pub open spec fn chunk_views(chunks: Seq<Vec<u8>>) -> Seq<Seq<u8>> {
    chunks.map_values(|c: Vec<u8>| c@)
}

/// Cuts bytes into chunks; a size of zero counts as one.
pub fn chunk_bytes(audio: &[u8], chunk_size: usize) -> (r: Vec<Vec<u8>>)
    ensures
        chunk_views(r@) == chunks_of(
            audio@,
            if chunk_size == 0 {
                1
            } else {
                chunk_size as nat
            },
        ),
{
    let size: usize = if chunk_size == 0 {
        1
    } else {
        chunk_size
    };
    let n: usize = audio.len();
    let mut out: Vec<Vec<u8>> = Vec::new();
    let mut at: usize = 0;
    proof {
        assert(audio@.skip(0) == audio@);
        assert(chunk_views(out@) + chunks_of(audio@.skip(0), size as nat) == chunks_of(
            audio@,
            size as nat,
        ));
    }
    while at < n
        invariant
            n == audio@.len(),
            at <= n,
            size > 0,
            chunk_views(out@) + chunks_of(audio@.skip(at as int), size as nat) == chunks_of(
                audio@,
                size as nat,
            ),
        decreases n - at,
    {
        let end: usize = if n - at <= size {
            n
        } else {
            at + size
        };
        let ghost before = chunk_views(out@);
        let ghost rest = audio@.skip(at as int);
        let chunk = slice_to_vec(slice_subrange(audio, at, end));
        out.push(chunk);
        proof {
            assert(chunk_views(out@) == before.push(chunk@));
            if rest.len() <= size {
                assert(chunk@ == rest);
                assert(audio@.skip(end as int) == Seq::<u8>::empty());
                assert(chunk_views(out@) + chunks_of(audio@.skip(end as int), size as nat) == before
                    + seq![rest]);
            } else {
                assert(chunk@ == rest.take(size as int));
                assert(audio@.skip(end as int) == rest.skip(size as int));
                assert(chunk_views(out@) + chunks_of(rest.skip(size as int), size as nat) == before
                    + (seq![chunk@] + chunks_of(rest.skip(size as int), size as nat)));
            }
        }
        at = end;
    }
    proof {
        assert(audio@.skip(n as int) == Seq::<u8>::empty());
        assert(chunk_views(out@) + chunks_of(audio@.skip(n as int), size as nat) == chunk_views(
            out@,
        ));
    }
    out
}

/// The bytes of chunks put together.
pub open spec fn joined(chunks: Seq<Seq<u8>>) -> Seq<u8>
    decreases chunks.len(),
{
    if chunks.len() == 0 {
        seq![]
    } else {
        chunks[0] + joined(chunks.skip(1))
    }
}

/// Chunks put together make up the bytes that were cut; none is empty, none is longer than asked
/// for, and all but the last are as long as asked for.
pub proof fn chunks_make_up_the_whole(bytes: Seq<u8>, size: nat)
    requires
        size > 0,
    ensures
        joined(chunks_of(bytes, size)) == bytes,
        forall|i: int|
            0 <= i < chunks_of(bytes, size).len() ==> 0 < (#[trigger] chunks_of(
                bytes,
                size,
            )[i]).len() <= size,
        forall|i: int|
            0 <= i < chunks_of(bytes, size).len() - 1 ==> (#[trigger] chunks_of(
                bytes,
                size,
            )[i]).len() == size,
    decreases bytes.len(),
{
    let all = chunks_of(bytes, size);
    if bytes.len() == 0 {
        assert(joined(all) == bytes);
    } else if bytes.len() <= size {
        assert(all.skip(1) == Seq::<Seq<u8>>::empty());
        assert(joined(all.skip(1)) == Seq::<u8>::empty());
        assert(joined(all) == bytes);
    } else {
        let rest = bytes.skip(size as int);
        let others = chunks_of(rest, size);
        chunks_make_up_the_whole(rest, size);
        assert(all.skip(1) == others);
        assert(bytes == bytes.take(size as int) + rest);
        assert forall|i: int| 0 <= i < all.len() implies 0 < (#[trigger] all[i]).len() <= size by {
            if i > 0 {
                assert(all[i] == others[i - 1]);
            }
        }
        assert forall|i: int| 0 <= i < all.len() - 1 implies (#[trigger] all[i]).len() == size by {
            if i > 0 {
                assert(all[i] == others[i - 1]);
            }
        }
    }
}

/// The number of bytes that a second takes.
pub open spec fn byte_rate(info: AudioInfo) -> nat {
    info.sample_rate_hz as nat * audio::frame_bytes(info)
}

/// How long a number of bytes lasts, in milliseconds rounded up and at least one; zero where the
/// layout holds no bytes.
pub open spec fn duration_of(len: nat, info: AudioInfo) -> nat {
    let rate = byte_rate(info);
    if rate == 0 {
        0
    } else if len == 0 {
        1
    } else {
        ((len * 1000 - 1) / rate as int + 1) as nat
    }
}

/// How long a number of bytes lasts, in milliseconds.
pub fn chunk_duration_ms(chunk_len: usize, info: AudioInfo) -> (r: u64)
    requires
        byte_rate(info) > 0 ==> chunk_len * 1000 <= u64::MAX,
    ensures
        r == duration_of(chunk_len as nat, info),
{
    let bytes_per_sample: u64 = (info.bits_per_sample / 8) as u64;
    let channels: u64 = info.channels as u64;
    assert(channels * bytes_per_sample <= 0xffff * 0x1fff) by (nonlinear_arith)
        requires
            bytes_per_sample <= 0x1fff,
            channels <= 0xffff,
    ;
    let bytes_per_frame: u64 = channels * bytes_per_sample;
    let sample_rate: u64 = info.sample_rate_hz as u64;
    assert(sample_rate * bytes_per_frame <= 0xffff_ffff * 0x1ffe_e001) by (nonlinear_arith)
        requires
            sample_rate <= 0xffff_ffff,
            bytes_per_frame <= 0xffff * 0x1fff,
            0xffff * 0x1fff == 0x1ffe_e001,
    ;
    let bytes_per_second: u64 = sample_rate * bytes_per_frame;
    if bytes_per_second == 0 {
        return 0;
    }
    let total: u64 = chunk_len as u64 * 1000;
    if total == 0 {
        return 1;
    }
    proof {
        assert((total - 1) / bytes_per_second as int <= total - 1) by (nonlinear_arith)
            requires
                total >= 1,
                bytes_per_second >= 1,
        ;
    }
    (total - 1) / bytes_per_second + 1
}

/// A stretch of live audio that came in at once.
#[derive(Debug, PartialEq, Eq)]
pub struct AudioTimelineEntry {
    start_ms: u64,
    duration_ms: u64,
    samples: Vec<u8>,
    info: AudioInfo,
}

/// The contents of a stretch of live audio.
#[verifier::ext_equal]
pub struct EntryView {
    pub start_ms: u64,
    pub duration_ms: u64,
    pub samples: Seq<u8>,
    pub info: AudioInfo,
}

impl View for AudioTimelineEntry {
    type V = EntryView;

    closed spec fn view(&self) -> EntryView {
        EntryView {
            start_ms: self.start_ms,
            duration_ms: self.duration_ms,
            samples: self.samples@,
            info: self.info,
        }
    }
}

impl Clone for AudioTimelineEntry {
    fn clone(&self) -> (r: Self)
        ensures
            r@ == self@,
    {
        let samples = self.samples.clone();
        assert(samples@ == self.samples@);
        AudioTimelineEntry {
            start_ms: self.start_ms,
            duration_ms: self.duration_ms,
            samples,
            info: self.info,
        }
    }
}

impl AudioTimelineEntry {
    /// The layout of the samples.
    pub fn info(&self) -> (r: AudioInfo)
        ensures
            r == self@.info,
    {
        self.info
    }
}

/// The sum of two durations, or the greatest one that can be counted.
pub open spec fn later(a: u64, b: u64) -> u64 {
    if a + b > u64::MAX {
        u64::MAX
    } else {
        (a + b) as u64
    }
}

/// How much later `a` is than `b`, zero where it is not.
pub open spec fn since(a: u64, b: u64) -> u64 {
    if a < b {
        0
    } else {
        (a - b) as u64
    }
}

/// Tells whether stretches follow one another without a gap from the beginning, up to `offset`.
pub open spec fn follow_on(entries: Seq<EntryView>, offset: u64) -> bool
    decreases entries.len(),
{
    if entries.len() == 0 {
        offset == 0
    } else {
        let last = entries.last();
        &&& last.duration_ms >= 1
        &&& offset == later(last.start_ms, last.duration_ms)
        &&& follow_on(entries.drop_last(), last.start_ms)
    }
}

/// Tells whether a stretch lasts as long as its samples do, and at least a millisecond.
pub open spec fn is_filled(entry: EntryView) -> bool {
    let duration = duration_of(entry.samples.len(), entry.info);
    &&& entry.samples.len() <= usize::MAX
    &&& entry.duration_ms == if duration == 0 {
        1
    } else {
        duration
    }
}

/// Tells whether stretches follow one another without a gap from the beginning, up to `offset`,
/// each lasting as long as its samples do.
pub open spec fn is_recording(entries: Seq<EntryView>, offset: u64) -> bool {
    &&& follow_on(entries, offset)
    &&& forall|i: int| 0 <= i < entries.len() ==> is_filled(#[trigger] entries[i])
}

/// The bytes of a stretch that fall between two moments.
pub open spec fn entry_between(entry: EntryView, start_ms: u64, end_ms: u64) -> Seq<u8> {
    if later(entry.start_ms, entry.duration_ms) <= start_ms || entry.start_ms >= end_ms {
        seq![]
    } else {
        bytes_between(
            entry.samples,
            since(start_ms, entry.start_ms) as nat,
            since(end_ms, entry.start_ms) as nat,
            entry.info,
        )
    }
}

/// The bytes of stretches that fall between two moments.
pub open spec fn entries_between(entries: Seq<EntryView>, start_ms: u64, end_ms: u64) -> Seq<u8>
    decreases entries.len(),
{
    if entries.len() == 0 {
        seq![]
    } else {
        entries_between(entries.drop_last(), start_ms, end_ms) + entry_between(
            entries.last(),
            start_ms,
            end_ms,
        )
    }
}

/// The live audio of a session, in the order in which it came in.
#[derive(Debug, PartialEq, Eq)]
pub struct AudioTimeline {
    entries: Vec<AudioTimelineEntry>,
    offset_ms: u64,
}

/// The contents of a list of stretches.
pub open spec fn timeline_views(entries: Seq<AudioTimelineEntry>) -> Seq<EntryView> {
    entries.map_values(|e: AudioTimelineEntry| e@)
}

impl View for AudioTimeline {
    type V = Seq<EntryView>;

    closed spec fn view(&self) -> Seq<EntryView> {
        timeline_views(self.entries@)
    }
}

impl Clone for AudioTimeline {
    fn clone(&self) -> (r: Self)
        ensures
            r@ == self@,
            r.offset() == self.offset(),
    {
        proof {
            use_type_invariant(self);
        }
        let entries = self.entries.clone();
        proof {
            assert forall|i: int| 0 <= i < self.entries@.len() implies (#[trigger] entries@[i])@
                == self.entries@[i]@ by {
                assert(cloned(self.entries@[i], entries@[i]));
            }
            assert(timeline_views(entries@) == self@);
        }
        AudioTimeline { entries, offset_ms: self.offset_ms }
    }
}

impl AudioTimeline {
    /// The moment at which the next stretch begins.
    pub closed spec fn offset(&self) -> u64 {
        self.offset_ms
    }

    #[verifier::type_invariant]
    spec fn has_no_gaps(&self) -> bool {
        is_recording(self@, self.offset_ms)
    }

    /// No audio yet.
    pub fn new() -> (r: Self)
        ensures
            r@ == Seq::<EntryView>::empty(),
            r.offset() == 0,
    {
        let entries: Vec<AudioTimelineEntry> = Vec::new();
        assert(timeline_views(entries@) == Seq::<EntryView>::empty());
        AudioTimeline { entries, offset_ms: 0 }
    }

    /// Adds a stretch at the end, and tells when it begins.
    pub fn push(&mut self, samples: Vec<u8>, info: AudioInfo) -> (r: u64)
        requires
            byte_rate(info) > 0 ==> samples@.len() * 1000 <= u64::MAX,
        ensures
            r == old(self).offset(),
            ({
                let duration = duration_of(samples@.len(), info) as u64;
                let entry = EntryView {
                    start_ms: r,
                    duration_ms: if duration == 0 {
                        1
                    } else {
                        duration
                    },
                    samples: samples@,
                    info,
                };
                &&& final(self)@ == old(self)@.push(entry)
                &&& final(self).offset() == later(r, entry.duration_ms)
            }),
            is_recording(final(self)@, final(self).offset()),
    {
        proof {
            use_type_invariant(&*self);
        }
        let ghost before = self@;
        let start_ms: u64 = self.offset_ms;
        let duration: u64 = chunk_duration_ms(samples.len(), info);
        let duration_ms: u64 = if duration == 0 {
            1
        } else {
            duration
        };
        let mut timeline = AudioTimeline::new();
        core::mem::swap(self, &mut timeline);
        let mut entries = timeline.entries;
        let entry = AudioTimelineEntry { start_ms, duration_ms, samples, info };
        let ghost view = entry@;
        entries.push(entry);
        proof {
            assert(timeline_views(entries@) == before.push(view));
            assert(before.push(view).drop_last() == before);
        }
        *self = AudioTimeline { entries, offset_ms: start_ms.saturating_add(duration_ms) };
        start_ms
    }

    /// The audio between two moments, where there is any.
    pub fn audio_for_range(&self, start_ms: u64, end_ms: u64) -> (r: Option<Vec<u8>>)
        ensures
            match r {
                Some(audio) => start_ms < end_ms && audio@ == entries_between(
                    self@,
                    start_ms,
                    end_ms,
                ) && audio@.len() > 0,
                None => end_ms <= start_ms || entries_between(self@, start_ms, end_ms).len() == 0,
            },
    {
        if end_ms <= start_ms || self.entries.len() == 0 {
            return None;
        }
        let ghost all = self@;
        let n: usize = self.entries.len();
        let mut out: Vec<u8> = Vec::new();
        let mut i: usize = 0;
        assert(all.take(0) == Seq::<EntryView>::empty());
        assert(out@ == entries_between(all.take(0), start_ms, end_ms));
        while i < n
            invariant
                n == self.entries.len(),
                i <= n,
                all == self@,
                out@ == entries_between(all.take(i as int), start_ms, end_ms),
            decreases n - i,
        {
            let entry = &self.entries[i];
            let ghost before = out@;
            assert(all.take(i + 1).drop_last() == all.take(i as int));
            assert(all.take(i + 1).last() == entry@);
            let entry_end_ms: u64 = entry.start_ms.saturating_add(entry.duration_ms);
            if !(entry_end_ms <= start_ms || entry.start_ms >= end_ms) {
                let slice = audio_slice_for_time_range(
                    entry.samples.as_slice(),
                    start_ms.saturating_sub(entry.start_ms),
                    end_ms.saturating_sub(entry.start_ms),
                    entry.info(),
                );
                if let Some(slice) = slice {
                    out.extend_from_slice(slice.as_slice());
                    assert(out@ == before + slice@);
                } else {
                    assert(out@ == before + entry_between(entry@, start_ms, end_ms));
                }
            } else {
                assert(out@ == before + entry_between(entry@, start_ms, end_ms));
            }
            i = i + 1;
        }
        assert(all.take(n as int) == all);
        if out.len() > 0 {
            Some(out)
        } else {
            None
        }
    }
}

proof fn lemma_duration_holds_the_samples(entry: EntryView)
    requires
        is_filled(entry),
        byte_rate(entry.info) > 0,
    ensures
        byte_at(entry.duration_ms as nat, entry.info) >= entry.samples.len(),
{
    let len = entry.samples.len() as int;
    let rate = byte_rate(entry.info) as int;
    let duration = entry.duration_ms as int;
    let frame = audio::frame_bytes(entry.info) as int;
    let hz = entry.info.sample_rate_hz as int;
    assert(duration * hz * frame == duration * rate) by (nonlinear_arith)
        requires
            rate == hz * frame,
    ;
    if len > 0 {
        let before = (len * 1000 - 1) / rate;
        assert(before + 1 == duration);
        lemma_fundamental_div_mod(len * 1000 - 1, rate);
        lemma_mod_bound(len * 1000 - 1, rate);
        assert(duration * rate == before * rate + rate) by (nonlinear_arith)
            requires
                duration == before + 1,
        ;
        assert(rate * before == before * rate) by (nonlinear_arith);
        assert(duration * rate >= len * 1000);
        assert(duration * rate / 1000 >= len) by (nonlinear_arith)
            requires
                duration * rate >= len * 1000,
        ;
    }
}

proof fn lemma_no_bytes_without_a_rate(
    samples: Seq<u8>,
    start_ms: nat,
    end_ms: nat,
    info: AudioInfo,
)
    requires
        byte_rate(info) == 0,
    ensures
        bytes_between(samples, start_ms, end_ms, info).len() == 0,
{
    let frame = audio::frame_bytes(info);
    let hz = info.sample_rate_hz as nat;
    assert(end_ms * hz * frame == end_ms * byte_rate(info)) by (nonlinear_arith)
        requires
            byte_rate(info) == hz * frame,
    ;
    assert(end_ms * byte_rate(info) == 0) by (nonlinear_arith)
        requires
            byte_rate(info) == 0,
    ;
}

proof fn lemma_entry_ranges_join(entry: EntryView, a: u64, b: u64, c: u64)
    requires
        is_filled(entry),
        a <= b <= c,
    ensures
        entry_between(entry, a, b) + entry_between(entry, b, c) == entry_between(entry, a, c),
{
    let s = entry.start_ms;
    let t = later(s, entry.duration_ms);
    let samples = entry.samples;
    let info = entry.info;
    if byte_rate(info) == 0 {
        lemma_no_bytes_without_a_rate(samples, since(a, s) as nat, since(b, s) as nat, info);
        lemma_no_bytes_without_a_rate(samples, since(b, s) as nat, since(c, s) as nat, info);
        lemma_no_bytes_without_a_rate(samples, since(a, s) as nat, since(c, s) as nat, info);
    } else if t <= b && b < c {
        lemma_duration_holds_the_samples(entry);
        byte_at_is_monotone(entry.duration_ms as nat, since(b, s) as nat, info);
        byte_at_is_monotone(entry.duration_ms as nat, since(c, s) as nat, info);
    } else if s < b && b < t {
        adjoining_stretches_join(
            samples,
            since(a, s) as nat,
            since(b, s) as nat,
            since(c, s) as nat,
            info,
        );
    } else if t <= b {
        assert(b == c);
    }
}

/// What came in before a stretch that follows on holds nothing after its beginning.
proof fn lemma_nothing_after(entries: Seq<EntryView>, offset: u64, start_ms: u64, end_ms: u64)
    requires
        follow_on(entries, offset),
        offset <= start_ms,
    ensures
        entries_between(entries, start_ms, end_ms).len() == 0,
    decreases entries.len(),
{
    if entries.len() > 0 {
        lemma_nothing_after(entries.drop_last(), entries.last().start_ms, start_ms, end_ms);
    }
}

/// The audio between two moments and the audio from there to a third make up the audio from the
/// first moment to the third.
pub proof fn adjoining_ranges_join(
    entries: Seq<EntryView>,
    offset: u64,
    start_ms: u64,
    middle_ms: u64,
    end_ms: u64,
)
    requires
        is_recording(entries, offset),
        start_ms <= middle_ms <= end_ms,
    ensures
        entries_between(entries, start_ms, middle_ms) + entries_between(entries, middle_ms, end_ms)
            == entries_between(entries, start_ms, end_ms),
    decreases entries.len(),
{
    if entries.len() > 0 {
        let before = entries.drop_last();
        let last = entries.last();
        assert forall|i: int| 0 <= i < before.len() implies is_filled(#[trigger] before[i]) by {
            assert(before[i] == entries[i]);
        }
        adjoining_ranges_join(before, last.start_ms, start_ms, middle_ms, end_ms);
        assert(is_filled(entries[entries.len() - 1]));
        lemma_entry_ranges_join(last, start_ms, middle_ms, end_ms);
        if middle_ms > last.start_ms {
            lemma_nothing_after(before, last.start_ms, middle_ms, end_ms);
        }
        let x = entries_between(before, start_ms, middle_ms);
        let y = entry_between(last, start_ms, middle_ms);
        let z = entries_between(before, middle_ms, end_ms);
        let w = entry_between(last, middle_ms, end_ms);
        assert(y.len() == 0 || z.len() == 0);
        assert((x + y) + (z + w) == (x + z) + (y + w));
    } else {
        assert(Seq::<u8>::empty() + Seq::<u8>::empty() == Seq::<u8>::empty());
    }
}

/// All samples of stretches, one after the other.
pub open spec fn all_samples(entries: Seq<EntryView>) -> Seq<u8>
    decreases entries.len(),
{
    if entries.len() == 0 {
        seq![]
    } else {
        all_samples(entries.drop_last()) + entries.last().samples
    }
}

/// All audio that came in is read back, in the order in which it came in.
pub proof fn whole_recording_reads_back(entries: Seq<EntryView>, offset: u64, end_ms: u64)
    requires
        is_recording(entries, offset),
        forall|i: int| 0 <= i < entries.len() ==> byte_rate((#[trigger] entries[i]).info) > 0,
        offset < u64::MAX,
        offset <= end_ms,
    ensures
        entries_between(entries, 0, end_ms) == all_samples(entries),
    decreases entries.len(),
{
    if entries.len() > 0 {
        let before = entries.drop_last();
        let last = entries.last();
        assert forall|i: int| 0 <= i < before.len() implies is_filled(#[trigger] before[i])
            && byte_rate(before[i].info) > 0 by {
            assert(before[i] == entries[i]);
        }
        whole_recording_reads_back(before, last.start_ms, end_ms);
        assert(is_filled(entries[entries.len() - 1]));
        lemma_duration_holds_the_samples(last);
        byte_at_is_monotone(
            last.duration_ms as nat,
            since(end_ms, last.start_ms) as nat,
            last.info,
        );
        assert(byte_at(0, last.info) == 0) by {
            let frame = audio::frame_bytes(last.info);
            let hz = last.info.sample_rate_hz as nat;
            assert(0 * hz * frame == 0) by (nonlinear_arith);
        }
        assert(entry_between(last, 0, end_ms) == last.samples);
    }
}

/// A moment begins at the byte up to which the samples before it reach, rounded down, as far as
/// bytes can be counted.
pub proof fn moments_are_counted_in_bytes(ms: nat, info: AudioInfo)
    ensures
        ({
            let exact = ms * info.sample_rate_hz as nat * (info.channels as nat * (
            info.bits_per_sample as nat / 8));
            let at = byte_at(ms, info);
            &&& at <= usize::MAX
            &&& at * 1000 <= exact
            &&& at < usize::MAX ==> exact < at * 1000 + 1000
        }),
{
}

/// The bytes between two moments are those from the byte at which the one begins up to the byte at
/// which the other begins, or up to the end of the recording where that comes first.
pub proof fn bytes_between_are_those_in_the_middle(
    before: Seq<u8>,
    middle: Seq<u8>,
    after: Seq<u8>,
    start_ms: nat,
    end_ms: nat,
    info: AudioInfo,
)
    requires
        start_ms < end_ms,
        byte_at(start_ms, info) == before.len(),
        byte_at(end_ms, info) == before.len() + middle.len() || byte_at(end_ms, info)
            > before.len() + middle.len() && after.len() == 0,
    ensures
        bytes_between(before + middle + after, start_ms, end_ms, info) == middle,
{
    let audio = before + middle + after;
    let start = before.len() as int;
    let end = start + middle.len();
    assert(audio.subrange(start, end) == middle);
    if middle.len() == 0 {
        assert(middle == Seq::<u8>::empty());
    }
}

/// There are no bytes between two moments where the second is not later, or where the recording
/// has ended when the first begins.
pub proof fn no_bytes_beyond_the_recording(
    audio: Seq<u8>,
    start_ms: nat,
    end_ms: nat,
    info: AudioInfo,
)
    requires
        end_ms <= start_ms || audio.len() <= byte_at(start_ms, info),
    ensures
        bytes_between(audio, start_ms, end_ms, info) == Seq::<u8>::empty(),
{
}

/// A duration is the least number of milliseconds that hold the bytes, and at least one.
pub proof fn duration_is_the_least_that_holds(len: nat, info: AudioInfo)
    ensures
        ({
            let rate = info.sample_rate_hz as nat * (info.channels as nat * (
            info.bits_per_sample as nat / 8));
            let duration = duration_of(len, info);
            &&& rate == 0 ==> duration == 0
            &&& rate > 0 ==> duration >= 1 && len * 1000 <= duration * rate
            &&& rate > 0 && duration > 1 ==> (duration - 1) * rate < len * 1000
        }),
{
    let rate = byte_rate(info) as int;
    if rate > 0 && len > 0 {
        let total = len * 1000;
        let quotient = (total - 1) / rate;
        lemma_fundamental_div_mod(total - 1, rate);
        lemma_mod_bound(total - 1, rate);
        assert(rate * quotient == quotient * rate) by (nonlinear_arith);
        assert((quotient + 1) * rate == quotient * rate + rate) by (nonlinear_arith);
        assert(quotient >= 0) by (nonlinear_arith)
            requires
                quotient == (total - 1) / rate,
                total >= 1,
                rate > 0,
        ;
    }
}

/// Every chunk stands where the ones before it end: the chunk with the number `i` begins at the byte
/// `i * size`, and the chunks are as many as it takes.
pub proof fn chunks_stand_in_order(bytes: Seq<u8>, size: nat, i: int)
    requires
        size > 0,
        0 <= i,
        i * size < bytes.len(),
    ensures
        i < chunks_of(bytes, size).len(),
        chunks_of(bytes, size)[i] == bytes.subrange(
            i * size,
            if (i + 1) * size <= bytes.len() {
                (i + 1) * size
            } else {
                bytes.len() as int
            },
        ),
    decreases i,
{
    let all = chunks_of(bytes, size);
    if i == 0 {
        assert(i * size == 0) by (nonlinear_arith)
            requires
                i == 0,
        ;
        assert((i + 1) * size == size) by (nonlinear_arith)
            requires
                i == 0,
        ;
        if bytes.len() <= size {
            assert(bytes.subrange(0, bytes.len() as int) == bytes);
        } else {
            assert(bytes.subrange(0, size as int) == bytes.take(size as int));
        }
    } else {
        let rest = bytes.skip(size as int);
        assert((i - 1) * size == i * size - size) by (nonlinear_arith);
        assert((i + 1) * size == i * size + size) by (nonlinear_arith);
        assert(i * size >= size) by (nonlinear_arith)
            requires
                i >= 1,
        ;
        chunks_stand_in_order(rest, size, i - 1);
        assert(all[i] == chunks_of(rest, size)[i - 1]);
        let end = if (i + 1) * size <= bytes.len() {
            (i + 1) * size
        } else {
            bytes.len() as int
        };
        assert(rest.subrange((i - 1) * size, end - size) == bytes.subrange(i * size, end));
    }
}

/// Chunks are put together one behind the other.
pub proof fn chunks_are_joined_in_order(a: Seq<Seq<u8>>, chunk: Seq<u8>, b: Seq<Seq<u8>>)
    ensures
        joined(a + b) == joined(a) + joined(b),
        joined(seq![chunk]) == chunk,
    decreases a.len(),
{
    let one = seq![chunk];
    assert(one.skip(1) == Seq::<Seq<u8>>::empty());
    assert(joined(one.skip(1)) == Seq::<u8>::empty());
    assert(joined(one) == chunk);
    if a.len() == 0 {
        assert(a + b == b);
        assert(joined(a) + joined(b) == joined(b));
    } else {
        assert((a + b).skip(1) == a.skip(1) + b);
        assert((a + b)[0] == a[0]);
        chunks_are_joined_in_order(a.skip(1), chunk, b);
        assert(joined(a + b) == joined(a) + joined(b));
    }
}

/// Stretches are read one behind the other.
pub proof fn stretches_are_read_in_order(
    a: Seq<EntryView>,
    b: Seq<EntryView>,
    start_ms: u64,
    end_ms: u64,
)
    ensures
        entries_between(a + b, start_ms, end_ms) == entries_between(a, start_ms, end_ms)
            + entries_between(b, start_ms, end_ms),
        all_samples(a + b) == all_samples(a) + all_samples(b),
    decreases b.len(),
{
    if b.len() == 0 {
        assert(a + b == a);
        assert(entries_between(a, start_ms, end_ms) + entries_between(b, start_ms, end_ms)
            == entries_between(a, start_ms, end_ms));
        assert(all_samples(a) + all_samples(b) == all_samples(a));
    } else {
        assert((a + b).drop_last() == a + b.drop_last());
        assert((a + b).last() == b.last());
        stretches_are_read_in_order(a, b.drop_last(), start_ms, end_ms);
        assert(entries_between(a + b, start_ms, end_ms) == entries_between(a, start_ms, end_ms)
            + entries_between(b, start_ms, end_ms));
        assert(all_samples(a + b) == all_samples(a) + all_samples(b));
    }
}

/// Of one stretch the bytes between two moments are read, both counted from its beginning; none
/// where it ends before the first or begins after the second.
pub proof fn one_stretch_is_read_from_its_beginning(entry: EntryView, start_ms: u64, end_ms: u64)
    ensures
        ({
            let read = entries_between(seq![entry], start_ms, end_ms);
            let s = entry.start_ms;
            &&& all_samples(seq![entry]) == entry.samples
            &&& s + entry.duration_ms <= start_ms || end_ms <= s ==> read == Seq::<u8>::empty()
            &&& s + entry.duration_ms > start_ms && start_ms < u64::MAX && s <= start_ms < end_ms
                ==> read == bytes_between(
                entry.samples,
                (start_ms - s) as nat,
                (end_ms - s) as nat,
                entry.info,
            )
            &&& s + entry.duration_ms > start_ms && start_ms < s < end_ms ==> read == bytes_between(
                entry.samples,
                0,
                (end_ms - s) as nat,
                entry.info,
            )
        }),
{
    let one = seq![entry];
    assert(one.drop_last() == Seq::<EntryView>::empty());
    assert(entries_between(one.drop_last(), start_ms, end_ms) == Seq::<u8>::empty());
    assert(entries_between(one, start_ms, end_ms) == entry_between(entry, start_ms, end_ms));
    assert(all_samples(one.drop_last()) == Seq::<u8>::empty());
    assert(all_samples(one) == entry.samples);
}

/// The stretches of a recording follow one another: the first begins at the beginning, each of the
/// others when the one before it ends, and what comes next begins when the last ends.
pub proof fn stretches_follow_on(entries: Seq<EntryView>, offset: u64, i: int)
    requires
        follow_on(entries, offset),
        0 <= i < entries.len(),
    ensures
        i == 0 ==> entries[i].start_ms == 0,
        i > 0 && entries[i - 1].start_ms + entries[i - 1].duration_ms <= u64::MAX
            ==> entries[i].start_ms == entries[i - 1].start_ms + entries[i - 1].duration_ms,
        i == entries.len() - 1 && entries[i].start_ms + entries[i].duration_ms <= u64::MAX
            ==> offset == entries[i].start_ms + entries[i].duration_ms,
    decreases entries.len(),
{
    let before = entries.drop_last();
    if i < before.len() {
        stretches_follow_on(before, entries.last().start_ms, i);
    } else if before.len() > 0 {
        stretches_follow_on(before, entries.last().start_ms, i - 1);
    } else {
        reveal_with_fuel(follow_on, 2);
    }
}

/// The contents of lists of chunks and of stretches are those of their members, one for one.
pub proof fn chunks_and_stretches_are_seen_whole(
    chunks: Seq<Vec<u8>>,
    entries: Seq<AudioTimelineEntry>,
)
    ensures
        chunk_views(chunks).len() == chunks.len(),
        forall|i: int| 0 <= i < chunks.len() ==> #[trigger] chunk_views(chunks)[i] == chunks[i]@,
        timeline_views(entries).len() == entries.len(),
        forall|i: int| 0 <= i < entries.len() ==> #[trigger] timeline_views(entries)[i]
            == entries[i]@,
{
}

/// Moments are put together and taken apart as numbers are, as far as they can be counted.
pub proof fn moments_are_counted(a: u64, b: u64)
    ensures
        a + b <= u64::MAX ==> later(a, b) == a + b,
        a + b > u64::MAX ==> later(a, b) == u64::MAX,
        b <= a ==> since(a, b) == a - b,
        a < b ==> since(a, b) == 0,
        a + b <= u64::MAX ==> since(later(a, b), b) == a,
{
}

} // verus!
