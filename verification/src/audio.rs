//! Decoding of PCM WAV files and raw PCM audio.
use vstd::prelude::*;
use vstd::slice::*;
use vstd::string::*;

use crate::numeric;

verus! {

/// The layout of PCM samples.
#[derive(Debug, Clone, Copy, PartialEq, Eq, Structural)]
pub struct AudioInfo {
    pub sample_rate_hz: u32,
    pub channels: u16,
    pub bits_per_sample: u16,
}

/// PCM samples with their layout.
#[derive(Debug, Clone, PartialEq, Eq)]
pub struct DecodedAudio {
    pub info: AudioInfo,
    pub samples: Vec<u8>,
}

/// Why audio bytes could not be decoded.
#[derive(Debug, Clone, Copy, PartialEq, Eq, Structural)]
pub enum AudioError {
    /// Two bytes were wanted at an offset where there are fewer.
    ShortU16 { offset: usize },
    /// Four bytes were wanted at an offset where there are fewer.
    ShortU32 { offset: usize },
    /// A chunk runs past the end of the file.
    InvalidChunkSize { chunk_id: u32 },
    /// The format chunk is shorter than its fixed part.
    FmtTooSmall { chunk_size: usize },
    /// The samples are not plain PCM.
    UnsupportedFormat { audio_format: u16 },
    /// The channel count, sample rate or bit depth is zero.
    InvalidFmt { channels: u16, sample_rate_hz: u32, bits_per_sample: u16 },
    /// The bit depth is not a whole number of bytes.
    UnsupportedBitDepth { bits_per_sample: u16 },
    /// There is no format chunk.
    MissingFmt,
    /// There is no data chunk.
    MissingData,
    /// The data chunk does not hold a whole number of frames.
    MisalignedData { data_size: usize, block_align: usize },
}

impl AudioError {
    /// The message in words.
    pub open spec fn words(self) -> Seq<char> {
        match self {
            AudioError::ShortU16 { offset } => "failed to read u16 at byte offset "@
                + numeric::decimal(offset as nat),
            AudioError::ShortU32 { offset } => "failed to read u32 at byte offset "@
                + numeric::decimal(offset as nat),
            AudioError::InvalidChunkSize { chunk_id } => "invalid WAV chunk size for chunk 0x"@
                + numeric::hex8(chunk_id as nat),
            AudioError::FmtTooSmall { chunk_size } => "WAV fmt chunk is too small: "@
                + numeric::decimal(chunk_size as nat) + " bytes"@,
            AudioError::UnsupportedFormat { audio_format } => "unsupported WAV audio format "@
                + numeric::decimal(audio_format as nat) + "; expected PCM format 1"@,
            AudioError::InvalidFmt { channels, sample_rate_hz, bits_per_sample } =>
                "invalid WAV fmt values: channels="@ + numeric::decimal(channels as nat)
                + ", sample_rate="@ + numeric::decimal(sample_rate_hz as nat) + ", bits="@
                + numeric::decimal(bits_per_sample as nat),
            AudioError::UnsupportedBitDepth { bits_per_sample } => "unsupported WAV bit depth "@
                + numeric::decimal(bits_per_sample as nat) + "; expected byte-aligned PCM"@,
            AudioError::MissingFmt => "WAV file is missing fmt chunk"@,
            AudioError::MissingData => "WAV file is missing data chunk"@,
            AudioError::MisalignedData { data_size, block_align } => "WAV data chunk has "@
                + numeric::decimal(data_size as nat) + " bytes, not divisible by block align "@
                + numeric::decimal(block_align as nat),
        }
    }

    /// The message in words.
    pub fn message(&self) -> (r: String)
        ensures
            r@ == self.words(),
    {
        match self {
            AudioError::ShortU16 { offset } => {
                let mut out = "failed to read u16 at byte offset ".to_owned();
                out.append(numeric::decimal_text(*offset as u64).as_str());
                out
            },
            AudioError::ShortU32 { offset } => {
                let mut out = "failed to read u32 at byte offset ".to_owned();
                out.append(numeric::decimal_text(*offset as u64).as_str());
                out
            },
            AudioError::InvalidChunkSize { chunk_id } => {
                let mut out = "invalid WAV chunk size for chunk 0x".to_owned();
                out.append(numeric::hex8_text(*chunk_id).as_str());
                out
            },
            AudioError::FmtTooSmall { chunk_size } => {
                let mut out = "WAV fmt chunk is too small: ".to_owned();
                out.append(numeric::decimal_text(*chunk_size as u64).as_str());
                out.append(" bytes");
                out
            },
            AudioError::UnsupportedFormat { audio_format } => {
                let mut out = "unsupported WAV audio format ".to_owned();
                out.append(numeric::decimal_text(*audio_format as u64).as_str());
                out.append("; expected PCM format 1");
                out
            },
            AudioError::InvalidFmt { channels, sample_rate_hz, bits_per_sample } => {
                let mut out = "invalid WAV fmt values: channels=".to_owned();
                out.append(numeric::decimal_text(*channels as u64).as_str());
                out.append(", sample_rate=");
                out.append(numeric::decimal_text(*sample_rate_hz as u64).as_str());
                out.append(", bits=");
                out.append(numeric::decimal_text(*bits_per_sample as u64).as_str());
                out
            },
            AudioError::UnsupportedBitDepth { bits_per_sample } => {
                let mut out = "unsupported WAV bit depth ".to_owned();
                out.append(numeric::decimal_text(*bits_per_sample as u64).as_str());
                out.append("; expected byte-aligned PCM");
                out
            },
            AudioError::MissingFmt => "WAV file is missing fmt chunk".to_owned(),
            AudioError::MissingData => "WAV file is missing data chunk".to_owned(),
            AudioError::MisalignedData { data_size, block_align } => {
                let mut out = "WAV data chunk has ".to_owned();
                out.append(numeric::decimal_text(*data_size as u64).as_str());
                out.append(" bytes, not divisible by block align ");
                out.append(numeric::decimal_text(*block_align as u64).as_str());
                out
            },
        }
    }
}

/// The little-endian 16-bit number at `at`.
pub open spec fn le16(bytes: Seq<u8>, at: int) -> nat {
    (bytes[at] + 0x100 * bytes[at + 1]) as nat
}

/// The little-endian 32-bit number at `at`.
pub open spec fn le32(bytes: Seq<u8>, at: int) -> nat {
    (bytes[at] + 0x100 * bytes[at + 1] + 0x10000 * bytes[at + 2] + 0x1000000 * bytes[at + 3]) as nat
}

/// A chunk of a RIFF file: its identifier, and where its payload stands.
pub struct WavChunk {
    pub id: nat,
    pub start: int,
    pub size: nat,
}

/// The identifier "fmt " read as a little-endian number.
pub const FMT_CHUNK: u32 = 0x20746D66;

/// The identifier "data" read as a little-endian number.
pub const DATA_CHUNK: u32 = 0x61746164;

/// The chunks that start at or after `offset`, up to the first one that runs past the end.
///
/// Payloads of odd size are followed by one byte of padding.
pub open spec fn chunks_from(bytes: Seq<u8>, offset: int) -> Seq<WavChunk>
    decreases bytes.len() + 1 - offset,
{
    if offset < 0 || offset + 8 > bytes.len() {
        seq![]
    } else {
        let chunk = WavChunk {
            id: le32(bytes, offset),
            start: offset + 8,
            size: le32(bytes, offset + 4),
        };
        if chunk.start + chunk.size > bytes.len() {
            seq![chunk]
        } else {
            seq![chunk] + chunks_from(bytes, chunk.start + chunk.size + chunk.size % 2)
        }
    }
}

/// The layout that a format chunk declares.
pub open spec fn fmt_info(bytes: Seq<u8>, chunk: WavChunk) -> AudioInfo {
    AudioInfo {
        sample_rate_hz: le32(bytes, chunk.start + 4) as u32,
        channels: le16(bytes, chunk.start + 2) as u16,
        bits_per_sample: le16(bytes, chunk.start + 14) as u16,
    }
}

/// What is wrong with a format chunk that lies within the file, if anything.
pub open spec fn fmt_fault(bytes: Seq<u8>, chunk: WavChunk) -> Option<AudioError> {
    let info = fmt_info(bytes, chunk);
    if chunk.size < 16 {
        Some(AudioError::FmtTooSmall { chunk_size: chunk.size as usize })
    } else if le16(bytes, chunk.start) != 1 {
        Some(AudioError::UnsupportedFormat { audio_format: le16(bytes, chunk.start) as u16 })
    } else if info.channels == 0 || info.sample_rate_hz == 0 || info.bits_per_sample == 0 {
        Some(
            AudioError::InvalidFmt {
                channels: info.channels,
                sample_rate_hz: info.sample_rate_hz,
                bits_per_sample: info.bits_per_sample,
            },
        )
    } else if info.bits_per_sample % 8 != 0 {
        Some(AudioError::UnsupportedBitDepth { bits_per_sample: info.bits_per_sample })
    } else {
        None
    }
}

/// What is wrong with a chunk, if anything.
pub open spec fn chunk_fault(bytes: Seq<u8>, chunk: WavChunk) -> Option<AudioError> {
    if chunk.start + chunk.size > bytes.len() {
        Some(AudioError::InvalidChunkSize { chunk_id: chunk.id as u32 })
    } else if chunk.id == FMT_CHUNK {
        fmt_fault(bytes, chunk)
    } else {
        None
    }
}

/// The fault of the first chunk that has one.
pub open spec fn first_fault(bytes: Seq<u8>, chunks: Seq<WavChunk>) -> Option<AudioError>
    decreases chunks.len(),
{
    if chunks.len() == 0 {
        None
    } else if chunk_fault(bytes, chunks.first()) is Some {
        chunk_fault(bytes, chunks.first())
    } else {
        first_fault(bytes, chunks.drop_first())
    }
}

/// The last chunk that carries the identifier `id`.
pub open spec fn last_chunk(chunks: Seq<WavChunk>, id: u32) -> Option<WavChunk>
    decreases chunks.len(),
{
    if chunks.len() == 0 {
        None
    } else if chunks.last().id == id {
        Some(chunks.last())
    } else {
        last_chunk(chunks.drop_last(), id)
    }
}

/// The number of bytes in one frame, which holds one sample of each channel.
pub open spec fn frame_bytes(info: AudioInfo) -> nat {
    info.channels as nat * (info.bits_per_sample as nat / 8)
}

/// The layout and the samples of a WAV file, or what keeps it from being decoded.
pub open spec fn wav_contents(bytes: Seq<u8>) -> Result<(AudioInfo, Seq<u8>), AudioError> {
    let chunks = chunks_from(bytes, 12);
    match first_fault(bytes, chunks) {
        Some(fault) => Err(fault),
        None => match last_chunk(chunks, FMT_CHUNK) {
            None => Err(AudioError::MissingFmt),
            Some(fmt) => match last_chunk(chunks, DATA_CHUNK) {
                None => Err(AudioError::MissingData),
                Some(data) => {
                    let info = fmt_info(bytes, fmt);
                    if data.size % frame_bytes(info) != 0 {
                        Err(
                            AudioError::MisalignedData {
                                data_size: data.size as usize,
                                block_align: frame_bytes(info) as usize,
                            },
                        )
                    } else {
                        Ok((info, bytes.subrange(data.start, data.start + data.size)))
                    }
                },
            },
        },
    }
}

/// Tells whether the bytes start with a RIFF header of the form WAVE.
pub open spec fn has_wav_header(bytes: Seq<u8>) -> bool {
    &&& bytes.len() >= 12
    &&& bytes.subrange(0, 4) == seq![0x52u8, 0x49, 0x46, 0x46]
    &&& bytes.subrange(8, 12) == seq![0x57u8, 0x41, 0x56, 0x45]
}

/// The layout and the samples of audio bytes: a WAV file is decoded, anything else is
/// raw PCM in the given layout.
pub open spec fn audio_contents(bytes: Seq<u8>, default_info: AudioInfo) -> Result<
    (AudioInfo, Seq<u8>),
    AudioError,
> {
    if has_wav_header(bytes) {
        wav_contents(bytes)
    } else {
        Ok((default_info, bytes))
    }
}

/// Reads the little-endian 16-bit number at `offset`.
pub fn read_u16_le(bytes: &[u8], offset: usize) -> (r: Result<u16, AudioError>)
    requires
        offset + 2 <= usize::MAX,
    ensures
        match r {
            Ok(n) => offset + 2 <= bytes@.len() && n == le16(bytes@, offset as int),
            Err(e) => offset + 2 > bytes@.len() && e == (AudioError::ShortU16 { offset }),
        },
{
    if offset + 2 > bytes.len() {
        return Err(AudioError::ShortU16 { offset });
    }
    let low: u16 = bytes[offset] as u16;
    let high: u16 = bytes[offset + 1] as u16;
    Ok(low + 0x100 * high)
}

/// Reads the little-endian 32-bit number at `offset`.
pub fn read_u32_le(bytes: &[u8], offset: usize) -> (r: Result<u32, AudioError>)
    requires
        offset + 4 <= usize::MAX,
    ensures
        match r {
            Ok(n) => offset + 4 <= bytes@.len() && n == le32(bytes@, offset as int),
            Err(e) => offset + 4 > bytes@.len() && e == (AudioError::ShortU32 { offset }),
        },
{
    if offset + 4 > bytes.len() {
        return Err(AudioError::ShortU32 { offset });
    }
    let a: u32 = bytes[offset] as u32;
    let b: u32 = bytes[offset + 1] as u32;
    let c: u32 = bytes[offset + 2] as u32;
    let d: u32 = bytes[offset + 3] as u32;
    Ok(a + 0x100 * b + 0x10000 * c + 0x1000000 * d)
}

/// Tells whether the bytes are a WAV file by their header.
pub fn looks_like_wav(bytes: &[u8]) -> (r: bool)
    ensures
        r == has_wav_header(bytes@),
{
    if bytes.len() < 12 {
        return false;
    }
    let r = bytes[0] == 0x52 && bytes[1] == 0x49 && bytes[2] == 0x46 && bytes[3] == 0x46
        && bytes[8] == 0x57 && bytes[9] == 0x41 && bytes[10] == 0x56 && bytes[11] == 0x45;
    proof {
        let riff = bytes@.subrange(0, 4);
        let wave = bytes@.subrange(8, 12);
        if r {
            assert(riff == seq![0x52u8, 0x49, 0x46, 0x46]);
            assert(wave == seq![0x57u8, 0x41, 0x56, 0x45]);
        } else if has_wav_header(bytes@) {
            assert(riff[0] == bytes[0] && riff[1] == bytes[1] && riff[2] == bytes[2] && riff[3]
                == bytes[3]);
            assert(wave[0] == bytes[8] && wave[1] == bytes[9] && wave[2] == bytes[10] && wave[3]
                == bytes[11]);
        }
    }
    r
}

proof fn lemma_fault_after(bytes: Seq<u8>, done: Seq<WavChunk>, rest: Seq<WavChunk>)
    requires
        first_fault(bytes, done) is None,
    ensures
        first_fault(bytes, done + rest) == first_fault(bytes, rest),
    decreases done.len(),
{
    if done.len() == 0 {
        assert(done + rest == rest);
    } else {
        lemma_fault_after(bytes, done.drop_first(), rest);
        assert((done + rest).drop_first() == done.drop_first() + rest);
    }
}

/// Reads a format chunk of `size` bytes that starts at `offset`.
fn read_fmt(bytes: &[u8], offset: usize, size: usize) -> (r: Result<AudioInfo, AudioError>)
    requires
        offset + size <= bytes@.len(),
    ensures
        ({
            let chunk = WavChunk { id: FMT_CHUNK as nat, start: offset as int, size: size as nat };
            match r {
                Ok(info) => fmt_fault(bytes@, chunk) is None && info == fmt_info(bytes@, chunk),
                Err(e) => fmt_fault(bytes@, chunk) == Some(e),
            }
        }),
{
    assert(bytes@.len() == bytes.len());
    if size < 16 {
        return Err(AudioError::FmtTooSmall { chunk_size: size });
    }
    let audio_format = read_u16_le(bytes, offset)?;
    let channels = read_u16_le(bytes, offset + 2)?;
    let sample_rate_hz = read_u32_le(bytes, offset + 4)?;
    let bits_per_sample = read_u16_le(bytes, offset + 14)?;
    if audio_format != 1 {
        return Err(AudioError::UnsupportedFormat { audio_format });
    }
    if channels == 0 || sample_rate_hz == 0 || bits_per_sample == 0 {
        return Err(AudioError::InvalidFmt { channels, sample_rate_hz, bits_per_sample });
    }
    if bits_per_sample % 8 != 0 {
        return Err(AudioError::UnsupportedBitDepth { bits_per_sample });
    }
    Ok(AudioInfo { sample_rate_hz, channels, bits_per_sample })
}

/// Decodes a PCM WAV file.
pub fn decode_wav_pcm(bytes: &[u8]) -> (r: Result<DecodedAudio, AudioError>)
    ensures
        match r {
            Ok(audio) => wav_contents(bytes@) == Ok::<(AudioInfo, Seq<u8>), AudioError>(
                (audio.info, audio.samples@),
            ),
            Err(e) => wav_contents(bytes@) == Err::<(AudioInfo, Seq<u8>), AudioError>(e),
        },
{
    let len: usize = bytes.len();
    let ghost all = chunks_from(bytes@, 12);
    let ghost mut done: Seq<WavChunk> = seq![];
    let mut offset: usize = 12;
    let mut fmt: Option<AudioInfo> = None;
    let mut data: Option<(usize, usize)> = None;
    assert(done + chunks_from(bytes@, 12) == all);
    while offset <= len && len - offset >= 8
        invariant
            len == bytes@.len(),
            all == chunks_from(bytes@, 12),
            done + chunks_from(bytes@, offset as int) == all,
            first_fault(bytes@, done) is None,
            match last_chunk(done, FMT_CHUNK) {
                Some(chunk) => fmt == Some(fmt_info(bytes@, chunk)) && chunk_fault(bytes@, chunk)
                    is None && chunk.id == FMT_CHUNK,
                None => fmt is None,
            },
            match last_chunk(done, DATA_CHUNK) {
                Some(chunk) => data matches Some((start, size)) && start == chunk.start && size
                    == chunk.size && start + size <= len,
                None => data is None,
            },
        ensures
            done == all,
        decreases len - offset,
    {
        let chunk_id = read_u32_le(bytes, offset)?;
        let chunk_size: usize = read_u32_le(bytes, offset + 4)? as usize;
        let ghost chunk = WavChunk {
            id: chunk_id as nat,
            start: offset + 8,
            size: chunk_size as nat,
        };
        let ghost rest = chunks_from(bytes@, offset as int);
        let ghost next = offset + 8 + chunk_size + chunk_size % 2;
        assert(rest.len() > 0 && rest.first() == chunk);
        proof {
            lemma_fault_after(bytes@, done, rest);
        }
        offset = offset + 8;
        if chunk_size > len - offset {
            return Err(AudioError::InvalidChunkSize { chunk_id });
        }
        assert(rest == seq![chunk] + chunks_from(bytes@, next));
        if chunk_id == FMT_CHUNK {
            match read_fmt(bytes, offset, chunk_size) {
                Ok(info) => {
                    fmt = Some(info);
                },
                Err(e) => {
                    return Err(e);
                },
            }
        } else if chunk_id == DATA_CHUNK {
            data = Some((offset, chunk_size));
        }
        proof {
            assert(chunk_fault(bytes@, chunk) is None);
            assert(first_fault(bytes@, seq![chunk].drop_first()) is None);
            assert(done.push(chunk) == done + seq![chunk]);
            lemma_fault_after(bytes@, done, seq![chunk]);
            assert(done.push(chunk).drop_last() == done);
            assert(done.push(chunk) + chunks_from(bytes@, next) == done + rest);
            done = done.push(chunk);
        }
        offset = offset + chunk_size;
        if chunk_size % 2 != 0 {
            if offset == len {
                assert(chunks_from(bytes@, next) == Seq::<WavChunk>::empty());
                assert(done == all);
                break;
            }
            offset = offset + 1;
        }
    }
    match fmt {
        None => Err(AudioError::MissingFmt),
        Some(info) => match data {
            None => Err(AudioError::MissingData),
            Some((start, size)) => {
                let channels: usize = info.channels as usize;
                let width: usize = (info.bits_per_sample / 8) as usize;
                assert(channels * width <= 0x10000 * 0x2000 && channels * width > 0)
                    by (nonlinear_arith)
                    requires
                        0 < channels <= 0xffff,
                        0 < width <= 0x1fff,
                ;
                let block_align: usize = channels * width;
                if size % block_align != 0 {
                    return Err(AudioError::MisalignedData { data_size: size, block_align });
                }
                let samples = slice_to_vec(slice_subrange(bytes, start, start + size));
                Ok(DecodedAudio { info, samples })
            },
        },
    }
}

/// Decodes a WAV file, or takes the bytes as raw PCM in the given layout.
pub fn decode_audio_bytes(bytes: &[u8], default_info: AudioInfo) -> (r: Result<
    DecodedAudio,
    AudioError,
>)
    ensures
        match r {
            Ok(audio) => audio_contents(bytes@, default_info) == Ok::<
                (AudioInfo, Seq<u8>),
                AudioError,
            >((audio.info, audio.samples@)),
            Err(e) => audio_contents(bytes@, default_info) == Err::<
                (AudioInfo, Seq<u8>),
                AudioError,
            >(e),
        },
{
    if looks_like_wav(bytes) {
        decode_wav_pcm(bytes)
    } else {
        Ok(DecodedAudio { info: default_info, samples: slice_to_vec(bytes) })
    }
}

/// The two little-endian bytes of a number.
pub open spec fn le16_bytes(n: nat) -> Seq<u8> {
    seq![(n % 256) as u8, (n / 0x100 % 256) as u8]
}

/// The four little-endian bytes of a number.
pub open spec fn le32_bytes(n: nat) -> Seq<u8> {
    seq![
        (n % 256) as u8,
        (n / 0x100 % 256) as u8,
        (n / 0x10000 % 256) as u8,
        (n / 0x1000000 % 256) as u8,
    ]
}

/// The bytes of the smallest WAV file that holds `data`: the RIFF header, one format chunk
/// of 16 bytes and one data chunk.
pub open spec fn minimal_wav(info: AudioInfo, data: Seq<u8>) -> Seq<u8> {
    let rate = info.sample_rate_hz as nat;
    let riff = seq![0x52u8, 0x49, 0x46, 0x46] + le32_bytes(36 + data.len()) + seq![
        0x57u8,
        0x41,
        0x56,
        0x45,
    ];
    let fmt_head = seq![0x66u8, 0x6d, 0x74, 0x20] + le32_bytes(16) + le16_bytes(1) + le16_bytes(
        info.channels as nat,
    );
    let fmt_tail = le32_bytes(rate) + le32_bytes(rate * frame_bytes(info)) + le16_bytes(
        frame_bytes(info),
    ) + le16_bytes(info.bits_per_sample as nat);
    let data_head = seq![0x64u8, 0x61, 0x74, 0x61] + le32_bytes(data.len());
    riff + (fmt_head + (fmt_tail + (data_head + data)))
}

proof fn lemma_le32_reads_back(n: nat, rest: Seq<u8>)
    requires
        n <= 0xffff_ffff,
    ensures
        le32(le32_bytes(n) + rest, 0) == n,
{
    let bytes = le32_bytes(n) + rest;
    assert(bytes[0] == n % 256);
    assert(bytes[1] == n / 0x100 % 256);
    assert(bytes[2] == n / 0x10000 % 256);
    assert(bytes[3] == n / 0x1000000 % 256);
}

proof fn lemma_minimal_wav_fields(info: AudioInfo, data: Seq<u8>)
    requires
        data.len() <= 0xffff_ffff,
    ensures
        ({
            let bytes = minimal_wav(info, data);
            &&& bytes.len() == 44 + data.len()
            &&& bytes.subrange(0, 4) == seq![0x52u8, 0x49, 0x46, 0x46]
            &&& bytes.subrange(8, 12) == seq![0x57u8, 0x41, 0x56, 0x45]
            &&& le32(bytes, 12) == FMT_CHUNK
            &&& le32(bytes, 16) == 16
            &&& le16(bytes, 20) == 1
            &&& le16(bytes, 22) == info.channels
            &&& le32(bytes, 24) == info.sample_rate_hz
            &&& le16(bytes, 34) == info.bits_per_sample
            &&& le32(bytes, 36) == DATA_CHUNK
            &&& le32(bytes, 40) == data.len()
            &&& bytes.subrange(44, bytes.len() as int) == data
        }),
{
    let bytes = minimal_wav(info, data);
    let rate = info.sample_rate_hz as nat;
    let size = data.len();
    let frame = frame_bytes(info);
    let data_head = seq![0x64u8, 0x61, 0x74, 0x61] + le32_bytes(size);
    let body = data_head + data;
    let fmt_tail = le32_bytes(rate) + le32_bytes(rate * frame) + le16_bytes(frame) + le16_bytes(
        info.bits_per_sample as nat,
    );
    let fmt_head = seq![0x66u8, 0x6d, 0x74, 0x20] + le32_bytes(16) + le16_bytes(1) + le16_bytes(
        info.channels as nat,
    );
    assert(data_head.len() == 8 && fmt_tail.len() == 12 && fmt_head.len() == 12);
    let riff = bytes.take(12);
    assert(riff == seq![0x52u8, 0x49, 0x46, 0x46] + le32_bytes(36 + size) + seq![
        0x57u8,
        0x41,
        0x56,
        0x45,
    ]);
    assert(bytes.subrange(0, 4) == riff.subrange(0, 4));
    assert(riff.subrange(0, 4) == seq![0x52u8, 0x49, 0x46, 0x46]);
    assert(bytes.subrange(8, 12) == riff.subrange(8, 12));
    assert(riff.subrange(8, 12) == seq![0x57u8, 0x41, 0x56, 0x45]);
    assert forall|i: int| 0 <= i < 12 implies bytes[12 + i] == #[trigger] fmt_head[i] by {}
    assert forall|i: int| 0 <= i < 12 implies bytes[24 + i] == #[trigger] fmt_tail[i] by {}
    assert forall|i: int| 0 <= i < 8 implies bytes[36 + i] == #[trigger] data_head[i] by {}
    assert(bytes.subrange(44, bytes.len() as int) == data);
    assert(le32(bytes, 12) == le32(fmt_head, 0));
    assert(le32(bytes, 16) == le32(fmt_head, 4));
    assert(le16(bytes, 20) == le16(fmt_head, 8));
    assert(le16(bytes, 22) == le16(fmt_head, 10));
    assert(fmt_head[10] == info.channels as nat % 256);
    assert(fmt_head[11] == info.channels as nat / 0x100 % 256);
    lemma_le32_reads_back(rate, seq![]);
    assert(fmt_tail.take(4) == le32_bytes(rate) + seq![]);
    assert(le32(bytes, 24) == le32(fmt_tail.take(4), 0));
    assert(le16(bytes, 34) == le16(fmt_tail, 10));
    assert(fmt_tail[10] == info.bits_per_sample as nat % 256);
    assert(fmt_tail[11] == info.bits_per_sample as nat / 0x100 % 256);
    assert(le32(bytes, 36) == le32(data_head, 0));
    lemma_le32_reads_back(size, seq![]);
    assert(data_head.skip(4) == le32_bytes(size) + seq![]);
    assert(le32(bytes, 40) == le32(data_head.skip(4), 0));
}

/// Decoding gives back what was written: a minimal WAV file yields its layout and its
/// samples, whatever layout is the default.
pub proof fn minimal_wav_decodes(info: AudioInfo, data: Seq<u8>, default_info: AudioInfo)
    requires
        info.channels > 0,
        info.sample_rate_hz > 0,
        info.bits_per_sample > 0,
        info.bits_per_sample % 8 == 0,
        data.len() <= 0xffff_ffff,
        data.len() % frame_bytes(info) == 0,
    ensures
        audio_contents(minimal_wav(info, data), default_info) == Ok::<
            (AudioInfo, Seq<u8>),
            AudioError,
        >((info, data)),
{
    lemma_minimal_wav_fields(info, data);
    lemma_two_chunks_decode(minimal_wav(info, data), info, data);
}

proof fn lemma_two_chunks_decode(bytes: Seq<u8>, info: AudioInfo, data: Seq<u8>)
    requires
        info.channels > 0,
        info.sample_rate_hz > 0,
        info.bits_per_sample > 0,
        info.bits_per_sample % 8 == 0,
        data.len() % frame_bytes(info) == 0,
        bytes.len() == 44 + data.len(),
        le32(bytes, 12) == FMT_CHUNK,
        le32(bytes, 16) == 16,
        le16(bytes, 20) == 1,
        le16(bytes, 22) == info.channels,
        le32(bytes, 24) == info.sample_rate_hz,
        le16(bytes, 34) == info.bits_per_sample,
        le32(bytes, 36) == DATA_CHUNK,
        le32(bytes, 40) == data.len(),
        bytes.subrange(44, bytes.len() as int) == data,
    ensures
        wav_contents(bytes) == Ok::<(AudioInfo, Seq<u8>), AudioError>((info, data)),
{
    let size = data.len();
    let fmt = WavChunk { id: FMT_CHUNK as nat, start: 20, size: 16 };
    let body = WavChunk { id: DATA_CHUNK as nat, start: 44, size };
    let end = 44 + size + size % 2;
    assert(chunks_from(bytes, end as int) == Seq::<WavChunk>::empty());
    assert(chunks_from(bytes, 36) == seq![body] + chunks_from(bytes, end as int));
    assert(chunks_from(bytes, 36) == seq![body]);
    assert(chunks_from(bytes, 12) == seq![fmt] + chunks_from(bytes, 36));
    let chunks = chunks_from(bytes, 12);
    assert(chunks == seq![fmt, body]);
    assert(fmt_info(bytes, fmt) == info);
    assert(chunk_fault(bytes, fmt) is None);
    assert(chunk_fault(bytes, body) is None);
    assert(chunks.drop_first() == seq![body]);
    assert(seq![body].drop_first() == Seq::<WavChunk>::empty());
    assert(first_fault(bytes, Seq::<WavChunk>::empty()) is None);
    assert(first_fault(bytes, seq![body]) is None);
    assert(first_fault(bytes, chunks) is None);
    assert(chunks.drop_last() == seq![fmt]);
    assert(last_chunk(seq![fmt], FMT_CHUNK) == Some(fmt));
    assert(last_chunk(chunks, FMT_CHUNK) == Some(fmt));
    assert(last_chunk(chunks, DATA_CHUNK) == Some(body));
}

proof fn lemma_chunks_without_fault(bytes: Seq<u8>, chunks: Seq<WavChunk>, k: int)
    requires
        first_fault(bytes, chunks) is None,
        0 <= k < chunks.len(),
    ensures
        chunk_fault(bytes, chunks[k]) is None,
    decreases chunks.len(),
{
    if k > 0 {
        lemma_chunks_without_fault(bytes, chunks.drop_first(), k - 1);
    }
}

proof fn lemma_chunk_starts(bytes: Seq<u8>, offset: int, k: int)
    requires
        0 <= k < chunks_from(bytes, offset).len(),
    ensures
        chunks_from(bytes, offset)[k].start >= 8,
    decreases k,
{
    let chunk = chunks_from(bytes, offset).first();
    if k > 0 {
        let next = chunk.start + chunk.size + chunk.size % 2;
        assert(chunks_from(bytes, offset)[k] == chunks_from(bytes, next)[k - 1]);
        lemma_chunk_starts(bytes, next, k - 1);
    }
}

proof fn lemma_last_chunk_index(chunks: Seq<WavChunk>, id: u32) -> (k: int)
    requires
        last_chunk(chunks, id) is Some,
    ensures
        0 <= k < chunks.len(),
        chunks[k] == last_chunk(chunks, id)->0,
        chunks[k].id == id,
    decreases chunks.len(),
{
    if chunks.last().id == id {
        chunks.len() - 1
    } else {
        lemma_last_chunk_index(chunks.drop_last(), id)
    }
}

/// What is decoded from a WAV file has a usable layout, holds a whole number of frames,
/// and is a contiguous part of the file.
pub proof fn wav_samples_are_whole_frames(bytes: Seq<u8>, info: AudioInfo, samples: Seq<u8>)
    requires
        wav_contents(bytes) == Ok::<(AudioInfo, Seq<u8>), AudioError>((info, samples)),
    ensures
        info.channels > 0,
        info.sample_rate_hz > 0,
        info.bits_per_sample > 0,
        info.bits_per_sample % 8 == 0,
        frame_bytes(info) > 0,
        samples.len() % frame_bytes(info) == 0,
        exists|at: int|
            0 <= at <= bytes.len() - samples.len() && samples == #[trigger] bytes.subrange(
                at,
                at + samples.len(),
            ),
{
    let chunks = chunks_from(bytes, 12);
    let f = lemma_last_chunk_index(chunks, FMT_CHUNK);
    let d = lemma_last_chunk_index(chunks, DATA_CHUNK);
    lemma_chunks_without_fault(bytes, chunks, f);
    lemma_chunks_without_fault(bytes, chunks, d);
    lemma_chunk_starts(bytes, 12, d);
    let channels = info.channels as nat;
    let width = info.bits_per_sample as nat / 8;
    assert(channels * width > 0) by (nonlinear_arith)
        requires
            channels > 0,
            width > 0,
    ;
    let data = chunks[d];
    assert(samples == bytes.subrange(data.start, data.start + samples.len()));
}

/// A chunk to be written: its identifier, read as a little-endian number, its payload, and the byte
/// that pads a payload of odd length.
pub struct RiffChunk {
    pub id: nat,
    pub payload: Seq<u8>,
    pub padding: u8,
}

/// Tells whether a chunk can be written: the identifier and the length take four bytes each.
pub open spec fn can_be_written(chunk: RiffChunk) -> bool {
    chunk.id <= 0xffff_ffff && chunk.payload.len() <= 0xffff_ffff
}

/// The bytes of a chunk.
#[verifier::opaque]
pub open spec fn written_chunk(chunk: RiffChunk) -> Seq<u8> {
    le32_bytes(chunk.id) + le32_bytes(chunk.payload.len()) + chunk.payload + if chunk.payload.len()
        % 2 == 0 {
        Seq::<u8>::empty()
    } else {
        seq![chunk.padding]
    }
}

/// The bytes of chunks, one behind the other.
pub open spec fn written_chunks(chunks: Seq<RiffChunk>) -> Seq<u8>
    decreases chunks.len(),
{
    if chunks.len() == 0 {
        seq![]
    } else {
        written_chunk(chunks.first()) + written_chunks(chunks.drop_first())
    }
}

/// The bytes of a RIFF file of the form WAVE that declares a size and holds chunks.
#[verifier::opaque]
pub open spec fn written_wav(declared: nat, chunks: Seq<RiffChunk>) -> Seq<u8> {
    seq![0x52u8, 0x49, 0x46, 0x46] + le32_bytes(declared) + seq![0x57u8, 0x41, 0x56, 0x45]
        + written_chunks(chunks)
}

/// Tells whether a payload declares plain PCM samples in a layout that can be used.
pub open spec fn declares(payload: Seq<u8>, info: AudioInfo) -> bool {
    &&& payload.len() >= 16
    &&& le16(payload, 0) == 1
    &&& le16(payload, 2) == info.channels
    &&& le32(payload, 4) == info.sample_rate_hz
    &&& le16(payload, 14) == info.bits_per_sample
    &&& info.channels > 0
    &&& info.sample_rate_hz > 0
    &&& info.bits_per_sample > 0
    &&& info.bits_per_sample % 8 == 0
}

/// Tells whether a chunk of a file holds what was written.
spec fn holds(bytes: Seq<u8>, found: WavChunk, chunk: RiffChunk) -> bool {
    &&& found.id == chunk.id
    &&& found.size == chunk.payload.len()
    &&& 0 <= found.start
    &&& found.start + found.size <= bytes.len()
    &&& bytes.subrange(found.start, found.start + found.size) == chunk.payload
}

proof fn lemma_chunk_head(before: Seq<u8>, chunk: RiffChunk, after: Seq<u8>)
    requires
        can_be_written(chunk),
    ensures
        ({
            let bytes = before + written_chunk(chunk) + after;
            let at = before.len() as int;
            let size = chunk.payload.len();
            &&& le32(bytes, at) == chunk.id
            &&& le32(bytes, at + 4) == size
            &&& bytes.subrange(at + 8, at + 8 + size) == chunk.payload
            &&& written_chunk(chunk).len() == 8 + size + size % 2
        }),
{
    reveal(written_chunk);
    let bytes = before + written_chunk(chunk) + after;
    let written = written_chunk(chunk);
    let at = before.len() as int;
    let size = chunk.payload.len();
    let id = le32_bytes(chunk.id);
    let len = le32_bytes(size);
    assert(id.len() == 4 && len.len() == 4);
    assert forall|i: int| 0 <= i < 4 implies bytes[at + i] == #[trigger] id[i] by {
        assert(bytes[at + i] == written[i]);
    }
    assert forall|i: int| 0 <= i < 4 implies bytes[at + 4 + i] == #[trigger] len[i] by {
        assert(bytes[at + 4 + i] == written[4 + i]);
    }
    lemma_le32_reads_back(chunk.id, seq![]);
    lemma_le32_reads_back(size, seq![]);
    assert(id + Seq::<u8>::empty() == id);
    assert(len + Seq::<u8>::empty() == len);
    assert(le32(bytes, at) == le32(id, 0)) by {
        assert(bytes[at + 0] == id[0] && bytes[at + 1] == id[1] && bytes[at + 2] == id[2] && bytes[
        at + 3] == id[3]);
    }
    assert(le32(bytes, at + 4) == le32(len, 0)) by {
        assert(bytes[at + 4 + 0] == len[0] && bytes[at + 4 + 1] == len[1] && bytes[at + 4 + 2]
            == len[2] && bytes[at + 4 + 3] == len[3]);
    }
    assert(bytes.subrange(at + 8, at + 8 + size) == chunk.payload);
}

proof fn lemma_written_chunks_are_found(before: Seq<u8>, chunks: Seq<RiffChunk>, after: Seq<u8>)
    requires
        forall|k: int| 0 <= k < chunks.len() ==> can_be_written(#[trigger] chunks[k]),
    ensures
        ({
            let bytes = before + written_chunks(chunks) + after;
            let found = chunks_from(bytes, before.len() as int);
            let end = (before + written_chunks(chunks)).len() as int;
            let rest = chunks_from(bytes, end);
            &&& found.len() == chunks.len() + rest.len()
            &&& found == found.take(chunks.len() as int) + rest
            &&& forall|k: int| 0 <= k < chunks.len() ==> holds(bytes, #[trigger] found[k], chunks[k])
        }),
    decreases chunks.len(),
{
    let bytes = before + written_chunks(chunks) + after;
    let at = before.len() as int;
    let found = chunks_from(bytes, at);
    let end = (before + written_chunks(chunks)).len() as int;
    if chunks.len() == 0 {
        assert(found == found.take(0) + chunks_from(bytes, end));
    } else {
        let chunk = chunks.first();
        let others = chunks.drop_first();
        let next = before + written_chunk(chunk);
        assert(can_be_written(chunks[0]));
        assert forall|k: int| 0 <= k < others.len() implies can_be_written(#[trigger] others[k]) by {
            assert(can_be_written(chunks[k + 1]));
        }
        assert(bytes == next + written_chunks(others) + after);
        assert(bytes == before + written_chunk(chunk) + (written_chunks(others) + after));
        lemma_chunk_head(before, chunk, written_chunks(others) + after);
        lemma_written_chunks_are_found(next, others, after);
        assert(next + written_chunks(others) == before + written_chunks(chunks));
        let size = chunk.payload.len();
        let first = WavChunk { id: chunk.id, start: at + 8, size };
        let later = chunks_from(bytes, next.len() as int);
        assert(next.len() == first.start + size + size % 2);
        assert(found == seq![first] + later);
        assert forall|k: int| 0 <= k < chunks.len() implies holds(
            bytes,
            #[trigger] found[k],
            chunks[k],
        ) by {
            if k > 0 {
                assert(found[k] == later[k - 1]);
                assert(chunks[k] == others[k - 1]);
            }
        }
        let n = chunks.len() as int;
        assert(found == found.take(n) + chunks_from(bytes, end)) by {
            assert(found.take(n) == seq![first] + later.take(n - 1));
        }
    }
}

/// All chunks of a written file are found, also where a few bytes that make no chunk follow.
proof fn lemma_written_wav(declared: nat, chunks: Seq<RiffChunk>, after: Seq<u8>)
    requires
        forall|k: int| 0 <= k < chunks.len() ==> can_be_written(#[trigger] chunks[k]),
        after.len() < 8,
    ensures
        ({
            let bytes = written_wav(declared, chunks) + after;
            let found = chunks_from(bytes, 12);
            &&& has_wav_header(bytes)
            &&& found.len() == chunks.len()
            &&& forall|k: int| 0 <= k < chunks.len() ==> holds(bytes, #[trigger] found[k], chunks[k])
        }),
{
    reveal(written_wav);
    let head = seq![0x52u8, 0x49, 0x46, 0x46] + le32_bytes(declared) + seq![
        0x57u8,
        0x41,
        0x56,
        0x45,
    ];
    let bytes = written_wav(declared, chunks) + after;
    assert(head.len() == 12);
    assert(bytes == head + written_chunks(chunks) + after);
    lemma_written_chunks_are_found(head, chunks, after);
    assert(bytes.subrange(0, 4) == seq![0x52u8, 0x49, 0x46, 0x46]);
    assert(bytes.subrange(8, 12) == seq![0x57u8, 0x41, 0x56, 0x45]);
    let end = (head + written_chunks(chunks)).len() as int;
    assert(chunks_from(bytes, end) == Seq::<WavChunk>::empty());
}

proof fn lemma_same_bytes(bytes: Seq<u8>, start: int, payload: Seq<u8>)
    requires
        0 <= start,
        start + payload.len() <= bytes.len(),
        bytes.subrange(start, start + payload.len()) == payload,
    ensures
        payload.len() >= 16 ==> {
            &&& le16(bytes, start) == le16(payload, 0)
            &&& le16(bytes, start + 2) == le16(payload, 2)
            &&& le32(bytes, start + 4) == le32(payload, 4)
            &&& le16(bytes, start + 14) == le16(payload, 14)
        },
{
    assert forall|i: int| 0 <= i < payload.len() implies bytes[start + i] == #[trigger] payload[i] by {
        assert(bytes.subrange(start, start + payload.len())[i] == bytes[start + i]);
    }
    if payload.len() >= 16 {
        assert(bytes[start + 0] == payload[0]);
        assert(bytes[start + 1] == payload[1]);
        assert(bytes[start + 2] == payload[2]);
        assert(bytes[start + 3] == payload[3]);
        assert(bytes[start + 4] == payload[4]);
        assert(bytes[start + 5] == payload[5]);
        assert(bytes[start + 6] == payload[6]);
        assert(bytes[start + 7] == payload[7]);
        assert(bytes[start + 14] == payload[14]);
        assert(bytes[start + 15] == payload[15]);
    }
}

/// The fault of a chunk depends on its identifier and its payload alone.
proof fn lemma_same_fault(
    a: Seq<u8>,
    x: WavChunk,
    b: Seq<u8>,
    y: WavChunk,
    chunk: RiffChunk,
)
    requires
        holds(a, x, chunk),
        holds(b, y, chunk),
    ensures
        chunk_fault(a, x) == chunk_fault(b, y),
        chunk.payload.len() >= 16 ==> fmt_info(a, x) == fmt_info(b, y),
{
    lemma_same_bytes(a, x.start, chunk.payload);
    lemma_same_bytes(b, y.start, chunk.payload);
}

proof fn lemma_same_first_fault(
    a: Seq<u8>,
    xs: Seq<WavChunk>,
    b: Seq<u8>,
    ys: Seq<WavChunk>,
    chunks: Seq<RiffChunk>,
)
    requires
        xs.len() == chunks.len(),
        ys.len() == chunks.len(),
        forall|k: int| 0 <= k < chunks.len() ==> holds(a, #[trigger] xs[k], chunks[k]),
        forall|k: int| 0 <= k < chunks.len() ==> holds(b, #[trigger] ys[k], chunks[k]),
    ensures
        first_fault(a, xs) == first_fault(b, ys),
    decreases chunks.len(),
{
    if chunks.len() > 0 {
        assert(holds(a, xs[0], chunks[0]) && holds(b, ys[0], chunks[0]));
        lemma_same_fault(a, xs[0], b, ys[0], chunks[0]);
        let us = xs.drop_first();
        let vs = ys.drop_first();
        let rest = chunks.drop_first();
        assert forall|k: int| 0 <= k < rest.len() implies holds(a, #[trigger] us[k], rest[k]) by {
            assert(holds(a, xs[k + 1], chunks[k + 1]));
        }
        assert forall|k: int| 0 <= k < rest.len() implies holds(b, #[trigger] vs[k], rest[k]) by {
            assert(holds(b, ys[k + 1], chunks[k + 1]));
        }
        lemma_same_first_fault(a, us, b, vs, rest);
    }
}

/// The place of the last chunk with an identifier depends on the identifiers alone.
proof fn lemma_last_chunk_is(chunks: Seq<WavChunk>, id: u32, at: int)
    requires
        -1 <= at < chunks.len(),
        at >= 0 ==> chunks[at].id == id,
        forall|k: int| at < k < chunks.len() ==> (#[trigger] chunks[k]).id != id,
    ensures
        last_chunk(chunks, id) == if at >= 0 {
            Some(chunks[at])
        } else {
            None
        },
    decreases chunks.len(),
{
    if chunks.len() > 0 && at < chunks.len() - 1 {
        assert(chunks[chunks.len() - 1].id != id);
        assert forall|k: int| at < k < chunks.drop_last().len() implies (
        #[trigger] chunks.drop_last()[k]).id != id by {
            assert(chunks[k].id != id);
        }
        lemma_last_chunk_is(chunks.drop_last(), id, at);
    }
}

proof fn lemma_last_place(chunks: Seq<RiffChunk>, id: u32) -> (at: int)
    ensures
        -1 <= at < chunks.len(),
        at >= 0 ==> chunks[at].id == id,
        forall|k: int| at < k < chunks.len() ==> (#[trigger] chunks[k]).id != id,
    decreases chunks.len(),
{
    if chunks.len() == 0 {
        -1
    } else if chunks.last().id == id {
        chunks.len() - 1
    } else {
        let at = lemma_last_place(chunks.drop_last(), id);
        assert forall|k: int| at < k < chunks.len() implies (#[trigger] chunks[k]).id != id by {
            if k < chunks.len() - 1 {
                assert(chunks.drop_last()[k].id != id);
            }
        }
        at
    }
}

proof fn lemma_no_fault(bytes: Seq<u8>, chunks: Seq<WavChunk>)
    requires
        forall|k: int| 0 <= k < chunks.len() ==> chunk_fault(bytes, #[trigger] chunks[k]) is None,
    ensures
        first_fault(bytes, chunks) is None,
    decreases chunks.len(),
{
    if chunks.len() > 0 {
        assert(chunk_fault(bytes, chunks[0]) is None);
        assert forall|k: int| 0 <= k < chunks.drop_first().len() implies chunk_fault(
            bytes,
            #[trigger] chunks.drop_first()[k],
        ) is None by {
            assert(chunk_fault(bytes, chunks[k + 1]) is None);
        }
        lemma_no_fault(bytes, chunks.drop_first());
    }
}

proof fn lemma_declared_layout(
    bytes: Seq<u8>,
    found: WavChunk,
    chunk: RiffChunk,
    info: AudioInfo,
)
    requires
        holds(bytes, found, chunk),
        declares(chunk.payload, info),
    ensures
        chunk_fault(bytes, found) is None,
        fmt_info(bytes, found) == info,
{
    lemma_same_bytes(bytes, found.start, chunk.payload);
}

/// Decoding gives back what was written, whatever else was written: of the chunks of a file, in any
/// number, of any kind and length, and in any order, the last format chunk gives the layout and the
/// last data chunk the samples, and the others do not matter.
pub proof fn last_format_and_data_count(
    declared: nat,
    chunks: Seq<RiffChunk>,
    after: Seq<u8>,
    infos: Seq<AudioInfo>,
    format: int,
    data: int,
    default_info: AudioInfo,
)
    requires
        after.len() < 8,
        infos.len() == chunks.len(),
        forall|k: int| 0 <= k < chunks.len() ==> can_be_written(#[trigger] chunks[k]),
        forall|k: int|
            0 <= k < chunks.len() && (#[trigger] chunks[k]).id == FMT_CHUNK ==> declares(
                chunks[k].payload,
                infos[k],
            ),
        0 <= format < chunks.len(),
        chunks[format].id == FMT_CHUNK,
        forall|k: int| format < k < chunks.len() ==> (#[trigger] chunks[k]).id != FMT_CHUNK,
        0 <= data < chunks.len(),
        chunks[data].id == DATA_CHUNK,
        forall|k: int| data < k < chunks.len() ==> (#[trigger] chunks[k]).id != DATA_CHUNK,
    ensures
        ({
            let info = infos[format];
            let samples = chunks[data].payload;
            let frame = info.channels as nat * (info.bits_per_sample as nat / 8);
            audio_contents(written_wav(declared, chunks) + after, default_info) == if samples.len()
                % frame == 0 {
                Ok::<(AudioInfo, Seq<u8>), AudioError>((info, samples))
            } else {
                Err(
                    AudioError::MisalignedData {
                        data_size: samples.len() as usize,
                        block_align: frame as usize,
                    },
                )
            }
        }),
{
    let bytes = written_wav(declared, chunks) + after;
    let found = chunks_from(bytes, 12);
    lemma_written_wav(declared, chunks, after);
    assert forall|k: int| 0 <= k < found.len() implies chunk_fault(
        bytes,
        #[trigger] found[k],
    ) is None by {
        assert(holds(bytes, found[k], chunks[k]));
        if chunks[k].id == FMT_CHUNK {
            lemma_declared_layout(bytes, found[k], chunks[k], infos[k]);
        }
    }
    lemma_no_fault(bytes, found);
    assert forall|k: int| 0 <= k < found.len() implies (#[trigger] found[k]).id == chunks[k].id by {
        assert(holds(bytes, found[k], chunks[k]));
    }
    lemma_last_chunk_is(found, FMT_CHUNK, format);
    lemma_last_chunk_is(found, DATA_CHUNK, data);
    assert(holds(bytes, found[format], chunks[format]));
    assert(holds(bytes, found[data], chunks[data]));
    lemma_declared_layout(bytes, found[format], chunks[format], infos[format]);
}

/// A file without a format chunk lacks it, and one with a format chunk, but without data, lacks data.
pub proof fn missing_chunks_are_told(
    declared: nat,
    chunks: Seq<RiffChunk>,
    after: Seq<u8>,
    infos: Seq<AudioInfo>,
    default_info: AudioInfo,
)
    requires
        after.len() < 8,
        infos.len() == chunks.len(),
        forall|k: int| 0 <= k < chunks.len() ==> can_be_written(#[trigger] chunks[k]),
        forall|k: int|
            0 <= k < chunks.len() && (#[trigger] chunks[k]).id == FMT_CHUNK ==> declares(
                chunks[k].payload,
                infos[k],
            ),
    ensures
        ({
            let contents = audio_contents(written_wav(declared, chunks) + after, default_info);
            let has_format = exists|k: int|
                0 <= k < chunks.len() && (#[trigger] chunks[k]).id == FMT_CHUNK;
            let has_data = exists|k: int|
                0 <= k < chunks.len() && (#[trigger] chunks[k]).id == DATA_CHUNK;
            &&& !has_format ==> contents == Err::<(AudioInfo, Seq<u8>), AudioError>(
                AudioError::MissingFmt,
            )
            &&& has_format && !has_data ==> contents == Err::<(AudioInfo, Seq<u8>), AudioError>(
                AudioError::MissingData,
            )
        }),
{
    let bytes = written_wav(declared, chunks) + after;
    let found = chunks_from(bytes, 12);
    lemma_written_wav(declared, chunks, after);
    assert forall|k: int| 0 <= k < found.len() implies chunk_fault(
        bytes,
        #[trigger] found[k],
    ) is None by {
        assert(holds(bytes, found[k], chunks[k]));
        if chunks[k].id == FMT_CHUNK {
            lemma_declared_layout(bytes, found[k], chunks[k], infos[k]);
        }
    }
    lemma_no_fault(bytes, found);
    assert forall|k: int| 0 <= k < found.len() implies (#[trigger] found[k]).id == chunks[k].id by {
        assert(holds(bytes, found[k], chunks[k]));
    }
    let format = lemma_last_place(chunks, FMT_CHUNK);
    let data = lemma_last_place(chunks, DATA_CHUNK);
    lemma_last_chunk_is(found, FMT_CHUNK, format);
    lemma_last_chunk_is(found, DATA_CHUNK, data);
}

proof fn lemma_fault_passes_over(bytes: Seq<u8>, chunks: Seq<WavChunk>, i: int)
    requires
        0 <= i < chunks.len(),
        chunk_fault(bytes, chunks[i]) is None,
    ensures
        first_fault(bytes, chunks) == first_fault(bytes, chunks.remove(i)),
    decreases i,
{
    if i == 0 {
        assert(chunks.remove(0) == chunks.drop_first());
    } else {
        lemma_fault_passes_over(bytes, chunks.drop_first(), i - 1);
        assert(chunks.remove(i).drop_first() == chunks.drop_first().remove(i - 1));
        assert(chunks.remove(i).first() == chunks.first());
    }
}

/// Chunks of another kind do not matter: a chunk that is neither a format chunk nor a data chunk, of
/// any length, may stand before, between or behind any others, and what is decoded, or what keeps
/// the file from being decoded, stays the same.
pub proof fn other_chunks_do_not_matter(
    declared: nat,
    chunks: Seq<RiffChunk>,
    i: int,
    other: RiffChunk,
    after: Seq<u8>,
    default_info: AudioInfo,
)
    requires
        after.len() < 8,
        forall|k: int| 0 <= k < chunks.len() ==> can_be_written(#[trigger] chunks[k]),
        0 <= i <= chunks.len(),
        can_be_written(other),
        other.id != FMT_CHUNK,
        other.id != DATA_CHUNK,
    ensures
        audio_contents(written_wav(declared, chunks.insert(i, other)) + after, default_info)
            == audio_contents(written_wav(declared, chunks) + after, default_info),
{
    let more = chunks.insert(i, other);
    let a = written_wav(declared, chunks) + after;
    let b = written_wav(declared, more) + after;
    let xs = chunks_from(a, 12);
    let ys = chunks_from(b, 12);
    assert forall|k: int| 0 <= k < more.len() implies can_be_written(#[trigger] more[k]) by {
        if k < i {
            assert(more[k] == chunks[k]);
        } else if k > i {
            assert(more[k] == chunks[k - 1]);
        }
    }
    lemma_written_wav(declared, chunks, after);
    lemma_written_wav(declared, more, after);
    assert(more[i] == other);
    assert(holds(b, ys[i], more[i]));
    assert(chunk_fault(b, ys[i]) is None);
    lemma_fault_passes_over(b, ys, i);
    let zs = ys.remove(i);
    assert forall|k: int| 0 <= k < chunks.len() implies holds(b, #[trigger] zs[k], chunks[k]) by {
        if k < i {
            assert(holds(b, ys[k], more[k]));
        } else {
            assert(holds(b, ys[k + 1], more[k + 1]));
        }
    }
    lemma_same_first_fault(a, xs, b, zs, chunks);
    lemma_same_last_chunk(a, chunks, b, more, i, xs, ys, FMT_CHUNK);
    lemma_same_last_chunk(a, chunks, b, more, i, xs, ys, DATA_CHUNK);
    if first_fault(a, xs) is None {
        if let Some(x) = last_chunk(xs, FMT_CHUNK) {
            let k = lemma_last_chunk_index(xs, FMT_CHUNK);
            lemma_chunks_without_fault(a, xs, k);
            assert(x.size >= 16);
        }
    }
}

proof fn lemma_same_last_chunk(
    a: Seq<u8>,
    chunks: Seq<RiffChunk>,
    b: Seq<u8>,
    more: Seq<RiffChunk>,
    i: int,
    xs: Seq<WavChunk>,
    ys: Seq<WavChunk>,
    id: u32,
)
    requires
        0 <= i <= chunks.len(),
        more.len() == chunks.len() + 1,
        more == chunks.insert(i, more[i]),
        more[i].id != id,
        xs.len() == chunks.len(),
        ys.len() == more.len(),
        forall|k: int| 0 <= k < chunks.len() ==> holds(a, #[trigger] xs[k], chunks[k]),
        forall|k: int| 0 <= k < more.len() ==> holds(b, #[trigger] ys[k], more[k]),
    ensures
        last_chunk(xs, id) is Some <==> last_chunk(ys, id) is Some,
        last_chunk(xs, id) is Some ==> {
            let x = last_chunk(xs, id)->0;
            let y = last_chunk(ys, id)->0;
            &&& x.size == y.size
            &&& a.subrange(x.start, x.start + x.size) == b.subrange(y.start, y.start + y.size)
            &&& x.size >= 16 ==> fmt_info(a, x) == fmt_info(b, y)
        },
{
    let at = lemma_last_place(chunks, id);
    let there = if at < i {
        at
    } else {
        at + 1
    };
    assert forall|k: int| 0 <= k < xs.len() implies (#[trigger] xs[k]).id == chunks[k].id by {
        assert(holds(a, xs[k], chunks[k]));
    }
    assert forall|k: int| 0 <= k < ys.len() implies (#[trigger] ys[k]).id == more[k].id by {
        assert(holds(b, ys[k], more[k]));
    }
    lemma_last_chunk_is(xs, id, at);
    assert forall|k: int| there < k < ys.len() implies (#[trigger] ys[k]).id != id by {
        if k < i {
            assert(more[k] == chunks[k]);
        } else if k > i {
            assert(more[k] == chunks[k - 1]);
        }
    }
    if at >= 0 {
        assert(more[there] == chunks[at]);
    }
    lemma_last_chunk_is(ys, id, there);
    if at >= 0 {
        assert(holds(a, xs[at], chunks[at]));
        assert(holds(b, ys[there], more[there]));
        lemma_same_fault(a, xs[at], b, ys[there], chunks[at]);
    }
}

/// The format chunk of 16 bytes that declares a layout.
#[verifier::opaque]
pub open spec fn format_chunk(info: AudioInfo) -> RiffChunk {
    let rate = info.sample_rate_hz as nat;
    RiffChunk {
        id: FMT_CHUNK as nat,
        payload: le16_bytes(1) + le16_bytes(info.channels as nat) + le32_bytes(rate) + le32_bytes(
            rate * frame_bytes(info),
        ) + le16_bytes(frame_bytes(info)) + le16_bytes(info.bits_per_sample as nat),
        padding: 0,
    }
}

proof fn lemma_format_chunk(info: AudioInfo)
    requires
        info.channels > 0,
        info.sample_rate_hz > 0,
        info.bits_per_sample > 0,
        info.bits_per_sample % 8 == 0,
    ensures
        can_be_written(format_chunk(info)),
        format_chunk(info).id == FMT_CHUNK,
        declares(format_chunk(info).payload, info),
{
    reveal(format_chunk);
    let payload = format_chunk(info).payload;
    let rate = info.sample_rate_hz as nat;
    assert(payload.len() == 16);
    assert(payload[0] == 1 && payload[1] == 0);
    assert(payload[2] == info.channels as nat % 256);
    assert(payload[3] == info.channels as nat / 0x100 % 256);
    assert(payload[4] == rate % 256);
    assert(payload[5] == rate / 0x100 % 256);
    assert(payload[6] == rate / 0x10000 % 256);
    assert(payload[7] == rate / 0x1000000 % 256);
    assert(payload[14] == info.bits_per_sample as nat % 256);
    assert(payload[15] == info.bits_per_sample as nat / 0x100 % 256);
}

proof fn lemma_format_and_data(
    declared: nat,
    info: AudioInfo,
    body: RiffChunk,
    default_info: AudioInfo,
)
    requires
        info.channels > 0,
        info.sample_rate_hz > 0,
        info.bits_per_sample > 0,
        info.bits_per_sample % 8 == 0,
        can_be_written(body),
        body.id == DATA_CHUNK,
        body.payload.len() % frame_bytes(info) == 0,
    ensures
        can_be_written(format_chunk(info)),
        audio_contents(written_wav(declared, seq![format_chunk(info), body]), default_info) == Ok::<
            (AudioInfo, Seq<u8>),
            AudioError,
        >((info, body.payload)),
{
    lemma_format_chunk(info);
    let two = seq![format_chunk(info), body];
    let wav = written_wav(declared, two);
    assert(two[0] == format_chunk(info) && two[1] == body);
    last_format_and_data_count(declared, two, seq![], seq![info, info], 0, 1, default_info);
    assert(wav + Seq::<u8>::empty() == wav);
}

proof fn lemma_another_chunk(
    declared: nat,
    chunks: Seq<RiffChunk>,
    i: int,
    other: RiffChunk,
    default_info: AudioInfo,
)
    requires
        forall|k: int| 0 <= k < chunks.len() ==> can_be_written(#[trigger] chunks[k]),
        0 <= i <= chunks.len(),
        can_be_written(other),
        other.id != FMT_CHUNK,
        other.id != DATA_CHUNK,
    ensures
        audio_contents(written_wav(declared, chunks.insert(i, other)), default_info)
            == audio_contents(written_wav(declared, chunks), default_info),
{
    let none = Seq::<u8>::empty();
    let a = written_wav(declared, chunks);
    let b = written_wav(declared, chunks.insert(i, other));
    other_chunks_do_not_matter(declared, chunks, i, other, none, default_info);
    assert(a + none == a && b + none == b);
}

/// A file of a header, a format chunk, another chunk and a data chunk yields its layout and its
/// samples, however long the other chunk is; and so it does with the other chunk before or behind
/// the two.
pub proof fn wav_with_another_chunk_decodes(
    declared: nat,
    info: AudioInfo,
    other: RiffChunk,
    data: Seq<u8>,
    padding: u8,
    default_info: AudioInfo,
)
    requires
        info.channels > 0,
        info.sample_rate_hz > 0,
        info.bits_per_sample > 0,
        info.bits_per_sample % 8 == 0,
        data.len() <= 0xffff_ffff,
        data.len() % frame_bytes(info) == 0,
        can_be_written(other),
        other.id != FMT_CHUNK,
        other.id != DATA_CHUNK,
    ensures
        ({
            let format = format_chunk(info);
            let body = RiffChunk { id: DATA_CHUNK as nat, payload: data, padding };
            let decoded = Ok::<(AudioInfo, Seq<u8>), AudioError>((info, data));
            &&& audio_contents(written_wav(declared, seq![format, body]), default_info) == decoded
            &&& audio_contents(written_wav(declared, seq![format, other, body]), default_info)
                == decoded
            &&& audio_contents(written_wav(declared, seq![other, format, body]), default_info)
                == decoded
            &&& audio_contents(written_wav(declared, seq![format, body, other]), default_info)
                == decoded
        }),
{
    let format = format_chunk(info);
    let body = RiffChunk { id: DATA_CHUNK as nat, payload: data, padding };
    let two = seq![format, body];
    lemma_format_and_data(declared, info, body, default_info);
    lemma_another_chunk(declared, two, 0, other, default_info);
    lemma_another_chunk(declared, two, 1, other, default_info);
    lemma_another_chunk(declared, two, 2, other, default_info);
    assert(two.insert(0, other) =~= seq![other, format, body]);
    assert(two.insert(1, other) =~= seq![format, other, body]);
    assert(two.insert(2, other) =~= seq![format, body, other]);
}

/// A chunk that runs past the end of the file is refused by its identifier, whatever stands before
/// it.
pub proof fn chunk_past_the_end_is_refused(
    declared: nat,
    chunks: Seq<RiffChunk>,
    infos: Seq<AudioInfo>,
    id: nat,
    size: nat,
    rest: Seq<u8>,
    default_info: AudioInfo,
)
    requires
        infos.len() == chunks.len(),
        forall|k: int| 0 <= k < chunks.len() ==> can_be_written(#[trigger] chunks[k]),
        forall|k: int|
            0 <= k < chunks.len() && (#[trigger] chunks[k]).id == FMT_CHUNK ==> declares(
                chunks[k].payload,
                infos[k],
            ),
        id <= 0xffff_ffff,
        rest.len() < size <= 0xffff_ffff,
    ensures
        audio_contents(
            written_wav(declared, chunks) + (le32_bytes(id) + le32_bytes(size) + rest),
            default_info,
        ) == Err::<(AudioInfo, Seq<u8>), AudioError>(
            AudioError::InvalidChunkSize { chunk_id: id as u32 },
        ),
{
    reveal(written_wav);
    let head = seq![0x52u8, 0x49, 0x46, 0x46] + le32_bytes(declared) + seq![
        0x57u8,
        0x41,
        0x56,
        0x45,
    ];
    let tail = le32_bytes(id) + le32_bytes(size) + rest;
    let bytes = written_wav(declared, chunks) + tail;
    let at = written_wav(declared, chunks).len() as int;
    assert(head.len() == 12);
    assert(bytes == head + written_chunks(chunks) + tail);
    lemma_written_chunks_are_found(head, chunks, tail);
    assert(bytes.subrange(0, 4) == seq![0x52u8, 0x49, 0x46, 0x46]);
    assert(bytes.subrange(8, 12) == seq![0x57u8, 0x41, 0x56, 0x45]);
    let a = le32_bytes(id);
    let b = le32_bytes(size);
    lemma_le32_reads_back(id, seq![]);
    lemma_le32_reads_back(size, seq![]);
    assert(a + Seq::<u8>::empty() == a);
    assert(b + Seq::<u8>::empty() == b);
    assert(le32(bytes, at) == le32(a, 0)) by {
        assert(bytes[at] == a[0] && bytes[at + 1] == a[1] && bytes[at + 2] == a[2] && bytes[at + 3]
            == a[3]);
    }
    assert(le32(bytes, at + 4) == le32(b, 0)) by {
        assert(bytes[at + 4] == b[0] && bytes[at + 5] == b[1] && bytes[at + 6] == b[2] && bytes[at
            + 7] == b[3]);
    }
    let last = WavChunk { id, start: at + 8, size };
    assert(chunks_from(bytes, at) == seq![last]);
    let found = chunks_from(bytes, 12);
    let n = chunks.len() as int;
    let done = found.take(n);
    assert forall|k: int| 0 <= k < done.len() implies chunk_fault(
        bytes,
        #[trigger] done[k],
    ) is None by {
        assert(holds(bytes, found[k], chunks[k]));
        if chunks[k].id == FMT_CHUNK {
            lemma_declared_layout(bytes, found[k], chunks[k], infos[k]);
        }
    }
    lemma_no_fault(bytes, done);
    lemma_fault_after(bytes, done, seq![last]);
}

/// A format chunk that does not declare plain PCM samples in a usable layout is refused, whatever
/// stands before and after it, for the first reason that holds: it is too short, the samples are not
/// plain PCM, a number is zero, or the samples do not take whole bytes.
pub proof fn unusable_format_is_refused(
    declared: nat,
    before: Seq<RiffChunk>,
    infos: Seq<AudioInfo>,
    format: RiffChunk,
    behind: Seq<RiffChunk>,
    after: Seq<u8>,
    default_info: AudioInfo,
)
    requires
        after.len() < 8,
        infos.len() == before.len(),
        forall|k: int| 0 <= k < before.len() ==> can_be_written(#[trigger] before[k]),
        forall|k: int|
            0 <= k < before.len() && (#[trigger] before[k]).id == FMT_CHUNK ==> declares(
                before[k].payload,
                infos[k],
            ),
        can_be_written(format),
        format.id == FMT_CHUNK,
        forall|k: int| 0 <= k < behind.len() ==> can_be_written(#[trigger] behind[k]),
    ensures
        ({
            let p = format.payload;
            let contents = audio_contents(
                written_wav(declared, before + seq![format] + behind) + after,
                default_info,
            );
            let zero = le16(p, 2) == 0 || le32(p, 4) == 0 || le16(p, 14) == 0;
            &&& p.len() < 16 ==> contents == Err::<(AudioInfo, Seq<u8>), AudioError>(
                AudioError::FmtTooSmall { chunk_size: p.len() as usize },
            )
            &&& p.len() >= 16 && le16(p, 0) != 1 ==> contents == Err::<
                (AudioInfo, Seq<u8>),
                AudioError,
            >(AudioError::UnsupportedFormat { audio_format: le16(p, 0) as u16 })
            &&& p.len() >= 16 && le16(p, 0) == 1 && zero ==> contents == Err::<
                (AudioInfo, Seq<u8>),
                AudioError,
            >(
                AudioError::InvalidFmt {
                    channels: le16(p, 2) as u16,
                    sample_rate_hz: le32(p, 4) as u32,
                    bits_per_sample: le16(p, 14) as u16,
                },
            )
            &&& p.len() >= 16 && le16(p, 0) == 1 && !zero && le16(p, 14) % 8 != 0 ==> contents
                == Err::<(AudioInfo, Seq<u8>), AudioError>(
                AudioError::UnsupportedBitDepth { bits_per_sample: le16(p, 14) as u16 },
            )
        }),
{
    let chunks = before + seq![format] + behind;
    let bytes = written_wav(declared, chunks) + after;
    let found = chunks_from(bytes, 12);
    let n = before.len() as int;
    assert forall|k: int| 0 <= k < chunks.len() implies can_be_written(#[trigger] chunks[k]) by {
        if k < n {
            assert(chunks[k] == before[k]);
        } else if k > n {
            assert(chunks[k] == behind[k - n - 1]);
        }
    }
    lemma_written_wav(declared, chunks, after);
    let done = found.take(n);
    assert forall|k: int| 0 <= k < done.len() implies chunk_fault(
        bytes,
        #[trigger] done[k],
    ) is None by {
        assert(holds(bytes, found[k], chunks[k]));
        assert(chunks[k] == before[k]);
        if chunks[k].id == FMT_CHUNK {
            lemma_declared_layout(bytes, found[k], chunks[k], infos[k]);
        }
    }
    lemma_no_fault(bytes, done);
    let rest = found.skip(n);
    assert(found == done + rest);
    lemma_fault_after(bytes, done, rest);
    assert(chunks[n] == format);
    assert(holds(bytes, found[n], chunks[n]));
    assert(rest.first() == found[n]);
    lemma_same_bytes(bytes, found[n].start, format.payload);
}

/// Bytes without the header of a WAV file are samples in the given layout, all of them.
pub proof fn anything_else_is_samples(bytes: Seq<u8>, default_info: AudioInfo)
    requires
        bytes.len() < 12 || bytes.subrange(0, 4) != seq![0x52u8, 0x49, 0x46, 0x46]
            || bytes.subrange(8, 12) != seq![0x57u8, 0x41, 0x56, 0x45],
    ensures
        audio_contents(bytes, default_info) == Ok::<(AudioInfo, Seq<u8>), AudioError>(
            (default_info, bytes),
        ),
{
}

/// Little-endian numbers are read back wherever they stand.
pub proof fn little_endian_numbers_read_back(before: Seq<u8>, n: nat, after: Seq<u8>)
    ensures
        n <= 0xffff_ffff ==> le32(before + le32_bytes(n) + after, before.len() as int) == n,
        n <= 0xffff ==> le16(before + le16_bytes(n) + after, before.len() as int) == n,
{
    let at = before.len() as int;
    let wide = before + le32_bytes(n) + after;
    assert(wide[at] == le32_bytes(n)[0] && wide[at + 1] == le32_bytes(n)[1] && wide[at + 2]
        == le32_bytes(n)[2] && wide[at + 3] == le32_bytes(n)[3]);
    if n <= 0xffff_ffff {
        lemma_le32_reads_back(n, seq![]);
        assert(le32_bytes(n) + Seq::<u8>::empty() == le32_bytes(n));
    }
    let narrow = before + le16_bytes(n) + after;
    assert(narrow[at] == le16_bytes(n)[0] && narrow[at + 1] == le16_bytes(n)[1]);
}

/// The message of an error ends with the number that it tells, from which it can be read back.
pub proof fn messages_tell_their_numbers(offset: usize, chunk_id: u32, bits_per_sample: u16)
    ensures
        ({
            let max = u64::MAX as nat;
            let at16 = "failed to read u16 at byte offset "@;
            let at32 = "failed to read u32 at byte offset "@;
            let chunk = "invalid WAV chunk size for chunk 0x"@;
            let short16 = (AudioError::ShortU16 { offset }).words();
            let short32 = (AudioError::ShortU32 { offset }).words();
            let invalid = (AudioError::InvalidChunkSize { chunk_id }).words();
            &&& short16 == at16 + short16.skip(at16.len() as int)
            &&& numeric::unsigned_number(short16.skip(at16.len() as int), max) == Some(
                offset as nat,
            )
            &&& short32 == at32 + short32.skip(at32.len() as int)
            &&& numeric::unsigned_number(short32.skip(at32.len() as int), max) == Some(
                offset as nat,
            )
            &&& invalid == chunk + numeric::hex8(chunk_id as nat)
        }),
{
    let at16 = "failed to read u16 at byte offset "@;
    let at32 = "failed to read u32 at byte offset "@;
    let number = numeric::decimal(offset as nat);
    numeric::decimal_reads_back(offset as nat, u64::MAX as nat);
    assert((at16 + number).skip(at16.len() as int) == number);
    assert((at32 + number).skip(at32.len() as int) == number);
}

/// The message of a fault in the format or in the data tells all numbers of the fault.
pub proof fn fault_messages_tell_their_numbers(size: usize, n: u16, rate: u32, bits: u16, align: usize)
    ensures
        (AudioError::FmtTooSmall { chunk_size: size }).words() == "WAV fmt chunk is too small: "@
            + numeric::decimal(size as nat) + " bytes"@,
        (AudioError::UnsupportedFormat { audio_format: n }).words()
            == "unsupported WAV audio format "@ + numeric::decimal(n as nat)
            + "; expected PCM format 1"@,
        (AudioError::InvalidFmt {
            channels: n,
            sample_rate_hz: rate,
            bits_per_sample: bits,
        }).words() == "invalid WAV fmt values: channels="@ + numeric::decimal(n as nat)
            + ", sample_rate="@ + numeric::decimal(rate as nat) + ", bits="@ + numeric::decimal(
            bits as nat,
        ),
        (AudioError::UnsupportedBitDepth { bits_per_sample: bits }).words()
            == "unsupported WAV bit depth "@ + numeric::decimal(bits as nat)
            + "; expected byte-aligned PCM"@,
        (AudioError::MisalignedData { data_size: size, block_align: align }).words()
            == "WAV data chunk has "@ + numeric::decimal(size as nat)
            + " bytes, not divisible by block align "@ + numeric::decimal(align as nat),
{
}

} // verus!
