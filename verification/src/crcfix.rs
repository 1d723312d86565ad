//! Repair of a PNG header whose width or height was altered: the checksum
//! stored with the header tells which value fits.

use png::{Decoded, DecodingError, StreamingDecoder};
use vstd::prelude::*;
use vstd::slice::slice_subrange;

verus! {

/// The checked part of a PNG header chunk and the checksum stored with it.
#[derive(Debug)]
pub struct CrcData {
    pub type_str: [u8; 4],
    pub width: u32,
    pub height: u32,
    pub bits: u8,
    pub color_type: u8,
    pub compr_method: u8,
    pub filter_method: u8,
    pub interlace_method: u8,
    pub crc_val: u32,
}

/// Widths and heights from 1 up to, but not including, this value are tried.
pub const SEARCH_LIMIT: u32 = 8192;

/// Number of bytes handed to the PNG decoder at a time.
pub const WINDOW: usize = 1000;

/// The four bytes of `x`, most significant first.
pub open spec fn be_bytes(x: u32) -> Seq<u8> {
    seq![(x >> 24) as u8, ((x >> 16) & 0xff) as u8, ((x >> 8) & 0xff) as u8, (x & 0xff) as u8]
}

/// The bytes that the checksum of a header covers: chunk type, width, height
/// and the five one-byte fields.
pub open spec fn header_bytes(d: CrcData) -> Seq<u8> {
    d.type_str@ + be_bytes(d.width) + be_bytes(d.height) + seq![
        d.bits,
        d.color_type,
        d.compr_method,
        d.filter_method,
        d.interlace_method,
    ]
}

/// The CRC-32 checksum (IEEE polynomial) of `bytes`, as the `crc` crate
/// computes it.
pub uninterp spec fn crc32_ieee(bytes: Seq<u8>) -> u32;

/// `crc::crc32::checksum_ieee`: the checksum is a function of the bytes alone.
#[verifier::external_body]
fn checksum_ieee(bytes: &[u8]) -> (sum: u32)
    ensures
        sum == crc32_ieee(bytes@),
{
    crc::crc32::checksum_ieee(bytes)
}

/// The stored checksum is the checksum of the header as it stands.
pub open spec fn fits(d: CrcData) -> bool {
    crc32_ieee(header_bytes(d)) == d.crc_val
}

/// `d` with its width set to `width`.
pub open spec fn with_width(d: CrcData, width: u32) -> CrcData {
    CrcData { width, ..d }
}

/// `d` with its height set to `height`.
pub open spec fn with_height(d: CrcData, height: u32) -> CrcData {
    CrcData { height, ..d }
}

/// The least width from `from` up to the search limit with which the header
/// fits its checksum.
pub open spec fn first_width(d: CrcData, from: u32) -> Option<u32>
    decreases SEARCH_LIMIT - from,
{
    if from >= SEARCH_LIMIT {
        None
    } else if fits(with_width(d, from)) {
        Some(from)
    } else {
        first_width(d, (from + 1) as u32)
    }
}

/// The least height from `from` up to the search limit with which the header
/// fits its checksum.
pub open spec fn first_height(d: CrcData, from: u32) -> Option<u32>
    decreases SEARCH_LIMIT - from,
{
    if from >= SEARCH_LIMIT {
        None
    } else if fits(with_height(d, from)) {
        Some(from)
    } else {
        first_height(d, (from + 1) as u32)
    }
}

/// The header after the search. A fitting width is looked for first, with the
/// height as it was; then a fitting height, with the width as it was. If
/// neither is found the width is as before and the height is the last one
/// tried.
pub open spec fn cracked(d: CrcData) -> CrcData {
    match first_width(d, 1) {
        Some(width) => with_width(d, width),
        None => match first_height(d, 1) {
            Some(height) => with_height(d, height),
            None => with_height(d, (SEARCH_LIMIT - 1) as u32),
        },
    }
}

/// `first_width` gives a fitting width, and no width below it fits.
pub proof fn lemma_first_width(d: CrcData, from: u32)
    requires
        from <= SEARCH_LIMIT,
    ensures
        match first_width(d, from) {
            Some(width) => from <= width < SEARCH_LIMIT && fits(with_width(d, width))
                && forall|w: u32| from <= w < width ==> !fits(#[trigger] with_width(d, w)),
            None => forall|w: u32| from <= w < SEARCH_LIMIT ==> !fits(#[trigger] with_width(d, w)),
        },
    decreases SEARCH_LIMIT - from,
{
    if from < SEARCH_LIMIT && !fits(with_width(d, from)) {
        lemma_first_width(d, (from + 1) as u32);
    }
}

/// `first_height` gives a fitting height, and no height below it fits.
pub proof fn lemma_first_height(d: CrcData, from: u32)
    requires
        from <= SEARCH_LIMIT,
    ensures
        match first_height(d, from) {
            Some(height) => from <= height < SEARCH_LIMIT && fits(with_height(d, height))
                && forall|h: u32| from <= h < height ==> !fits(#[trigger] with_height(d, h)),
            None => forall|h: u32|
                from <= h < SEARCH_LIMIT ==> !fits(#[trigger] with_height(d, h)),
        },
    decreases SEARCH_LIMIT - from,
{
    if from < SEARCH_LIMIT && !fits(with_height(d, from)) {
        lemma_first_height(d, (from + 1) as u32);
    }
}

/// Appends the four bytes of `x`, most significant first.
fn push_be(bytes: &mut Vec<u8>, x: u32)
    ensures
        final(bytes)@ == old(bytes)@ + be_bytes(x),
{
    assert(x >> 24 < 256 && (x >> 16) & 0xff < 256 && (x >> 8) & 0xff < 256 && x & 0xff < 256)
        by (bit_vector);
    bytes.push((x >> 24) as u8);
    bytes.push(((x >> 16) & 0xff) as u8);
    bytes.push(((x >> 8) & 0xff) as u8);
    bytes.push((x & 0xff) as u8);
    assert(bytes@ =~= old(bytes)@ + be_bytes(x));
}

impl CrcData {
    /// The bytes that the checksum covers.
    pub fn as_bytes(&self) -> (bytes: Vec<u8>)
        ensures
            bytes@ == header_bytes(*self),
            bytes@.len() == 17,
    {
        let mut bytes: Vec<u8> = Vec::new();
        bytes.push(self.type_str[0]);
        bytes.push(self.type_str[1]);
        bytes.push(self.type_str[2]);
        bytes.push(self.type_str[3]);
        assert(bytes@ =~= self.type_str@);
        push_be(&mut bytes, self.width);
        push_be(&mut bytes, self.height);
        bytes.push(self.bits);
        bytes.push(self.color_type);
        bytes.push(self.compr_method);
        bytes.push(self.filter_method);
        bytes.push(self.interlace_method);
        assert(bytes@ =~= header_bytes(*self));
        bytes
    }

    /// Whether `sum`, a checksum computed for the header, is the stored one.
    pub fn crc_matches(&self, sum: u32) -> (same: bool)
        ensures
            same == (self.crc_val == sum),
    {
        self.crc_val == sum
    }
}

/// Writes `data` over the bytes of `src` that start at `offset`.
pub fn replace_nbytes(src: &mut Vec<u8>, offset: usize, data: &[u8])
    requires
        data@.len() > 0 ==> offset + data@.len() <= old(src)@.len(),
    ensures
        final(src)@.len() == old(src)@.len(),
        forall|i: int|
            0 <= i < old(src)@.len() ==> final(src)@[i] == if offset <= i < offset + data@.len() {
                data@[i - offset]
            } else {
                old(src)@[i]
            },
{
    let mut i: usize = 0;
    while i < data.len()
        invariant
            i <= data@.len(),
            data@.len() > 0 ==> offset + data@.len() <= src@.len(),
            src@.len() == old(src)@.len(),
            forall|k: int|
                0 <= k < src@.len() ==> src@[k] == if offset <= k < offset + i {
                    data@[k - offset]
                } else {
                    old(src)@[k]
                },
        decreases data.len() - i,
    {
        assert(offset + i < src.len());
        src.set(offset + i, data[i]);
        i += 1;
    }
}

/// Searches for the width, then for the height, with which the header fits
/// its stored checksum, and leaves the header as [`cracked`] says.
pub fn crack_crc(crcdata: &mut CrcData) -> (r: Result<(), ()>)
    ensures
        *final(crcdata) == cracked(*old(crcdata)),
        r is Ok <==> first_width(*old(crcdata), 1) is Some || first_height(*old(crcdata), 1)
            is Some,
{
    let width = crcdata.width;
    let ghost start = *crcdata;
    let mut i: u32 = 1;
    while i < SEARCH_LIMIT
        invariant
            1 <= i <= SEARCH_LIMIT,
            start == *old(crcdata),
            width == start.width,
            with_width(*crcdata, width) == start,
            first_width(start, 1) == first_width(start, i),
        decreases SEARCH_LIMIT - i,
    {
        crcdata.width = i;
        assert(*crcdata == with_width(start, i));
        let sum = checksum_ieee(crcdata.as_bytes().as_slice());
        if crcdata.crc_matches(sum) {
            return Ok(());
        }
        i += 1;
    }
    crcdata.width = width;
    assert(*crcdata == start);
    let mut i: u32 = 1;
    while i < SEARCH_LIMIT
        invariant
            1 <= i <= SEARCH_LIMIT,
            start == *old(crcdata),
            with_height(*crcdata, start.height) == start,
            i > 1 ==> *crcdata == with_height(start, (i - 1) as u32),
            first_width(start, 1) is None,
            first_height(start, 1) == first_height(start, i),
        decreases SEARCH_LIMIT - i,
    {
        crcdata.height = i;
        assert(*crcdata == with_height(start, i));
        let sum = checksum_ieee(crcdata.as_bytes().as_slice());
        if crcdata.crc_matches(sum) {
            return Ok(());
        }
        i += 1;
    }
    Err(())
}

/// `png::StreamingDecoder`: the state of the PNG decoder, carried from call
/// to call. Nothing is known of what it holds.
#[verifier::external_type_specification]
#[verifier::external_body]
pub struct ExStreamingDecoder(StreamingDecoder);

/// `png::StreamingDecoder::new`: a fresh decoder. Nothing is claimed of it.
pub assume_specification[ StreamingDecoder::new ]() -> (decoder: StreamingDecoder)
;

/// What one call of the PNG decoder gave.
#[derive(Debug)]
pub enum Step {
    /// A chunk begins; `used` bytes were consumed.
    ChunkBegin { used: usize, type_str: [u8; 4] },
    /// The header chunk was read; `used` bytes were consumed.
    Header { used: usize, width: u32, height: u32, bit_depth: u8, color_type: u8, interlaced: bool },
    /// Anything else was decoded; `used` bytes were consumed.
    Other { used: usize },
    /// The checksum stored with a chunk is not the checksum of its bytes.
    CrcMismatch { crc_val: u32 },
    /// The decoder gave up, with this message.
    Failed { message: String },
}

/// Why a header could not be collected.
#[derive(Debug)]
pub enum ScanError {
    /// Fewer than [`WINDOW`] bytes are left where the next call would start.
    ShortInput,
    /// The decoder gave up, with this message.
    Decoder(String),
}

/// The number of bytes the decoder reported as consumed.
pub open spec fn consumed(step: Step) -> nat {
    match step {
        Step::ChunkBegin { used, .. } => used as nat,
        Step::Header { used, .. } => used as nat,
        Step::Other { used } => used as nat,
        Step::CrcMismatch { .. } => 0,
        Step::Failed { .. } => 0,
    }
}

/// How far to move on in the input after a step: past what was consumed, or
/// one byte past a checksum mismatch.
pub open spec fn advance_of(step: Step) -> nat {
    match step {
        Step::CrcMismatch { .. } => 1,
        _ => consumed(step),
    }
}

/// The header after a step has been taken note of.
pub open spec fn recorded(d: CrcData, step: Step) -> CrcData {
    match step {
        Step::ChunkBegin { type_str, .. } => CrcData { type_str, ..d },
        Step::Header { width, height, bit_depth, color_type, interlaced, .. } => CrcData {
            width,
            height,
            bits: bit_depth,
            color_type,
            interlace_method: if interlaced {
                1
            } else {
                0
            },
            ..d
        },
        Step::CrcMismatch { crc_val } => CrcData { crc_val, ..d },
        _ => d,
    }
}

/// `png::StreamingDecoder::update` on `buf`, its result sorted into the
/// variants of [`Step`]. The decoder never reports more bytes as consumed
/// than it was given; what it decodes depends on all it has been fed before.
#[verifier::external_body]
fn decoder_update(decoder: &mut StreamingDecoder, buf: &[u8]) -> (step: Step)
    ensures
        consumed(step) <= buf@.len(),
{
    let mut image = Vec::new();
    match decoder.update(buf, &mut image) {
        Ok((used, Decoded::ChunkBegin(_, type_str))) => Step::ChunkBegin { used, type_str },
        Ok((used, Decoded::Header(width, height, depth, color, interlaced))) => Step::Header {
            used, width, height, bit_depth: depth as u8, color_type: color as u8, interlaced,
        },
        Ok((used, _)) => Step::Other { used },
        Err(DecodingError::CrcMismatch { crc_val, .. }) => Step::CrcMismatch { crc_val },
        Err(e) => Step::Failed { message: e.to_string() },
    }
}

impl Step {
    /// How far to move on in the input after this step.
    pub fn advance(&self) -> (n: usize)
        ensures
            n == advance_of(*self),
    {
        match self {
            Step::ChunkBegin { used, .. } => *used,
            Step::Header { used, .. } => *used,
            Step::Other { used } => *used,
            Step::CrcMismatch { .. } => 1,
            Step::Failed { .. } => 0,
        }
    }
}

impl CrcData {
    /// Takes note of what a step of the decoder gave: the chunk type, the
    /// header fields, or the stored checksum that did not match.
    pub fn record(&mut self, step: &Step)
        ensures
            *final(self) == recorded(*old(self), *step),
    {
        match step {
            Step::ChunkBegin { type_str, .. } => {
                self.type_str = *type_str;
            },
            Step::Header { width, height, bit_depth, color_type, interlaced, .. } => {
                self.width = *width;
                self.height = *height;
                self.bits = *bit_depth;
                self.color_type = *color_type;
                self.interlace_method = if *interlaced {
                    1
                } else {
                    0
                };
            },
            Step::CrcMismatch { crc_val } => {
                self.crc_val = *crc_val;
            },
            _ => {},
        }
    }
}

/// The window that a call of the decoder is handed: the [`WINDOW`] bytes of
/// `data` that start at `idx`. `None` if fewer bytes are left there.
pub fn window_at(data: &[u8], idx: usize) -> (w: Option<&[u8]>)
    ensures
        match w {
            Some(buf) => idx + WINDOW <= data@.len() && buf@ == data@.subrange(
                idx as int,
                idx + WINDOW,
            ),
            None => idx + WINDOW > data@.len(),
        },
{
    if data.len() < WINDOW || idx > data.len() - WINDOW {
        None
    } else {
        Some(slice_subrange(data, idx, idx + WINDOW))
    }
}

/// What follows a call of the decoder that started at `idx`. A failed step
/// ends the collecting with the decoder's message and leaves the header as it
/// was. Any other step is taken note of in `crcdata`, and the result is where
/// the next call starts.
pub fn take_step(crcdata: &mut CrcData, idx: usize, step: Step) -> (r: Result<usize, ScanError>)
    requires
        idx + advance_of(step) <= usize::MAX,
    ensures
        match step {
            Step::Failed { message } => *final(crcdata) == *old(crcdata) && r == Err::<
                usize,
                ScanError,
            >(ScanError::Decoder(message)),
            _ => *final(crcdata) == recorded(*old(crcdata), step) && r == Ok::<usize, ScanError>(
                (idx + advance_of(step)) as usize,
            ),
        },
{
    let ahead = step.advance();
    crcdata.record(&step);
    match step {
        Step::Failed { message } => Err(ScanError::Decoder(message)),
        _ => Ok(idx + ahead),
    }
}

/// Feeds the start of a PNG file to the decoder, three calls of one window
/// each, and takes note in `crcdata` of what each call gives. The first
/// window starts at 0, each later one where [`take_step`] says.
///
/// Fails with `ShortInput` when [`window_at`] has no window for a call, and
/// with the decoder's message when a step failed. What each call gives is
/// the decoder's: the header is as [`recorded`] leaves it after the steps
/// that were taken, so the compression and filter methods stay as they were.
pub fn get_crcdata(data: &[u8], crcdata: &mut CrcData) -> (r: Result<(), ScanError>)
    ensures
        final(crcdata).compr_method == old(crcdata).compr_method,
        final(crcdata).filter_method == old(crcdata).filter_method,
        data@.len() < WINDOW ==> {
            &&& r matches Err(ScanError::ShortInput)
            &&& *final(crcdata) == *old(crcdata)
        },
        data@.len() >= 3 * WINDOW ==> !(r matches Err(ScanError::ShortInput)),
        r is Ok ==> data@.len() >= WINDOW,
{
    let mut decoder = StreamingDecoder::new();
    let mut idx: usize = 0;
    let mut round: usize = 0;
    while round < 3
        invariant
            round <= 3,
            idx <= round * WINDOW,
            crcdata.compr_method == old(crcdata).compr_method,
            crcdata.filter_method == old(crcdata).filter_method,
            round == 0 ==> *crcdata == *old(crcdata),
            round > 0 ==> data@.len() >= WINDOW,
        decreases 3 - round,
    {
        let window = match window_at(data, idx) {
            Some(window) => window,
            None => {
                return Err(ScanError::ShortInput);
            },
        };
        let step = decoder_update(&mut decoder, window);
        idx = match take_step(crcdata, idx, step) {
            Ok(next) => next,
            Err(e) => {
                return Err(e);
            },
        };
        round += 1;
    }
    Ok(())
}

} // verus!
