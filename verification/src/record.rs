//! Binary framing of one record: a 4-byte little-endian key, the text bytes and
//! one terminator byte.

use byteorder::{LittleEndian, ReadBytesExt, WriteBytesExt};
use vstd::prelude::*;
use vstd::slice::{slice_subrange, slice_to_vec};
use vstd::utf8::{decode_utf8, encode_utf8, encode_utf8_decode_utf8, encode_utf8_valid_utf8, valid_utf8};

verus! {

/// The byte that ends a record's text.
pub const TERMINATOR: u8 = 10;

/// Number of bytes a key takes in a frame.
pub const KEY_WIDTH: usize = 4;

/// A line of text together with the key that decides its place in the output.
#[derive(Debug, PartialEq, Eq, PartialOrd, Ord)]
pub struct Line(pub u32, pub String);

impl Clone for Line {
    fn clone(&self) -> (copy: Line)
        ensures
            copy == *self,
    {
        Line(self.0, self.1.clone())
    }
}

/// The mathematical value of a [`Line`].
pub ghost struct Record {
    pub key: u32,
    pub text: Seq<char>,
}

impl View for Line {
    type V = Record;

    open spec fn view(&self) -> Record {
        Record { key: self.0, text: self.1@ }
    }
}

/// The values of a run of lines.
pub open spec fn records(lines: Seq<Line>) -> Seq<Record> {
    lines.map_values(|line: Line| line@)
}

/// Why a frame could not be decoded.
#[derive(Debug, Clone, Copy, PartialEq, Eq, Structural)]
pub enum DecodeError {
    /// The bytes end inside the 4 key bytes.
    TruncatedKey,
    /// The bytes end before the terminator of the text.
    MissingTerminator,
    /// The text bytes are not valid UTF-8.
    InvalidText,
}

/// The four bytes of a key, least significant first.
pub open spec fn key_bytes(key: u32) -> Seq<u8> {
    seq![
        (key % 256) as u8,
        (key / 256 % 256) as u8,
        (key / 65536 % 256) as u8,
        (key / 16777216) as u8,
    ]
}

/// The key that four bytes stand for, least significant first.
pub open spec fn key_of(bytes: Seq<u8>) -> u32 {
    (bytes[0] + 256 * bytes[1] + 65536 * bytes[2] + 16777216 * bytes[3]) as u32
}

/// A key is read back from its four bytes.
pub proof fn lemma_key_of_key_bytes(key: u32)
    ensures
        key_bytes(key).len() == 4,
        key_of(key_bytes(key)) == key,
{
}

/// The frame of a record: key, text bytes, terminator.
pub open spec fn encoding(r: Record) -> Seq<u8> {
    key_bytes(r.key) + encode_utf8(r.text) + seq![TERMINATOR]
}

/// The text of `r` holds no terminator byte, so its frame can be read back.
pub open spec fn terminator_free(r: Record) -> bool {
    !encode_utf8(r.text).contains(TERMINATOR)
}

/// Index of the first terminator at or after `from`, or the length of `bytes`
/// if there is none.
pub open spec fn text_end(bytes: Seq<u8>, from: int) -> int
    decreases bytes.len() - from,
{
    if from >= bytes.len() {
        bytes.len() as int
    } else if bytes[from] == TERMINATOR {
        from
    } else {
        text_end(bytes, from + 1)
    }
}

/// What reading one record from the front of `bytes` gives: end of data, the
/// record with the number of bytes its frame takes, or a failure. A frame
/// is complete only with its terminator: bytes that end inside the key or
/// before the terminator are no record.
pub open spec fn decode_one(bytes: Seq<u8>) -> Result<Option<(Record, int)>, DecodeError> {
    if bytes.len() == 0 {
        Ok(None)
    } else if bytes.len() < KEY_WIDTH {
        Err(DecodeError::TruncatedKey)
    } else {
        let end = text_end(bytes, KEY_WIDTH as int);
        let text = bytes.subrange(KEY_WIDTH as int, end);
        if end >= bytes.len() {
            Err(DecodeError::MissingTerminator)
        } else if valid_utf8(text) {
            let key = key_of(bytes.subrange(0, KEY_WIDTH as int));
            Ok(Some((Record { key, text: decode_utf8(text) }, end + 1)))
        } else {
            Err(DecodeError::InvalidText)
        }
    }
}

/// `byteorder::WriteBytesExt::write_u32::<LittleEndian>` on a byte vector:
/// appends the four bytes of `key`, least significant first. Writing to a
/// vector does not fail.
#[verifier::external_body]
fn write_key(write: &mut Vec<u8>, key: u32)
    ensures
        final(write)@ == old(write)@ + key_bytes(key),
{
    write.write_u32::<LittleEndian>(key).unwrap();
}

/// `byteorder::ReadBytesExt::read_u32::<LittleEndian>` on a byte slice: the
/// value of the first four bytes, least significant first, or nothing when
/// fewer than four bytes are there.
#[verifier::external_body]
fn read_key(read: &[u8]) -> (key: Option<u32>)
    ensures
        read@.len() < 4 ==> key is None,
        read@.len() >= 4 ==> key == Some(key_of(read@.subrange(0, 4))),
{
    let mut cursor = read;
    cursor.read_u32::<LittleEndian>().ok()
}

/// `String::from_utf8`: the text that the bytes spell, or nothing when they
/// are not valid UTF-8.
#[verifier::external_body]
fn text_from_utf8(bytes: Vec<u8>) -> (text: Option<String>)
    ensures
        valid_utf8(bytes@) ==> text is Some && text->0@ == decode_utf8(bytes@),
        !valid_utf8(bytes@) ==> text is None,
{
    String::from_utf8(bytes).ok()
}

/// A terminator-free stretch followed by a terminator or the end is where
/// `text_end` stops.
pub proof fn lemma_text_end(bytes: Seq<u8>, from: int, end: int)
    requires
        0 <= from <= end <= bytes.len(),
        forall|j: int| from <= j < end ==> bytes[j] != TERMINATOR,
        end == bytes.len() || bytes[end] == TERMINATOR,
    ensures
        text_end(bytes, from) == end,
    decreases end - from,
{
    if from < end {
        lemma_text_end(bytes, from + 1, end);
    }
}

/// The end of the text lies between its start and the end of the bytes.
pub proof fn lemma_text_end_bounds(bytes: Seq<u8>, from: int)
    requires
        0 <= from <= bytes.len(),
    ensures
        from <= text_end(bytes, from) <= bytes.len(),
    decreases bytes.len() - from,
{
    if from < bytes.len() && bytes[from] != TERMINATOR {
        lemma_text_end_bounds(bytes, from + 1);
    }
}

/// A record takes at least its key bytes and no more bytes than there are.
pub proof fn lemma_decode_one_used(bytes: Seq<u8>)
    ensures
        decode_one(bytes) matches Ok(Some((_, used))) ==> KEY_WIDTH <= used <= bytes.len(),
{
    if bytes.len() >= KEY_WIDTH {
        lemma_text_end_bounds(bytes, KEY_WIDTH as int);
    }
}

impl Line {
    /// Appends the frame of `item` to `write`.
    pub fn encode(item: &Line, write: &mut Vec<u8>)
        ensures
            final(write)@ == old(write)@ + encoding(item@),
    {
        write_key(write, item.0);
        write.extend_from_slice(item.1.as_str().as_bytes());
        write.push(TERMINATOR);
    }

    /// Reads one record from the front of `read`.
    ///
    /// Gives `Ok(None)` at the end of the data, the record and the number of
    /// bytes its frame takes otherwise. The text runs up to the first
    /// terminator after the key. Bytes that end inside the key or before the
    /// terminator are refused.
    pub fn decode(read: &[u8]) -> (r: Result<Option<(Line, usize)>, DecodeError>)
        ensures
            match decode_one(read@) {
                Ok(Some((record, used))) => r matches Ok(Some((line, n))) && line@ == record && n
                    == used,
                Ok(None) => r matches Ok(None),
                Err(e) => r == Err::<Option<(Line, usize)>, DecodeError>(e),
            },
    {
        if read.len() == 0 {
            return Ok(None);
        }
        let key = match read_key(read) {
            Some(key) => key,
            None => {
                return Err(DecodeError::TruncatedKey);
            },
        };
        let mut end: usize = KEY_WIDTH;
        while end < read.len() && read[end] != TERMINATOR
            invariant
                KEY_WIDTH <= end <= read.len(),
                forall|j: int| KEY_WIDTH <= j < end ==> read@[j] != TERMINATOR,
            decreases read.len() - end,
        {
            end += 1;
        }
        proof {
            lemma_text_end(read@, KEY_WIDTH as int, end as int);
        }
        if end >= read.len() {
            return Err(DecodeError::MissingTerminator);
        }
        let text = slice_to_vec(slice_subrange(read, KEY_WIDTH, end));
        match text_from_utf8(text) {
            Some(text) => Ok(Some((Line(key, text), end + 1))),
            None => Err(DecodeError::InvalidText),
        }
    }
}

/// Reading back a frame gives the record that was written, whatever follows
/// the frame, provided the text holds no terminator byte.
pub proof fn lemma_decode_encode(r: Record, rest: Seq<u8>)
    requires
        terminator_free(r),
    ensures
        decode_one(encoding(r) + rest) == Ok::<Option<(Record, int)>, DecodeError>(
            Some((r, encoding(r).len() as int)),
        ),
{
    let key_part = key_bytes(r.key);
    let text = encode_utf8(r.text);
    let bytes = encoding(r) + rest;
    lemma_key_of_key_bytes(r.key);
    encode_utf8_valid_utf8(r.text);
    encode_utf8_decode_utf8(r.text);
    assert(key_part.len() == 4);
    let end = 4 + text.len() as int;
    assert forall|j: int| 4 <= j < end implies bytes[j] != TERMINATOR by {
        assert(bytes[j] == text[j - 4]);
        assert(text.contains(text[j - 4]));
    }
    assert(bytes[end] == TERMINATOR);
    lemma_text_end(bytes, 4, end);
    assert(bytes.subrange(0, 4) =~= key_part);
    assert(bytes.subrange(4, end) =~= text);
}

} // verus!
