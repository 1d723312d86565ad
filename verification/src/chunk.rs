//! A chunk store: the frames of a run of records, back to back.

use crate::record::{
    decode_one, encoding, lemma_decode_encode, lemma_decode_one_used, lemma_text_end, records,
    terminator_free, DecodeError, Line, Record, KEY_WIDTH, TERMINATOR,
};
use vstd::prelude::*;

verus! {

/// The bytes of a chunk store that holds `run`.
pub open spec fn encode_all(run: Seq<Record>) -> Seq<u8>
    decreases run.len(),
{
    if run.len() == 0 {
        Seq::empty()
    } else {
        encode_all(run.drop_last()) + encoding(run.last())
    }
}

/// `done`, followed by what `rest` gives, unless `rest` failed.
pub open spec fn preceded_by(done: Seq<Record>, rest: Result<Seq<Record>, DecodeError>) -> Result<
    Seq<Record>,
    DecodeError,
> {
    match rest {
        Ok(records) => Ok(done + records),
        Err(e) => Err(e),
    }
}

/// The records that reading `bytes` to the end gives, or the first failure.
pub open spec fn decode_all(bytes: Seq<u8>) -> Result<Seq<Record>, DecodeError>
    decreases bytes.len(),
    via decode_all_decreases
{
    match decode_one(bytes) {
        Ok(None) => Ok(Seq::empty()),
        Ok(Some((record, used))) => preceded_by(seq![record], decode_all(bytes.skip(used))),
        Err(e) => Err(e),
    }
}

#[via_fn]
proof fn decode_all_decreases(bytes: Seq<u8>) {
    lemma_decode_one_used(bytes);
}

/// Every record of `run` can be read back from its frame.
pub open spec fn all_terminator_free(run: Seq<Record>) -> bool {
    forall|i: int| 0 <= i < run.len() ==> terminator_free(#[trigger] run[i])
}

/// The store of two runs joined is the stores of the runs joined.
pub proof fn lemma_encode_all_concat(a: Seq<Record>, b: Seq<Record>)
    ensures
        encode_all(a + b) == encode_all(a) + encode_all(b),
    decreases b.len(),
{
    if b.len() == 0 {
        assert(a + b =~= a);
        assert(encode_all(a) + encode_all(b) =~= encode_all(a));
    } else {
        lemma_encode_all_concat(a, b.drop_last());
        assert((a + b).drop_last() =~= a + b.drop_last());
        assert((a + b).last() == b.last());
        assert(encode_all(a + b) =~= encode_all(a) + encode_all(b));
    }
}

/// A chunk store gives back the run that was written to it, provided no text
/// in the run holds a terminator byte.
pub proof fn lemma_decode_all_encode_all(run: Seq<Record>)
    requires
        all_terminator_free(run),
    ensures
        decode_all(encode_all(run)) == Ok::<Seq<Record>, DecodeError>(run),
    decreases run.len(),
{
    if run.len() == 0 {
        assert(encode_all(run) =~= Seq::<u8>::empty());
        assert(run =~= Seq::<Record>::empty());
    } else {
        let first = run[0];
        let rest = run.drop_first();
        let one = seq![first];
        assert(run =~= one + rest);
        lemma_encode_all_concat(one, rest);
        assert(one.drop_last() =~= Seq::<Record>::empty());
        assert(encode_all(one.drop_last()) =~= Seq::<u8>::empty());
        assert(encode_all(one) =~= encoding(first));
        let bytes = encode_all(run);
        assert(bytes == encoding(first) + encode_all(rest));
        assert(terminator_free(first));
        lemma_decode_encode(first, encode_all(rest));
        assert(bytes.skip(encoding(first).len() as int) =~= encode_all(rest));
        assert(all_terminator_free(rest)) by {
            assert forall|i: int| 0 <= i < rest.len() implies terminator_free(
                #[trigger] rest[i],
            ) by {
                assert(rest[i] == run[i + 1]);
            }
        }
        lemma_decode_all_encode_all(rest);
    }
}

/// Writes a run to a fresh chunk store.
pub fn encode_chunk(run: &Vec<Line>) -> (store: Vec<u8>)
    ensures
        store@ == encode_all(records(run@)),
{
    let mut store: Vec<u8> = Vec::new();
    let mut i: usize = 0;
    while i < run.len()
        invariant
            i <= run.len(),
            store@ == encode_all(records(run@).take(i as int)),
        decreases run.len() - i,
    {
        Line::encode(&run[i], &mut store);
        proof {
            let all = records(run@);
            assert(all.take(i + 1).drop_last() =~= all.take(i as int));
            assert(all.take(i + 1).last() == run[i as int]@);
        }
        i += 1;
    }
    proof {
        assert(records(run@).take(i as int) =~= records(run@));
    }
    store
}

/// A frame is complete when a terminator arrives behind the key bytes.
pub open spec fn frame_complete(frame: Seq<u8>) -> bool {
    frame.len() > KEY_WIDTH && frame.last() == TERMINATOR
}

/// No terminator stands behind the key bytes, but for the last byte of
/// `frame`, which may be one.
pub open spec fn text_open(frame: Seq<u8>) -> bool {
    forall|j: int| KEY_WIDTH <= j < frame.len() - 1 ==> frame[j] != TERMINATOR
}

/// What a reader hands out agrees with what reading one record gives.
pub open spec fn agrees(
    handed: Result<Option<Line>, DecodeError>,
    read: Result<Option<(Record, int)>, DecodeError>,
) -> bool {
    match read {
        Ok(Some((record, _))) => handed matches Ok(Some(line)) && line@ == record,
        Ok(None) => handed matches Ok(None),
        Err(e) => handed matches Err(failure) && failure == e,
    }
}

/// A complete frame is read as one record that takes all of it, whatever
/// follows the frame.
pub proof fn lemma_complete_frame(frame: Seq<u8>, rest: Seq<u8>)
    requires
        frame_complete(frame),
        text_open(frame),
    ensures
        decode_one(frame + rest) == decode_one(frame),
        decode_one(frame) matches Ok(Some((_, used))) ==> used == frame.len(),
{
    let end = frame.len() - 1;
    let all = frame + rest;
    lemma_text_end(frame, KEY_WIDTH as int, end);
    assert forall|j: int| KEY_WIDTH <= j < end implies all[j] != TERMINATOR by {
        assert(all[j] == frame[j]);
    }
    assert(all[end] == frame[end]);
    lemma_text_end(all, KEY_WIDTH as int, end);
    assert(all.subrange(0, KEY_WIDTH as int) =~= frame.subrange(0, KEY_WIDTH as int));
    assert(all.subrange(KEY_WIDTH as int, end) =~= frame.subrange(KEY_WIDTH as int, end));
}

/// Bytes that end without a terminator behind the key are no record: too
/// few for a key, or a text that is not ended.
pub proof fn lemma_open_frame(frame: Seq<u8>)
    requires
        text_open(frame),
        !frame_complete(frame),
        frame.len() > 0,
    ensures
        decode_one(frame) == Err::<Option<(Record, int)>, DecodeError>(
            if frame.len() < KEY_WIDTH {
                DecodeError::TruncatedKey
            } else {
                DecodeError::MissingTerminator
            },
        ),
{
    if frame.len() >= KEY_WIDTH {
        lemma_text_end(frame, KEY_WIDTH as int, frame.len() as int);
    }
}

/// A cursor on a chunk store: it takes the bytes of the store one by one and
/// hands out each record as its frame is complete.
pub struct ChunkReader {
    pending: Vec<u8>,
}

impl ChunkReader {
    #[verifier::type_invariant]
    spec fn unterminated(self) -> bool {
        forall|j: int| KEY_WIDTH <= j < self.pending@.len() ==> self.pending@[j] != TERMINATOR
    }

    /// The bytes taken since the last record was handed out.
    pub closed spec fn pending(&self) -> Seq<u8> {
        self.pending@
    }

    /// A cursor at the start of a chunk store.
    pub fn new() -> (reader: ChunkReader)
        ensures
            reader.pending() == Seq::<u8>::empty(),
    {
        ChunkReader { pending: Vec::new() }
    }

    /// Takes the next byte of the store. If it completes a frame, the frame
    /// is decoded and the cursor starts on the next one.
    pub fn feed(&mut self, byte: u8) -> (r: Result<Option<Line>, DecodeError>)
        ensures
            text_open(old(self).pending().push(byte)),
            frame_complete(old(self).pending().push(byte)) ==> {
                &&& final(self).pending() == Seq::<u8>::empty()
                &&& agrees(r, decode_one(old(self).pending().push(byte)))
            },
            !frame_complete(old(self).pending().push(byte)) ==> {
                &&& final(self).pending() == old(self).pending().push(byte)
                &&& r matches Ok(None)
            },
    {
        proof {
            use_type_invariant(&*self);
        }
        let mut frame: Vec<u8> = Vec::new();
        std::mem::swap(&mut self.pending, &mut frame);
        frame.push(byte);
        if frame.len() > KEY_WIDTH && byte == TERMINATOR {
            match Line::decode(frame.as_slice()) {
                Ok(Some((line, _))) => Ok(Some(line)),
                Ok(None) => Ok(None),
                Err(e) => Err(e),
            }
        } else {
            self.pending = frame;
            Ok(None)
        }
    }

    /// Ends the reading. Bytes that are pending belong to a frame that was
    /// cut off: they are refused, as a key cut short if fewer than four.
    pub fn finish(self) -> (r: Result<(), DecodeError>)
        ensures
            match r {
                Ok(()) => self.pending().len() == 0,
                Err(e) => self.pending().len() > 0 && decode_one(self.pending()) == Err::<
                    Option<(Record, int)>,
                    DecodeError,
                >(e),
            },
            r is Err ==> r == Err::<(), DecodeError>(
                if self.pending().len() < KEY_WIDTH {
                    DecodeError::TruncatedKey
                } else {
                    DecodeError::MissingTerminator
                },
            ),
    {
        proof {
            use_type_invariant(&self);
            if self.pending@.len() > 0 {
                lemma_open_frame(self.pending@);
            }
        }
        if self.pending.len() == 0 {
            Ok(())
        } else if self.pending.len() < KEY_WIDTH {
            Err(DecodeError::TruncatedKey)
        } else {
            Err(DecodeError::MissingTerminator)
        }
    }
}

/// Reads a chunk store to the end.
pub fn decode_chunk(store: &[u8]) -> (r: Result<Vec<Line>, DecodeError>)
    ensures
        match decode_all(store@) {
            Ok(run) => r matches Ok(lines) && records(lines@) == run,
            Err(e) => r matches Err(failure) && failure == e,
        },
{
    let mut reader = ChunkReader::new();
    let mut lines: Vec<Line> = Vec::new();
    let mut at: usize = 0;
    let ghost mut start: int = 0;
    proof {
        assert(store@.skip(0) =~= store@);
        assert(records(lines@) =~= Seq::<Record>::empty());
        assert(store@.subrange(0, 0) =~= Seq::<u8>::empty());
        match decode_all(store@) {
            Ok(run) => assert(Seq::<Record>::empty() + run =~= run),
            Err(_) => {},
        }
    }
    while at < store.len()
        invariant
            0 <= start <= at <= store.len(),
            reader.pending() == store@.subrange(start, at as int),
            preceded_by(records(lines@), decode_all(store@.skip(start))) == decode_all(store@),
        decreases store.len() - at,
    {
        let ghost frame = reader.pending().push(store@[at as int]);
        let ghost rest = store@.skip(at + 1);
        let ghost done = records(lines@);
        proof {
            assert(frame =~= store@.subrange(start, at + 1));
            assert(frame + rest =~= store@.skip(start));
        }
        match reader.feed(store[at]) {
            Ok(None) => {},
            Ok(Some(line)) => {
                lines.push(line);
                proof {
                    lemma_complete_frame(frame, rest);
                    assert(store@.skip(start).skip(frame.len() as int) =~= rest);
                    assert(records(lines@) =~= done + seq![line@]);
                    match decode_all(rest) {
                        Ok(more) => assert((done + seq![line@]) + more =~= done + (seq![line@]
                            + more)),
                        Err(_) => {},
                    }
                    start = at + 1;
                    assert(store@.subrange(start, at + 1) =~= Seq::<u8>::empty());
                }
            },
            Err(e) => {
                proof {
                    lemma_complete_frame(frame, rest);
                }
                return Err(e);
            },
        }
        at += 1;
    }
    let ghost tail = reader.pending();
    let ghost done = records(lines@);
    proof {
        assert(tail =~= store@.skip(start));
        lemma_decode_one_used(tail);
    }
    match reader.finish() {
        Ok(()) => {
            proof {
                assert(tail =~= Seq::<u8>::empty());
                assert(done + Seq::<Record>::empty() =~= done);
            }
            Ok(lines)
        },
        Err(e) => Err(e),
    }
}

} // verus!
