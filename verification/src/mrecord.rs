//! The record codec: framed records stored in the write-ahead log.
//!
//! A frame is a 1-byte reserved/version prefix (always `0x00`), a 1-byte
//! kind tag, then the payload. `Doc` frames carry the document bytes;
//! `Commit` and `Eof` frames are exactly two bytes long.

use vstd::prelude::*;

verus! {

/// A decoded record, as it appears on a shard's log.
pub enum MRecord {
    /// An opaque document payload.
    Doc(Vec<u8>),
    /// A forced-commit boundary for downstream consumers.
    Commit,
    /// Seals a shard: no record follows it.
    Eof,
}

/// The mathematical value of a record: the same three kinds, over byte
/// sequences.
pub enum Rec {
    Doc(Seq<u8>),
    Commit,
    Eof,
}

impl View for MRecord {
    type V = Rec;

    open spec fn view(&self) -> Rec {
        match self {
            MRecord::Doc(payload) => Rec::Doc(payload@),
            MRecord::Commit => Rec::Commit,
            MRecord::Eof => Rec::Eof,
        }
    }
}

/// The frame of a document payload: `0x00 0x00` then the payload bytes.
pub open spec fn doc_frame(payload: Seq<u8>) -> Seq<u8> {
    seq![0u8, 0u8] + payload
}

/// The frame of a commit record: exactly `0x00 0x01`.
pub open spec fn commit_frame() -> Seq<u8> {
    seq![0u8, 1u8]
}

/// The frame of an end-of-stream record: exactly `0x00 0x02`.
pub open spec fn eof_frame() -> Seq<u8> {
    seq![0u8, 2u8]
}

/// The wire bytes of a record.
pub open spec fn frame(r: Rec) -> Seq<u8> {
    match r {
        Rec::Doc(payload) => doc_frame(payload),
        Rec::Commit => commit_frame(),
        Rec::Eof => eof_frame(),
    }
}

/// The record encoded by `bytes`, or `None` where `bytes` is not a valid
/// frame: too short, an unknown reserved byte or kind tag, or a payload
/// after a `Commit` or `Eof` tag.
pub open spec fn parse(bytes: Seq<u8>) -> Option<Rec> {
    if bytes.len() < 2 || bytes[0] != 0u8 {
        None
    } else if bytes[1] == 0u8 {
        Some(Rec::Doc(bytes.skip(2)))
    } else if bytes[1] == 1u8 && bytes.len() == 2 {
        Some(Rec::Commit)
    } else if bytes[1] == 2u8 && bytes.len() == 2 {
        Some(Rec::Eof)
    } else {
        None
    }
}

/// Decoding inverts encoding: every record's frame parses back to the
/// record itself.
pub proof fn lemma_parse_frame(r: Rec)
    ensures
        parse(frame(r)) == Some(r),
{
    match r {
        Rec::Doc(payload) => {
            assert(frame(r).skip(2) =~= payload);
        },
        Rec::Commit => {},
        Rec::Eof => {},
    }
}

/// A frame never parses to a different record than the one it encodes:
/// encoding is injective on records.
pub proof fn lemma_frame_injective(r1: Rec, r2: Rec)
    ensures
        frame(r1) == frame(r2) ==> r1 == r2,
{
    if frame(r1) == frame(r2) {
        lemma_parse_frame(r1);
        lemma_parse_frame(r2);
    }
}

/// Encodes a document payload into its wire frame.
pub fn encode_doc(payload: &Vec<u8>) -> (r: Vec<u8>)
    ensures
        r@ == doc_frame(payload@),
{
    let mut buffer: Vec<u8> = Vec::new();
    buffer.push(0u8);
    buffer.push(0u8);
    let mut i: usize = 0;
    while i < payload.len()
        invariant
            i <= payload.len(),
            buffer@ == seq![0u8, 0u8] + payload@.take(i as int),
        decreases payload.len() - i,
    {
        buffer.push(payload[i]);
        i = i + 1;
        proof {
            assert(seq![0u8, 0u8] + payload@.take(i - 1) + seq![payload@[i - 1]] =~= seq![
                0u8,
                0u8,
            ] + payload@.take(i as int));
        }
    }
    proof {
        assert(payload@.take(payload@.len() as int) =~= payload@);
    }
    buffer
}

/// Encodes a commit record.
pub fn encode_commit() -> (r: Vec<u8>)
    ensures
        r@ == commit_frame(),
{
    let mut buffer: Vec<u8> = Vec::new();
    buffer.push(0u8);
    buffer.push(1u8);
    proof {
        assert(buffer@ =~= commit_frame());
    }
    buffer
}

/// Encodes an end-of-stream record.
pub fn encode_eof() -> (r: Vec<u8>)
    ensures
        r@ == eof_frame(),
{
    let mut buffer: Vec<u8> = Vec::new();
    buffer.push(0u8);
    buffer.push(2u8);
    proof {
        assert(buffer@ =~= eof_frame());
    }
    buffer
}

/// The framed records a document batch turns into: one `Doc` frame per
/// document, then one `Commit` frame when the commit is forced.
pub open spec fn doc_frames(docs: Seq<Seq<u8>>, force_commit: bool) -> Seq<Seq<u8>> {
    let frames = docs.map_values(|d: Seq<u8>| doc_frame(d));
    if force_commit {
        frames.push(commit_frame())
    } else {
        frames
    }
}

/// Encodes a whole document batch, appending a `Commit` frame when the
/// commit is forced.
pub fn encode_doc_batch(docs: &Vec<Vec<u8>>, force_commit: bool) -> (r: Vec<Vec<u8>>)
    ensures
        crate::wal::record_views(r@) == doc_frames(crate::wal::record_views(docs@), force_commit),
{
    let ghost doc_views = crate::wal::record_views(docs@);
    let mut out: Vec<Vec<u8>> = Vec::new();
    let mut i: usize = 0;
    while i < docs.len()
        invariant
            i <= docs@.len(),
            doc_views == crate::wal::record_views(docs@),
            crate::wal::record_views(out@) =~= doc_views.take(i as int).map_values(
                |d: Seq<u8>| doc_frame(d),
            ),
        decreases docs@.len() - i,
    {
        let frame_bytes = encode_doc(&docs[i]);
        proof {
            assert(doc_views[i as int] == docs@[i as int]@);
        }
        let ghost out_before = out@;
        out.push(frame_bytes);
        i = i + 1;
        proof {
            assert(crate::wal::record_views(out@) =~= crate::wal::record_views(out_before).push(
                doc_frame(doc_views[i - 1]),
            ));
            assert(doc_views.take(i as int).map_values(|d: Seq<u8>| doc_frame(d))
                =~= crate::wal::record_views(out_before).push(doc_frame(doc_views[i - 1])));
        }
    }
    proof {
        assert(doc_views.take(docs@.len() as int) =~= doc_views);
    }
    if force_commit {
        out.push(encode_commit());
        proof {
            assert(crate::wal::record_views(out@) =~= doc_frames(doc_views, true));
        }
    } else {
        proof {
            assert(crate::wal::record_views(out@) =~= doc_frames(doc_views, false));
        }
    }
    out
}

impl MRecord {
    /// Encodes the record into its wire frame.
    pub fn encode(&self) -> (r: Vec<u8>)
        ensures
            r@ == frame(self@),
    {
        match self {
            MRecord::Doc(payload) => encode_doc(payload),
            MRecord::Commit => encode_commit(),
            MRecord::Eof => encode_eof(),
        }
    }

    /// Decodes a wire frame. Fails exactly on the byte sequences that no
    /// record encodes to.
    pub fn decode(bytes: &Vec<u8>) -> (r: Result<MRecord, InvalidRecord>)
        ensures
            r is Ok <==> parse(bytes@) is Some,
            r matches Ok(record) ==> Some(record@) == parse(bytes@),
    {
        if bytes.len() < 2 || bytes[0] != 0u8 {
            return Err(InvalidRecord);
        }
        let tag = bytes[1];
        if tag == 0u8 {
            let mut payload: Vec<u8> = Vec::new();
            let mut i: usize = 2;
            while i < bytes.len()
                invariant
                    2 <= i <= bytes.len(),
                    payload@ == bytes@.subrange(2, i as int),
                decreases bytes.len() - i,
            {
                payload.push(bytes[i]);
                i = i + 1;
                proof {
                    assert(bytes@.subrange(2, i - 1).push(bytes@[i - 1])
                        =~= bytes@.subrange(2, i as int));
                }
            }
            proof {
                assert(bytes@.subrange(2, bytes@.len() as int) =~= bytes@.skip(2));
            }
            Ok(MRecord::Doc(payload))
        } else if tag == 1u8 && bytes.len() == 2 {
            Ok(MRecord::Commit)
        } else if tag == 2u8 && bytes.len() == 2 {
            Ok(MRecord::Eof)
        } else {
            Err(InvalidRecord)
        }
    }
}

/// The error of `MRecord::decode`: the bytes are not a valid frame.
#[derive(Clone, Copy, PartialEq, Eq, Structural, Debug)]
pub struct InvalidRecord;

/// True exactly of the two-byte end-of-stream frame.
pub open spec fn is_eof_frame(bytes: Seq<u8>) -> bool {
    bytes == eof_frame()
}

/// A cheap tag peek: does `bytes` hold exactly an `Eof` frame?
pub fn is_eof_mrecord(bytes: &Vec<u8>) -> (r: bool)
    ensures
        r == is_eof_frame(bytes@),
{
    let r = bytes.len() == 2 && bytes[0] == 0u8 && bytes[1] == 2u8;
    proof {
        if r {
            assert(bytes@ =~= eof_frame());
        }
    }
    r
}

} // verus!
