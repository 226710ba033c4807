//! A segment: one append-only data file.
//!
//! A segment owns an I/O backend, caches its size, and carries the ghost
//! list of the records it holds.  Its bytes are always exactly those
//! records, encoded back to back (`seg_clean`).

use vstd::prelude::*;

use crate::io::MMap;
use crate::meta::{
    decode_record, lemma_seg_clean_empty, lemma_seg_clean_extend, parse_at, rec_parseable,
    rec_size, enc_rec, seg_clean, Fid, LogRecord, Parsed, RecM, LOG_FIXED_CRC_SIZE,
    LOG_HEADER_MAX_SIZE,
};
use crate::Error;

verus! {

pub struct DataFile {
    pub fid: Fid,
    pub io: MMap,
    pub size: usize,
    pub recs: Ghost<Seq<RecM>>,
}

impl DataFile {
    /// The segment's bytes.
    pub open spec fn bytes(self) -> Seq<u8> {
        self.io@
    }

    /// The records the segment holds, in append order.
    pub open spec fn records(self) -> Seq<RecM> {
        self.recs@
    }

    /// The cached size is the byte count, and the bytes are exactly the
    /// records encoded back to back.
    pub open spec fn wf(self) -> bool {
        &&& self.size == self.bytes().len()
        &&& seg_clean(self.bytes(), self.records())
    }

    /// A fresh, empty segment with the given id.
    pub fn new(fid: Fid) -> (r: DataFile)
        ensures
            r.wf(),
            r.fid == fid,
            r.bytes() == Seq::<u8>::empty(),
            r.records() == Seq::<RecM>::empty(),
    {
        let io = MMap::new();
        proof {
            lemma_seg_clean_empty(io@);
        }
        DataFile { fid, io, size: 0, recs: Ghost(Seq::empty()) }
    }

    /// A segment over bytes already known to be clean, as after replay.
    pub fn from_parts(fid: Fid, buf: Vec<u8>, recs: Ghost<Seq<RecM>>) -> (r: DataFile)
        requires
            seg_clean(buf@, recs@),
        ensures
            r.wf(),
            r.fid == fid,
            r.bytes() == buf@,
            r.records() == recs@,
    {
        let size = buf.len();
        let io = MMap::from_bytes(buf);
        DataFile { fid, io, size, recs }
    }

    /// Encode and append one record; returns the number of bytes written.
    pub fn append_record(&mut self, record: &LogRecord) -> (r: usize)
        requires
            old(self).wf(),
            rec_parseable(record@),
        ensures
            final(self).wf(),
            final(self).fid == old(self).fid,
            final(self).bytes() == old(self).bytes() + enc_rec(record@),
            final(self).records() == old(self).records().push(record@),
            r == rec_size(record@),
    {
        let (encoded, _crc) = record.serde();
        let n = self.io.append(&encoded);
        let new_size = self.io.size();
        self.size = new_size;
        proof {
            lemma_seg_clean_extend(old(self).bytes(), old(self).records(), record@);
            self.recs@ = old(self).records().push(record@);
        }
        n
    }

    /// Decode the record at `offset`: exactly what `parse_at` says of the
    /// segment's bytes there.
    pub fn read_record(&self, offset: usize) -> (r: Result<(LogRecord, usize), Error>)
        requires
            self.wf(),
            offset <= self.bytes().len(),
        ensures
            (match parse_at(self.bytes(), offset as nat) {
                Parsed::Rec { rec, len } => r matches Ok(p) && p.0@ == rec && p.1 == len,
                Parsed::Eof => r == Err::<(LogRecord, usize), Error>(Error::EofInSegment),
                Parsed::Corrupt => r == Err::<(LogRecord, usize), Error>(Error::CorruptRecord),
            }),
    {
        decode_record(self.io.borrow_all(), offset)
    }

    /// The segment's size, from the cache.
    pub fn current_size(&self) -> (r: usize)
        requires
            self.wf(),
        ensures
            r == self.bytes().len(),
    {
        self.size
    }

    /// Flush the backend.
    pub fn fsync(&self) {
        self.io.sync()
    }

    /// The segment's id.
    pub fn fid(&self) -> (r: Fid)
        ensures
            r == self.fid,
    {
        self.fid
    }
}

} // verus!
