//! The database engine: one active segment, the sealed older segments,
//! and the in-memory index over them.
//!
//! The engine's visible state is a map from keys to values.  Its
//! invariant ties the three parts together: every index entry points at a
//! live `Normal` record on some resident segment, and replaying every
//! record of every segment in id order yields exactly the visible map —
//! which is why reopening the same segments restores the same state.

use vstd::prelude::*;
use vstd::multiset::Multiset;

use crate::data_file::DataFile;
use crate::index::{BTreeIndex, IndexOpt};
use crate::meta::{
    apply_rec, lemma_parse_agree, lemma_parse_enc, lemma_parse_facts, lemma_replay_snoc, parse_at,
    rec_parseable, rec_size, enc_rec, replay_recs, scan_from, Fid, LogPos, LogRecord, Parsed,
    RecM, RecordType, LOG_FIXED_CRC_SIZE, LOG_HEADER_MAX_SIZE,
};
use crate::Error;

verus! {

/// The index implementations an engine can be opened with.
#[derive(Clone, Copy, Debug, PartialEq, Eq, Structural)]
pub enum IndexerType {
    BTreeMap,
}

/// Engine configuration.
pub struct Options {
    pub dir_path: Vec<u8>,
    pub max_file_size: usize,
    pub index_type: IndexerType,
    pub sync_write: bool,
}

impl Options {
    /// A non-empty directory and a positive size cap.
    pub open spec fn valid(self) -> bool {
        self.dir_path@.len() > 0 && self.max_file_size > 0
    }

    /// Check the configuration: a non-empty directory path and a positive
    /// segment size cap.
    pub fn validate(&self) -> (r: bool)
        ensures
            r == self.valid(),
    {
        if self.dir_path.len() == 0 {
            return false;
        }
        if self.max_file_size == 0 {
            return false;
        }
        true
    }
}

impl Default for Options {
    /// One-gigabyte segments, a tree index, no sync on write, and a
    /// directory the caller must fill in.
    fn default() -> (r: Self)
        ensures
            r.dir_path@.len() == 0,
            r.max_file_size == 0x40000000,
            r.index_type == IndexerType::BTreeMap,
            r.sync_write == false,
    {
        Options {
            dir_path: Vec::new(),
            max_file_size: 0x40000000,
            index_type: IndexerType::BTreeMap,
            sync_write: false,
        }
    }
}

/// The records of a run of segments, in order.
pub open spec fn recs_of_segs(s: Seq<DataFile>) -> Seq<RecM>
    decreases s.len(),
{
    if s.len() == 0 {
        Seq::empty()
    } else {
        s[0].records() + recs_of_segs(s.skip(1))
    }
}

pub proof fn lemma_recs_of_segs_push(s: Seq<DataFile>, d: DataFile)
    ensures
        recs_of_segs(s.push(d)) == recs_of_segs(s) + d.records(),
    decreases s.len(),
{
    reveal_with_fuel(recs_of_segs, 3);
    if s.len() == 0 {
        assert(s.push(d)[0] == d);
        assert(s.push(d).skip(1) =~= Seq::<DataFile>::empty());
        assert(recs_of_segs(s.push(d)) =~= d.records());
        assert(recs_of_segs(s) + d.records() =~= d.records());
    } else {
        assert(s.push(d)[0] == s[0]);
        assert(s.push(d).skip(1) =~= s.skip(1).push(d));
        lemma_recs_of_segs_push(s.skip(1), d);
        assert(recs_of_segs(s.push(d)) =~= recs_of_segs(s) + d.records());
    }
}

/// The engine.
pub struct DB {
    sync_write: bool,
    max_file_size: usize,
    dir_path: Vec<u8>,
    active_file: DataFile,
    older_files: Vec<DataFile>,
    pub(crate) index: BTreeIndex,
    model: Ghost<Map<Seq<u8>, Seq<u8>>>,
}

impl View for DB {
    type V = Map<Seq<u8>, Seq<u8>>;

    /// The visible state: each live key and its current value.
    closed spec fn view(&self) -> Map<Seq<u8>, Seq<u8>> {
        self.model@
    }
}

impl DB {
    /// All resident segments, older first, the active one last; ids
    /// strictly ascend along it.
    pub closed spec fn segs(self) -> Seq<DataFile> {
        self.older_files@ + seq![self.active_file]
    }

    /// The segments as plain values: id and bytes, in id order.
    pub closed spec fn files_model(self) -> Seq<(Fid, Seq<u8>)> {
        self.segs().map_values(|d: DataFile| (d.fid, d.bytes()))
    }

    pub closed spec fn active_fid(self) -> Fid {
        self.active_file.fid
    }

    pub closed spec fn active_size(self) -> nat {
        self.active_file.bytes().len()
    }

    pub closed spec fn older_len(self) -> nat {
        self.older_files@.len()
    }

    pub closed spec fn max_file_size_spec(self) -> usize {
        self.max_file_size
    }

    pub closed spec fn sync_write_spec(self) -> bool {
        self.sync_write
    }

    /// A segment with this id is resident.
    pub closed spec fn has_fid(self, fid: Fid) -> bool {
        fid == self.active_file.fid || exists|i: int|
            0 <= i < self.older_files@.len() && (#[trigger] self.older_files@[i]).fid == fid
    }

    /// The resident segment with this id.
    pub closed spec fn seg_of(self, fid: Fid) -> DataFile {
        if fid == self.active_file.fid {
            self.active_file
        } else {
            self.older_files@[choose|i: int|
                0 <= i < self.older_files@.len() && (#[trigger] self.older_files@[i]).fid == fid]
        }
    }

    /// The records of the segment with this id.
    pub closed spec fn recs_of_fid(self, fid: Fid) -> Seq<RecM> {
        self.seg_of(fid).records()
    }

    /// The bytes of the segment with this id.
    pub closed spec fn bytes_of_fid(self, fid: Fid) -> Seq<u8> {
        self.seg_of(fid).bytes()
    }

    /// Every record of every resident segment, in segment id order.
    pub closed spec fn all_recs(self) -> Seq<RecM> {
        recs_of_segs(self.segs())
    }

    /// The index entry of `k` points at a live `Normal` record holding the
    /// visible value of `k`.
    pub closed spec fn pos_ok(self, k: Seq<u8>) -> bool {
        let p = self.index@[k];
        &&& self.has_fid(p.fid)
        &&& (parse_at(self.seg_of(p.fid).bytes(), p.offset as nat) matches Parsed::Rec {
            rec,
            len,
        } && rec.typ == RecordType::Normal && rec.key == k && rec.value == self.model@[k])
    }

    /// The engine invariant.
    pub closed spec fn wf(self) -> bool {
        &&& self.active_file.wf()
        &&& forall|i: int|
            0 <= i < self.older_files@.len() ==> (#[trigger] self.older_files@[i]).wf()
        &&& forall|i: int, j: int|
            0 <= i < j < self.older_files@.len() ==> (#[trigger] self.older_files@[i]).fid < (
            #[trigger] self.older_files@[j]).fid
        &&& forall|i: int|
            0 <= i < self.older_files@.len() ==> (#[trigger] self.older_files@[i]).fid
                < self.active_file.fid
        &&& self.index.wf()
        &&& self.index@.dom() == self.model@.dom()
        &&& forall|k: Seq<u8>|
            #[trigger] self.model@.dom().contains(k) ==> k.len() > 0 && self.index@[k].fid
                <= u32::MAX && self.pos_ok(k)
        &&& replay_recs(Map::empty(), self.all_recs()) == self.model@
        &&& self.max_file_size > 0
    }

    /// The older segment holding `fid`, if any.
    fn find_older(&self, fid: Fid) -> (r: Option<usize>)
        ensures
            r matches Some(i) ==> i < self.older_files@.len() && self.older_files@[i as int].fid
                == fid,
            r is None ==> forall|i: int|
                0 <= i < self.older_files@.len() ==> (#[trigger] self.older_files@[i]).fid != fid,
    {
        let n = self.older_files.len();
        let mut i: usize = 0;
        while i < n
            invariant
                i <= n,
                n == self.older_files@.len(),
                forall|m: int|
                    0 <= m < i ==> (#[trigger] self.older_files@[m]).fid != fid,
            decreases n - i,
        {
            if self.older_files[i].fid() == fid {
                return Some(i);
            }
            i = i + 1;
        }
        None
    }

    /// With distinct segment ids, the chosen segment for an id present in
    /// the older run is that very segment.
    proof fn lemma_seg_of_older(self, i: int)
        requires
            self.wf(),
            0 <= i < self.older_files@.len(),
        ensures
            self.seg_of(self.older_files@[i].fid) == self.older_files@[i],
    {
        let fid = self.older_files@[i].fid;
        assert(fid != self.active_file.fid);
        assert(0 <= i < self.older_files@.len() && self.older_files@[i].fid == fid);
        let j = choose|j: int|
            0 <= j < self.older_files@.len() && (#[trigger] self.older_files@[j]).fid == fid;
        if i != j {
            if i < j {
                assert(self.older_files@[i].fid < self.older_files@[j].fid);
            } else {
                assert(self.older_files@[j].fid < self.older_files@[i].fid);
            }
        }
    }

    /// Look the key up and read its record from the segment the index
    /// names.
    pub(crate) fn get_record(&self, key: &Vec<u8>) -> (r: Result<Option<LogRecord>, Error>)
        requires
            self.wf(),
        ensures
            key@.len() == 0 ==> r == Err::<Option<LogRecord>, Error>(Error::EmptyKey),
            key@.len() > 0 && !self@.dom().contains(key@) ==> r == Ok::<
                Option<LogRecord>,
                Error,
            >(None),
            key@.len() > 0 && self@.dom().contains(key@) ==> (r matches Ok(o) && o matches Some(lr)
                && lr@.typ == RecordType::Normal && lr@.key == key@ && lr@.value == self@[key@]),
    {
        if key.len() == 0 {
            return Err(Error::EmptyKey);
        }
        match self.index.get(key) {
            None => Ok(None),
            Some(p) => {
                proof {
                    assert(self@.dom().contains(key@));
                    assert(self.pos_ok(key@));
                }
                let af_fid = self.active_file.fid();
                if p.fid == af_fid {
                    proof {
                        lemma_parse_facts(self.active_file.bytes(), p.offset as nat);
                    }
                    match self.active_file.read_record(p.offset) {
                        Ok((lr, _n)) => Ok(Some(lr)),
                        Err(_) => {
                            proof {
                                assert(false);
                            }
                            Err(Error::InconsistentIndex)
                        },
                    }
                } else {
                    match self.find_older(p.fid) {
                        Some(i) => {
                            proof {
                                self.lemma_seg_of_older(i as int);
                                lemma_parse_facts(
                                    self.older_files@[i as int].bytes(),
                                    p.offset as nat,
                                );
                            }
                            match self.older_files[i].read_record(p.offset) {
                                Ok((lr, _n)) => Ok(Some(lr)),
                                Err(_) => {
                                    proof {
                                        assert(false);
                                    }
                                    Err(Error::InconsistentIndex)
                                },
                            }
                        },
                        None => {
                            // the index invariant rules this out; surface
                            // it as the internal-bug error all the same
                            proof {
                                assert(false);
                            }
                            Err(Error::InconsistentIndex)
                        },
                    }
                }
            },
        }
    }

    /// Read the current value of `key`, `None` when the key is not live.
    pub fn get(&self, key: &Vec<u8>) -> (r: Result<Option<Vec<u8>>, Error>)
        requires
            self.wf(),
        ensures
            key@.len() == 0 ==> r == Err::<Option<Vec<u8>>, Error>(Error::EmptyKey),
            key@.len() > 0 ==> (match r {
                Ok(o) => (if self@.dom().contains(key@) {
                    o matches Some(v) && v@ == self@[key@]
                } else {
                    o is None
                }),
                Err(_) => false,
            }),
    {
        if key.len() == 0 {
            return Err(Error::EmptyKey);
        }
        match self.get_record(key)? {
            Some(lr) => {
                if lr.typ == RecordType::Normal {
                    Ok(Some(lr.value))
                } else {
                    Ok(None)
                }
            },
            None => Ok(None),
        }
    }
}

} // verus!

verus! {

/// The record a `put` appends.
pub open spec fn normal_rec(k: Seq<u8>, v: Seq<u8>) -> RecM {
    RecM { typ: RecordType::Normal, key: k, value: v }
}

/// The tombstone a `delete` appends.
pub open spec fn delete_rec(k: Seq<u8>) -> RecM {
    RecM { typ: RecordType::Delete, key: k, value: Seq::empty() }
}

impl DB {
    /// Append one record, rolling the active segment first when the record
    /// would push it past the size cap, then mirror the change into the
    /// index.  A tombstone for a key that is not live short-circuits to a
    /// no-op.
    #[verifier::rlimit(100)]
    fn append_log_record(&mut self, lr: LogRecord) -> (r: Result<(), Error>)
        requires
            old(self).wf(),
            rec_parseable(lr@),
            lr@.key.len() > 0,
            lr@.key.len() + lr@.value.len() + LOG_HEADER_MAX_SIZE + LOG_FIXED_CRC_SIZE
                <= usize::MAX,
            old(self).active_size() + rec_size(lr@) > old(self).max_file_size_spec() ==> old(
                self,
            ).active_fid() < u32::MAX,
        ensures
            r is Ok,
            final(self).wf(),
            final(self)@ == apply_rec(old(self)@, lr@),
            final(self).max_file_size_spec() == old(self).max_file_size_spec(),
            final(self).sync_write_spec() == old(self).sync_write_spec(),
            (lr@.typ == RecordType::Delete && !old(self)@.dom().contains(lr@.key)) ==> *final(self)
                == *old(self),
            !(lr@.typ == RecordType::Delete && !old(self)@.dom().contains(lr@.key)) ==> (if old(
                self,
            ).active_size() + rec_size(lr@) > old(self).max_file_size_spec() {
                final(self).older_len() == old(self).older_len() + 1 && final(self).active_fid()
                    == old(self).active_fid() + 1 && final(self).active_size() == rec_size(lr@)
            } else {
                final(self).older_len() == old(self).older_len() && final(self).active_fid()
                    == old(self).active_fid() && final(self).active_size() == old(
                    self,
                ).active_size() + rec_size(lr@)
            }),
    {
        if lr.typ == RecordType::Delete {
            if self.index.get(&lr.key).is_none() {
                proof {
                    assert(apply_rec(old(self)@, lr@) =~= old(self)@);
                }
                return Ok(());
            }
        }
        let ghost rl = rec_size(lr@);
        let offset0 = self.active_file.current_size();
        let serded_len = lr.serde_len();
        let rolled = offset0 > self.max_file_size || serded_len > self.max_file_size - offset0;
        if rolled {
            // seal the active segment and start a fresh one with the next id
            self.active_file.fsync();
            let next_fid = self.active_file.fid() + 1;
            let mut sealed = DataFile::new(next_fid);
            core::mem::swap(&mut self.active_file, &mut sealed);
            self.older_files.push(sealed);
        }
        let ghost mid = *self;
        let offset = self.active_file.current_size();
        let n = self.active_file.append_record(&lr);
        if self.sync_write {
            self.active_file.fsync();
        }
        let ghost applied = *self;
        let new_fid = self.active_file.fid();
        let LogRecord { key, value: _value, typ } = lr;
        match typ {
            RecordType::Delete => {
                let _ = self.index.delete(&key);
            },
            RecordType::Normal => {
                let _ = self.index.put(key, LogPos { fid: new_fid, offset });
            },
        }
        proof {
            self.model@ = apply_rec(old(self)@, lr@);
            lemma_append_wf(*old(self), mid, *self, lr@, rolled, offset as nat);
        }
        Ok(())
    }

    /// Uniqueness of segment ids: the segment chosen for an older id is
    /// that very older segment.  Needs only the id ordering, not the whole
    /// invariant.
    proof fn lemma_seg_of_older_order(self, i: int)
        requires
            0 <= i < self.older_files@.len(),
            forall|x: int, y: int|
                0 <= x < y < self.older_files@.len() ==> (#[trigger] self.older_files@[x]).fid < (
                #[trigger] self.older_files@[y]).fid,
            forall|x: int|
                0 <= x < self.older_files@.len() ==> (#[trigger] self.older_files@[x]).fid
                    < self.active_file.fid,
        ensures
            self.seg_of(self.older_files@[i].fid) == self.older_files@[i],
            self.has_fid(self.older_files@[i].fid),
    {
        let fid = self.older_files@[i].fid;
        assert(fid != self.active_file.fid);
        assert(0 <= i < self.older_files@.len() && self.older_files@[i].fid == fid);
        let j = choose|j: int|
            0 <= j < self.older_files@.len() && (#[trigger] self.older_files@[j]).fid == fid;
        if i != j {
            if i < j {
                assert(self.older_files@[i].fid < self.older_files@[j].fid);
            } else {
                assert(self.older_files@[j].fid < self.older_files@[i].fid);
            }
        }
    }

    /// Write `value` under `key`: afterwards the visible state takes `key`
    /// to `value`.  An empty key is rejected and nothing changes.
    pub fn put(&mut self, key: Vec<u8>, value: Vec<u8>) -> (r: Result<(), Error>)
        requires
            old(self).wf(),
            key@.len() <= u32::MAX,
            value@.len() <= u32::MAX,
            key@.len() + value@.len() + LOG_HEADER_MAX_SIZE + LOG_FIXED_CRC_SIZE <= usize::MAX,
            old(self).active_size() + rec_size(normal_rec(key@, value@)) > old(
                self,
            ).max_file_size_spec() ==> old(self).active_fid() < u32::MAX,
        ensures
            key@.len() == 0 ==> r == Err::<(), Error>(Error::EmptyKey) && *final(self) == *old(
                self,
            ),
            key@.len() > 0 ==> r is Ok && final(self).wf() && final(self)@ == old(self)@.insert(
                key@,
                value@,
            ),
            final(self).max_file_size_spec() == old(self).max_file_size_spec(),
            final(self).sync_write_spec() == old(self).sync_write_spec(),
            key@.len() > 0 ==> (if old(self).active_size() + rec_size(normal_rec(key@, value@))
                > old(self).max_file_size_spec() {
                final(self).older_len() == old(self).older_len() + 1 && final(self).active_fid()
                    == old(self).active_fid() + 1 && final(self).active_size() == rec_size(
                    normal_rec(key@, value@),
                )
            } else {
                final(self).older_len() == old(self).older_len() && final(self).active_fid()
                    == old(self).active_fid() && final(self).active_size() == old(
                    self,
                ).active_size() + rec_size(normal_rec(key@, value@))
            }),
    {
        if key.len() == 0 {
            return Err(Error::EmptyKey);
        }
        let lr = LogRecord { key, value, typ: RecordType::Normal };
        self.append_log_record(lr)
    }

    /// Remove `key` from the visible state.  Deleting a key that is not
    /// live is a no-op, not an error; an empty key is rejected.
    pub fn delete(&mut self, key: Vec<u8>) -> (r: Result<(), Error>)
        requires
            old(self).wf(),
            key@.len() <= u32::MAX,
            key@.len() + LOG_HEADER_MAX_SIZE + LOG_FIXED_CRC_SIZE <= usize::MAX,
            (old(self)@.dom().contains(key@) && old(self).active_size() + rec_size(
                delete_rec(key@),
            ) > old(self).max_file_size_spec()) ==> old(self).active_fid() < u32::MAX,
        ensures
            key@.len() == 0 ==> r == Err::<(), Error>(Error::EmptyKey) && *final(self) == *old(
                self,
            ),
            key@.len() > 0 ==> r is Ok && final(self).wf() && final(self)@ == old(self)@.remove(
                key@,
            ),
            key@.len() > 0 && !old(self)@.dom().contains(key@) ==> *final(self) == *old(self),
            key@.len() > 0 && old(self)@.dom().contains(key@) ==> (if old(self).active_size()
                + rec_size(delete_rec(key@)) > old(self).max_file_size_spec() {
                final(self).older_len() == old(self).older_len() + 1 && final(self).active_fid()
                    == old(self).active_fid() + 1 && final(self).active_size() == rec_size(
                    delete_rec(key@),
                )
            } else {
                final(self).older_len() == old(self).older_len() && final(self).active_fid()
                    == old(self).active_fid() && final(self).active_size() == old(
                    self,
                ).active_size() + rec_size(delete_rec(key@))
            }),
            final(self).max_file_size_spec() == old(self).max_file_size_spec(),
            final(self).sync_write_spec() == old(self).sync_write_spec(),
    {
        if key.len() == 0 {
            return Err(Error::EmptyKey);
        }
        if self.index.get(&key).is_none() {
            proof {
                assert(!old(self)@.dom().contains(key@));
                assert(old(self)@.remove(key@) =~= old(self)@);
            }
            return Ok(());
        }
        let lr = LogRecord { key, value: Vec::new(), typ: RecordType::Delete };
        self.append_log_record(lr)
    }
}

} // verus!

verus! {

/// After an append — with or without a preceding roll — and the matching
/// index and model updates, the engine invariant holds again.  `o` is the
/// engine before, `mid` after the roll alone, `f` after everything.
#[verifier::rlimit(100)]
proof fn lemma_append_wf(o: DB, mid: DB, f: DB, lr: RecM, rolled: bool, offset: nat)
    requires
        o.wf(),
        rec_parseable(lr),
        lr.key.len() > 0,
        (if rolled {
            mid.older_files@ == o.older_files@.push(o.active_file) && mid.active_file.wf()
                && mid.active_file.bytes() == Seq::<u8>::empty() && mid.active_file.records()
                == Seq::<RecM>::empty() && o.active_file.fid < u32::MAX && mid.active_file.fid
                == o.active_file.fid + 1
        } else {
            mid.older_files@ == o.older_files@ && mid.active_file == o.active_file
        }),
        f.older_files@ == mid.older_files@,
        f.active_file.wf(),
        f.active_file.fid == mid.active_file.fid,
        offset == mid.active_file.bytes().len(),
        f.active_file.bytes() == mid.active_file.bytes() + enc_rec(lr),
        f.active_file.records() == mid.active_file.records().push(lr),
        f.index.wf(),
        (if lr.typ == RecordType::Normal {
            f.index@ == o.index@.insert(lr.key, (LogPos { fid: f.active_file.fid, offset: offset as usize }))
        } else {
            f.index@ == o.index@.remove(lr.key)
        }),
        offset <= usize::MAX,
        f.model@ == apply_rec(o.model@, lr),
        f.max_file_size == o.max_file_size,
    ensures
        f.wf(),
{
    // segment structure
    assert forall|i: int| 0 <= i < f.older_files@.len() implies (
    #[trigger] f.older_files@[i]).wf() by {
        if rolled && i == f.older_files@.len() - 1 {
        } else {
            assert(f.older_files@[i] == o.older_files@[i]);
        }
    }
    assert forall|i: int, j: int| 0 <= i < j < f.older_files@.len() implies (
    #[trigger] f.older_files@[i]).fid < (#[trigger] f.older_files@[j]).fid by {
        if rolled && j == f.older_files@.len() - 1 {
            assert(f.older_files@[i] == o.older_files@[i]);
            assert(f.older_files@[j] == o.active_file);
        } else {
            assert(f.older_files@[i] == o.older_files@[i]);
            assert(f.older_files@[j] == o.older_files@[j]);
        }
    }
    assert forall|i: int| 0 <= i < f.older_files@.len() implies (
    #[trigger] f.older_files@[i]).fid < f.active_file.fid by {
        if rolled {
            if i < f.older_files@.len() - 1 {
                assert(f.older_files@[i] == o.older_files@[i]);
            } else {
                assert(f.older_files@[i] == o.active_file);
            }
        }
    }
    // the new record parses at its position on the active segment
    assert(f.active_file.bytes().subrange(offset as int, (offset + rec_size(lr)) as int) =~= enc_rec(lr));
    lemma_parse_enc(f.active_file.bytes(), offset, lr);
    // every index entry still points at its record
    assert forall|k: Seq<u8>| #[trigger] f.model@.dom().contains(k) implies k.len() > 0
        && f.index@[k].fid <= u32::MAX && f.pos_ok(k) by {
        lemma_append_pos_ok(o, mid, f, lr, rolled, offset, k);
    }
    // index and model agree on the live keys
    assert(f.index@.dom() =~= f.model@.dom());
    // replay of everything on disk is the visible state
    if rolled {
        lemma_recs_of_segs_push(o.older_files@.push(o.active_file), mid.active_file);
        lemma_recs_of_segs_push(o.older_files@, o.active_file);
        assert(mid.segs() =~= o.older_files@.push(o.active_file).push(mid.active_file));
        assert(o.segs() =~= o.older_files@.push(o.active_file));
        assert(mid.active_file.records() =~= Seq::<RecM>::empty());
        assert(mid.all_recs() =~= o.all_recs());
    } else {
        assert(mid.all_recs() == o.all_recs());
    }
    assert(f.segs() =~= mid.older_files@.push(f.active_file));
    lemma_recs_of_segs_push(mid.older_files@, f.active_file);
    assert(mid.segs() =~= mid.older_files@.push(mid.active_file));
    lemma_recs_of_segs_push(mid.older_files@, mid.active_file);
    assert(f.active_file.records() == mid.active_file.records().push(lr));
    assert(f.all_recs() =~= mid.all_recs().push(lr));
    assert(f.all_recs() =~= o.all_recs().push(lr));
    lemma_replay_snoc(Map::empty(), o.all_recs(), lr);
    assert(replay_recs(Map::empty(), f.all_recs()) == f.model@);
}

/// One key of the updated index still points at a live record of its
/// visible value.
#[verifier::rlimit(100)]
proof fn lemma_append_pos_ok(o: DB, mid: DB, f: DB, lr: RecM, rolled: bool, offset: nat, k: Seq<u8>)
    requires
        o.wf(),
        rec_parseable(lr),
        lr.key.len() > 0,
        (if rolled {
            mid.older_files@ == o.older_files@.push(o.active_file) && mid.active_file.wf()
                && mid.active_file.bytes() == Seq::<u8>::empty() && mid.active_file.records()
                == Seq::<RecM>::empty() && o.active_file.fid < u32::MAX && mid.active_file.fid
                == o.active_file.fid + 1
        } else {
            mid.older_files@ == o.older_files@ && mid.active_file == o.active_file
        }),
        f.older_files@ == mid.older_files@,
        f.active_file.wf(),
        f.active_file.fid == mid.active_file.fid,
        offset == mid.active_file.bytes().len(),
        f.active_file.bytes() == mid.active_file.bytes() + enc_rec(lr),
        f.index.wf(),
        (if lr.typ == RecordType::Normal {
            f.index@ == o.index@.insert(lr.key, (LogPos { fid: f.active_file.fid, offset: offset as usize }))
        } else {
            f.index@ == o.index@.remove(lr.key)
        }),
        offset <= usize::MAX,
        f.model@ == apply_rec(o.model@, lr),
        f.model@.dom().contains(k),
        forall|i: int, j: int|
            0 <= i < j < f.older_files@.len() ==> (#[trigger] f.older_files@[i]).fid < (
            #[trigger] f.older_files@[j]).fid,
        forall|i: int|
            0 <= i < f.older_files@.len() ==> (#[trigger] f.older_files@[i]).fid
                < f.active_file.fid,
        parse_at(f.active_file.bytes(), offset) == (Parsed::Rec { rec: lr, len: rec_size(lr) }),
    ensures
        k.len() > 0 && f.index@[k].fid <= u32::MAX && f.pos_ok(k),
{
    if lr.typ == RecordType::Normal && k == lr.key {
        let p = f.index@[k];
        assert(p == (LogPos { fid: f.active_file.fid, offset: offset as usize }));
        assert(f.seg_of(p.fid) == f.active_file);
        assert(f.model@[k] == lr.value);
    } else {
        assert(o.model@.dom().contains(k));
        assert(o.pos_ok(k));
        let p = o.index@[k];
        assert(f.index@[k] == p);
        assert(f.model@[k] == o.model@[k]);
        if p.fid == o.active_file.fid {
            if rolled {
                let last = f.older_files@.len() - 1;
                assert(f.older_files@[last] == o.active_file);
                f.lemma_seg_of_older_order(last);
                assert(f.seg_of(p.fid) == o.active_file);
                assert(f.has_fid(p.fid));
            } else {
                assert(f.seg_of(p.fid) == f.active_file);
                lemma_parse_facts(o.active_file.bytes(), p.offset as nat);
                let plen = parse_at(o.active_file.bytes(), p.offset as nat)->Rec_len;
                assert forall|j: nat| j < plen implies #[trigger] crate::varint::byte_at(
                    o.active_file.bytes(),
                    (p.offset + j) as nat,
                ) == crate::varint::byte_at(f.active_file.bytes(), (p.offset + j) as nat) by {
                    assert(f.active_file.bytes()[(p.offset + j) as int] == o.active_file.bytes()[(
                    p.offset + j) as int]);
                }
                lemma_parse_agree(o.active_file.bytes(), f.active_file.bytes(), p.offset as nat);
            }
        } else {
            let i = choose|i: int|
                0 <= i < o.older_files@.len() && (#[trigger] o.older_files@[i]).fid == p.fid;
            assert(o.older_files@[i].fid == p.fid);
            o.lemma_seg_of_older_order(i);
            assert(f.older_files@[i] == o.older_files@[i]);
            f.lemma_seg_of_older_order(i);
            assert(f.seg_of(p.fid) == o.seg_of(p.fid));
            assert(f.has_fid(p.fid));
        }
    }
}

} // verus!

verus! {

/// The record at `off` of `b` is a live `Normal` record of `k` with value
/// `v`, fully inside the first `bound` bytes.
pub open spec fn rec_at_ok(b: Seq<u8>, off: nat, k: Seq<u8>, v: Seq<u8>, bound: nat) -> bool {
    parse_at(b, off) matches Parsed::Rec { rec, len } && rec.typ == RecordType::Normal && rec.key
        == k && rec.value == v && off + len <= bound
}

/// The entry of `k` points at a live record on one of `files`.
pub open spec fn entry_live(
    files: Seq<(Fid, Seq<u8>)>,
    k: Seq<u8>,
    p: LogPos,
    v: Seq<u8>,
) -> bool {
    exists|i: int|
        0 <= i < files.len() && (#[trigger] files[i]).0 == p.fid && rec_at_ok(
            files[i].1,
            p.offset as nat,
            k,
            v,
            files[i].1.len(),
        )
}

/// Mid-replay invariant: the index and the state agree, and every entry
/// points at a live record on a segment already rebuilt.
pub open spec fn replay_inv(
    files: Seq<(Fid, Seq<u8>)>,
    idx: Map<Seq<u8>, LogPos>,
    m: Map<Seq<u8>, Seq<u8>>,
) -> bool {
    &&& idx.dom() == m.dom()
    &&& forall|k: Seq<u8>|
        #[trigger] m.dom().contains(k) ==> k.len() > 0 && entry_live(files, k, idx[k], m[k])
}

impl DB {
    /// Replay one segment's bytes from the start: feed every record into
    /// the index, stop at the sentinel, and hand back the rebuilt segment
    /// — its bytes cut at the sentinel — with the state after it.
    #[verifier::rlimit(100)]
    fn replay_segment(
        fid: Fid,
        bytes: Vec<u8>,
        idx: &mut BTreeIndex,
        Ghost(files): Ghost<Seq<(Fid, Seq<u8>)>>,
        Ghost(m0): Ghost<Map<Seq<u8>, Seq<u8>>>,
    ) -> (r: Result<(DataFile, Ghost<Map<Seq<u8>, Seq<u8>>>), Error>)
        requires
            old(idx).wf(),
            replay_inv(files, old(idx)@, m0),
        ensures
            final(idx).wf(),
            (match scan_from(bytes@, 0) {
                Some(p) => r matches Ok(q) && {
                    let (df, gm) = q;
                    &&& df.wf()
                    &&& df.fid == fid
                    &&& df.records() == p.0
                    &&& df.bytes() == bytes@.subrange(0, p.1 as int)
                    &&& gm@ == replay_recs(m0, p.0)
                    &&& replay_inv(files.push((fid, df.bytes())), final(idx)@, gm@)
                },
                None => r == Err::<(DataFile, Ghost<Map<Seq<u8>, Seq<u8>>>), Error>(
                    Error::CorruptRecord,
                ),
            }),
    {
        let len = bytes.len();
        let mut offset: usize = 0;
        let ghost mut rs: Seq<RecM> = Seq::empty();
        let ghost mut m: Map<Seq<u8>, Seq<u8>> = m0;
        loop
            invariant
                idx.wf(),
                bytes@.len() <= usize::MAX,
                offset <= bytes@.len(),
                crate::meta::parses_to(bytes@, 0, rs, offset as nat),
                m == replay_recs(m0, rs),
                (match scan_from(bytes@, offset as nat) {
                    Some(p) => scan_from(bytes@, 0) == Some((rs + p.0, p.1)),
                    None => scan_from(bytes@, 0) is None,
                }),
                idx@.dom() == m.dom(),
                forall|k: Seq<u8>|
                    #[trigger] m.dom().contains(k) ==> k.len() > 0 && (entry_live(
                        files,
                        k,
                        idx@[k],
                        m[k],
                    ) || (idx@[k].fid == fid && rec_at_ok(
                        bytes@,
                        idx@[k].offset as nat,
                        k,
                        m[k],
                        offset as nat,
                    ))),
            ensures
                parse_at(bytes@, offset as nat) == Parsed::Eof,
            decreases bytes@.len() - offset,
        {
            proof {
                lemma_parse_facts(bytes@, offset as nat);
            }
            match crate::meta::decode_record(&bytes, offset) {
                Err(e) => {
                    if e == Error::EofInSegment {
                        break ;
                    }
                    proof {
                        assert(parse_at(bytes@, offset as nat) is Corrupt);
                        assert(scan_from(bytes@, 0) is None);
                    }
                    return Err(Error::CorruptRecord);
                },
                Ok((lr, n)) => {
                    let ghost prev_rs = rs;
                    let ghost prev_m = m;
                    let ghost prev_off = offset as nat;
                    let rec_offset = offset;
                    proof {
                        assert(offset + n <= bytes@.len());
                    }
                    offset = offset + n;
                    proof {
                        crate::meta::lemma_parses_to_snoc(bytes@, 0, rs, prev_off, lr@);
                        rs = rs.push(lr@);
                        lemma_replay_snoc(m0, prev_rs, lr@);
                        m = apply_rec(m, lr@);
                    }
                    let LogRecord { key, value: _value, typ } = lr;
                    if key.len() == 0 {
                        // records with an empty key are never written by
                        // this store; replay leaves them out of the index
                    } else {
                        match typ {
                            RecordType::Normal => {
                                let _ = idx.put(key, LogPos { fid, offset: rec_offset });
                            },
                            RecordType::Delete => {
                                let _ = idx.delete(&key);
                            },
                        }
                    }
                    proof {
                        assert forall|k: Seq<u8>| #[trigger] m.dom().contains(k) implies k.len()
                            > 0 && (entry_live(files, k, idx@[k], m[k]) || (idx@[k].fid == fid
                            && rec_at_ok(
                            bytes@,
                            idx@[k].offset as nat,
                            k,
                            m[k],
                            offset as nat,
                        ))) by {
                            if lr@.typ == RecordType::Normal && lr@.key.len() > 0 && k == lr@.key {
                                assert(idx@[k] == (LogPos { fid, offset: rec_offset }));
                                assert(rec_at_ok(bytes@, rec_offset as nat, k, m[k], offset as nat));
                            } else {
                                assert(prev_m.dom().contains(k));
                                assert(m[k] == prev_m[k]);
                            }
                        }
                    }
                },
            }
        }
        // the sentinel: cut the tail here, the segment is exactly its
        // records
        let ghost end = offset as nat;
        proof {
            assert(parse_at(bytes@, end) == Parsed::Eof);
            crate::meta::lemma_parses_scan(bytes@, 0, rs, end);
        }
        let mut trunc = bytes;
        trunc.truncate(offset);
        proof {
            assert(trunc@ == bytes@.subrange(0, end as int));
            assert forall|j: nat| 0 <= j < end implies #[trigger] crate::varint::byte_at(bytes@, j)
                == crate::varint::byte_at(trunc@, j) by {
                assert(trunc@[j as int] == bytes@[j as int]);
            }
            crate::meta::lemma_parses_to_agree(bytes@, trunc@, 0, rs, end);
            crate::meta::lemma_parse_eof(trunc@, end);
        }
        let df = DataFile::from_parts(fid, trunc, Ghost(rs));
        proof {
            let nf = files.push((fid, df.bytes()));
            assert forall|k: Seq<u8>| #[trigger] m.dom().contains(k) implies k.len() > 0
                && entry_live(nf, k, idx@[k], m[k]) by {
                let p = idx@[k];
                if entry_live(files, k, p, m[k]) {
                    let i = choose|i: int|
                        0 <= i < files.len() && (#[trigger] files[i]).0 == p.fid && rec_at_ok(
                            files[i].1,
                            p.offset as nat,
                            k,
                            m[k],
                            files[i].1.len(),
                        );
                    assert(nf[i] == files[i]);
                    assert(rec_at_ok(nf[i].1, p.offset as nat, k, m[k], nf[i].1.len()));
                } else {
                    assert(p.fid == fid && rec_at_ok(bytes@, p.offset as nat, k, m[k], end));
                    lemma_parse_facts(bytes@, p.offset as nat);
                    let plen = parse_at(bytes@, p.offset as nat)->Rec_len;
                    assert forall|j: nat| j < plen implies #[trigger] crate::varint::byte_at(
                        bytes@,
                        (p.offset + j) as nat,
                    ) == crate::varint::byte_at(trunc@, (p.offset + j) as nat) by {
                        assert(p.offset + j < end);
                        assert(trunc@[(p.offset + j) as int] == bytes@[(p.offset + j) as int]);
                    }
                    lemma_parse_agree(bytes@, trunc@, p.offset as nat);
                    let i = nf.len() - 1;
                    assert((#[trigger] nf[i]).0 == p.fid && rec_at_ok(
                        nf[i].1,
                        p.offset as nat,
                        k,
                        m[k],
                        nf[i].1.len(),
                    ));
                }
            }
        }
        Ok((df, Ghost(m)))
    }
}

} // verus!

verus! {

/// Segment ids strictly ascend along the run.
pub open spec fn fids_ascending(s: Seq<(Fid, Vec<u8>)>) -> bool {
    forall|i: int, j: int| 0 <= i < j < s.len() ==> (#[trigger] s[i]).0 < (#[trigger] s[j]).0
}

/// Check whether the segments already stand in ascending id order.
fn check_fids_ascending(v: &Vec<(Fid, Vec<u8>)>) -> (r: bool)
    ensures
        r == fids_ascending(v@),
{
    let n = v.len();
    let mut i: usize = 1;
    while i < n
        invariant
            1 <= i || n == 0,
            i <= n || n == 0,
            n == v@.len(),
            forall|x: int, y: int| 0 <= x < y < i ==> (#[trigger] v@[x]).0 < (#[trigger] v@[y]).0,
        decreases n - i,
    {
        if v[i - 1].0 >= v[i].0 {
            return false;
        }
        proof {
            assert forall|x: int, y: int| 0 <= x < y < i + 1 implies (#[trigger] v@[x]).0 < (
            #[trigger] v@[y]).0 by {
                if y == i as int && x < i - 1 {
                    assert(v@[x].0 < v@[i - 1].0);
                }
            }
        }
        i = i + 1;
    }
    true
}

/// Sort segments ascending by id.  The ids must be pairwise distinct.
fn sort_by_fid(segs: Vec<(Fid, Vec<u8>)>) -> (r: Vec<(Fid, Vec<u8>)>)
    requires
        forall|i: int, j: int|
            0 <= i < j < segs@.len() ==> (#[trigger] segs@[i]).0 != (#[trigger] segs@[j]).0,
    ensures
        r@.len() == segs@.len(),
        r@.to_multiset() == segs@.to_multiset(),
        forall|i: int, j: int| 0 <= i < j < r@.len() ==> (#[trigger] r@[i]).0 < (#[trigger] r@[j]).0,
{
    broadcast use vstd::seq_lib::group_to_multiset_ensures;

    let mut rest = segs;
    let mut sorted: Vec<(Fid, Vec<u8>)> = Vec::new();
    while rest.len() > 0
        invariant
            sorted@.to_multiset().add(rest@.to_multiset()) == segs@.to_multiset(),
            sorted@.len() + rest@.len() == segs@.len(),
            forall|i: int, j: int|
                0 <= i < j < sorted@.len() ==> (#[trigger] sorted@[i]).0 < (
                #[trigger] sorted@[j]).0,
            forall|i: int, j: int|
                0 <= i < sorted@.len() && 0 <= j < rest@.len() ==> (#[trigger] sorted@[i]).0 < (
                #[trigger] rest@[j]).0,
            forall|i: int, j: int|
                0 <= i < j < rest@.len() ==> (#[trigger] rest@[i]).0 != (#[trigger] rest@[j]).0,
        decreases rest@.len(),
    {
        // pick the least remaining id
        let n = rest.len();
        let mut m: usize = 0;
        let mut i: usize = 1;
        while i < n
            invariant
                m < i <= n,
                n == rest@.len(),
                forall|j: int| 0 <= j < i ==> (#[trigger] rest@[j]).0 >= rest@[m as int].0,
            decreases n - i,
        {
            if rest[i].0 < rest[m].0 {
                m = i;
            }
            i = i + 1;
        }
        let ghost prev_rest = rest@;
        let ghost prev_sorted = sorted@;
        let e = rest.remove(m);
        proof {
            prev_rest.to_multiset_ensures();
            prev_sorted.to_multiset_ensures();
            assert(rest@ == prev_rest.remove(m as int));
            assert(prev_rest.remove(m as int).to_multiset() =~= prev_rest.to_multiset().remove(
                prev_rest[m as int],
            ));
            assert(rest@.to_multiset() =~= prev_rest.to_multiset().remove(e));
        }
        sorted.push(e);
        proof {
            assert(prev_sorted.push(e).to_multiset() =~= prev_sorted.to_multiset().insert(e));
            assert(sorted@.to_multiset() =~= prev_sorted.to_multiset().insert(e));
            assert(prev_rest.to_multiset().contains(e));
            assert(sorted@.to_multiset().add(rest@.to_multiset()) =~= prev_sorted.to_multiset().add(
                prev_rest.to_multiset(),
            ));
            // the removed minimum is below everything still in `rest`
            assert forall|j: int| 0 <= j < rest@.len() implies e.0 < (#[trigger] rest@[j]).0 by {
                let oj: int = if j < m {
                    j
                } else {
                    j + 1
                };
                assert(rest@[j] == prev_rest[oj]);
                assert(prev_rest[oj].0 >= e.0);
                if prev_rest[oj].0 == e.0 {
                    if oj < m {
                        assert(prev_rest[oj].0 != prev_rest[m as int].0);
                    } else {
                        assert(prev_rest[m as int].0 != prev_rest[oj].0);
                    }
                }
            }
            assert forall|x: int, y: int|
                0 <= x < sorted@.len() && 0 <= y < rest@.len() implies (
            #[trigger] sorted@[x]).0 < (#[trigger] rest@[y]).0 by {
                if x < prev_sorted.len() {
                    assert(sorted@[x] == prev_sorted[x]);
                    let oy: int = if y < m {
                        y
                    } else {
                        y + 1
                    };
                    assert(rest@[y] == prev_rest[oy]);
                } else {
                    assert(sorted@[x] == e);
                }
            }
            assert forall|x: int, y: int| 0 <= x < y < rest@.len() implies (
            #[trigger] rest@[x]).0 != (#[trigger] rest@[y]).0 by {
                let ox: int = if x < m {
                    x
                } else {
                    x + 1
                };
                let oy: int = if y < m {
                    y
                } else {
                    y + 1
                };
                assert(rest@[x] == prev_rest[ox]);
                assert(rest@[y] == prev_rest[oy]);
            }
        }
    }
    proof {
        assert(rest@.to_multiset() =~= Multiset::<(Fid, Vec<u8>)>::empty());
        assert(sorted@.to_multiset().add(rest@.to_multiset()) =~= sorted@.to_multiset());
        assert(sorted@.to_multiset() == segs@.to_multiset());
    }
    sorted
}

} // verus!

verus! {

impl DB {
    /// The index implementation the configuration asks for.
    fn index_type_to_indexer(it: &IndexerType) -> (r: BTreeIndex)
        ensures
            r.wf(),
            r@ == Map::<Seq<u8>, LogPos>::empty(),
    {
        match it {
            IndexerType::BTreeMap => BTreeIndex::new(),
        }
    }

    /// Rebuild every segment of the sorted run, feeding the index.
    fn replay_all(sorted: Vec<(Fid, Vec<u8>)>, idx: &mut BTreeIndex) -> (r: Result<
        (Vec<DataFile>, Ghost<Map<Seq<u8>, Seq<u8>>>),
        Error,
    >)
        requires
            old(idx).wf(),
            old(idx)@ == Map::<Seq<u8>, LogPos>::empty(),
            forall|i: int, j: int|
                0 <= i < j < sorted@.len() ==> (#[trigger] sorted@[i]).0 < (
                #[trigger] sorted@[j]).0,
        ensures
            final(idx).wf(),
            (match r {
                Ok(p) => {
                    let (dfv, gm) = p;
                    &&& dfv@.len() == sorted@.len()
                    &&& (forall|i: int|
                        0 <= i < sorted@.len() ==> {
                            let df = #[trigger] dfv@[i];
                            &&& df.wf()
                            &&& df.fid == sorted@[i].0
                            &&& scan_from(sorted@[i].1@, 0) is Some
                            &&& df.records() == scan_from(sorted@[i].1@, 0)->Some_0.0
                            &&& df.bytes() == sorted@[i].1@.subrange(
                                0,
                                scan_from(sorted@[i].1@, 0)->Some_0.1 as int,
                            )
                        })
                    &&& replay_inv(
                        dfv@.map_values(|d: DataFile| (d.fid, d.bytes())),
                        final(idx)@,
                        gm@,
                    )
                    &&& gm@ == replay_recs(Map::empty(), recs_of_segs(dfv@))
                },
                Err(e) => e == Error::CorruptRecord && (exists|i: int|
                    0 <= i < sorted@.len() && scan_from((#[trigger] sorted@[i]).1@, 0) is None),
            }),
    {
        let mut rest = sorted;
        let mut dfv: Vec<DataFile> = Vec::new();
        let ghost mut model: Map<Seq<u8>, Seq<u8>> = Map::empty();
        let n = rest.len();
        let mut done: usize = 0;
        proof {
            assert(Map::<Seq<u8>, LogPos>::empty().dom() =~= Map::<
                Seq<u8>,
                Seq<u8>,
            >::empty().dom());
        }
        while done < n
            invariant
                idx.wf(),
                n == sorted@.len(),
                done <= n,
                rest@ == sorted@.skip(done as int),
                dfv@.len() == done,
                forall|i: int, j: int|
                    0 <= i < j < sorted@.len() ==> (#[trigger] sorted@[i]).0 < (#[trigger] sorted@[j]).0,
                forall|i: int|
                    0 <= i < done ==> {
                        let df = #[trigger] dfv@[i];
                        &&& df.wf()
                        &&& df.fid == sorted@[i].0
                        &&& scan_from(sorted@[i].1@, 0) is Some
                        &&& df.records() == scan_from(sorted@[i].1@, 0)->Some_0.0
                        &&& df.bytes() == sorted@[i].1@.subrange(
                            0,
                            scan_from(sorted@[i].1@, 0)->Some_0.1 as int,
                        )
                    },
                replay_inv(dfv@.map_values(|d: DataFile| (d.fid, d.bytes())), idx@, model),
                model == replay_recs(Map::empty(), recs_of_segs(dfv@)),
            decreases n - done,
        {
            let ghost files = dfv@.map_values(|d: DataFile| (d.fid, d.bytes()));
            let ghost prev_dfv = dfv@;
            let (fid, bytes) = rest.remove(0);
            proof {
                assert(sorted@.skip(done as int)[0] == sorted@[done as int]);
                assert(rest@ =~= sorted@.skip(done + 1));
            }
            match Self::replay_segment(fid, bytes, idx, Ghost(files), Ghost(model)) {
                Err(e) => {
                    proof {
                        assert(bytes@ == sorted@[done as int].1@);
                        assert(scan_from((#[trigger] sorted@[done as int]).1@, 0) is None);
                    }
                    return Err(Error::CorruptRecord);
                },
                Ok((df, gm)) => {
                    proof {
                        model = gm@;
                    }
                    dfv.push(df);
                    proof {
                        lemma_recs_of_segs_push(prev_dfv, df);
                        crate::meta::lemma_replay_concat(
                            Map::empty(),
                            recs_of_segs(prev_dfv),
                            df.records(),
                        );
                        assert(dfv@.map_values(|d: DataFile| (d.fid, d.bytes())) =~= files.push(
                            (fid, df.bytes()),
                        ));
                    }
                    done = done + 1;
                },
            }
        }
        Ok((dfv, Ghost(model)))
    }

    /// A fresh store: one empty segment with id zero and nothing live.
    fn open_fresh(opts: Options, idx: BTreeIndex) -> (r: DB)
        requires
            opts.valid(),
            idx.wf(),
            idx@ == Map::<Seq<u8>, LogPos>::empty(),
        ensures
            r.wf(),
            r.max_file_size_spec() == opts.max_file_size,
            r.sync_write_spec() == opts.sync_write,
            r.active_fid() == 0,
            r.older_len() == 0,
            r.active_size() == 0,
            r@ =~= Map::<Seq<u8>, Seq<u8>>::empty(),
    {
        let active = DataFile::new(0);
        let db = DB {
            sync_write: opts.sync_write,
            max_file_size: opts.max_file_size,
            dir_path: opts.dir_path,
            active_file: active,
            older_files: Vec::new(),
            index: idx,
            model: Ghost(Map::empty()),
        };
        proof {
            assert(db.segs() =~= Seq::<DataFile>::empty().push(db.active_file));
            lemma_recs_of_segs_push(Seq::<DataFile>::empty(), db.active_file);
            assert(recs_of_segs(Seq::<DataFile>::empty()) == Seq::<RecM>::empty());
            assert(db.all_recs() =~= Seq::<RecM>::empty());
            assert(db.index@.dom() =~= db.model@.dom());
        }
        db
    }

    /// Open an engine over the given segments — each an id and the raw
    /// bytes of its data file.  Replays every record of every segment in
    /// ascending id order to rebuild the index; the segment with the
    /// greatest id becomes active.  An empty list opens a fresh store with
    /// one empty segment, id zero.
    #[verifier::rlimit(100)]
    #[verifier::spinoff_prover]
    pub fn open(opts: Options, segs: Vec<(Fid, Vec<u8>)>) -> (r: Result<DB, Error>)
        requires
            forall|i: int, j: int|
                0 <= i < j < segs@.len() ==> (#[trigger] segs@[i]).0 != (#[trigger] segs@[j]).0,
        ensures
            !opts.valid() ==> r == Err::<DB, Error>(Error::InvalidOptions),
            opts.valid() ==> (match r {
                Ok(db) => {
                    &&& db.wf()
                    &&& db.max_file_size_spec() == opts.max_file_size
                    &&& db.sync_write_spec() == opts.sync_write
                    &&& (forall|i: int|
                        0 <= i < segs@.len() ==> scan_from((#[trigger] segs@[i]).1@, 0) is Some)
                    &&& (segs@.len() == 0 ==> db.active_fid() == 0 && db.older_len() == 0 && db@
                        =~= Map::<Seq<u8>, Seq<u8>>::empty() && db.active_size() == 0)
                    &&& (segs@.len() > 0 ==> db.older_len() + 1 == segs@.len() && (forall|i: int|
                        0 <= i < segs@.len() ==> {
                            let f = #[trigger] segs@[i];
                            &&& db.has_fid(f.0)
                            &&& f.0 <= db.active_fid()
                            &&& db.recs_of_fid(f.0) == scan_from(f.1@, 0)->Some_0.0
                            &&& db.bytes_of_fid(f.0) == f.1@.subrange(
                                0,
                                scan_from(f.1@, 0)->Some_0.1 as int,
                            )
                        }) && (exists|i: int|
                        0 <= i < segs@.len() && (#[trigger] segs@[i]).0 == db.active_fid()))
                    &&& (segs@.len() > 0 && fids_ascending(segs@) ==> forall|i: int|
                        0 <= i < segs@.len() ==> (#[trigger] db.files_model()[i]).0 == segs@[i].0)
                },
                Err(e) => e == Error::CorruptRecord && (exists|i: int|
                    0 <= i < segs@.len() && scan_from((#[trigger] segs@[i]).1@, 0) is None),
            }),
            opts.valid() && (exists|i: int|
                0 <= i < segs@.len() && scan_from((#[trigger] segs@[i]).1@, 0) is None) ==> r
                == Err::<DB, Error>(Error::CorruptRecord),
    {
        if !opts.validate() {
            return Err(Error::InvalidOptions);
        }
        let mut idx = Self::index_type_to_indexer(&opts.index_type);
        if segs.len() == 0 {
            return Ok(Self::open_fresh(opts, idx));
        }
        let sorted = if check_fids_ascending(&segs) {
            segs
        } else {
            sort_by_fid(segs)
        };
        proof {
            assert(segs@.to_multiset() == sorted@.to_multiset());
            lemma_ms_corr(segs@, sorted@);
        }
        match Self::replay_all(sorted, &mut idx) {
            Err(_) => {
                proof {
                    let j = choose|j: int|
                        0 <= j < sorted@.len() && scan_from((#[trigger] sorted@[j]).1@, 0) is None;
                    assert(segs@.contains(sorted@[j]));
                    let i = choose|i: int| 0 <= i <= segs@.len() - 1 && segs@[i] == sorted@[j];
                    assert(scan_from((#[trigger] segs@[i]).1@, 0) is None);
                }
                Err(Error::CorruptRecord)
            },
            Ok((mut dfv, gm)) => {
                let ghost dfv_before = dfv@;
                let active = match dfv.pop() {
                    Some(df) => df,
                    None => {
                        proof {
                            assert(false);
                        }
                        return Err(Error::InvalidOptions);
                    },
                };
                let db = DB {
                    sync_write: opts.sync_write,
                    max_file_size: opts.max_file_size,
                    dir_path: opts.dir_path,
                    active_file: active,
                    older_files: dfv,
                    index: idx,
                    model: gm,
                };
                proof {
                    assert(db.older_files@.push(db.active_file) =~= dfv_before);
                    assert(run_facts(db, sorted@));
                    lemma_open_wf(db, sorted@);
                    lemma_open_input(db, sorted@, segs@);
                    if fids_ascending(segs@) {
                        assert(sorted@ == segs@);
                        assert(db.segs() =~= dfv_before);
                        assert forall|i: int| 0 <= i < segs@.len() implies (
                        #[trigger] db.files_model()[i]).0 == segs@[i].0 by {
                            assert(db.segs()[i] == dfv_before[i]);
                        }
                    }
                }
                Ok(db)
            },
        }
    }
}

} // verus!

verus! {

/// Two runs holding the same multiset of segments hold the same
/// segments: each element of one stands somewhere in the other.
proof fn lemma_ms_corr(a: Seq<(Fid, Vec<u8>)>, b: Seq<(Fid, Vec<u8>)>)
    requires
        a.to_multiset() == b.to_multiset(),
    ensures
        forall|i: int| 0 <= i < a.len() ==> b.contains(#[trigger] a[i]),
        forall|j: int| 0 <= j < b.len() ==> a.contains(#[trigger] b[j]),
{
    a.to_multiset_ensures();
    b.to_multiset_ensures();
    assert forall|i: int| 0 <= i < a.len() implies b.contains(#[trigger] a[i]) by {
        assert(a.contains(a[i]));
        assert(a.to_multiset().count(a[i]) > 0);
        assert(b.to_multiset().count(a[i]) > 0);
    }
    assert forall|j: int| 0 <= j < b.len() implies a.contains(#[trigger] b[j]) by {
        assert(b.contains(b[j]));
        assert(b.to_multiset().count(b[j]) > 0);
        assert(a.to_multiset().count(b[j]) > 0);
    }
}

/// The facts the replay loop leaves behind, over the rebuilt run
/// `fin = older + [active]` and the sorted input.
spec fn run_facts(db: DB, sor: Seq<(Fid, Vec<u8>)>) -> bool {
    let fin = db.older_files@.push(db.active_file);
    &&& db.max_file_size > 0
    &&& db.index.wf()
    &&& sor.len() >= 1
    &&& db.older_files@.len() == sor.len() - 1
    &&& (forall|i: int|
        0 <= i < sor.len() ==> {
            let df = #[trigger] fin[i];
            &&& df.wf()
            &&& df.fid == sor[i].0
            &&& scan_from(sor[i].1@, 0) is Some
            &&& df.records() == scan_from(sor[i].1@, 0)->Some_0.0
            &&& df.bytes() == sor[i].1@.subrange(0, scan_from(sor[i].1@, 0)->Some_0.1 as int)
        })
    &&& replay_inv(fin.map_values(|d: DataFile| (d.fid, d.bytes())), db.index@, db.model@)
    &&& db.model@ == replay_recs(Map::empty(), recs_of_segs(fin))
    &&& (forall|i: int, j: int|
        0 <= i < j < sor.len() ==> (#[trigger] sor[i]).0 < (#[trigger] sor[j]).0)
}

/// After the last segment of a replay has been rebuilt, the assembled
/// engine satisfies its invariant.
#[verifier::rlimit(100)]
proof fn lemma_open_wf(db: DB, sor: Seq<(Fid, Vec<u8>)>)
    requires
        run_facts(db, sor),
    ensures
        db.wf(),
{
    let fin = db.older_files@.push(db.active_file);
    let active = db.active_file;
    assert(db.segs() =~= fin);
    assert(db.all_recs() == recs_of_segs(fin));
    assert(fin[fin.len() - 1] == active);
    assert forall|i: int| 0 <= i < db.older_files@.len() implies (
    #[trigger] db.older_files@[i]).fid < active.fid by {
        assert(fin[i] == db.older_files@[i]);
        assert(sor[i].0 < sor[sor.len() - 1].0);
    }
    assert forall|i: int, j: int| 0 <= i < j < db.older_files@.len() implies (
    #[trigger] db.older_files@[i]).fid < (#[trigger] db.older_files@[j]).fid by {
        assert(fin[i] == db.older_files@[i]);
        assert(fin[j] == db.older_files@[j]);
    }
    assert forall|i: int| 0 <= i < db.older_files@.len() implies (
    #[trigger] db.older_files@[i]).wf() by {
        assert(fin[i] == db.older_files@[i]);
    }
    assert forall|k: Seq<u8>| #[trigger] db.model@.dom().contains(k) implies k.len() > 0
        && db.index@[k].fid <= u32::MAX && db.pos_ok(k) by {
        let p = db.index@[k];
        let files = fin.map_values(|d: DataFile| (d.fid, d.bytes()));
        assert(entry_live(files, k, p, db.model@[k]));
        let i = choose|i: int|
            0 <= i < files.len() && (#[trigger] files[i]).0 == p.fid && rec_at_ok(
                files[i].1,
                p.offset as nat,
                k,
                db.model@[k],
                files[i].1.len(),
            );
        if i == fin.len() - 1 {
            assert(fin[i] == active);
            assert(db.seg_of(p.fid) == db.active_file);
        } else {
            assert(db.older_files@[i] == fin[i]);
            db.lemma_seg_of_older_order(i);
            assert(db.seg_of(p.fid) == fin[i]);
            assert(db.has_fid(p.fid));
        }
    }
    assert(db.index@.dom() =~= db.model@.dom());
}

/// The open-time contract over the segments in their original order.
#[verifier::rlimit(100)]
proof fn lemma_open_input(db: DB, sor: Seq<(Fid, Vec<u8>)>, input: Seq<(Fid, Vec<u8>)>)
    requires
        run_facts(db, sor),
        db.wf(),
        input.len() == sor.len(),
        forall|i: int| 0 <= i < input.len() ==> sor.contains(#[trigger] input[i]),
        forall|j: int| 0 <= j < sor.len() ==> input.contains(#[trigger] sor[j]),
    ensures
        forall|i: int| 0 <= i < input.len() ==> scan_from((#[trigger] input[i]).1@, 0) is Some,
        db.older_len() + 1 == input.len(),
        forall|i: int|
            0 <= i < input.len() ==> {
                let f = #[trigger] input[i];
                &&& db.has_fid(f.0)
                &&& f.0 <= db.active_fid()
                &&& db.recs_of_fid(f.0) == scan_from(f.1@, 0)->Some_0.0
                &&& db.bytes_of_fid(f.0) == f.1@.subrange(0, scan_from(f.1@, 0)->Some_0.1 as int)
            },
        exists|i: int| 0 <= i < input.len() && (#[trigger] input[i]).0 == db.active_fid(),
{
    let fin = db.older_files@.push(db.active_file);
    assert(fin[fin.len() - 1] == db.active_file);
    assert forall|i: int| 0 <= i < input.len() implies scan_from(
        (#[trigger] input[i]).1@,
        0,
    ) is Some by {
        assert(sor.contains(input[i]));
        let j = choose|j: int| 0 <= j <= sor.len() - 1 && sor[j] == input[i];
        assert((#[trigger] fin[j]).wf());
        assert(scan_from(sor[j].1@, 0) is Some);
    }
    assert forall|i: int| 0 <= i < input.len() implies {
        let f = #[trigger] input[i];
        &&& db.has_fid(f.0)
        &&& f.0 <= db.active_fid()
        &&& db.recs_of_fid(f.0) == scan_from(f.1@, 0)->Some_0.0
        &&& db.bytes_of_fid(f.0) == f.1@.subrange(0, scan_from(f.1@, 0)->Some_0.1 as int)
    } by {
        assert(sor.contains(input[i]));
        let j = choose|j: int| 0 <= j <= sor.len() - 1 && sor[j] == input[i];
        assert((#[trigger] fin[j]).wf());
        let df = fin[j];
        if j == fin.len() - 1 {
            assert(db.seg_of(df.fid) == db.active_file);
            assert(db.has_fid(df.fid));
        } else {
            assert(db.older_files@[j] == fin[j]);
            db.lemma_seg_of_older_order(j);
        }
        if j < fin.len() - 1 {
            assert(sor[j].0 < sor[sor.len() - 1].0);
        }
        assert(db.seg_of(df.fid) == df);
        assert(df.records() == scan_from(sor[j].1@, 0)->Some_0.0);
        assert(input[i].1 == sor[j].1);
    }
    assert(input.contains(sor[sor.len() - 1]));
    let wit = choose|i: int| 0 <= i <= input.len() - 1 && input[i] == sor[sor.len() - 1];
    assert((#[trigger] input[wit]).0 == db.active_fid());
}

} // verus!

verus! {

impl DB {
    /// Export the resident segments: each id with a copy of its bytes, in
    /// ascending id order with the active segment last.  Handing these to
    /// `open` restores the same visible state.
    pub fn segment_contents(&self) -> (r: Vec<(Fid, Vec<u8>)>)
        requires
            self.wf(),
        ensures
            r@.len() == self.files_model().len(),
            r@.len() >= 1,
            forall|i: int|
                0 <= i < r@.len() ==> (#[trigger] r@[i]).0 == self.files_model()[i].0
                    && r@[i].1@ == self.files_model()[i].1,
            forall|i: int, j: int| 0 <= i < j < r@.len() ==> (#[trigger] r@[i]).0 < (#[trigger] r@[j]).0,
    {
        let n = self.older_files.len();
        let mut out: Vec<(Fid, Vec<u8>)> = Vec::new();
        let mut i: usize = 0;
        while i < n
            invariant
                self.wf(),
                i <= n,
                n == self.older_files@.len(),
                out@.len() == i,
                forall|m: int|
                    0 <= m < i ==> (#[trigger] out@[m]).0 == self.older_files@[m].fid
                        && out@[m].1@ == self.older_files@[m].bytes(),
            decreases n - i,
        {
            let f = &self.older_files[i];
            let bytes = crate::index::clone_bytes(f.io.borrow_all());
            out.push((f.fid(), bytes));
            i = i + 1;
        }
        let bytes = crate::index::clone_bytes(self.active_file.io.borrow_all());
        out.push((self.active_file.fid(), bytes));
        proof {
            assert(self.segs() =~= self.older_files@.push(self.active_file));
            assert forall|a: int| 0 <= a < out@.len() implies (#[trigger] out@[a]).0
                == self.files_model()[a].0 && out@[a].1@ == self.files_model()[a].1 by {
                if a < n {
                    assert(self.segs()[a] == self.older_files@[a]);
                } else {
                    assert(self.segs()[a] == self.active_file);
                }
            }
            assert forall|a: int, b: int| 0 <= a < b < out@.len() implies (#[trigger] out@[a]).0
                < (#[trigger] out@[b]).0 by {
                if b < n {
                } else {
                    assert(out@[b].0 == self.active_file.fid);
                }
            }
        }
        out
    }
}

/// Segment runs holding the same records, segment by segment, hold the
/// same records overall.
proof fn lemma_recs_of_segs_eq(s1: Seq<DataFile>, s2: Seq<DataFile>)
    requires
        s1.len() == s2.len(),
        forall|i: int| 0 <= i < s1.len() ==> (#[trigger] s1[i]).records() == s2[i].records(),
    ensures
        recs_of_segs(s1) == recs_of_segs(s2),
    decreases s1.len(),
{
    if s1.len() > 0 {
        assert(s1[0].records() == s2[0].records());
        assert forall|i: int| 0 <= i < s1.skip(1).len() implies (
        #[trigger] s1.skip(1)[i]).records() == s2.skip(1)[i].records() by {
            assert(s1[i + 1].records() == s2[i + 1].records());
        }
        lemma_recs_of_segs_eq(s1.skip(1), s2.skip(1));
    }
}

/// Two well-formed engines over the same segment bytes show the same
/// visible state: what a directory holds determines what a reopened store
/// answers, whatever the history that wrote it.
pub proof fn lemma_reopen(db1: DB, db2: DB)
    requires
        db1.wf(),
        db2.wf(),
        db1.files_model() == db2.files_model(),
    ensures
        db1@ == db2@,
{
    assert(db1.files_model().len() == db1.segs().len());
    assert(db2.files_model().len() == db2.segs().len());
    assert(db1.segs().len() == db2.segs().len());
    assert forall|i: int| 0 <= i < db1.segs().len() implies (#[trigger] db1.segs()[i]).records()
        == db2.segs()[i].records() by {
        let d1 = db1.segs()[i];
        let d2 = db2.segs()[i];
        assert(db1.files_model()[i] == db2.files_model()[i]);
        assert(db1.files_model()[i] == (d1.fid, d1.bytes()));
        assert(db2.files_model()[i] == (d2.fid, d2.bytes()));
        assert(d1.bytes() == d2.bytes());
        assert(d1.wf() && d2.wf()) by {
            if i < db1.older_files@.len() {
                assert(db1.segs()[i] == db1.older_files@[i]);
            } else {
                assert(db1.segs()[i] == db1.active_file);
            }
            if i < db2.older_files@.len() {
                assert(db2.segs()[i] == db2.older_files@[i]);
            } else {
                assert(db2.segs()[i] == db2.active_file);
            }
        }
        crate::meta::lemma_parse_eof(d1.bytes(), d1.bytes().len());
        crate::meta::lemma_parses_scan(d1.bytes(), 0, d1.records(), d1.bytes().len());
        crate::meta::lemma_parses_scan(d2.bytes(), 0, d2.records(), d2.bytes().len());
    }
    lemma_recs_of_segs_eq(db1.segs(), db2.segs());
    assert(db1.all_recs() == db2.all_recs());
}

/// The active segment carries the greatest id of any resident segment,
/// and stands last in the exported run.
pub proof fn lemma_active_fid_is_max(db: DB)
    requires
        db.wf(),
    ensures
        forall|i: int|
            0 <= i < db.files_model().len() ==> (#[trigger] db.files_model()[i]).0
                <= db.active_fid(),
        db.files_model()[db.files_model().len() - 1].0 == db.active_fid(),
{
    assert forall|i: int| 0 <= i < db.files_model().len() implies (
    #[trigger] db.files_model()[i]).0 <= db.active_fid() by {
        if i < db.older_files@.len() {
            assert(db.segs()[i] == db.older_files@[i]);
        } else {
            assert(db.segs()[i] == db.active_file);
        }
    }
    assert(db.segs()[db.segs().len() - 1] == db.active_file);
}

/// Deleting a key twice leaves the same state as deleting it once; with
/// `delete`'s contract, two successive `delete` calls on one key end in
/// the state one call reaches.
pub proof fn lemma_delete_idempotent(m: Map<Seq<u8>, Seq<u8>>, k: Seq<u8>)
    ensures
        m.remove(k).remove(k) == m.remove(k),
{
    assert(m.remove(k).remove(k) =~= m.remove(k));
}

/// The last write wins: with `put`'s contract, writing `v1` then `v2`
/// under one key leaves the state that writing `v2` alone leaves, and a
/// `get` then answers `v2`.
pub proof fn lemma_put_last_wins(m: Map<Seq<u8>, Seq<u8>>, k: Seq<u8>, v1: Seq<u8>, v2: Seq<u8>)
    ensures
        m.insert(k, v1).insert(k, v2) == m.insert(k, v2),
        m.insert(k, v1).insert(k, v2)[k] == v2,
{
    assert(m.insert(k, v1).insert(k, v2) =~= m.insert(k, v2));
}

} // verus!

verus! {

impl DB {
    /// A snapshot iterator over the visible state: only keys that start
    /// with `opt.prefix` (every key, when the prefix is empty), each paired
    /// with its current value.
    pub fn iter(&self, opt: IndexOpt) -> (r: crate::iter::Iter)
        requires
            self.wf(),
        ensures
            r.pos_spec() == 0,
            r.items_seq() == self.iter_expected(opt.reverse, opt.prefix@),
            forall|i: int|
                0 <= i < r.items_seq().len() ==> {
                    let e = #[trigger] r.items_seq()[i];
                    &&& self@.dom().contains(e.0)
                    &&& e.1 == self@[e.0]
                    &&& crate::index::is_prefix(opt.prefix@, e.0)
                },
    {
        proof {
            self.lemma_index_entries_live();
        }
        let mut it = self.index.iter(opt);
        let ghost es = self.index_entries();
        proof {
            if it.reverse_spec() {
                assert forall|i: int| 0 <= i < it.snapshot().len() implies es.contains(
                    #[trigger] it.snapshot()[i],
                ) by {
                    assert(it.snapshot()[i] == es[es.len() - 1 - i]);
                }
            } else {
                assert forall|i: int| 0 <= i < it.snapshot().len() implies es.contains(
                    #[trigger] it.snapshot()[i],
                ) by {
                    assert(it.snapshot()[i] == es[i]);
                }
            }
        }
        let ghost target = self.iter_expected(opt.reverse, opt.prefix@);
        proof {
            assert(it.snapshot() =~= self.iter_snapshot(opt.reverse));
            assert(it.snapshot().skip(0) =~= it.snapshot());
            assert(it.remaining() == self.iter_snapshot(opt.reverse).filter(
                crate::index::prefix_pred(opt.prefix@),
            ));
            assert(Seq::<(Seq<u8>, Seq<u8>)>::empty() + it.remaining().map_values(
                live_pair(self.model@),
            ) =~= target);
        }
        let mut items: Vec<(Vec<u8>, Vec<u8>)> = Vec::new();
        proof {
            assert(pair_views(items@) =~= Seq::<(Seq<u8>, Seq<u8>)>::empty());
        }
        loop
            invariant
                self.wf(),
                it.wf(),
                es == self.index_entries(),
                forall|i: int|
                    0 <= i < it.snapshot().len() ==> es.contains(#[trigger] it.snapshot()[i]),
                it.prefix_spec() == opt.prefix@,
                target == self.iter_expected(opt.reverse, opt.prefix@),
                pair_views(items@) + it.remaining().map_values(live_pair(self.model@)) == target,
                forall|i: int|
                    0 <= i < items@.len() ==> {
                        let e = #[trigger] items@[i];
                        &&& self@.dom().contains(e.0@)
                        &&& e.1@ == self@[e.0@]
                        &&& crate::index::is_prefix(opt.prefix@, e.0@)
                    },
            ensures
                it.remaining().len() == 0,
            decreases it.remaining().len(),
        {
            let ghost rem = it.remaining();
            let ghost it0 = it;
            match it.next() {
                None => {
                    break ;
                },
                Some((key, p)) => {
                    proof {
                        assert(rem[0] == (key@, p));
                        self.lemma_yield_live(es, rem, it0, key@, p);
                    }
                    match self.get_record(&key) {
                        Ok(Some(lr)) => {
                            let ghost prev_items = items@;
                            let ghost value_view = lr.value@;
                            items.push((key, lr.value));
                            proof {
                                assert(pair_views(items@) =~= pair_views(prev_items).push(
                                    (rem[0].0, value_view),
                                ));
                                assert(live_pair(self.model@)(rem[0]) == (rem[0].0, value_view));
                                assert(rem.map_values(live_pair(self.model@)) =~= seq![
                                    live_pair(self.model@)(rem[0]),
                                ] + rem.skip(1).map_values(live_pair(self.model@)));
                                assert(it.remaining() == rem.skip(1));
                                assert(pair_views(items@) + it.remaining().map_values(
                                    live_pair(self.model@),
                                ) =~= pair_views(prev_items) + rem.map_values(
                                    live_pair(self.model@),
                                ));
                            }
                        },
                        _ => {
                            proof {
                                assert(false);
                            }
                        },
                    }
                },
            }
        }
        proof {
            assert(it.remaining().map_values(live_pair(self.model@)) =~= Seq::<
                (Seq<u8>, Seq<u8>),
            >::empty());
            assert(pair_views(items@) + it.remaining().map_values(live_pair(self.model@))
                =~= pair_views(items@));
            assert(pair_views(items@) == target);
        }
        let r = crate::iter::Iter::from_items(items);
        proof {
            assert(r.items_seq() =~= pair_views(items@));
            assert(r.items_seq() == self.iter_expected(opt.reverse, opt.prefix@));
            assert forall|i: int| 0 <= i < r.items_seq().len() implies {
                let e = #[trigger] r.items_seq()[i];
                &&& self@.dom().contains(e.0)
                &&& e.1 == self@[e.0]
                &&& crate::index::is_prefix(opt.prefix@, e.0)
            } by {
                assert(r.items_seq()[i] == (items@[i].0@, items@[i].1@));
            }
        }
        r
    }

    /// The index entries as plain values.
    pub closed spec fn index_entries(self) -> Seq<(Seq<u8>, crate::meta::LogPos)> {
        self.index.entries_seq()
    }

    /// Every index entry names a live key of the visible state.
    proof fn lemma_index_entries_live(self)
        requires
            self.wf(),
        ensures
            forall|i: int|
                0 <= i < self.index_entries().len() ==> {
                    let e = #[trigger] self.index_entries()[i];
                    self@.dom().contains(e.0)
                },
    {
        self.index.lemma_entries();
        assert forall|i: int| 0 <= i < self.index_entries().len() implies {
            let e = #[trigger] self.index_entries()[i];
            self@.dom().contains(e.0)
        } by {
            assert(self.index@.contains_pair(
                self.index.entries_seq()[i].0,
                self.index.entries_seq()[i].1,
            ));
        }
    }

    /// A pair yielded by the snapshot names a live key that starts with
    /// the prefix.
    proof fn lemma_yield_live(
        self,
        es: Seq<(Seq<u8>, crate::meta::LogPos)>,
        rem: Seq<(Seq<u8>, crate::meta::LogPos)>,
        it: crate::index::BTreeIndexIter,
        k: Seq<u8>,
        p: crate::meta::LogPos,
    )
        requires
            self.wf(),
            it.wf(),
            es == self.index_entries(),
            rem == it.remaining(),
            rem.len() > 0,
            rem[0] == (k, p),
            forall|i: int|
                0 <= i < it.snapshot().len() ==> es.contains(#[trigger] it.snapshot()[i]),
        ensures
            self@.dom().contains(k),
            crate::index::is_prefix(it.prefix_spec(), k),
    {
        let pred = crate::index::prefix_pred(it.prefix_spec());
        let tail = it.snapshot().skip(it.pos_spec() as int);
        tail.lemma_filter_pred(pred, 0);
        assert(crate::index::is_prefix(it.prefix_spec(), k));
        assert(rem.contains(rem[0]));
        tail.lemma_filter_contains_rev(pred, rem[0]);
        assert(tail.contains(rem[0]));
        let i = choose|i: int| 0 <= i <= tail.len() - 1 && tail[i] == rem[0];
        assert(tail[i] == it.snapshot()[i + it.pos_spec()]);
        assert(es.contains(#[trigger] it.snapshot()[i + it.pos_spec()]));
        assert(es.contains(rem[0]));
        let j = choose|j: int| 0 <= j <= es.len() - 1 && es[j] == rem[0];
        self.lemma_index_entries_live();
        assert(self@.dom().contains(es[j].0));
    }
}

} // verus!

verus! {

impl DB {
    /// The id of the active segment: the one new appends go to.
    pub fn active_file_id(&self) -> (r: Fid)
        ensures
            r == self.active_fid(),
    {
        self.active_file.fid()
    }
}

/// Reopening what a store exported restores its visible state: if `db2`
/// came out of `open` over `db1.segment_contents()`, the clauses `open`
/// ensures — position-for-position ids, and per id the scanned records
/// and sentinel-cut bytes — force `db2` to show exactly `db1`'s state.
/// With `put`'s and `delete`'s contracts this is the reopen law: after any
/// sequence of mutations, the post-reopen reads equal the pre-reopen ones.
pub proof fn lemma_reopen_restores(db1: DB, db2: DB)
    requires
        db1.wf(),
        db2.wf(),
        db2.older_len() + 1 == db1.files_model().len(),
        forall|i: int|
            0 <= i < db1.files_model().len() ==> {
                let f = #[trigger] db1.files_model()[i];
                &&& db2.files_model()[i].0 == f.0
                &&& scan_from(f.1, 0) is Some
                &&& db2.recs_of_fid(f.0) == scan_from(f.1, 0)->Some_0.0
                &&& db2.bytes_of_fid(f.0) == f.1.subrange(0, scan_from(f.1, 0)->Some_0.1 as int)
            },
    ensures
        db2@ == db1@,
{
    assert(db1.files_model().len() == db1.segs().len());
    assert(db2.files_model().len() == db2.segs().len());
    assert(db2.segs().len() == db1.segs().len());
    assert forall|i: int| 0 <= i < db1.segs().len() implies (#[trigger] db2.files_model()[i])
        == db1.files_model()[i] by {
        let d1 = db1.segs()[i];
        assert(db1.files_model()[i] == (d1.fid, d1.bytes()));
        assert(d1.wf()) by {
            if i < db1.older_files@.len() {
                assert(db1.segs()[i] == db1.older_files@[i]);
            } else {
                assert(db1.segs()[i] == db1.active_file);
            }
        }
        // a clean segment scans to its own records, ending at its very end
        crate::meta::lemma_parse_eof(d1.bytes(), d1.bytes().len());
        crate::meta::lemma_parses_scan(d1.bytes(), 0, d1.records(), d1.bytes().len());
        assert(scan_from(d1.bytes(), 0) == Some((d1.records(), d1.bytes().len())));
        assert(d1.bytes().subrange(0, d1.bytes().len() as int) =~= d1.bytes());
        // db2's segment at the same position carries the same id ...
        let d2 = db2.segs()[i];
        assert(db2.files_model()[i] == (d2.fid, d2.bytes()));
        assert(d2.fid == d1.fid);
        // ... and resolving that id in db2 lands on that very segment
        if i < db2.older_files@.len() {
            assert(db2.segs()[i] == db2.older_files@[i]);
            db2.lemma_seg_of_older_order(i);
        } else {
            assert(db2.segs()[i] == db2.active_file);
            assert(db2.seg_of(d2.fid) == db2.active_file);
        }
        assert(db2.bytes_of_fid(d1.fid) == d2.bytes());
        assert(d2.bytes() == d1.bytes());
    }
    assert(db2.files_model() =~= db1.files_model());
    lemma_reopen(db1, db2);
}

} // verus!

verus! {

/// Entry pairs as plain values.
pub open spec fn pair_views(s: Seq<(Vec<u8>, Vec<u8>)>) -> Seq<(Seq<u8>, Seq<u8>)> {
    s.map_values(|e: (Vec<u8>, Vec<u8>)| (e.0@, e.1@))
}

/// Pair an entry's key with its visible value under `m`.
pub open spec fn live_pair(m: Map<Seq<u8>, Seq<u8>>) -> spec_fn((Seq<u8>, LogPos)) -> (
    Seq<u8>,
    Seq<u8>,
) {
    |e: (Seq<u8>, LogPos)| (e.0, m[e.0])
}

impl DB {
    /// The index entries in iteration order: ascending by key, or
    /// descending in reverse mode.
    pub closed spec fn iter_snapshot(self, reverse: bool) -> Seq<(Seq<u8>, LogPos)> {
        if reverse {
            Seq::new(
                self.index.entries_seq().len(),
                |i: int| self.index.entries_seq()[self.index.entries_seq().len() - 1 - i],
            )
        } else {
            self.index.entries_seq()
        }
    }

    /// What an iterator over this engine must yield: the snapshot in
    /// iteration order, keys filtered by the prefix, each paired with its
    /// visible value.
    pub closed spec fn iter_expected(self, reverse: bool, prefix: Seq<u8>) -> Seq<
        (Seq<u8>, Seq<u8>),
    > {
        self.iter_snapshot(reverse).filter(crate::index::prefix_pred(prefix)).map_values(
            live_pair(self.model@),
        )
    }
}

/// A filter of a run ordered by keys stays ordered: the kept entries keep
/// their relative places.
proof fn lemma_filter_sorted(
    s: Seq<(Seq<u8>, LogPos)>,
    pred: spec_fn((Seq<u8>, LogPos)) -> bool,
    rev: bool,
)
    requires
        !rev ==> crate::index::sorted_asc(s),
        rev ==> crate::index::sorted_desc(s),
    ensures
        !rev ==> crate::index::sorted_asc(s.filter(pred)),
        rev ==> crate::index::sorted_desc(s.filter(pred)),
    decreases s.len(),
{
    reveal(Seq::filter);
    if s.len() > 0 {
        let d = s.drop_last();
        assert forall|i: int, j: int| 0 <= i < j < d.len() implies (!rev ==> crate::index::lex_lt(
            (#[trigger] d[i]).0,
            (#[trigger] d[j]).0,
        )) && (rev ==> crate::index::lex_lt(d[j].0, d[i].0)) by {
            assert(d[i] == s[i] && d[j] == s[j]);
        }
        lemma_filter_sorted(d, pred, rev);
        let fd = d.filter(pred);
        assert forall|i: int| 0 <= i < fd.len() implies (!rev ==> crate::index::lex_lt(
            (#[trigger] fd[i]).0,
            s.last().0,
        )) && (rev ==> crate::index::lex_lt(s.last().0, fd[i].0)) by {
            assert(fd.contains(fd[i]));
            d.lemma_filter_contains_rev(pred, fd[i]);
            assert(d.contains(fd[i]));
            let j = choose|j: int| 0 <= j <= d.len() - 1 && d[j] == fd[i];
            assert(s[j] == fd[i]);
            assert(s.last() == s[s.len() - 1]);
        }
        if pred(s.last()) {
            assert(s.filter(pred) == fd + seq![s.last()]);
        } else {
            assert(s.filter(pred) == fd + Seq::<(Seq<u8>, LogPos)>::empty());
            assert(s.filter(pred) =~= fd);
        }
    }
}

impl DB {
    /// In iteration order the snapshot is strictly ordered, so the
    /// expected yield is too: ascending keys forward, descending in
    /// reverse, and therefore each key at most once.
    pub proof fn lemma_iter_expected_order(self, reverse: bool, prefix: Seq<u8>)
        requires
            self.wf(),
        ensures
            !reverse ==> forall|i: int, j: int|
                0 <= i < j < self.iter_expected(reverse, prefix).len()
                    ==> crate::index::lex_lt(
                    (#[trigger] self.iter_expected(reverse, prefix)[i]).0,
                    (#[trigger] self.iter_expected(reverse, prefix)[j]).0,
                ),
            reverse ==> forall|i: int, j: int|
                0 <= i < j < self.iter_expected(reverse, prefix).len()
                    ==> crate::index::lex_lt(
                    (#[trigger] self.iter_expected(reverse, prefix)[j]).0,
                    (#[trigger] self.iter_expected(reverse, prefix)[i]).0,
                ),
    {
        let snap = self.iter_snapshot(reverse);
        let es = self.index.entries_seq();
        self.index.lemma_entries();
        if reverse {
            assert forall|i: int, j: int| 0 <= i < j < snap.len() implies crate::index::lex_lt(
                (#[trigger] snap[j]).0,
                (#[trigger] snap[i]).0,
            ) by {
                assert(snap[i] == es[es.len() - 1 - i]);
                assert(snap[j] == es[es.len() - 1 - j]);
            }
        }
        lemma_filter_sorted(snap, crate::index::prefix_pred(prefix), reverse);
        let fs = snap.filter(crate::index::prefix_pred(prefix));
        assert forall|i: int| 0 <= i < self.iter_expected(reverse, prefix).len() implies (
        #[trigger] self.iter_expected(reverse, prefix)[i]).0 == fs[i].0 by {
        }
    }

    /// Every live key that starts with the prefix stands in the expected
    /// yield, paired with its value: iteration misses nothing.
    pub proof fn lemma_iter_expected_complete(self, reverse: bool, prefix: Seq<u8>)
        requires
            self.wf(),
        ensures
            forall|k: Seq<u8>|
                self@.dom().contains(k) && crate::index::is_prefix(prefix, k) ==> exists|i: int|
                    0 <= i < self.iter_expected(reverse, prefix).len()
                        && #[trigger] self.iter_expected(reverse, prefix)[i] == (k, self@[k]),
    {
        let snap = self.iter_snapshot(reverse);
        let es = self.index.entries_seq();
        let fs = snap.filter(crate::index::prefix_pred(prefix));
        self.index.lemma_entries();
        assert forall|k: Seq<u8>|
            self@.dom().contains(k) && crate::index::is_prefix(prefix, k) implies exists|i: int|
            0 <= i < self.iter_expected(reverse, prefix).len()
                && #[trigger] self.iter_expected(reverse, prefix)[i] == (k, self@[k]) by {
            let j = choose|j: int| 0 <= j < es.len() && (#[trigger] es[j]) == (k, self.index@[k]);
            let sj: int = if reverse {
                es.len() - 1 - j
            } else {
                j
            };
            assert(snap[sj] == es[j]);
            assert(crate::index::prefix_pred(prefix)(snap[sj]));
            snap.lemma_filter_contains(crate::index::prefix_pred(prefix), sj);
            assert(fs.contains(snap[sj]));
            let m = choose|m: int| 0 <= m <= fs.len() - 1 && fs[m] == snap[sj];
            assert(self.iter_expected(reverse, prefix)[m] == live_pair(self.model@)(fs[m]));
            assert(self.iter_expected(reverse, prefix)[m] == (k, self@[k]));
        }
    }
}

} // verus!

verus! {

/// Ten to the `k`.
pub open spec fn pow10(k: nat) -> nat
    decreases k,
{
    if k == 0 {
        1
    } else {
        10 * pow10((k - 1) as nat)
    }
}

pub proof fn lemma_pow10_pos(k: nat)
    ensures
        pow10(k) >= 1,
    decreases k,
{
    if k > 0 {
        lemma_pow10_pos((k - 1) as nat);
    }
}

/// The bytes of the `.data` suffix.
pub open spec fn data_suffix() -> Seq<u8> {
    seq![46u8, 100u8, 97u8, 116u8, 97u8]
}

/// The name ends in `.data`.
pub open spec fn is_data_name(n: Seq<u8>) -> bool {
    n.len() >= 5 && n.subrange(n.len() - 5, n.len() as int) == data_suffix()
}

/// Every byte is an ASCII decimal digit.
pub open spec fn all_digits(s: Seq<u8>) -> bool {
    forall|i: int| 0 <= i < s.len() ==> 48 <= #[trigger] s[i] <= 57
}

/// The number the digit bytes spell, most significant first.
pub open spec fn dec_val(s: Seq<u8>) -> int
    decreases s.len(),
{
    if s.len() == 0 {
        0
    } else {
        dec_val(s.drop_last()) * 10 + (s.last() - 48)
    }
}

/// The segment id a `.data` file name carries: its stem must be one or
/// more decimal digits spelling a value that fits a `Fid`.
pub open spec fn fid_of_data_name(n: Seq<u8>) -> Option<Fid> {
    let st = n.subrange(0, n.len() - 5);
    if st.len() >= 1 && all_digits(st) && 0 <= dec_val(st) <= u32::MAX {
        Some(dec_val(st) as u32)
    } else {
        None
    }
}

/// The on-disk name of a segment: its id as ten zero-padded decimal
/// digits, then `.data`.
pub open spec fn spec_data_file_name(fid: Fid) -> Seq<u8> {
    Seq::new(10, |i: int| (48 + (fid as nat / pow10((9 - i) as nat)) % 10) as u8) + data_suffix()
}

/// Render a segment id as its file name.
pub fn data_file_name(fid: Fid) -> (r: Vec<u8>)
    ensures
        r@ == spec_data_file_name(fid),
{
    let mut out: Vec<u8> = Vec::new();
    let mut p: u32 = 1000000000;
    proof {
        assert(pow10(9) == 1000000000) by {
            reveal_with_fuel(pow10, 10);
        }
    }
    let mut i: usize = 0;
    while i < 10
        invariant
            i <= 10,
            i < 10 ==> p == pow10((9 - i) as nat),
            out@.len() == i,
            forall|m: int|
                0 <= m < i ==> #[trigger] out@[m] == (48 + (fid as nat / pow10(
                    (9 - m) as nat,
                )) % 10) as u8,
        decreases 10 - i,
    {
        proof {
            lemma_pow10_pos((9 - i) as nat);
        }
        let d: u32 = (fid / p) % 10;
        out.push((48 + d) as u8);
        if i < 9 {
            proof {
                assert(pow10((9 - i) as nat) == 10 * pow10((8 - i) as nat));
                assert(p / 10 == pow10((8 - i) as nat)) by (nonlinear_arith)
                    requires
                        p == 10 * pow10((8 - i) as nat),
                ;
            }
            p = p / 10;
        }
        i = i + 1;
    }
    out.push(46);
    out.push(100);
    out.push(97);
    out.push(116);
    out.push(97);
    proof {
        assert(out@ =~= spec_data_file_name(fid));
    }
    out
}

/// Classify a directory entry's name: not a segment file, a segment file
/// with its id, or a segment file whose stem is not a valid id.
pub fn parse_data_file_name(name: &Vec<u8>) -> (r: Result<Option<Fid>, Error>)
    ensures
        !is_data_name(name@) ==> r == Ok::<Option<Fid>, Error>(None),
        is_data_name(name@) ==> (match fid_of_data_name(name@) {
            Some(f) => r == Ok::<Option<Fid>, Error>(Some(f)),
            None => r == Err::<Option<Fid>, Error>(Error::CorruptDirectory),
        }),
{
    let n = name.len();
    if n < 5 {
        return Ok(None);
    }
    let s0 = name[n - 5];
    let s1 = name[n - 4];
    let s2 = name[n - 3];
    let s3 = name[n - 2];
    let s4 = name[n - 1];
    if s0 != 46 || s1 != 100 || s2 != 97 || s3 != 116 || s4 != 97 {
        proof {
            assert(name@.subrange(n - 5, n as int)[0] == s0);
            assert(name@.subrange(n - 5, n as int)[1] == s1);
            assert(name@.subrange(n - 5, n as int)[2] == s2);
            assert(name@.subrange(n - 5, n as int)[3] == s3);
            assert(name@.subrange(n - 5, n as int)[4] == s4);
        }
        return Ok(None);
    }
    proof {
        assert(name@.subrange(n - 5, n as int) =~= data_suffix());
    }
    let stem_len = n - 5;
    let ghost st = name@.subrange(0, stem_len as int);
    proof {
        assert(is_data_name(name@));
    }
    if stem_len == 0 {
        proof {
            assert(name@.subrange(0, name@.len() - 5).len() == 0);
            assert(fid_of_data_name(name@) is None);
        }
        return Err(Error::CorruptDirectory);
    }
    let mut acc: u64 = 0;
    let mut big = false;
    let mut i: usize = 0;
    while i < stem_len
        invariant
            i <= stem_len,
            stem_len == n - 5,
            stem_len >= 1,
            n == name@.len(),
            is_data_name(name@),
            st == name@.subrange(0, stem_len as int),
            forall|m: int| 0 <= m < i ==> 48 <= #[trigger] name@[m] <= 57,
            0 <= dec_val(st.take(i as int)),
            !big ==> acc == dec_val(st.take(i as int)) && acc <= u32::MAX,
            big ==> dec_val(st.take(i as int)) > u32::MAX,
        decreases stem_len - i,
    {
        let c = name[i];
        if c < 48 || c > 57 {
            proof {
                assert(st[i as int] == name@[i as int]);
                assert(!all_digits(st));
            }
            return Err(Error::CorruptDirectory);
        }
        proof {
            assert(st.take(i + 1).drop_last() =~= st.take(i as int));
            assert(st.take(i + 1).last() == name@[i as int]);
            assert(dec_val(st.take(i + 1)) == dec_val(st.take(i as int)) * 10 + (c - 48));
        }
        if !big {
            let acc2: u64 = acc * 10 + ((c - 48) as u64);
            if acc2 > 0xffff_ffff {
                big = true;
            } else {
                acc = acc2;
            }
        }
        i = i + 1;
    }
    proof {
        assert(st.take(stem_len as int) =~= st);
        assert forall|m: int| 0 <= m < st.len() implies 48 <= #[trigger] st[m] <= 57 by {
            assert(st[m] == name@[m]);
        }
        assert(all_digits(st));
    }
    if big {
        Err(Error::CorruptDirectory)
    } else {
        Ok(Some(acc as u32))
    }
}

} // verus!

verus! {

/// A well-formed store's segments scan cleanly: replaying any of its
/// exported byte runs finds the sentinel exactly at the end, so `open`
/// over an export cannot answer `CorruptRecord`.
pub proof fn lemma_contents_scan(db: DB)
    requires
        db.wf(),
    ensures
        forall|i: int|
            0 <= i < db.files_model().len() ==> scan_from(
                (#[trigger] db.files_model()[i]).1,
                0,
            ) is Some,
{
    assert forall|i: int| 0 <= i < db.files_model().len() implies scan_from(
        (#[trigger] db.files_model()[i]).1,
        0,
    ) is Some by {
        let d = db.segs()[i];
        assert(db.files_model()[i] == (d.fid, d.bytes()));
        assert(d.wf()) by {
            if i < db.older_files@.len() {
                assert(db.segs()[i] == db.older_files@[i]);
            } else {
                assert(db.segs()[i] == db.active_file);
            }
        }
        crate::meta::lemma_parse_eof(d.bytes(), d.bytes().len());
        crate::meta::lemma_parses_scan(d.bytes(), 0, d.records(), d.bytes().len());
    }
}

} // verus!
