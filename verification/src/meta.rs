//! Log records and their framed on-disk encoding.
//!
//! A record is laid out as
//! `[type : 1][key_len : varint][val_len : varint][key][value][crc32 : 4, LE]`
//! where the CRC covers every preceding byte.  A record whose two length
//! fields are both zero is never written; on disk that shape serves as the
//! end-of-segment sentinel.

use vstd::prelude::*;

use crate::crc::{crc32, crc32_of};
use crate::varint::{
    byte_at, lemma_varint_len_u32, lemma_varint_parse_agree, lemma_varint_parse_bound,
    lemma_varint_parse_enc, varint_append, varint_enc, varint_len, varint_parse, varint_read,
    varint_size,
};
use crate::Error;

verus! {

/// Segment identifiers are unsigned 32-bit integers, assigned monotonically.
pub type Fid = u32;

/// The type byte of the record: 1 byte.
pub const LOG_FIXED_HEADER_SIZE: usize = 1;

/// The trailing checksum: 4 bytes.
pub const LOG_FIXED_CRC_SIZE: usize = 4;

/// The longest possible header: the type byte and two five-byte varints.
pub const LOG_HEADER_MAX_SIZE: usize = 11;

/// Location of a record: the segment id and the byte offset of the record's
/// first byte within that segment.
#[derive(Clone, Copy, Debug, PartialEq, Eq, Structural)]
pub struct LogPos {
    pub fid: Fid,
    pub offset: usize,
}

/// The two kinds of record: a live key/value pair, or a tombstone.
#[derive(Clone, Copy, Debug, PartialEq, Eq, Structural)]
pub enum RecordType {
    Delete,
    Normal,
}

impl RecordType {
    /// The record type a wire byte denotes; bytes other than 0x00/0x01 are
    /// corrupt.
    pub fn from_u8(v: u8) -> (r: Result<Self, Error>)
        ensures
            v == 0 ==> r == Ok::<Self, Error>(RecordType::Delete),
            v == 1 ==> r == Ok::<Self, Error>(RecordType::Normal),
            v >= 2 ==> r == Err::<Self, Error>(Error::CorruptRecord),
    {
        match v {
            0x00 => Ok(Self::Delete),
            0x01 => Ok(Self::Normal),
            _ => Err(Error::CorruptRecord),
        }
    }

    /// The wire byte of the record type.
    pub fn to_u8(self) -> (r: u8)
        ensures
            r == type_byte(self),
    {
        match self {
            RecordType::Delete => 0x00,
            RecordType::Normal => 0x01,
        }
    }
}

/// The mathematical model of a record: its key, value and type as plain
/// sequences.
pub ghost struct RecM {
    pub typ: RecordType,
    pub key: Seq<u8>,
    pub value: Seq<u8>,
}

/// A log record: one mutation, encoded and appended per `put`/`delete`.
pub struct LogRecord {
    pub key: Vec<u8>,
    pub value: Vec<u8>,
    pub typ: RecordType,
}

impl View for LogRecord {
    type V = RecM;

    open spec fn view(&self) -> RecM {
        RecM { typ: self.typ, key: self.key@, value: self.value@ }
    }
}

pub open spec fn type_byte(t: RecordType) -> u8 {
    match t {
        RecordType::Delete => 0,
        RecordType::Normal => 1,
    }
}

/// Both length fields fit the wire format.
pub open spec fn rec_encodable(r: RecM) -> bool {
    r.key.len() <= u32::MAX && r.value.len() <= u32::MAX
}

/// The record can be told apart from the end-of-segment sentinel.
pub open spec fn rec_parseable(r: RecM) -> bool {
    rec_encodable(r) && !(r.key.len() == 0 && r.value.len() == 0)
}

/// The bytes the checksum covers: everything before the checksum itself.
pub open spec fn enc_body(r: RecM) -> Seq<u8> {
    seq![type_byte(r.typ)] + varint_enc(r.key.len()) + varint_enc(r.value.len()) + r.key + r.value
}

/// A `u32` as four little-endian bytes.
pub open spec fn u32_le(x: u32) -> Seq<u8> {
    seq![
        (x & 0xff) as u8,
        ((x >> 8) & 0xff) as u8,
        ((x >> 16) & 0xff) as u8,
        ((x >> 24) & 0xff) as u8,
    ]
}

/// Four little-endian bytes as a `u32`.
pub open spec fn u32_le_val(s: Seq<u8>) -> u32 {
    ((s[0] as u32) | ((s[1] as u32) << 8) | ((s[2] as u32) << 16) | ((s[3] as u32) << 24)) as u32
}

/// The full encoding of a record: body then checksum.
pub open spec fn enc_rec(r: RecM) -> Seq<u8> {
    enc_body(r) + u32_le(crc32_of(enc_body(r)))
}

/// The encoded size of a record.
pub open spec fn rec_size(r: RecM) -> nat {
    1 + varint_len(r.key.len()) + varint_len(r.value.len()) + r.key.len() + r.value.len() + 4
}

pub proof fn lemma_enc_rec_len(r: RecM)
    ensures
        enc_rec(r).len() == rec_size(r),
{
}

pub proof fn lemma_u32_le_roundtrip(x: u32)
    ensures
        u32_le_val(u32_le(x)) == x,
{
    let b0 = (x & 0xff) as u8;
    let b1 = ((x >> 8) & 0xff) as u8;
    let b2 = ((x >> 16) & 0xff) as u8;
    let b3 = ((x >> 24) & 0xff) as u8;
    assert(u32_le(x)[0] == b0 && u32_le(x)[1] == b1 && u32_le(x)[2] == b2 && u32_le(x)[3] == b3);
    assert((((b0 as u32) | ((b1 as u32) << 8) | ((b2 as u32) << 16) | ((b3 as u32) << 24)) as u32)
        == x) by (bit_vector)
        requires
            b0 == (x & 0xff) as u8,
            b1 == ((x >> 8) & 0xff) as u8,
            b2 == ((x >> 16) & 0xff) as u8,
            b3 == ((x >> 24) & 0xff) as u8,
    ;
}

/// Append `src` to `dst`.
pub fn push_all(dst: &mut Vec<u8>, src: &Vec<u8>)
    ensures
        final(dst)@ == old(dst)@ + src@,
{
    let mut i: usize = 0;
    while i < src.len()
        invariant
            i <= src@.len(),
            dst@ == old(dst)@ + src@.subrange(0, i as int),
        decreases src@.len() - i,
    {
        dst.push(src[i]);
        assert(src@.subrange(0, i + 1 as int) == src@.subrange(0, i as int) + seq![src@[i as int]]);
        i = i + 1;
    }
    assert(src@.subrange(0, src@.len() as int) == src@);
}

/// A copy of `src[start .. start + n]`.
pub fn copy_range(src: &Vec<u8>, start: usize, n: usize) -> (r: Vec<u8>)
    requires
        start + n <= src@.len(),
    ensures
        r@ == src@.subrange(start as int, start + n),
{
    let mut out: Vec<u8> = Vec::new();
    let total = src.len();
    let mut i: usize = 0;
    while i < n
        invariant
            i <= n,
            start + n <= src@.len(),
            total == src@.len(),
            out@ == src@.subrange(start as int, start + i),
        decreases n - i,
    {
        assert(start + i < total);
        out.push(src[start + i]);
        assert(src@.subrange(start as int, start + (i + 1)) == src@.subrange(start as int, start
            + i) + seq![src@[start + i]]);
        i = i + 1;
    }
    out
}

/// Append the four little-endian bytes of `x` to `buf`.
pub fn u32_le_append(buf: &mut Vec<u8>, x: u32)
    ensures
        final(buf)@ == old(buf)@ + u32_le(x),
{
    buf.push((x & 0xff) as u8);
    buf.push(((x >> 8) & 0xff) as u8);
    buf.push(((x >> 16) & 0xff) as u8);
    buf.push(((x >> 24) & 0xff) as u8);
    assert(buf@ =~= old(buf)@ + u32_le(x));
}

impl LogRecord {
    /// The encoded size of the record, `rec_size` of its model.
    pub fn serde_len(&self) -> (r: usize)
        requires
            rec_encodable(self@),
            self.key@.len() + self.value@.len() + LOG_HEADER_MAX_SIZE + LOG_FIXED_CRC_SIZE
                <= usize::MAX,
        ensures
            r == rec_size(self@),
    {
        proof {
            lemma_varint_len_u32(self.key@.len());
            lemma_varint_len_u32(self.value@.len());
        }
        LOG_FIXED_HEADER_SIZE + varint_size(self.key.len() as u32) + varint_size(
            self.value.len() as u32,
        ) + self.key.len() + self.value.len() + LOG_FIXED_CRC_SIZE
    }

    /// Frame the record: the encoded bytes and, separately, the checksum.
    pub fn serde(&self) -> (r: (Vec<u8>, u32))
        requires
            rec_encodable(self@),
        ensures
            r.0@ == enc_rec(self@),
            r.1 == crc32_of(enc_body(self@)),
    {
        let mut buf: Vec<u8> = Vec::new();
        buf.push(self.typ.to_u8());
        varint_append(&mut buf, self.key.len() as u32);
        varint_append(&mut buf, self.value.len() as u32);
        push_all(&mut buf, &self.key);
        push_all(&mut buf, &self.value);
        assert(buf@ =~= enc_body(self@));
        let c = crc32(&buf);
        u32_le_append(&mut buf, c);
        (buf, c)
    }
}

} // verus!

verus! {

/// The outcome of reading one record at an offset of a segment.
pub ghost enum Parsed {
    Rec { rec: RecM, len: nat },
    Eof,
    Corrupt,
}

/// Parse one record at offset `off` of `b`.  Bytes past the end of `b` read
/// as zero, the way a positional read near the end of a segment comes back
/// zero-padded; so at the very end the two zero length fields signal `Eof`.
/// A record whose checksum, type byte or framing is wrong is `Corrupt`.
pub open spec fn parse_at(b: Seq<u8>, off: nat) -> Parsed {
    let t = byte_at(b, off);
    if t != 0 && t != 1 {
        Parsed::Corrupt
    } else {
        match varint_parse(b, off + 1) {
            None => Parsed::Corrupt,
            Some(kp) => match varint_parse(b, off + 1 + kp.1) {
                None => Parsed::Corrupt,
                Some(vp) => {
                    let klen = kp.0;
                    let vlen = vp.0;
                    let hl = 1 + kp.1 + vp.1;
                    if klen == 0 && vlen == 0 {
                        Parsed::Eof
                    } else if klen > u32::MAX || vlen > u32::MAX {
                        Parsed::Corrupt
                    } else if off + hl + klen + vlen + 4 > b.len() {
                        Parsed::Corrupt
                    } else {
                        let typ = if t == 0 {
                            RecordType::Delete
                        } else {
                            RecordType::Normal
                        };
                        let rm = RecM {
                            typ,
                            key: b.subrange((off + hl) as int, (off + hl + klen) as int),
                            value: b.subrange((off + hl + klen) as int, (off + hl + klen
                                + vlen) as int),
                        };
                        let stored = u32_le_val(
                            b.subrange((off + hl + klen + vlen) as int, (off + hl + klen + vlen
                                + 4) as int),
                        );
                        if stored != crc32_of(enc_body(rm)) {
                            Parsed::Corrupt
                        } else {
                            Parsed::Rec { rec: rm, len: hl + klen + vlen + 4 }
                        }
                    }
                },
            },
        }
    }
}

/// Whatever parses as a record is framed inside the buffer, at least seven
/// bytes long, and can be told apart from the sentinel.
pub proof fn lemma_parse_facts(b: Seq<u8>, off: nat)
    ensures
        parse_at(b, off) matches Parsed::Rec { rec, len } ==> {
            &&& 7 <= len
            &&& off + len <= b.len()
            &&& rec_parseable(rec)
        },
{
    if parse_at(b, off) is Rec {
        lemma_varint_parse_bound(b, off + 1, 5);
        let kp = varint_parse(b, off + 1)->Some_0;
        lemma_varint_parse_bound(b, off + 1 + kp.1, 5);
    }
}

/// Past the end of the buffer only the sentinel is read.
pub proof fn lemma_parse_eof(b: Seq<u8>, off: nat)
    requires
        off >= b.len(),
    ensures
        parse_at(b, off) == Parsed::Eof,
{
    assert(byte_at(b, off) == 0);
    assert(byte_at(b, off + 1) == 0);
    assert(varint_parse(b, off + 1) == Some((0 as nat, 1 as nat)));
    assert(byte_at(b, off + 2) == 0);
    assert(varint_parse(b, off + 2) == Some((0 as nat, 1 as nat)));
}

/// Decoding reads back what encoding wrote: where the encoding of a
/// parseable record stands at `off`, the parse returns that record and
/// consumes exactly its encoded size.
#[verifier::rlimit(50)]
pub proof fn lemma_parse_enc(b: Seq<u8>, off: nat, r: RecM)
    requires
        rec_parseable(r),
        off + rec_size(r) <= b.len(),
        b.subrange(off as int, (off + rec_size(r)) as int) == enc_rec(r),
    ensures
        parse_at(b, off) == (Parsed::Rec { rec: r, len: rec_size(r) }),
{
    let e = enc_rec(r);
    let tb: Seq<u8> = seq![type_byte(r.typ)];
    let kl = varint_enc(r.key.len());
    let vl = varint_enc(r.value.len());
    let body = enc_body(r);
    let crcs = u32_le(crc32_of(body));
    let kll = kl.len();
    let vll = vl.len();
    let klen = r.key.len();
    let vlen = r.value.len();
    lemma_varint_len_u32(klen);
    lemma_varint_len_u32(vlen);
    assert(e.len() == rec_size(r));
    assert forall|j: nat| j < e.len() implies #[trigger] byte_at(b, off + j) == e[j as int] by {
        assert(b.subrange(off as int, (off + rec_size(r)) as int)[j as int] == b[(off + j) as int]);
    }
    // the type byte
    assert(e[0] == type_byte(r.typ));
    assert(byte_at(b, off) == type_byte(r.typ));
    // the key-length varint
    assert forall|j: nat| j < kll implies #[trigger] byte_at(b, (off + 1) + j) == kl[j as int] by {
        assert(byte_at(b, off + (1 + j)) == e[1 + j as int]);
        assert(e[1 + j as int] == body[1 + j as int]);
        assert(body[1 + j as int] == kl[j as int]);
    }
    lemma_varint_parse_enc(b, off + 1, klen, 5);
    // the value-length varint
    assert forall|j: nat| j < vll implies #[trigger] byte_at(b, (off + 1 + kll) + j) == vl[
        j as int
    ] by {
        assert(byte_at(b, off + (1 + kll + j)) == e[1 + kll + j as int]);
        assert(e[1 + kll + j as int] == body[1 + kll + j as int]);
        assert(body[1 + kll + j as int] == vl[j as int]);
    }
    lemma_varint_parse_enc(b, off + 1 + kll, vlen, 5);
    let hl = 1 + kll + vll;
    // the key and value bytes
    assert(b.subrange((off + hl) as int, (off + hl + klen) as int) =~= r.key) by {
        assert forall|j: int| 0 <= j < klen implies b.subrange((off + hl) as int, (off + hl
            + klen) as int)[j] == r.key[j] by {
            let jn = j as nat;
            assert(byte_at(b, off + (hl + jn)) == e[(hl + jn) as int]);
            assert(e[(hl + jn) as int] == body[(hl + jn) as int]);
            assert(body[(hl + jn) as int] == r.key[j]);
            assert(off + (hl + jn) < b.len());
        }
    }
    assert(b.subrange((off + hl + klen) as int, (off + hl + klen + vlen) as int) =~= r.value) by {
        assert forall|j: int| 0 <= j < vlen implies b.subrange((off + hl + klen) as int, (off + hl
            + klen + vlen) as int)[j] == r.value[j] by {
            let jn = j as nat;
            assert(byte_at(b, off + (hl + klen + jn)) == e[(hl + klen + jn) as int]);
            assert(e[(hl + klen + jn) as int] == body[(hl + klen + jn) as int]);
            assert(body[(hl + klen + jn) as int] == r.value[j]);
            assert(off + (hl + klen + jn) < b.len());
        }
    }
    // the stored checksum
    assert(b.subrange((off + hl + klen + vlen) as int, (off + hl + klen + vlen + 4) as int)
        =~= crcs) by {
        assert forall|j: int| 0 <= j < 4 implies b.subrange((off + hl + klen + vlen) as int, (off
            + hl + klen + vlen + 4) as int)[j] == crcs[j] by {
            let jn = j as nat;
            assert(byte_at(b, off + (hl + klen + vlen + jn)) == e[(hl + klen + vlen + jn) as int]);
            assert(e[(hl + klen + vlen + jn) as int] == crcs[j]);
            assert(off + (hl + klen + vlen + jn) < b.len());
        }
    }
    lemma_u32_le_roundtrip(crc32_of(body));
}

/// The parse of a record depends only on the bytes it spans: two buffers
/// that agree on them parse alike.
pub proof fn lemma_parse_agree(b1: Seq<u8>, b2: Seq<u8>, off: nat)
    requires
        parse_at(b1, off) is Rec,
        off + parse_at(b1, off)->Rec_len <= b2.len(),
        forall|j: nat|
            j < parse_at(b1, off)->Rec_len ==> #[trigger] byte_at(b1, off + j) == byte_at(
                b2,
                off + j,
            ),
    ensures
        parse_at(b2, off) == parse_at(b1, off),
{
    let len = parse_at(b1, off)->Rec_len;
    lemma_parse_facts(b1, off);
    assert(byte_at(b1, off + 0) == byte_at(b2, off + 0));
    lemma_varint_parse_bound(b1, off + 1, 5);
    let kp = varint_parse(b1, off + 1)->Some_0;
    assert forall|j: nat| j < kp.1 implies #[trigger] byte_at(b1, (off + 1) + j) == byte_at(
        b2,
        (off + 1) + j,
    ) by {
        assert(byte_at(b1, off + (1 + j)) == byte_at(b2, off + (1 + j)));
    }
    lemma_varint_parse_agree(b1, b2, off + 1, 5);
    lemma_varint_parse_bound(b1, off + 1 + kp.1, 5);
    let vp = varint_parse(b1, off + 1 + kp.1)->Some_0;
    assert forall|j: nat| j < vp.1 implies #[trigger] byte_at(b1, (off + 1 + kp.1) + j) == byte_at(
        b2,
        (off + 1 + kp.1) + j,
    ) by {
        assert(byte_at(b1, off + (1 + kp.1 + j)) == byte_at(b2, off + (1 + kp.1 + j)));
    }
    lemma_varint_parse_agree(b1, b2, off + 1 + kp.1, 5);
    let hl = 1 + kp.1 + vp.1;
    let klen = kp.0;
    let vlen = vp.0;
    assert(b2.subrange((off + hl) as int, (off + hl + klen) as int) =~= b1.subrange(
        (off + hl) as int,
        (off + hl + klen) as int,
    )) by {
        assert forall|j: int| 0 <= j < klen implies #[trigger] b2.subrange((off + hl) as int, (off
            + hl + klen) as int)[j] == b1.subrange((off + hl) as int, (off + hl + klen) as int)[j] by {
            let jn = j as nat;
            assert(byte_at(b1, off + (hl + jn)) == byte_at(b2, off + (hl + jn)));
            assert(off + (hl + jn) < b1.len());
            assert(off + (hl + jn) < b2.len());
        }
    }
    assert(b2.subrange((off + hl + klen) as int, (off + hl + klen + vlen) as int) =~= b1.subrange(
        (off + hl + klen) as int,
        (off + hl + klen + vlen) as int,
    )) by {
        assert forall|j: int| 0 <= j < vlen implies #[trigger] b2.subrange((off + hl
            + klen) as int, (off + hl + klen + vlen) as int)[j] == b1.subrange((off + hl
            + klen) as int, (off + hl + klen + vlen) as int)[j] by {
            let jn = j as nat;
            assert(byte_at(b1, off + (hl + klen + jn)) == byte_at(b2, off + (hl + klen + jn)));
            assert(off + (hl + klen + jn) < b1.len());
            assert(off + (hl + klen + jn) < b2.len());
        }
    }
    assert(b2.subrange((off + hl + klen + vlen) as int, (off + hl + klen + vlen + 4) as int)
        =~= b1.subrange((off + hl + klen + vlen) as int, (off + hl + klen + vlen + 4) as int)) by {
        assert forall|j: int| 0 <= j < 4 implies #[trigger] b2.subrange((off + hl + klen
            + vlen) as int, (off + hl + klen + vlen + 4) as int)[j] == b1.subrange((off + hl + klen
            + vlen) as int, (off + hl + klen + vlen + 4) as int)[j] by {
            let jn = j as nat;
            assert(byte_at(b1, off + (hl + klen + vlen + jn)) == byte_at(b2, off + (hl + klen
                + vlen + jn)));
            assert(off + (hl + klen + vlen + jn) < b1.len());
            assert(off + (hl + klen + vlen + jn) < b2.len());
        }
    }
}

} // verus!

verus! {

/// The records `rs` parse one after the other, from `start` up to exactly
/// `end`.
pub open spec fn parses_to(b: Seq<u8>, start: nat, rs: Seq<RecM>, end: nat) -> bool
    decreases rs.len(),
{
    if rs.len() == 0 {
        start == end
    } else {
        match parse_at(b, start) {
            Parsed::Rec { rec, len } => rec == rs[0] && parses_to(b, start + len, rs.skip(1), end),
            _ => false,
        }
    }
}

/// A segment is clean when its bytes are exactly the records it holds,
/// parsed back to back with nothing after them.
pub open spec fn seg_clean(b: Seq<u8>, rs: Seq<RecM>) -> bool {
    parses_to(b, 0, rs, b.len())
}

pub proof fn lemma_parses_to_le(b: Seq<u8>, start: nat, rs: Seq<RecM>, end: nat)
    requires
        parses_to(b, start, rs, end),
    ensures
        start <= end,
    decreases rs.len(),
{
    if rs.len() > 0 {
        let len = parse_at(b, start)->Rec_len;
        lemma_parses_to_le(b, start + len, rs.skip(1), end);
    }
}

/// A record parsed right at `end` extends the chain by one.
pub proof fn lemma_parses_to_snoc(b: Seq<u8>, start: nat, rs: Seq<RecM>, end: nat, r: RecM)
    requires
        parses_to(b, start, rs, end),
        parse_at(b, end) is Rec,
        parse_at(b, end)->Rec_rec == r,
    ensures
        parses_to(b, start, rs.push(r), end + parse_at(b, end)->Rec_len),
    decreases rs.len(),
{
    let rlen = parse_at(b, end)->Rec_len;
    let rs2 = rs.push(r);
    if rs.len() == 0 {
        assert(rs2[0] == r);
        assert(rs2.skip(1) =~= Seq::<RecM>::empty());
        assert(parses_to(b, start + rlen, rs2.skip(1), end + rlen));
        assert(parses_to(b, start, rs2, end + rlen));
    } else {
        let len = parse_at(b, start)->Rec_len;
        lemma_parses_to_snoc(b, start + len, rs.skip(1), end, r);
        assert(rs2.skip(1) =~= rs.skip(1).push(r));
        assert(rs2[0] == rs[0]);
        assert(parses_to(b, start + len, rs2.skip(1), end + rlen));
        assert(parses_to(b, start, rs2, end + rlen));
    }
}

/// A chain that ends inside both buffers and spans equal bytes holds in
/// both.
pub proof fn lemma_parses_to_agree(b1: Seq<u8>, b2: Seq<u8>, start: nat, rs: Seq<RecM>, end: nat)
    requires
        parses_to(b1, start, rs, end),
        end <= b1.len(),
        end <= b2.len(),
        forall|j: nat| start <= j < end ==> #[trigger] byte_at(b1, j) == byte_at(b2, j),
    ensures
        parses_to(b2, start, rs, end),
    decreases rs.len(),
{
    if rs.len() > 0 {
        let len = parse_at(b1, start)->Rec_len;
        lemma_parse_facts(b1, start);
        lemma_parses_to_le(b1, start + len, rs.skip(1), end);
        assert forall|j: nat| j < len implies #[trigger] byte_at(b1, start + j) == byte_at(
            b2,
            start + j,
        ) by {
            assert(start <= start + j < end);
            assert(byte_at(b1, start + j) == byte_at(b2, start + j));
        }
        lemma_parse_agree(b1, b2, start);
        lemma_parses_to_agree(b1, b2, start + len, rs.skip(1), end);
    }
}

/// Appending the encoding of a parseable record to a clean segment keeps it
/// clean, with the record now last.
pub proof fn lemma_parses_to_extend(b: Seq<u8>, start: nat, rs: Seq<RecM>, r: RecM)
    requires
        parses_to(b, start, rs, b.len()),
        rec_parseable(r),
    ensures
        parses_to(b + enc_rec(r), start, rs.push(r), b.len() + rec_size(r)),
{
    let b2 = b + enc_rec(r);
    lemma_parses_to_le(b, start, rs, b.len());
    assert forall|j: nat| start <= j < b.len() implies #[trigger] byte_at(b, j) == byte_at(
        b2,
        j,
    ) by {
        assert(b2[j as int] == b[j as int]);
    }
    lemma_parses_to_agree(b, b2, start, rs, b.len());
    assert(b2.subrange(b.len() as int, (b.len() + rec_size(r)) as int) =~= enc_rec(r));
    lemma_parse_enc(b2, b.len(), r);
    lemma_parses_to_snoc(b2, start, rs, b.len(), r);
}

/// The clean extension at segment level.
pub proof fn lemma_seg_clean_extend(b: Seq<u8>, rs: Seq<RecM>, r: RecM)
    requires
        seg_clean(b, rs),
        rec_parseable(r),
    ensures
        seg_clean(b + enc_rec(r), rs.push(r)),
{
    lemma_parses_to_extend(b, 0, rs, r);
}

/// An empty segment is clean.
pub proof fn lemma_seg_clean_empty(b: Seq<u8>)
    requires
        b.len() == 0,
    ensures
        seg_clean(b, Seq::<RecM>::empty()),
{
}

/// Scan a buffer from `off`: the records up to the first sentinel and the
/// offset where the sentinel was read, or `None` when a corrupt record was
/// hit first.
pub open spec fn scan_from(b: Seq<u8>, off: nat) -> Option<(Seq<RecM>, nat)>
    decreases b.len() - off,
    when off <= b.len()
    via scan_from_dec
{
    match parse_at(b, off) {
        Parsed::Eof => Some((Seq::<RecM>::empty(), off)),
        Parsed::Corrupt => None,
        Parsed::Rec { rec, len } => match scan_from(b, off + len) {
            None => None,
            Some(p) => Some((seq![rec] + p.0, p.1)),
        },
    }
}

#[via_fn]
proof fn scan_from_dec(b: Seq<u8>, off: nat) {
    lemma_parse_facts(b, off);
}

/// A successful scan is a chain that ends at a sentinel.
pub proof fn lemma_scan_parses(b: Seq<u8>, off: nat)
    requires
        off <= b.len(),
        scan_from(b, off) is Some,
    ensures
        parses_to(b, off, scan_from(b, off)->Some_0.0, scan_from(b, off)->Some_0.1),
        parse_at(b, scan_from(b, off)->Some_0.1) == Parsed::Eof,
        scan_from(b, off)->Some_0.1 <= b.len(),
    decreases b.len() - off,
{
    lemma_parse_facts(b, off);
    match parse_at(b, off) {
        Parsed::Eof => {
        },
        Parsed::Corrupt => {
        },
        Parsed::Rec { rec, len } => {
            lemma_scan_parses(b, off + len);
            let p = scan_from(b, off + len)->Some_0;
            assert((seq![rec] + p.0)[0] == rec);
            assert((seq![rec] + p.0).skip(1) =~= p.0);
        },
    }
}

/// Conversely, a chain ending at a sentinel is what the scan returns.
pub proof fn lemma_parses_scan(b: Seq<u8>, off: nat, rs: Seq<RecM>, end: nat)
    requires
        parses_to(b, off, rs, end),
        parse_at(b, end) == Parsed::Eof,
        off <= b.len(),
    ensures
        scan_from(b, off) == Some((rs, end)),
    decreases rs.len(),
{
    if rs.len() == 0 {
    } else {
        let len = parse_at(b, off)->Rec_len;
        lemma_parse_facts(b, off);
        lemma_parses_scan(b, off + len, rs.skip(1), end);
        assert(seq![rs[0]] + rs.skip(1) =~= rs);
    }
}

/// What one record does to the visible key/value state.  Records with an
/// empty key are never written by this store and change nothing.
pub open spec fn apply_rec(m: Map<Seq<u8>, Seq<u8>>, r: RecM) -> Map<Seq<u8>, Seq<u8>> {
    if r.key.len() == 0 {
        m
    } else {
        match r.typ {
            RecordType::Normal => m.insert(r.key, r.value),
            RecordType::Delete => m.remove(r.key),
        }
    }
}

/// Replaying records in order, starting from `m`.
pub open spec fn replay_recs(m: Map<Seq<u8>, Seq<u8>>, rs: Seq<RecM>) -> Map<Seq<u8>, Seq<u8>>
    decreases rs.len(),
{
    if rs.len() == 0 {
        m
    } else {
        replay_recs(apply_rec(m, rs[0]), rs.skip(1))
    }
}

pub proof fn lemma_replay_snoc(m: Map<Seq<u8>, Seq<u8>>, rs: Seq<RecM>, r: RecM)
    ensures
        replay_recs(m, rs.push(r)) == apply_rec(replay_recs(m, rs), r),
    decreases rs.len(),
{
    let rs2 = rs.push(r);
    if rs.len() == 0 {
        assert(rs2[0] == r);
        assert(rs2.skip(1) =~= Seq::<RecM>::empty());
        assert(replay_recs(m, rs2) == replay_recs(apply_rec(m, r), rs2.skip(1)));
        assert(replay_recs(apply_rec(m, r), rs2.skip(1)) == apply_rec(m, r));
        assert(replay_recs(m, rs) == m);
    } else {
        assert(rs2[0] == rs[0]);
        assert(rs2.skip(1) =~= rs.skip(1).push(r));
        lemma_replay_snoc(apply_rec(m, rs[0]), rs.skip(1), r);
        assert(replay_recs(m, rs2) == replay_recs(apply_rec(m, rs2[0]), rs2.skip(1)));
        assert(replay_recs(m, rs) == replay_recs(apply_rec(m, rs[0]), rs.skip(1)));
    }
}

pub proof fn lemma_replay_concat(m: Map<Seq<u8>, Seq<u8>>, rs1: Seq<RecM>, rs2: Seq<RecM>)
    ensures
        replay_recs(m, rs1 + rs2) == replay_recs(replay_recs(m, rs1), rs2),
    decreases rs1.len(),
{
    if rs1.len() == 0 {
        assert(rs1 + rs2 =~= rs2);
    } else {
        assert((rs1 + rs2)[0] == rs1[0]);
        assert((rs1 + rs2).skip(1) =~= rs1.skip(1) + rs2);
        lemma_replay_concat(apply_rec(m, rs1[0]), rs1.skip(1), rs2);
    }
}

} // verus!

verus! {

/// Decode one record at offset `off` of `buf`: the record and its on-disk
/// length, `EofInSegment` at the sentinel or the end of the buffer, and
/// `CorruptRecord` for a bad type byte, bad framing or a checksum mismatch.
/// The result is exactly what `parse_at` says of those bytes.
pub fn decode_record(buf: &Vec<u8>, off: usize) -> (r: Result<(LogRecord, usize), Error>)
    requires
        off <= buf@.len(),
    ensures
        (match parse_at(buf@, off as nat) {
            Parsed::Rec { rec, len } => r matches Ok(p) && p.0@ == rec && p.1 == len,
            Parsed::Eof => r == Err::<(LogRecord, usize), Error>(Error::EofInSegment),
            Parsed::Corrupt => r == Err::<(LogRecord, usize), Error>(Error::CorruptRecord),
        }),
{
    let len = buf.len();
    if off == len {
        proof {
            lemma_parse_eof(buf@, off as nat);
        }
        return Err(Error::EofInSegment);
    }
    let t = buf[off];
    assert(t == byte_at(buf@, off as nat));
    let typ = match RecordType::from_u8(t) {
        Ok(ty) => ty,
        Err(_) => {
            return Err(Error::CorruptRecord);
        },
    };
    let (klen64, kn) = match varint_read(buf, off + 1) {
        None => {
            return Err(Error::CorruptRecord);
        },
        Some(p) => p,
    };
    if kn > len - (off + 1) {
        // the key-length varint ran into the zero padding past the end, so
        // the value length reads as zero there
        proof {
            assert(off + 1 + kn > buf@.len());
            assert(byte_at(buf@, (off + 1 + kn) as nat) == 0);
        }
        if klen64 == 0 {
            return Err(Error::EofInSegment);
        } else {
            return Err(Error::CorruptRecord);
        }
    }
    let p2 = off + 1 + kn;
    let (vlen64, vn) = match varint_read(buf, p2) {
        None => {
            return Err(Error::CorruptRecord);
        },
        Some(p) => p,
    };
    if klen64 == 0 && vlen64 == 0 {
        return Err(Error::EofInSegment);
    }
    if klen64 > 0xffff_ffff || vlen64 > 0xffff_ffff {
        return Err(Error::CorruptRecord);
    }
    let hl = 1 + kn + vn;
    let avail: u64 = (len - off) as u64;
    if (hl as u64) + klen64 + vlen64 + 4 > avail {
        return Err(Error::CorruptRecord);
    }
    let klen = klen64 as usize;
    let vlen = vlen64 as usize;
    assert(off + hl + klen + vlen + 4 <= buf@.len());
    let kstart = off + hl;
    let key = copy_range(buf, kstart, klen);
    let value = copy_range(buf, kstart + klen, vlen);
    let cstart = kstart + klen + vlen;
    let c0 = buf[cstart];
    let c1 = buf[cstart + 1];
    let c2 = buf[cstart + 2];
    let c3 = buf[cstart + 3];
    let stored: u32 = (c0 as u32) | ((c1 as u32) << 8) | ((c2 as u32) << 16) | ((c3 as u32) << 24);
    proof {
        let s = buf@.subrange(cstart as int, cstart + 4 as int);
        assert(s[0] == c0 && s[1] == c1 && s[2] == c2 && s[3] == c3);
        assert(stored == u32_le_val(s));
    }
    let rec = LogRecord { key, value, typ };
    let (_enc, expected) = rec.serde();
    if expected != stored {
        return Err(Error::CorruptRecord);
    }
    let total = hl + klen + vlen + 4;
    Ok((rec, total))
}

} // verus!

verus! {

/// Decode inverts encode: the encoding of any writable record parses back
/// to that record, whole, its checksum verified.
pub proof fn lemma_record_round_trip(r: RecM)
    requires
        rec_parseable(r),
    ensures
        parse_at(enc_rec(r), 0) == (Parsed::Rec { rec: r, len: rec_size(r) }),
{
    assert(enc_rec(r).subrange(0, rec_size(r) as int) =~= enc_rec(r));
    lemma_parse_enc(enc_rec(r), 0, r);
}

} // verus!
