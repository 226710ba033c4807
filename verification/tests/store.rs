use bitkv::db::{Options, DB};
use bitkv::index::{BTreeIndex, IndexOpt};
use bitkv::meta::{LogPos, LogRecord, RecordType};

fn opts(max: usize) -> Options {
    let mut o = Options::default();
    o.dir_path = b"d".to_vec();
    o.max_file_size = max;
    o
}

fn open_empty(max: usize) -> DB {
    DB::open(opts(max), Vec::new()).unwrap()
}

fn reopen(db: &DB) -> DB {
    DB::open(opts(1 << 30), db.segment_contents()).unwrap()
}

#[test]
fn test_btree_index() {
    let mut i = BTreeIndex::new();

    let key = vec![10u8];
    i.put(key.clone(), LogPos { fid: 1, offset: 2 }).unwrap();
    assert_eq!(i.get(&key), Some(LogPos { fid: 1, offset: 2 }));

    i.delete(&key).unwrap();
    assert_eq!(i.get(&key), None);
}

#[test]
fn put_get_delete_reopen() {
    let mut db = open_empty(1 << 30);
    db.put(b"a".to_vec(), b"1".to_vec()).unwrap();
    assert_eq!(db.get(&b"a".to_vec()).unwrap(), Some(b"1".to_vec()));
    db.delete(b"a".to_vec()).unwrap();
    assert_eq!(db.get(&b"a".to_vec()).unwrap(), None);

    let files = db.segment_contents();
    assert_eq!(files.len(), 1);
    assert_eq!(files[0].0, 0);

    let db2 = reopen(&db);
    assert_eq!(db2.get(&b"a".to_vec()).unwrap(), None);
}

#[test]
fn segment_roll() {
    // records for ("k", "v") encode to 9 bytes; the eighth put pushes the
    // active segment past a 64-byte cap and forces a roll
    let mut db = open_empty(64);
    for _ in 0..8 {
        db.put(b"k".to_vec(), b"v".to_vec()).unwrap();
    }
    let files = db.segment_contents();
    assert!(files.len() >= 2);
    assert!(files[files.len() - 1].0 > 0);
    assert_eq!(db.get(&b"k".to_vec()).unwrap(), Some(b"v".to_vec()));

    let db2 = reopen(&db);
    assert_eq!(db2.get(&b"k".to_vec()).unwrap(), Some(b"v".to_vec()));
}

#[test]
fn iterate_forward_and_reverse() {
    let mut db = open_empty(1 << 30);
    db.put(b"a".to_vec(), b"1".to_vec()).unwrap();
    db.put(b"b".to_vec(), b"2".to_vec()).unwrap();
    db.put(b"a".to_vec(), b"3".to_vec()).unwrap();

    let db2 = reopen(&db);
    let mut it = db2.iter(IndexOpt { reverse: false, prefix: Vec::new() });
    assert_eq!(it.next(), Some((b"a".to_vec(), b"3".to_vec())));
    assert_eq!(it.next(), Some((b"b".to_vec(), b"2".to_vec())));
    assert_eq!(it.next(), None);

    let mut rev = db2.iter(IndexOpt { reverse: true, prefix: Vec::new() });
    assert_eq!(rev.next(), Some((b"b".to_vec(), b"2".to_vec())));
    assert_eq!(rev.next(), Some((b"a".to_vec(), b"3".to_vec())));
    assert_eq!(rev.next(), None);
}

#[test]
fn prefix_iteration() {
    let mut db = open_empty(1 << 30);
    for i in 0..1000 {
        let key = format!("user:{:03}", i).into_bytes();
        db.put(key, b"u".to_vec()).unwrap();
    }
    for i in 0..100 {
        let key = format!("log:{:03}", i).into_bytes();
        db.put(key, b"l".to_vec()).unwrap();
    }
    let mut it = db.iter(IndexOpt { reverse: false, prefix: b"user:".to_vec() });
    let mut count = 0;
    let mut last: Option<Vec<u8>> = None;
    while let Some((k, v)) = it.next() {
        assert!(k.starts_with(b"user:"));
        assert_eq!(v, b"u".to_vec());
        if let Some(prev) = &last {
            assert!(prev < &k);
        }
        last = Some(k);
        count += 1;
    }
    assert_eq!(count, 1000);
}

#[test]
fn corrupt_last_byte_fails_open() {
    let mut db = open_empty(1 << 30);
    db.put(b"a".to_vec(), b"1".to_vec()).unwrap();
    let mut files = db.segment_contents();
    assert_eq!(files.len(), 1);
    let n = files[0].1.len();
    files[0].1[n - 1] ^= 0xff;
    let r = DB::open(opts(1 << 30), files);
    assert!(matches!(r, Err(bitkv::Error::CorruptRecord)));
}

#[test]
fn empty_key_rejected() {
    let mut db = open_empty(1 << 30);
    let before = db.segment_contents();
    assert_eq!(db.put(Vec::new(), b"x".to_vec()).unwrap_err(), bitkv::Error::EmptyKey);
    assert_eq!(db.delete(Vec::new()).unwrap_err(), bitkv::Error::EmptyKey);
    assert_eq!(db.get(&Vec::new()).unwrap_err(), bitkv::Error::EmptyKey);
    assert_eq!(db.segment_contents(), before);
}

#[test]
fn delete_is_idempotent() {
    let mut db = open_empty(1 << 30);
    db.put(b"k".to_vec(), b"v".to_vec()).unwrap();
    db.delete(b"k".to_vec()).unwrap();
    let once = db.segment_contents();
    db.delete(b"k".to_vec()).unwrap();
    assert_eq!(db.segment_contents(), once);
    assert_eq!(db.get(&b"k".to_vec()).unwrap(), None);
}

#[test]
fn last_writer_wins() {
    let mut db = open_empty(1 << 30);
    db.put(b"k".to_vec(), b"v1".to_vec()).unwrap();
    db.put(b"k".to_vec(), b"v2".to_vec()).unwrap();
    assert_eq!(db.get(&b"k".to_vec()).unwrap(), Some(b"v2".to_vec()));
}

#[test]
fn record_round_trip_and_crc() {
    let rec = LogRecord { key: b"key".to_vec(), value: b"value".to_vec(), typ: RecordType::Normal };
    let (encoded, crc) = rec.serde();
    assert_eq!(encoded.len(), rec.serde_len());
    // the trailing four bytes are the little-endian CRC-32 of the rest
    let body = &encoded[..encoded.len() - 4];
    assert_eq!(crc, crc32fast::hash(body));
    assert_eq!(&encoded[encoded.len() - 4..], crc.to_le_bytes());
    // decoding restores the record
    let (back, len) = bitkv::meta::decode_record(&encoded, 0).unwrap();
    assert_eq!(len, encoded.len());
    assert_eq!(back.key, rec.key);
    assert_eq!(back.value, rec.value);
    assert_eq!(back.typ, RecordType::Normal);
    // ("k", "v") frames to 1 + 1 + 1 + 1 + 1 + 4 = 9 bytes
    let small = LogRecord { key: b"k".to_vec(), value: b"v".to_vec(), typ: RecordType::Normal };
    assert_eq!(small.serde_len(), 9);
}

#[test]
fn varint_matches_length_delimiters() {
    for &n in &[0u32, 1, 127, 128, 300, 16383, 16384, u32::MAX] {
        let mut mine = Vec::new();
        bitkv::varint::varint_append(&mut mine, n);
        let mut theirs = Vec::new();
        prost::encode_length_delimiter(n as usize, &mut theirs).unwrap();
        assert_eq!(mine, theirs);
        assert_eq!(mine.len(), bitkv::varint::varint_size(n));
        let decoded = prost::decode_length_delimiter(mine.as_slice()).unwrap();
        assert_eq!(decoded, n as usize);
        let (v, used) = bitkv::varint::varint_read(&theirs, 0).unwrap();
        assert_eq!(v, n as u64);
        assert_eq!(used, theirs.len());
    }
}

#[test]
fn index_iter_seek_and_rewind() {
    let mut idx = BTreeIndex::new();
    idx.put(b"a".to_vec(), LogPos { fid: 0, offset: 0 }).unwrap();
    idx.put(b"c".to_vec(), LogPos { fid: 0, offset: 9 }).unwrap();
    idx.put(b"e".to_vec(), LogPos { fid: 0, offset: 18 }).unwrap();
    let mut it = idx.iter(IndexOpt { reverse: false, prefix: Vec::new() });
    it.seek(b"b".to_vec());
    assert_eq!(it.next().map(|e| e.0), Some(b"c".to_vec()));
    it.rewind();
    assert_eq!(it.next().map(|e| e.0), Some(b"a".to_vec()));
    let mut rev = idx.iter(IndexOpt { reverse: true, prefix: Vec::new() });
    rev.seek(b"d".to_vec());
    assert_eq!(rev.next().map(|e| e.0), Some(b"c".to_vec()));
}

#[test]
fn active_segment_has_greatest_id() {
    let mut db = open_empty(32);
    for i in 0..6 {
        db.put(vec![b'x', i as u8 + b'0'], b"aaaaaaaa".to_vec()).unwrap();
    }
    let files = db.segment_contents();
    let last = files[files.len() - 1].0;
    for f in &files {
        assert!(f.0 <= last);
    }
}

#[test]
fn unknown_type_byte_is_corrupt() {
    let db = {
        let mut db = open_empty(1 << 30);
        db.put(b"a".to_vec(), b"1".to_vec()).unwrap();
        db
    };
    let mut files = db.segment_contents();
    files[0].1[0] = 0x07;
    assert!(matches!(DB::open(opts(1 << 30), files), Err(bitkv::Error::CorruptRecord)));
}

#[test]
fn invalid_options_rejected() {
    let mut o = Options::default();
    o.max_file_size = 0;
    o.dir_path = b"d".to_vec();
    assert!(matches!(DB::open(o, Vec::new()), Err(bitkv::Error::InvalidOptions)));
    let mut o2 = Options::default();
    o2.dir_path = Vec::new();
    assert!(!o2.validate());
}

#[test]
fn data_file_names() {
    assert_eq!(bitkv::db::data_file_name(0), b"0000000000.data".to_vec());
    assert_eq!(bitkv::db::data_file_name(1), b"0000000001.data".to_vec());
    assert_eq!(bitkv::db::data_file_name(u32::MAX), b"4294967295.data".to_vec());
    // names round-trip through the parser
    for fid in [0u32, 1, 9, 10, 123456789, u32::MAX] {
        let name = bitkv::db::data_file_name(fid);
        assert_eq!(bitkv::db::parse_data_file_name(&name), Ok(Some(fid)));
    }
    // files that are not segments are skipped
    assert_eq!(bitkv::db::parse_data_file_name(&b"notes.txt".to_vec()), Ok(None));
    assert_eq!(bitkv::db::parse_data_file_name(&b"x".to_vec()), Ok(None));
    // a .data file with a bad stem corrupts the directory
    assert_eq!(
        bitkv::db::parse_data_file_name(&b".data".to_vec()),
        Err(bitkv::Error::CorruptDirectory)
    );
    assert_eq!(
        bitkv::db::parse_data_file_name(&b"12a4.data".to_vec()),
        Err(bitkv::Error::CorruptDirectory)
    );
    assert_eq!(
        bitkv::db::parse_data_file_name(&b"4294967296.data".to_vec()),
        Err(bitkv::Error::CorruptDirectory)
    );
}

#[test]
fn reopen_after_roll_restores_everything() {
    let mut db = open_empty(64);
    for i in 0..30u8 {
        db.put(vec![b'k', i], vec![b'v', i]).unwrap();
    }
    db.delete(vec![b'k', 7]).unwrap();
    let db2 = reopen(&db);
    for i in 0..30u8 {
        let expect = if i == 7 { None } else { Some(vec![b'v', i]) };
        assert_eq!(db2.get(&vec![b'k', i]).unwrap(), expect);
        assert_eq!(db.get(&vec![b'k', i]).unwrap(), expect);
    }
}
