use lsm_core::codec::BlockMeta;
use lsm_core::keys::KeyBound;
use lsm_core::table::Bloom;
use lsm_core::table::FileObject;
use lsm_core::table::SsTable;
use lsm_core::table::TableError;

fn be32(x: u32) -> Vec<u8> {
    vec![
        (x >> 24) as u8,
        ((x >> 16) & 0xff) as u8,
        ((x >> 8) & 0xff) as u8,
        (x & 0xff) as u8,
    ]
}

fn meta(offset: usize, first: &str, last: &str) -> BlockMeta {
    BlockMeta {
        offset,
        first_key: first.as_bytes().to_vec(),
        last_key: last.as_bytes().to_vec(),
    }
}

fn encode(metas: &[BlockMeta]) -> Vec<u8> {
    let mut buf = Vec::new();
    BlockMeta::encode_block_meta(metas, &mut buf);
    buf
}

#[test]
fn encode_exact_bytes() {
    let buf = encode(&[meta(1, "ab", "c")]);
    let mut expected = Vec::new();
    expected.extend(be32(1));
    expected.extend(be32(2));
    expected.extend(b"ab");
    expected.extend(be32(1));
    expected.extend(b"c");
    assert_eq!(buf, expected);
}

#[test]
fn meta_round_trip() {
    let metas = vec![meta(0, "a", "c"), meta(100, "d", "f")];
    let buf = encode(&metas);
    let decoded = BlockMeta::decode_block_meta(&buf).unwrap();
    assert_eq!(decoded.len(), 2);
    for (m, d) in metas.iter().zip(decoded.iter()) {
        assert_eq!(m.offset, d.offset);
        assert_eq!(m.first_key, d.first_key);
        assert_eq!(m.last_key, d.last_key);
    }
}

#[test]
fn decode_truncated_fails() {
    let mut buf = encode(&[meta(0, "a", "c")]);
    buf.pop();
    assert!(BlockMeta::decode_block_meta(&buf).is_err());
    let short = vec![0u8, 0, 0];
    assert!(BlockMeta::decode_block_meta(&short).is_err());
}

#[test]
fn bloom_decode() {
    let buf = vec![0xffu8, 0x01, 3];
    let b = Bloom::decode(&buf).unwrap();
    assert_eq!(b.filter, vec![0xff, 0x01]);
    assert_eq!(b.k, 3);
    assert!(Bloom::decode(&Vec::new()).is_err());
}

/// A whole table file: 200 bytes of block data holding two blocks at
/// offsets 0 and 100, their metadata, the meta offset, a bloom section,
/// and the bloom offset trailer.
fn table_file() -> Vec<u8> {
    let mut data = Vec::new();
    for i in 0..200u32 {
        data.push((i % 251) as u8);
    }
    let metas = vec![meta(0, "a", "c"), meta(100, "d", "f")];
    let meta_buf = encode(&metas);
    let meta_offset = data.len() as u32;
    data.extend(&meta_buf);
    data.extend(be32(meta_offset));
    let bloom_offset = data.len() as u32;
    data.extend(vec![0xaau8, 0xbb, 4]);
    data.extend(be32(bloom_offset));
    data
}

#[test]
fn open_reads_trailer_and_meta() {
    let bytes = table_file();
    let file = FileObject::from_data(bytes);
    let table = SsTable::open(7, None, file).unwrap();
    assert_eq!(table.sst_id(), 7);
    assert_eq!(table.num_of_blocks(), 2);
    assert_eq!(table.block_meta_offset, 200);
    assert_eq!(table.first_key().as_slice(), b"a");
    assert_eq!(table.last_key().as_slice(), b"f");
    assert_eq!(table.max_ts(), u64::MAX);
    let bloom = table.bloom.as_ref().unwrap();
    assert_eq!(bloom.filter, vec![0xaa, 0xbb]);
    assert_eq!(bloom.k, 4);
}

#[test]
fn open_truncated_fails() {
    let file = FileObject::from_data(vec![1, 2, 3]);
    assert_eq!(
        SsTable::open(0, None, file).unwrap_err(),
        TableError::Truncated
    );
}

#[test]
fn read_block_spans_to_next_offset() {
    let bytes = table_file();
    let expected0: Vec<u8> = bytes[0..100].to_vec();
    let expected1: Vec<u8> = bytes[100..200].to_vec();
    let table = SsTable::open(1, None, FileObject::from_data(bytes)).unwrap();
    let b0 = table.read_block(0).unwrap();
    assert_eq!(b0.data, expected0);
    // The last block runs to the meta section: bytes [100, 200).
    let b1 = table.read_block(1).unwrap();
    assert_eq!(b1.data, expected1);
    assert_eq!(
        table.read_block(2).unwrap_err(),
        TableError::BlockIndexOutOfRange
    );
}

#[test]
fn read_block_cached_matches_uncached() {
    let bytes = table_file();
    let expected1: Vec<u8> = bytes[100..200].to_vec();
    let cache = lsm_core::table::BlockCache::new();
    let mut table = SsTable::open(1, Some(cache), FileObject::from_data(bytes)).unwrap();
    let miss = table.read_block_cached(1).unwrap();
    assert_eq!(miss.data, expected1);
    assert_eq!(table.block_cache.as_ref().unwrap().entries.len(), 1);
    let hit = table.read_block_cached(1).unwrap();
    assert_eq!(hit.data, expected1);
    assert_eq!(table.block_cache.as_ref().unwrap().entries.len(), 1);
}

#[test]
fn find_block_idx_locates_keys() {
    let table = SsTable::open(1, None, FileObject::from_data(table_file())).unwrap();
    assert_eq!(table.find_block_idx(b"a"), 0);
    assert_eq!(table.find_block_idx(b"b"), 0);
    // A last key is answered with its own block, not the next one.
    assert_eq!(table.find_block_idx(b"c"), 0);
    assert_eq!(table.find_block_idx(b"cc"), 1);
    assert_eq!(table.find_block_idx(b"e"), 1);
    assert_eq!(table.find_block_idx(b"f"), 1);
    // Past the whole table.
    assert_eq!(table.find_block_idx(b"g"), 2);
}

#[test]
fn range_overlap_boundaries() {
    let table = SsTable::create_meta_only(9, 0, b"a".to_vec(), b"f".to_vec());
    assert!(table.range_overlap(&KeyBound::Unbounded, &KeyBound::Unbounded));
    // Strictly above the table.
    assert!(!table.range_overlap(&KeyBound::Included(b"g".to_vec()), &KeyBound::Unbounded));
    // Exclusive lower bound exactly at the last key.
    assert!(!table.range_overlap(&KeyBound::Excluded(b"f".to_vec()), &KeyBound::Unbounded));
    // Inclusive lower bound exactly at the last key still overlaps.
    assert!(table.range_overlap(&KeyBound::Included(b"f".to_vec()), &KeyBound::Unbounded));
    // Strictly below the table.
    assert!(!table.range_overlap(&KeyBound::Unbounded, &KeyBound::Included(b"0".to_vec())));
    // Exclusive upper bound exactly at the first key.
    assert!(!table.range_overlap(&KeyBound::Unbounded, &KeyBound::Excluded(b"a".to_vec())));
    assert!(table.range_overlap(&KeyBound::Unbounded, &KeyBound::Included(b"a".to_vec())));
    assert!(table.range_overlap(
        &KeyBound::Included(b"b".to_vec()),
        &KeyBound::Excluded(b"c".to_vec())
    ));
}

#[test]
fn file_object_read_bounds() {
    let f = FileObject::from_data(vec![1, 2, 3, 4]);
    assert_eq!(f.size(), 4);
    assert_eq!(f.read(1, 2).unwrap(), vec![2, 3]);
    assert_eq!(f.read(3, 2).unwrap_err(), TableError::OutOfBounds);
    let m = FileObject::meta_only(10);
    assert_eq!(m.read(0, 1).unwrap_err(), TableError::MissingFile);
}

#[test]
fn create_meta_only_fields() {
    let t = SsTable::create_meta_only(3, 42, b"k1".to_vec(), b"k9".to_vec());
    assert_eq!(t.sst_id(), 3);
    assert_eq!(t.table_size(), 42);
    assert_eq!(t.num_of_blocks(), 0);
    assert_eq!(t.first_key().as_slice(), b"k1");
    assert_eq!(t.last_key().as_slice(), b"k9");
    assert_eq!(t.max_ts(), 0);
}

#[test]
fn cached_read_failure_leaves_cache_unchanged() {
    let mut table = SsTable {
        file: FileObject::meta_only(100),
        block_meta: vec![meta(0, "a", "c")],
        block_meta_offset: 50,
        id: 4,
        block_cache: Some(lsm_core::table::BlockCache::new()),
        first_key: b"a".to_vec(),
        last_key: b"c".to_vec(),
        bloom: None,
        max_ts: 0,
    };
    // The failed fill propagates and memoizes nothing.
    assert_eq!(
        table.read_block_cached(0).unwrap_err(),
        TableError::MissingFile
    );
    assert!(table.block_cache.as_ref().unwrap().entries.is_empty());
}

#[test]
fn open_rejects_disordered_meta() {
    // Same layout as `table_file`, but the two blocks appear out of key
    // and offset order: the table invariant fails at open.
    let mut data = Vec::new();
    for i in 0..200u32 {
        data.push((i % 251) as u8);
    }
    let metas = vec![meta(100, "d", "f"), meta(0, "a", "c")];
    let mut meta_buf = Vec::new();
    BlockMeta::encode_block_meta(&metas, &mut meta_buf);
    let meta_offset = data.len() as u32;
    data.extend(&meta_buf);
    data.extend(be32(meta_offset));
    let bloom_offset = data.len() as u32;
    data.extend(vec![0xaau8, 0xbb, 4]);
    data.extend(be32(bloom_offset));
    assert_eq!(
        SsTable::open(0, None, FileObject::from_data(data)).unwrap_err(),
        TableError::CorruptBlockMeta
    );
}
