//! The sorted string table: an immutable file of sorted key/value blocks,
//! a block-meta index, and a bloom filter, opened read-only and searched
//! by key.
//!
//! File layout, in append order: the data blocks, the encoded block-meta
//! section, the 4-byte meta offset, the bloom filter bytes, and the
//! 4-byte bloom offset as the trailer.

use vstd::prelude::*;

use crate::codec::BlockMeta;
use crate::codec::BlockMetaView;
use crate::codec::be32_value;
use crate::codec::copy_range;
use crate::codec::metas_view;
use crate::codec::read_u32_be;
use crate::codec::spec_decode_metas;
use crate::keys::KeyBound;
use crate::keys::KeyOrdering;
use crate::keys::key_compare;
use crate::keys::lemma_lex_asym;
use crate::keys::lemma_lex_le_lt_trans;
use crate::keys::lemma_lex_total;
use crate::keys::lemma_lex_trans;
use crate::keys::lex_le;
use crate::keys::lex_lt;

verus! {

/// A failure while reading or opening a table.
#[derive(Clone, Copy, Debug, PartialEq, Eq, Structural)]
pub enum TableError {
    /// The handle carries no backing data.
    MissingFile,
    /// A read reaches beyond the end of the file.
    OutOfBounds,
    /// The file is too short for its trailer or a recorded offset.
    Truncated,
    /// The bloom filter section cannot be decoded.
    CorruptBloom,
    /// The block-meta section cannot be decoded.
    CorruptBlockMeta,
    /// The block-meta section decodes to no entries.
    EmptyBlockMeta,
    /// A block index at or past the number of blocks.
    BlockIndexOutOfRange,
}

/// An immutable byte-addressable file handle with a fixed logical size.
/// A handle without backing data carries only the size.
#[derive(Debug)]
pub struct FileObject {
    pub data: Option<Vec<u8>>,
    pub size: usize,
}

impl FileObject {
    /// The handle's size agrees with its backing data.
    pub open spec fn wf(&self) -> bool {
        match self.data {
            Some(d) => d@.len() == self.size,
            None => true,
        }
    }

    /// The backing bytes; meaningful only when data is present.
    pub open spec fn bytes(&self) -> Seq<u8> {
        self.data.unwrap()@
    }

    /// A handle over in-memory bytes.
    pub fn from_data(data: Vec<u8>) -> (r: FileObject)
        ensures
            r.wf(),
            r.data == Some(data),
            r.size == data@.len(),
    {
        let size = data.len();
        FileObject { data: Some(data), size }
    }

    /// A handle that records a size but holds no data.
    pub fn meta_only(size: usize) -> (r: FileObject)
        ensures
            r.wf(),
            r.data is None,
            r.size == size,
    {
        FileObject { data: None, size }
    }

    /// Read `len` bytes starting at `offset`.
    pub fn read(&self, offset: usize, len: usize) -> (r: Result<Vec<u8>, TableError>)
        requires
            self.wf(),
        ensures
            match r {
                Ok(v) => self.data is Some && offset + len <= self.size && v@ == self.bytes()
                    .subrange(offset as int, offset as int + len as int),
                Err(TableError::MissingFile) => self.data is None,
                Err(TableError::OutOfBounds) => self.data is Some && offset + len > self.size,
                Err(_) => false,
            },
    {
        match &self.data {
            None => Err(TableError::MissingFile),
            Some(d) => {
                if len > self.size || offset > self.size - len {
                    Err(TableError::OutOfBounds)
                } else {
                    Ok(copy_range(d, offset, len))
                }
            },
        }
    }

    /// The logical size of the file.
    pub fn size(&self) -> (r: usize)
        ensures
            r == self.size,
    {
        self.size
    }
}

/// One data block, as its raw bytes. The block codec that reads entries
/// out of it belongs to the surrounding engine.
#[derive(Debug)]
pub struct Block {
    pub data: Vec<u8>,
}

impl Block {
    /// Wrap the raw bytes of one block.
    pub fn decode(data: Vec<u8>) -> (r: Block)
        ensures
            r.data == data,
    {
        Block { data }
    }

    /// A copy of the block.
    pub fn duplicate(&self) -> (r: Block)
        ensures
            r.data@ == self.data@,
    {
        let data = copy_range(&self.data, 0, self.data.len());
        proof {
            assert(data@ =~= self.data@);
        }
        Block { data }
    }
}

/// A probabilistic membership filter over the keys of one table, stored
/// as its raw bit data followed by one byte giving the number of probes.
#[derive(Debug)]
pub struct Bloom {
    pub filter: Vec<u8>,
    pub k: u8,
}

impl Bloom {
    /// Decode a bloom section: the bit data with the probe count as the
    /// final byte.
    pub fn decode(buf: &Vec<u8>) -> (r: Result<Bloom, TableError>)
        ensures
            match r {
                Ok(b) => buf@.len() >= 1 && b.filter@ == buf@.subrange(0, buf@.len() - 1) && b.k
                    == buf@[buf@.len() - 1],
                Err(e) => buf@.len() == 0 && e == TableError::CorruptBloom,
            },
    {
        let n = buf.len();
        if n == 0 {
            return Err(TableError::CorruptBloom);
        }
        let filter = copy_range(buf, 0, n - 1);
        Ok(Bloom { filter, k: buf[n - 1] })
    }
}

/// A cache of decoded blocks keyed by table id and block offset. This is
/// the sequential in-memory model of the engine's shared cache: sharing
/// across tables, bounding, eviction and single-flight fills belong to
/// the surrounding engine.
#[derive(Debug)]
pub struct BlockCache {
    pub entries: Vec<(usize, usize, Block)>,
}

impl BlockCache {
    /// The keys under which a block is cached.
    pub open spec fn keys(&self) -> Set<(int, int)> {
        Set::new(
            |p: (int, int)|
                exists|i: int|
                    0 <= i < self.entries@.len() && (#[trigger] self.entries@[i]).0 == p.0
                        && self.entries@[i].1 == p.1,
        )
    }

    /// Every cached block under this table's id was read from a present
    /// backing file and holds that block's bytes.
    pub open spec fn consistent_with(
        &self,
        id: int,
        file: FileObject,
        meta: Seq<BlockMetaView>,
        meta_offset: int,
    ) -> bool {
        forall|i: int|
            0 <= i < self.entries@.len() && (#[trigger] self.entries@[i]).0 == id
                ==> file.data is Some && exists|b: int|
                0 <= b < meta.len() && (#[trigger] meta[b]).offset == self.entries@[i].1 as int
                    && self.entries@[i].2.data@ == file.bytes().subrange(
                    meta[b].offset,
                    block_end(meta, meta_offset, b),
                )
    }

    /// An empty cache.
    pub fn new() -> (r: BlockCache)
        ensures
            r.entries@.len() == 0,
    {
        BlockCache { entries: Vec::new() }
    }

    /// The cached block under `(id, offset)`, if one is present.
    pub fn lookup(&self, id: usize, offset: usize) -> (r: Option<&Block>)
        ensures
            match r {
                Some(b) => exists|i: int|
                    0 <= i < self.entries@.len() && (#[trigger] self.entries@[i]).0 == id
                        && self.entries@[i].1 == offset && self.entries@[i].2 == *b,
                None => !self.keys().contains((id as int, offset as int)),
            },
    {
        let mut i: usize = 0;
        while i < self.entries.len()
            invariant
                i <= self.entries@.len(),
                forall|j: int|
                    0 <= j < i ==> !((#[trigger] self.entries@[j]).0 == id && self.entries@[j].1
                        == offset),
            decreases self.entries@.len() - i,
        {
            if self.entries[i].0 == id && self.entries[i].1 == offset {
                return Some(&self.entries[i].2);
            }
            i = i + 1;
        }
        None
    }

    /// Memoize a block under `(id, offset)`.
    pub fn insert(&mut self, id: usize, offset: usize, block: Block)
        ensures
            final(self).entries@ == old(self).entries@.push((id, offset, block)),
    {
        self.entries.push((id, offset, block));
    }
}

/// How a cached read may change a cache: it is unchanged, or extended by
/// exactly the one block just read, memoized under its table id and
/// offset.
pub open spec fn cache_step(
    before: Option<BlockCache>,
    after: Option<BlockCache>,
    id: int,
    offset: int,
    bytes: Seq<u8>,
) -> bool {
    match (before, after) {
        (Option::None, Option::None) => true,
        (Option::Some(c0), Option::Some(c1)) => c1.entries@ == c0.entries@ || exists|
            e: (usize, usize, Block),
        |
            c1.entries@ == #[trigger] c0.entries@.push(e) && e.0 as int == id && e.1 as int
                == offset && e.2.data@ == bytes,
        _ => false,
    }
}

/// The end of block `b`: the next block's offset, or the start of the
/// meta section for the last block.
pub open spec fn block_end(meta: Seq<BlockMetaView>, meta_offset: int, b: int) -> int {
    if b + 1 < meta.len() {
        meta[b + 1].offset
    } else {
        meta_offset
    }
}

/// The block-meta entries of one table are well formed: each block's
/// range is non-empty, ranges are strictly increasing without overlap,
/// and offsets do not decrease.
pub open spec fn wf_meta_seq(s: Seq<BlockMetaView>) -> bool {
    &&& forall|i: int| 0 <= i < s.len() ==> lex_le((#[trigger] s[i]).first_key, s[i].last_key)
    &&& forall|i: int, j: int|
        0 <= i < j < s.len() ==> lex_lt((#[trigger] s[i]).last_key, (#[trigger] s[j]).first_key)
    &&& forall|i: int, j: int|
        0 <= i < j < s.len() ==> (#[trigger] s[i]).offset < (#[trigger] s[j]).offset
}

/// In well-formed block metadata, an offset identifies its block.
pub proof fn lemma_offset_injective(s: Seq<BlockMetaView>, i: int, j: int)
    requires
        wf_meta_seq(s),
        0 <= i < s.len(),
        0 <= j < s.len(),
        s[i].offset == s[j].offset,
    ensures
        i == j,
{
}

/// Last keys of well-formed block metadata do not decrease.
pub proof fn lemma_last_keys_sorted(s: Seq<BlockMetaView>, i: int, j: int)
    requires
        wf_meta_seq(s),
        0 <= i <= j < s.len(),
    ensures
        lex_le(s[i].last_key, s[j].last_key),
{
    if i < j {
        lemma_lex_le_lt_trans(s[i].last_key, s[j].first_key, s[j].last_key);
    }
}

/// What the trailer and sections of a table file hold once parsed.
pub ghost struct TableParse {
    pub bloom_offset: int,
    pub meta_offset: int,
    pub metas: Seq<BlockMetaView>,
    pub bloom_bytes: Seq<u8>,
}

/// Consecutive well-formedness checks carry to every pair: with each
/// block's range non-empty, each last key below the next first key, and
/// offsets strictly increasing step by step, the whole sequence is well
/// formed.
pub proof fn lemma_wf_from_consecutive(s: Seq<BlockMetaView>)
    requires
        forall|a: int| 0 <= a < s.len() ==> lex_le((#[trigger] s[a]).first_key, s[a].last_key),
        forall|a: int|
            0 <= a < s.len() - 1 ==> lex_lt((#[trigger] s[a]).last_key, s[a + 1].first_key),
        forall|a: int| 0 <= a < s.len() - 1 ==> (#[trigger] s[a]).offset < s[a + 1].offset,
    ensures
        wf_meta_seq(s),
{
    assert forall|i: int, j: int| 0 <= i < j < s.len() implies lex_lt(
        (#[trigger] s[i]).last_key,
        (#[trigger] s[j]).first_key,
    ) && s[i].offset < s[j].offset by {
        lemma_chain(s, i, j);
    }
}

proof fn lemma_chain(s: Seq<BlockMetaView>, i: int, j: int)
    requires
        forall|a: int| 0 <= a < s.len() ==> lex_le((#[trigger] s[a]).first_key, s[a].last_key),
        forall|a: int|
            0 <= a < s.len() - 1 ==> lex_lt((#[trigger] s[a]).last_key, s[a + 1].first_key),
        forall|a: int| 0 <= a < s.len() - 1 ==> (#[trigger] s[a]).offset < s[a + 1].offset,
        0 <= i < j < s.len(),
    ensures
        lex_lt(s[i].last_key, s[j].first_key),
        s[i].offset < s[j].offset,
    decreases j - i,
{
    if j > i + 1 {
        lemma_chain(s, i, j - 1);
        // last[i] < first[j-1] <= last[j-1] < first[j]
        lemma_lex_le_lt_trans(s[i].last_key, s[j - 1].first_key, s[j - 1].last_key);
        lemma_lex_trans(s[i].last_key, s[j - 1].last_key, s[j].first_key);
    }
}

/// Whether every block offset lies at or before the meta section.
pub open spec fn metas_within(ms: Seq<BlockMetaView>, meta_offset: int) -> bool {
    forall|i: int| 0 <= i < ms.len() ==> (#[trigger] ms[i]).offset <= meta_offset
}

/// Parse a table file backward from its end: the trailing 4 bytes locate
/// the bloom section, the 4 bytes before that section locate the encoded
/// block metadata, which must satisfy the table invariant: non-empty,
/// well-formed block ranges, offsets within the meta section.
pub open spec fn spec_parse_table(d: Seq<u8>) -> Result<TableParse, TableError> {
    if d.len() < 4 {
        Err(TableError::Truncated)
    } else {
        let bo = be32_value(d.subrange(d.len() - 4, d.len() as int)) as int;
        if bo + 4 > d.len() || bo < 4 {
            Err(TableError::Truncated)
        } else if bo == d.len() - 4 {
            Err(TableError::CorruptBloom)
        } else {
            let mo = be32_value(d.subrange(bo - 4, bo)) as int;
            if mo + 4 > bo {
                Err(TableError::Truncated)
            } else {
                match spec_decode_metas(d.subrange(mo, bo - 4)) {
                    None => Err(TableError::CorruptBlockMeta),
                    Some(ms) => if ms.len() == 0 {
                        Err(TableError::EmptyBlockMeta)
                    } else if !(wf_meta_seq(ms) && metas_within(ms, mo)) {
                        Err(TableError::CorruptBlockMeta)
                    } else {
                        Ok(
                            TableParse {
                                bloom_offset: bo,
                                meta_offset: mo,
                                metas: ms,
                                bloom_bytes: d.subrange(bo, d.len() - 4),
                            },
                        )
                    },
                }
            }
        }
    }
}

/// Check the table invariant over decoded block metadata: block ranges
/// non-empty, strictly increasing and non-overlapping, offsets strictly
/// increasing and within the meta section.
fn check_meta_invariant(block_meta: &Vec<BlockMeta>, meta_offset: usize) -> (r: bool)
    ensures
        r == (wf_meta_seq(metas_view(block_meta@)) && metas_within(
            metas_view(block_meta@),
            meta_offset as int,
        )),
{
    let ghost ms = metas_view(block_meta@);
    let mut ok = true;
    let mut vi: usize = 0;
    while vi < block_meta.len() && ok
        invariant
            vi <= block_meta@.len(),
            ms == metas_view(block_meta@),
            ok ==> forall|a: int|
                0 <= a < vi ==> lex_le((#[trigger] ms[a]).first_key, ms[a].last_key),
            ok ==> forall|a: int|
                0 <= a < vi && a + 1 < ms.len() ==> lex_lt(
                    (#[trigger] ms[a]).last_key,
                    ms[a + 1].first_key,
                ),
            ok ==> forall|a: int|
                0 <= a < vi && a + 1 < ms.len() ==> (#[trigger] ms[a]).offset < ms[a + 1].offset,
            ok ==> forall|a: int| 0 <= a < vi ==> (#[trigger] ms[a]).offset <= meta_offset,
            !ok ==> !(wf_meta_seq(ms) && metas_within(ms, meta_offset as int)),
        decreases block_meta@.len() - vi,
    {
        proof {
            assert(ms[vi as int] == block_meta@[vi as int]@);
            if vi + 1 < block_meta@.len() {
                assert(ms[vi as int + 1] == block_meta@[vi as int + 1]@);
            }
        }
        let m = &block_meta[vi];
        proof {
            lemma_lex_total(ms[vi as int].first_key, ms[vi as int].last_key);
            lemma_lex_asym(ms[vi as int].last_key, ms[vi as int].first_key);
        }
        if matches!(
            key_compare(m.last_key.as_slice(), m.first_key.as_slice()),
            KeyOrdering::Less
        ) {
            // The block's range is empty: its last key precedes its first.
            proof {
                assert(!lex_le(ms[vi as int].first_key, ms[vi as int].last_key));
                assert(!wf_meta_seq(ms));
            }
            ok = false;
        } else if m.offset > meta_offset {
            proof {
                assert(!metas_within(ms, meta_offset as int));
            }
            ok = false;
        } else if vi + 1 < block_meta.len() {
            let n = &block_meta[vi + 1];
            if !matches!(
                key_compare(m.last_key.as_slice(), n.first_key.as_slice()),
                KeyOrdering::Less
            ) {
                proof {
                    assert(!lex_lt(ms[vi as int].last_key, ms[vi as int + 1].first_key));
                    assert(!wf_meta_seq(ms));
                }
                ok = false;
            } else if m.offset >= n.offset {
                proof {
                    assert(!(ms[vi as int].offset < ms[vi as int + 1].offset));
                    assert(!wf_meta_seq(ms));
                }
                ok = false;
            }
        }
        vi = vi + 1;
    }
    proof {
        if ok {
            lemma_wf_from_consecutive(ms);
        }
    }
    ok
}

/// An immutable sorted string table: a file handle, the block-meta index
/// loaded at open time, an optional bloom filter, and an optional block
/// cache.
#[derive(Debug)]
pub struct SsTable {
    pub file: FileObject,
    pub block_meta: Vec<BlockMeta>,
    pub block_meta_offset: usize,
    pub id: usize,
    pub block_cache: Option<BlockCache>,
    pub first_key: Vec<u8>,
    pub last_key: Vec<u8>,
    pub bloom: Option<Bloom>,
    /// The highest version timestamp in the table. The file format
    /// carries no such field and block contents belong to the
    /// surrounding engine, so opening records the permissive
    /// placeholder `u64::MAX`; the engine maintains the true value.
    pub max_ts: u64,
}

impl SsTable {
    /// The table's index is well formed: block ranges are non-empty,
    /// strictly increasing and non-overlapping; offsets do not decrease
    /// and stay below the meta section, which lies within the file; the
    /// table bounds come from the first and last block.
    pub open spec fn wf(&self) -> bool {
        &&& self.file.wf()
        &&& wf_meta_seq(metas_view(self.block_meta@))
        &&& self.block_meta@.len() > 0
        &&& forall|i: int|
            0 <= i < self.block_meta@.len() ==> (#[trigger] self.block_meta@[i]).offset
                <= self.block_meta_offset
        &&& self.block_meta_offset <= self.file.size
        &&& self.first_key@ == self.block_meta@[0]@.first_key
        &&& self.last_key@ == self.block_meta@[self.block_meta@.len() - 1]@.last_key
        &&& match self.block_cache {
            Some(c) => c.consistent_with(
                self.id as int,
                self.file,
                metas_view(self.block_meta@),
                self.block_meta_offset as int,
            ),
            None => true,
        }
    }

    /// Open a table from a file handle, reading its sections backward
    /// from the trailer. The decoded block metadata must satisfy the
    /// table invariant — non-empty, ordered, non-overlapping block
    /// ranges with in-bounds offsets — else opening fails as a format
    /// error; a successfully opened table is therefore well formed.
    #[verifier::rlimit(100)]
    pub fn open(id: usize, block_cache: Option<BlockCache>, file: FileObject) -> (r: Result<
        SsTable,
        TableError,
    >)
        requires
            file.wf(),
            block_cache matches Some(c) ==> forall|i: int|
                0 <= i < c.entries@.len() ==> (#[trigger] c.entries@[i]).0 != id,
        ensures
            file.data is None ==> r == Err::<SsTable, TableError>(TableError::MissingFile),
            file.data is Some ==> match (r, spec_parse_table(file.bytes())) {
                (Ok(t), Ok(p)) => {
                    &&& metas_view(t.block_meta@) == p.metas
                    &&& t.block_meta_offset == p.meta_offset
                    &&& t.first_key@ == p.metas[0].first_key
                    &&& t.last_key@ == p.metas[p.metas.len() - 1].last_key
                    &&& t.bloom matches Some(b) && b.filter@ == p.bloom_bytes.subrange(
                        0,
                        p.bloom_bytes.len() - 1,
                    ) && b.k == p.bloom_bytes[p.bloom_bytes.len() - 1]
                    &&& t.id == id
                    &&& t.file == file
                    &&& t.block_cache == block_cache
                    &&& t.max_ts == u64::MAX
                    &&& t.wf()
                },
                (Err(e), Err(pe)) => e == pe,
                _ => false,
            },
    {
        let ghost d = file.bytes();
        if file.data.is_none() {
            return Err(TableError::MissingFile);
        }
        let file_size = file.size();
        if file_size < 4 {
            return Err(TableError::Truncated);
        }
        let trailer = match file.read(file_size - 4, 4) {
            Ok(v) => v,
            Err(e) => {
                return Err(e);
            },
        };
        proof {
            assert(trailer@.subrange(0, 4) =~= trailer@);
        }
        let bloom_offset = read_u32_be(&trailer, 0) as usize;
        if bloom_offset > file_size - 4 || bloom_offset < 4 {
            return Err(TableError::Truncated);
        }
        if bloom_offset == file_size - 4 {
            return Err(TableError::CorruptBloom);
        }
        let bloom_buffer = match file.read(bloom_offset, file_size - bloom_offset - 4) {
            Ok(v) => v,
            Err(e) => {
                return Err(e);
            },
        };
        let bloom = match Bloom::decode(&bloom_buffer) {
            Ok(b) => b,
            Err(e) => {
                return Err(e);
            },
        };
        let meta_trailer = match file.read(bloom_offset - 4, 4) {
            Ok(v) => v,
            Err(e) => {
                return Err(e);
            },
        };
        proof {
            assert(meta_trailer@.subrange(0, 4) =~= meta_trailer@);
        }
        let block_meta_offset = read_u32_be(&meta_trailer, 0) as usize;
        if block_meta_offset > bloom_offset - 4 {
            return Err(TableError::Truncated);
        }
        let meta_buffer = match file.read(block_meta_offset, bloom_offset - block_meta_offset - 4) {
            Ok(v) => v,
            Err(e) => {
                return Err(e);
            },
        };
        let block_meta = match BlockMeta::decode_block_meta(&meta_buffer) {
            Ok(v) => v,
            Err(_) => {
                return Err(TableError::CorruptBlockMeta);
            },
        };
        if block_meta.len() == 0 {
            return Err(TableError::EmptyBlockMeta);
        }
        let ghost ms = metas_view(block_meta@);
        if !check_meta_invariant(&block_meta, block_meta_offset) {
            return Err(TableError::CorruptBlockMeta);
        }
        let first_key = copy_range(&block_meta[0].first_key, 0, block_meta[0].first_key.len());
        let last_idx = block_meta.len() - 1;
        let last_key = copy_range(&block_meta[last_idx].last_key, 0, block_meta[last_idx].last_key.len());
        proof {
            assert(first_key@ =~= metas_view(block_meta@)[0].first_key);
            assert(last_key@ =~= metas_view(block_meta@)[block_meta@.len() - 1].last_key);
            assert forall|i: int|
                0 <= i < block_meta@.len() implies (#[trigger] block_meta@[i]).offset
                <= block_meta_offset by {
                assert(ms[i] == block_meta@[i]@);
            }
            assert(match block_cache {
                Some(c) => c.consistent_with(
                    id as int,
                    file,
                    ms,
                    block_meta_offset as int,
                ),
                None => true,
            });
        }
        Ok(
            SsTable {
                file,
                block_meta,
                block_meta_offset,
                id,
                block_cache,
                first_key,
                last_key,
                bloom: Some(bloom),
                max_ts: u64::MAX,
            },
        )
    }

    /// A mock table carrying only its id, size, and overall key bounds.
    pub fn create_meta_only(id: usize, file_size: usize, first_key: Vec<u8>, last_key: Vec<u8>) -> (r:
        SsTable)
        ensures
            r.id == id,
            r.file.data is None,
            r.file.size == file_size,
            r.block_meta@.len() == 0,
            r.block_meta_offset == 0,
            r.first_key == first_key,
            r.last_key == last_key,
            r.bloom is None,
            r.block_cache is None,
            r.max_ts == 0,
    {
        SsTable {
            file: FileObject::meta_only(file_size),
            block_meta: Vec::new(),
            block_meta_offset: 0,
            id,
            block_cache: None,
            first_key,
            last_key,
            bloom: None,
            max_ts: 0,
        }
    }

    /// The bytes of block `block_idx`: from its recorded offset to the
    /// next block's offset, or to the meta section for the last block.
    pub open spec fn spec_block_bytes(&self, b: int) -> Seq<u8> {
        self.file.bytes().subrange(
            metas_view(self.block_meta@)[b].offset,
            block_end(metas_view(self.block_meta@), self.block_meta_offset as int, b),
        )
    }

    /// Read block `block_idx` from the file.
    pub fn read_block(&self, block_idx: usize) -> (r: Result<Block, TableError>)
        requires
            self.wf(),
        ensures
            match r {
                Ok(b) => block_idx < self.block_meta@.len() && self.file.data is Some && b.data@
                    == self.spec_block_bytes(block_idx as int),
                Err(TableError::BlockIndexOutOfRange) => block_idx >= self.block_meta@.len(),
                Err(TableError::MissingFile) => block_idx < self.block_meta@.len()
                    && self.file.data is None,
                Err(_) => false,
            },
    {
        if block_idx >= self.block_meta.len() {
            return Err(TableError::BlockIndexOutOfRange);
        }
        let offset = self.block_meta[block_idx].offset;
        let next_offset = if block_idx + 1 < self.block_meta.len() {
            self.block_meta[block_idx + 1].offset
        } else {
            self.block_meta_offset
        };
        proof {
            assert(metas_view(self.block_meta@)[block_idx as int] == self.block_meta@[block_idx as int]@);
            if block_idx + 1 < self.block_meta@.len() {
                assert(metas_view(self.block_meta@)[block_idx as int + 1] == self.block_meta@[
                    block_idx as int + 1]@);
            }
        }
        let block_buffer = match self.file.read(offset, next_offset - offset) {
            Ok(v) => v,
            Err(TableError::MissingFile) => {
                return Err(TableError::MissingFile);
            },
            Err(e) => {
                proof {
                    assert(false);
                }
                return Err(e);
            },
        };
        Ok(Block::decode(block_buffer))
    }

    /// Read block `block_idx`, serving it from the block cache when one
    /// is configured and memoizing a miss; without a cache this reads the
    /// file directly.
    pub fn read_block_cached(&mut self, block_idx: usize) -> (r: Result<Block, TableError>)
        requires
            old(self).wf(),
        ensures
            final(self).wf(),
            final(self).file == old(self).file,
            final(self).block_meta == old(self).block_meta,
            final(self).block_meta_offset == old(self).block_meta_offset,
            final(self).id == old(self).id,
            final(self).first_key == old(self).first_key,
            final(self).last_key == old(self).last_key,
            r is Err ==> final(self).block_cache == old(self).block_cache,
            r is Ok ==> cache_step(
                old(self).block_cache,
                final(self).block_cache,
                old(self).id as int,
                old(self).block_meta@[block_idx as int]@.offset,
                old(self).spec_block_bytes(block_idx as int),
            ),
            match r {
                Ok(b) => block_idx < old(self).block_meta@.len() && old(self).file.data is Some
                    && b.data@ == old(self).spec_block_bytes(block_idx as int),
                Err(TableError::BlockIndexOutOfRange) => block_idx >= old(self).block_meta@.len(),
                Err(TableError::MissingFile) => block_idx < old(self).block_meta@.len() && old(
                    self,
                ).file.data is None,
                Err(_) => false,
            },
    {
        if block_idx >= self.block_meta.len() {
            return Err(TableError::BlockIndexOutOfRange);
        }
        let offset = self.block_meta[block_idx].offset;
        let use_cache = self.block_cache.is_some();
        if use_cache {
            let cache = self.block_cache.as_ref().unwrap();
            match cache.lookup(self.id, offset) {
                Some(b) => {
                    let ghost ms = metas_view(self.block_meta@);
                    proof {
                        let i = choose|i: int|
                            0 <= i < cache.entries@.len() && (#[trigger] cache.entries@[i]).0
                                == self.id && cache.entries@[i].1 == offset && cache.entries@[i].2
                                == *b;
                        assert(cache.consistent_with(
                            self.id as int,
                            self.file,
                            ms,
                            self.block_meta_offset as int,
                        ));
                        let bidx = choose|bi: int|
                            0 <= bi < ms.len() && (#[trigger] ms[bi]).offset == cache.entries@[i].1
                                as int && cache.entries@[i].2.data@ == self.file.bytes().subrange(
                                ms[bi].offset,
                                block_end(ms, self.block_meta_offset as int, bi),
                            );
                        lemma_offset_injective(ms, bidx, block_idx as int);
                    }
                    return Ok(b.duplicate());
                },
                None => {},
            }
        }
        let read = self.read_block(block_idx);
        match read {
            Ok(b) => {
                if use_cache {
                    let copy = b.duplicate();
                    let cache = self.block_cache.as_mut().unwrap();
                    let ghost old_cache = *cache;
                    cache.insert(self.id, offset, copy);
                    proof {
                        assert forall|i: int|
                            0 <= i < cache.entries@.len() && (#[trigger] cache.entries@[i]).0
                                == self.id as int implies exists|bi: int|
                            0 <= bi < metas_view(self.block_meta@).len() && (#[trigger] metas_view(
                                self.block_meta@,
                            )[bi]).offset == cache.entries@[i].1 as int && cache.entries@[i].2.data@
                                == self.file.bytes().subrange(
                                metas_view(self.block_meta@)[bi].offset,
                                block_end(
                                    metas_view(self.block_meta@),
                                    self.block_meta_offset as int,
                                    bi,
                                ),
                            ) by {
                            if i < old_cache.entries@.len() {
                                assert(old_cache.consistent_with(
                                    self.id as int,
                                    self.file,
                                    metas_view(self.block_meta@),
                                    self.block_meta_offset as int,
                                ));
                                assert(cache.entries@[i] == old_cache.entries@[i]);
                            } else {
                                assert(cache.entries@[i].0 == self.id && cache.entries@[i].1
                                    == offset && cache.entries@[i].2.data@ == b.data@);
                                assert(metas_view(self.block_meta@)[block_idx as int].offset
                                    == offset as int);
                            }
                        }
                    }
                }
                Ok(b)
            },
            Err(e) => Err(e),
        }
    }

    /// Number of data blocks in the table.
    pub fn num_of_blocks(&self) -> (r: usize)
        ensures
            r == self.block_meta@.len(),
    {
        self.block_meta.len()
    }

    /// The first key of the table.
    pub fn first_key(&self) -> (r: &Vec<u8>)
        ensures
            r == &self.first_key,
    {
        &self.first_key
    }

    /// The last key of the table.
    pub fn last_key(&self) -> (r: &Vec<u8>)
        ensures
            r == &self.last_key,
    {
        &self.last_key
    }

    /// The size in bytes of the table file.
    pub fn table_size(&self) -> (r: usize)
        ensures
            r == self.file.size,
    {
        self.file.size
    }

    /// The table's identifier.
    pub fn sst_id(&self) -> (r: usize)
        ensures
            r == self.id,
    {
        self.id
    }

    /// The highest version timestamp stored in the table.
    pub fn max_ts(&self) -> (r: u64)
        ensures
            r == self.max_ts,
    {
        self.max_ts
    }

    /// Find the block that may contain `key`: the first block whose last
    /// key is at or above `key`, by binary search; the number of blocks
    /// when every block ends below `key`.
    pub fn find_block_idx(&self, key: &[u8]) -> (r: usize)
        requires
            self.wf(),
        ensures
            r <= self.block_meta@.len(),
            forall|j: int|
                0 <= j < r ==> lex_lt((#[trigger] metas_view(self.block_meta@)[j]).last_key, key@),
            r < self.block_meta@.len() ==> lex_le(
                key@,
                metas_view(self.block_meta@)[r as int].last_key,
            ),
    {
        let ghost ms = metas_view(self.block_meta@);
        let mut lo: usize = 0;
        let mut hi: usize = self.block_meta.len();
        while lo < hi
            invariant
                0 <= lo <= hi <= ms.len(),
                ms == metas_view(self.block_meta@),
                wf_meta_seq(ms),
                forall|j: int| 0 <= j < lo ==> lex_lt((#[trigger] ms[j]).last_key, key@),
                forall|j: int| hi <= j < ms.len() ==> lex_le(key@, (#[trigger] ms[j]).last_key),
            decreases hi - lo,
        {
            let mid = lo + (hi - lo) / 2;
            proof {
                assert(ms[mid as int] == self.block_meta@[mid as int]@);
            }
            match key_compare(self.block_meta[mid].last_key.as_slice(), key) {
                KeyOrdering::Less => {
                    proof {
                        assert forall|j: int| 0 <= j < mid + 1 implies lex_lt(
                            (#[trigger] ms[j]).last_key,
                            key@,
                        ) by {
                            lemma_last_keys_sorted(ms, j, mid as int);
                            lemma_lex_le_lt_trans(ms[j].last_key, ms[mid as int].last_key, key@);
                        }
                    }
                    lo = mid + 1;
                },
                _ => {
                    proof {
                        lemma_lex_total(key@, ms[mid as int].last_key);
                        assert forall|j: int| mid <= j < ms.len() implies lex_le(
                            key@,
                            (#[trigger] ms[j]).last_key,
                        ) by {
                            lemma_last_keys_sorted(ms, mid as int, j);
                            lemma_lex_le_lt_trans(key@, ms[mid as int].last_key, ms[j].last_key);
                        }
                    }
                    hi = mid;
                },
            }
        }
        lo
    }

    /// Whether the table's overall key range intersects the query range
    /// `[lower, upper]`, with the exact semantics of each bound kind.
    pub fn range_overlap(&self, lower: &KeyBound, upper: &KeyBound) -> (r: bool)
        ensures
            r == spec_range_overlap(*lower, *upper, self.first_key@, self.last_key@),
    {
        proof {
            match lower {
                KeyBound::Included(s) => {
                    lemma_lex_total(self.last_key@, s@);
                    lemma_lex_asym(self.last_key@, s@);
                    lemma_lex_asym(s@, self.last_key@);
                },
                KeyBound::Excluded(s) => {
                    lemma_lex_total(self.last_key@, s@);
                    lemma_lex_asym(self.last_key@, s@);
                    lemma_lex_asym(s@, self.last_key@);
                },
                KeyBound::Unbounded => {},
            }
            match upper {
                KeyBound::Included(s) => {
                    lemma_lex_total(s@, self.first_key@);
                    lemma_lex_asym(s@, self.first_key@);
                    lemma_lex_asym(self.first_key@, s@);
                },
                KeyBound::Excluded(s) => {
                    lemma_lex_total(s@, self.first_key@);
                    lemma_lex_asym(s@, self.first_key@);
                    lemma_lex_asym(self.first_key@, s@);
                },
                KeyBound::Unbounded => {},
            }
        }
        let lower_out_of_bound = match lower {
            KeyBound::Included(s) => matches!(
                key_compare(self.last_key.as_slice(), s.as_slice()),
                KeyOrdering::Less
            ),
            KeyBound::Excluded(s) => !matches!(
                key_compare(self.last_key.as_slice(), s.as_slice()),
                KeyOrdering::Greater
            ),
            KeyBound::Unbounded => false,
        };
        let upper_out_of_bound = match upper {
            KeyBound::Included(s) => matches!(
                key_compare(s.as_slice(), self.first_key.as_slice()),
                KeyOrdering::Less
            ),
            KeyBound::Excluded(s) => !matches!(
                key_compare(s.as_slice(), self.first_key.as_slice()),
                KeyOrdering::Greater
            ),
            KeyBound::Unbounded => false,
        };
        !lower_out_of_bound && !upper_out_of_bound
    }
}

/// Whether the query range `[lower, upper]` can intersect a table whose
/// keys span `[first, last]`: false exactly when the whole query range
/// lies above `last` or below `first`.
pub open spec fn spec_range_overlap(
    lower: KeyBound,
    upper: KeyBound,
    first: Seq<u8>,
    last: Seq<u8>,
) -> bool {
    let lower_out = match lower {
        KeyBound::Included(s) => lex_lt(last, s@),
        KeyBound::Excluded(s) => lex_le(last, s@),
        KeyBound::Unbounded => false,
    };
    let upper_out = match upper {
        KeyBound::Included(s) => lex_lt(s@, first),
        KeyBound::Excluded(s) => lex_le(s@, first),
        KeyBound::Unbounded => false,
    };
    !lower_out && !upper_out
}

/// A query range that the overlap test rejects shares no key with the
/// table: no key both lies inside `[lower, upper]` and inside
/// `[first, last]`. In particular the test returns false for a query
/// range strictly above or strictly below the table.
pub proof fn lemma_no_overlap_no_common_key(
    lower: KeyBound,
    upper: KeyBound,
    first: Seq<u8>,
    last: Seq<u8>,
    k: Seq<u8>,
)
    requires
        !spec_range_overlap(lower, upper, first, last),
        crate::keys::in_range(lower, upper, k),
    ensures
        !(lex_le(first, k) && lex_le(k, last)),
{
    if lex_le(first, k) && lex_le(k, last) {
        match lower {
            KeyBound::Included(s) => {
                if lex_lt(last, s@) {
                    // s <= k and k <= last give s <= last, against last < s.
                    lemma_lex_le_lt_trans(s@, k, last);
                    lemma_lex_le_lt_trans(s@, last, s@);
                    lemma_lex_asym(s@, s@);
                    lemma_lex_asym(last, s@);
                }
            },
            KeyBound::Excluded(s) => {
                if lex_le(last, s@) {
                    lemma_lex_le_lt_trans(s@, k, last);
                    lemma_lex_le_lt_trans(last, s@, last);
                    lemma_lex_asym(last, last);
                    lemma_lex_asym(s@, last);
                }
            },
            KeyBound::Unbounded => {},
        }
        match upper {
            KeyBound::Included(s) => {
                if lex_lt(s@, first) {
                    lemma_lex_le_lt_trans(first, k, s@);
                    lemma_lex_le_lt_trans(first, s@, first);
                    lemma_lex_asym(first, first);
                    lemma_lex_asym(s@, first);
                }
            },
            KeyBound::Excluded(s) => {
                if lex_le(s@, first) {
                    lemma_lex_le_lt_trans(first, k, s@);
                    lemma_lex_le_lt_trans(s@, first, s@);
                    lemma_lex_asym(s@, s@);
                    lemma_lex_asym(first, s@);
                }
            },
            KeyBound::Unbounded => {},
        }
    }
}

/// A key inside some block's range is found by the block search: that
/// block is the first whose last key is at or above the key, and no other
/// block's range holds the key.
pub proof fn lemma_find_block_unique(s: Seq<BlockMetaView>, key: Seq<u8>, i: int)
    requires
        wf_meta_seq(s),
        0 <= i < s.len(),
        lex_le(s[i].first_key, key),
        lex_le(key, s[i].last_key),
    ensures
        forall|j: int| 0 <= j < i ==> lex_lt((#[trigger] s[j]).last_key, key),
        forall|j: int|
            0 <= j < s.len() && j != i ==> !(lex_le((#[trigger] s[j]).first_key, key) && lex_le(
                key,
                s[j].last_key,
            )),
{
    assert forall|j: int| 0 <= j < i implies lex_lt((#[trigger] s[j]).last_key, key) by {
        // last_key[j] < first_key[i] <= key
        lemma_lex_trans_lt_le(s[j].last_key, s[i].first_key, key);
    }
    assert forall|j: int|
        0 <= j < s.len() && j != i implies !(lex_le((#[trigger] s[j]).first_key, key) && lex_le(
        key,
        s[j].last_key,
    )) by {
        if j < i {
            // key > last_key[j], so key <= last_key[j] cannot hold.
            lemma_lex_trans_lt_le(s[j].last_key, s[i].first_key, key);
            lemma_lex_asym(s[j].last_key, key);
            if lex_le(key, s[j].last_key) {
                lemma_lex_le_lt_trans(key, s[j].last_key, key);
                lemma_lex_asym(key, key);
                lemma_lex_asym(key, s[j].last_key);
            }
        } else {
            // key <= last_key[i] < first_key[j], so first_key[j] <= key cannot hold.
            lemma_lex_le_lt_trans(key, s[i].last_key, s[j].first_key);
            if lex_le(s[j].first_key, key) {
                lemma_lex_le_lt_trans(s[j].first_key, key, s[j].first_key);
                lemma_lex_asym(s[j].first_key, s[j].first_key);
                lemma_lex_asym(key, s[j].first_key);
            }
        }
    }
}

/// Two indices that both answer the block search coincide.
pub proof fn lemma_lower_bound_unique(s: Seq<BlockMetaView>, key: Seq<u8>, r1: int, r2: int)
    requires
        0 <= r1 <= s.len(),
        0 <= r2 <= s.len(),
        forall|j: int| 0 <= j < r1 ==> lex_lt((#[trigger] s[j]).last_key, key),
        forall|j: int| 0 <= j < r2 ==> lex_lt((#[trigger] s[j]).last_key, key),
        r1 < s.len() ==> lex_le(key, s[r1].last_key),
        r2 < s.len() ==> lex_le(key, s[r2].last_key),
    ensures
        r1 == r2,
{
    if r1 < r2 {
        lemma_lex_le_lt_trans(key, s[r1].last_key, key);
        lemma_lex_asym(key, key);
        lemma_lex_asym(s[r1].last_key, key);
    }
    if r2 < r1 {
        lemma_lex_le_lt_trans(key, s[r2].last_key, key);
        lemma_lex_asym(key, key);
        lemma_lex_asym(s[r2].last_key, key);
    }
}

/// A non-strict bound after a strict one stays strict.
proof fn lemma_lex_trans_lt_le(a: Seq<u8>, b: Seq<u8>, c: Seq<u8>)
    ensures
        lex_lt(a, b) && lex_le(b, c) ==> lex_lt(a, c),
{
    lemma_lex_le_lt_trans(a, b, c);
}

} // verus!
