//! Binary codec for the block-meta index of a sorted string table.
//!
//! Each block's metadata is laid out as: 4-byte big-endian offset,
//! 4-byte first-key length, the first-key bytes, 4-byte last-key length,
//! the last-key bytes, with no separators.

use vstd::prelude::*;

use bytes::Buf;
use bytes::BufMut;

verus! {

/// The four big-endian bytes of a 32-bit integer.
pub open spec fn be32_bytes(n: u32) -> Seq<u8> {
    seq![
        (n >> 24) as u8,
        ((n >> 16) & 0xff) as u8,
        ((n >> 8) & 0xff) as u8,
        (n & 0xff) as u8,
    ]
}

/// The 32-bit integer read from four big-endian bytes.
pub open spec fn be32_value(s: Seq<u8>) -> u32
    recommends
        s.len() == 4,
{
    (((s[0] as u32) << 24) | ((s[1] as u32) << 16) | ((s[2] as u32) << 8) | (s[3] as u32)) as u32
}

/// Writing an integer big-endian and reading it back is the identity.
pub proof fn lemma_be32_roundtrip(n: u32)
    ensures
        be32_value(be32_bytes(n)) == n,
{
    let b0 = (n >> 24) as u8;
    let b1 = ((n >> 16) & 0xff) as u8;
    let b2 = ((n >> 8) & 0xff) as u8;
    let b3 = (n & 0xff) as u8;
    assert((((b0 as u32) << 24) | ((b1 as u32) << 16) | ((b2 as u32) << 8) | (b3 as u32)) == n)
        by (bit_vector)
        requires
            b0 == (n >> 24) as u8,
            b1 == ((n >> 16) & 0xff) as u8,
            b2 == ((n >> 8) & 0xff) as u8,
            b3 == (n & 0xff) as u8,
    ;
}

/// Relies on `bytes::BufMut::put_u32` for `Vec<u8>`: appends the four
/// big-endian bytes of `n` to the buffer.
#[verifier::external_body]
pub(crate) fn put_u32_be(buf: &mut Vec<u8>, n: u32)
    requires
        old(buf)@.len() + 4 <= 0x7fff_ffff_ffff_ffff,
    ensures
        final(buf)@ == old(buf)@ + be32_bytes(n),
{
    buf.put_u32(n);
}

/// Relies on `bytes::BufMut::put_slice` for `Vec<u8>`: appends the bytes
/// of `src` to the buffer.
#[verifier::external_body]
pub(crate) fn put_slice_bytes(buf: &mut Vec<u8>, src: &[u8])
    requires
        old(buf)@.len() + src@.len() <= 0x7fff_ffff_ffff_ffff,
    ensures
        final(buf)@ == old(buf)@ + src@,
{
    buf.put_slice(src);
}

/// Relies on `bytes::Buf::get_u32` for `&[u8]`: reads a big-endian
/// 32-bit integer from the four bytes at `pos`.
#[verifier::external_body]
pub(crate) fn read_u32_be(buf: &Vec<u8>, pos: usize) -> (r: u32)
    requires
        pos + 4 <= buf@.len(),
    ensures
        r == be32_value(buf@.subrange(pos as int, pos as int + 4)),
{
    let mut s: &[u8] = &buf[pos..pos + 4];
    s.get_u32()
}

/// A copy of the bytes of `buf` from `start` to `start + len`.
pub fn copy_range(buf: &Vec<u8>, start: usize, len: usize) -> (r: Vec<u8>)
    requires
        start + len <= buf@.len(),
    ensures
        r@ == buf@.subrange(start as int, start as int + len as int),
{
    let n = buf.len();
    let mut out: Vec<u8> = Vec::new();
    let mut i: usize = 0;
    while i < len
        invariant
            n == buf@.len(),
            start + len <= buf@.len(),
            i <= len,
            out@ == buf@.subrange(start as int, start as int + i as int),
        decreases len - i,
    {
        out.push(buf[start + i]);
        proof {
            assert(out@ =~= buf@.subrange(start as int, start as int + (i + 1) as int));
        }
        i = i + 1;
    }
    out
}

/// A copy of a byte slice as an owned vector.
pub fn slice_to_vec(s: &[u8]) -> (r: Vec<u8>)
    ensures
        r@ == s@,
{
    let mut out: Vec<u8> = Vec::new();
    let mut i: usize = 0;
    while i < s.len()
        invariant
            i <= s@.len(),
            out@ == s@.subrange(0, i as int),
        decreases s@.len() - i,
    {
        out.push(s[i]);
        proof {
            assert(out@ =~= s@.subrange(0, i as int + 1));
        }
        i = i + 1;
    }
    proof {
        assert(s@.subrange(0, s@.len() as int) =~= s@);
    }
    out
}

/// Metadata of one data block: its byte offset in the table file and the
/// inclusive first and last keys it stores.
#[derive(Debug)]
pub struct BlockMeta {
    pub offset: usize,
    pub first_key: Vec<u8>,
    pub last_key: Vec<u8>,
}

/// Mathematical image of a [`BlockMeta`].
pub ghost struct BlockMetaView {
    pub offset: int,
    pub first_key: Seq<u8>,
    pub last_key: Seq<u8>,
}

impl View for BlockMeta {
    type V = BlockMetaView;

    open spec fn view(&self) -> BlockMetaView {
        BlockMetaView {
            offset: self.offset as int,
            first_key: self.first_key@,
            last_key: self.last_key@,
        }
    }
}

/// Whether a block's metadata fits the fixed-width binary layout.
pub open spec fn meta_fits(m: BlockMetaView) -> bool {
    &&& 0 <= m.offset <= u32::MAX
    &&& m.first_key.len() <= u32::MAX
    &&& m.last_key.len() <= u32::MAX
}

/// The encoding of one block's metadata.
pub open spec fn spec_encode_meta(m: BlockMetaView) -> Seq<u8> {
    be32_bytes(m.offset as u32) + be32_bytes(m.first_key.len() as u32) + m.first_key
        + be32_bytes(m.last_key.len() as u32) + m.last_key
}

/// The encoding of a sequence of block metadata, in order, with no
/// separators.
pub open spec fn spec_encode_metas(s: Seq<BlockMetaView>) -> Seq<u8>
    decreases s.len(),
{
    if s.len() == 0 {
        Seq::empty()
    } else {
        spec_encode_meta(s[0]) + spec_encode_metas(s.drop_first())
    }
}

/// The decoding of a buffer into block metadata, consuming the exact
/// layout until the buffer is exhausted; `None` when the buffer is not a
/// valid encoding.
pub open spec fn spec_decode_metas(b: Seq<u8>) -> Option<Seq<BlockMetaView>>
    decreases b.len(),
{
    if b.len() == 0 {
        Some(Seq::empty())
    } else if b.len() < 8 {
        None
    } else {
        let offset = be32_value(b.subrange(0, 4));
        let k1 = be32_value(b.subrange(4, 8)) as int;
        if 12 + k1 > b.len() {
            None
        } else {
            let first_key = b.subrange(8, 8 + k1);
            let k2 = be32_value(b.subrange(8 + k1, 12 + k1)) as int;
            if 12 + k1 + k2 > b.len() {
                None
            } else {
                let last_key = b.subrange(12 + k1, 12 + k1 + k2);
                match spec_decode_metas(b.skip(12 + k1 + k2)) {
                    Some(rest) => Some(
                        seq![
                            BlockMetaView { offset: offset as int, first_key, last_key },
                        ] + rest,
                    ),
                    None => None,
                }
            }
        }
    }
}

/// The views of a sequence of block metadata.
pub open spec fn metas_view(s: Seq<BlockMeta>) -> Seq<BlockMetaView> {
    s.map_values(|m: BlockMeta| m@)
}

/// Encoding distributes over concatenation of meta sequences.
pub proof fn lemma_encode_metas_app(x: Seq<BlockMetaView>, y: Seq<BlockMetaView>)
    ensures
        spec_encode_metas(x + y) == spec_encode_metas(x) + spec_encode_metas(y),
    decreases x.len(),
{
    if x.len() == 0 {
        assert(x + y =~= y);
        assert(spec_encode_metas(x) + spec_encode_metas(y) =~= spec_encode_metas(y));
    } else {
        lemma_encode_metas_app(x.drop_first(), y);
        assert((x + y).drop_first() =~= x.drop_first() + y);
        assert(spec_encode_meta((x + y)[0]) + (spec_encode_metas(x.drop_first())
            + spec_encode_metas(y)) =~= (spec_encode_meta(x[0]) + spec_encode_metas(
            x.drop_first(),
        )) + spec_encode_metas(y));
    }
}

/// Decoding an encoded sequence of block metadata yields the sequence
/// back, bit-exactly, whenever every entry fits the 32-bit layout.
pub proof fn lemma_meta_roundtrip(s: Seq<BlockMetaView>)
    requires
        forall|i: int| 0 <= i < s.len() ==> meta_fits(#[trigger] s[i]),
    ensures
        spec_decode_metas(spec_encode_metas(s)) == Some(s),
    decreases s.len(),
{
    let e = spec_encode_metas(s);
    if s.len() == 0 {
        assert(Seq::<BlockMetaView>::empty() =~= s);
    } else {
        let m = s[0];
        assert(meta_fits(m));
        let h = spec_encode_meta(m);
        let t = spec_encode_metas(s.drop_first());
        assert(e == h + t);
        let k1 = m.first_key.len() as int;
        let k2 = m.last_key.len() as int;
        assert(h.len() == 12 + k1 + k2);
        lemma_be32_roundtrip(m.offset as u32);
        lemma_be32_roundtrip(k1 as u32);
        lemma_be32_roundtrip(k2 as u32);
        assert(e.subrange(0, 4) =~= be32_bytes(m.offset as u32));
        assert(e.subrange(4, 8) =~= be32_bytes(k1 as u32));
        assert(e.subrange(8, 8 + k1) =~= m.first_key);
        assert(e.subrange(8 + k1, 12 + k1) =~= be32_bytes(k2 as u32));
        assert(e.subrange(12 + k1, 12 + k1 + k2) =~= m.last_key);
        assert(e.skip(12 + k1 + k2) =~= t);
        lemma_meta_roundtrip(s.drop_first());
        assert(be32_value(e.subrange(0, 4)) as int == m.offset);
        assert(be32_value(e.subrange(4, 8)) as int == k1);
        assert(be32_value(e.subrange(8 + k1, 12 + k1)) as int == k2);
        assert(spec_decode_metas(e) == Some(seq![m] + s.drop_first()));
        assert(seq![m] + s.drop_first() =~= s);
    }
}

impl BlockMeta {
    /// Append the encoding of `block_meta` to `buf`.
    pub fn encode_block_meta(block_meta: &[BlockMeta], buf: &mut Vec<u8>)
        requires
            forall|i: int| 0 <= i < block_meta@.len() ==> meta_fits(#[trigger] block_meta@[i]@),
            old(buf)@.len() + spec_encode_metas(metas_view(block_meta@)).len()
                <= 0x7fff_ffff_ffff_ffff,
        ensures
            final(buf)@ == old(buf)@ + spec_encode_metas(metas_view(block_meta@)),
    {
        let ghost all = metas_view(block_meta@);
        let ghost orig = buf@;
        let mut i: usize = 0;
        proof {
            assert(all.take(0) =~= Seq::<BlockMetaView>::empty());
            assert(buf@ =~= orig + spec_encode_metas(all.take(0)));
        }
        while i < block_meta.len()
            invariant
                i <= block_meta@.len(),
                forall|j: int| 0 <= j < block_meta@.len() ==> meta_fits(#[trigger] block_meta@[j]@),
                all == metas_view(block_meta@),
                orig.len() + spec_encode_metas(all).len() <= 0x7fff_ffff_ffff_ffff,
                buf@ == orig + spec_encode_metas(all.take(i as int)),
            decreases block_meta@.len() - i,
        {
            let m = &block_meta[i];
            proof {
                assert(all.take(i as int) + all.skip(i as int) =~= all);
                lemma_encode_metas_app(all.take(i as int), all.skip(i as int));
                assert(all.skip(i as int)[0] == all[i as int]);
                assert(all.skip(i as int).drop_first() =~= all.skip(i as int + 1));
                lemma_encode_metas_app(all.skip(i as int + 1), Seq::empty());
                assert(spec_encode_metas(all.skip(i as int)) == spec_encode_meta(all[i as int])
                    + spec_encode_metas(all.skip(i as int + 1)));
                assert(all.take(i as int + 1) =~= all.take(i as int) + seq![all[i as int]]);
                lemma_encode_metas_app(all.take(i as int), seq![all[i as int]]);
                assert(seq![all[i as int]].drop_first() =~= Seq::<BlockMetaView>::empty());
                assert(spec_encode_metas(seq![all[i as int]]) =~= spec_encode_meta(
                    all[i as int],
                ));
            }
            put_u32_be(buf, m.offset as u32);
            put_u32_be(buf, m.first_key.len() as u32);
            put_slice_bytes(buf, m.first_key.as_slice());
            put_u32_be(buf, m.last_key.len() as u32);
            put_slice_bytes(buf, m.last_key.as_slice());
            proof {
                assert(buf@ =~= orig + spec_encode_metas(all.take(i as int + 1)));
            }
            i = i + 1;
        }
        proof {
            assert(all.take(block_meta@.len() as int) =~= all);
        }
    }
}

/// A decoding failure: the buffer is not an exact sequence of
/// fixed-layout block-meta entries.
#[derive(Clone, Copy, Debug, PartialEq, Eq, Structural)]
pub struct MetaDecodeError;

impl BlockMeta {
    /// Decode a buffer holding the exact layout written by
    /// [`BlockMeta::encode_block_meta`], until it is exhausted.
    pub fn decode_block_meta(buf: &Vec<u8>) -> (r: Result<Vec<BlockMeta>, MetaDecodeError>)
        ensures
            match r {
                Ok(v) => spec_decode_metas(buf@) == Some(metas_view(v@)),
                Err(_) => spec_decode_metas(buf@) is None,
            },
    {
        let n = buf.len();
        let mut res: Vec<BlockMeta> = Vec::new();
        let mut pos: usize = 0;
        proof {
            assert(buf@.skip(0) =~= buf@);
            assert(metas_view(res@) =~= Seq::<BlockMetaView>::empty());
        }
        while pos < n
            invariant
                n == buf@.len(),
                pos <= n,
                (spec_decode_metas(buf@) is Some) == (spec_decode_metas(buf@.skip(pos as int))
                    is Some),
                spec_decode_metas(buf@.skip(pos as int)) is Some ==> spec_decode_metas(buf@)
                    == Some(
                    metas_view(res@) + spec_decode_metas(buf@.skip(pos as int)).unwrap(),
                ),
            decreases n - pos,
        {
            let ghost rem = buf@.skip(pos as int);
            if n - pos < 8 {
                return Err(MetaDecodeError);
            }
            let offset_u32 = read_u32_be(buf, pos);
            let k1_u32 = read_u32_be(buf, pos + 4);
            let k1 = k1_u32 as usize;
            proof {
                assert(rem.subrange(0, 4) =~= buf@.subrange(pos as int, pos as int + 4));
                assert(rem.subrange(4, 8) =~= buf@.subrange(pos as int + 4, pos as int + 8));
            }
            if n - pos - 8 < k1 || n - pos - 8 - k1 < 4 {
                return Err(MetaDecodeError);
            }
            let first_key = copy_range(buf, pos + 8, k1);
            let k2_u32 = read_u32_be(buf, pos + 8 + k1);
            let k2 = k2_u32 as usize;
            proof {
                assert(rem.subrange(8, 8 + k1 as int) =~= buf@.subrange(
                    pos as int + 8,
                    pos as int + 8 + k1 as int,
                ));
                assert(rem.subrange(8 + k1 as int, 12 + k1 as int) =~= buf@.subrange(
                    pos as int + 8 + k1 as int,
                    pos as int + 12 + k1 as int,
                ));
            }
            if n - pos - 12 - k1 < k2 {
                return Err(MetaDecodeError);
            }
            let last_key = copy_range(buf, pos + 12 + k1, k2);
            let consumed = 12 + k1 + k2;
            proof {
                assert(rem.subrange(12 + k1 as int, 12 + k1 as int + k2 as int) =~= buf@.subrange(
                    pos as int + 12 + k1 as int,
                    pos as int + 12 + k1 as int + k2 as int,
                ));
                assert(rem.skip(12 + k1 as int + k2 as int) =~= buf@.skip(
                    pos as int + consumed as int,
                ));
            }
            let meta = BlockMeta { offset: offset_u32 as usize, first_key, last_key };
            let ghost old_res = res@;
            res.push(meta);
            proof {
                assert(metas_view(res@) =~= metas_view(old_res) + seq![meta@]);
                if spec_decode_metas(buf@.skip(pos as int + consumed as int)) is Some {
                    let tail = spec_decode_metas(buf@.skip(pos as int + consumed as int)).unwrap();
                    assert(spec_decode_metas(rem) == Some(seq![meta@] + tail));
                    assert(metas_view(old_res) + (seq![meta@] + tail) =~= metas_view(res@) + tail);
                }
            }
            pos = pos + consumed;
        }
        proof {
            assert(buf@.skip(pos as int) =~= Seq::<u8>::empty());
            assert(spec_decode_metas(buf@) == Some(metas_view(res@) + Seq::<BlockMetaView>::empty()));
            assert(metas_view(res@) + Seq::<BlockMetaView>::empty() =~= metas_view(res@));
        }
        Ok(res)
    }
}

} // verus!
