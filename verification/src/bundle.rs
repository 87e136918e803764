//! The bundle container: a 12-byte header, then a stream of length-prefixed
//! compressed blocks that decompress to one logical byte stream.  The stream
//! begins with the file index — one record per file: extension hash, name
//! hash, and a variant table — and continues with every file's variant
//! bodies, contiguous and in index order.
use vstd::prelude::*;
use crate::bytes::le_u32;
use crate::bytes::le_u64;
use crate::bytes::read_u32_le;
use crate::bytes::read_u64_le;

verus! {

/// One parallel body stream of a file: its kind discriminator (typically a
/// language code), the body length, and a reserved trailing word.
#[derive(Clone, Copy, PartialEq, Eq, Structural)]
pub struct Variant {
    pub kind: u32,
    pub body_size: u32,
    pub tail_size: u32,
}

/// The mathematical view of one index record.
pub struct RecordModel {
    pub ext: u64,
    pub name: u64,
    pub variants: Seq<Variant>,
}

/// One file of the index: its extension hash, name hash and variant table.
pub struct FileRecord {
    pub ext: u64,
    pub name: u64,
    pub variants: Vec<Variant>,
}

impl FileRecord {
    /// The record as its mathematical view.
    pub open spec fn model(&self) -> RecordModel {
        RecordModel { ext: self.ext, name: self.name, variants: self.variants@ }
    }

    /// The number of body bytes the file occupies in the logical stream.
    pub open spec fn body_len(&self) -> int {
        body_size_prefix(self.variants@, self.variants@.len() as int)
    }
}

/// The views of a sequence of records.
pub open spec fn models_of(fs: Seq<FileRecord>) -> Seq<RecordModel> {
    fs.map_values(|f: FileRecord| f.model())
}

/// The sum of the first `j` variant body sizes.
pub open spec fn body_size_prefix(vs: Seq<Variant>, j: int) -> int
    decreases j,
{
    if j <= 0 {
        0
    } else {
        body_size_prefix(vs, j - 1) + vs[j - 1].body_size
    }
}

/// The total body length of one record view.
pub open spec fn record_body_len(m: RecordModel) -> int {
    body_size_prefix(m.variants, m.variants.len() as int)
}

/// The sum of the body lengths of the first `i` records.
pub open spec fn records_body_prefix(ms: Seq<RecordModel>, i: int) -> int
    decreases i,
{
    if i <= 0 {
        0
    } else {
        records_body_prefix(ms, i - 1) + record_body_len(ms[i - 1])
    }
}

/// Body-size prefixes grow with the prefix length and never go negative.
pub proof fn lemma_body_prefix_mono(vs: Seq<Variant>, a: int, b: int)
    requires
        a <= b,
    ensures
        body_size_prefix(vs, a) <= body_size_prefix(vs, b),
        0 <= body_size_prefix(vs, b) || b < 0,
    decreases b,
{
    if b > 0 && a < b {
        lemma_body_prefix_mono(vs, a, b - 1);
    } else if b > 0 {
        lemma_body_prefix_mono(vs, 0, b - 1);
    }
}

/// Record body prefixes grow with the prefix length and never go negative.
pub proof fn lemma_records_prefix_mono(ms: Seq<RecordModel>, a: int, b: int)
    requires
        a <= b,
    ensures
        records_body_prefix(ms, a) <= records_body_prefix(ms, b),
        0 <= records_body_prefix(ms, b) || b < 0,
    decreases b,
{
    if b > 0 {
        lemma_body_prefix_mono(ms[b - 1].variants, 0, ms[b - 1].variants.len() as int);
        if a < b {
            lemma_records_prefix_mono(ms, a, b - 1);
        } else {
            lemma_records_prefix_mono(ms, 0, b - 1);
        }
    }
}

/// Parses `k` twelve-byte variant descriptors at `pos`.
pub open spec fn parse_variants(s: Seq<u8>, pos: int, k: int) -> Option<(Seq<Variant>, int)>
    decreases k,
{
    if k <= 0 {
        Some((Seq::empty(), pos))
    } else if 0 <= pos && pos + 12 <= s.len() {
        let v = Variant {
            kind: le_u32(s.subrange(pos, pos + 4)),
            body_size: le_u32(s.subrange(pos + 4, pos + 8)),
            tail_size: le_u32(s.subrange(pos + 8, pos + 12)),
        };
        match parse_variants(s, pos + 12, k - 1) {
            Option::None => None,
            Option::Some((vs, end)) => Some((seq![v] + vs, end)),
        }
    } else {
        None
    }
}

/// Parses `k` index records at `pos`: each holds the extension hash, the
/// name hash, the variant count and that many descriptors.
pub open spec fn parse_records(s: Seq<u8>, pos: int, k: int) -> Option<(Seq<RecordModel>, int)>
    decreases k,
{
    if k <= 0 {
        Some((Seq::empty(), pos))
    } else if 0 <= pos && pos + 20 <= s.len() {
        let ext = le_u64(s.subrange(pos, pos + 8));
        let name = le_u64(s.subrange(pos + 8, pos + 16));
        let nv = le_u32(s.subrange(pos + 16, pos + 20));
        match parse_variants(s, pos + 20, nv as int) {
            Option::None => None,
            Option::Some((vs, vend)) => match parse_records(s, vend, k - 1) {
                Option::None => None,
                Option::Some((ms, end)) => Some(
                    (seq![RecordModel { ext, name, variants: vs }] + ms, end),
                ),
            },
        }
    } else {
        None
    }
}

fn parse_variants_exec(data: &[u8], pos: usize, k: u32) -> (r: Option<(Vec<Variant>, usize)>)
    requires
        pos <= data@.len(),
    ensures
        match r {
            Some(p) => parse_variants(data@, pos as int, k as int) == Some((p.0@, p.1 as int))
                && p.1 <= data@.len(),
            None => parse_variants(data@, pos as int, k as int) is None,
        },
{
    let mut acc: Vec<Variant> = Vec::new();
    let mut cur: usize = pos;
    let mut j: u32 = 0;
    while j < k
        invariant
            j <= k,
            pos <= cur <= data@.len(),
            acc@.len() == j,
            match parse_variants(data@, cur as int, k - j) {
                Option::Some(p) => parse_variants(data@, pos as int, k as int) == Some(
                    (acc@ + p.0, p.1),
                ),
                Option::None => parse_variants(data@, pos as int, k as int) is None,
            },
        decreases k - j,
    {
        if data.len() - cur < 12 {
            return None;
        }
        let kind = read_u32_le(data, cur);
        let body_size = read_u32_le(data, cur + 4);
        let tail_size = read_u32_le(data, cur + 8);
        let v = Variant { kind, body_size, tail_size };
        proof {
            let rest = parse_variants(data@, cur + 12, k - j - 1);
            if rest is Some {
                assert(acc@ + (seq![v] + rest->Some_0.0) =~= (acc@ + seq![v]) + rest->Some_0.0);
            }
        }
        acc.push(v);
        cur = cur + 12;
        j = j + 1;
    }
    proof {
        assert(acc@ + Seq::<Variant>::empty() =~= acc@);
    }
    Some((acc, cur))
}

fn parse_records_exec(data: &[u8], num: u32) -> (r: Option<(Vec<FileRecord>, usize)>)
    ensures
        match r {
            Some(p) => parse_records(data@, 0, num as int) == Some((models_of(p.0@), p.1 as int))
                && p.1 <= data@.len(),
            None => parse_records(data@, 0, num as int) is None,
        },
{
    let mut acc: Vec<FileRecord> = Vec::new();
    let mut cur: usize = 0;
    let mut i: u32 = 0;
    while i < num
        invariant
            i <= num,
            cur <= data@.len(),
            acc@.len() == i,
            match parse_records(data@, cur as int, num - i) {
                Option::Some(p) => parse_records(data@, 0, num as int) == Some(
                    (models_of(acc@) + p.0, p.1),
                ),
                Option::None => parse_records(data@, 0, num as int) is None,
            },
        decreases num - i,
    {
        if data.len() - cur < 20 {
            return None;
        }
        let ext = read_u64_le(data, cur);
        let name = read_u64_le(data, cur + 8);
        let nv = read_u32_le(data, cur + 16);
        let parsed = parse_variants_exec(data, cur + 20, nv);
        match parsed {
            None => {
                return None;
            },
            Some((vs, vend)) => {
                let rec = FileRecord { ext, name, variants: vs };
                proof {
                    let m = RecordModel { ext, name, variants: rec.variants@ };
                    let rest = parse_records(data@, vend as int, num - i - 1);
                    if rest is Some {
                        assert(models_of(acc@) + (seq![m] + rest->Some_0.0) =~= (models_of(acc@)
                            + seq![m]) + rest->Some_0.0);
                    }
                    assert(models_of(acc@.push(rec)) =~= models_of(acc@) + seq![m]);
                }
                acc.push(rec);
                cur = vend;
                i = i + 1;
            },
        }
    }
    proof {
        assert(models_of(acc@) + Seq::<RecordModel>::empty() =~= models_of(acc@));
    }
    Some((acc, cur))
}

/// The fixed words at the start of a bundle file.
pub struct BundleHeader {
    pub version: u32,
    pub num_files: u32,
    pub reserved: u32,
}

/// Reads the twelve-byte bundle header; the block stream begins right after
/// it.
pub fn parse_header(data: &[u8]) -> (r: Option<BundleHeader>)
    ensures
        match r {
            Some(h) => data@.len() >= 12 && h.version == le_u32(data@.subrange(0, 4))
                && h.num_files == le_u32(data@.subrange(4, 8)) && h.reserved == le_u32(
                data@.subrange(8, 12),
            ),
            None => data@.len() < 12,
        },
{
    if data.len() < 12 {
        return None;
    }
    Some(
        BundleHeader {
            version: read_u32_le(data, 0),
            num_files: read_u32_le(data, 4),
            reserved: read_u32_le(data, 8),
        },
    )
}

/// The mathematical view of one on-disk block.
pub struct BlockModel {
    pub payload: Seq<u8>,
    pub stored: bool,
}

/// One block of the on-disk stream: the bytes after its four-byte length
/// prefix, and whether they are stored decompressed (a payload of exactly
/// `CHUNK_SIZE` bytes is).
pub struct Block {
    pub payload: Vec<u8>,
    pub stored: bool,
}

impl Block {
    /// The block as its mathematical view.
    pub open spec fn model(&self) -> BlockModel {
        BlockModel { payload: self.payload@, stored: self.stored }
    }
}

/// The views of a sequence of blocks.
pub open spec fn block_models(bs: Seq<Block>) -> Seq<BlockModel> {
    bs.map_values(|b: Block| b.model())
}

/// Splits the bytes from `pos` to the end into length-prefixed blocks: each
/// is a little-endian 32-bit length then that many payload bytes.  A block
/// of exactly `CHUNK_SIZE` bytes is stored decompressed.
pub open spec fn parse_blocks(s: Seq<u8>, pos: int) -> Option<Seq<BlockModel>>
    decreases s.len() - pos,
{
    if pos == s.len() {
        Some(Seq::empty())
    } else if 0 <= pos && pos + 4 <= s.len() {
        let n = le_u32(s.subrange(pos, pos + 4)) as int;
        if pos + 4 + n <= s.len() {
            match parse_blocks(s, pos + 4 + n) {
                Option::None => None,
                Option::Some(bs) => Some(
                    seq![
                        BlockModel {
                            payload: s.subrange(pos + 4, pos + 4 + n),
                            stored: n == 0x10000,
                        },
                    ] + bs,
                ),
            }
        } else {
            None
        }
    } else {
        None
    }
}

/// Splits the bytes of a bundle file after its header into blocks.  Refused
/// exactly when a length prefix is truncated or overruns the file.
pub fn split_blocks(data: &[u8], start: usize) -> (r: Option<Vec<Block>>)
    requires
        start <= data@.len(),
    ensures
        match r {
            Some(bs) => parse_blocks(data@, start as int) == Some(block_models(bs@)),
            None => parse_blocks(data@, start as int) is None,
        },
{
    let mut acc: Vec<Block> = Vec::new();
    let mut cur: usize = start;
    while cur < data.len()
        invariant
            start <= cur <= data@.len(),
            match parse_blocks(data@, cur as int) {
                Option::Some(bs) => parse_blocks(data@, start as int) == Some(
                    block_models(acc@) + bs,
                ),
                Option::None => parse_blocks(data@, start as int) is None,
            },
        decreases data@.len() - cur,
    {
        if data.len() - cur < 4 {
            return None;
        }
        let n = read_u32_le(data, cur) as usize;
        if data.len() - cur - 4 < n {
            return None;
        }
        let payload = crate::bytes::copy_range(data, cur + 4, cur + 4 + n);
        let b = Block { payload, stored: n == 0x10000 };
        proof {
            let rest = parse_blocks(data@, cur + 4 + n);
            if rest is Some {
                assert(block_models(acc@) + (seq![b.model()] + rest->Some_0) =~= (block_models(acc@)
                    + seq![b.model()]) + rest->Some_0);
            }
            assert(block_models(acc@.push(b)) =~= block_models(acc@) + seq![b.model()]);
        }
        acc.push(b);
        cur = cur + 4 + n;
    }
    proof {
        assert(block_models(acc@) + Seq::<BlockModel>::empty() =~= block_models(acc@));
    }
    Some(acc)
}

/// The decompressed bytes one block contributes to the logical stream: a
/// stored block contributes its payload unchanged; any other takes the next
/// externally decompressed chunk.
pub open spec fn chunk_bytes(b: BlockModel, d: Option<Seq<u8>>) -> Seq<u8> {
    if b.stored {
        b.payload
    } else {
        match d {
            Option::Some(c) => c,
            Option::None => Seq::empty(),
        }
    }
}

/// A stored block's decompressed bytes are its payload, byte for byte.
pub proof fn lemma_stored_chunk(b: BlockModel, d: Option<Seq<u8>>)
    requires
        b.stored,
    ensures
        chunk_bytes(b, d) == b.payload,
{
}

/// How many blocks of the sequence need external decompression.
pub open spec fn compressed_count(bs: Seq<BlockModel>) -> int
    decreases bs.len(),
{
    if bs.len() == 0 {
        0
    } else {
        (if bs[0].stored {
            0int
        } else {
            1int
        }) + compressed_count(bs.skip(1))
    }
}

/// The logical stream of a block sequence given the decompressed chunks of
/// its compressed blocks, in order.
pub open spec fn stream_of(bs: Seq<BlockModel>, ds: Seq<Seq<u8>>) -> Seq<u8>
    decreases bs.len(),
{
    if bs.len() == 0 {
        Seq::empty()
    } else if bs[0].stored {
        chunk_bytes(bs[0], None) + stream_of(bs.skip(1), ds)
    } else if ds.len() > 0 {
        chunk_bytes(bs[0], Some(ds[0])) + stream_of(bs.skip(1), ds.skip(1))
    } else {
        Seq::empty()
    }
}

/// Stitches the logical stream together: stored payloads pass through, each
/// compressed block consumes the next supplied chunk.  Refused exactly when
/// the chunk count does not match the compressed block count.
pub fn assemble_stream(blocks: &Vec<Block>, chunks: &Vec<Vec<u8>>) -> (r: Option<Vec<u8>>)
    ensures
        match r {
            Some(v) => v@ == stream_of(
                block_models(blocks@),
                chunks@.map_values(|c: Vec<u8>| c@),
            ) && compressed_count(block_models(blocks@)) == chunks@.len(),
            None => compressed_count(block_models(blocks@)) != chunks@.len(),
        },
{
    let ghost bs0 = block_models(blocks@);
    let ghost ds0 = chunks@.map_values(|c: Vec<u8>| c@);
    let mut out: Vec<u8> = Vec::new();
    let mut d: usize = 0;
    let mut i: usize = 0;
    proof {
        assert(bs0.skip(0) =~= bs0);
        assert(ds0.skip(0) =~= ds0);
    }
    while i < blocks.len()
        invariant
            i <= blocks@.len(),
            d <= chunks@.len(),
            bs0 == block_models(blocks@),
            ds0 == chunks@.map_values(|c: Vec<u8>| c@),
            compressed_count(bs0) == d + compressed_count(bs0.skip(i as int)),
            stream_of(bs0, ds0) == out@ + stream_of(bs0.skip(i as int), ds0.skip(d as int)) || (
            compressed_count(bs0) != chunks@.len() && d == chunks@.len()),
        decreases blocks@.len() - i,
    {
        proof {
            assert(bs0.skip(i as int)[0] == blocks@[i as int].model());
            assert(bs0.skip(i as int).skip(1) =~= bs0.skip(i as int + 1));
        }
        if blocks[i].stored {
            crate::bytes::push_bytes(&mut out, blocks[i].payload.as_slice());
        } else {
            if d >= chunks.len() {
                proof {
                    lemma_compressed_count_nonneg(bs0.skip(i as int + 1));
                }
                return None;
            }
            crate::bytes::push_bytes(&mut out, chunks[d].as_slice());
            proof {
                assert(ds0.skip(d as int)[0] == chunks@[d as int]@);
                assert(ds0.skip(d as int).skip(1) =~= ds0.skip(d as int + 1));
            }
            d += 1;
        }
        i += 1;
    }
    if d != chunks.len() {
        proof {
            assert(bs0.skip(i as int).len() == 0);
        }
        return None;
    }
    proof {
        assert(bs0.skip(i as int).len() == 0);
        assert(stream_of(bs0.skip(i as int), ds0.skip(d as int)) =~= Seq::<u8>::empty());
        assert(out@ + Seq::<u8>::empty() =~= out@);
    }
    Some(out)
}

/// The compressed-block count is never negative.
pub proof fn lemma_compressed_count_nonneg(bs: Seq<BlockModel>)
    ensures
        compressed_count(bs) >= 0,
    decreases bs.len(),
{
    if bs.len() > 0 {
        lemma_compressed_count_nonneg(bs.skip(1));
    }
}

/// A successful parse yields exactly the asked-for number of records.
pub proof fn lemma_parse_records_len(s: Seq<u8>, pos: int, k: int)
    requires
        parse_records(s, pos, k) is Some,
    ensures
        parse_records(s, pos, k)->Some_0.0.len() == if k <= 0 {
            0int
        } else {
            k
        },
    decreases k,
{
    if k > 0 {
        let nv = le_u32(s.subrange(pos + 16, pos + 20));
        let vend = parse_variants(s, pos + 20, nv as int)->Some_0.1;
        lemma_parse_records_len(s, vend, k - 1);
    }
}

/// The whole body region is at least as large as any partial sum reached
/// while walking record `i` up to variant `j`.
proof fn lemma_records_partial(ms: Seq<RecordModel>, i: int, j: int)
    requires
        0 <= i < ms.len(),
        0 <= j <= ms[i].variants.len(),
    ensures
        records_body_prefix(ms, ms.len() as int) >= records_body_prefix(ms, i) + body_size_prefix(
            ms[i].variants,
            j,
        ),
{
    lemma_body_prefix_mono(ms[i].variants, j, ms[i].variants.len() as int);
    lemma_records_prefix_mono(ms, i + 1, ms.len() as int);
    assert(records_body_prefix(ms, i + 1) == records_body_prefix(ms, i) + record_body_len(ms[i]));
}

/// A decoded bundle: its parsed index and the logical stream its blocks
/// decompressed to.  Every file's variant bodies stand contiguous in the
/// stream, in index order, starting where the index ends.
pub struct Bundle {
    files: Vec<FileRecord>,
    offsets: Vec<usize>,
    stream: Vec<u8>,
}

impl Bundle {
    /// The index records as mathematical views.
    pub closed spec fn models(&self) -> Seq<RecordModel> {
        models_of(self.files@)
    }

    /// The logical stream: the index bytes, then every body.
    pub closed spec fn stream_bytes(&self) -> Seq<u8> {
        self.stream@
    }

    /// Body offsets: entry `i` is where file `i`'s bodies begin; the first
    /// is where the index ends; the last is where the bodies end.
    pub closed spec fn offsets_seq(&self) -> Seq<usize> {
        self.offsets@
    }

    /// Where the index ends and the body region begins.
    pub open spec fn index_end(&self) -> int {
        self.offsets_seq()[0] as int
    }

    /// The decoded bundle is consistent: the index re-parses from the
    /// stream, and the offsets chain each file's body length through the
    /// stream without overrunning it.
    pub open spec fn wf(&self) -> bool {
        &&& self.offsets_seq().len() == self.models().len() + 1
        &&& parse_records(self.stream_bytes(), 0, self.models().len() as int) == Some(
            (self.models(), self.index_end()),
        )
        &&& forall|i: int|
            0 <= i < self.models().len() ==> #[trigger] self.offsets_seq()[i + 1] == self
                .offsets_seq()[i] + record_body_len(self.models()[i])
        &&& self.offsets_seq()[self.offsets_seq().len() - 1] <= self.stream_bytes().len()
    }

    /// Decodes a bundle from its logical stream and the header's file
    /// count.  Refused exactly when the index does not parse or the
    /// declared bodies overrun the stream.
    pub fn new(stream: Vec<u8>, num_files: u32) -> (r: Option<Bundle>)
        ensures
            match r {
                Some(b) => b.wf() && b.stream_bytes() == stream@ && b.models().len() == num_files
                    && parse_records(stream@, 0, num_files as int) == Some(
                    (b.models(), b.index_end()),
                ),
                None => match parse_records(stream@, 0, num_files as int) {
                    Option::Some(p) => p.1 + records_body_prefix(p.0, p.0.len() as int)
                        > stream@.len(),
                    Option::None => true,
                },
            },
    {
        let parsed = parse_records_exec(stream.as_slice(), num_files);
        match parsed {
            None => None,
            Some((files, index_end)) => {
                let ghost ms = models_of(files@);
                proof {
                    lemma_parse_records_len(stream@, 0, num_files as int);
                }
                let mut offsets: Vec<usize> = Vec::new();
                offsets.push(index_end);
                let mut off: usize = index_end;
                let mut i: usize = 0;
                while i < files.len()
                    invariant
                        i <= files@.len(),
                        ms == models_of(files@),
                        ms.len() == files@.len() == num_files,
                        stream@.len() >= off,
                        off == index_end + records_body_prefix(ms, i as int),
                        offsets@.len() == i + 1,
                        offsets@[0] == index_end,
                        forall|t: int|
                            0 <= t <= i ==> #[trigger] offsets@[t] == index_end
                                + records_body_prefix(ms, t),
                        parse_records(stream@, 0, num_files as int) == Some(
                            (ms, index_end as int),
                        ),
                    decreases files@.len() - i,
                {
                    let nv = files[i].variants.len();
                    let mut j: usize = 0;
                    proof {
                        assert(ms[i as int] == files@[i as int].model());
                    }
                    while j < nv
                        invariant
                            i < files@.len(),
                            j <= nv,
                            ms == models_of(files@),
                            ms.len() == files@.len() == num_files,
                            nv == files@[i as int].variants@.len(),
                            ms[i as int] == files@[i as int].model(),
                            stream@.len() >= off,
                            off == index_end + records_body_prefix(ms, i as int)
                                + body_size_prefix(ms[i as int].variants, j as int),
                            parse_records(stream@, 0, num_files as int) == Some(
                                (ms, index_end as int),
                            ),
                        decreases nv - j,
                    {
                        let bs = files[i].variants[j].body_size as usize;
                        if stream.len() - off < bs {
                            proof {
                                lemma_records_partial(ms, i as int, j + 1);
                                assert(body_size_prefix(ms[i as int].variants, j + 1)
                                    == body_size_prefix(ms[i as int].variants, j as int)
                                    + ms[i as int].variants[j as int].body_size);
                                assert(ms[i as int].variants[j as int]
                                    == files@[i as int].variants@[j as int]);
                                assert(index_end + records_body_prefix(ms, ms.len() as int)
                                    > stream@.len());
                            }
                            return None;
                        }
                        off = off + bs;
                        j += 1;
                    }
                    offsets.push(off);
                    proof {
                        assert(body_size_prefix(ms[i as int].variants, nv as int)
                            == record_body_len(ms[i as int]));
                        assert(off == index_end + records_body_prefix(ms, i as int + 1));
                    }
                    i += 1;
                }
                let b = Bundle { files, offsets, stream };
                proof {
                    assert forall|t: int| 0 <= t < b.models().len() implies #[trigger] b
                        .offsets_seq()[t + 1] == b.offsets_seq()[t] + record_body_len(
                        b.models()[t],
                    ) by {
                        assert(b.offsets_seq()[t] == index_end + records_body_prefix(ms, t));
                        assert(b.offsets_seq()[t + 1] == index_end + records_body_prefix(
                            ms,
                            t + 1,
                        ));
                    }
                }
                Some(b)
            },
        }
    }

    /// How many files the bundle holds.
    pub fn num_files(&self) -> (r: usize)
        ensures
            r == self.models().len(),
    {
        self.files.len()
    }

    /// The extension hash of file `i`.
    pub fn file_ext(&self, i: usize) -> (r: u64)
        requires
            i < self.models().len(),
        ensures
            r == self.models()[i as int].ext,
    {
        self.files[i].ext
    }

    /// The name hash of file `i`.
    pub fn file_name(&self, i: usize) -> (r: u64)
        requires
            i < self.models().len(),
        ensures
            r == self.models()[i as int].name,
    {
        self.files[i].name
    }

    /// The variant table of file `i`.
    pub fn variants(&self, i: usize) -> (r: &Vec<Variant>)
        requires
            i < self.models().len(),
        ensures
            r@ == self.models()[i as int].variants,
    {
        &self.files[i].variants
    }

    /// Every offset lies between the index end and the stream end.
    pub proof fn lemma_offsets_bounded(&self, t: int)
        requires
            self.wf(),
            0 <= t <= self.models().len(),
        ensures
            self.index_end() <= self.offsets_seq()[t] <= self.stream_bytes().len(),
            self.offsets_seq()[t] == self.index_end() + records_body_prefix(self.models(), t),
        decreases self.models().len() - t,
    {
        if t == self.models().len() {
            self.lemma_offsets_upto(t);
            lemma_records_prefix_mono(self.models(), 0, t);
        } else {
            self.lemma_offsets_bounded(t + 1);
            assert(self.offsets_seq()[t + 1] == self.offsets_seq()[t] + record_body_len(
                self.models()[t],
            ));
            lemma_body_prefix_mono(
                self.models()[t].variants,
                0,
                self.models()[t].variants.len() as int,
            );
            lemma_records_prefix_mono(self.models(), 0, t);
        }
    }

    /// The offset at `t` is the index end plus the first `t` body lengths.
    proof fn lemma_offsets_upto(&self, t: int)
        requires
            self.wf(),
            0 <= t <= self.models().len(),
        ensures
            self.offsets_seq()[t] == self.index_end() + records_body_prefix(self.models(), t),
        decreases t,
    {
        if t > 0 {
            self.lemma_offsets_upto(t - 1);
            assert(self.offsets_seq()[(t - 1) + 1] == self.offsets_seq()[t - 1] + record_body_len(
                self.models()[t - 1],
            ));
        }
    }

    /// The body bytes of file `i`: exactly the concatenation of its variant
    /// bodies, whose length is the sum of the declared variant body sizes.
    pub fn body(&self, i: usize) -> (r: Vec<u8>)
        requires
            self.wf(),
            i < self.models().len(),
        ensures
            r@ == self.stream_bytes().subrange(
                self.offsets_seq()[i as int] as int,
                self.offsets_seq()[i as int + 1] as int,
            ),
            r@.len() == record_body_len(self.models()[i as int]),
    {
        proof {
            assert(i < self.files@.len());
            assert(self.offsets_seq().len() == self.models().len() + 1);
            self.lemma_offsets_bounded(i as int);
            self.lemma_offsets_bounded(i as int + 1);
            lemma_records_prefix_mono(self.models(), i as int, i as int + 1);
            lemma_body_prefix_mono(
                self.models()[i as int].variants,
                0,
                self.models()[i as int].variants.len() as int,
            );
        }
        let n_off = self.offsets.len();
        proof {
            assert(n_off == self.offsets_seq().len());
            assert((i as int) + 1 < n_off as int);
        }
        let a = self.offsets[i];
        let b = self.offsets[i + 1];
        crate::bytes::copy_range(self.stream.as_slice(), a, b)
    }

    /// The sum of every file's body length is the size of the stream's
    /// body region: the decompressed bytes, less the index and whatever
    /// trails the declared bodies.
    pub proof fn lemma_total_body_length(&self)
        requires
            self.wf(),
        ensures
            records_body_prefix(self.models(), self.models().len() as int) == self.offsets_seq()[
                self.models().len() as int] - self.index_end(),
    {
        self.lemma_offsets_bounded(self.models().len() as int);
    }

    /// When the declared bodies reach the stream's end — a bundle with no
    /// trailing slack in its last block — the sum of every file's body
    /// length is exactly the whole decompressed length less the index.
    pub proof fn lemma_bodies_fill_stream(&self)
        requires
            self.wf(),
            self.offsets_seq()[self.offsets_seq().len() - 1] == self.stream_bytes().len(),
        ensures
            records_body_prefix(self.models(), self.models().len() as int)
                == self.stream_bytes().len() - self.index_end(),
    {
        self.lemma_total_body_length();
    }

    /// The concatenation of the first `k` files' body regions.
    pub open spec fn bodies_concat(&self, k: int) -> Seq<u8>
        decreases k,
    {
        if k <= 0 {
            Seq::empty()
        } else {
            self.bodies_concat(k - 1) + self.stream_bytes().subrange(
                self.offsets_seq()[k - 1] as int,
                self.offsets_seq()[k] as int,
            )
        }
    }

    /// The files' bodies partition the body region: their concatenation, in
    /// index order, is exactly the logical stream from the end of the index
    /// to the end of the declared bodies.
    pub proof fn lemma_bodies_partition(&self, k: int)
        requires
            self.wf(),
            0 <= k <= self.models().len(),
        ensures
            self.bodies_concat(k) == self.stream_bytes().subrange(
                self.index_end(),
                self.offsets_seq()[k] as int,
            ),
        decreases k,
    {
        self.lemma_offsets_bounded(k);
        if k == 0 {
            assert(self.bodies_concat(0) =~= self.stream_bytes().subrange(
                self.index_end(),
                self.offsets_seq()[0] as int,
            ));
        } else {
            self.lemma_bodies_partition(k - 1);
            self.lemma_offsets_bounded(k - 1);
            lemma_records_prefix_mono(self.models(), k - 1, k);
            assert(self.index_end() <= self.offsets_seq()[k - 1] <= self.offsets_seq()[k]
                <= self.stream_bytes().len());
            assert(self.stream_bytes().subrange(
                self.index_end(),
                self.offsets_seq()[k - 1] as int,
            ) + self.stream_bytes().subrange(
                self.offsets_seq()[k - 1] as int,
                self.offsets_seq()[k] as int,
            ) =~= self.stream_bytes().subrange(self.index_end(), self.offsets_seq()[k] as int));
        }
    }
}

} // verus!
