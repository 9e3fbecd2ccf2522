//! Registry and chunk format for attaching extension data to save files.
//!
//! Extensions register a tag together with save/load/init callbacks. On
//! save, each extension's data is DEFLATE-compressed and stored in a tagged
//! chunk table; on load, the table is parsed back and every chunk's data is
//! handed to the extensions registered under its tag.

use vstd::prelude::*;
use vstd::bytes::*;
use std::io::Read;
use std::io::Write;

verus! {

/// Failure modes of the save extension machinery.
#[derive(Debug)]
pub enum Error {
    /// An extension's load hook rejected its stored data; holds the tag.
    HookFail(String),
    /// The save file's extension block is malformed.
    BadSave,
}

/// One extension's participation in saving and loading. `save` returns the
/// bytes to store under the extension's tag (empty means store nothing),
/// `load` receives stored bytes back and returns nonzero on success, and
/// `init` runs when a game starts.
pub trait SaveExtension {
    fn save(&mut self) -> Vec<u8>;

    fn load(&mut self, data: &[u8]) -> u32;

    fn init(&mut self);
}

/// The registered save extensions, in registration order, each under its
/// tag. Tags may repeat; every extension under a chunk's tag sees that
/// chunk's data on load.
pub struct SaveHooks<T> {
    hooks: Vec<(String, T)>,
}

impl<T> SaveHooks<T> {
    /// The registered `(tag, extension)` pairs, in registration order.
    pub closed spec fn spec_hooks(&self) -> Seq<(String, T)> {
        self.hooks@
    }

    /// The registered tags, in registration order.
    pub open spec fn spec_tags(&self) -> Seq<Seq<char>> {
        self.spec_hooks().map_values(|p: (String, T)| p.0@)
    }

    pub fn new() -> (r: SaveHooks<T>)
        ensures
            r.spec_hooks() == Seq::<(String, T)>::empty(),
    {
        SaveHooks { hooks: Vec::new() }
    }
}

/// Appends one extension to the registry; registration is append-only.
pub fn add_hook<T>(hooks: &mut SaveHooks<T>, tag: String, hook: T)
    ensures
        final(hooks).spec_hooks() == old(hooks).spec_hooks().push((tag, hook)),
        final(hooks).spec_tags() == old(hooks).spec_tags().push(tag@),
{
    hooks.hooks.push((tag, hook));
    proof {
        assert(hooks.spec_tags() =~= old(hooks).spec_tags().push(hooks.spec_hooks().last().0@));
    }
}

/// Runs every registered extension's `init`, in registration order; the
/// registry's tags are unchanged.
pub fn call_init_hooks<T: SaveExtension>(hooks: &mut SaveHooks<T>)
    ensures
        final(hooks).spec_tags() == old(hooks).spec_tags(),
{
    let n = hooks.hooks.len();
    let mut i: usize = 0;
    while i < n
        invariant
            n == hooks.hooks@.len(),
            forall|j: int|
                0 <= j < hooks.hooks@.len() ==> (#[trigger] hooks.hooks@[j]).0 == old(
                    hooks,
                ).spec_hooks()[j].0,
        decreases n - i,
    {
        let pair = &mut hooks.hooks[i];
        pair.1.init();
        i = i + 1;
    }
    proof {
        assert(hooks.spec_tags() =~= old(hooks).spec_tags());
    }
}

// ---------------------------------------------------------------------------
// Trusted wrappers around compression and UTF-8 decoding
// ---------------------------------------------------------------------------

/// What a DEFLATE stream decompresses to; the stream's bytes determine the
/// result alone.
pub uninterp spec fn inflate_of(s: Seq<u8>) -> Seq<u8>;

/// What a byte sequence compresses to under raw DEFLATE at the default
/// level; the input bytes determine the result alone.
pub uninterp spec fn deflate_of(s: Seq<u8>) -> Seq<u8>;

/// Relies on flate2's `write::DeflateEncoder`: compresses the input as one
/// raw DEFLATE stream at the default level, and a DEFLATE stream decodes
/// back to exactly the bytes it was made from. Writing into a `Vec` sink
/// cannot fail, so the unwraps never panic.
#[verifier::external_body]
fn deflate_bytes(data: &[u8]) -> (r: Vec<u8>)
    ensures
        r@ == deflate_of(data@),
        inflate_of(r@) == data@,
{
    let mut enc = flate2::write::DeflateEncoder::new(Vec::new(), flate2::Compression::default());
    enc.write_all(data).unwrap();
    enc.finish().unwrap()
}

/// Relies on flate2's `read::DeflateDecoder`: `read_exact` fills `len`
/// bytes from the front of the decompressed stream, and fails when the
/// stream is malformed or holds fewer than `len` bytes.
#[verifier::external_body]
fn inflate_bytes(data: &[u8], len: usize) -> (r: Option<Vec<u8>>)
    ensures
        r matches Some(v) ==> v@.len() == len && inflate_of(data@).len() >= len && v@
            == inflate_of(data@).subrange(0, len as int),
{
    let mut out = vec![0u8; len];
    let mut dec = flate2::read::DeflateDecoder::new(data);
    match dec.read_exact(&mut out) {
        Ok(()) => Some(out),
        Err(_) => None,
    }
}

/// Relies on std's `str::from_utf8`: succeeds exactly on valid UTF-8 and
/// yields the characters those bytes encode.
#[verifier::external_body]
fn utf8_to_string(data: &[u8]) -> (r: Option<String>)
    ensures
        r is Some <==> vstd::utf8::valid_utf8(data@),
        r matches Some(s) ==> s@ == vstd::utf8::decode_utf8(data@),
{
    match core::str::from_utf8(data) {
        Ok(s) => Some(s.to_owned()),
        Err(_) => None,
    }
}

// ---------------------------------------------------------------------------
// The extension block format
// ---------------------------------------------------------------------------

/// Little-endian u32 at `pos`.
pub open spec fn spec_le_u32_at(s: Seq<u8>, pos: int) -> u32 {
    spec_u32_from_le_bytes(s.subrange(pos, pos + 4))
}

/// Little-endian u64 at `pos`.
pub open spec fn spec_le_u64_at(s: Seq<u8>, pos: int) -> u64 {
    spec_u64_from_le_bytes(s.subrange(pos, pos + 8))
}

/// Parsed form of one chunk-table entry.
pub ghost struct ChunkModel {
    pub tag: Seq<char>,
    pub length: int,
    pub compressed: int,
}

/// Parses `count` chunk-table entries starting at `pos`. Each entry is a
/// u64 tag length, the UTF-8 tag bytes, a u64 data length capped at
/// 0x0400_0000, and a u64 compressed size. Yields the entries and the
/// offset where the compressed data begins.
pub open spec fn spec_parse_chunks(buffer: Seq<u8>, pos: int, count: nat) -> Option<
    (Seq<ChunkModel>, int),
>
    decreases count,
{
    if count == 0 {
        Some((Seq::empty(), pos))
    } else if pos + 8 > buffer.len() {
        None
    } else {
        let name_len = spec_le_u64_at(buffer, pos) as int;
        if pos + 8 + name_len + 16 > buffer.len() {
            None
        } else {
            let name = buffer.subrange(pos + 8, pos + 8 + name_len);
            let length = spec_le_u64_at(buffer, pos + 8 + name_len) as int;
            let compressed = spec_le_u64_at(buffer, pos + 16 + name_len) as int;
            if !vstd::utf8::valid_utf8(name) {
                None
            } else if length > 0x0400_0000 {
                None
            } else {
                match spec_parse_chunks(buffer, pos + 24 + name_len, (count - 1) as nat) {
                    None => None,
                    Some((rest, end)) => Some(
                        (
                            seq![
                                ChunkModel {
                                    tag: vstd::utf8::decode_utf8(name),
                                    length: length,
                                    compressed: compressed,
                                },
                            ] + rest,
                            end,
                        ),
                    ),
                }
            }
        }
    }
}

/// Sum of the compressed sizes of the parsed entries.
pub open spec fn spec_compressed_sum(chunks: Seq<ChunkModel>) -> int
    decreases chunks.len(),
{
    if chunks.len() == 0 {
        0
    } else {
        chunks[0].compressed + spec_compressed_sum(chunks.drop_first())
    }
}

/// Parses a save extension block: a zero version word, a u64 entry count,
/// the chunk table, and the requirement that the bytes after the table
/// cover the compressed data.
pub open spec fn spec_parse_extensions(buffer: Seq<u8>) -> Option<(Seq<ChunkModel>, int)> {
    if buffer.len() < 12 {
        None
    } else if spec_le_u32_at(buffer, 0) != 0 {
        None
    } else {
        let count = spec_le_u64_at(buffer, 4);
        match spec_parse_chunks(buffer, 12, count as nat) {
            None => None,
            Some((chunks, data_pos)) => {
                if buffer.len() - data_pos < spec_compressed_sum(chunks) {
                    None
                } else {
                    Some((chunks, data_pos))
                }
            },
        }
    }
}

proof fn lemma_sum_append(a: Seq<ChunkModel>, b: Seq<ChunkModel>)
    ensures
        spec_compressed_sum(a + b) == spec_compressed_sum(a) + spec_compressed_sum(b),
    decreases a.len(),
{
    if a.len() == 0 {
        assert(a + b =~= b);
    } else {
        assert((a + b).drop_first() =~= a.drop_first() + b);
        lemma_sum_append(a.drop_first(), b);
    }
}

proof fn lemma_sum_nonneg(chunks: Seq<ChunkModel>)
    requires
        forall|j: int| 0 <= j < chunks.len() ==> (#[trigger] chunks[j]).compressed >= 0,
    ensures
        spec_compressed_sum(chunks) >= 0,
    decreases chunks.len(),
{
    if chunks.len() > 0 {
        lemma_sum_nonneg(chunks.drop_first());
    }
}

proof fn lemma_parse_chunks_props(buffer: Seq<u8>, pos: int, count: nat)
    requires
        0 <= pos <= buffer.len(),
        spec_parse_chunks(buffer, pos, count) is Some,
    ensures
        spec_parse_chunks(buffer, pos, count) matches Some((chunks, end)) ==> chunks.len() == count
            && pos <= end <= buffer.len() && (forall|j: int|
            0 <= j < chunks.len() ==> (#[trigger] chunks[j]).compressed >= 0),
    decreases count,
{
    if count == 0 {
    } else if pos + 8 > buffer.len() {
    } else {
        let name_len = spec_le_u64_at(buffer, pos) as int;
        if pos + 8 + name_len + 16 > buffer.len() {
        } else {
            lemma_parse_chunks_props(buffer, pos + 24 + name_len, (count - 1) as nat);
        }
    }
}

/// One serialized extension chunk: its tag and the sizes of its stored
/// data, uncompressed and compressed.
pub struct SerializedChunk {
    pub tag: String,
    pub length: usize,
    pub compressed: usize,
}

/// A parsed save extension block: the backing buffer, the chunk table, and
/// the offset where the compressed chunk data begins.
pub struct SaveExtensions {
    pub buffer: Vec<u8>,
    pub chunks: Vec<SerializedChunk>,
    pub buffer_pos: usize,
}

impl SaveExtensions {
    /// The chunk table is exactly what parsing the buffer yields.
    pub open spec fn wf(&self) -> bool {
        match spec_parse_extensions(self.buffer@) {
            Some((chunks, data_pos)) => {
                &&& self.buffer_pos == data_pos
                &&& self.chunks@.len() == chunks.len()
                &&& forall|k: int|
                    0 <= k < chunks.len() ==> {
                        &&& (#[trigger] self.chunks@[k]).tag@ == chunks[k].tag
                        &&& self.chunks@[k].length == chunks[k].length
                        &&& self.chunks@[k].compressed == chunks[k].compressed
                    }
            },
            None => false,
        }
    }
}

/// Parses the in-memory extension block of a save file into its chunk
/// table. Fails exactly when the block is malformed: too short, a nonzero
/// version, a truncated or non-UTF-8 chunk table, an oversized chunk, or
/// compressed data the buffer cannot cover.
pub fn iter_extensions_from_data(buffer: Vec<u8>) -> (r: Result<SaveExtensions, Error>)
    ensures
        match r {
            Ok(ext) => ext.wf() && ext.buffer@ == buffer@,
            Err(e) => e is BadSave && spec_parse_extensions(buffer@) is None,
        },
{
    let blen = buffer.len();
    if blen < 12 {
        return Err(Error::BadSave);
    }
    let vslice = vstd::slice::slice_subrange(buffer.as_slice(), 0, 4);
    let version = u32_from_le_bytes(vslice);
    proof {
        assert(version == spec_le_u32_at(buffer@, 0));
    }
    if version != 0 {
        return Err(Error::BadSave);
    }
    let cslice = vstd::slice::slice_subrange(buffer.as_slice(), 4, 12);
    let count = u64_from_le_bytes(cslice);
    proof {
        assert(count == spec_le_u64_at(buffer@, 4));
    }
    let mut chunks: Vec<SerializedChunk> = Vec::new();
    let ghost mut models: Seq<ChunkModel> = Seq::empty();
    let mut pos: usize = 12;
    let mut sum: usize = 0;
    let mut k: u64 = 0;
    while k < count
        invariant
            blen == buffer@.len(),
            12 <= pos <= blen,
            k <= count,
            blen >= 12,
            spec_le_u32_at(buffer@, 0) == 0,
            spec_le_u64_at(buffer@, 4) == count,
            chunks@.len() == models.len(),
            forall|j: int|
                0 <= j < models.len() ==> {
                    &&& (#[trigger] chunks@[j]).tag@ == models[j].tag
                    &&& chunks@[j].length == models[j].length
                    &&& chunks@[j].compressed == models[j].compressed
                },
            sum == spec_compressed_sum(models),
            match spec_parse_chunks(buffer@, pos as int, (count - k) as nat) {
                None => spec_parse_chunks(buffer@, 12, count as nat) is None,
                Some((tail, end)) => spec_parse_chunks(buffer@, 12, count as nat) == Some(
                    (models + tail, end),
                ),
            },
        decreases count - k,
    {
        let ghost models0 = models;
        let ghost pos0 = pos as int;
        let ghost remaining0 = (count - k) as nat;
        if blen - pos < 8 {
            proof {
                assert(spec_parse_chunks(buffer@, pos0, remaining0) is None);
            }
            return Err(Error::BadSave);
        }
        let nlslice = vstd::slice::slice_subrange(buffer.as_slice(), pos, pos + 8);
        let name_len64 = u64_from_le_bytes(nlslice);
        proof {
            assert(name_len64 == spec_le_u64_at(buffer@, pos0));
        }
        if name_len64 > (blen - (pos + 8)) as u64 {
            proof {
                assert(spec_parse_chunks(buffer@, pos0, remaining0) is None);
            }
            return Err(Error::BadSave);
        }
        let name_len = name_len64 as usize;
        let pos2 = pos + 8 + name_len;
        if blen - pos2 < 16 {
            proof {
                assert(spec_parse_chunks(buffer@, pos0, remaining0) is None);
            }
            return Err(Error::BadSave);
        }
        let name_slice = vstd::slice::slice_subrange(buffer.as_slice(), pos + 8, pos2);
        proof {
            assert(name_slice@ =~= buffer@.subrange(pos0 + 8, pos0 + 8 + name_len64 as int));
        }
        let tag = match utf8_to_string(name_slice) {
            Some(s) => s,
            None => {
                proof {
                    assert(spec_parse_chunks(buffer@, pos0, remaining0) is None);
                }
                return Err(Error::BadSave);
            },
        };
        let lenslice = vstd::slice::slice_subrange(buffer.as_slice(), pos2, pos2 + 8);
        let length64 = u64_from_le_bytes(lenslice);
        let compslice = vstd::slice::slice_subrange(buffer.as_slice(), pos2 + 8, pos2 + 16);
        let compressed64 = u64_from_le_bytes(compslice);
        proof {
            assert(length64 == spec_le_u64_at(buffer@, pos0 + 8 + name_len64 as int));
            assert(compressed64 == spec_le_u64_at(buffer@, pos0 + 16 + name_len64 as int));
        }
        if length64 > 0x0400_0000 {
            proof {
                assert(spec_parse_chunks(buffer@, pos0, remaining0) is None);
            }
            return Err(Error::BadSave);
        }
        let ghost m = ChunkModel {
            tag: vstd::utf8::decode_utf8(name_slice@),
            length: length64 as int,
            compressed: compressed64 as int,
        };
        proof {
            assert(spec_parse_chunks(buffer@, pos0, remaining0) == (match spec_parse_chunks(
                buffer@,
                pos0 + 24 + name_len64 as int,
                (remaining0 - 1) as nat,
            ) {
                None => None::<(Seq<ChunkModel>, int)>,
                Some((rest, end)) => Some((seq![m] + rest, end)),
            }));
        }
        if compressed64 > blen as u64 {
            proof {
                match spec_parse_chunks(buffer@, pos0 + 24 + name_len64 as int, (remaining0
                    - 1) as nat) {
                    None => {},
                    Some((rest, end)) => {
                        lemma_parse_chunks_props(
                            buffer@,
                            pos0 + 24 + name_len64 as int,
                            (remaining0 - 1) as nat,
                        );
                        lemma_sum_nonneg(rest);
                        lemma_sum_append(models, seq![m] + rest);
                        assert((seq![m] + rest).drop_first() =~= rest);
                        assert(spec_compressed_sum(models0) == sum);
                        assert(spec_compressed_sum(models + (seq![m] + rest)) > blen);
                    },
                }
            }
            return Err(Error::BadSave);
        }
        let length = length64 as usize;
        let compressed = compressed64 as usize;
        sum = match sum.checked_add(compressed) {
            Some(s) => s,
            None => {
                proof {
                    match spec_parse_chunks(buffer@, pos0 + 24 + name_len64 as int, (remaining0
                        - 1) as nat) {
                        None => {},
                        Some((rest, end)) => {
                            lemma_parse_chunks_props(
                                buffer@,
                                pos0 + 24 + name_len64 as int,
                                (remaining0 - 1) as nat,
                            );
                            lemma_sum_nonneg(rest);
                            lemma_sum_append(models, seq![m] + rest);
                            assert((seq![m] + rest).drop_first() =~= rest);
                            assert(spec_compressed_sum(models + (seq![m] + rest)) > blen);
                        },
                    }
                }
                return Err(Error::BadSave);
            },
        };
        chunks.push(SerializedChunk { tag, length, compressed });
        proof {
            models = models.push(m);
            assert(models =~= models0 + seq![m]);
            assert(spec_compressed_sum(seq![m]) == m.compressed + spec_compressed_sum(
                Seq::<ChunkModel>::empty(),
            )) by {
                assert(seq![m].drop_first() =~= Seq::<ChunkModel>::empty());
            }
            lemma_sum_append(models0, seq![m]);
            match spec_parse_chunks(buffer@, pos0 + 24 + name_len64 as int, (remaining0
                - 1) as nat) {
                None => {
                    assert(spec_parse_chunks(buffer@, pos0, remaining0) is None);
                },
                Some((tail, end)) => {
                    assert(spec_parse_chunks(buffer@, pos0, remaining0) == Some(
                        (seq![m] + tail, end),
                    ));
                    assert(models0 + (seq![m] + tail) =~= models + tail);
                },
            }
        }
        pos = pos2 + 16;
        k = k + 1;
    }
    proof {
        assert(spec_parse_chunks(buffer@, pos as int, 0) == Some(
            (Seq::<ChunkModel>::empty(), pos as int),
        ));
        assert(models + Seq::<ChunkModel>::empty() =~= models);
        assert(spec_parse_chunks(buffer@, 12, count as nat) == Some((models, pos as int)));
    }
    if blen - pos < sum {
        return Err(Error::BadSave);
    }
    Ok(SaveExtensions { buffer, chunks, buffer_pos: pos })
}

// ---------------------------------------------------------------------------
// The shape of a built extension block
// ---------------------------------------------------------------------------

/// One extension's stored block: its tag and its uncompressed data.
pub ghost struct BlockModel {
    pub tag: Seq<char>,
    pub data: Seq<u8>,
}

/// The chunk-table entry a stored block yields.
pub open spec fn spec_block_model(b: BlockModel) -> ChunkModel {
    ChunkModel {
        tag: b.tag,
        length: b.data.len() as int,
        compressed: deflate_of(b.data).len() as int,
    }
}

/// Serialized chunk-table entry of one stored block.
pub open spec fn spec_block_entry(b: BlockModel) -> Seq<u8> {
    spec_u64_to_le_bytes(vstd::utf8::encode_utf8(b.tag).len() as u64) + vstd::utf8::encode_utf8(
        b.tag,
    ) + spec_u64_to_le_bytes(b.data.len() as u64) + spec_u64_to_le_bytes(
        deflate_of(b.data).len() as u64,
    )
}

/// The whole chunk table of a sequence of stored blocks.
pub open spec fn spec_table_bytes(blocks: Seq<BlockModel>) -> Seq<u8>
    decreases blocks.len(),
{
    if blocks.len() == 0 {
        Seq::empty()
    } else {
        spec_block_entry(blocks[0]) + spec_table_bytes(blocks.drop_first())
    }
}

/// The concatenated compressed data of a sequence of stored blocks.
pub open spec fn spec_blob_bytes(blocks: Seq<BlockModel>) -> Seq<u8>
    decreases blocks.len(),
{
    if blocks.len() == 0 {
        Seq::empty()
    } else {
        deflate_of(blocks[0].data) + spec_blob_bytes(blocks.drop_first())
    }
}

/// The chunk-table entries of a sequence of stored blocks.
pub open spec fn spec_block_models(blocks: Seq<BlockModel>) -> Seq<ChunkModel>
    decreases blocks.len(),
{
    if blocks.len() == 0 {
        Seq::empty()
    } else {
        seq![spec_block_model(blocks[0])] + spec_block_models(blocks.drop_first())
    }
}

/// A storable block: nonempty data within the format's cap, sizes in
/// range, and compressed data that decompresses back to the original.
pub open spec fn spec_block_wf(b: BlockModel) -> bool {
    &&& 1 <= b.data.len() <= 0x0400_0000
    &&& vstd::utf8::encode_utf8(b.tag).len() <= u64::MAX
    &&& deflate_of(b.data).len() <= u64::MAX
    &&& inflate_of(deflate_of(b.data)) == b.data
}

/// The byte layout `call_save_hooks` produces for the stored blocks: magic
/// word, block size, version, chunk count, chunk table, compressed blobs,
/// and the trailing block offset.
pub open spec fn spec_save_output_ok(
    data: Seq<u8>,
    chunk_start: u32,
    blocks: Seq<BlockModel>,
) -> bool {
    &&& forall|i: int| 0 <= i < blocks.len() ==> spec_block_wf(#[trigger] blocks[i])
    &&& blocks.len() <= u64::MAX
    &&& data.len() >= 24
    &&& data.len() - 8 < 0x1000000
    &&& data == spec_u32_to_le_bytes(0x53736d53u32) + spec_u32_to_le_bytes(
        (data.len() - 8) as u32,
    ) + spec_u32_to_le_bytes(0u32) + spec_u64_to_le_bytes(blocks.len() as u64)
        + spec_table_bytes(blocks) + spec_blob_bytes(blocks) + spec_u32_to_le_bytes(chunk_start)
}

proof fn lemma_block_seqs_push(blocks: Seq<BlockModel>, b: BlockModel)
    ensures
        spec_table_bytes(blocks.push(b)) == spec_table_bytes(blocks) + spec_block_entry(b),
        spec_blob_bytes(blocks.push(b)) == spec_blob_bytes(blocks) + deflate_of(b.data),
        spec_block_models(blocks.push(b)) == spec_block_models(blocks).push(spec_block_model(b)),
    decreases blocks.len(),
{
    if blocks.len() == 0 {
        assert(blocks.push(b).drop_first() =~= Seq::<BlockModel>::empty());
        assert(blocks.push(b)[0] == b);
        assert(spec_table_bytes(blocks.push(b)) == spec_block_entry(b) + spec_table_bytes(
            Seq::<BlockModel>::empty(),
        ));
        assert(spec_table_bytes(blocks.push(b)) =~= spec_block_entry(b));
        assert(spec_table_bytes(blocks) + spec_block_entry(b) =~= spec_block_entry(b));
        assert(spec_blob_bytes(blocks.push(b)) == deflate_of(b.data) + spec_blob_bytes(
            Seq::<BlockModel>::empty(),
        ));
        assert(spec_blob_bytes(blocks.push(b)) =~= deflate_of(b.data));
        assert(spec_blob_bytes(blocks) + deflate_of(b.data) =~= deflate_of(b.data));
        assert(spec_block_models(blocks.push(b)) == seq![spec_block_model(b)]
            + spec_block_models(Seq::<BlockModel>::empty()));
        assert(spec_block_models(blocks.push(b)) =~= spec_block_models(blocks).push(
            spec_block_model(b),
        ));
    } else {
        assert(blocks.push(b).drop_first() =~= blocks.drop_first().push(b));
        assert(blocks.push(b)[0] == blocks[0]);
        lemma_block_seqs_push(blocks.drop_first(), b);
        assert(spec_table_bytes(blocks.push(b)) =~= spec_table_bytes(blocks) + spec_block_entry(
            b,
        ));
        assert(spec_blob_bytes(blocks.push(b)) =~= spec_blob_bytes(blocks) + deflate_of(b.data));
        assert(spec_block_models(blocks.push(b)) =~= spec_block_models(blocks).push(
            spec_block_model(b),
        ));
    }
}

proof fn lemma_models_len(blocks: Seq<BlockModel>)
    ensures
        spec_block_models(blocks).len() == blocks.len(),
    decreases blocks.len(),
{
    if blocks.len() > 0 {
        lemma_models_len(blocks.drop_first());
    }
}

proof fn lemma_models_index(blocks: Seq<BlockModel>, i: int)
    requires
        0 <= i < blocks.len(),
    ensures
        spec_block_models(blocks)[i] == spec_block_model(blocks[i]),
    decreases i,
{
    lemma_models_len(blocks.drop_first());
    if i > 0 {
        lemma_models_index(blocks.drop_first(), i - 1);
        assert(blocks.drop_first()[i - 1] == blocks[i]);
    }
}

proof fn lemma_models_sum(blocks: Seq<BlockModel>)
    ensures
        spec_compressed_sum(spec_block_models(blocks)) == spec_blob_bytes(blocks).len(),
    decreases blocks.len(),
{
    if blocks.len() > 0 {
        lemma_models_sum(blocks.drop_first());
        assert(spec_block_models(blocks).drop_first() =~= spec_block_models(
            blocks.drop_first(),
        ));
    }
}

proof fn lemma_subrange_of_eq(buffer: Seq<u8>, pos: int, s: Seq<u8>, a: int, b: int)
    requires
        0 <= pos,
        pos + s.len() <= buffer.len(),
        buffer.subrange(pos, pos + s.len() as int) == s,
        0 <= a <= b <= s.len(),
    ensures
        buffer.subrange(pos + a, pos + b) == s.subrange(a, b),
{
    assert forall|j: int| 0 <= j < b - a implies buffer.subrange(pos + a, pos + b)[j]
        == s.subrange(a, b)[j] by {
        assert(buffer.subrange(pos, pos + s.len() as int)[a + j] == s[a + j]);
    }
    assert(buffer.subrange(pos + a, pos + b) =~= s.subrange(a, b));
}

proof fn lemma_table_parse(buffer: Seq<u8>, pos: int, blocks: Seq<BlockModel>)
    requires
        0 <= pos,
        pos + spec_table_bytes(blocks).len() <= buffer.len(),
        buffer.subrange(pos, pos + spec_table_bytes(blocks).len() as int) == spec_table_bytes(
            blocks,
        ),
        forall|i: int| 0 <= i < blocks.len() ==> spec_block_wf(#[trigger] blocks[i]),
    ensures
        spec_parse_chunks(buffer, pos, blocks.len()) == Some(
            (spec_block_models(blocks), pos + spec_table_bytes(blocks).len()),
        ),
    decreases blocks.len(),
{
    vstd::bytes::lemma_auto_spec_u64_to_from_le_bytes();
    if blocks.len() == 0 {
    } else {
        let b = blocks[0];
        assert(spec_block_wf(b));
        let tagb = vstd::utf8::encode_utf8(b.tag);
        let entry = spec_block_entry(b);
        let table = spec_table_bytes(blocks);
        let rest = blocks.drop_first();
        let rest_table = spec_table_bytes(rest);
        assert(table == entry + rest_table);
        let nl = tagb.len() as int;
        assert(entry.len() == 24 + nl);
        lemma_subrange_of_eq(buffer, pos, table, 0, 8);
        assert(table.subrange(0, 8) =~= spec_u64_to_le_bytes(tagb.len() as u64));
        assert(spec_le_u64_at(buffer, pos) == tagb.len() as u64);
        assert(pos + 8 + nl + 16 <= buffer.len());
        lemma_subrange_of_eq(buffer, pos, table, 8, 8 + nl);
        assert(table.subrange(8, 8 + nl) =~= tagb);
        vstd::utf8::encode_utf8_valid_utf8(b.tag);
        vstd::utf8::encode_utf8_decode_utf8(b.tag);
        lemma_subrange_of_eq(buffer, pos, table, 8 + nl, 16 + nl);
        assert(table.subrange(8 + nl, 16 + nl) =~= spec_u64_to_le_bytes(b.data.len() as u64));
        assert(spec_le_u64_at(buffer, pos + 8 + nl) == b.data.len() as u64);
        lemma_subrange_of_eq(buffer, pos, table, 16 + nl, 24 + nl);
        assert(table.subrange(16 + nl, 24 + nl) =~= spec_u64_to_le_bytes(
            deflate_of(b.data).len() as u64,
        ));
        assert(spec_le_u64_at(buffer, pos + 16 + nl) == deflate_of(b.data).len() as u64);
        assert forall|i: int| 0 <= i < rest.len() implies spec_block_wf(#[trigger] rest[i]) by {
            assert(rest[i] == blocks[i + 1]);
        }
        lemma_subrange_of_eq(buffer, pos, table, 24 + nl, table.len() as int);
        assert(table.subrange(24 + nl, table.len() as int) =~= rest_table);
        lemma_table_parse(buffer, pos + 24 + nl, rest);
        let m0 = ChunkModel {
            tag: vstd::utf8::decode_utf8(tagb),
            length: b.data.len() as int,
            compressed: deflate_of(b.data).len() as int,
        };
        assert(m0 == spec_block_model(b));
        assert(spec_parse_chunks(buffer, pos, blocks.len()) == Some(
            (seq![m0] + spec_block_models(rest), pos + table.len()),
        ));
        assert(seq![m0] + spec_block_models(rest) =~= spec_block_models(blocks));
    }
}

/// Offset where chunk `i`'s compressed bytes begin within a parsed block,
/// going by the parsed chunk table.
pub open spec fn spec_model_offset(models: Seq<ChunkModel>, base: int, i: int) -> int
    decreases i,
{
    if i <= 0 {
        base
    } else {
        spec_model_offset(models, base, i - 1) + models[i - 1].compressed
    }
}

proof fn lemma_model_offset_shift(m0: ChunkModel, rest: Seq<ChunkModel>, base: int, i: int)
    requires
        1 <= i <= rest.len(),
    ensures
        spec_model_offset(seq![m0] + rest, base, i) == spec_model_offset(
            rest,
            base + m0.compressed,
            i - 1,
        ),
    decreases i,
{
    let s = seq![m0] + rest;
    if i == 1 {
        assert(s[0] == m0);
        assert(spec_model_offset(s, base, 1) == spec_model_offset(s, base, 0) + s[0].compressed);
        assert(spec_model_offset(s, base, 0) == base);
        assert(spec_model_offset(rest, base + m0.compressed, 0) == base + m0.compressed);
    } else {
        lemma_model_offset_shift(m0, rest, base, i - 1);
        assert(s[i - 1] == rest[i - 2]);
        assert(spec_model_offset(s, base, i) == spec_model_offset(s, base, i - 1) + s[i
            - 1].compressed);
        assert(spec_model_offset(rest, base + m0.compressed, i - 1) == spec_model_offset(
            rest,
            base + m0.compressed,
            i - 2,
        ) + rest[i - 2].compressed);
    }
}

proof fn lemma_blob_slices(buffer: Seq<u8>, base: int, blocks: Seq<BlockModel>)
    requires
        0 <= base,
        base + spec_blob_bytes(blocks).len() <= buffer.len(),
        buffer.subrange(base, base + spec_blob_bytes(blocks).len() as int) == spec_blob_bytes(
            blocks,
        ),
    ensures
        forall|i: int|
            0 <= i < blocks.len() ==> buffer.subrange(
                spec_model_offset(spec_block_models(blocks), base, i),
                spec_model_offset(spec_block_models(blocks), base, i) + spec_block_models(
                    blocks,
                )[i].compressed,
            ) == deflate_of((#[trigger] blocks[i]).data),
    decreases blocks.len(),
{
    if blocks.len() == 0 {
    } else {
        let b = blocks[0];
        let rest = blocks.drop_first();
        let blob0 = deflate_of(b.data);
        let blobs = spec_blob_bytes(blocks);
        assert(blobs == blob0 + spec_blob_bytes(rest));
        let models = spec_block_models(blocks);
        let m0 = spec_block_model(b);
        assert(models == seq![m0] + spec_block_models(rest));
        lemma_subrange_of_eq(buffer, base, blobs, blob0.len() as int, blobs.len() as int);
        assert(blobs.subrange(blob0.len() as int, blobs.len() as int) =~= spec_blob_bytes(rest));
        lemma_blob_slices(buffer, base + blob0.len(), rest);
        assert forall|i: int|
            0 <= i < blocks.len() implies buffer.subrange(
            spec_model_offset(models, base, i),
            spec_model_offset(models, base, i) + models[i].compressed,
        ) == deflate_of((#[trigger] blocks[i]).data) by {
            lemma_models_len(rest);
            if i == 0 {
                assert(spec_model_offset(models, base, 0) == base);
                assert(models[0] == m0);
                lemma_subrange_of_eq(buffer, base, blobs, 0, blob0.len() as int);
                assert(blobs.subrange(0, blob0.len() as int) =~= blob0);
            } else {
                lemma_model_offset_shift(m0, spec_block_models(rest), base, i);
                assert(models[i] == spec_block_models(rest)[i - 1]);
                assert(rest[i - 1] == blocks[i]);
            }
        }
    }
}

/// Save round trip: a block laid out as `call_save_hooks` builds it parses
/// back into exactly the chunk table of its stored blocks, and each
/// chunk's compressed byte range decompresses to its block's original
/// data.
pub proof fn lemma_save_round_trip(data: Seq<u8>, chunk_start: u32, blocks: Seq<BlockModel>)
    requires
        spec_save_output_ok(data, chunk_start, blocks),
    ensures
        spec_parse_extensions(data.skip(8)) == Some(
            (spec_block_models(blocks), 12 + spec_table_bytes(blocks).len() as int),
        ),
        forall|i: int|
            0 <= i < blocks.len() ==> {
                let models = spec_block_models(blocks);
                let dp = 12 + spec_table_bytes(blocks).len() as int;
                let start = spec_model_offset(models, dp, i);
                inflate_of(data.skip(8).subrange(start, start + models[i].compressed)).subrange(
                    0,
                    models[i].length,
                ) == (#[trigger] blocks[i]).data
            },
{
    vstd::bytes::lemma_auto_spec_u32_to_from_le_bytes();
    vstd::bytes::lemma_auto_spec_u64_to_from_le_bytes();
    let content = data.skip(8);
    let table = spec_table_bytes(blocks);
    let blobs = spec_blob_bytes(blocks);
    assert(content =~= spec_u32_to_le_bytes(0u32) + spec_u64_to_le_bytes(blocks.len() as u64)
        + table + blobs + spec_u32_to_le_bytes(chunk_start));
    assert(content.len() == 16 + table.len() + blobs.len());
    assert(content.subrange(0, 4) =~= spec_u32_to_le_bytes(0u32));
    assert(spec_le_u32_at(content, 0) == 0u32);
    assert(content.subrange(4, 12) =~= spec_u64_to_le_bytes(blocks.len() as u64));
    assert(spec_le_u64_at(content, 4) == blocks.len() as u64);
    assert(content.subrange(12, 12 + table.len() as int) =~= table);
    lemma_table_parse(content, 12, blocks);
    let models = spec_block_models(blocks);
    let dp = 12 + table.len() as int;
    lemma_models_sum(blocks);
    assert(content.len() - dp == blobs.len() + 4);
    assert(spec_parse_extensions(content) == Some((models, dp)));
    assert(content.subrange(dp, dp + blobs.len() as int) =~= blobs);
    lemma_blob_slices(content, dp, blocks);
    assert forall|i: int|
        0 <= i < blocks.len() implies {
        let start = spec_model_offset(models, dp, i);
        inflate_of(content.subrange(start, start + models[i].compressed)).subrange(
            0,
            models[i].length,
        ) == (#[trigger] blocks[i]).data
    } by {
        lemma_models_index(blocks, i);
        assert(spec_block_wf(blocks[i]));
        let start = spec_model_offset(models, dp, i);
        assert(content.subrange(start, start + models[i].compressed) == deflate_of(
            blocks[i].data,
        ));
        assert(inflate_of(deflate_of(blocks[i].data)) == blocks[i].data);
        assert(blocks[i].data.subrange(0, blocks[i].data.len() as int) =~= blocks[i].data);
    }
}

/// One decoded extension chunk.
pub struct Chunk {
    pub tag: String,
    pub data: Vec<u8>,
}

/// Offset where chunk `i`'s compressed bytes begin: the data base plus the
/// compressed sizes of the chunks before it.
pub open spec fn spec_data_offset(chunks: Seq<SerializedChunk>, base: int, i: int) -> int
    decreases i,
{
    if i <= 0 {
        base
    } else {
        spec_data_offset(chunks, base, i - 1) + chunks[i - 1].compressed
    }
}

impl SaveExtensions {
    /// Decompresses every chunk, in table order. Chunk `i`'s data is the
    /// first `length` bytes of the DEFLATE stream stored in its compressed
    /// byte range; a stream that is malformed or too short fails the read.
    pub fn read_chunks(&self) -> (r: Result<Vec<Chunk>, Error>)
        ensures
            match r {
                Ok(cs) => {
                    &&& cs@.len() == self.chunks@.len()
                    &&& forall|i: int|
                        0 <= i < cs@.len() ==> {
                            let start = spec_data_offset(
                                self.chunks@,
                                self.buffer_pos as int,
                                i,
                            );
                            &&& (#[trigger] cs@[i]).tag@ == self.chunks@[i].tag@
                            &&& cs@[i].data@ == inflate_of(
                                self.buffer@.subrange(
                                    start,
                                    start + self.chunks@[i].compressed,
                                ),
                            ).subrange(0, self.chunks@[i].length as int)
                        }
                },
                Err(e) => e is BadSave,
            },
    {
        let mut out: Vec<Chunk> = Vec::new();
        let mut pos: usize = self.buffer_pos;
        let n = self.chunks.len();
        let mut i: usize = 0;
        while i < n
            invariant
                n == self.chunks@.len(),
                i <= n,
                out@.len() == i,
                pos == spec_data_offset(self.chunks@, self.buffer_pos as int, i as int),
                forall|j: int|
                    0 <= j < i ==> {
                        let start = spec_data_offset(self.chunks@, self.buffer_pos as int, j);
                        &&& (#[trigger] out@[j]).tag@ == self.chunks@[j].tag@
                        &&& out@[j].data@ == inflate_of(
                            self.buffer@.subrange(start, start + self.chunks@[j].compressed),
                        ).subrange(0, self.chunks@[j].length as int)
                    },
            decreases n - i,
        {
            let entry = &self.chunks[i];
            if entry.compressed > self.buffer.len() || pos > self.buffer.len()
                - entry.compressed {
                return Err(Error::BadSave);
            }
            let comp = vstd::slice::slice_subrange(
                self.buffer.as_slice(),
                pos,
                pos + entry.compressed,
            );
            let data = match inflate_bytes(comp, entry.length) {
                Some(d) => d,
                None => {
                    return Err(Error::BadSave);
                },
            };
            let tag = entry.tag.clone();
            out.push(Chunk { tag, data });
            pos = pos + entry.compressed;
            i = i + 1;
        }
        Ok(out)
    }
}

/// Parses a save's extension block and hands every chunk's decompressed
/// data to each extension registered under the chunk's tag, chunks in table
/// order and extensions in registration order; an extension returning zero
/// fails the load with its tag. A malformed block or chunk stream fails
/// with `BadSave` before any extension runs.
pub fn call_load_hooks<T: SaveExtension>(hooks: &mut SaveHooks<T>, buffer: Vec<u8>) -> (r: Result<
    (),
    Error,
>)
    ensures
        final(hooks).spec_tags() == old(hooks).spec_tags(),
        spec_parse_extensions(buffer@) is None ==> r is Err,
        r is Ok ==> spec_parse_extensions(buffer@) is Some,
{
    let ext = match iter_extensions_from_data(buffer) {
        Ok(e) => e,
        Err(er) => {
            return Err(er);
        },
    };
    let chunks = match ext.read_chunks() {
        Ok(c) => c,
        Err(er) => {
            return Err(er);
        },
    };
    let n = hooks.hooks.len();
    let mut ci: usize = 0;
    while ci < chunks.len()
        invariant
            n == hooks.hooks@.len(),
            n == old(hooks).spec_hooks().len(),
            forall|j: int|
                0 <= j < hooks.hooks@.len() ==> (#[trigger] hooks.hooks@[j]).0 == old(
                    hooks,
                ).spec_hooks()[j].0,
        decreases chunks@.len() - ci,
    {
        let chunk = &chunks[ci];
        let mut hi: usize = 0;
        while hi < n
            invariant
                n == hooks.hooks@.len(),
                n == old(hooks).spec_hooks().len(),
                forall|j: int|
                    0 <= j < hooks.hooks@.len() ==> (#[trigger] hooks.hooks@[j]).0 == old(
                        hooks,
                    ).spec_hooks()[j].0,
            decreases n - hi,
        {
            let pair = &mut hooks.hooks[hi];
            if pair.0 == chunk.tag {
                let ok = pair.1.load(chunk.data.as_slice());
                if ok == 0 {
                    proof {
                        assert(hooks.spec_tags() =~= old(hooks).spec_tags());
                    }
                    return Err(Error::HookFail(chunk.tag.clone()));
                }
            }
            hi = hi + 1;
        }
        ci = ci + 1;
    }
    proof {
        assert(hooks.spec_tags() =~= old(hooks).spec_tags());
    }
    Ok(())
}

/// What building the save extension block produced: the block's bytes, and
/// the tags of extensions that produced too much data and were left out,
/// for the caller to warn about.
pub struct SaveOutput {
    pub data: Vec<u8>,
    pub oversized: Vec<String>,
}

/// Collects every extension's save data and builds the save file's
/// extension block: magic word, block size, version, chunk count, the
/// chunk table, the DEFLATE-compressed data blobs, and—for pre-extension
/// save files—the offset `chunk_start` where the block stands, as the
/// final word. An extension returning no bytes contributes no chunk; one
/// returning more than 0x0400_0000 bytes is left out and its tag reported.
/// A block that would exceed the format's size cap fails instead.
pub fn call_save_hooks<T: SaveExtension>(hooks: &mut SaveHooks<T>, chunk_start: u32) -> (r: Result<
    SaveOutput,
    Error,
>)
    ensures
        final(hooks).spec_tags() == old(hooks).spec_tags(),
        match r {
            Ok(out) => {
                &&& out.data@.len() >= 24
                &&& out.data@.len() - 8 < 0x1000000
                &&& spec_le_u32_at(out.data@, 0) == 0x53736d53u32
                &&& spec_le_u32_at(out.data@, 4) as int == out.data@.len() - 8
                &&& spec_le_u32_at(out.data@, 8) == 0u32
                &&& spec_le_u32_at(out.data@, out.data@.len() - 4) == chunk_start
                &&& exists|blocks: Seq<BlockModel>|
                    #[trigger] spec_save_output_ok(out.data@, chunk_start, blocks)
            },
            Err(e) => e is BadSave,
        },
{
    let mut blocks: Vec<(String, Vec<u8>)> = Vec::new();
    let mut oversized: Vec<String> = Vec::new();
    let n = hooks.hooks.len();
    let mut i: usize = 0;
    while i < n
        invariant
            n == hooks.hooks@.len(),
            forall|j: int|
                0 <= j < hooks.hooks@.len() ==> (#[trigger] hooks.hooks@[j]).0 == old(
                    hooks,
                ).spec_hooks()[j].0,
            forall|j: int|
                0 <= j < blocks@.len() ==> 1 <= (#[trigger] blocks@[j]).1@.len() <= 0x0400_0000,
        decreases n - i,
    {
        let pair = &mut hooks.hooks[i];
        let saved = pair.1.save();
        if saved.len() != 0 {
            if saved.len() > 0x0400_0000 {
                oversized.push(pair.0.clone());
            } else {
                let tag = pair.0.clone();
                blocks.push((tag, saved));
            }
        }
        i = i + 1;
    }
    proof {
        assert(forall|j: int|
            0 <= j < blocks@.len() ==> 1 <= (#[trigger] blocks@[j]).1@.len() <= 0x0400_0000);
    }
    proof {
        assert(hooks.spec_tags() =~= old(hooks).spec_tags());
    }
    // Chunk table and compressed blobs, in block order.
    let mut table: Vec<u8> = Vec::new();
    let mut blobs: Vec<u8> = Vec::new();
    let ghost mut bm: Seq<BlockModel> = Seq::empty();
    let mut bi: usize = 0;
    while bi < blocks.len()
        invariant
            bi <= blocks@.len(),
            bm.len() == bi,
            forall|j: int|
                0 <= j < blocks@.len() ==> 1 <= (#[trigger] blocks@[j]).1@.len() <= 0x0400_0000,
            table@ == spec_table_bytes(bm),
            blobs@ == spec_blob_bytes(bm),
            forall|j: int| 0 <= j < bm.len() ==> spec_block_wf(#[trigger] bm[j]),
        decreases blocks@.len() - bi,
    {
        let ghost bm0 = bm;
        let ghost table0 = table@;
        let ghost blobs0 = blobs@;
        let block = &blocks[bi];
        let ghost b = BlockModel { tag: block.0@, data: block.1@ };
        let tag_bytes = block.0.as_str().as_bytes();
        proof {
            assert(tag_bytes@ == vstd::utf8::encode_utf8(b.tag));
        }
        let mut piece = u64_to_le_bytes(tag_bytes.len() as u64);
        table.append(&mut piece);
        let mut tag_vec = vstd::slice::slice_to_vec(tag_bytes);
        table.append(&mut tag_vec);
        let mut piece2 = u64_to_le_bytes(block.1.len() as u64);
        table.append(&mut piece2);
        let mut compressed = deflate_bytes(block.1.as_slice());
        let mut piece3 = u64_to_le_bytes(compressed.len() as u64);
        table.append(&mut piece3);
        blobs.append(&mut compressed);
        proof {
            assert(spec_block_wf(b));
            lemma_block_seqs_push(bm0, b);
            assert(table@ =~= table0 + spec_block_entry(b));
            assert(blobs@ =~= blobs0 + deflate_of(b.data));
            bm = bm0.push(b);
        }
        bi = bi + 1;
    }
    let ghost table_v = table@;
    let ghost blobs_v = blobs@;
    let mut tail = table;
    tail.append(&mut blobs);
    if tail.len() >= 0x1000000 - 16 {
        return Err(Error::BadSave);
    }
    let total: usize = tail.len() + 24;
    let mut out = u32_to_le_bytes(0x53736d53);
    let ghost magic_b = out@;
    let mut size_b = u32_to_le_bytes((total - 8) as u32);
    let ghost size_v = size_b@;
    out.append(&mut size_b);
    let mut version_b = u32_to_le_bytes(0);
    let ghost version_v = version_b@;
    out.append(&mut version_b);
    let mut count_b = u64_to_le_bytes(blocks.len() as u64);
    out.append(&mut count_b);
    out.append(&mut tail);
    let mut trailer = u32_to_le_bytes(chunk_start);
    let ghost trailer_v = trailer@;
    out.append(&mut trailer);
    proof {
        vstd::bytes::lemma_auto_spec_u32_to_from_le_bytes();
        assert(out@.len() == total);
        assert(out@.subrange(0, 4) =~= magic_b);
        assert(out@.subrange(4, 8) =~= size_v);
        assert(out@.subrange(8, 12) =~= version_v);
        assert(out@.subrange(out@.len() - 4, out@.len() as int) =~= trailer_v);
        assert(bm.len() == blocks@.len());
        assert(out@ =~= spec_u32_to_le_bytes(0x53736d53u32) + spec_u32_to_le_bytes(
            (out@.len() - 8) as u32,
        ) + spec_u32_to_le_bytes(0u32) + spec_u64_to_le_bytes(bm.len() as u64) + spec_table_bytes(
            bm,
        ) + spec_blob_bytes(bm) + spec_u32_to_le_bytes(chunk_start));
        assert(spec_save_output_ok(out@, chunk_start, bm));
    }
    Ok(SaveOutput { data: out, oversized })
}

} // verus!
