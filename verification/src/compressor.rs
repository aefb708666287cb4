//! Block compression pipeline: general-purpose codec dispatch, the
//! read-name tokenizing path with its fallbacks, and a work pipeline that
//! pairs every submission with exactly one completion.
//!
//! The pipeline primes its completion queue with one sentinel per
//! configured worker; sentinels are counted but never correspond to real
//! work.  Completion order is unspecified: the consumer reassembles by
//! ordering key.

use vstd::prelude::*;

use crate::analyzer::{spec_should_tokenize, total_len, ReadNameAnalyzer};
use crate::error::CodecError;
use crate::post_compression::{
    spec_block, spec_block_framable, PostTokenizationCompressor, PostTokenizationConfig,
};
use crate::tokenizer::{
    dict_view, first_bad, spec_serialize_dict, spec_tokenize_all, u32_le, IlluminaTokenizer,
};
use crate::utils::{spec_split, ByteUtils};

verus! {

/// The general-purpose codecs the dispatcher offers.
#[derive(Debug, Clone, Copy, PartialEq, Eq, Structural)]
pub enum Codecs {
    Gzip,
    Lz4,
    Brotli,
    Xz,
    Zstd,
    NoCompression,
}

/// The semantic column a block belongs to.  Only the read-name column gets
/// the tokenizing codec; everything else takes the general path.
#[derive(Debug, Clone, Copy, PartialEq, Eq, Structural)]
pub enum Fields {
    ReadName,
    Other,
}

/// What the pipeline reads of a block: its column and its authoritative
/// uncompressed length (the input buffer may be oversized).
#[derive(Debug, Clone, Copy, PartialEq, Eq, Structural)]
pub struct BlockInfo {
    pub field: Fields,
    pub uncompr_size: usize,
}

impl Default for BlockInfo {
    fn default() -> (b: Self)
        ensures
            b.field is Other,
            b.uncompr_size == 0,
    {
        BlockInfo { field: Fields::Other, uncompr_size: 0 }
    }
}

/// Ordering of completed work: a real key, or a priming sentinel that must
/// be counted but never reported as progress.
#[derive(Debug, Clone, Copy, PartialEq, Eq, Structural)]
pub enum OrderingKey {
    Key(u64),
    UnusedBlock,
}

/// The unit of work and of completion: on submission `buf` holds the
/// uncompressed payload, on completion the codec's output.
#[derive(Debug)]
pub struct CompressTask {
    pub ordering_key: OrderingKey,
    pub block_info: BlockInfo,
    pub buf: Vec<u8>,
}

/// The bytes flate2's gzip encoder produces at level 9 for the given input
/// (deterministic for the vendored flate2).
pub uninterp spec fn gzip9_of(data: Seq<u8>) -> Seq<u8>;

/// Relies on flate2::write::GzEncoder at Compression::new(9): writing the
/// input and finishing yields the gzip stream for exactly those bytes.
/// The encoder writes into a `Vec`, which has no failure path, so the call
/// always succeeds.
#[verifier::external_body]
fn gzip_compress(source: &[u8]) -> (r: Result<Vec<u8>, CodecError>)
    ensures
        r is Ok,
        r->Ok_0@ == gzip9_of(source@),
{
    let mut encoder = flate2::write::GzEncoder::new(Vec::new(), flate2::Compression::new(9));
    if std::io::Write::write_all(&mut encoder, source).is_err() {
        return Err(CodecError);
    }
    match encoder.finish() {
        Ok(v) => Ok(v),
        Err(_) => Err(CodecError),
    }
}

/// The LZ4 block produced by lzzzz at the default acceleration level.
pub uninterp spec fn lz4_block_of(data: Seq<u8>) -> Seq<u8>;

/// Relies on lzzzz's lz4::compress_to_vec at ACC_LEVEL_DEFAULT: on success
/// the destination holds exactly the compressed block.  The destination is
/// grown to the compression bound up front, so the call fails only on
/// inputs beyond the LZ4 input limit of 0x7E00_0000 bytes.
#[verifier::external_body]
fn lz4_compress(source: &[u8]) -> (r: Result<Vec<u8>, CodecError>)
    ensures
        r is Ok ==> r->Ok_0@ == lz4_block_of(source@),
        source@.len() <= 0x7E00_0000 ==> r is Ok,
{
    let mut dest: Vec<u8> = Vec::new();
    match lzzzz::lz4::compress_to_vec(source, &mut dest, lzzzz::lz4::ACC_LEVEL_DEFAULT) {
        Ok(size) => {
            dest.resize(size, 0);
            Ok(dest)
        },
        Err(_) => Err(CodecError),
    }
}

/// The brotli stream produced with buffer 4096, quality 8, window 22.
pub uninterp spec fn brotli_of(data: Seq<u8>) -> Seq<u8>;

/// Relies on brotli::CompressorWriter with buffer size 4096, quality 8 and
/// lgwin 22: writing the input and flushing yields the stream for exactly
/// those bytes.  The pure-Rust encoder writes into a `Vec`, which has no
/// failure path, so the call always succeeds.
#[verifier::external_body]
fn brotli_compress(source: &[u8]) -> (r: Result<Vec<u8>, CodecError>)
    ensures
        r is Ok,
        r->Ok_0@ == brotli_of(source@),
{
    let mut dest: Vec<u8> = Vec::new();
    {
        let mut writer = brotli::CompressorWriter::new(&mut dest, 4096, 8, 22);
        if std::io::Write::write_all(&mut writer, source).is_err() {
            return Err(CodecError);
        }
        if std::io::Write::flush(&mut writer).is_err() {
            return Err(CodecError);
        }
    }
    Ok(dest)
}

/// The xz stream produced at preset level 6.
pub uninterp spec fn xz6_of(data: Seq<u8>) -> Seq<u8>;

/// Relies on xz2::write::XzEncoder at preset 6: writing the input and
/// finishing yields the xz stream for exactly those bytes.  The encoder
/// writes into a `Vec` and liblzma's easy encoder has no error path for
/// in-memory streams short of allocation failure, so the call always
/// succeeds.
#[verifier::external_body]
fn xz_compress(source: &[u8]) -> (r: Result<Vec<u8>, CodecError>)
    ensures
        r is Ok,
        r->Ok_0@ == xz6_of(source@),
{
    let mut encoder = xz2::write::XzEncoder::new(Vec::new(), 6);
    if std::io::Write::write_all(&mut encoder, source).is_err() {
        return Err(CodecError);
    }
    match encoder.finish() {
        Ok(v) => Ok(v),
        Err(_) => Err(CodecError),
    }
}

/// The zstd frame produced at level 14.
pub uninterp spec fn zstd14_of(data: Seq<u8>) -> Seq<u8>;

/// Relies on zstd::stream::encode_all at level 14: the returned frame is a
/// function of the input bytes alone.  Level 14 is valid and the copy runs
/// between in-memory buffers, which have no error path short of allocation
/// failure, so the call always succeeds.
#[verifier::external_body]
fn zstd_compress(source: &[u8]) -> (r: Result<Vec<u8>, CodecError>)
    ensures
        r is Ok,
        r->Ok_0@ == zstd14_of(source@),
{
    match zstd::stream::encode_all(source, 14) {
        Ok(v) => Ok(v),
        Err(_) => Err(CodecError),
    }
}

/// What each codec turns a source buffer into; the identity codec copies.
pub open spec fn spec_compress(codec: Codecs, source: Seq<u8>) -> Seq<u8> {
    match codec {
        Codecs::Gzip => gzip9_of(source),
        Codecs::Lz4 => lz4_block_of(source),
        Codecs::Brotli => brotli_of(source),
        Codecs::Xz => xz6_of(source),
        Codecs::Zstd => zstd14_of(source),
        Codecs::NoCompression => source,
    }
}

/// Apply one general-purpose codec to `source`.  The scratch buffer is
/// recycled for the identity codec; the compressing codecs allocate their
/// own output.  Every codec succeeds, except LZ4 on inputs beyond its
/// input limit.
pub fn compress(source: &[u8], dest: Vec<u8>, codec: Codecs) -> (r: Result<Vec<u8>, CodecError>)
    ensures
        r is Ok ==> r->Ok_0@ == spec_compress(codec, source@),
        !(codec is Lz4) ==> r is Ok,
        codec is Lz4 && source@.len() <= 0x7E00_0000 ==> r is Ok,
{
    match codec {
        Codecs::Gzip => gzip_compress(source),
        Codecs::Lz4 => lz4_compress(source),
        Codecs::Brotli => brotli_compress(source),
        Codecs::Xz => xz_compress(source),
        Codecs::Zstd => zstd_compress(source),
        Codecs::NoCompression => {
            let mut d = dest;
            d.clear();
            d.extend_from_slice(source);
            proof {
                assert(d@ =~= source@);
            }
            Ok(d)
        },
    }
}

} // verus!

verus! {

/// Non-empty segment predicate for the read-name partition.
pub open spec fn nonempty_seg(p: Seq<u8>) -> bool {
    p.len() > 0
}

/// The read names carried by a NUL-delimited payload: the non-empty
/// segments, in order; a trailing unterminated segment is included.
pub open spec fn spec_read_names(payload: Seq<u8>) -> Seq<Seq<u8>> {
    spec_split(payload, 0, 0).filter(|p: Seq<u8>| nonempty_seg(p))
}

/// Prepending a segment adds its length to the batch total.
proof fn lemma_total_len_prepend(x: Seq<u8>, r: Seq<Seq<u8>>)
    ensures
        total_len(seq![x] + r) == x.len() + total_len(r),
    decreases r.len(),
{
    let t = seq![x] + r;
    if r.len() == 0 {
        assert(t =~= seq![x]);
        assert(t.drop_last() =~= Seq::<Seq<u8>>::empty());
        assert(total_len(Seq::<Seq<u8>>::empty()) == 0);
    } else {
        assert(t.drop_last() =~= seq![x] + r.drop_last());
        assert(t.last() == r.last());
        lemma_total_len_prepend(x, r.drop_last());
    }
}

/// A split never holds more bytes than what was split.
proof fn lemma_split_total(s: Seq<u8>, d1: u8, d2: u8)
    ensures
        total_len(spec_split(s, d1, d2)) <= s.len(),
    decreases s.len(),
{
    if s.len() == 0 {
        assert(spec_split(s, d1, d2) =~~= seq![Seq::<u8>::empty()]);
        lemma_total_len_prepend(Seq::empty(), Seq::empty());
        assert(seq![Seq::<u8>::empty()] + Seq::<Seq<u8>>::empty() =~= seq![Seq::<u8>::empty()]);
    } else if s[0] == d1 || s[0] == d2 {
        lemma_split_total(s.drop_first(), d1, d2);
        lemma_total_len_prepend(Seq::empty(), spec_split(s.drop_first(), d1, d2));
    } else {
        let r = spec_split(s.drop_first(), d1, d2);
        crate::utils::lemma_split_len(s.drop_first(), d1, d2);
        lemma_split_total(s.drop_first(), d1, d2);
        let y = seq![s[0]] + r[0];
        assert(r.update(0, y) =~~= seq![y] + r.drop_first());
        lemma_total_len_prepend(y, r.drop_first());
        assert(r =~= seq![r[0]] + r.drop_first());
        lemma_total_len_prepend(r[0], r.drop_first());
    }
}

/// Filtering drops bytes, never adds them.
proof fn lemma_filter_total(s: Seq<Seq<u8>>)
    ensures
        total_len(s.filter(|p: Seq<u8>| nonempty_seg(p))) <= total_len(s),
    decreases s.len(),
{
    reveal(Seq::filter);
    if s.len() != 0 {
        lemma_filter_total(s.drop_last());
        let f = s.filter(|p: Seq<u8>| nonempty_seg(p));
        if nonempty_seg(s.last()) {
            assert(f == s.drop_last().filter(|p: Seq<u8>| nonempty_seg(p)).push(s.last()));
            assert(f.drop_last() =~= s.drop_last().filter(|p: Seq<u8>| nonempty_seg(p)));
            assert(f.last() == s.last());
        }
    }
}

/// The read names of a payload hold no more bytes than the payload.
pub proof fn lemma_read_names_total(payload: Seq<u8>)
    ensures
        total_len(spec_read_names(payload)) <= payload.len(),
{
    lemma_split_total(payload, 0, 0);
    lemma_filter_total(spec_split(payload, 0, 0));
}

/// Partition a payload into its NUL-delimited non-empty read names.
pub fn partition_read_names<'a>(payload: &'a [u8]) -> (names: Vec<&'a [u8]>)
    ensures
        names.deep_view() == spec_read_names(payload@),
{
    proof {
        reveal(Seq::filter);
    }
    let parts = ByteUtils::split_bytes(payload, 0);
    let ghost all = spec_split(payload@, 0, 0);
    let mut names: Vec<&'a [u8]> = Vec::new();
    let mut i: usize = 0;
    proof {
        assert(parts.deep_view() =~~= all);
        assert(all.take(0) =~= Seq::<Seq<u8>>::empty());
        assert(names.deep_view() =~~= Seq::<Seq<u8>>::empty().filter(
            |p: Seq<u8>| nonempty_seg(p),
        ));
    }
    while i < parts.len()
        invariant
            0 <= i <= parts.len(),
            parts.deep_view() =~~= all,
            parts@.len() == all.len(),
            names.deep_view() == all.take(i as int).filter(|p: Seq<u8>| nonempty_seg(p)),
        decreases parts.len() - i,
    {
        proof {
            reveal(Seq::filter);
            assert(all.take(i + 1).drop_last() =~= all.take(i as int));
            assert(all.take(i + 1).last() == all[i as int]);
            assert(parts.deep_view()[i as int] == parts@[i as int].deep_view());
            assert(parts@[i as int].deep_view() =~= parts@[i as int]@);
        }
        if parts[i].len() > 0 {
            let ghost before = names.deep_view();
            names.push(parts[i]);
            proof {
                assert(names.deep_view() =~~= before.push(all[i as int]));
            }
        }
        i += 1;
    }
    proof {
        assert(all.take(all.len() as int) =~= all);
    }
    names
}

/// Little-endian two-byte rendering of an unsigned 16-bit value.
pub open spec fn u16_le(n: int) -> Seq<u8> {
    seq![(n % 256) as u8, ((n / 256) % 256) as u8]
}

/// Fixed-width little-endian rendering of one tokenized record: 22 bytes,
/// with `0xFFFF` for an absent UMI and `0xFF` for an absent index.
pub open spec fn record_le(t: crate::dictionary::TokenizedReadName) -> Seq<u8> {
    seq![t.instrument_id] + u32_le(t.run_id as int) + seq![t.flowcell_id] + seq![t.lane] + u16_le(
        t.tile as int,
    ) + u32_le(t.x_coord as int) + u32_le(t.y_coord as int) + (match t.umi_id {
        Option::Some(u) => u16_le(u as int),
        Option::None => seq![0xFFu8, 0xFFu8],
    }) + seq![t.read_num] + seq![t.flags] + (match t.index_id {
        Option::Some(i) => seq![i],
        Option::None => seq![0xFFu8],
    })
}

/// The records of a batch, concatenated.
pub open spec fn records_le(ts: Seq<crate::dictionary::TokenizedReadName>) -> Seq<u8>
    decreases ts.len(),
{
    if ts.len() == 0 {
        Seq::empty()
    } else {
        record_le(ts[0]) + records_le(ts.drop_first())
    }
}

/// The fallback envelope used when the post-tokenization codec fails:
/// `u32_le(|dict|) | dict | u32_le(N) | record[N]` over the u32-framed
/// dictionary serialization and fixed-width records.
pub open spec fn spec_fallback_envelope(
    d: (Seq<Seq<u8>>, Seq<Seq<u8>>, Seq<Seq<u8>>, Seq<Seq<u8>>),
    ts: Seq<crate::dictionary::TokenizedReadName>,
) -> Seq<u8> {
    let dict = spec_serialize_dict(d);
    u32_le(dict.len() as int) + dict + u32_le(ts.len() as int) + records_le(ts)
}

} // verus!

verus! {

/// The stream-pipeline configuration the worker path uses.
pub open spec fn spec_default_config() -> PostTokenizationConfig {
    (PostTokenizationConfig {
        use_rle: true,
        use_huffman: true,
        use_delta_encoding: true,
        use_deflate: true,
        rle_threshold_hundredths: 20u32,
    })
}

/// The dictionary a fresh per-task tokenizer starts from: empty tables,
/// with the reserved empty flowcell at slot 0.
pub open spec fn spec_fresh_dict() -> (Seq<Seq<u8>>, Seq<Seq<u8>>, Seq<Seq<u8>>, Seq<Seq<u8>>) {
    (
        Seq::<Seq<u8>>::empty(),
        seq![Seq::<u8>::empty()],
        Seq::<Seq<u8>>::empty(),
        Seq::<Seq<u8>>::empty(),
    )
}

/// Every entry of the table fits a u32 length frame.
pub open spec fn table_entries_u32(t: Seq<Seq<u8>>) -> bool {
    forall|i: int| 0 <= i < t.len() ==> (#[trigger] t[i]).len() <= u32::MAX
}

/// The fallback envelope's u32 framing can hold the batch: every
/// dictionary entry, the serialized dictionary and the record count fit.
pub open spec fn spec_envelope_framable(
    d2: (Seq<Seq<u8>>, Seq<Seq<u8>>, Seq<Seq<u8>>, Seq<Seq<u8>>),
    recs: Seq<crate::dictionary::TokenizedReadName>,
) -> bool {
    &&& table_entries_u32(d2.0)
    &&& table_entries_u32(d2.1)
    &&& table_entries_u32(d2.2)
    &&& table_entries_u32(d2.3)
    &&& recs.len() <= u32::MAX
    &&& spec_serialize_dict(d2).len() <= u32::MAX
}

/// What the worker hands back for a tokenized batch: the post-tokenization
/// block whenever its framing limits hold; when they do not, the general
/// codec over the fallback envelope, or over the raw payload should even
/// the envelope's u32 framing overflow.
#[verifier::opaque]
pub open spec fn tokenized_block_output(
    d2: (Seq<Seq<u8>>, Seq<Seq<u8>>, Seq<Seq<u8>>, Seq<Seq<u8>>),
    recs: Seq<crate::dictionary::TokenizedReadName>,
    payload: Seq<u8>,
    codec: Codecs,
    out: Seq<u8>,
) -> bool {
    if recs.len() <= usize::MAX - 7 && spec_block_framable(
        recs,
        d2.0,
        d2.1,
        d2.2,
        d2.3,
        spec_default_config(),
    ) {
        out == spec_block(recs, d2.0, d2.1, d2.2, d2.3, spec_default_config())
    } else if spec_envelope_framable(d2, recs) {
        out == spec_compress(codec, spec_fallback_envelope(d2, recs))
    } else {
        out == spec_compress(codec, payload)
    }
}

/// What a completed task carries.  A read-name block whose names the
/// analyzer approves and the tokenizer accepts carries the tokenized-batch
/// output above; every other block carries the general codec over the raw
/// payload.
pub open spec fn task_output_ok(
    payload: Seq<u8>,
    field: Fields,
    codec: Codecs,
    out: Seq<u8>,
) -> bool {
    let names = spec_read_names(payload);
    if field is ReadName && names.len() > 0 && spec_should_tokenize(names) && first_bad(names)
        < 0 {
        let (d2, recs) = spec_tokenize_all(spec_fresh_dict(), names);
        tokenized_block_output(d2, recs, payload, codec, out)
    } else {
        out == spec_compress(codec, payload)
    }
}

/// The deep view of a table of byte strings indexes to the views of its
/// entries.
proof fn lemma_table_views(table: &Vec<Vec<u8>>)
    ensures
        table.deep_view().len() == table@.len(),
        forall|i: int|
            0 <= i < table@.len() ==> #[trigger] table.deep_view()[i] == table@[i]@,
{
    assert forall|i: int| 0 <= i < table@.len() implies #[trigger] table.deep_view()[i]
        == table@[i]@ by {
        assert(table.deep_view()[i] == table@[i].deep_view());
        assert(table@[i].deep_view() =~= table@[i]@);
    }
}

/// Whether every entry of the table fits a u32 length.
fn table_lens_ok(table: &Vec<Vec<u8>>) -> (r: bool)
    ensures
        r == table_entries_u32(table.deep_view()),
{
    proof {
        lemma_table_views(table);
    }
    let ghost t = table.deep_view();
    let mut i: usize = 0;
    while i < table.len()
        invariant
            0 <= i <= table.len(),
            t == table.deep_view(),
            t.len() == table@.len(),
            forall|j: int| 0 <= j < table@.len() ==> #[trigger] t[j] == table@[j]@,
            forall|j: int| 0 <= j < i ==> (#[trigger] t[j]).len() <= u32::MAX,
        decreases table.len() - i,
    {
        if table[i].len() > u32::MAX as usize {
            proof {
                assert(t[i as int].len() > u32::MAX);
            }
            return false;
        }
        i += 1;
    }
    true
}

/// A table whose deep view frames in u32 also frames entry by entry.
proof fn lemma_entries_u32_views(table: &Vec<Vec<u8>>)
    requires
        table_entries_u32(table.deep_view()),
    ensures
        forall|i: int| 0 <= i < table@.len() ==> (#[trigger] table@[i])@.len() <= u32::MAX,
{
    lemma_table_views(table);
    assert forall|i: int| 0 <= i < table@.len() implies (#[trigger] table@[i])@.len()
        <= u32::MAX by {
        assert(table.deep_view()[i] == table@[i]@);
        assert(table.deep_view()[i].len() <= u32::MAX);
    }
}

/// Append the little-endian bytes of a u16.
fn append_u16_le(out: &mut Vec<u8>, v: u16)
    ensures
        final(out)@ == old(out)@ + u16_le(v as int),
{
    let ghost before = out@;
    out.push((v % 256) as u8);
    out.push(((v / 256) % 256) as u8);
    proof {
        assert(out@ =~= before + u16_le(v as int));
    }
}

/// Build the fallback envelope from a serialized dictionary and the
/// tokenized records.
#[verifier::rlimit(100)]
fn build_envelope(
    serialized_dict: &Vec<u8>,
    tokenized: &Vec<crate::dictionary::TokenizedReadName>,
) -> (r: Vec<u8>)
    requires
        serialized_dict@.len() <= u32::MAX,
        tokenized@.len() <= u32::MAX,
    ensures
        r@ == u32_le(serialized_dict@.len() as int) + serialized_dict@ + u32_le(
            tokenized@.len() as int,
        ) + records_le(tokenized@),
{
    let mut out: Vec<u8> = Vec::new();
    crate::tokenizer::append_u32_le(&mut out, serialized_dict.len() as u32);
    out.extend_from_slice(serialized_dict.as_slice());
    crate::tokenizer::append_u32_le(&mut out, tokenized.len() as u32);
    let ghost base = out@;
    let ghost ts = tokenized@;
    let mut i: usize = 0;
    proof {
        assert(ts.skip(0) =~= ts);
        assert(out@ + records_le(ts) =~= base + records_le(ts));
    }
    while i < tokenized.len()
        invariant
            0 <= i <= tokenized.len(),
            ts == tokenized@,
            base + records_le(ts) =~= out@ + records_le(ts.skip(i as int)),
        decreases tokenized.len() - i,
    {
        let t = vstd::slice::slice_index_get(tokenized.as_slice(), i);
        let ghost before = out@;
        out.push(t.instrument_id);
        crate::tokenizer::append_u32_le(&mut out, t.run_id);
        out.push(t.flowcell_id);
        out.push(t.lane);
        append_u16_le(&mut out, t.tile);
        crate::tokenizer::append_u32_le(&mut out, t.x_coord);
        crate::tokenizer::append_u32_le(&mut out, t.y_coord);
        match t.umi_id {
            Some(u) => {
                append_u16_le(&mut out, u);
            },
            None => {
                out.push(0xFF);
                out.push(0xFF);
            },
        }
        out.push(t.read_num);
        out.push(t.flags);
        match t.index_id {
            Some(ix) => {
                out.push(ix);
            },
            None => {
                out.push(0xFF);
            },
        }
        proof {
            let tail = ts.skip(i as int);
            assert(tail[0] == ts[i as int]);
            assert(tail.drop_first() =~= ts.skip(i + 1));
            assert(records_le(tail) =~= record_le(ts[i as int]) + records_le(ts.skip(i + 1)));
            assert(out@ =~= before + record_le(ts[i as int]));
        }
        i += 1;
    }
    proof {
        assert(ts.skip(ts.len() as int) =~= Seq::<crate::dictionary::TokenizedReadName>::empty());
    }
    out
}

/// Finish a read-name block whose batch tokenized: the post-tokenization
/// block when its framing limits hold, else the general codec over the
/// fixed-width envelope, else over the raw payload.
#[verifier::rlimit(100)]
fn compress_tokenized_block(
    tokenizer: &IlluminaTokenizer,
    tokenized: &Vec<crate::dictionary::TokenizedReadName>,
    payload: &[u8],
    scratch: Vec<u8>,
    codec: Codecs,
) -> (r: Result<Vec<u8>, CodecError>)
    requires
        tokenizer.wf(),
    ensures
        r is Ok ==> tokenized_block_output(
            dict_view(tokenizer.dictionary),
            tokenized@,
            payload@,
            codec,
            r->Ok_0@,
        ),
        !(codec is Lz4) ==> r is Ok,
{
    let ghost d2 = dict_view(tokenizer.dictionary);
    let ghost recs = tokenized@;
    let ghost cfg = spec_default_config();
    let post_compressor = PostTokenizationCompressor::new(PostTokenizationConfig::default());
    proof {
        assert(post_compressor.spec_config() == spec_default_config());
    }
    if tokenized.len() <= usize::MAX - 7 {
        match post_compressor.compress_tokenized_data(
            tokenized.as_slice(),
            tokenizer.get_dictionary(),
        ) {
            Ok(compressed) => {
                proof {
                    assert(tokenized_block_output(d2, recs, payload@, codec, compressed@)) by {
                        reveal(tokenized_block_output);
                    }
                }
                return Ok(compressed);
            },
            Err(_) => {},
        }
    }
    proof {
        assert(!(recs.len() <= usize::MAX - 7 && spec_block_framable(
            recs,
            d2.0,
            d2.1,
            d2.2,
            d2.3,
            cfg,
        )));
    }
    // the block cannot be framed: fall back to the fixed-width envelope, or
    // to the raw payload where even the envelope's u32 framing overflows
    let tables_ok = table_lens_ok(&tokenizer.dictionary.instruments) && table_lens_ok(
        &tokenizer.dictionary.flowcells,
    ) && table_lens_ok(&tokenizer.dictionary.umis) && table_lens_ok(
        &tokenizer.dictionary.indices,
    ) && tokenized.len() <= u32::MAX as usize;
    if tables_ok {
        proof {
            lemma_entries_u32_views(&tokenizer.dictionary.instruments);
            lemma_entries_u32_views(&tokenizer.dictionary.flowcells);
            lemma_entries_u32_views(&tokenizer.dictionary.umis);
            lemma_entries_u32_views(&tokenizer.dictionary.indices);
        }
        let serialized_dict = tokenizer.serialize_dictionary();
        if serialized_dict.len() <= u32::MAX as usize {
            proof {
                assert(spec_envelope_framable(d2, recs));
            }
            let envelope = build_envelope(&serialized_dict, tokenized);
            proof {
                assert(envelope@ == spec_fallback_envelope(d2, recs));
            }
            let result = compress(envelope.as_slice(), scratch, codec);
            proof {
                if result is Ok {
                    assert(tokenized_block_output(d2, recs, payload@, codec, result->Ok_0@)) by {
                        reveal(tokenized_block_output);
                    }
                }
            }
            return result;
        }
        proof {
            assert(!spec_envelope_framable(d2, recs));
        }
        let result = compress(payload, scratch, codec);
        proof {
            if result is Ok {
                assert(tokenized_block_output(d2, recs, payload@, codec, result->Ok_0@)) by {
                    reveal(tokenized_block_output);
                }
            }
        }
        return result;
    }
    proof {
        assert(!spec_envelope_framable(d2, recs));
    }
    let result = compress(payload, scratch, codec);
    proof {
        if result is Ok {
            assert(tokenized_block_output(d2, recs, payload@, codec, result->Ok_0@)) by {
                reveal(tokenized_block_output);
            }
        }
    }
    result
}

/// Run one block through the worker path: slice the payload to its
/// authoritative length, tokenize approved read-name batches through the
/// post-tokenization codec with its two fallbacks, and run everything else
/// through the general codec.  Every codec but LZ4 always succeeds.
pub fn compress_task_payload(
    data: &[u8],
    block_info: &BlockInfo,
    scratch: Vec<u8>,
    codec: Codecs,
) -> (r: Result<Vec<u8>, CodecError>)
    requires
        block_info.uncompr_size <= data@.len(),
    ensures
        r is Ok ==> task_output_ok(
            data@.take(block_info.uncompr_size as int),
            block_info.field,
            codec,
            r->Ok_0@,
        ),
        !(codec is Lz4) ==> r is Ok,
{
    let payload = vstd::slice::slice_subrange(data, 0, block_info.uncompr_size);
    proof {
        assert(payload@ =~= data@.take(block_info.uncompr_size as int));
    }
    let is_read_name: bool = match block_info.field {
        Fields::ReadName => true,
        Fields::Other => false,
    };
    if !is_read_name {
        return compress(payload, scratch, codec);
    }
    let names = partition_read_names(payload);
    if names.len() == 0 {
        return compress(payload, scratch, codec);
    }
    let payload_len = payload.len();
    proof {
        lemma_read_names_total(payload@);
        assert(total_len(names.deep_view()) <= payload_len);
    }
    if !ReadNameAnalyzer::should_tokenize(names.as_slice()) {
        return compress(payload, scratch, codec);
    }
    let mut tokenizer = IlluminaTokenizer::new();
    proof {
        assert(dict_view(tokenizer.dictionary) == spec_fresh_dict());
    }
    let batch = tokenizer.tokenize_batch(names.as_slice());
    match batch {
        Ok(tokenized) => compress_tokenized_block(&tokenizer, &tokenized, payload, scratch, codec),
        Err(_) => compress(payload, scratch, codec),
    }
}

} // verus!

verus! {

/// Keys of the real completions in a queue, in order.
pub open spec fn queue_keys(q: Seq<CompressTask>) -> Seq<u64>
    decreases q.len(),
{
    if q.len() == 0 {
        Seq::empty()
    } else {
        (match q[0].ordering_key {
            OrderingKey::Key(k) => seq![k],
            OrderingKey::UnusedBlock => Seq::empty(),
        }) + queue_keys(q.drop_first())
    }
}

/// Number of priming sentinels in a queue.
pub open spec fn queue_sentinels(q: Seq<CompressTask>) -> int
    decreases q.len(),
{
    if q.len() == 0 {
        0
    } else {
        (if q[0].ordering_key is UnusedBlock {
            1int
        } else {
            0int
        }) + queue_sentinels(q.drop_first())
    }
}

/// Appending one task extends the key and sentinel views at the end.
pub proof fn lemma_queue_push(q: Seq<CompressTask>, t: CompressTask)
    ensures
        queue_keys(q.push(t)) == queue_keys(q) + (match t.ordering_key {
            OrderingKey::Key(k) => seq![k],
            OrderingKey::UnusedBlock => Seq::<u64>::empty(),
        }),
        queue_sentinels(q.push(t)) == queue_sentinels(q) + (if t.ordering_key is UnusedBlock {
            1int
        } else {
            0int
        }),
    decreases q.len(),
{
    let s = q.push(t);
    if q.len() == 0 {
        assert(s[0] == t);
        assert(s.drop_first() =~= Seq::<CompressTask>::empty());
        assert(queue_keys(Seq::<CompressTask>::empty()) =~= Seq::<u64>::empty());
        assert(queue_sentinels(Seq::<CompressTask>::empty()) == 0);
        assert(queue_keys(q) =~= Seq::<u64>::empty());
        match t.ordering_key {
            OrderingKey::Key(k) => {
                assert(queue_keys(s) =~= seq![k] + queue_keys(s.drop_first()));
                assert(queue_keys(s) =~= seq![k]);
                assert(queue_keys(q) + seq![k] =~= seq![k]);
            },
            OrderingKey::UnusedBlock => {
                assert(queue_keys(s) =~= Seq::<u64>::empty() + queue_keys(s.drop_first()));
                assert(queue_keys(s) =~= Seq::<u64>::empty());
            },
        }
    } else {
        assert(s[0] == q[0]);
        assert(s.drop_first() =~= q.drop_first().push(t));
        lemma_queue_push(q.drop_first(), t);
        match q[0].ordering_key {
            OrderingKey::Key(k0) => {
                assert(queue_keys(s) =~= seq![k0] + queue_keys(q.drop_first().push(t)));
                match t.ordering_key {
                    OrderingKey::Key(k) => {
                        assert(seq![k0] + (queue_keys(q.drop_first()) + seq![k]) =~= (seq![k0]
                            + queue_keys(q.drop_first())) + seq![k]);
                    },
                    OrderingKey::UnusedBlock => {
                        assert(queue_keys(q.drop_first()) + Seq::<u64>::empty() =~= queue_keys(
                            q.drop_first(),
                        ));
                        assert(queue_keys(q) + Seq::<u64>::empty() =~= queue_keys(q));
                    },
                }
            },
            OrderingKey::UnusedBlock => {
                assert(queue_keys(s) =~= Seq::<u64>::empty() + queue_keys(q.drop_first().push(t)));
                assert(Seq::<u64>::empty() + queue_keys(q.drop_first().push(t)) =~= queue_keys(
                    q.drop_first().push(t),
                ));
                assert(Seq::<u64>::empty() + queue_keys(q.drop_first()) =~= queue_keys(
                    q.drop_first(),
                ));
                match t.ordering_key {
                    OrderingKey::Key(k) => {
                        assert(queue_keys(q) + seq![k] =~= queue_keys(q.drop_first()) + seq![k]);
                    },
                    OrderingKey::UnusedBlock => {
                        assert(queue_keys(q) + Seq::<u64>::empty() =~= queue_keys(q));
                    },
                }
            },
        }
    }
}

/// Keys and sentinels together account for every queued task.
pub proof fn lemma_queue_counts(q: Seq<CompressTask>)
    ensures
        queue_keys(q).len() + queue_sentinels(q) == q.len(),
        queue_sentinels(q) >= 0,
    decreases q.len(),
{
    if q.len() != 0 {
        lemma_queue_counts(q.drop_first());
    }
}

/// The sequential compression pipeline: submissions run to completion at
/// once, completions queue up in submission order behind the priming
/// sentinels, and a bounded pool of scratch buffers is recycled.
pub struct Compressor {
    queue: Vec<CompressTask>,
    buffer_pool: Vec<Vec<u8>>,
    thread_num: usize,
    sent: usize,
    received: usize,
    submitted: Ghost<Seq<u64>>,
    delivered_keys: Ghost<Seq<u64>>,
    delivered_sentinels: Ghost<int>,
}

impl Compressor {
    /// Number of submissions so far.
    pub closed spec fn spec_sent(&self) -> int {
        self.sent as int
    }

    /// Number of real completions handed out so far.
    pub closed spec fn spec_received(&self) -> int {
        self.received as int
    }

    /// The configured worker count.
    pub closed spec fn spec_thread_num(&self) -> int {
        self.thread_num as int
    }

    /// Keys submitted so far, in order.
    pub closed spec fn spec_submitted(&self) -> Seq<u64> {
        self.submitted@
    }

    /// Keys of the real completions already handed out, in order.
    pub closed spec fn spec_delivered_keys(&self) -> Seq<u64> {
        self.delivered_keys@
    }

    /// Sentinels already handed out.
    pub closed spec fn spec_delivered_sentinels(&self) -> int {
        self.delivered_sentinels@
    }

    /// The completion queue.
    pub closed spec fn spec_pending(&self) -> Seq<CompressTask> {
        self.queue@
    }

    /// Buffers currently in the scratch pool.
    pub closed spec fn spec_pool_size(&self) -> int {
        self.buffer_pool.len() as int
    }

    /// Conservation of work: every submitted key is delivered or pending,
    /// exactly the configured number of sentinels exists, and the scratch
    /// pool stays at its configured size.
    pub open spec fn wf(&self) -> bool {
        &&& self.spec_delivered_keys().len() == self.spec_received()
        &&& self.spec_submitted() == self.spec_delivered_keys() + queue_keys(self.spec_pending())
        &&& self.spec_sent() == self.spec_submitted().len()
        &&& self.spec_delivered_sentinels() + queue_sentinels(self.spec_pending())
            == self.spec_thread_num()
        &&& self.spec_delivered_sentinels() >= 0
        &&& self.spec_pool_size() == self.spec_thread_num()
    }

    /// Build the pipeline: one scratch buffer and one queued sentinel
    /// completion per worker.
    pub fn new(thread_num: usize) -> (c: Self)
        ensures
            c.wf(),
            c.spec_sent() == 0,
            c.spec_received() == 0,
            c.spec_thread_num() == thread_num,
            c.spec_submitted() == Seq::<u64>::empty(),
            c.spec_delivered_keys() == Seq::<u64>::empty(),
            c.spec_delivered_sentinels() == 0,
            c.spec_pending().len() == thread_num,
            queue_sentinels(c.spec_pending()) == thread_num,
            queue_keys(c.spec_pending()) == Seq::<u64>::empty(),
    {
        let mut queue: Vec<CompressTask> = Vec::new();
        let mut buffer_pool: Vec<Vec<u8>> = Vec::new();
        let mut i: usize = 0;
        proof {
            assert(queue_keys(queue@) =~= Seq::<u64>::empty());
        }
        while i < thread_num
            invariant
                0 <= i <= thread_num,
                queue@.len() == i,
                buffer_pool@.len() == i,
                queue_keys(queue@) == Seq::<u64>::empty(),
                queue_sentinels(queue@) == i,
            decreases thread_num - i,
        {
            buffer_pool.push(Vec::new());
            let ghost qb = queue@;
            let sentinel = CompressTask {
                ordering_key: OrderingKey::UnusedBlock,
                block_info: BlockInfo::default(),
                buf: Vec::new(),
            };
            proof {
                lemma_queue_push(qb, sentinel);
            }
            queue.push(sentinel);
            proof {
                assert(queue_keys(queue@) + Seq::<u64>::empty() =~= queue_keys(queue@));
                assert(Seq::<u64>::empty() + Seq::<u64>::empty() =~= Seq::<u64>::empty());
            }
            i += 1;
        }
        Compressor {
            queue,
            buffer_pool,
            thread_num,
            sent: 0,
            received: 0,
            submitted: Ghost(Seq::empty()),
            delivered_keys: Ghost(Seq::empty()),
            delivered_sentinels: Ghost(0),
        }
    }

    /// Submit one block: the work runs to completion immediately and its
    /// completion joins the queue; the submission's input buffer returns to
    /// the scratch pool.  Fails only when a compressing codec fails, and
    /// then leaves the pipeline unchanged.
    pub fn compress_block(
        &mut self,
        ordering_key: OrderingKey,
        block_info: BlockInfo,
        data: Vec<u8>,
        codec: Codecs,
    ) -> (r: Result<(), CodecError>)
        requires
            old(self).wf(),
            ordering_key is Key,
            block_info.uncompr_size <= data@.len(),
            old(self).spec_sent() < usize::MAX,
        ensures
            final(self).wf(),
            final(self).spec_thread_num() == old(self).spec_thread_num(),
            final(self).spec_delivered_keys() == old(self).spec_delivered_keys(),
            final(self).spec_delivered_sentinels() == old(self).spec_delivered_sentinels(),
            final(self).spec_received() == old(self).spec_received(),
            !(codec is Lz4) ==> r is Ok,
            r is Err ==> ({
                &&& final(self).spec_sent() == old(self).spec_sent()
                &&& final(self).spec_submitted() == old(self).spec_submitted()
                &&& final(self).spec_pending() == old(self).spec_pending()
            }),
            r is Ok ==> ({
                &&& final(self).spec_submitted() == old(self).spec_submitted().push(
                    ordering_key->0,
                )
                &&& final(self).spec_sent() == old(self).spec_sent() + 1
                &&& final(self).spec_pending().len() == old(self).spec_pending().len() + 1
                &&& final(self).spec_pending().drop_last() == old(self).spec_pending()
                &&& final(self).spec_pending().last().ordering_key == ordering_key
                &&& final(self).spec_pending().last().block_info == block_info
                &&& task_output_ok(
                    data@.take(block_info.uncompr_size as int),
                    block_info.field,
                    codec,
                    final(self).spec_pending().last().buf@,
                )
            }),
    {
        let mut had_scratch = false;
        let scratch = match self.buffer_pool.pop() {
            Some(b) => {
                had_scratch = true;
                b
            },
            None => Vec::new(),
        };
        match compress_task_payload(data.as_slice(), &block_info, scratch, codec) {
            Err(e) => {
                if had_scratch {
                    self.buffer_pool.push(Vec::new());
                }
                proof {
                    assert(self.buffer_pool@.len() == old(self).buffer_pool@.len());
                }
                Err(e)
            },
            Ok(out) => {
                if had_scratch {
                    self.buffer_pool.push(data);
                }
                let task = CompressTask { ordering_key, block_info, buf: out };
                let ghost qb = self.queue@;
                proof {
                    lemma_queue_push(qb, task);
                }
                self.queue.push(task);
                self.sent = self.sent + 1;
                let ghost k = ordering_key->0;
                proof {
                    self.submitted@ = self.submitted@.push(k);
                }
                proof {
                    assert(self.spec_submitted() =~= self.spec_delivered_keys() + queue_keys(
                        self.spec_pending(),
                    ));
                }
                Ok(())
            },
        }
    }

    /// Hand out the next completion; real completions advance `received`,
    /// sentinels are counted separately.
    pub fn get_compr_block(&mut self) -> (t: CompressTask)
        requires
            old(self).wf(),
            old(self).spec_pending().len() > 0,
        ensures
            final(self).wf(),
            t == old(self).spec_pending()[0],
            final(self).spec_pending() == old(self).spec_pending().drop_first(),
            final(self).spec_submitted() == old(self).spec_submitted(),
            final(self).spec_sent() == old(self).spec_sent(),
            final(self).spec_thread_num() == old(self).spec_thread_num(),
            t.ordering_key is Key ==> ({
                &&& final(self).spec_received() == old(self).spec_received() + 1
                &&& final(self).spec_delivered_keys() == old(self).spec_delivered_keys().push(
                    t.ordering_key->0,
                )
                &&& final(self).spec_delivered_sentinels() == old(self).spec_delivered_sentinels()
            }),
            t.ordering_key is UnusedBlock ==> ({
                &&& final(self).spec_received() == old(self).spec_received()
                &&& final(self).spec_delivered_keys() == old(self).spec_delivered_keys()
                &&& final(self).spec_delivered_sentinels() == old(self).spec_delivered_sentinels()
                    + 1
            }),
    {
        let ghost qb = self.queue@;
        let task = self.queue.remove(0);
        proof {
            assert(self.queue@ =~= qb.drop_first());
            assert(task == qb[0]);
        }
        match task.ordering_key {
            OrderingKey::Key(k) => {
                proof {
                    lemma_queue_counts(qb);
                    lemma_queue_counts(qb.drop_first());
                    assert(queue_keys(qb) == seq![k] + queue_keys(qb.drop_first()));
                    assert(self.delivered_keys@.len() + queue_keys(qb).len()
                        == self.submitted@.len());
                }
                let ghost del_before = self.delivered_keys@;
                self.received = self.received + 1;
                proof {
                    assert(qb[0].ordering_key == OrderingKey::Key(k));
                    assert(queue_keys(qb) =~= seq![k] + queue_keys(qb.drop_first()));
                    self.delivered_keys@ = del_before.push(k);
                    assert(self.submitted@ == del_before + (seq![k] + queue_keys(
                        qb.drop_first(),
                    )));
                    assert(del_before + (seq![k] + queue_keys(qb.drop_first())) =~= (del_before
                        + seq![k]) + queue_keys(qb.drop_first()));
                    assert(del_before.push(k) =~= del_before + seq![k]);
                    assert(self.submitted@ =~= self.delivered_keys@ + queue_keys(
                        qb.drop_first(),
                    ));
                }
            },
            OrderingKey::UnusedBlock => {
                proof {
                    self.delivered_sentinels@ = self.delivered_sentinels@ + 1;
                    assert(queue_sentinels(qb) == 1 + queue_sentinels(qb.drop_first()));
                    assert(queue_keys(qb) =~= Seq::<u64>::empty() + queue_keys(qb.drop_first()));
                    assert(Seq::<u64>::empty() + queue_keys(qb.drop_first()) =~= queue_keys(
                        qb.drop_first(),
                    ));
                }
            },
        }
        task
    }

    /// Number of scratch buffers currently pooled.
    pub fn pool_size(&self) -> (n: usize)
        ensures
            n == self.spec_pool_size(),
    {
        self.buffer_pool.len()
    }

    /// Drain completions until every submission is matched, returning what
    /// was drained (including any sentinels still queued in front).
    pub fn finish(&mut self) -> (leftovers: Vec<CompressTask>)
        requires
            old(self).wf(),
        ensures
            final(self).wf(),
            final(self).spec_sent() == old(self).spec_sent(),
            final(self).spec_submitted() == old(self).spec_submitted(),
            final(self).spec_thread_num() == old(self).spec_thread_num(),
            final(self).spec_received() == final(self).spec_sent(),
            final(self).spec_delivered_keys() == final(self).spec_submitted(),
            queue_keys(final(self).spec_pending()).len() == 0,
            queue_keys(leftovers@) == queue_keys(old(self).spec_pending()),
            old(self).spec_delivered_sentinels() + queue_sentinels(leftovers@)
                == final(self).spec_delivered_sentinels(),
    {
        let mut leftovers: Vec<CompressTask> = Vec::new();
        proof {
            assert(queue_keys(leftovers@) =~= Seq::<u64>::empty());
            assert(old(self).spec_delivered_keys() + queue_keys(leftovers@)
                =~= old(self).spec_delivered_keys());
        }
        while self.received != self.sent
            invariant
                self.wf(),
                self.spec_sent() == old(self).spec_sent(),
                self.spec_submitted() == old(self).spec_submitted(),
                self.spec_thread_num() == old(self).spec_thread_num(),
                self.spec_delivered_keys() == old(self).spec_delivered_keys() + queue_keys(
                    leftovers@,
                ),
                self.spec_delivered_sentinels() == old(self).spec_delivered_sentinels()
                    + queue_sentinels(leftovers@),
                self.spec_pending().len() <= old(self).spec_pending().len(),
                queue_keys(old(self).spec_pending()) =~= queue_keys(leftovers@) + queue_keys(
                    self.spec_pending(),
                ),
            decreases self.spec_pending().len(),
        {
            proof {
                lemma_queue_counts(self.spec_pending());
            }
            let task = self.get_compr_block();
            let ghost lb = leftovers@;
            let ghost tkey = task.ordering_key;
            proof {
                lemma_queue_push(lb, task);
            }
            leftovers.push(task);
            proof {
                match tkey {
                    OrderingKey::Key(k) => {
                        assert(queue_keys(leftovers@) =~= queue_keys(lb) + seq![k]);
                        assert(self.spec_delivered_keys() =~= old(self).spec_delivered_keys()
                            + queue_keys(leftovers@));
                        assert(queue_keys(old(self).spec_pending()) =~= queue_keys(leftovers@)
                            + queue_keys(self.spec_pending()));
                    },
                    OrderingKey::UnusedBlock => {
                        assert(queue_keys(leftovers@) =~= queue_keys(lb));
                        assert(queue_keys(old(self).spec_pending()) =~= queue_keys(leftovers@)
                            + queue_keys(self.spec_pending()));
                    },
                }
            }
        }
        proof {
            lemma_queue_counts(self.spec_pending());
            assert(queue_keys(self.spec_pending()).len() == 0);
            assert(queue_keys(old(self).spec_pending()) =~= queue_keys(leftovers@));
            assert(self.spec_submitted() =~= self.spec_delivered_keys() + queue_keys(
                self.spec_pending(),
            ));
            assert(self.spec_delivered_keys() + queue_keys(self.spec_pending())
                =~= self.spec_delivered_keys());
            assert(self.spec_delivered_keys() =~= self.spec_submitted());
        }
        leftovers
    }
}

/// Conservation law of the pipeline: once the completion queue is fully
/// drained, exactly one real completion was handed out per submission (with
/// the keys in submission order) and exactly one sentinel per configured
/// worker.
pub proof fn lemma_pipeline_conservation(c: &Compressor)
    requires
        c.wf(),
        c.spec_pending().len() == 0,
    ensures
        c.spec_delivered_keys() == c.spec_submitted(),
        c.spec_delivered_keys().len() == c.spec_submitted().len(),
        c.spec_delivered_sentinels() == c.spec_thread_num(),
{
    assert(queue_keys(c.spec_pending()) =~= Seq::<u64>::empty());
    assert(c.spec_delivered_keys() + Seq::<u64>::empty() =~= c.spec_delivered_keys());
    assert(queue_sentinels(c.spec_pending()) == 0);
}

} // verus!
