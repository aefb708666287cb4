//! Stream-wise compression over the column-store layout of tokenized names.
//!
//! Varint framing is zig-zag LEB128 over `i32`: the sign rotation
//! `v >= 0 ? 2v : -2v-1` maps small magnitudes of either sign to small
//! codes, and LEB128 stores 7 payload bits per byte with the high bit as a
//! continuation flag.  Run-length encoding emits `varint(count) | value` per
//! run.

use vstd::prelude::*;

use crate::error::{CodecError, TokenizationError};
use vstd::string::StringExecFns;

verus! {

/// The zig-zag fold of a signed 32-bit value onto the unsigned range.
pub open spec fn zigzag(v: int) -> int {
    if v >= 0 {
        2 * v
    } else {
        -2 * v - 1
    }
}

/// Inverse of the zig-zag fold.
pub open spec fn unzigzag(u: int) -> int {
    if u % 2 == 0 {
        u / 2
    } else {
        -((u + 1) / 2)
    }
}

pub proof fn lemma_zigzag_round_trip(v: int)
    requires
        i32::MIN <= v <= i32::MAX,
    ensures
        0 <= zigzag(v) <= u32::MAX,
        unzigzag(zigzag(v)) == v,
{
}

/// The 32-bit two's-complement reading of an unsigned 32-bit value.
pub open spec fn as_i32_bits(c: int) -> int {
    if c <= i32::MAX {
        c
    } else {
        c - 0x1_0000_0000
    }
}

/// The unsigned 32-bit carrier of a signed 32-bit value.
pub open spec fn as_u32_bits(v: int) -> int {
    if v >= 0 {
        v
    } else {
        v + 0x1_0000_0000
    }
}

/// LEB128 bytes of a non-negative value: 7 payload bits per byte, low bits
/// first, high bit set on every byte but the last.
pub open spec fn leb128(u: int) -> Seq<u8>
    recommends
        u >= 0,
    decreases u,
{
    if u < 128 {
        seq![u as u8]
    } else {
        seq![(u % 128 + 128) as u8].add(leb128(u / 128))
    }
}

/// The varint encoding of a signed 32-bit value: zig-zag then LEB128.
pub open spec fn varint_of(v: int) -> Seq<u8> {
    leb128(zigzag(v))
}

/// 128 raised to `k`.
pub open spec fn pow128(k: int) -> int
    decreases k,
{
    if k <= 0 {
        1
    } else {
        128 * pow128(k - 1)
    }
}

pub proof fn lemma_leb128_len(u: int, k: int)
    requires
        0 <= u,
        1 <= k,
        u < pow128(k),
    ensures
        1 <= leb128(u).len() <= k,
    decreases k,
{
    if u >= 128 {
        assert(u / 128 < pow128(k - 1)) by {
            assert(u < 128 * pow128(k - 1));
        }
        lemma_leb128_len(u / 128, k - 1);
    }
}

proof fn lemma_pow128_5()
    ensures
        pow128(5) == 0x8_0000_0000,
{
    assert(pow128(0) == 1);
    assert(pow128(1) == 128);
    assert(pow128(2) == 16384);
    assert(pow128(3) == 0x20_0000);
    assert(pow128(4) == 0x1000_0000);
    assert(pow128(5) == 0x8_0000_0000);
}

/// A varint over `i32` never needs more than five bytes.
pub proof fn lemma_varint_len(v: int)
    requires
        i32::MIN <= v <= i32::MAX,
    ensures
        1 <= varint_of(v).len() <= 5,
{
    lemma_zigzag_round_trip(v);
    lemma_pow128_5();
    lemma_leb128_len(zigzag(v), 5);
}

/// What parsing one LEB128 number from the front of `s` yields: the value
/// and the count of bytes consumed.  `None` when the bytes run out before a
/// terminating byte, when more than five bytes would be needed, or when the
/// value exceeds the unsigned 32-bit range.
pub open spec fn spec_leb128_decode(s: Seq<u8>) -> Option<(int, int)>
    decreases s.len(),
{
    if s.len() == 0 {
        None
    } else if s[0] < 128 {
        Some((s[0] as int, 1))
    } else {
        match spec_leb128_decode(s.drop_first()) {
            Option::None => None,
            Option::Some((v, n)) => {
                let value = (s[0] - 128) + 128 * v;
                if n + 1 <= 5 && value <= u32::MAX {
                    Some((value, n + 1))
                } else {
                    None
                }
            },
        }
    }
}

/// Parsing the encoding of `u` (with anything appended) returns `u` and
/// consumes exactly the encoding.
pub proof fn lemma_leb128_decode_encode(u: int, rest: Seq<u8>)
    requires
        0 <= u <= u32::MAX,
    ensures
        spec_leb128_decode(leb128(u) + rest) == Some((u, leb128(u).len() as int)),
    decreases u,
{
    lemma_pow128_5();
    lemma_leb128_len(u, 5);
    let s = leb128(u) + rest;
    if u < 128 {
        assert(s[0] == u as u8);
    } else {
        lemma_leb128_decode_encode(u / 128, rest);
        assert(s[0] == (u % 128 + 128) as u8);
        assert(s[0] >= 128);
        assert(s.drop_first() =~= leb128(u / 128) + rest);
        assert((s[0] - 128) + 128 * (u / 128) == u);
    }
}

/// A successful LEB128 parse consumes one to five bytes of the stream and
/// yields an unsigned 32-bit value.
pub proof fn lemma_leb128_decode_bounds(s: Seq<u8>)
    ensures
        spec_leb128_decode(s) is Some ==> ({
            let (u, n) = spec_leb128_decode(s)->0;
            &&& 0 <= u <= u32::MAX
            &&& 1 <= n <= 5
            &&& n <= s.len()
        }),
    decreases s.len(),
{
    if s.len() > 0 && s[0] >= 128 {
        lemma_leb128_decode_bounds(s.drop_first());
    }
}

/// Unsigned 32-bit repetition of one byte.
pub open spec fn repeat_byte(b: u8, n: int) -> Seq<u8> {
    Seq::new(n as nat, |i: int| b)
}

/// Length of the run of equal bytes at the front of `s`.
pub open spec fn run_len(s: Seq<u8>) -> int
    decreases s.len(),
{
    if s.len() == 0 {
        0
    } else if s.len() >= 2 && s[1] == s[0] {
        1 + run_len(s.drop_first())
    } else {
        1
    }
}

/// Front run length, capped at the unsigned 32-bit maximum.
pub open spec fn capped_run(s: Seq<u8>) -> int {
    if run_len(s) > u32::MAX {
        u32::MAX as int
    } else {
        run_len(s)
    }
}

pub proof fn lemma_run_len_pos(s: Seq<u8>)
    requires
        s.len() > 0,
    ensures
        1 <= run_len(s) <= s.len(),
        1 <= capped_run(s) <= s.len(),
        forall|i: int| #![trigger s[i]] 0 <= i < run_len(s) ==> s[i] == s[0],
    decreases s.len(),
{
    if s.len() >= 2 && s[1] == s[0] {
        lemma_run_len_pos(s.drop_first());
        assert forall|i: int| #![trigger s[i]] 0 <= i < run_len(s) implies s[i] == s[0] by {
            if i >= 1 {
                assert(s.drop_first()[i - 1] == s[i]);
                assert(s.drop_first()[0] == s[1]);
            }
        }
    }
}

/// A scan that sees `k` equal bytes and then a break (or the end, or the
/// cap) has found exactly the capped front run.
pub proof fn lemma_run_scan(s: Seq<u8>, k: int)
    requires
        1 <= k <= s.len(),
        k <= u32::MAX,
        forall|i: int| #![trigger s[i]] 0 <= i < k ==> s[i] == s[0],
        k == s.len() || s[k] != s[0] || k == u32::MAX,
    ensures
        capped_run(s) == k,
    decreases s.len(),
{
    lemma_run_len_pos(s);
    if k >= 2 {
        assert(s[1] == s[0]);
        assert forall|i: int| #![trigger s.drop_first()[i]] 0 <= i < k - 1 implies s.drop_first()[i] == s.drop_first()[0] by {
            assert(s.drop_first()[i] == s[i + 1]);
            assert(s[i + 1] == s[0]);
            assert(s.drop_first()[0] == s[1]);
        }
        if k - 1 < s.drop_first().len() && s.drop_first()[k - 1] == s.drop_first()[0] {
            // the break at k was the cap
            assert(k == u32::MAX);
            lemma_run_len_pos(s.drop_first());
            lemma_run_scan_min(s.drop_first(), k - 1);
        } else {
            lemma_run_scan(s.drop_first(), k - 1);
        }
    } else {
        if s.len() >= 2 && s[1] == s[0] {
            assert(s[k] != s[0] || k == u32::MAX);
            assert(false);
        }
    }
}

/// Seeing `k` equal bytes puts the front run at `k` at least.
pub proof fn lemma_run_scan_min(s: Seq<u8>, k: int)
    requires
        1 <= k <= s.len(),
        forall|i: int| #![trigger s[i]] 0 <= i < k ==> s[i] == s[0],
    ensures
        run_len(s) >= k,
    decreases k,
{
    lemma_run_len_pos(s);
    if k >= 2 {
        assert(s[1] == s[0]);
        assert forall|i: int| #![trigger s.drop_first()[i]] 0 <= i < k - 1 implies s.drop_first()[i] == s.drop_first()[0] by {
            assert(s.drop_first()[i] == s[i + 1]);
            assert(s[i + 1] == s[0]);
            assert(s.drop_first()[0] == s[1]);
        }
        lemma_run_scan_min(s.drop_first(), k - 1);
    }
}

/// Run-length encoding of a byte sequence: `varint(count) | value` per run,
/// runs capped at the unsigned 32-bit maximum.
pub open spec fn spec_rle_encode(s: Seq<u8>) -> Seq<u8>
    decreases s.len(),
{
    if s.len() == 0 {
        Seq::empty()
    } else {
        let k = capped_run(s);
        if 1 <= k <= s.len() {
            varint_of(as_i32_bits(k)) + seq![s[0]] + spec_rle_encode(s.skip(k))
        } else {
            Seq::empty()
        }
    }
}

/// What decoding a run-length stream yields; `None` on a truncated stream
/// or an unparseable count.
pub open spec fn spec_rle_decode(s: Seq<u8>) -> Option<Seq<u8>>
    decreases s.len(),
{
    if s.len() == 0 {
        Some(Seq::empty())
    } else {
        match spec_leb128_decode(s) {
            Option::None => None,
            Option::Some((u, n)) => {
                if n + 1 > s.len() {
                    None
                } else if n < 1 {
                    None
                } else {
                    let count = as_u32_bits(unzigzag(u));
                    let value = s[n];
                    match spec_rle_decode(s.skip(n + 1)) {
                        Option::None => None,
                        Option::Some(rest) => Some(repeat_byte(value, count) + rest),
                    }
                }
            },
        }
    }
}

/// Run-length round trip: decoding an encoded stream restores the bytes.
pub proof fn lemma_rle_round_trip(s: Seq<u8>)
    ensures
        spec_rle_decode(spec_rle_encode(s)) == Some(s),
    decreases s.len(),
{
    if s.len() != 0 {
        lemma_run_len_pos(s);
        let k = capped_run(s);
        let count_bytes = varint_of(as_i32_bits(k));
        let enc = spec_rle_encode(s);
        let tail = seq![s[0]] + spec_rle_encode(s.skip(k));
        assert(enc =~= count_bytes + tail);
        lemma_zigzag_round_trip(as_i32_bits(k));
        lemma_leb128_decode_encode(zigzag(as_i32_bits(k)), tail);
        let n = count_bytes.len() as int;
        assert(spec_leb128_decode(enc) == Some((zigzag(as_i32_bits(k)), n)));
        lemma_varint_len(as_i32_bits(k));
        assert(enc[n] == s[0]);
        assert(enc.skip(n + 1) =~= spec_rle_encode(s.skip(k)));
        lemma_rle_round_trip(s.skip(k));
        assert(as_u32_bits(unzigzag(zigzag(as_i32_bits(k)))) == k);
        assert(repeat_byte(s[0], k) + s.skip(k) =~= s) by {
            lemma_run_len_pos(s);
        }
    }
}

} // verus!

verus! {

/// Two's-complement reading of a `u32` as an `i32`.
fn i32_from_u32_bits(c: u32) -> (r: i32)
    ensures
        r as int == as_i32_bits(c as int),
{
    if c <= i32::MAX as u32 {
        c as i32
    } else {
        ((c as i64) - 0x1_0000_0000i64) as i32
    }
}

/// Unsigned 32-bit carrier of an `i32`.
fn u32_from_i32_bits(v: i32) -> (r: u32)
    ensures
        r as int == as_u32_bits(v as int),
{
    if v >= 0 {
        v as u32
    } else {
        ((v as i64) + 0x1_0000_0000i64) as u32
    }
}

/// Configuration of the per-stream pipelines.  The run-length threshold is
/// kept as hundredths, compared exactly: run-length encoding is applied when
/// `100 * bytes_saved > rle_threshold_hundredths * len`.
#[derive(Debug, Clone, PartialEq, Eq, Structural)]
pub struct PostTokenizationConfig {
    pub use_rle: bool,
    pub use_huffman: bool,
    pub use_delta_encoding: bool,
    pub use_deflate: bool,
    pub rle_threshold_hundredths: u32,
}

impl Default for PostTokenizationConfig {
    fn default() -> (c: Self)
        ensures
            c == (PostTokenizationConfig {
                use_rle: true,
                use_huffman: true,
                use_delta_encoding: true,
                use_deflate: true,
                rle_threshold_hundredths: 20u32,
            }),
    {
        PostTokenizationConfig {
            use_rle: true,
            use_huffman: true,
            use_delta_encoding: true,
            use_deflate: true,
            rle_threshold_hundredths: 20,
        }
    }
}

/// Bytes saved by run-length encoding, counted only over runs of length at
/// least three: each such run of length `k` saves `k - 2` bytes.
pub open spec fn rle_saved(s: Seq<u8>) -> int
    decreases s.len(),
{
    if s.len() == 0 {
        0
    } else {
        let k = run_len(s);
        if 1 <= k <= s.len() {
            (if k >= 3 {
                k - 2
            } else {
                0int
            }) + rle_saved(s.skip(k))
        } else {
            0
        }
    }
}

/// Run-length encoding pays off: at least ten bytes, and the saved share
/// exceeds the threshold.
pub open spec fn spec_rle_beneficial(s: Seq<u8>, threshold_hundredths: int) -> bool {
    s.len() >= 10 && 100 * rle_saved(s) > threshold_hundredths * s.len()
}

/// Whether byte value `b` occurs in the stream.
pub open spec fn stream_has_byte(s: Seq<u8>, b: u8) -> bool {
    exists|j: int| 0 <= j < s.len() && s[j] == b
}

/// Number of distinct byte values below `n` in the stream.
pub open spec fn stream_distinct_below(s: Seq<u8>, n: int) -> int
    decreases n,
{
    if n <= 0 {
        0
    } else {
        stream_distinct_below(s, n - 1) + if stream_has_byte(s, (n - 1) as u8) {
            1int
        } else {
            0int
        }
    }
}

/// The reserved Huffman stage would engage: more than one distinct symbol,
/// fewer than half as many symbols as bytes, and more than twenty bytes.
pub open spec fn spec_should_use_huffman(s: Seq<u8>) -> bool {
    stream_distinct_below(s, 256) < s.len() / 2 && stream_distinct_below(s, 256) > 1
        && s.len() > 20
}

/// The signed 32-bit wrapping difference `b - a`.
pub open spec fn wrap_diff_i32(b: int, a: int) -> int {
    let d = b - a;
    if d > i32::MAX {
        d - 0x1_0000_0000
    } else if d < i32::MIN {
        d + 0x1_0000_0000
    } else {
        d
    }
}

/// Varints of the wrapping deltas of a `u32` stream against `prev`.
pub open spec fn delta_tail(prev: int, s: Seq<u32>) -> Seq<u8>
    decreases s.len(),
{
    if s.len() == 0 {
        Seq::empty()
    } else {
        varint_of(wrap_diff_i32(s[0] as int, prev)) + delta_tail(s[0] as int, s.drop_first())
    }
}

/// Delta-then-varint encoding of a numeric stream: the first value by its
/// two's-complement reading, every later value as a wrapping delta.
pub open spec fn spec_delta_varint(s: Seq<u32>) -> Seq<u8>
    recommends
        s.len() >= 1,
{
    varint_of(as_i32_bits(s[0] as int)) + delta_tail(s[0] as int, s.drop_first())
}

/// Direct varint encoding of a numeric stream by two's-complement readings.
pub open spec fn spec_direct_varints(s: Seq<u32>) -> Seq<u8>
    decreases s.len(),
{
    if s.len() == 0 {
        Seq::empty()
    } else {
        varint_of(as_i32_bits(s[0] as int)) + spec_direct_varints(s.drop_first())
    }
}

/// The joint delta of row `i` against row `i - 1` (a zero triple before the
/// first row): wrapping 32-bit differences for x and y, the plain difference
/// for the tile.
pub open spec fn coord_delta(xs: Seq<u32>, ys: Seq<u32>, ts: Seq<u16>, i: int) -> (int, int, int) {
    if i == 0 {
        (wrap_diff_i32(xs[0] as int, 0), wrap_diff_i32(ys[0] as int, 0), ts[0] as int)
    } else {
        (
            wrap_diff_i32(xs[i] as int, xs[i - 1] as int),
            wrap_diff_i32(ys[i] as int, ys[i - 1] as int),
            ts[i] - ts[i - 1],
        )
    }
}

/// Interleaved varints `(dx, dy, dtile)` of the joint coordinate deltas from
/// row `i` on.
pub open spec fn coord_tail(xs: Seq<u32>, ys: Seq<u32>, ts: Seq<u16>, i: int) -> Seq<u8>
    recommends
        xs.len() == ys.len() == ts.len(),
        0 <= i,
    decreases xs.len() - i,
{
    if i < 0 || i >= xs.len() {
        Seq::empty()
    } else {
        let d = coord_delta(xs, ys, ts, i);
        varint_of(d.0) + varint_of(d.1) + varint_of(d.2) + coord_tail(xs, ys, ts, i + 1)
    }
}

/// The whole interleaved coordinate delta stream.
pub open spec fn spec_coord_stream(xs: Seq<u32>, ys: Seq<u32>, ts: Seq<u16>) -> Seq<u8> {
    coord_tail(xs, ys, ts, 0)
}

/// 1 when row `k` holds a value, else 0.
pub open spec fn presence_bit(s: Seq<Option<u16>>, k: int) -> int {
    if 0 <= k < s.len() && s[k] is Some {
        1
    } else {
        0
    }
}

/// Powers of two.
pub open spec fn pow2(k: int) -> int
    decreases k,
{
    if k <= 0 {
        1
    } else {
        2 * pow2(k - 1)
    }
}

/// Low `j` bits of the presence byte for the group starting at `base`,
/// LSB first.
pub open spec fn bitmap_byte_partial(s: Seq<Option<u16>>, base: int, j: int) -> int
    decreases j,
{
    if j <= 0 {
        0
    } else {
        bitmap_byte_partial(s, base, j - 1) + pow2(j - 1) * presence_bit(s, base + j - 1)
    }
}

/// The presence bitmap: one bit per row, LSB-first within each byte, the
/// last byte padded with zeros.
pub open spec fn spec_bitmap(s: Seq<Option<u16>>) -> Seq<u8> {
    Seq::new((((s.len() + 7) / 8) as int) as nat, |g: int| bitmap_byte_partial(s, 8 * g, 8) as u8)
}

/// Concatenated varints of the present values, in row order.
pub open spec fn spec_sparse_values(s: Seq<Option<u16>>) -> Seq<u8>
    decreases s.len(),
{
    if s.len() == 0 {
        Seq::empty()
    } else {
        (match s[0] {
            Option::Some(v) => varint_of(v as int),
            Option::None => Seq::empty(),
        }) + spec_sparse_values(s.drop_first())
    }
}

/// A byte payload preceded by its length as a varint.
pub open spec fn len_framed(p: Seq<u8>) -> Seq<u8> {
    varint_of(p.len() as int) + p
}

/// Column-store layout of a tokenized batch: eleven parallel columns.
#[derive(Debug)]
pub struct TokenizedStreams {
    pub instrument_ids: Vec<u8>,
    pub run_ids: Vec<u32>,
    pub flowcell_ids: Vec<u8>,
    pub lanes: Vec<u8>,
    pub tiles: Vec<u16>,
    pub x_coords: Vec<u32>,
    pub y_coords: Vec<u32>,
    pub umi_ids: Vec<Option<u16>>,
    pub read_nums: Vec<u8>,
    pub flags: Vec<u8>,
    pub index_ids: Vec<Option<u8>>,
}

impl TokenizedStreams {
    /// Empty column store with room for `capacity` rows.
    pub fn new(capacity: usize) -> (s: Self)
        ensures
            s.instrument_ids@.len() == 0,
            s.run_ids@.len() == 0,
            s.flowcell_ids@.len() == 0,
            s.lanes@.len() == 0,
            s.tiles@.len() == 0,
            s.x_coords@.len() == 0,
            s.y_coords@.len() == 0,
            s.umi_ids@.len() == 0,
            s.read_nums@.len() == 0,
            s.flags@.len() == 0,
            s.index_ids@.len() == 0,
    {
        TokenizedStreams {
            instrument_ids: Vec::with_capacity(capacity),
            run_ids: Vec::with_capacity(capacity),
            flowcell_ids: Vec::with_capacity(capacity),
            lanes: Vec::with_capacity(capacity),
            tiles: Vec::with_capacity(capacity),
            x_coords: Vec::with_capacity(capacity),
            y_coords: Vec::with_capacity(capacity),
            umi_ids: Vec::with_capacity(capacity),
            read_nums: Vec::with_capacity(capacity),
            flags: Vec::with_capacity(capacity),
            index_ids: Vec::with_capacity(capacity),
        }
    }
}

} // verus!

verus! {

/// Joint delta of one coordinate row.
#[derive(Debug)]
pub struct CoordinateDelta {
    pub dx: i32,
    pub dy: i32,
    pub dtile: i32,
}

/// Per-stream compressor over the column-store layout.
pub struct PostTokenizationCompressor {
    config: PostTokenizationConfig,
}

impl PostTokenizationCompressor {
    /// The configuration the compressor was built with.
    pub closed spec fn spec_config(&self) -> PostTokenizationConfig {
        self.config
    }

    pub fn new(config: PostTokenizationConfig) -> (c: Self)
        ensures
            c.spec_config() == config,
    {
        PostTokenizationCompressor { config }
    }

    /// Zig-zag LEB128 encoding of one signed 32-bit value.
    pub fn encode_varint(&self, value: i32) -> (r: Vec<u8>)
        ensures
            r@ == varint_of(value as int),
            1 <= r@.len() <= 5,
    {
        proof {
            lemma_varint_len(value as int);
        }
        let zz: u32 = if value >= 0 {
            (value as u32) * 2
        } else {
            let m: i64 = -(value as i64);
            (2 * m - 1) as u32
        };
        proof {
            assert(zz as int == zigzag(value as int));
        }
        let mut out: Vec<u8> = Vec::new();
        let mut cur: u32 = zz;
        proof {
            assert(out@ + leb128(cur as int) =~= leb128(zz as int));
        }
        while cur >= 128
            invariant
                out@ + leb128(cur as int) =~= leb128(zz as int),
            decreases cur,
        {
            let b: u8 = (cur % 128) as u8 + 128;
            let ghost before = out@;
            out.push(b);
            proof {
                assert(leb128(cur as int) =~= seq![b] + leb128(cur as int / 128));
                assert(before + (seq![b] + leb128(cur as int / 128)) =~= (before + seq![b])
                    + leb128(cur as int / 128));
                assert(cur as int / 128 == (cur / 128) as int);
            }
            cur = cur / 128;
        }
        let ghost before = out@;
        out.push(cur as u8);
        proof {
            assert(leb128(cur as int) =~= seq![cur as u8]);
            assert(before + leb128(cur as int) =~= out@);
        }
        out
    }

    /// Parse one zig-zag LEB128 value starting at `pos`; on success, the
    /// decoded value and the position just past it.
    pub fn decode_varint(&self, data: &[u8], pos: usize) -> (r: Result<
        (i32, usize),
        TokenizationError,
    >)
        ensures
            r is Ok <==> (pos <= data@.len() && spec_leb128_decode(data@.skip(pos as int)) is Some),
            r is Ok ==> ({
                let (u, n) = spec_leb128_decode(data@.skip(pos as int))->0;
                &&& r->Ok_0.0 as int == unzigzag(u)
                &&& r->Ok_0.1 == pos + n
                &&& pos + n <= data@.len()
            }),
            r is Err ==> r->Err_0 is ParseError,
    {
        match leb128_read(data, pos) {
            Ok((u, next)) => {
                let ghost (su, sn) = spec_leb128_decode(data@.skip(pos as int))->0;
                let v: i32 = if u % 2 == 0 {
                    (u / 2) as i32
                } else {
                    (-(((u as i64) + 1) / 2)) as i32
                };
                proof {
                    assert(v as int == unzigzag(u as int));
                }
                Ok((v, next))
            },
            Err(e) => Err(e),
        }
    }

    /// Run-length encode: `varint(count) | value` per run of equal bytes,
    /// runs capped at the unsigned 32-bit maximum.
    pub fn run_length_encode(&self, data: &[u8]) -> (r: Vec<u8>)
        ensures
            r@ == spec_rle_encode(data@),
    {
        let mut out: Vec<u8> = Vec::new();
        let mut i: usize = 0;
        proof {
            assert(data@.skip(0) =~= data@);
            assert(out@ + spec_rle_encode(data@) =~= spec_rle_encode(data@));
        }
        while i < data.len()
            invariant
                0 <= i <= data.len(),
                spec_rle_encode(data@) =~= out@ + spec_rle_encode(data@.skip(i as int)),
            decreases data.len() - i,
        {
            let b = data[i];
            let mut j: usize = i + 1;
            while j < data.len() && data[j] == b && (j - i) < u32::MAX as usize
                invariant
                    i < j <= data.len(),
                    b == data@[i as int],
                    j - i <= u32::MAX,
                    forall|k: int| i <= k < j ==> data@[k] == data@[i as int],
                decreases data.len() - j,
            {
                j += 1;
            }
            let count: u32 = (j - i) as u32;
            let ghost rest = data@.skip(i as int);
            proof {
                assert forall|k: int| 0 <= k < (j - i) implies #[trigger] rest[k] == rest[0] by {
                    assert(rest[k] == data@[i + k]);
                    assert(rest[0] == data@[i as int]);
                }
                if (j as int - i) < rest.len() && !((j - i) == u32::MAX) {
                    assert(rest[j - i] == data@[j as int]);
                    assert(data@[j as int] != data@[i as int]);
                }
                lemma_run_scan(rest, j - i);
                assert(capped_run(rest) == j - i);
                lemma_run_len_pos(rest);
            }
            let count_i = i32_from_u32_bits(count);
            let mut header = self.encode_varint(count_i);
            let ghost before = out@;
            out.append(&mut header);
            out.push(b);
            proof {
                let krest = rest.skip(count as int);
                assert(spec_rle_encode(rest) =~= varint_of(as_i32_bits(count as int))
                    + seq![rest[0]] + spec_rle_encode(krest));
                assert(out@ =~= before + varint_of(as_i32_bits(count as int)) + seq![rest[0]]);
                assert(krest =~= data@.skip(j as int));
                assert(spec_rle_encode(data@) =~= out@ + spec_rle_encode(data@.skip(j as int)));
            }
            i = j;
        }
        proof {
            assert(data@.skip(data@.len() as int) =~= Seq::<u8>::empty());
            assert(out@ + spec_rle_encode(data@.skip(data@.len() as int)) =~= out@);
        }
        out
    }

    /// Decode a run-length stream produced by `run_length_encode`.
    pub fn run_length_decode(&self, data: &[u8]) -> (r: Result<Vec<u8>, TokenizationError>)
        ensures
            r is Ok ==> spec_rle_decode(data@) == Some(r->Ok_0@),
            r is Ok <==> (spec_rle_decode(data@) is Some && spec_rle_decode(data@)->0.len()
                <= usize::MAX),
            r is Err ==> r->Err_0 is ParseError,
    {
        let mut out: Vec<u8> = Vec::new();
        let mut pos: usize = 0;
        proof {
            assert(data@.skip(0) =~= data@);
        }
        while pos < data.len()
            invariant
                0 <= pos <= data.len(),
                out@.len() <= pos || out@.len() >= 0,
                spec_rle_decode(data@) is Some <==> spec_rle_decode(data@.skip(pos as int))
                    is Some,
                spec_rle_decode(data@) is Some ==> spec_rle_decode(data@)->0 =~= out@
                    + spec_rle_decode(data@.skip(pos as int))->0,
            decreases data.len() - pos,
        {
            let ghost tail = data@.skip(pos as int);
            proof {
                lemma_leb128_decode_bounds(tail);
            }
            match leb128_read(data, pos) {
                Err(_) => {
                    proof {
                        assert(tail.len() > 0);
                        assert(spec_rle_decode(tail) is None);
                    }
                    return Err(TokenizationError::ParseError(
                        String::from_str("invalid run header"),
                    ));
                },
                Ok((u, next)) => {
                    if next >= data.len() {
                        proof {
                            let (su, sn) = spec_leb128_decode(tail)->0;
                            assert(sn + 1 > tail.len());
                            assert(spec_rle_decode(tail) is None);
                        }
                        return Err(TokenizationError::ParseError(
                            String::from_str("truncated run"),
                        ));
                    }
                    let value = data[next];
                    let vi = if u % 2 == 0 {
                        (u / 2) as i32
                    } else {
                        (-(((u as i64) + 1) / 2)) as i32
                    };
                    proof {
                        assert(vi as int == unzigzag(u as int));
                    }
                    let count = u32_from_i32_bits(vi);
                    let ghost (su, sn) = spec_leb128_decode(tail)->0;
                    proof {
                        assert(sn == next - pos);
                        assert(tail[sn] == data@[next as int]);
                        assert(tail.skip(sn + 1) =~= data@.skip(next + 1));
                    }
                    if count as u128 > (usize::MAX as u128) - (out.len() as u128) {
                        proof {
                            if spec_rle_decode(data@) is Some {
                                let full = spec_rle_decode(data@)->0;
                                let t = spec_rle_decode(tail)->0;
                                assert(t =~= repeat_byte(data@[next as int], count as int)
                                    + spec_rle_decode(data@.skip(next + 1))->0);
                                assert(t.len() >= count as int);
                                assert(full.len() > usize::MAX);
                            }
                        }
                        return Err(TokenizationError::ParseError(
                            String::from_str("run too long"),
                        ));
                    }
                    let ghost before = out@;
                    let mut c: usize = 0;
                    while c < count as usize
                        invariant
                            0 <= c <= count as usize,
                            out@ =~= before + repeat_byte(value, c as int),
                            out@.len() == before.len() + c,
                        decreases count as usize - c,
                    {
                        let ghost prev = out@;
                        out.push(value);
                        proof {
                            assert(prev + repeat_byte(value, c as int + 1).skip(c as int) =~= out@);
                            assert(before + repeat_byte(value, c as int + 1) =~= out@);
                        }
                        c += 1;
                    }
                    proof {
                        if spec_rle_decode(data@) is Some {
                            let t = spec_rle_decode(tail)->0;
                            assert(t =~= repeat_byte(value, count as int) + spec_rle_decode(
                                data@.skip(next + 1),
                            )->0);
                            assert(spec_rle_decode(data@)->0 =~= out@ + spec_rle_decode(
                                data@.skip(next + 1),
                            )->0);
                        }
                    }
                    pos = next + 1;
                },
            }
        }
        let n_out = out.len();
        proof {
            assert(out@.len() == n_out as int);
            assert(data@.skip(pos as int) =~= Seq::<u8>::empty());
            if spec_rle_decode(data@) is Some {
                assert(spec_rle_decode(data@)->0 =~= out@);
            }
        }
        Ok(out)
    }
}

/// Read one LEB128 number from `data` at `pos`: the unsigned value and the
/// position just past its last byte.
fn leb128_read(data: &[u8], pos: usize) -> (r: Result<(u32, usize), TokenizationError>)
    ensures
        r is Ok <==> (pos <= data@.len() && spec_leb128_decode(data@.skip(pos as int)) is Some),
        r is Ok ==> ({
            let (u, n) = spec_leb128_decode(data@.skip(pos as int))->0;
            &&& r->Ok_0.0 as int == u
            &&& r->Ok_0.1 == pos + n
            &&& pos + n <= data@.len()
        }),
        r is Err ==> r->Err_0 is ParseError,
    decreases data@.len() - pos,
{
    if pos >= data.len() {
        proof {
            if pos <= data@.len() {
                assert(data@.skip(pos as int).len() == 0);
            }
        }
        return Err(TokenizationError::ParseError(String::from_str("truncated varint")));
    }
    let ghost tail = data@.skip(pos as int);
    let b = data[pos];
    proof {
        assert(tail[0] == b);
    }
    if b < 128 {
        return Ok((b as u32, pos + 1));
    }
    match leb128_read(data, pos + 1) {
        Err(_) => {
            proof {
                assert(tail.drop_first() =~= data@.skip(pos + 1));
            }
            Err(TokenizationError::ParseError(String::from_str("truncated varint")))
        },
        Ok((v, next)) => {
            proof {
                assert(tail.drop_first() =~= data@.skip(pos + 1));
            }
            proof {
                lemma_leb128_decode_bounds(data@.skip(pos + 1));
            }
            let ghost (sv, sn) = spec_leb128_decode(data@.skip(pos + 1))->0;
            let n = next - pos;
            let value: u64 = ((b - 128) as u64) + 128 * (v as u64);
            if n <= 5 && value <= u32::MAX as u64 {
                Ok((value as u32, next))
            } else {
                Err(TokenizationError::ParseError(String::from_str("varint too long")))
            }
        },
    }
}

} // verus!

verus! {

/// A scan that sees `k` equal bytes and then a mismatch or the end has
/// found exactly the front run.
pub proof fn lemma_run_scan_exact(s: Seq<u8>, k: int)
    requires
        1 <= k <= s.len(),
        forall|i: int| #![trigger s[i]] 0 <= i < k ==> s[i] == s[0],
        k == s.len() || s[k] != s[0],
    ensures
        run_len(s) == k,
    decreases s.len(),
{
    lemma_run_len_pos(s);
    if k >= 2 {
        assert(s[1] == s[0]);
        assert forall|i: int| #![trigger s.drop_first()[i]] 0 <= i < k - 1 implies s.drop_first()[i]
            == s.drop_first()[0] by {
            assert(s.drop_first()[i] == s[i + 1]);
            assert(s[i + 1] == s[0]);
            assert(s.drop_first()[0] == s[1]);
        }
        if k < s.len() {
            assert(s.drop_first()[k - 1] == s[k]);
        }
        lemma_run_scan_exact(s.drop_first(), k - 1);
    } else {
        if s.len() >= 2 && s[1] == s[0] {
            assert(false);
        }
    }
}

/// Varint round trip: every signed 32-bit value encodes in at most five
/// bytes, and decoding the encoding restores the value exactly.
pub proof fn lemma_varint_round_trip(v: int)
    requires
        i32::MIN <= v <= i32::MAX,
    ensures
        1 <= varint_of(v).len() <= 5,
        spec_leb128_decode(varint_of(v)) == Some((zigzag(v), varint_of(v).len() as int)),
        unzigzag(zigzag(v)) == v,
{
    lemma_varint_len(v);
    lemma_zigzag_round_trip(v);
    lemma_leb128_decode_encode(zigzag(v), Seq::empty());
    assert(leb128(zigzag(v)) + Seq::<u8>::empty() =~= leb128(zigzag(v)));
}

/// The wrapping signed 32-bit difference `b - a`.
fn wrap_diff_exec(b: u32, a: u32) -> (r: i32)
    ensures
        r as int == wrap_diff_i32(b as int, a as int),
{
    let d: i64 = b as i64 - a as i64;
    if d > i32::MAX as i64 {
        (d - 0x1_0000_0000i64) as i32
    } else if d < i32::MIN as i64 {
        (d + 0x1_0000_0000i64) as i32
    } else {
        d as i32
    }
}

impl PostTokenizationCompressor {
    /// Bytes saved by run-length encoding (runs of length at least three
    /// only) and the stream length; the benefit is their quotient.  Streams
    /// of fewer than ten bytes report zero savings.
    pub fn calculate_rle_benefit(&self, data: &[u8]) -> (r: (usize, usize))
        ensures
            data@.len() >= 10 ==> r.0 == rle_saved(data@),
            data@.len() < 10 ==> r.0 == 0,
            r.1 == data@.len(),
    {
        if data.len() < 10 {
            return (0, data.len());
        }
        let mut saved: usize = 0;
        let mut i: usize = 0;
        proof {
            assert(data@.skip(0) =~= data@);
        }
        while i < data.len()
            invariant
                0 <= i <= data.len(),
                saved <= i,
                rle_saved(data@) == saved + rle_saved(data@.skip(i as int)),
            decreases data.len() - i,
        {
            let b = data[i];
            let mut j: usize = i + 1;
            while j < data.len() && data[j] == b
                invariant
                    i < j <= data.len(),
                    b == data@[i as int],
                    forall|k: int| i <= k < j ==> data@[k] == data@[i as int],
                decreases data.len() - j,
            {
                j += 1;
            }
            let k = j - i;
            let ghost rest = data@.skip(i as int);
            proof {
                assert forall|m: int| #![trigger rest[m]] 0 <= m < (j - i) implies rest[m]
                    == rest[0] by {
                    assert(rest[m] == data@[i + m]);
                    assert(rest[0] == data@[i as int]);
                }
                if (j as int - i) < rest.len() {
                    assert(rest[j - i] == data@[j as int]);
                }
                lemma_run_scan_exact(rest, j - i);
                assert(rest.skip(j - i) =~= data@.skip(j as int));
            }
            if k >= 3 {
                saved = saved + (k - 2);
            }
            i = j;
        }
        proof {
            assert(data@.skip(data@.len() as int) =~= Seq::<u8>::empty());
        }
        (saved, data.len())
    }

    /// Whether the reserved Huffman stage would engage for this stream.
    pub fn should_use_huffman(&self, data: &[u8]) -> (r: bool)
        ensures
            r == spec_should_use_huffman(data@),
    {
        let mut seen: Vec<bool> = Vec::new();
        let mut b: usize = 0;
        while b < 256
            invariant
                seen.len() == b <= 256,
                forall|k: int| 0 <= k < b ==> !seen@[k],
            decreases 256 - b,
        {
            seen.push(false);
            b += 1;
        }
        let mut i: usize = 0;
        while i < data.len()
            invariant
                0 <= i <= data.len(),
                seen.len() == 256,
                forall|v: u8| #[trigger] seen@[v as int] <==> exists|j: int|
                    0 <= j < i && data@[j] == v,
            decreases data.len() - i,
        {
            let v = data[i];
            seen.set(v as usize, true);
            proof {
                assert(data@[i as int] == v);
            }
            i += 1;
        }
        proof {
            assert(forall|v: u8| #[trigger] seen@[v as int] <==> stream_has_byte(data@, v));
        }
        let mut distinct: usize = 0;
        let mut n: usize = 0;
        while n < 256
            invariant
                0 <= n <= 256,
                seen.len() == 256,
                forall|v: u8| #[trigger] seen@[v as int] <==> stream_has_byte(data@, v),
                distinct == stream_distinct_below(data@, n as int),
                distinct <= n,
            decreases 256 - n,
        {
            if seen[n] {
                distinct += 1;
            }
            n += 1;
        }
        distinct < data.len() / 2 && distinct > 1 && data.len() > 20
    }

    /// The reserved Huffman stage: a pass-through, kept so that the block
    /// layout matches the format exactly.
    pub fn huffman_encode(&self, data: &[u8]) -> (r: Result<Vec<u8>, CodecError>)
        ensures
            r is Ok,
            r->Ok_0@ == data@,
    {
        Ok(vstd::slice::slice_to_vec(data))
    }

    /// Delta-encode a numeric stream: the first value directly, later values
    /// as wrapping deltas, all as varints.
    pub fn delta_encode_with_varint(&self, data: &[u32]) -> (r: Vec<u8>)
        requires
            data@.len() >= 1,
        ensures
            r@ == spec_delta_varint(data@),
    {
        let first = i32_from_u32_bits(data[0]);
        let mut out = self.encode_varint(first);
        let mut i: usize = 1;
        proof {
            assert(data@.skip(1) =~= data@.drop_first());
            assert(out@ + delta_tail(data@[0] as int, data@.skip(1)) =~= spec_delta_varint(data@));
        }
        while i < data.len()
            invariant
                1 <= i <= data.len(),
                spec_delta_varint(data@) =~= out@ + delta_tail(
                    data@[i - 1] as int,
                    data@.skip(i as int),
                ),
            decreases data.len() - i,
        {
            let d = wrap_diff_exec(data[i], data[i - 1]);
            let ghost before = out@;
            let ghost tail = data@.skip(i as int);
            let mut piece = self.encode_varint(d);
            out.append(&mut piece);
            proof {
                assert(tail[0] == data@[i as int]);
                assert(tail.drop_first() =~= data@.skip(i + 1));
                assert(delta_tail(data@[i - 1] as int, tail) =~= varint_of(d as int) + delta_tail(
                    data@[i as int] as int,
                    data@.skip(i + 1),
                ));
                assert(out@ =~= before + varint_of(d as int));
            }
            i += 1;
        }
        proof {
            assert(data@.skip(data@.len() as int) =~= Seq::<u32>::empty());
        }
        out
    }

    /// Varint-encode a numeric stream directly, by two's-complement reading.
    pub fn direct_varint_encode(&self, data: &[u32]) -> (r: Vec<u8>)
        ensures
            r@ == spec_direct_varints(data@),
    {
        let mut out: Vec<u8> = Vec::new();
        let mut i: usize = 0;
        proof {
            assert(data@.skip(0) =~= data@);
            assert(out@ + spec_direct_varints(data@) =~= spec_direct_varints(data@));
        }
        while i < data.len()
            invariant
                0 <= i <= data.len(),
                spec_direct_varints(data@) =~= out@ + spec_direct_varints(data@.skip(i as int)),
            decreases data.len() - i,
        {
            let v = i32_from_u32_bits(data[i]);
            let ghost before = out@;
            let ghost tail = data@.skip(i as int);
            let mut piece = self.encode_varint(v);
            out.append(&mut piece);
            proof {
                assert(tail[0] == data@[i as int]);
                assert(tail.drop_first() =~= data@.skip(i + 1));
                assert(spec_direct_varints(tail) =~= varint_of(v as int) + spec_direct_varints(
                    data@.skip(i + 1),
                ));
                assert(out@ =~= before + varint_of(v as int));
            }
            i += 1;
        }
        proof {
            assert(data@.skip(data@.len() as int) =~= Seq::<u32>::empty());
        }
        out
    }
}

} // verus!

verus! {

/// The bytes that flate2's zlib encoder produces at its default compression
/// level for the given input.  The output is a deterministic function of
/// the input bytes for the vendored flate2 (miniz_oxide backend), so it can
/// be named without being written out.
pub uninterp spec fn zlib_of(data: Seq<u8>) -> Seq<u8>;

/// Relies on flate2::write::ZlibEncoder at Compression::default(): writing
/// the input and finishing yields the zlib stream for exactly those bytes.
/// The encoder writes into a `Vec`, which has no failure path, so the call
/// always succeeds.
#[verifier::external_body]
fn zlib_deflate(data: &[u8]) -> (r: Result<Vec<u8>, CodecError>)
    ensures
        r is Ok,
        r->Ok_0@ == zlib_of(data@),
{
    let mut encoder = flate2::write::ZlibEncoder::new(Vec::new(), flate2::Compression::default());
    if std::io::Write::write_all(&mut encoder, data).is_err() {
        return Err(CodecError);
    }
    match encoder.finish() {
        Ok(v) => Ok(v),
        Err(_) => Err(CodecError),
    }
}

/// `p` deflated, when the configuration asks for it.
pub open spec fn maybe_zlib(p: Seq<u8>, deflate: bool) -> Seq<u8> {
    if deflate {
        zlib_of(p)
    } else {
        p
    }
}

/// The pre-DEFLATE stage of a categorical stream: run-length encoded when
/// configured and beneficial, otherwise the raw bytes (the reserved Huffman
/// stage is a pass-through).
pub open spec fn spec_categorical_stage(s: Seq<u8>, c: PostTokenizationConfig) -> Seq<u8> {
    if c.use_rle && spec_rle_beneficial(s, c.rle_threshold_hundredths as int) {
        spec_rle_encode(s)
    } else {
        s
    }
}

/// A compressed categorical stream.
pub open spec fn spec_categorical(s: Seq<u8>, c: PostTokenizationConfig) -> Seq<u8> {
    maybe_zlib(spec_categorical_stage(s, c), c.use_deflate)
}

/// A compressed numeric stream: delta varints when configured and more than
/// one value, else direct varints; then DEFLATE when configured.
pub open spec fn spec_numeric(s: Seq<u32>, c: PostTokenizationConfig) -> Seq<u8> {
    maybe_zlib(
        if c.use_delta_encoding && s.len() > 1 {
            spec_delta_varint(s)
        } else {
            spec_direct_varints(s)
        },
        c.use_deflate,
    )
}

/// The compressed joint coordinate stream.
pub open spec fn spec_coords(xs: Seq<u32>, ys: Seq<u32>, ts: Seq<u16>, c: PostTokenizationConfig) -> Seq<u8> {
    maybe_zlib(spec_coord_stream(xs, ys, ts), c.use_deflate)
}

/// A compressed sparse stream: the framed presence bitmap, then the framed
/// value stream, each deflated independently when configured.
pub open spec fn spec_sparse(s: Seq<Option<u16>>, c: PostTokenizationConfig) -> Seq<u8> {
    len_framed(maybe_zlib(spec_bitmap(s), c.use_deflate)) + len_framed(
        maybe_zlib(spec_sparse_values(s), c.use_deflate),
    )
}

/// A `u8` optional column widened to `u16`.
pub open spec fn lift_opt_u8(s: Seq<Option<u8>>) -> Seq<Option<u16>> {
    s.map_values(
        |o: Option<u8>|
            match o {
                Option::Some(v) => Option::Some(v as u16),
                Option::None => Option::None,
            },
    )
}

/// The length-framed entries of one dictionary table, in order.
pub open spec fn dict_items(t: Seq<Seq<u8>>) -> Seq<u8>
    decreases t.len(),
{
    if t.len() == 0 {
        Seq::empty()
    } else {
        len_framed(t[0]) + dict_items(t.drop_first())
    }
}

/// One dictionary section: `varint(count)` then the framed entries.
pub open spec fn spec_dict_section(t: Seq<Seq<u8>>) -> Seq<u8> {
    varint_of(t.len() as int) + dict_items(t)
}

/// The serialized dictionary: instruments, flowcells, UMIs, indices.
pub open spec fn spec_dict_serial(
    instruments: Seq<Seq<u8>>,
    flowcells: Seq<Seq<u8>>,
    umis: Seq<Seq<u8>>,
    indices: Seq<Seq<u8>>,
) -> Seq<u8> {
    spec_dict_section(instruments) + spec_dict_section(flowcells) + spec_dict_section(umis)
        + spec_dict_section(indices)
}

/// The assembled block: the framed dictionary blob, then the nine framed
/// streams in fixed order.
pub open spec fn spec_assemble(
    dict: Seq<u8>,
    instr: Seq<u8>,
    runs: Seq<u8>,
    fcs: Seq<u8>,
    lanes: Seq<u8>,
    read_nums: Seq<u8>,
    flags: Seq<u8>,
    coords: Seq<u8>,
    umis: Seq<u8>,
    indices: Seq<u8>,
) -> Seq<u8> {
    len_framed(dict) + len_framed(instr) + len_framed(runs) + len_framed(fcs) + len_framed(lanes)
        + len_framed(read_nums) + len_framed(flags) + len_framed(coords) + len_framed(umis)
        + len_framed(indices)
}

/// The whole self-contained block for a tokenized batch.
#[verifier::opaque]
pub open spec fn spec_block(
    records: Seq<crate::dictionary::TokenizedReadName>,
    instruments: Seq<Seq<u8>>,
    flowcells: Seq<Seq<u8>>,
    umis: Seq<Seq<u8>>,
    indices: Seq<Seq<u8>>,
    c: PostTokenizationConfig,
) -> Seq<u8> {
    spec_assemble(
        maybe_zlib(spec_dict_serial(instruments, flowcells, umis, indices), c.use_deflate),
        spec_categorical(records.map_values(|t: crate::dictionary::TokenizedReadName| t.instrument_id), c),
        spec_numeric(records.map_values(|t: crate::dictionary::TokenizedReadName| t.run_id), c),
        spec_categorical(records.map_values(|t: crate::dictionary::TokenizedReadName| t.flowcell_id), c),
        spec_categorical(records.map_values(|t: crate::dictionary::TokenizedReadName| t.lane), c),
        spec_categorical(records.map_values(|t: crate::dictionary::TokenizedReadName| t.read_num), c),
        spec_categorical(records.map_values(|t: crate::dictionary::TokenizedReadName| t.flags), c),
        spec_coords(
            records.map_values(|t: crate::dictionary::TokenizedReadName| t.x_coord),
            records.map_values(|t: crate::dictionary::TokenizedReadName| t.y_coord),
            records.map_values(|t: crate::dictionary::TokenizedReadName| t.tile),
            c,
        ),
        spec_sparse(records.map_values(|t: crate::dictionary::TokenizedReadName| t.umi_id), c),
        spec_sparse(
            lift_opt_u8(records.map_values(|t: crate::dictionary::TokenizedReadName| t.index_id)),
            c,
        ),
    )
}

/// Every entry of the table fits an `i32` length frame.
pub open spec fn table_entries_framable(t: Seq<Seq<u8>>) -> bool {
    forall|i: int| 0 <= i < t.len() ==> (#[trigger] t[i]).len() <= i32::MAX
}

/// Both halves of a sparse stream fit their `i32` length frames.
pub open spec fn spec_sparse_framable(s: Seq<Option<u16>>, c: PostTokenizationConfig) -> bool {
    &&& maybe_zlib(spec_bitmap(s), c.use_deflate).len() <= i32::MAX
    &&& maybe_zlib(spec_sparse_values(s), c.use_deflate).len() <= i32::MAX
}

/// Every piece of the assembled block fits its `i32` length frame: the
/// dictionary entries and blob, the nine compressed streams, and the two
/// halves of each sparse stream.  Exactly under these limits does the
/// post-tokenization codec produce its block.
#[verifier::opaque]
pub open spec fn spec_block_framable(
    records: Seq<crate::dictionary::TokenizedReadName>,
    instruments: Seq<Seq<u8>>,
    flowcells: Seq<Seq<u8>>,
    umis: Seq<Seq<u8>>,
    indices: Seq<Seq<u8>>,
    c: PostTokenizationConfig,
) -> bool {
    &&& table_entries_framable(instruments)
    &&& table_entries_framable(flowcells)
    &&& table_entries_framable(umis)
    &&& table_entries_framable(indices)
    &&& maybe_zlib(spec_dict_serial(instruments, flowcells, umis, indices), c.use_deflate).len()
        <= i32::MAX
    &&& spec_categorical(records.map_values(|t: crate::dictionary::TokenizedReadName| t.instrument_id), c).len() <= i32::MAX
    &&& spec_numeric(records.map_values(|t: crate::dictionary::TokenizedReadName| t.run_id), c).len() <= i32::MAX
    &&& spec_categorical(records.map_values(|t: crate::dictionary::TokenizedReadName| t.flowcell_id), c).len() <= i32::MAX
    &&& spec_categorical(records.map_values(|t: crate::dictionary::TokenizedReadName| t.lane), c).len() <= i32::MAX
    &&& spec_categorical(records.map_values(|t: crate::dictionary::TokenizedReadName| t.read_num), c).len() <= i32::MAX
    &&& spec_categorical(records.map_values(|t: crate::dictionary::TokenizedReadName| t.flags), c).len() <= i32::MAX
    &&& spec_coords(
        records.map_values(|t: crate::dictionary::TokenizedReadName| t.x_coord),
        records.map_values(|t: crate::dictionary::TokenizedReadName| t.y_coord),
        records.map_values(|t: crate::dictionary::TokenizedReadName| t.tile),
        c,
    ).len() <= i32::MAX
    &&& spec_sparse_framable(records.map_values(|t: crate::dictionary::TokenizedReadName| t.umi_id), c)
    &&& spec_sparse(records.map_values(|t: crate::dictionary::TokenizedReadName| t.umi_id), c).len() <= i32::MAX
    &&& spec_sparse_framable(
        lift_opt_u8(records.map_values(|t: crate::dictionary::TokenizedReadName| t.index_id)),
        c,
    )
    &&& spec_sparse(
        lift_opt_u8(records.map_values(|t: crate::dictionary::TokenizedReadName| t.index_id)),
        c,
    ).len() <= i32::MAX
}

/// The nine compressed streams of one block.
struct CompressedStreams {
    instrument_ids: Vec<u8>,
    run_ids: Vec<u8>,
    flowcell_ids: Vec<u8>,
    lanes: Vec<u8>,
    read_nums: Vec<u8>,
    flags: Vec<u8>,
    coordinates: Vec<u8>,
    umi_ids: Vec<u8>,
    index_ids: Vec<u8>,
}

} // verus!

verus! {

pub proof fn lemma_pow2_8()
    ensures
        pow2(0) == 1,
        pow2(1) == 2,
        pow2(2) == 4,
        pow2(3) == 8,
        pow2(4) == 16,
        pow2(5) == 32,
        pow2(6) == 64,
        pow2(7) == 128,
        pow2(8) == 256,
{
    assert(pow2(0) == 1);
    assert(pow2(1) == 2);
    assert(pow2(2) == 4);
    assert(pow2(3) == 8);
    assert(pow2(4) == 16);
    assert(pow2(5) == 32);
    assert(pow2(6) == 64);
    assert(pow2(7) == 128);
    assert(pow2(8) == 256);
}

/// The partial presence byte stays below the next power of two.
pub proof fn lemma_bitmap_partial_bound(s: Seq<Option<u16>>, base: int, j: int)
    requires
        0 <= j,
    ensures
        0 <= bitmap_byte_partial(s, base, j) < pow2(j),
    decreases j,
{
    if j > 0 {
        lemma_bitmap_partial_bound(s, base, j - 1);
    }
}

impl PostTokenizationCompressor {
    /// Append `varint(len) | payload` to `out`.
    fn append_framed(&self, out: &mut Vec<u8>, payload: &[u8])
        requires
            payload@.len() <= i32::MAX,
        ensures
            final(out)@ == old(out)@ + len_framed(payload@),
    {
        let mut h = self.encode_varint(payload.len() as i32);
        let ghost before = out@;
        out.append(&mut h);
        out.extend_from_slice(payload);
        proof {
            assert(out@ =~= before + varint_of(payload@.len() as int) + payload@);
            assert(before + len_framed(payload@) =~= before + varint_of(payload@.len() as int)
                + payload@);
        }
    }

    /// Compress one categorical `u8` stream: optional run-length encoding,
    /// the reserved (pass-through) Huffman stage, then optional DEFLATE.
    pub fn compress_categorical_stream(&self, data: &[u8]) -> (r: Result<Vec<u8>, CodecError>)
        ensures
            r is Ok,
            r->Ok_0@ == spec_categorical(data@, self.spec_config()),
    {
        let working: Vec<u8>;
        if self.config.use_rle {
            let (saved, len) = self.calculate_rle_benefit(data);
            proof {
                vstd::arithmetic::mul::lemma_mul_upper_bound(
                    self.config.rle_threshold_hundredths as int,
                    u32::MAX as int,
                    len as int,
                    u64::MAX as int,
                );
            }
            let beneficial = 100u128 * (saved as u128) > (self.config.rle_threshold_hundredths
                as u128) * (len as u128);
            proof {
                if data@.len() < 10 {
                    assert(!beneficial);
                    assert(!spec_rle_beneficial(data@, self.config.rle_threshold_hundredths as int));
                }
            }
            if beneficial {
                working = self.run_length_encode(data);
            } else {
                working = vstd::slice::slice_to_vec(data);
            }
        } else {
            working = vstd::slice::slice_to_vec(data);
        }
        proof {
            assert(working@ == spec_categorical_stage(data@, self.spec_config()));
        }
        let staged: Vec<u8>;
        if self.config.use_huffman && self.should_use_huffman(working.as_slice()) {
            match self.huffman_encode(working.as_slice()) {
                Ok(w) => {
                    staged = w;
                },
                Err(e) => {
                    return Err(e);
                },
            }
        } else {
            staged = working;
        }
        if self.config.use_deflate {
            zlib_deflate(staged.as_slice())
        } else {
            Ok(staged)
        }
    }

    /// Compress one numeric `u32` stream: delta or direct varints, then
    /// optional DEFLATE.
    pub fn compress_numeric_stream(&self, data: &[u32]) -> (r: Result<Vec<u8>, CodecError>)
        ensures
            r is Ok,
            r->Ok_0@ == spec_numeric(data@, self.spec_config()),
    {
        let pre: Vec<u8>;
        if self.config.use_delta_encoding && data.len() > 1 {
            pre = self.delta_encode_with_varint(data);
        } else {
            pre = self.direct_varint_encode(data);
        }
        if self.config.use_deflate {
            zlib_deflate(pre.as_slice())
        } else {
            Ok(pre)
        }
    }

    /// The joint (x, y, tile) deltas of each row against the previous row,
    /// starting from a zero triple.
    pub fn encode_2d_deltas(&self, x_coords: &[u32], y_coords: &[u32], tiles: &[u16]) -> (r: Vec<
        CoordinateDelta,
    >)
        requires
            x_coords@.len() == y_coords@.len() == tiles@.len(),
        ensures
            r@.len() == x_coords@.len(),
            forall|i: int|
                0 <= i < r@.len() ==> (
                #[trigger] r@[i].dx as int,
                r@[i].dy as int,
                r@[i].dtile as int,
            ) == coord_delta(x_coords@, y_coords@, tiles@, i),
    {
        let mut deltas: Vec<CoordinateDelta> = Vec::new();
        let mut last_x: u32 = 0;
        let mut last_y: u32 = 0;
        let mut last_tile: u16 = 0;
        let mut i: usize = 0;
        while i < x_coords.len()
            invariant
                0 <= i <= x_coords.len(),
                x_coords@.len() == y_coords@.len() == tiles@.len(),
                deltas@.len() == i,
                last_x == if i == 0 { 0u32 } else { x_coords@[i - 1] },
                last_y == if i == 0 { 0u32 } else { y_coords@[i - 1] },
                last_tile == if i == 0 { 0u16 } else { tiles@[i - 1] },
                forall|k: int|
                    0 <= k < i ==> (
                    #[trigger] deltas@[k].dx as int,
                    deltas@[k].dy as int,
                    deltas@[k].dtile as int,
                ) == coord_delta(x_coords@, y_coords@, tiles@, k),
            decreases x_coords.len() - i,
        {
            let dx = wrap_diff_exec(x_coords[i], last_x);
            let dy = wrap_diff_exec(y_coords[i], last_y);
            let dtile = (tiles[i] as i32) - (last_tile as i32);
            proof {
                if i == 0 {
                    assert(wrap_diff_i32(x_coords@[0] as int, 0) == dx as int);
                }
            }
            deltas.push(CoordinateDelta { dx, dy, dtile });
            last_x = x_coords[i];
            last_y = y_coords[i];
            last_tile = tiles[i];
            i += 1;
        }
        deltas
    }

    /// Compress the joint coordinate stream: interleaved delta varints,
    /// then optional DEFLATE.
    pub fn compress_coordinate_streams(
        &self,
        x_coords: &[u32],
        y_coords: &[u32],
        tiles: &[u16],
    ) -> (r: Result<Vec<u8>, CodecError>)
        requires
            x_coords@.len() == y_coords@.len() == tiles@.len(),
        ensures
            r is Ok,
            r->Ok_0@ == spec_coords(x_coords@, y_coords@, tiles@, self.spec_config()),
    {
        let deltas = self.encode_2d_deltas(x_coords, y_coords, tiles);
        let mut out: Vec<u8> = Vec::new();
        let mut k: usize = 0;
        proof {
            assert(out@ + coord_tail(x_coords@, y_coords@, tiles@, 0) =~= spec_coord_stream(
                x_coords@,
                y_coords@,
                tiles@,
            ));
        }
        while k < deltas.len()
            invariant
                0 <= k <= deltas.len(),
                x_coords@.len() == y_coords@.len() == tiles@.len(),
                deltas@.len() == x_coords@.len(),
                forall|m: int|
                    0 <= m < deltas@.len() ==> (
                    #[trigger] deltas@[m].dx as int,
                    deltas@[m].dy as int,
                    deltas@[m].dtile as int,
                ) == coord_delta(x_coords@, y_coords@, tiles@, m),
                spec_coord_stream(x_coords@, y_coords@, tiles@) =~= out@ + coord_tail(
                    x_coords@,
                    y_coords@,
                    tiles@,
                    k as int,
                ),
            decreases deltas.len() - k,
        {
            let ghost before = out@;
            let d = &deltas[k];
            let mut p1 = self.encode_varint(d.dx);
            let mut p2 = self.encode_varint(d.dy);
            let mut p3 = self.encode_varint(d.dtile);
            out.append(&mut p1);
            out.append(&mut p2);
            out.append(&mut p3);
            proof {
                let dd = coord_delta(x_coords@, y_coords@, tiles@, k as int);
                assert(coord_tail(x_coords@, y_coords@, tiles@, k as int) =~= varint_of(dd.0)
                    + varint_of(dd.1) + varint_of(dd.2) + coord_tail(
                    x_coords@,
                    y_coords@,
                    tiles@,
                    k as int + 1,
                ));
                assert(out@ =~= before + varint_of(dd.0) + varint_of(dd.1) + varint_of(dd.2));
            }
            k += 1;
        }
        proof {
            assert(coord_tail(x_coords@, y_coords@, tiles@, deltas@.len() as int)
                =~= Seq::<u8>::empty());
            assert(out@ =~= spec_coord_stream(x_coords@, y_coords@, tiles@));
        }
        if self.config.use_deflate {
            zlib_deflate(out.as_slice())
        } else {
            Ok(out)
        }
    }
}

} // verus!

verus! {

impl PostTokenizationCompressor {
    /// Compress one sparse optional stream: presence bitmap (LSB-first) and
    /// dense varint value stream, each deflated when configured, framed as
    /// `varint(|bitmap|) | bitmap | varint(|values|) | values`.
    pub fn compress_sparse_stream(&self, data: &[Option<u16>]) -> (r: Result<Vec<u8>, CodecError>)
        requires
            data@.len() <= usize::MAX - 7,
        ensures
            r is Ok <==> spec_sparse_framable(data@, self.spec_config()),
            r is Ok ==> r->Ok_0@ == spec_sparse(data@, self.spec_config()),
    {
        let n = data.len();
        let groups = n / 8 + if n % 8 == 0 { 0usize } else { 1usize };
        proof {
            assert(groups as int == (n as int + 7) / 8);
            assert(spec_bitmap(data@).len() == groups as int);
        }
        let mut bitmap: Vec<u8> = Vec::new();
        let mut g: usize = 0;
        while g < groups
            invariant
                0 <= g <= groups,
                n == data@.len(),
                n <= usize::MAX - 7,
                groups as int == (n as int + 7) / 8,
                bitmap@ =~= spec_bitmap(data@).take(g as int),
            decreases groups - g,
        {
            let mut cur: u32 = 0;
            let mut mask: u32 = 1;
            let mut k: usize = 0;
            proof {
                lemma_pow2_8();
            }
            while k < 8
                invariant
                    0 <= k <= 8,
                    n == data@.len(),
                    n <= usize::MAX - 7,
                    0 <= g < groups,
                    groups as int == (n as int + 7) / 8,
                    mask as int == pow2(k as int),
                    mask <= 256,
                    cur as int == bitmap_byte_partial(data@, 8 * (g as int), k as int),
                    cur < mask,
                decreases 8 - k,
            {
                proof {
                    lemma_pow2_8();
                    lemma_bitmap_partial_bound(data@, 8 * (g as int), k as int);
                    assert(8 * (g as int) + 7 <= n as int + 7);
                }
                let idx = g * 8 + k;
                if idx < n && data[idx].is_some() {
                    cur = cur + mask;
                }
                proof {
                    assert(presence_bit(data@, 8 * (g as int) + k as int) == (if idx < data@.len()
                        && data@[idx as int] is Some {
                        1int
                    } else {
                        0int
                    }));
                }
                proof {
                    assert(k <= 7);
                    assert(mask <= 128);
                }
                mask = mask * 2;
                k += 1;
            }
            proof {
                lemma_pow2_8();
                lemma_bitmap_partial_bound(data@, 8 * (g as int), 8);
            }
            let ghost before = bitmap@;
            bitmap.push(cur as u8);
            proof {
                assert(spec_bitmap(data@)[g as int] == bitmap_byte_partial(
                    data@,
                    8 * (g as int),
                    8,
                ) as u8);
                assert(bitmap@ =~= spec_bitmap(data@).take(g as int + 1));
            }
            g += 1;
        }
        proof {
            assert(spec_bitmap(data@).take(groups as int) =~= spec_bitmap(data@));
        }
        let mut values: Vec<u8> = Vec::new();
        let mut i: usize = 0;
        proof {
            assert(data@.skip(0) =~= data@);
            assert(values@ + spec_sparse_values(data@) =~= spec_sparse_values(data@));
        }
        while i < n
            invariant
                0 <= i <= n,
                n == data@.len(),
                spec_sparse_values(data@) =~= values@ + spec_sparse_values(data@.skip(i as int)),
            decreases n - i,
        {
            let ghost tail = data@.skip(i as int);
            proof {
                assert(tail[0] == data@[i as int]);
                assert(tail.drop_first() =~= data@.skip(i + 1));
            }
            match data[i] {
                Some(v) => {
                    let ghost before = values@;
                    let mut piece = self.encode_varint(v as i32);
                    values.append(&mut piece);
                    proof {
                        assert(values@ =~= before + varint_of(v as int));
                    }
                },
                None => {},
            }
            i += 1;
        }
        proof {
            assert(data@.skip(n as int) =~= Seq::<Option<u16>>::empty());
        }
        let compressed_bitmap: Vec<u8>;
        let compressed_values: Vec<u8>;
        if self.config.use_deflate {
            match zlib_deflate(bitmap.as_slice()) {
                Ok(v) => {
                    compressed_bitmap = v;
                },
                Err(e) => {
                    return Err(e);
                },
            }
            match zlib_deflate(values.as_slice()) {
                Ok(v) => {
                    compressed_values = v;
                },
                Err(e) => {
                    return Err(e);
                },
            }
        } else {
            compressed_bitmap = bitmap;
            compressed_values = values;
        }
        if compressed_bitmap.len() > i32::MAX as usize || compressed_values.len() > i32::MAX
            as usize {
            return Err(CodecError);
        }
        let mut out: Vec<u8> = Vec::new();
        self.append_framed(&mut out, compressed_bitmap.as_slice());
        self.append_framed(&mut out, compressed_values.as_slice());
        proof {
            assert(out@ =~= spec_sparse(data@, self.spec_config()));
        }
        Ok(out)
    }

    /// Compress a sparse `u8` stream by widening it to `u16`.
    pub fn compress_sparse_u8_stream(&self, data: &[Option<u8>]) -> (r: Result<
        Vec<u8>,
        CodecError,
    >)
        requires
            data@.len() <= usize::MAX - 7,
        ensures
            r is Ok <==> spec_sparse_framable(lift_opt_u8(data@), self.spec_config()),
            r is Ok ==> r->Ok_0@ == spec_sparse(lift_opt_u8(data@), self.spec_config()),
    {
        let mut wide: Vec<Option<u16>> = Vec::new();
        let mut i: usize = 0;
        while i < data.len()
            invariant
                0 <= i <= data.len(),
                wide@.len() == i,
                forall|k: int| 0 <= k < i ==> wide@[k] == lift_opt_u8(data@)[k],
            decreases data.len() - i,
        {
            match data[i] {
                Some(v) => {
                    wide.push(Some(v as u16));
                },
                None => {
                    wide.push(None);
                },
            }
            i += 1;
        }
        proof {
            assert(wide@ =~= lift_opt_u8(data@));
        }
        self.compress_sparse_stream(wide.as_slice())
    }

    /// Append one dictionary section: `varint(count)` then each entry as
    /// `varint(len) | bytes`.  Fails on an entry longer than `i32::MAX`.
    fn append_section(&self, out: &mut Vec<u8>, table: &Vec<Vec<u8>>) -> (ok: bool)
        requires
            table@.len() <= 65535,
        ensures
            ok <==> table_entries_framable(table.deep_view()),
            ok ==> final(out)@ == old(out)@ + spec_dict_section(table.deep_view()),
    {
        let ghost t = table.deep_view();
        let ghost start = out@;
        let mut h = self.encode_varint(table.len() as i32);
        out.append(&mut h);
        let mut i: usize = 0;
        proof {
            assert(t.skip(0) =~= t);
            assert(out@ + dict_items(t) =~= start + spec_dict_section(t));
        }
        while i < table.len()
            invariant
                0 <= i <= table.len(),
                t == table.deep_view(),
                t.len() == table@.len(),
                forall|k: int| 0 <= k < i ==> (#[trigger] t[k]).len() <= i32::MAX,
                out@ + dict_items(t.skip(i as int)) =~= start + spec_dict_section(t),
            decreases table.len() - i,
        {
            proof {
                assert(t[i as int] == table@[i as int].deep_view());
                assert(table@[i as int].deep_view() =~= table@[i as int]@);
            }
            if table[i].len() > i32::MAX as usize {
                proof {
                    assert(t[i as int].len() > i32::MAX);
                }
                return false;
            }
            let ghost before = out@;
            self.append_framed(out, table[i].as_slice());
            proof {
                let tail = t.skip(i as int);
                assert(tail[0] == t[i as int]);
                assert(tail.drop_first() =~= t.skip(i + 1));
                assert(dict_items(tail) =~= len_framed(t[i as int]) + dict_items(t.skip(i + 1)));
                assert(out@ =~= before + len_framed(t[i as int]));
            }
            i += 1;
        }
        proof {
            assert(t.skip(t.len() as int) =~= Seq::<Seq<u8>>::empty());
        }
        true
    }

    /// Serialize and (when configured) deflate the whole dictionary:
    /// instruments, flowcells, UMIs, indices, each as `varint(count)`
    /// followed by length-framed entries.
    pub fn compress_dictionary(&self, dictionary: &crate::dictionary::ReadNameDictionary) -> (r:
        Result<Vec<u8>, CodecError>)
        requires
            dictionary.wf(),
        ensures
            r is Ok <==> ({
                &&& table_entries_framable(dictionary.instruments.deep_view())
                &&& table_entries_framable(dictionary.flowcells.deep_view())
                &&& table_entries_framable(dictionary.umis.deep_view())
                &&& table_entries_framable(dictionary.indices.deep_view())
            }),
            r is Ok ==> r->Ok_0@ == maybe_zlib(
                spec_dict_serial(
                    dictionary.instruments.deep_view(),
                    dictionary.flowcells.deep_view(),
                    dictionary.umis.deep_view(),
                    dictionary.indices.deep_view(),
                ),
                self.spec_config().use_deflate,
            ),
    {
        let mut serialized: Vec<u8> = Vec::new();
        if !self.append_section(&mut serialized, &dictionary.instruments) {
            return Err(CodecError);
        }
        if !self.append_section(&mut serialized, &dictionary.flowcells) {
            return Err(CodecError);
        }
        if !self.append_section(&mut serialized, &dictionary.umis) {
            return Err(CodecError);
        }
        if !self.append_section(&mut serialized, &dictionary.indices) {
            return Err(CodecError);
        }
        proof {
            assert(serialized@ =~= spec_dict_serial(
                dictionary.instruments.deep_view(),
                dictionary.flowcells.deep_view(),
                dictionary.umis.deep_view(),
                dictionary.indices.deep_view(),
            ));
        }
        if self.config.use_deflate {
            zlib_deflate(serialized.as_slice())
        } else {
            Ok(serialized)
        }
    }
}

} // verus!

verus! {

impl PostTokenizationCompressor {
    /// Transpose a tokenized batch into its eleven parallel columns.
    pub fn separate_into_streams(&self, tokenized: &[crate::dictionary::TokenizedReadName]) -> (s:
        TokenizedStreams)
        ensures
            s.instrument_ids@ == tokenized@.map_values(
                |t: crate::dictionary::TokenizedReadName| t.instrument_id,
            ),
            s.run_ids@ == tokenized@.map_values(
                |t: crate::dictionary::TokenizedReadName| t.run_id,
            ),
            s.flowcell_ids@ == tokenized@.map_values(
                |t: crate::dictionary::TokenizedReadName| t.flowcell_id,
            ),
            s.lanes@ == tokenized@.map_values(|t: crate::dictionary::TokenizedReadName| t.lane),
            s.tiles@ == tokenized@.map_values(|t: crate::dictionary::TokenizedReadName| t.tile),
            s.x_coords@ == tokenized@.map_values(
                |t: crate::dictionary::TokenizedReadName| t.x_coord,
            ),
            s.y_coords@ == tokenized@.map_values(
                |t: crate::dictionary::TokenizedReadName| t.y_coord,
            ),
            s.umi_ids@ == tokenized@.map_values(
                |t: crate::dictionary::TokenizedReadName| t.umi_id,
            ),
            s.read_nums@ == tokenized@.map_values(
                |t: crate::dictionary::TokenizedReadName| t.read_num,
            ),
            s.flags@ == tokenized@.map_values(|t: crate::dictionary::TokenizedReadName| t.flags),
            s.index_ids@ == tokenized@.map_values(
                |t: crate::dictionary::TokenizedReadName| t.index_id,
            ),
    {
        let mut streams = TokenizedStreams::new(tokenized.len());
        let mut i: usize = 0;
        while i < tokenized.len()
            invariant
                0 <= i <= tokenized.len(),
                streams.instrument_ids@ =~= tokenized@.take(i as int).map_values(
                    |t: crate::dictionary::TokenizedReadName| t.instrument_id,
                ),
                streams.run_ids@ =~= tokenized@.take(i as int).map_values(
                    |t: crate::dictionary::TokenizedReadName| t.run_id,
                ),
                streams.flowcell_ids@ =~= tokenized@.take(i as int).map_values(
                    |t: crate::dictionary::TokenizedReadName| t.flowcell_id,
                ),
                streams.lanes@ =~= tokenized@.take(i as int).map_values(
                    |t: crate::dictionary::TokenizedReadName| t.lane,
                ),
                streams.tiles@ =~= tokenized@.take(i as int).map_values(
                    |t: crate::dictionary::TokenizedReadName| t.tile,
                ),
                streams.x_coords@ =~= tokenized@.take(i as int).map_values(
                    |t: crate::dictionary::TokenizedReadName| t.x_coord,
                ),
                streams.y_coords@ =~= tokenized@.take(i as int).map_values(
                    |t: crate::dictionary::TokenizedReadName| t.y_coord,
                ),
                streams.umi_ids@ =~= tokenized@.take(i as int).map_values(
                    |t: crate::dictionary::TokenizedReadName| t.umi_id,
                ),
                streams.read_nums@ =~= tokenized@.take(i as int).map_values(
                    |t: crate::dictionary::TokenizedReadName| t.read_num,
                ),
                streams.flags@ =~= tokenized@.take(i as int).map_values(
                    |t: crate::dictionary::TokenizedReadName| t.flags,
                ),
                streams.index_ids@ =~= tokenized@.take(i as int).map_values(
                    |t: crate::dictionary::TokenizedReadName| t.index_id,
                ),
            decreases tokenized.len() - i,
        {
            let token = vstd::slice::slice_index_get(tokenized, i);
            streams.instrument_ids.push(token.instrument_id);
            streams.run_ids.push(token.run_id);
            streams.flowcell_ids.push(token.flowcell_id);
            streams.lanes.push(token.lane);
            streams.tiles.push(token.tile);
            streams.x_coords.push(token.x_coord);
            streams.y_coords.push(token.y_coord);
            streams.umi_ids.push(token.umi_id);
            streams.read_nums.push(token.read_num);
            streams.flags.push(token.flags);
            streams.index_ids.push(token.index_id);
            i += 1;
        }
        proof {
            assert(tokenized@.take(tokenized@.len() as int) =~= tokenized@);
        }
        streams
    }

    /// Compress every stream of the column store.
    fn compress_all_streams(&self, streams: &TokenizedStreams) -> (r: Result<
        CompressedStreams,
        CodecError,
    >)
        requires
            streams.x_coords@.len() == streams.y_coords@.len() == streams.tiles@.len(),
            streams.umi_ids@.len() <= usize::MAX - 7,
            streams.index_ids@.len() <= usize::MAX - 7,
        ensures
            r is Ok <==> (spec_sparse_framable(streams.umi_ids@, self.spec_config())
                && spec_sparse_framable(lift_opt_u8(streams.index_ids@), self.spec_config())),
            r is Ok ==> ({
                let c = self.spec_config();
                &&& r->Ok_0.instrument_ids@ == spec_categorical(streams.instrument_ids@, c)
                &&& r->Ok_0.run_ids@ == spec_numeric(streams.run_ids@, c)
                &&& r->Ok_0.flowcell_ids@ == spec_categorical(streams.flowcell_ids@, c)
                &&& r->Ok_0.lanes@ == spec_categorical(streams.lanes@, c)
                &&& r->Ok_0.read_nums@ == spec_categorical(streams.read_nums@, c)
                &&& r->Ok_0.flags@ == spec_categorical(streams.flags@, c)
                &&& r->Ok_0.coordinates@ == spec_coords(
                    streams.x_coords@,
                    streams.y_coords@,
                    streams.tiles@,
                    c,
                )
                &&& r->Ok_0.umi_ids@ == spec_sparse(streams.umi_ids@, c)
                &&& r->Ok_0.index_ids@ == spec_sparse(lift_opt_u8(streams.index_ids@), c)
            }),
    {
        let instrument_ids = match self.compress_categorical_stream(
            streams.instrument_ids.as_slice(),
        ) {
            Ok(v) => v,
            Err(e) => {
                return Err(e);
            },
        };
        let run_ids = match self.compress_numeric_stream(streams.run_ids.as_slice()) {
            Ok(v) => v,
            Err(e) => {
                return Err(e);
            },
        };
        let flowcell_ids = match self.compress_categorical_stream(streams.flowcell_ids.as_slice()) {
            Ok(v) => v,
            Err(e) => {
                return Err(e);
            },
        };
        let lanes = match self.compress_categorical_stream(streams.lanes.as_slice()) {
            Ok(v) => v,
            Err(e) => {
                return Err(e);
            },
        };
        let read_nums = match self.compress_categorical_stream(streams.read_nums.as_slice()) {
            Ok(v) => v,
            Err(e) => {
                return Err(e);
            },
        };
        let flags = match self.compress_categorical_stream(streams.flags.as_slice()) {
            Ok(v) => v,
            Err(e) => {
                return Err(e);
            },
        };
        let coordinates = match self.compress_coordinate_streams(
            streams.x_coords.as_slice(),
            streams.y_coords.as_slice(),
            streams.tiles.as_slice(),
        ) {
            Ok(v) => v,
            Err(e) => {
                return Err(e);
            },
        };
        let umi_ids = match self.compress_sparse_stream(streams.umi_ids.as_slice()) {
            Ok(v) => v,
            Err(e) => {
                return Err(e);
            },
        };
        let index_ids = match self.compress_sparse_u8_stream(streams.index_ids.as_slice()) {
            Ok(v) => v,
            Err(e) => {
                return Err(e);
            },
        };
        Ok(
            CompressedStreams {
                instrument_ids,
                run_ids,
                flowcell_ids,
                lanes,
                read_nums,
                flags,
                coordinates,
                umi_ids,
                index_ids,
            },
        )
    }

    /// Concatenate the framed dictionary blob and the nine framed streams
    /// in the fixed block order.
    fn assemble_block(&self, compressed_dict: Vec<u8>, compressed_streams: CompressedStreams) -> (r:
        Vec<u8>)
        requires
            compressed_dict@.len() <= i32::MAX,
            compressed_streams.instrument_ids@.len() <= i32::MAX,
            compressed_streams.run_ids@.len() <= i32::MAX,
            compressed_streams.flowcell_ids@.len() <= i32::MAX,
            compressed_streams.lanes@.len() <= i32::MAX,
            compressed_streams.read_nums@.len() <= i32::MAX,
            compressed_streams.flags@.len() <= i32::MAX,
            compressed_streams.coordinates@.len() <= i32::MAX,
            compressed_streams.umi_ids@.len() <= i32::MAX,
            compressed_streams.index_ids@.len() <= i32::MAX,
        ensures
            r@ == spec_assemble(
                compressed_dict@,
                compressed_streams.instrument_ids@,
                compressed_streams.run_ids@,
                compressed_streams.flowcell_ids@,
                compressed_streams.lanes@,
                compressed_streams.read_nums@,
                compressed_streams.flags@,
                compressed_streams.coordinates@,
                compressed_streams.umi_ids@,
                compressed_streams.index_ids@,
            ),
    {
        let mut block: Vec<u8> = Vec::new();
        self.append_framed(&mut block, compressed_dict.as_slice());
        self.append_framed(&mut block, compressed_streams.instrument_ids.as_slice());
        self.append_framed(&mut block, compressed_streams.run_ids.as_slice());
        self.append_framed(&mut block, compressed_streams.flowcell_ids.as_slice());
        self.append_framed(&mut block, compressed_streams.lanes.as_slice());
        self.append_framed(&mut block, compressed_streams.read_nums.as_slice());
        self.append_framed(&mut block, compressed_streams.flags.as_slice());
        self.append_framed(&mut block, compressed_streams.coordinates.as_slice());
        self.append_framed(&mut block, compressed_streams.umi_ids.as_slice());
        self.append_framed(&mut block, compressed_streams.index_ids.as_slice());
        proof {
            assert(block@ =~= spec_assemble(
                compressed_dict@,
                compressed_streams.instrument_ids@,
                compressed_streams.run_ids@,
                compressed_streams.flowcell_ids@,
                compressed_streams.lanes@,
                compressed_streams.read_nums@,
                compressed_streams.flags@,
                compressed_streams.coordinates@,
                compressed_streams.umi_ids@,
                compressed_streams.index_ids@,
            ));
        }
        block
    }

    /// Produce the self-contained compressed block for a tokenized batch:
    /// the deflated dictionary and the nine per-stream payloads, each
    /// length-framed, in fixed order.
    pub fn compress_tokenized_data(
        &self,
        tokenized: &[crate::dictionary::TokenizedReadName],
        dictionary: &crate::dictionary::ReadNameDictionary,
    ) -> (r: Result<Vec<u8>, CodecError>)
        requires
            dictionary.wf(),
            tokenized@.len() <= usize::MAX - 7,
        ensures
            r is Ok <==> spec_block_framable(
                tokenized@,
                dictionary.instruments.deep_view(),
                dictionary.flowcells.deep_view(),
                dictionary.umis.deep_view(),
                dictionary.indices.deep_view(),
                self.spec_config(),
            ),
            r is Ok ==> r->Ok_0@ == spec_block(
                tokenized@,
                dictionary.instruments.deep_view(),
                dictionary.flowcells.deep_view(),
                dictionary.umis.deep_view(),
                dictionary.indices.deep_view(),
                self.spec_config(),
            ),
    {
        proof {
            reveal(spec_block_framable);
            reveal(spec_block);
        }
        let streams = self.separate_into_streams(tokenized);
        let compressed_dict = match self.compress_dictionary(dictionary) {
            Ok(v) => v,
            Err(e) => {
                return Err(e);
            },
        };
        let compressed_streams = match self.compress_all_streams(&streams) {
            Ok(v) => v,
            Err(e) => {
                return Err(e);
            },
        };
        if compressed_dict.len() > i32::MAX as usize || compressed_streams.instrument_ids.len()
            > i32::MAX as usize || compressed_streams.run_ids.len() > i32::MAX as usize
            || compressed_streams.flowcell_ids.len() > i32::MAX as usize
            || compressed_streams.lanes.len() > i32::MAX as usize
            || compressed_streams.read_nums.len() > i32::MAX as usize
            || compressed_streams.flags.len() > i32::MAX as usize
            || compressed_streams.coordinates.len() > i32::MAX as usize
            || compressed_streams.umi_ids.len() > i32::MAX as usize
            || compressed_streams.index_ids.len() > i32::MAX as usize {
            return Err(CodecError);
        }
        Ok(self.assemble_block(compressed_dict, compressed_streams))
    }
}

} // verus!
