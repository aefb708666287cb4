//! Byte-slice helpers: splitting, counting, prefixes and decimal parsing.

use vstd::prelude::*;

use crate::error::TokenizationError;
use vstd::string::StringExecFns;

verus! {

/// Namespace for the byte-level helper functions.
pub struct ByteUtils;

/// How a byte sequence splits on the delimiter bytes `d1` and `d2` (pass the
/// same byte twice to split on a single delimiter): one entry per segment,
/// empty segments retained, always at least one entry.
pub open spec fn spec_split(s: Seq<u8>, d1: u8, d2: u8) -> Seq<Seq<u8>>
    decreases s.len(),
{
    if s.len() == 0 {
        seq![Seq::<u8>::empty()]
    } else if s[0] == d1 || s[0] == d2 {
        seq![Seq::<u8>::empty()].add(spec_split(s.drop_first(), d1, d2))
    } else {
        let rest = spec_split(s.drop_first(), d1, d2);
        rest.update(0, seq![s[0]].add(rest[0]))
    }
}

pub proof fn lemma_split_len(s: Seq<u8>, d1: u8, d2: u8)
    ensures
        spec_split(s, d1, d2).len() >= 1,
    decreases s.len(),
{
    if s.len() != 0 {
        lemma_split_len(s.drop_first(), d1, d2);
    }
}

/// True when no byte of `s` is `d1` or `d2`.
pub open spec fn delim_free(s: Seq<u8>, d1: u8, d2: u8) -> bool {
    forall|i: int| 0 <= i < s.len() ==> s[i] != d1 && s[i] != d2
}

/// A delimiter-free sequence splits into just itself.
pub proof fn lemma_split_whole(s: Seq<u8>, d1: u8, d2: u8)
    requires
        delim_free(s, d1, d2),
    ensures
        spec_split(s, d1, d2) =~~= seq![s],
    decreases s.len(),
{
    if s.len() != 0 {
        lemma_split_whole(s.drop_first(), d1, d2);
        assert(seq![s[0]].add(s.drop_first()) =~= s);
    }
}

/// Splitting a sequence that opens with a delimiter-free segment followed by
/// a delimiter peels the segment off the front.
pub proof fn lemma_split_step(a: Seq<u8>, d: u8, rest: Seq<u8>, d1: u8, d2: u8)
    requires
        delim_free(a, d1, d2),
        d == d1 || d == d2,
    ensures
        spec_split(a + seq![d] + rest, d1, d2) =~~= seq![a] + spec_split(rest, d1, d2),
    decreases a.len(),
{
    let s = a + seq![d] + rest;
    if a.len() == 0 {
        assert(s[0] == d);
        assert(s.drop_first() =~= rest);
    } else {
        assert(s[0] == a[0]);
        assert(s.drop_first() =~= a.drop_first() + seq![d] + rest);
        lemma_split_step(a.drop_first(), d, rest, d1, d2);
        lemma_split_len(rest, d1, d2);
        assert(seq![a[0]].add(a.drop_first()) =~= a);
    }
}

/// Number of occurrences of `b` in `s`.
pub open spec fn spec_count_byte(s: Seq<u8>, b: u8) -> int
    decreases s.len(),
{
    if s.len() == 0 {
        0
    } else {
        spec_count_byte(s.drop_last(), b) + if s.last() == b { 1int } else { 0int }
    }
}

/// Length of the longest common prefix of `a` and `b`.
pub open spec fn spec_common_prefix(a: Seq<u8>, b: Seq<u8>) -> int
    decreases a.len() + b.len(),
{
    if a.len() == 0 || b.len() == 0 || a[0] != b[0] {
        0
    } else {
        1 + spec_common_prefix(a.drop_first(), b.drop_first())
    }
}

/// An ASCII decimal digit.
pub open spec fn is_digit(b: u8) -> bool {
    48 <= b <= 57
}

/// A non-empty, all-digit byte sequence.
pub open spec fn is_dec_seq(s: Seq<u8>) -> bool {
    s.len() >= 1 && (forall|i: int| 0 <= i < s.len() ==> is_digit(s[i]))
}

/// Value of a digit sequence read as a decimal number.
pub open spec fn dec_val(s: Seq<u8>) -> int
    decreases s.len(),
{
    if s.len() == 0 {
        0
    } else {
        dec_val(s.drop_last()) * 10 + (s.last() - 48)
    }
}

pub proof fn lemma_dec_val_nonneg(s: Seq<u8>)
    requires
        forall|i: int| 0 <= i < s.len() ==> is_digit(s[i]),
    ensures
        dec_val(s) >= 0,
    decreases s.len(),
{
    if s.len() != 0 {
        lemma_dec_val_nonneg(s.drop_last());
    }
}

/// Reading more digits can only grow the value.
pub proof fn lemma_dec_val_prefix(s: Seq<u8>, k: int)
    requires
        0 <= k <= s.len(),
        forall|i: int| 0 <= i < s.len() ==> is_digit(s[i]),
    ensures
        dec_val(s) >= dec_val(s.take(k)),
    decreases s.len() - k,
{
    if k < s.len() {
        lemma_dec_val_prefix(s, k + 1);
        assert(s.take(k + 1).drop_last() =~= s.take(k));
        lemma_dec_val_nonneg(s.take(k));
    } else {
        assert(s.take(k) =~= s);
    }
}

/// A byte string `str::parse` accepts for an unsigned integer: decimal
/// digits with an optional leading `+`.
pub open spec fn dec_parseable(s: Seq<u8>) -> bool {
    is_dec_seq(s) || (s.len() >= 2 && s[0] == 43 && is_dec_seq(s.drop_first()))
}

/// The parsed value: the digits after any leading `+`.
pub open spec fn dec_parsed(s: Seq<u8>) -> int {
    if s.len() >= 1 && s[0] == 43 {
        dec_val(s.drop_first())
    } else {
        dec_val(s)
    }
}

/// A parseable string within `max`.
pub open spec fn dec_fits(s: Seq<u8>, max: int) -> bool {
    dec_parseable(s) && dec_parsed(s) <= max
}

impl ByteUtils {
    /// Split `bytes` on a delimiter byte, keeping empty segments and the
    /// (possibly empty) trailing segment.
    pub fn split_bytes<'a>(bytes: &'a [u8], delimiter: u8) -> (parts: Vec<&'a [u8]>)
        ensures
            parts.deep_view() =~~= spec_split(bytes@, delimiter, delimiter),
    {
        Self::split_bytes_any(bytes, delimiter, delimiter)
    }

    /// Split on either of two delimiter bytes.
    pub fn split_bytes_any<'a>(bytes: &'a [u8], d1: u8, d2: u8) -> (parts: Vec<&'a [u8]>)
        ensures
            parts.deep_view() =~~= spec_split(bytes@, d1, d2),
    {
        let mut parts: Vec<&'a [u8]> = Vec::new();
        let mut start: usize = 0;
        let mut i: usize = 0;
        proof {
            assert(bytes@.skip(0) =~= bytes@);
            assert(parts.deep_view() =~~= Seq::<Seq<u8>>::empty());
        }
        while i < bytes.len()
            invariant
                0 <= start <= i <= bytes.len(),
                delim_free(bytes@.subrange(start as int, i as int), d1, d2),
                spec_split(bytes@, d1, d2) =~~= parts.deep_view() + spec_split(
                    bytes@.skip(start as int),
                    d1,
                    d2,
                ),
            decreases bytes.len() - i,
        {
            let b = bytes[i];
            if b == d1 || b == d2 {
                let part = vstd::slice::slice_subrange(bytes, start, i);
                proof {
                    assert(bytes@.skip(start as int) =~= bytes@.subrange(start as int, i as int)
                        + seq![bytes@[i as int]] + bytes@.skip(i as int + 1));
                    lemma_split_step(
                        bytes@.subrange(start as int, i as int),
                        bytes@[i as int],
                        bytes@.skip(i as int + 1),
                        d1,
                        d2,
                    );
                }
                let ghost before = parts.deep_view();
                parts.push(part);
                proof {
                    assert(parts.deep_view() =~~= before.push(part@));
                }
                start = i + 1;
            }
            i += 1;
        }
        let last = vstd::slice::slice_subrange(bytes, start, bytes.len());
        proof {
            assert(bytes@.skip(start as int) =~= bytes@.subrange(
                start as int,
                bytes@.len() as int,
            ));
            lemma_split_whole(bytes@.skip(start as int), d1, d2);
        }
        let ghost before = parts.deep_view();
        parts.push(last);
        proof {
            assert(parts.deep_view() =~~= before.push(last@));
        }
        parts
    }

    /// Count occurrences of `needle` in `haystack`.
    pub fn count_byte(haystack: &[u8], needle: u8) -> (n: usize)
        ensures
            n == spec_count_byte(haystack@, needle),
    {
        let mut n: usize = 0;
        let mut i: usize = 0;
        while i < haystack.len()
            invariant
                0 <= i <= haystack.len(),
                n == spec_count_byte(haystack@.take(i as int), needle),
                n <= i,
            decreases haystack.len() - i,
        {
            proof {
                assert(haystack@.take(i + 1).drop_last() =~= haystack@.take(i as int));
            }
            if haystack[i] == needle {
                n += 1;
            }
            i += 1;
        }
        proof {
            assert(haystack@.take(haystack@.len() as int) =~= haystack@);
        }
        n
    }

    /// Length of the common prefix of `a` and `b`.
    pub fn common_prefix_length(a: &[u8], b: &[u8]) -> (n: usize)
        ensures
            n == spec_common_prefix(a@, b@),
            n <= a@.len() && n <= b@.len(),
    {
        let mut i: usize = 0;
        proof {
            assert(a@.skip(0) =~= a@);
            assert(b@.skip(0) =~= b@);
        }
        loop
            invariant
                0 <= i <= a.len(),
                i <= b.len(),
                spec_common_prefix(a@, b@) == i + spec_common_prefix(
                    a@.skip(i as int),
                    b@.skip(i as int),
                ),
            decreases a.len() - i,
        {
            if i >= a.len() || i >= b.len() || a[i] != b[i] {
                proof {
                    if i < a.len() && i < b.len() {
                        assert(a@.skip(i as int)[0] == a@[i as int]);
                        assert(b@.skip(i as int)[0] == b@[i as int]);
                    }
                }
                return i;
            }
            proof {
                assert(a@.skip(i as int)[0] == a@[i as int]);
                assert(b@.skip(i as int)[0] == b@[i as int]);
                assert(a@.skip(i as int).drop_first() =~= a@.skip(i + 1));
                assert(b@.skip(i as int).drop_first() =~= b@.skip(i + 1));
            }
            i += 1;
        }
    }

    /// Parse an unsigned decimal number that must fit in a `u32`; like
    /// `str::parse`, a single leading `+` is accepted.
    pub fn parse_u32(bytes: &[u8]) -> (r: Result<u32, TokenizationError>)
        ensures
            r is Ok <==> dec_fits(bytes@, u32::MAX as int),
            r is Ok ==> r->Ok_0 == dec_parsed(bytes@),
            r is Err ==> r->Err_0 is ParseError,
    {
        if bytes.len() >= 1 && bytes[0] == 43 {
            let digits = vstd::slice::slice_subrange(bytes, 1, bytes.len());
            proof {
                assert(digits@ =~= bytes@.drop_first());
            }
            Self::parse_digits_u32(digits)
        } else {
            Self::parse_digits_u32(bytes)
        }
    }

    /// Parse a bare digit string that must fit in a `u32`.
    fn parse_digits_u32(bytes: &[u8]) -> (r: Result<u32, TokenizationError>)
        ensures
            r is Ok <==> is_dec_seq(bytes@) && dec_val(bytes@) <= u32::MAX,
            r is Ok ==> r->Ok_0 == dec_val(bytes@),
            r is Err ==> r->Err_0 is ParseError,
    {
        if bytes.len() == 0 {
            return Err(TokenizationError::ParseError(String::from_str("empty decimal")));
        }
        let mut acc: u64 = 0;
        let mut i: usize = 0;
        while i < bytes.len()
            invariant
                0 <= i <= bytes.len(),
                forall|j: int| 0 <= j < i ==> is_digit(bytes@[j]),
                acc == dec_val(bytes@.take(i as int)),
                acc <= u32::MAX,
            decreases bytes.len() - i,
        {
            let b = bytes[i];
            if b < 48 || b > 57 {
                return Err(TokenizationError::ParseError(String::from_str("invalid digit")));
            }
            proof {
                assert(bytes@.take(i + 1).drop_last() =~= bytes@.take(i as int));
            }
            let next = acc * 10 + ((b - 48) as u64);
            if next > u32::MAX as u64 {
                proof {
                    if is_dec_seq(bytes@) {
                        lemma_dec_val_prefix(bytes@, i + 1);
                    }
                }
                return Err(TokenizationError::ParseError(String::from_str("number too large")));
            }
            acc = next;
            i += 1;
        }
        proof {
            assert(bytes@.take(bytes@.len() as int) =~= bytes@);
        }
        Ok(acc as u32)
    }

    /// Parse an unsigned decimal number that must fit in a `u16`; like
    /// `str::parse`, a single leading `+` is accepted.
    pub fn parse_u16(bytes: &[u8]) -> (r: Result<u16, TokenizationError>)
        ensures
            r is Ok <==> dec_fits(bytes@, u16::MAX as int),
            r is Ok ==> r->Ok_0 == dec_parsed(bytes@),
            r is Err ==> r->Err_0 is ParseError,
    {
        match Self::parse_u32(bytes) {
            Ok(v) if v <= u16::MAX as u32 => Ok(v as u16),
            Ok(_) => Err(TokenizationError::ParseError(String::from_str("number too large"))),
            Err(e) => Err(e),
        }
    }

    /// Parse an unsigned decimal number that must fit in a `u8`; like
    /// `str::parse`, a single leading `+` is accepted.
    pub fn parse_u8(bytes: &[u8]) -> (r: Result<u8, TokenizationError>)
        ensures
            r is Ok <==> dec_fits(bytes@, u8::MAX as int),
            r is Ok ==> r->Ok_0 == dec_parsed(bytes@),
            r is Err ==> r->Err_0 is ParseError,
    {
        match Self::parse_u32(bytes) {
            Ok(v) if v <= u8::MAX as u32 => Ok(v as u8),
            Ok(_) => Err(TokenizationError::ParseError(String::from_str("number too large"))),
            Err(e) => Err(e),
        }
    }
}

} // verus!

verus! {

/// Decimal rendering of a non-negative number, most significant digit
/// first (negative inputs render as nothing).
pub open spec fn dec_bytes(n: int) -> Seq<u8>
    decreases n,
{
    if 0 <= n < 10 {
        seq![(48 + n) as u8]
    } else if n >= 10 {
        dec_bytes(n / 10) + seq![(48 + n % 10) as u8]
    } else {
        Seq::empty()
    }
}

/// The canonical decimal digits of a value parse back to that value.
pub proof fn lemma_dec_bytes_val(n: int)
    requires
        n >= 0,
    ensures
        is_dec_seq(dec_bytes(n)),
        dec_val(dec_bytes(n)) == n,
        dec_bytes(n)[0] != 48 || dec_bytes(n).len() == 1,
    decreases n,
{
    if n >= 10 {
        lemma_dec_bytes_val(n / 10);
        let s = dec_bytes(n);
        let head = dec_bytes(n / 10);
        assert(s.drop_last() =~= head);
        assert(s.last() == (48 + n % 10) as u8);
        assert(dec_val(s) == dec_val(head) * 10 + (n % 10));
        assert forall|i: int| 0 <= i < s.len() implies is_digit(s[i]) by {
            if i < head.len() {
                assert(s[i] == head[i]);
            } else {
                assert(s[i] == s.last());
            }
        }
        assert(s[0] == head[0]);
        if head.len() == 1 {
            assert(head.drop_last() =~= Seq::<u8>::empty());
            assert(dec_val(Seq::<u8>::empty()) == 0);
            assert(dec_val(head) == head[0] - 48);
            assert(head[0] != 48);
        }
        assert(s[0] != 48);
    } else {
        let s = dec_bytes(n);
        assert(s =~= seq![(48 + n) as u8]);
        assert(s.drop_last() =~= Seq::<u8>::empty());
        assert(dec_val(Seq::<u8>::empty()) == 0);
        assert(dec_val(s) == dec_val(s.drop_last()) * 10 + (s.last() - 48));
        assert(is_digit(s[0]));
    }
}

/// Append the decimal rendering of `v` to `out`.
pub fn push_dec_u32(out: &mut Vec<u8>, v: u32)
    ensures
        final(out)@ == old(out)@ + dec_bytes(v as int),
    decreases v,
{
    if v >= 10 {
        push_dec_u32(out, v / 10);
        let ghost mid = out@;
        out.push((v % 10) as u8 + 48);
        proof {
            assert(out@ =~= mid + seq![(48 + (v as int) % 10) as u8]);
            assert(old(out)@ + dec_bytes(v as int) =~= (old(out)@ + dec_bytes(v as int / 10))
                + seq![(48 + (v as int) % 10) as u8]);
        }
    } else {
        let ghost before = out@;
        out.push(v as u8 + 48);
        proof {
            assert(out@ =~= before + seq![(48 + v as int) as u8]);
        }
    }
}

/// Index of the first occurrence of `b` in `s`, or -1.
pub open spec fn find_byte(s: Seq<u8>, b: u8) -> int
    decreases s.len(),
{
    if s.len() == 0 {
        -1
    } else if s[0] == b {
        0
    } else {
        let r = find_byte(s.drop_first(), b);
        if r < 0 {
            -1
        } else {
            r + 1
        }
    }
}

pub proof fn lemma_find_byte(s: Seq<u8>, b: u8)
    ensures
        find_byte(s, b) >= 0 ==> ({
            &&& 0 <= find_byte(s, b) < s.len()
            &&& s[find_byte(s, b)] == b
            &&& forall|j: int| 0 <= j < find_byte(s, b) ==> s[j] != b
        }),
        find_byte(s, b) < 0 ==> (forall|j: int| 0 <= j < s.len() ==> s[j] != b),
    decreases s.len(),
{
    if s.len() > 0 && s[0] != b {
        lemma_find_byte(s.drop_first(), b);
        let r = find_byte(s.drop_first(), b);
        if r >= 0 {
            assert(s.drop_first()[r] == b);
            assert forall|j: int| 0 <= j < r + 1 implies s[j] != b by {
                if j >= 1 {
                    assert(s.drop_first()[j - 1] == s[j]);
                }
            }
        } else {
            assert forall|j: int| 0 <= j < s.len() implies s[j] != b by {
                if j >= 1 {
                    assert(s.drop_first()[j - 1] == s[j]);
                }
            }
        }
    }
}

/// Joining parts with a delimiter byte.
pub open spec fn join_bytes(parts: Seq<Seq<u8>>, d: u8) -> Seq<u8>
    decreases parts.len(),
{
    if parts.len() == 0 {
        Seq::empty()
    } else if parts.len() == 1 {
        parts[0]
    } else {
        parts[0] + seq![d] + join_bytes(parts.drop_first(), d)
    }
}

/// Splitting a join of delimiter-free parts restores the parts.
pub proof fn lemma_split_join(parts: Seq<Seq<u8>>, d: u8, d2: u8)
    requires
        parts.len() >= 1,
        forall|i: int| 0 <= i < parts.len() ==> delim_free(#[trigger] parts[i], d, d2),
    ensures
        spec_split(join_bytes(parts, d), d, d2) =~~= parts,
    decreases parts.len(),
{
    if parts.len() == 1 {
        lemma_split_whole(parts[0], d, d2);
    } else {
        lemma_split_join(parts.drop_first(), d, d2);
        lemma_split_step(parts[0], d, join_bytes(parts.drop_first(), d), d, d2);
        assert(seq![parts[0]] + parts.drop_first() =~= parts);
    }
}

impl ByteUtils {
    /// Relies on str::from_utf8 and str::to_owned: succeeds exactly on
    /// valid UTF-8 and returns the decoded characters.
    #[verifier::external_body]
    pub fn bytes_to_string(bytes: &[u8]) -> (r: Result<String, TokenizationError>)
        ensures
            r is Ok <==> vstd::utf8::valid_utf8(bytes@),
            r is Ok ==> r->Ok_0@ == vstd::utf8::decode_utf8(bytes@),
            r is Err ==> r->Err_0 is ParseError,
    {
        match std::str::from_utf8(bytes) {
            Ok(s) => Ok(s.to_string()),
            Err(e) => Err(TokenizationError::ParseError(e.to_string())),
        }
    }

    /// Relies on String::from_utf8_lossy: the characters are a function of
    /// the input bytes alone (invalid sequences become replacement
    /// characters).
    #[verifier::external_body]
    pub fn bytes_to_string_lossy(bytes: &[u8]) -> (r: String)
        ensures
            r@ == lossy_of(bytes@),
    {
        String::from_utf8_lossy(bytes).to_string()
    }
}

/// The characters that String::from_utf8_lossy yields for the given bytes.
pub uninterp spec fn lossy_of(bytes: Seq<u8>) -> Seq<char>;

} // verus!
