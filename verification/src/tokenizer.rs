//! Illumina read-name tokenizer: parses modern and legacy name shapes into
//! fixed-schema records, interning string components in the dictionary.
//!
//! The modern shape is `INSTRUMENT:RUN:FLOWCELL:LANE:TILE:X:Y` with optional
//! `UMI`, read number, flags and index fields, split on `:` or space.  The
//! legacy shape is `INSTRUMENT_RUN:LANE:TILE:X:Y[#INDEX[|UMI]]`.
//! Detokenization is the inverse rendering, dispatched on `flowcell_id == 0`
//! (the legacy marker).

use vstd::prelude::*;

use crate::dictionary::{spec_intern, ReadNameDictionary, TokenizedReadName};
use crate::error::TokenizationError;
use crate::utils::{
    dec_bytes, dec_fits, dec_parsed, dec_val, delim_free, find_byte, is_dec_seq, lossy_of,
    spec_split, ByteUtils,
};
use vstd::string::StringExecFns;

verus! {

/// The four dictionary tables as sequences: instruments, flowcells, UMIs,
/// indices.
pub open spec fn dict_view(d: ReadNameDictionary) -> (
    Seq<Seq<u8>>,
    Seq<Seq<u8>>,
    Seq<Seq<u8>>,
    Seq<Seq<u8>>,
) {
    (d.instruments.deep_view(), d.flowcells.deep_view(), d.umis.deep_view(), d.indices.deep_view())
}

/// The 32-bit multiplicative string hash `h := h*31 + byte`, wrapping.
pub open spec fn spec_hash31(s: Seq<u8>) -> int
    decreases s.len(),
{
    if s.len() == 0 {
        0
    } else {
        (spec_hash31(s.drop_last()) * 31 + s.last()) % 0x1_0000_0000
    }
}

/// Flags field: `Y` is 1, `N` is 0, otherwise its decimal value with 0 as
/// the fallback.
pub open spec fn spec_parse_flags(s: Seq<u8>) -> int {
    if s.len() == 1 && s[0] == 89 {
        1
    } else if s.len() == 1 && s[0] == 78 {
        0
    } else if dec_fits(s, 255) {
        dec_parsed(s)
    } else {
        0
    }
}

/// The colon-or-space separated fields of a modern name.
pub open spec fn modern_parts(name: Seq<u8>) -> Seq<Seq<u8>> {
    spec_split(name, 58, 32)
}

/// A name parseable by the modern grammar: at least seven fields, with the
/// five numeric ones in range.
pub open spec fn spec_modern_ok(name: Seq<u8>) -> bool {
    let p = modern_parts(name);
    &&& p.len() >= 7
    &&& dec_fits(p[1], u32::MAX as int)
    &&& dec_fits(p[3], u8::MAX as int)
    &&& dec_fits(p[4], u16::MAX as int)
    &&& dec_fits(p[5], u32::MAX as int)
    &&& dec_fits(p[6], u32::MAX as int)
}

pub open spec fn modern_umi(p: Seq<Seq<u8>>) -> Option<Seq<u8>> {
    if p.len() > 7 && p[7].len() > 0 {
        Some(p[7])
    } else {
        None
    }
}

pub open spec fn modern_read_num(p: Seq<Seq<u8>>) -> int {
    if p.len() > 8 {
        if dec_fits(p[8], 255) {
            dec_parsed(p[8])
        } else {
            1
        }
    } else {
        1
    }
}

pub open spec fn modern_flags(p: Seq<Seq<u8>>) -> int {
    if p.len() > 9 {
        spec_parse_flags(p[9])
    } else {
        0
    }
}

pub open spec fn modern_index(p: Seq<Seq<u8>>) -> Option<Seq<u8>> {
    if p.len() > 10 && p[10].len() > 0 {
        Some(p[10])
    } else {
        None
    }
}

/// What tokenizing a modern name does: the new dictionary tables and the
/// record, with components interned in order (instrument, flowcell, UMI,
/// index).
pub open spec fn spec_modern_tokenize(
    d: (Seq<Seq<u8>>, Seq<Seq<u8>>, Seq<Seq<u8>>, Seq<Seq<u8>>),
    name: Seq<u8>,
) -> ((Seq<Seq<u8>>, Seq<Seq<u8>>, Seq<Seq<u8>>, Seq<Seq<u8>>), TokenizedReadName) {
    let p = modern_parts(name);
    let (ins1, iid) = spec_intern(d.0, p[0], 255);
    let (fc1, fid) = spec_intern(d.1, p[2], 255);
    let (um1, umi_id) = match modern_umi(p) {
        Option::Some(u) => {
            let r = spec_intern(d.2, u, 65535);
            (r.0, Option::Some(r.1 as u16))
        },
        Option::None => (d.2, Option::<u16>::None),
    };
    let (ix1, index_id) = match modern_index(p) {
        Option::Some(u) => {
            let r = spec_intern(d.3, u, 255);
            (r.0, Option::Some(r.1 as u8))
        },
        Option::None => (d.3, Option::<u8>::None),
    };
    (
        (ins1, fc1, um1, ix1),
        TokenizedReadName {
            instrument_id: iid as u8,
            run_id: dec_parsed(p[1]) as u32,
            flowcell_id: fid as u8,
            lane: dec_parsed(p[3]) as u8,
            tile: dec_parsed(p[4]) as u16,
            x_coord: dec_parsed(p[5]) as u32,
            y_coord: dec_parsed(p[6]) as u32,
            umi_id,
            read_num: modern_read_num(p) as u8,
            flags: modern_flags(p) as u8,
            index_id,
        },
    )
}

/// The `#`-separated pieces of a legacy name (pieces past the second are
/// ignored, as the legacy grammar has at most one suffix).
pub open spec fn legacy_main(name: Seq<u8>) -> Seq<Seq<u8>> {
    spec_split(name, 35, 35)
}

/// The colon-separated fields of the legacy coordinate part.
pub open spec fn legacy_cparts(name: Seq<u8>) -> Seq<Seq<u8>> {
    spec_split(legacy_main(name)[0], 58, 58)
}

/// A name parseable by the legacy grammar: exactly five coordinate fields,
/// the four numeric ones in range.
pub open spec fn spec_legacy_ok(name: Seq<u8>) -> bool {
    let c = legacy_cparts(name);
    &&& c.len() == 5
    &&& dec_fits(c[1], u8::MAX as int)
    &&& dec_fits(c[2], u16::MAX as int)
    &&& dec_fits(c[3], u32::MAX as int)
    &&& dec_fits(c[4], u32::MAX as int)
}

pub open spec fn legacy_suffix(name: Seq<u8>) -> Option<Seq<u8>> {
    let m = legacy_main(name);
    if m.len() > 1 {
        Some(m[1])
    } else {
        None
    }
}

/// Split a legacy suffix at its first `|` into index and UMI bytes; either
/// side is absent when empty, and without a `|` the whole suffix is the
/// index.
pub open spec fn legacy_index_umi(suffix: Seq<u8>) -> (Option<Seq<u8>>, Option<Seq<u8>>) {
    let p = find_byte(suffix, 124);
    if p >= 0 {
        let ix = suffix.take(p);
        let um = suffix.skip(p + 1);
        (
            if ix.len() > 0 {
                Option::Some(ix)
            } else {
                Option::None
            },
            if um.len() > 0 {
                Option::Some(um)
            } else {
                Option::None
            },
        )
    } else {
        (
            if suffix.len() > 0 {
                Option::Some(suffix)
            } else {
                Option::None
            },
            Option::None,
        )
    }
}

/// What tokenizing a legacy name does: run ID from the instrument hash,
/// flowcell 0 as the legacy marker, index interned before UMI.
pub open spec fn spec_legacy_tokenize(
    d: (Seq<Seq<u8>>, Seq<Seq<u8>>, Seq<Seq<u8>>, Seq<Seq<u8>>),
    name: Seq<u8>,
) -> ((Seq<Seq<u8>>, Seq<Seq<u8>>, Seq<Seq<u8>>, Seq<Seq<u8>>), TokenizedReadName) {
    let c = legacy_cparts(name);
    let (ins1, iid) = spec_intern(d.0, c[0], 255);
    let parts = match legacy_suffix(name) {
        Option::Some(s) => legacy_index_umi(s),
        Option::None => (Option::<Seq<u8>>::None, Option::<Seq<u8>>::None),
    };
    let (ix1, index_id) = match parts.0 {
        Option::Some(b) => {
            let r = spec_intern(d.3, b, 255);
            (r.0, Option::Some(r.1 as u8))
        },
        Option::None => (d.3, Option::<u8>::None),
    };
    let (um1, umi_id) = match parts.1 {
        Option::Some(b) => {
            let r = spec_intern(d.2, b, 65535);
            (r.0, Option::Some(r.1 as u16))
        },
        Option::None => (d.2, Option::<u16>::None),
    };
    (
        (ins1, d.1, um1, ix1),
        TokenizedReadName {
            instrument_id: iid as u8,
            run_id: spec_hash31(c[0]) as u32,
            flowcell_id: 0,
            lane: dec_parsed(c[1]) as u8,
            tile: dec_parsed(c[2]) as u16,
            x_coord: dec_parsed(c[3]) as u32,
            y_coord: dec_parsed(c[4]) as u32,
            umi_id,
            read_num: 1,
            flags: 0,
            index_id,
        },
    )
}

/// A name some grammar accepts.
pub open spec fn spec_single_ok(name: Seq<u8>) -> bool {
    spec_modern_ok(name) || spec_legacy_ok(name)
}

/// One tokenization step: the modern grammar is tried first.
pub open spec fn spec_tokenize_single(
    d: (Seq<Seq<u8>>, Seq<Seq<u8>>, Seq<Seq<u8>>, Seq<Seq<u8>>),
    name: Seq<u8>,
) -> ((Seq<Seq<u8>>, Seq<Seq<u8>>, Seq<Seq<u8>>, Seq<Seq<u8>>), TokenizedReadName) {
    if spec_modern_ok(name) {
        spec_modern_tokenize(d, name)
    } else {
        spec_legacy_tokenize(d, name)
    }
}

/// Tokenizing a whole batch, front to back, threading the dictionary.
pub open spec fn spec_tokenize_all(
    d: (Seq<Seq<u8>>, Seq<Seq<u8>>, Seq<Seq<u8>>, Seq<Seq<u8>>),
    names: Seq<Seq<u8>>,
) -> ((Seq<Seq<u8>>, Seq<Seq<u8>>, Seq<Seq<u8>>, Seq<Seq<u8>>), Seq<TokenizedReadName>)
    decreases names.len(),
{
    if names.len() == 0 {
        (d, Seq::empty())
    } else {
        let (d1, r) = spec_tokenize_single(d, names[0]);
        let (d2, rest) = spec_tokenize_all(d1, names.drop_first());
        (d2, seq![r] + rest)
    }
}

/// Index of the first unparseable name, or -1.
pub open spec fn first_bad(names: Seq<Seq<u8>>) -> int
    decreases names.len(),
{
    if names.len() == 0 {
        -1
    } else if !spec_single_ok(names[0]) {
        0
    } else {
        let r = first_bad(names.drop_first());
        if r < 0 {
            -1
        } else {
            r + 1
        }
    }
}

pub proof fn lemma_first_bad(names: Seq<Seq<u8>>)
    ensures
        first_bad(names) >= 0 ==> ({
            &&& 0 <= first_bad(names) < names.len()
            &&& !spec_single_ok(names[first_bad(names)])
            &&& forall|j: int| 0 <= j < first_bad(names) ==> spec_single_ok(#[trigger] names[j])
        }),
        first_bad(names) < 0 ==> (forall|j: int|
            0 <= j < names.len() ==> spec_single_ok(#[trigger] names[j])),
    decreases names.len(),
{
    if names.len() > 0 && spec_single_ok(names[0]) {
        lemma_first_bad(names.drop_first());
        let r = first_bad(names.drop_first());
        if r >= 0 {
            assert(names.drop_first()[r] == names[r + 1]);
            assert forall|j: int| 0 <= j < r + 1 implies spec_single_ok(#[trigger] names[j]) by {
                if j >= 1 {
                    assert(names.drop_first()[j - 1] == names[j]);
                }
            }
        } else {
            assert forall|j: int| 0 <= j < names.len() implies spec_single_ok(
                #[trigger] names[j],
            ) by {
                if j >= 1 {
                    assert(names.drop_first()[j - 1] == names[j]);
                }
            }
        }
    }
}

/// Tokenizing one more name at the end extends the fold by one step.
pub proof fn lemma_tokenize_all_snoc(
    d: (Seq<Seq<u8>>, Seq<Seq<u8>>, Seq<Seq<u8>>, Seq<Seq<u8>>),
    names: Seq<Seq<u8>>,
    x: Seq<u8>,
)
    ensures
        spec_tokenize_all(d, names.push(x)) == ({
            let (d1, rs) = spec_tokenize_all(d, names);
            let (d2, r) = spec_tokenize_single(d1, x);
            (d2, rs.push(r))
        }),
    decreases names.len(),
{
    let s = names.push(x);
    if names.len() == 0 {
        assert(s[0] == x);
        assert(s.drop_first() =~= Seq::<Seq<u8>>::empty());
        let (d1, r) = spec_tokenize_single(d, x);
        assert(spec_tokenize_all(d1, s.drop_first()) == (d1, Seq::<TokenizedReadName>::empty()));
        assert(seq![r] + Seq::<TokenizedReadName>::empty() =~= Seq::<
            TokenizedReadName,
        >::empty().push(r));
    } else {
        assert(s[0] == names[0]);
        assert(s.drop_first() =~= names.drop_first().push(x));
        let (d1, r1) = spec_tokenize_single(d, names[0]);
        lemma_tokenize_all_snoc(d1, names.drop_first(), x);
        let (da, ra) = spec_tokenize_all(d1, names.drop_first());
        let (db, rb) = spec_tokenize_single(da, x);
        assert(seq![r1] + ra.push(rb) =~= (seq![r1] + ra).push(rb));
    }
}

} // verus!

verus! {

/// Tokenizer over Illumina-family read names, owning its per-block
/// dictionary and two counters of processed and tokenized reads.
pub struct IlluminaTokenizer {
    pub dictionary: ReadNameDictionary,
    pub total_reads_processed: usize,
    pub successfully_tokenized: usize,
}

impl Default for IlluminaTokenizer {
    fn default() -> (t: Self)
        ensures
            t.wf(),
            t.total_reads_processed == 0,
            t.successfully_tokenized == 0,
    {
        Self::new()
    }
}

/// Index of the first occurrence of `b`, if any.
fn position_of(s: &[u8], b: u8) -> (r: Option<usize>)
    ensures
        r is Some <==> find_byte(s@, b) >= 0,
        r is Some ==> r->0 as int == find_byte(s@, b) && r->0 < s@.len(),
{
    proof {
        crate::utils::lemma_find_byte(s@, b);
    }
    let mut i: usize = 0;
    while i < s.len()
        invariant
            0 <= i <= s.len(),
            forall|j: int| 0 <= j < i ==> s@[j] != b,
        decreases s.len() - i,
    {
        if s[i] == b {
            proof {
                crate::utils::lemma_find_byte(s@, b);
                let f = find_byte(s@, b);
                if f < 0 {
                    assert(s@[i as int] != b);
                }
                if f > i as int {
                    assert(s@[i as int] != b);
                }
                if 0 <= f < i as int {
                    assert(s@[f] != b);
                }
            }
            return Some(i);
        }
        i += 1;
    }
    proof {
        crate::utils::lemma_find_byte(s@, b);
        let f = find_byte(s@, b);
        if f >= 0 {
            assert(s@[f] != b);
        }
    }
    None
}

impl IlluminaTokenizer {
    /// All dictionary tables are well formed.
    pub open spec fn wf(&self) -> bool {
        self.dictionary.wf()
    }

    pub fn new() -> (t: Self)
        ensures
            t.wf(),
            t.total_reads_processed == 0,
            t.successfully_tokenized == 0,
            t.dictionary.instruments.len() == 0,
            t.dictionary.flowcells.deep_view() =~~= seq![Seq::<u8>::empty()],
            t.dictionary.umis.len() == 0,
            t.dictionary.indices.len() == 0,
    {
        IlluminaTokenizer {
            dictionary: ReadNameDictionary::new(),
            total_reads_processed: 0,
            successfully_tokenized: 0,
        }
    }

    /// Start from an existing dictionary.
    pub fn with_dictionary(dictionary: ReadNameDictionary) -> (t: Self)
        requires
            dictionary.wf(),
        ensures
            t.wf(),
            t.dictionary == dictionary,
            t.total_reads_processed == 0,
            t.successfully_tokenized == 0,
    {
        IlluminaTokenizer { dictionary, total_reads_processed: 0, successfully_tokenized: 0 }
    }

    /// The multiplicative hash used as a legacy run ID.
    pub fn hash_string(&self, s: &[u8]) -> (h: u32)
        ensures
            h as int == spec_hash31(s@),
    {
        let mut h: u32 = 0;
        let mut i: usize = 0;
        while i < s.len()
            invariant
                0 <= i <= s.len(),
                h as int == spec_hash31(s@.take(i as int)),
            decreases s.len() - i,
        {
            proof {
                assert(s@.take(i + 1).drop_last() =~= s@.take(i as int));
                assert(s@.take(i + 1).last() == s@[i as int]);
            }
            h = (((h as u64) * 31 + (s[i] as u64)) % 0x1_0000_0000u64) as u32;
            i += 1;
        }
        proof {
            assert(s@.take(s@.len() as int) =~= s@);
        }
        h
    }

    /// Parse a flags field: `Y` is 1, `N` is 0, else its decimal value with
    /// 0 as the fallback.
    pub fn parse_flags_from_string(&self, flags_part: &[u8]) -> (f: u8)
        ensures
            f as int == spec_parse_flags(flags_part@),
    {
        if flags_part.len() == 1 && flags_part[0] == 89 {
            1
        } else if flags_part.len() == 1 && flags_part[0] == 78 {
            0
        } else {
            match ByteUtils::parse_u8(flags_part) {
                Ok(v) => v,
                Err(_) => 0,
            }
        }
    }

    /// Try the modern grammar.  On success the record's components are
    /// interned in order (instrument, flowcell, UMI, index); on failure the
    /// tokenizer is untouched.
    pub fn parse_modern_illumina(&mut self, name: &[u8]) -> (r: Result<
        TokenizedReadName,
        TokenizationError,
    >)
        requires
            old(self).wf(),
        ensures
            final(self).wf(),
            final(self).total_reads_processed == old(self).total_reads_processed,
            final(self).successfully_tokenized == old(self).successfully_tokenized,
            r is Ok <==> spec_modern_ok(name@),
            r is Ok ==> ({
                let (d2, rec) = spec_modern_tokenize(dict_view(old(self).dictionary), name@);
                dict_view(final(self).dictionary) == d2 && r->Ok_0 == rec
            }),
            r is Err ==> *final(self) == *old(self),
    {
        let parts = ByteUtils::split_bytes_any(name, 58, 32);
        let ghost p = modern_parts(name@);
        proof {
            assert(parts.deep_view() =~~= p);
        }
        if parts.len() < 7 {
            return Err(TokenizationError::InvalidFormat(
                String::from_str("not modern Illumina format"),
            ));
        }
        proof {
            assert(parts.deep_view()[1] =~= parts@[1]@);
            assert(parts.deep_view()[3] =~= parts@[3]@);
            assert(parts.deep_view()[4] =~= parts@[4]@);
            assert(parts.deep_view()[5] =~= parts@[5]@);
            assert(parts.deep_view()[6] =~= parts@[6]@);
        }
        let run_id = match ByteUtils::parse_u32(parts[1]) {
            Ok(v) => v,
            Err(e) => {
                return Err(e);
            },
        };
        let lane = match ByteUtils::parse_u8(parts[3]) {
            Ok(v) => v,
            Err(e) => {
                return Err(e);
            },
        };
        let tile = match ByteUtils::parse_u16(parts[4]) {
            Ok(v) => v,
            Err(e) => {
                return Err(e);
            },
        };
        let x_coord = match ByteUtils::parse_u32(parts[5]) {
            Ok(v) => v,
            Err(e) => {
                return Err(e);
            },
        };
        let y_coord = match ByteUtils::parse_u32(parts[6]) {
            Ok(v) => v,
            Err(e) => {
                return Err(e);
            },
        };
        proof {
            assert(spec_modern_ok(name@));
            assert(parts.deep_view()[0] =~= parts@[0]@);
            assert(parts.deep_view()[2] =~= parts@[2]@);
        }
        let instrument_id = self.dictionary.add_instrument(parts[0]);
        let flowcell_id = self.dictionary.add_flowcell(parts[2]);
        let umi_id: Option<u16>;
        if parts.len() > 7 && parts[7].len() > 0 {
            proof {
                assert(parts.deep_view()[7] =~= parts@[7]@);
            }
            umi_id = Some(self.dictionary.add_umi(parts[7]));
        } else {
            proof {
                if p.len() > 7 {
                    assert(parts.deep_view()[7] =~= parts@[7]@);
                }
                assert(modern_umi(p) is None);
            }
            umi_id = None;
        }
        let read_num: u8;
        if parts.len() > 8 {
            proof {
                assert(parts.deep_view()[8] =~= parts@[8]@);
            }
            read_num = match ByteUtils::parse_u8(parts[8]) {
                Ok(v) => v,
                Err(_) => 1,
            };
        } else {
            read_num = 1;
        }
        let flags: u8;
        if parts.len() > 9 {
            proof {
                assert(parts.deep_view()[9] =~= parts@[9]@);
            }
            flags = self.parse_flags_from_string(parts[9]);
        } else {
            flags = 0;
        }
        let index_id: Option<u8>;
        if parts.len() > 10 && parts[10].len() > 0 {
            proof {
                assert(parts.deep_view()[10] =~= parts@[10]@);
            }
            index_id = Some(self.dictionary.add_index(parts[10]));
        } else {
            proof {
                if p.len() > 10 {
                    assert(parts.deep_view()[10] =~= parts@[10]@);
                }
                assert(modern_index(p) is None);
            }
            index_id = None;
        }
        Ok(
            TokenizedReadName {
                instrument_id,
                run_id,
                flowcell_id,
                lane,
                tile,
                x_coord,
                y_coord,
                umi_id,
                read_num,
                flags,
                index_id,
            },
        )
    }

    /// Try the legacy grammar.  The run ID is the instrument hash, the
    /// flowcell ID is the legacy marker 0; index and UMI come from the
    /// optional `#`-suffix; on failure the tokenizer is untouched.
    pub fn parse_legacy_illumina(&mut self, name: &[u8]) -> (r: Result<
        TokenizedReadName,
        TokenizationError,
    >)
        requires
            old(self).wf(),
        ensures
            final(self).wf(),
            final(self).total_reads_processed == old(self).total_reads_processed,
            final(self).successfully_tokenized == old(self).successfully_tokenized,
            r is Ok <==> spec_legacy_ok(name@),
            r is Ok ==> ({
                let (d2, rec) = spec_legacy_tokenize(dict_view(old(self).dictionary), name@);
                dict_view(final(self).dictionary) == d2 && r->Ok_0 == rec
            }),
            r is Err ==> *final(self) == *old(self),
    {
        let main_parts = ByteUtils::split_bytes(name, 35);
        proof {
            crate::utils::lemma_split_len(name@, 35, 35);
            assert(main_parts.deep_view() =~~= legacy_main(name@));
            assert(main_parts.deep_view().len() == main_parts@.len());
            assert(main_parts.deep_view()[0] =~= main_parts@[0]@);
        }
        let coordinate_part = main_parts[0];
        let cparts = ByteUtils::split_bytes(coordinate_part, 58);
        let ghost c = legacy_cparts(name@);
        proof {
            assert(cparts.deep_view() =~~= c);
        }
        if cparts.len() != 5 {
            return Err(TokenizationError::InvalidFormat(
                String::from_str("legacy format needs 5 colon-separated parts"),
            ));
        }
        proof {
            assert(cparts.deep_view()[1] =~= cparts@[1]@);
            assert(cparts.deep_view()[2] =~= cparts@[2]@);
            assert(cparts.deep_view()[3] =~= cparts@[3]@);
            assert(cparts.deep_view()[4] =~= cparts@[4]@);
        }
        let lane = match ByteUtils::parse_u8(cparts[1]) {
            Ok(v) => v,
            Err(e) => {
                return Err(e);
            },
        };
        let tile = match ByteUtils::parse_u16(cparts[2]) {
            Ok(v) => v,
            Err(e) => {
                return Err(e);
            },
        };
        let x_coord = match ByteUtils::parse_u32(cparts[3]) {
            Ok(v) => v,
            Err(e) => {
                return Err(e);
            },
        };
        let y_coord = match ByteUtils::parse_u32(cparts[4]) {
            Ok(v) => v,
            Err(e) => {
                return Err(e);
            },
        };
        proof {
            assert(spec_legacy_ok(name@));
            assert(cparts.deep_view()[0] =~= cparts@[0]@);
        }
        let instrument_id = self.dictionary.add_instrument(cparts[0]);
        let run_id = self.hash_string(cparts[0]);
        let index_id: Option<u8>;
        let umi_id: Option<u16>;
        if main_parts.len() > 1 {
            proof {
                assert(main_parts.deep_view()[1] =~= main_parts@[1]@);
            }
            let suffix = main_parts[1];
            match position_of(suffix, 124) {
                Some(pos) => {
                    let suffix_len = suffix.len();
                    proof {
                        assert(pos < suffix_len);
                    }
                    let index_part = vstd::slice::slice_subrange(suffix, 0, pos);
                    let umi_part = vstd::slice::slice_subrange(suffix, pos + 1, suffix_len);
                    proof {
                        assert(index_part@ =~= suffix@.take(pos as int));
                        assert(umi_part@ =~= suffix@.skip(pos as int + 1));
                    }
                    if index_part.len() > 0 {
                        index_id = Some(self.dictionary.add_index(index_part));
                    } else {
                        index_id = None;
                    }
                    if umi_part.len() > 0 {
                        umi_id = Some(self.dictionary.add_umi(umi_part));
                    } else {
                        umi_id = None;
                    }
                },
                None => {
                    if suffix.len() > 0 {
                        index_id = Some(self.dictionary.add_index(suffix));
                    } else {
                        index_id = None;
                    }
                    umi_id = None;
                },
            }
        } else {
            index_id = None;
            umi_id = None;
        }
        Ok(
            TokenizedReadName {
                instrument_id,
                run_id,
                flowcell_id: 0,
                lane,
                tile,
                x_coord,
                y_coord,
                umi_id,
                read_num: 1,
                flags: 0,
                index_id,
            },
        )
    }
}

} // verus!

verus! {

/// The character for one decimal digit.
pub open spec fn digit_char(d: int) -> char {
    if d == 0 {
        '0'
    } else if d == 1 {
        '1'
    } else if d == 2 {
        '2'
    } else if d == 3 {
        '3'
    } else if d == 4 {
        '4'
    } else if d == 5 {
        '5'
    } else if d == 6 {
        '6'
    } else if d == 7 {
        '7'
    } else if d == 8 {
        '8'
    } else {
        '9'
    }
}

/// Decimal rendering of a non-negative number as characters.
pub open spec fn dec_chars(n: int) -> Seq<char>
    decreases n,
{
    if 0 <= n < 10 {
        seq![digit_char(n)]
    } else if n >= 10 {
        dec_chars(n / 10) + seq![digit_char(n % 10)]
    } else {
        Seq::empty()
    }
}

/// Append the decimal rendering of `v` to a string.
fn append_dec_chars(s: &mut String, v: usize)
    ensures
        final(s)@ == old(s)@ + dec_chars(v as int),
    decreases v,
{
    if v >= 10 {
        append_dec_chars(s, v / 10);
    }
    let d = v % 10;
    let ghost mid = s@;
    if d == 0 {
        s.append("0");
        proof {
            reveal_strlit("0");
        }
    } else if d == 1 {
        s.append("1");
        proof {
            reveal_strlit("1");
        }
    } else if d == 2 {
        s.append("2");
        proof {
            reveal_strlit("2");
        }
    } else if d == 3 {
        s.append("3");
        proof {
            reveal_strlit("3");
        }
    } else if d == 4 {
        s.append("4");
        proof {
            reveal_strlit("4");
        }
    } else if d == 5 {
        s.append("5");
        proof {
            reveal_strlit("5");
        }
    } else if d == 6 {
        s.append("6");
        proof {
            reveal_strlit("6");
        }
    } else if d == 7 {
        s.append("7");
        proof {
            reveal_strlit("7");
        }
    } else if d == 8 {
        s.append("8");
        proof {
            reveal_strlit("8");
        }
    } else {
        s.append("9");
        proof {
            reveal_strlit("9");
        }
    }
    proof {
        assert(s@ =~= mid + seq![digit_char(d as int)]);
        if v >= 10 {
            assert(dec_chars(v as int) =~= dec_chars(v as int / 10) + seq![
                digit_char(v as int % 10),
            ]);
            assert(s@ =~= old(s)@ + dec_chars(v as int));
        } else {
            assert(dec_chars(v as int) =~= seq![digit_char(v as int)]);
            assert(s@ =~= old(s)@ + dec_chars(v as int));
        }
    }
}

/// The message of the error a failed single tokenization carries.
pub open spec fn single_error_message(name: Seq<u8>) -> Seq<char> {
    "Unrecognized Illumina format: "@ + lossy_of(name)
}

/// The message of the error a failed batch carries: the offending index,
/// the lossy rendering of the offending name, and the underlying error.
pub open spec fn batch_error_message(i: int, name: Seq<u8>) -> Seq<char> {
    "Failed to tokenize read "@ + dec_chars(i) + " ("@ + lossy_of(name) + "): Invalid format: "@
        + single_error_message(name)
}

impl IlluminaTokenizer {
    /// Tokenize one read name, trying the modern grammar first and the
    /// legacy grammar second.  Names are parsed as raw bytes: the grammars
    /// never require UTF-8 validity, so a non-UTF-8 name that fits a
    /// grammar tokenizes (and detokenizes back to the same bytes).  Does
    /// not touch the counters.
    pub fn tokenize_single(&mut self, read_name: &[u8]) -> (r: Result<
        TokenizedReadName,
        TokenizationError,
    >)
        requires
            old(self).wf(),
        ensures
            final(self).wf(),
            final(self).total_reads_processed == old(self).total_reads_processed,
            final(self).successfully_tokenized == old(self).successfully_tokenized,
            r is Ok <==> spec_single_ok(read_name@),
            r is Ok ==> ({
                let (d2, rec) = spec_tokenize_single(dict_view(old(self).dictionary), read_name@);
                dict_view(final(self).dictionary) == d2 && r->Ok_0 == rec
            }),
            r is Err ==> *final(self) == *old(self) && r->Err_0 is InvalidFormat
                && r->Err_0.spec_message() == single_error_message(read_name@),
    {
        match self.parse_modern_illumina(read_name) {
            Ok(t) => {
                return Ok(t);
            },
            Err(_) => {},
        }
        match self.parse_legacy_illumina(read_name) {
            Ok(t) => {
                return Ok(t);
            },
            Err(_) => {},
        }
        let mut msg = String::from_str("Unrecognized Illumina format: ");
        let lossy = ByteUtils::bytes_to_string_lossy(read_name);
        msg.append(lossy.as_str());
        Err(TokenizationError::InvalidFormat(msg))
    }

    /// Tokenize a whole batch, all or nothing: the first unparseable name
    /// aborts with a parse error naming its index and rendering, leaving
    /// the components of the earlier names interned.
    pub fn tokenize_batch(&mut self, read_names: &[&[u8]]) -> (r: Result<
        Vec<TokenizedReadName>,
        TokenizationError,
    >)
        requires
            old(self).wf(),
            old(self).total_reads_processed + read_names@.len() <= usize::MAX,
            old(self).successfully_tokenized + read_names@.len() <= usize::MAX,
        ensures
            final(self).wf(),
            r is Ok <==> first_bad(read_names.deep_view()) < 0,
            r is Ok ==> ({
                let (d2, recs) = spec_tokenize_all(
                    dict_view(old(self).dictionary),
                    read_names.deep_view(),
                );
                &&& dict_view(final(self).dictionary) == d2
                &&& r->Ok_0@ == recs
                &&& final(self).total_reads_processed == old(self).total_reads_processed
                    + read_names@.len()
                &&& final(self).successfully_tokenized == old(self).successfully_tokenized
                    + read_names@.len()
            }),
            r is Err ==> ({
                let i = first_bad(read_names.deep_view());
                let (d2, recs) = spec_tokenize_all(
                    dict_view(old(self).dictionary),
                    read_names.deep_view().take(i),
                );
                &&& dict_view(final(self).dictionary) == d2
                &&& final(self).total_reads_processed == old(self).total_reads_processed + i + 1
                &&& final(self).successfully_tokenized == old(self).successfully_tokenized + i
                &&& r->Err_0 is ParseError
                &&& r->Err_0.spec_message() == batch_error_message(i, read_names.deep_view()[i])
            }),
    {
        let ghost deep = read_names.deep_view();
        let ghost d0 = dict_view(old(self).dictionary);
        let mut results: Vec<TokenizedReadName> = Vec::new();
        let mut index: usize = 0;
        proof {
            assert(deep.take(0) =~= Seq::<Seq<u8>>::empty());
            lemma_first_bad(deep);
        }
        while index < read_names.len()
            invariant
                0 <= index <= read_names.len(),
                deep == read_names.deep_view(),
                deep.len() == read_names.len(),
                self.wf(),
                forall|j: int| 0 <= j < index ==> spec_single_ok(#[trigger] deep[j]),
                (dict_view(self.dictionary), results@) == spec_tokenize_all(
                    d0,
                    deep.take(index as int),
                ),
                self.total_reads_processed == old(self).total_reads_processed + index,
                self.successfully_tokenized == old(self).successfully_tokenized + index,
                old(self).total_reads_processed + deep.len() <= usize::MAX,
                old(self).successfully_tokenized + deep.len() <= usize::MAX,
                d0 == dict_view(old(self).dictionary),
            decreases read_names.len() - index,
        {
            let name = read_names[index];
            proof {
                assert(deep[index as int] =~= read_names@[index as int]@);
            }
            self.total_reads_processed = self.total_reads_processed + 1;
            let ghost dict_before = dict_view(self.dictionary);
            match self.tokenize_single(name) {
                Ok(tokenized) => {
                    self.successfully_tokenized = self.successfully_tokenized + 1;
                    let ghost rs_before = results@;
                    results.push(tokenized);
                    proof {
                        lemma_tokenize_all_snoc(d0, deep.take(index as int), deep[index as int]);
                        assert(deep.take(index as int).push(deep[index as int]) =~= deep.take(
                            index as int + 1,
                        ));
                    }
                    index += 1;
                },
                Err(e) => {
                    proof {
                        lemma_first_bad(deep);
                        let fb = first_bad(deep);
                        if fb < 0 {
                            assert(spec_single_ok(deep[index as int]));
                        }
                        if 0 <= fb < index as int {
                            assert(spec_single_ok(deep[fb]));
                        }
                        if fb > index as int {
                            assert(spec_single_ok(deep[index as int]));
                        }
                        assert(fb == index as int);
                    }
                    let mut msg = String::from_str("Failed to tokenize read ");
                    append_dec_chars(&mut msg, index);
                    msg.append(" (");
                    let lossy = ByteUtils::bytes_to_string_lossy(name);
                    msg.append(lossy.as_str());
                    msg.append("): Invalid format: ");
                    msg.append(e.message());
                    proof {
                        assert(msg@ =~= batch_error_message(index as int, deep[index as int]));
                    }
                    return Err(TokenizationError::ParseError(msg));
                },
            }
        }
        proof {
            assert(deep.take(deep.len() as int) =~= deep);
            lemma_first_bad(deep);
            let fb = first_bad(deep);
            if fb >= 0 {
                assert(spec_single_ok(deep[fb]));
            }
        }
        Ok(results)
    }
}

} // verus!

verus! {

/// The bytes detokenization renders for a record against the dictionary
/// tables (instruments, flowcells, UMIs, indices).  A `flowcell_id` of 0
/// renders the legacy shape, anything else the modern shape; a modern
/// record holding only the defaults past the coordinates (read number 1,
/// zero flags, no UMI, no index) renders the bare seven-field shape, so
/// tokenizing such a name and detokenizing restores its exact bytes.
/// Dictionary IDs that resolve to no entry are skipped silently, except
/// the instrument, which the executable version rejects up front.
pub open spec fn spec_detokenize(
    t: TokenizedReadName,
    d: (Seq<Seq<u8>>, Seq<Seq<u8>>, Seq<Seq<u8>>, Seq<Seq<u8>>),
) -> Seq<u8>
    recommends
        (t.instrument_id as int) < d.0.len(),
{
    let instrument = d.0[t.instrument_id as int];
    if t.flowcell_id == 0 {
        let base = instrument + seq![58u8] + dec_bytes(t.lane as int) + seq![58u8] + dec_bytes(
            t.tile as int,
        ) + seq![58u8] + dec_bytes(t.x_coord as int) + seq![58u8] + dec_bytes(t.y_coord as int);
        if t.index_id is Some || t.umi_id is Some {
            let with_hash = base + seq![35u8];
            let with_ix = match t.index_id {
                Option::Some(i) => if (i as int) < d.3.len() {
                    with_hash + d.3[i as int]
                } else {
                    with_hash
                },
                Option::None => with_hash,
            };
            match t.umi_id {
                Option::Some(u) => if (u as int) < d.2.len() {
                    with_ix + seq![124u8] + d.2[u as int]
                } else {
                    with_ix
                },
                Option::None => with_ix,
            }
        } else {
            base
        }
    } else {
        let s1 = instrument + seq![58u8] + dec_bytes(t.run_id as int);
        let s2 = if (t.flowcell_id as int) < d.1.len() {
            s1 + seq![58u8] + d.1[t.flowcell_id as int]
        } else {
            s1
        };
        let s3 = s2 + seq![58u8] + dec_bytes(t.lane as int) + seq![58u8] + dec_bytes(t.tile as int)
            + seq![58u8] + dec_bytes(t.x_coord as int) + seq![58u8] + dec_bytes(t.y_coord as int);
        if t.umi_id is Some || t.index_id is Some || t.read_num != 1 || t.flags != 0 {
            let s4 = match t.umi_id {
                Option::Some(u) => if (u as int) < d.2.len() {
                    s3 + seq![58u8] + d.2[u as int]
                } else {
                    s3
                },
                Option::None => s3,
            };
            let s5 = s4 + seq![58u8] + dec_bytes(t.read_num as int) + seq![58u8] + (if t.flags % 2
                == 1 {
                seq![89u8]
            } else {
                seq![78u8]
            });
            match t.index_id {
                Option::Some(i) => if (i as int) < d.3.len() {
                    s5 + seq![58u8] + d.3[i as int]
                } else {
                    s5
                },
                Option::None => s5,
            }
        } else {
            s3
        }
    }
}

/// Little-endian four-byte rendering of an unsigned 32-bit value.
pub open spec fn u32_le(n: int) -> Seq<u8> {
    seq![
        (n % 256) as u8,
        ((n / 256) % 256) as u8,
        ((n / 65536) % 256) as u8,
        ((n / 16777216) % 256) as u8,
    ]
}

/// One dictionary table serialized with u32 little-endian framing.
pub open spec fn items_le(t: Seq<Seq<u8>>) -> Seq<u8>
    decreases t.len(),
{
    if t.len() == 0 {
        Seq::empty()
    } else {
        u32_le(t[0].len() as int) + t[0] + items_le(t.drop_first())
    }
}

pub open spec fn section_le(t: Seq<Seq<u8>>) -> Seq<u8> {
    u32_le(t.len() as int) + items_le(t)
}

/// The whole dictionary serialized: instruments, flowcells, UMIs, indices,
/// each as a u32 count followed by u32-length-framed entries.
pub open spec fn spec_serialize_dict(
    d: (Seq<Seq<u8>>, Seq<Seq<u8>>, Seq<Seq<u8>>, Seq<Seq<u8>>),
) -> Seq<u8> {
    section_le(d.0) + section_le(d.1) + section_le(d.2) + section_le(d.3)
}

/// Append the little-endian bytes of `v`.
pub(crate) fn append_u32_le(out: &mut Vec<u8>, v: u32)
    ensures
        final(out)@ == old(out)@ + u32_le(v as int),
{
    let ghost before = out@;
    out.push((v % 256) as u8);
    out.push(((v / 256) % 256) as u8);
    out.push(((v / 65536) % 256) as u8);
    out.push(((v / 16777216) % 256) as u8);
    proof {
        assert(out@ =~= before + u32_le(v as int));
    }
}

/// Instrument and flowcell tables alone, for display purposes.
#[derive(Debug)]
pub struct ReadNameDictionaryDisplay {
    pub instruments: Vec<Vec<u8>>,
    pub flowcells: Vec<Vec<u8>>,
}

/// Copy one table of byte strings.
fn copy_table(table: &Vec<Vec<u8>>) -> (r: Vec<Vec<u8>>)
    ensures
        r.deep_view() == table.deep_view(),
{
    let mut out: Vec<Vec<u8>> = Vec::new();
    let mut i: usize = 0;
    while i < table.len()
        invariant
            0 <= i <= table.len(),
            out@.len() == i,
            forall|j: int| 0 <= j < i ==> out.deep_view()[j] == table.deep_view()[j],
        decreases table.len() - i,
    {
        let ghost before = out.deep_view();
        out.push(vstd::slice::slice_to_vec(table[i].as_slice()));
        proof {
            assert(out.deep_view() =~~= before.push(table@[i as int]@));
            assert(table.deep_view()[i as int] == table@[i as int].deep_view());
            assert(table@[i as int].deep_view() =~= table@[i as int]@);
        }
        i += 1;
    }
    proof {
        assert(out.deep_view() =~~= table.deep_view());
    }
    out
}

impl IlluminaTokenizer {
    /// Render a record back into its read-name bytes: the exact inverse of
    /// tokenization on names it can represent, omitting the default tail
    /// (read number 1, flag `N`) when no optional field is present.  Fails
    /// exactly when the instrument ID resolves to no dictionary entry.
    #[verifier::rlimit(100)]
    pub fn detokenize(&self, tokenized: &TokenizedReadName) -> (r: Result<
        Vec<u8>,
        TokenizationError,
    >)
        ensures
            r is Ok <==> (tokenized.instrument_id as int) < self.dictionary.instruments.len(),
            r is Ok ==> r->Ok_0@ == spec_detokenize(*tokenized, dict_view(self.dictionary)),
            r is Err ==> r->Err_0 is InvalidFormat,
    {
        let instrument = match self.dictionary.get_instrument(tokenized.instrument_id) {
            Some(b) => b,
            None => {
                let mut msg = String::from_str("Instrument ID ");
                append_dec_chars(&mut msg, tokenized.instrument_id as usize);
                msg.append(" not found");
                return Err(TokenizationError::InvalidFormat(msg));
            },
        };
        let mut name: Vec<u8> = Vec::new();
        name.extend_from_slice(instrument);
        if tokenized.flowcell_id == 0 {
            name.push(58);
            crate::utils::push_dec_u32(&mut name, tokenized.lane as u32);
            name.push(58);
            crate::utils::push_dec_u32(&mut name, tokenized.tile as u32);
            name.push(58);
            crate::utils::push_dec_u32(&mut name, tokenized.x_coord);
            name.push(58);
            crate::utils::push_dec_u32(&mut name, tokenized.y_coord);
            if tokenized.index_id.is_some() || tokenized.umi_id.is_some() {
                name.push(35);
                if let Some(index_id) = tokenized.index_id {
                    if let Some(index) = self.dictionary.get_index(index_id) {
                        name.extend_from_slice(index);
                    }
                }
                if let Some(umi_id) = tokenized.umi_id {
                    if let Some(umi) = self.dictionary.get_umi(umi_id) {
                        name.push(124);
                        name.extend_from_slice(umi);
                    }
                }
            }
        } else {
            name.push(58);
            crate::utils::push_dec_u32(&mut name, tokenized.run_id);
            if let Some(flowcell) = self.dictionary.get_flowcell(tokenized.flowcell_id) {
                name.push(58);
                name.extend_from_slice(flowcell);
            }
            name.push(58);
            crate::utils::push_dec_u32(&mut name, tokenized.lane as u32);
            name.push(58);
            crate::utils::push_dec_u32(&mut name, tokenized.tile as u32);
            name.push(58);
            crate::utils::push_dec_u32(&mut name, tokenized.x_coord);
            name.push(58);
            crate::utils::push_dec_u32(&mut name, tokenized.y_coord);
            if tokenized.umi_id.is_some() || tokenized.index_id.is_some()
                || tokenized.read_num != 1 || tokenized.flags != 0 {
                if let Some(umi_id) = tokenized.umi_id {
                    if let Some(umi) = self.dictionary.get_umi(umi_id) {
                        name.push(58);
                        name.extend_from_slice(umi);
                    }
                }
                name.push(58);
                crate::utils::push_dec_u32(&mut name, tokenized.read_num as u32);
                name.push(58);
                if tokenized.flags % 2 == 1 {
                    name.push(89);
                } else {
                    name.push(78);
                }
                if let Some(index_id) = tokenized.index_id {
                    if let Some(index) = self.dictionary.get_index(index_id) {
                        name.push(58);
                        name.extend_from_slice(index);
                    }
                }
            }
        }
        proof {
            assert(name@ =~= spec_detokenize(*tokenized, dict_view(self.dictionary)));
        }
        Ok(name)
    }

    /// The dictionary driven by this tokenizer.
    pub fn get_dictionary(&self) -> (r: &ReadNameDictionary)
        ensures
            *r == self.dictionary,
    {
        &self.dictionary
    }

    /// Mutable access to the dictionary.
    pub fn get_dictionary_mut(&mut self) -> (r: &mut ReadNameDictionary)
        ensures
            *r == old(self).dictionary,
            final(self).dictionary == *final(r),
            final(self).total_reads_processed == old(self).total_reads_processed,
            final(self).successfully_tokenized == old(self).successfully_tokenized,
    {
        &mut self.dictionary
    }

    /// Total number of entries across the four tables.
    pub fn dictionary_size(&self) -> (n: usize)
        requires
            self.wf(),
        ensures
            n == self.dictionary.instruments.len() + self.dictionary.flowcells.len()
                + self.dictionary.umis.len() + self.dictionary.indices.len(),
    {
        let (instruments, flowcells, umis, indices) = self.dictionary.entry_counts();
        instruments + flowcells + umis + indices
    }

    /// Serialize the dictionary with u32 little-endian counts and lengths.
    pub fn serialize_dictionary(&self) -> (r: Vec<u8>)
        requires
            self.wf(),
            forall|i: int|
                0 <= i < self.dictionary.instruments@.len()
                    ==> (#[trigger] self.dictionary.instruments@[i])@.len() <= u32::MAX,
            forall|i: int|
                0 <= i < self.dictionary.flowcells@.len()
                    ==> (#[trigger] self.dictionary.flowcells@[i])@.len() <= u32::MAX,
            forall|i: int|
                0 <= i < self.dictionary.umis@.len()
                    ==> (#[trigger] self.dictionary.umis@[i])@.len() <= u32::MAX,
            forall|i: int|
                0 <= i < self.dictionary.indices@.len()
                    ==> (#[trigger] self.dictionary.indices@[i])@.len() <= u32::MAX,
        ensures
            r@ == spec_serialize_dict(dict_view(self.dictionary)),
    {
        let mut result: Vec<u8> = Vec::new();
        append_section_le(&mut result, &self.dictionary.instruments);
        append_section_le(&mut result, &self.dictionary.flowcells);
        append_section_le(&mut result, &self.dictionary.umis);
        append_section_le(&mut result, &self.dictionary.indices);
        proof {
            assert(result@ =~= spec_serialize_dict(dict_view(self.dictionary)));
        }
        result
    }

    /// Zero the processed and tokenized counters.
    pub fn reset_stats(&mut self)
        ensures
            final(self).total_reads_processed == 0,
            final(self).successfully_tokenized == 0,
            final(self).dictionary == old(self).dictionary,
    {
        self.total_reads_processed = 0;
        self.successfully_tokenized = 0;
    }

    /// Replace the dictionary with a fresh one.
    pub fn clear_dictionary(&mut self)
        ensures
            final(self).wf(),
            final(self).dictionary.instruments.len() == 0,
            final(self).dictionary.flowcells.deep_view() =~~= seq![Seq::<u8>::empty()],
            final(self).dictionary.umis.len() == 0,
            final(self).dictionary.indices.len() == 0,
            final(self).total_reads_processed == old(self).total_reads_processed,
            final(self).successfully_tokenized == old(self).successfully_tokenized,
    {
        self.dictionary = ReadNameDictionary::new();
    }

    /// Whether the dictionary holds no entries beyond the reserved flowcell
    /// slot.
    pub fn is_empty(&self) -> (r: bool)
        ensures
            r == (self.dictionary.instruments.len() == 0 && self.dictionary.flowcells.len() <= 1
                && self.dictionary.umis.len() == 0 && self.dictionary.indices.len() == 0),
    {
        let (instruments, flowcells, umis, indices) = self.dictionary.entry_counts();
        instruments == 0 && flowcells <= 1 && umis == 0 && indices == 0
    }

    /// Copies of the instrument and flowcell tables for display.
    pub fn get_dictionary_for_display(&self) -> (r: ReadNameDictionaryDisplay)
        ensures
            r.instruments.deep_view() == self.dictionary.instruments.deep_view(),
            r.flowcells.deep_view() == self.dictionary.flowcells.deep_view(),
    {
        ReadNameDictionaryDisplay {
            instruments: copy_table(&self.dictionary.instruments),
            flowcells: copy_table(&self.dictionary.flowcells),
        }
    }
}

/// Append one u32-framed dictionary section.
fn append_section_le(out: &mut Vec<u8>, table: &Vec<Vec<u8>>)
    requires
        table@.len() <= 65535,
        forall|i: int| 0 <= i < table@.len() ==> (#[trigger] table@[i])@.len() <= u32::MAX,
    ensures
        final(out)@ == old(out)@ + section_le(table.deep_view()),
{
    let ghost t = table.deep_view();
    let ghost start = out@;
    append_u32_le(out, table.len() as u32);
    let mut i: usize = 0;
    proof {
        assert(t.skip(0) =~= t);
        assert(out@ + items_le(t) =~= start + section_le(t));
    }
    while i < table.len()
        invariant
            0 <= i <= table.len(),
            t == table.deep_view(),
            t.len() == table@.len(),
            forall|k: int| 0 <= k < table@.len() ==> (#[trigger] table@[k])@.len() <= u32::MAX,
            out@ + items_le(t.skip(i as int)) =~= start + section_le(t),
        decreases table.len() - i,
    {
        let ghost before = out@;
        proof {
            assert(t[i as int] == table@[i as int].deep_view());
            assert(table@[i as int].deep_view() =~= table@[i as int]@);
        }
        append_u32_le(out, table[i].len() as u32);
        out.extend_from_slice(table[i].as_slice());
        proof {
            let tail = t.skip(i as int);
            assert(tail[0] == t[i as int]);
            assert(tail.drop_first() =~= t.skip(i + 1));
            assert(items_le(tail) =~= u32_le(t[i as int].len() as int) + t[i as int] + items_le(
                t.skip(i + 1),
            ));
            assert(out@ =~= before + u32_le(t[i as int].len() as int) + t[i as int]);
        }
        i += 1;
    }
    proof {
        assert(t.skip(t.len() as int) =~= Seq::<Seq<u8>>::empty());
    }
}

} // verus!

verus! {

/// Modern round trip: detokenize after tokenize is the identity on
/// canonical modern read names.  A canonical name carries all eleven
/// fields, its numbers in canonical decimal form, its flags field `Y` or
/// `N`, and its string fields non-empty and free of the `:` and space
/// delimiters; the dictionary must be below capacity with the reserved
/// empty flowcell at slot 0.
pub proof fn lemma_modern_round_trip(
    d: (Seq<Seq<u8>>, Seq<Seq<u8>>, Seq<Seq<u8>>, Seq<Seq<u8>>),
    instrument: Seq<u8>,
    run: int,
    flowcell: Seq<u8>,
    lane: int,
    tile: int,
    x: int,
    y: int,
    umi: Seq<u8>,
    read_num: int,
    flags_yes: bool,
    index: Seq<u8>,
)
    requires
        crate::dictionary::table_unique(d.0),
        crate::dictionary::table_unique(d.1),
        crate::dictionary::table_unique(d.2),
        crate::dictionary::table_unique(d.3),
        d.0.len() < 255,
        d.1.len() < 255,
        d.2.len() < 65535,
        d.3.len() < 255,
        d.1.len() >= 1 && d.1[0] == Seq::<u8>::empty(),
        instrument.len() > 0 && delim_free(instrument, 58, 32),
        flowcell.len() > 0 && delim_free(flowcell, 58, 32),
        umi.len() > 0 && delim_free(umi, 58, 32),
        index.len() > 0 && delim_free(index, 58, 32),
        0 <= run <= u32::MAX,
        0 <= lane <= u8::MAX,
        0 <= tile <= u16::MAX,
        0 <= x <= u32::MAX,
        0 <= y <= u32::MAX,
        0 <= read_num <= u8::MAX,
    ensures
        ({
            let parts = seq![
                instrument,
                dec_bytes(run),
                flowcell,
                dec_bytes(lane),
                dec_bytes(tile),
                dec_bytes(x),
                dec_bytes(y),
                umi,
                dec_bytes(read_num),
                if flags_yes {
                    seq![89u8]
                } else {
                    seq![78u8]
                },
                index,
            ];
            let name = crate::utils::join_bytes(parts, 58);
            &&& spec_modern_ok(name)
            &&& ({
                let (d2, rec) = spec_modern_tokenize(d, name);
                rec.flowcell_id != 0 && spec_detokenize(rec, d2) =~= name
            })
        }),
{
    let fl: Seq<u8> = if flags_yes {
        seq![89u8]
    } else {
        seq![78u8]
    };
    let parts = seq![
        instrument,
        dec_bytes(run),
        flowcell,
        dec_bytes(lane),
        dec_bytes(tile),
        dec_bytes(x),
        dec_bytes(y),
        umi,
        dec_bytes(read_num),
        fl,
        index,
    ];
    let name = crate::utils::join_bytes(parts, 58);
    crate::utils::lemma_dec_bytes_val(run);
    crate::utils::lemma_dec_bytes_val(lane);
    crate::utils::lemma_dec_bytes_val(tile);
    crate::utils::lemma_dec_bytes_val(x);
    crate::utils::lemma_dec_bytes_val(y);
    crate::utils::lemma_dec_bytes_val(read_num);
    assert forall|i: int| 0 <= i < parts.len() implies delim_free(#[trigger] parts[i], 58, 32) by {
        assert(delim_free(dec_bytes(run), 58, 32)) by {
            assert(forall|j: int|
                0 <= j < dec_bytes(run).len() ==> crate::utils::is_digit(
                    #[trigger] dec_bytes(run)[j],
                ));
        }
        assert(delim_free(dec_bytes(lane), 58, 32)) by {
            assert(forall|j: int|
                0 <= j < dec_bytes(lane).len() ==> crate::utils::is_digit(
                    #[trigger] dec_bytes(lane)[j],
                ));
        }
        assert(delim_free(dec_bytes(tile), 58, 32)) by {
            assert(forall|j: int|
                0 <= j < dec_bytes(tile).len() ==> crate::utils::is_digit(
                    #[trigger] dec_bytes(tile)[j],
                ));
        }
        assert(delim_free(dec_bytes(x), 58, 32)) by {
            assert(forall|j: int|
                0 <= j < dec_bytes(x).len() ==> crate::utils::is_digit(#[trigger] dec_bytes(x)[j]));
        }
        assert(delim_free(dec_bytes(y), 58, 32)) by {
            assert(forall|j: int|
                0 <= j < dec_bytes(y).len() ==> crate::utils::is_digit(#[trigger] dec_bytes(y)[j]));
        }
        assert(delim_free(dec_bytes(read_num), 58, 32)) by {
            assert(forall|j: int|
                0 <= j < dec_bytes(read_num).len() ==> crate::utils::is_digit(
                    #[trigger] dec_bytes(read_num)[j],
                ));
        }
        assert(delim_free(fl, 58, 32));
    }
    crate::utils::lemma_split_join(parts, 58, 32);
    assert(modern_parts(name) =~~= parts);
    let p = modern_parts(name);
    assert(p[0] == instrument && p[1] == dec_bytes(run) && p[2] == flowcell && p[3] == dec_bytes(
        lane,
    ) && p[4] == dec_bytes(tile) && p[5] == dec_bytes(x) && p[6] == dec_bytes(y) && p[7] == umi
        && p[8] == dec_bytes(read_num) && p[9] == fl && p[10] == index);
    assert(spec_modern_ok(name));
    // the four interning steps resolve back to the interned bytes
    crate::dictionary::lemma_intern_get(d.0, instrument, 255);
    crate::dictionary::lemma_intern_wf(d.0, instrument, 255);
    crate::dictionary::lemma_intern_get(d.1, flowcell, 255);
    crate::dictionary::lemma_intern_wf(d.1, flowcell, 255);
    crate::dictionary::lemma_intern_get(d.2, umi, 65535);
    crate::dictionary::lemma_intern_wf(d.2, umi, 65535);
    crate::dictionary::lemma_intern_get(d.3, index, 255);
    crate::dictionary::lemma_intern_wf(d.3, index, 255);
    let (d2, rec) = spec_modern_tokenize(d, name);
    let (ins1, iid) = crate::dictionary::spec_intern(d.0, instrument, 255);
    let (fc1, fid) = crate::dictionary::spec_intern(d.1, flowcell, 255);
    let (um1, uid) = crate::dictionary::spec_intern(d.2, umi, 65535);
    let (ix1, xid) = crate::dictionary::spec_intern(d.3, index, 255);
    assert(modern_umi(p) == Some(umi));
    assert(modern_index(p) == Some(index));
    assert(modern_read_num(p) == read_num);
    assert(modern_flags(p) == if flags_yes {
        1int
    } else {
        0int
    });
    // the flowcell resolves to a non-zero slot: slot 0 keeps the reserved
    // empty entry, and the flowcell bytes are non-empty
    assert(fc1[0] == Seq::<u8>::empty()) by {
        if !d.1.contains(flowcell) && d.1.len() < 255 {
            assert(fc1 == d.1.push(flowcell));
            assert(fc1[0] == d.1[0]);
        }
    }
    assert(fc1[fid] == flowcell);
    assert(fid != 0);
    assert(rec.flowcell_id != 0);
    // every rendered field equals the canonical field it came from
    assert(rec.instrument_id as int == iid);
    assert(d2.0 == ins1 && d2.1 == fc1 && d2.2 == um1 && d2.3 == ix1);
    assert(d2.0[rec.instrument_id as int] == instrument);
    assert(d2.1[rec.flowcell_id as int] == flowcell);
    assert(rec.umi_id is Some && d2.2[rec.umi_id->0 as int] == umi);
    assert(rec.index_id is Some && d2.3[rec.index_id->0 as int] == index);
    assert(dec_bytes(rec.run_id as int) == dec_bytes(run));
    assert(dec_bytes(rec.lane as int) == dec_bytes(lane));
    assert(dec_bytes(rec.tile as int) == dec_bytes(tile));
    assert(dec_bytes(rec.x_coord as int) == dec_bytes(x));
    assert(dec_bytes(rec.y_coord as int) == dec_bytes(y));
    assert(dec_bytes(rec.read_num as int) == dec_bytes(read_num));
    assert(rec.flags as int == if flags_yes {
        1int
    } else {
        0int
    });
    // unfold the join into its right-nested suffix form
    let rendered = spec_detokenize(rec, d2);
    let q1 = seq![
        dec_bytes(run),
        flowcell,
        dec_bytes(lane),
        dec_bytes(tile),
        dec_bytes(x),
        dec_bytes(y),
        umi,
        dec_bytes(read_num),
        fl,
        index,
    ];
    let q2 = q1.drop_first();
    let q3 = q2.drop_first();
    let q4 = q3.drop_first();
    let q5 = q4.drop_first();
    let q6 = q5.drop_first();
    let q7 = q6.drop_first();
    let q8 = q7.drop_first();
    let q9 = q8.drop_first();
    let q10 = q9.drop_first();
    let r10 = index;
    let r9 = fl + seq![58u8] + r10;
    let r8 = dec_bytes(read_num) + seq![58u8] + r9;
    let r7 = umi + seq![58u8] + r8;
    let r6 = dec_bytes(y) + seq![58u8] + r7;
    let r5 = dec_bytes(x) + seq![58u8] + r6;
    let r4 = dec_bytes(tile) + seq![58u8] + r5;
    let r3 = dec_bytes(lane) + seq![58u8] + r4;
    let r2 = flowcell + seq![58u8] + r3;
    let r1 = dec_bytes(run) + seq![58u8] + r2;
    let r0 = instrument + seq![58u8] + r1;
    assert(parts.drop_first() =~= q1);
    assert(q10 =~= seq![index]);
    assert(crate::utils::join_bytes(q10, 58) == r10);
    assert(crate::utils::join_bytes(q9, 58) == r9);
    assert(crate::utils::join_bytes(q8, 58) == r8);
    assert(crate::utils::join_bytes(q7, 58) == r7);
    assert(crate::utils::join_bytes(q6, 58) == r6);
    assert(crate::utils::join_bytes(q5, 58) == r5);
    assert(crate::utils::join_bytes(q4, 58) == r4);
    assert(crate::utils::join_bytes(q3, 58) == r3);
    assert(crate::utils::join_bytes(q2, 58) == r2);
    assert(crate::utils::join_bytes(q1, 58) == r1);
    assert(name == r0);
    // the rendering is the same fields, left-grouped
    assert(rendered == instrument + seq![58u8] + dec_bytes(run) + seq![58u8] + flowcell
        + seq![58u8] + dec_bytes(lane) + seq![58u8] + dec_bytes(tile) + seq![58u8] + dec_bytes(x)
        + seq![58u8] + dec_bytes(y) + seq![58u8] + umi + seq![58u8] + dec_bytes(read_num)
        + seq![58u8] + fl + seq![58u8] + index);
    lemma_concat_regroup(
        instrument,
        dec_bytes(run),
        flowcell,
        dec_bytes(lane),
        dec_bytes(tile),
        dec_bytes(x),
        dec_bytes(y),
        umi,
        dec_bytes(read_num),
        fl,
        index,
        58,
    );
    assert(rendered =~= name);
}

/// Reassociating an eleven-field delimiter-joined concatenation: the
/// left-nested and right-nested groupings are the same byte sequence.
#[verifier::spinoff_prover]
#[verifier::rlimit(100)]
proof fn lemma_concat_regroup(
    a0: Seq<u8>,
    a1: Seq<u8>,
    a2: Seq<u8>,
    a3: Seq<u8>,
    a4: Seq<u8>,
    a5: Seq<u8>,
    a6: Seq<u8>,
    a7: Seq<u8>,
    a8: Seq<u8>,
    a9: Seq<u8>,
    a10: Seq<u8>,
    d: u8,
)
    ensures
        ({
            let r9 = a9 + seq![d] + a10;
            let r8 = a8 + seq![d] + r9;
            let r7 = a7 + seq![d] + r8;
            let r6 = a6 + seq![d] + r7;
            let r5 = a5 + seq![d] + r6;
            let r4 = a4 + seq![d] + r5;
            let r3 = a3 + seq![d] + r4;
            let r2 = a2 + seq![d] + r3;
            let r1 = a1 + seq![d] + r2;
            let r0 = a0 + seq![d] + r1;
            a0 + seq![d] + a1 + seq![d] + a2 + seq![d] + a3 + seq![d] + a4 + seq![d] + a5 + seq![d]
                + a6 + seq![d] + a7 + seq![d] + a8 + seq![d] + a9 + seq![d] + a10 =~= r0
        }),
{
}

} // verus!

verus! {

/// Reassociating a seven-field delimiter-joined concatenation: the
/// left-nested and right-nested groupings are the same byte sequence.
#[verifier::spinoff_prover]
#[verifier::rlimit(100)]
proof fn lemma_concat_regroup7(
    a0: Seq<u8>,
    a1: Seq<u8>,
    a2: Seq<u8>,
    a3: Seq<u8>,
    a4: Seq<u8>,
    a5: Seq<u8>,
    a6: Seq<u8>,
    d: u8,
)
    ensures
        ({
            let r5 = a5 + seq![d] + a6;
            let r4 = a4 + seq![d] + r5;
            let r3 = a3 + seq![d] + r4;
            let r2 = a2 + seq![d] + r3;
            let r1 = a1 + seq![d] + r2;
            let r0 = a0 + seq![d] + r1;
            a0 + seq![d] + a1 + seq![d] + a2 + seq![d] + a3 + seq![d] + a4 + seq![d] + a5 + seq![d]
                + a6 =~= r0
        }),
{
}

/// Bare modern round trip: a canonical seven-field modern read name (no
/// UMI, read-number, flags or index field) survives tokenize-then-
/// detokenize exactly, because the renderer omits the default tail.  The
/// name's numbers must be in canonical decimal form, its string fields
/// non-empty and free of the `:` and space delimiters, and the dictionary
/// below capacity with the reserved empty flowcell at slot 0.
pub proof fn lemma_modern_round_trip_bare(
    d: (Seq<Seq<u8>>, Seq<Seq<u8>>, Seq<Seq<u8>>, Seq<Seq<u8>>),
    instrument: Seq<u8>,
    run: int,
    flowcell: Seq<u8>,
    lane: int,
    tile: int,
    x: int,
    y: int,
)
    requires
        crate::dictionary::table_unique(d.0),
        crate::dictionary::table_unique(d.1),
        d.0.len() < 255,
        d.1.len() < 255,
        d.1.len() >= 1 && d.1[0] == Seq::<u8>::empty(),
        instrument.len() > 0 && delim_free(instrument, 58, 32),
        flowcell.len() > 0 && delim_free(flowcell, 58, 32),
        0 <= run <= u32::MAX,
        0 <= lane <= u8::MAX,
        0 <= tile <= u16::MAX,
        0 <= x <= u32::MAX,
        0 <= y <= u32::MAX,
    ensures
        ({
            let parts = seq![
                instrument,
                dec_bytes(run),
                flowcell,
                dec_bytes(lane),
                dec_bytes(tile),
                dec_bytes(x),
                dec_bytes(y),
            ];
            let name = crate::utils::join_bytes(parts, 58);
            &&& spec_modern_ok(name)
            &&& ({
                let (d2, rec) = spec_modern_tokenize(d, name);
                rec.flowcell_id != 0 && spec_detokenize(rec, d2) =~= name
            })
        }),
{
    let parts = seq![
        instrument,
        dec_bytes(run),
        flowcell,
        dec_bytes(lane),
        dec_bytes(tile),
        dec_bytes(x),
        dec_bytes(y),
    ];
    let name = crate::utils::join_bytes(parts, 58);
    crate::utils::lemma_dec_bytes_val(run);
    crate::utils::lemma_dec_bytes_val(lane);
    crate::utils::lemma_dec_bytes_val(tile);
    crate::utils::lemma_dec_bytes_val(x);
    crate::utils::lemma_dec_bytes_val(y);
    assert forall|i: int| 0 <= i < parts.len() implies delim_free(#[trigger] parts[i], 58, 32) by {
        assert(delim_free(dec_bytes(run), 58, 32)) by {
            assert(forall|j: int|
                0 <= j < dec_bytes(run).len() ==> crate::utils::is_digit(
                    #[trigger] dec_bytes(run)[j],
                ));
        }
        assert(delim_free(dec_bytes(lane), 58, 32)) by {
            assert(forall|j: int|
                0 <= j < dec_bytes(lane).len() ==> crate::utils::is_digit(
                    #[trigger] dec_bytes(lane)[j],
                ));
        }
        assert(delim_free(dec_bytes(tile), 58, 32)) by {
            assert(forall|j: int|
                0 <= j < dec_bytes(tile).len() ==> crate::utils::is_digit(
                    #[trigger] dec_bytes(tile)[j],
                ));
        }
        assert(delim_free(dec_bytes(x), 58, 32)) by {
            assert(forall|j: int|
                0 <= j < dec_bytes(x).len() ==> crate::utils::is_digit(#[trigger] dec_bytes(x)[j]));
        }
        assert(delim_free(dec_bytes(y), 58, 32)) by {
            assert(forall|j: int|
                0 <= j < dec_bytes(y).len() ==> crate::utils::is_digit(#[trigger] dec_bytes(y)[j]));
        }
    }
    crate::utils::lemma_split_join(parts, 58, 32);
    assert(modern_parts(name) =~~= parts);
    let p = modern_parts(name);
    assert(p[0] == instrument && p[1] == dec_bytes(run) && p[2] == flowcell && p[3] == dec_bytes(
        lane,
    ) && p[4] == dec_bytes(tile) && p[5] == dec_bytes(x) && p[6] == dec_bytes(y));
    assert(spec_modern_ok(name));
    crate::dictionary::lemma_intern_get(d.0, instrument, 255);
    crate::dictionary::lemma_intern_wf(d.0, instrument, 255);
    crate::dictionary::lemma_intern_get(d.1, flowcell, 255);
    crate::dictionary::lemma_intern_wf(d.1, flowcell, 255);
    let (d2, rec) = spec_modern_tokenize(d, name);
    let (ins1, iid) = crate::dictionary::spec_intern(d.0, instrument, 255);
    let (fc1, fid) = crate::dictionary::spec_intern(d.1, flowcell, 255);
    assert(modern_umi(p) is None);
    assert(modern_index(p) is None);
    assert(modern_read_num(p) == 1);
    assert(modern_flags(p) == 0);
    assert(rec.umi_id is None && rec.index_id is None && rec.read_num == 1 && rec.flags == 0);
    assert(fc1[0] == Seq::<u8>::empty()) by {
        if !d.1.contains(flowcell) && d.1.len() < 255 {
            assert(fc1 == d.1.push(flowcell));
            assert(fc1[0] == d.1[0]);
        }
    }
    assert(fc1[fid] == flowcell);
    assert(fid != 0);
    assert(rec.flowcell_id != 0);
    assert(rec.instrument_id as int == iid);
    assert(d2.0 == ins1 && d2.1 == fc1);
    assert(d2.0[rec.instrument_id as int] == instrument);
    assert(d2.1[rec.flowcell_id as int] == flowcell);
    assert(dec_bytes(rec.run_id as int) == dec_bytes(run));
    assert(dec_bytes(rec.lane as int) == dec_bytes(lane));
    assert(dec_bytes(rec.tile as int) == dec_bytes(tile));
    assert(dec_bytes(rec.x_coord as int) == dec_bytes(x));
    assert(dec_bytes(rec.y_coord as int) == dec_bytes(y));
    // unfold the join into its right-nested suffix form
    let rendered = spec_detokenize(rec, d2);
    let q1 = seq![dec_bytes(run), flowcell, dec_bytes(lane), dec_bytes(tile), dec_bytes(x), dec_bytes(y)];
    let q2 = q1.drop_first();
    let q3 = q2.drop_first();
    let q4 = q3.drop_first();
    let q5 = q4.drop_first();
    let q6 = q5.drop_first();
    let r6 = dec_bytes(y);
    let r5 = dec_bytes(x) + seq![58u8] + r6;
    let r4 = dec_bytes(tile) + seq![58u8] + r5;
    let r3 = dec_bytes(lane) + seq![58u8] + r4;
    let r2 = flowcell + seq![58u8] + r3;
    let r1 = dec_bytes(run) + seq![58u8] + r2;
    let r0 = instrument + seq![58u8] + r1;
    assert(parts.drop_first() =~= q1);
    assert(q6 =~= seq![dec_bytes(y)]);
    assert(crate::utils::join_bytes(q6, 58) == r6);
    assert(crate::utils::join_bytes(q5, 58) == r5);
    assert(crate::utils::join_bytes(q4, 58) == r4);
    assert(crate::utils::join_bytes(q3, 58) == r3);
    assert(crate::utils::join_bytes(q2, 58) == r2);
    assert(crate::utils::join_bytes(q1, 58) == r1);
    assert(name == r0);
    // the rendering stops after the coordinates: no tail is emitted
    assert(rendered == instrument + seq![58u8] + dec_bytes(run) + seq![58u8] + flowcell
        + seq![58u8] + dec_bytes(lane) + seq![58u8] + dec_bytes(tile) + seq![58u8] + dec_bytes(x)
        + seq![58u8] + dec_bytes(y));
    lemma_concat_regroup7(
        instrument,
        dec_bytes(run),
        flowcell,
        dec_bytes(lane),
        dec_bytes(tile),
        dec_bytes(x),
        dec_bytes(y),
        58,
    );
    assert(rendered =~= name);
}

} // verus!
