//! Pattern analysis over batches of read names.
//!
//! Classifies a batch into one of four shapes and decides whether the
//! tokenizing codec is worth running.  All thresholds are evaluated with
//! exact integer arithmetic: a fraction `count/total > p/q` is tested as
//! `q*count > p*total`.

use vstd::prelude::*;

use crate::utils::{spec_count_byte, spec_split, spec_common_prefix, ByteUtils};

verus! {

/// Detected shape of a batch of read names.
#[derive(Debug, Clone, PartialEq, Eq, Structural)]
pub enum ReadNamePattern {
    Illumina,
    PacBio,
    Custom,
    Unstructured,
}

/// Colon-structured Illumina name: at least six colons and at least seven
/// colon-separated parts.
pub open spec fn spec_is_illumina(name: Seq<u8>) -> bool {
    spec_count_byte(name, 58) >= 6 && spec_split(name, 58, 58).len() >= 7
}

/// Slash-structured PacBio name: exactly two `/` separators.
pub open spec fn spec_is_pacbio(name: Seq<u8>) -> bool {
    spec_count_byte(name, 47) == 2
}

/// How many names of the batch match the Illumina shape.
pub open spec fn illumina_count(names: Seq<Seq<u8>>) -> int
    decreases names.len(),
{
    if names.len() == 0 {
        0
    } else {
        illumina_count(names.drop_last()) + if spec_is_illumina(names.last()) {
            1int
        } else {
            0int
        }
    }
}

/// How many names of the batch match the PacBio shape.
pub open spec fn pacbio_count(names: Seq<Seq<u8>>) -> int
    decreases names.len(),
{
    if names.len() == 0 {
        0
    } else {
        pacbio_count(names.drop_last()) + if spec_is_pacbio(names.last()) {
            1int
        } else {
            0int
        }
    }
}

/// Minimum over the batch of the common-prefix length against `first`.
pub open spec fn min_prefix_against(names: Seq<Seq<u8>>, first: Seq<u8>) -> int
    decreases names.len(),
{
    if names.len() == 0 {
        first.len() as int
    } else {
        let rest = min_prefix_against(names.drop_last(), first);
        let last = spec_common_prefix(first, names.last());
        if last < rest {
            last
        } else {
            rest
        }
    }
}

/// Batch of at least two names whose minimum common prefix against the first
/// name exceeds a third of the first name's length.
pub open spec fn spec_has_custom(names: Seq<Seq<u8>>) -> bool {
    names.len() >= 2 && min_prefix_against(names, names[0]) > names[0].len() as int / 3
}

/// The classification rule, evaluated in order.
pub open spec fn spec_detect(names: Seq<Seq<u8>>) -> ReadNamePattern {
    if names.len() == 0 {
        ReadNamePattern::Unstructured
    } else if 5 * illumina_count(names) > 4 * names.len() {
        ReadNamePattern::Illumina
    } else if 5 * pacbio_count(names) > 4 * names.len() {
        ReadNamePattern::PacBio
    } else if spec_has_custom(names) {
        ReadNamePattern::Custom
    } else {
        ReadNamePattern::Unstructured
    }
}

/// Whether the byte value `b` occurs anywhere in the batch.
pub open spec fn byte_occurs(names: Seq<Seq<u8>>, b: u8) -> bool {
    exists|i: int, j: int|
        0 <= i < names.len() && 0 <= j < names[i].len() && #[trigger] names[i][j] == b
}

/// Number of distinct byte values below `n` occurring in the batch.
pub open spec fn distinct_below(names: Seq<Seq<u8>>, n: int) -> int
    decreases n,
{
    if n <= 0 {
        0
    } else {
        distinct_below(names, n - 1) + if byte_occurs(names, (n - 1) as u8) {
            1int
        } else {
            0int
        }
    }
}

/// Total number of bytes in the batch.
pub open spec fn total_len(names: Seq<Seq<u8>>) -> int
    decreases names.len(),
{
    if names.len() == 0 {
        0
    } else {
        total_len(names.drop_last()) + names.last().len()
    }
}

/// Redundancy `1 - distinct/total` exceeds `3/10`, i.e.
/// `10 * distinct < 7 * total` (false on an empty batch).
pub open spec fn spec_redundancy_exceeds(names: Seq<Seq<u8>>) -> bool {
    10 * distinct_below(names, 256) < 7 * total_len(names)
}

/// Whether tokenization is worthwhile: never for fewer than ten names;
/// always for Illumina or PacBio shapes; for Custom only under high
/// redundancy; never for unstructured batches.
pub open spec fn spec_should_tokenize(names: Seq<Seq<u8>>) -> bool {
    if names.len() < 10 {
        false
    } else {
        match spec_detect(names) {
            ReadNamePattern::Illumina => true,
            ReadNamePattern::PacBio => true,
            ReadNamePattern::Custom => spec_redundancy_exceeds(names),
            ReadNamePattern::Unstructured => false,
        }
    }
}

/// Classifier over batches of read-name byte strings.
pub struct ReadNameAnalyzer;

impl ReadNameAnalyzer {
    /// Classify the batch.
    pub fn detect_pattern(read_names: &[&[u8]]) -> (r: ReadNamePattern)
        ensures
            r == spec_detect(read_names.deep_view()),
    {
        let ghost deep = read_names.deep_view();
        if read_names.len() == 0 {
            return ReadNamePattern::Unstructured;
        }
        let mut ill: usize = 0;
        let mut pac: usize = 0;
        let mut i: usize = 0;
        while i < read_names.len()
            invariant
                0 <= i <= read_names.len(),
                deep == read_names.deep_view(),
                deep.len() == read_names.len(),
                ill == illumina_count(deep.take(i as int)),
                pac == pacbio_count(deep.take(i as int)),
                ill <= i && pac <= i,
            decreases read_names.len() - i,
        {
            proof {
                assert(deep.take(i + 1).drop_last() =~= deep.take(i as int));
                assert(deep.take(i + 1).last() == deep[i as int]);
                assert(deep[i as int] =~= read_names@[i as int]@);
            }
            if Self::is_illumina_pattern(read_names[i]) {
                ill += 1;
            }
            if Self::is_pacbio_pattern(read_names[i]) {
                pac += 1;
            }
            i += 1;
        }
        proof {
            assert(deep.take(deep.len() as int) =~= deep);
        }
        let total = read_names.len();
        if 5 * (ill as u128) > 4 * (total as u128) {
            ReadNamePattern::Illumina
        } else if 5 * (pac as u128) > 4 * (total as u128) {
            ReadNamePattern::PacBio
        } else if Self::has_custom_pattern(read_names) {
            ReadNamePattern::Custom
        } else {
            ReadNamePattern::Unstructured
        }
    }

    /// At least six colons and at least seven colon-separated parts.
    pub fn is_illumina_pattern(name: &[u8]) -> (r: bool)
        ensures
            r == spec_is_illumina(name@),
    {
        ByteUtils::count_byte(name, 58) >= 6 && ByteUtils::split_bytes(name, 58).len() >= 7
    }

    /// Exactly two `/` separators.
    pub fn is_pacbio_pattern(name: &[u8]) -> (r: bool)
        ensures
            r == spec_is_pacbio(name@),
    {
        ByteUtils::count_byte(name, 47) == 2
    }

    /// At least two names, all sharing more than a third of the first name
    /// as a common prefix.
    pub fn has_custom_pattern(read_names: &[&[u8]]) -> (r: bool)
        ensures
            r == spec_has_custom(read_names.deep_view()),
    {
        let ghost deep = read_names.deep_view();
        if read_names.len() < 2 {
            return false;
        }
        let first = read_names[0];
        proof {
            assert(deep[0] =~= read_names@[0]@);
        }
        let mut m: usize = first.len();
        let mut i: usize = 0;
        while i < read_names.len()
            invariant
                0 <= i <= read_names.len(),
                deep == read_names.deep_view(),
                deep.len() == read_names.len(),
                first@ == deep[0],
                m == min_prefix_against(deep.take(i as int), first@),
            decreases read_names.len() - i,
        {
            proof {
                assert(deep.take(i + 1).drop_last() =~= deep.take(i as int));
                assert(deep.take(i + 1).last() == deep[i as int]);
                assert(deep[i as int] =~= read_names@[i as int]@);
            }
            let p = ByteUtils::common_prefix_length(first, read_names[i]);
            if p < m {
                m = p;
            }
            i += 1;
        }
        proof {
            assert(deep.take(deep.len() as int) =~= deep);
        }
        m > first.len() / 3
    }

    /// Decide whether the tokenizing codec should run on this batch.
    pub fn should_tokenize(read_names: &[&[u8]]) -> (r: bool)
        requires
            total_len(read_names.deep_view()) <= usize::MAX,
        ensures
            r == spec_should_tokenize(read_names.deep_view()),
    {
        if read_names.len() < 10 {
            return false;
        }
        match Self::detect_pattern(read_names) {
            ReadNamePattern::Illumina => true,
            ReadNamePattern::PacBio => true,
            ReadNamePattern::Custom => redundancy_exceeds(read_names),
            ReadNamePattern::Unstructured => false,
        }
    }
}

/// All-Illumina batches of at least ten names are classified Illumina and
/// approved for tokenization.
pub proof fn lemma_illumina_batch(names: Seq<Seq<u8>>)
    requires
        names.len() >= 10,
        forall|i: int| 0 <= i < names.len() ==> spec_is_illumina(#[trigger] names[i]),
    ensures
        spec_detect(names) == ReadNamePattern::Illumina,
        spec_should_tokenize(names),
{
    lemma_full_illumina_count(names);
}

proof fn lemma_full_illumina_count(names: Seq<Seq<u8>>)
    requires
        forall|i: int| 0 <= i < names.len() ==> spec_is_illumina(#[trigger] names[i]),
    ensures
        illumina_count(names) == names.len(),
    decreases names.len(),
{
    if names.len() != 0 {
        lemma_full_illumina_count(names.drop_last());
    }
}

/// Batches of fewer than ten names are never approved for tokenization.
pub proof fn lemma_small_batch(names: Seq<Seq<u8>>)
    requires
        names.len() < 10,
    ensures
        !spec_should_tokenize(names),
{
}

/// Whether the batch's redundancy exceeds three tenths, by exact integer
/// arithmetic over the distinct-byte count and the total length.
fn redundancy_exceeds(read_names: &[&[u8]]) -> (r: bool)
    requires
        total_len(read_names.deep_view()) <= usize::MAX,
    ensures
        r == spec_redundancy_exceeds(read_names.deep_view()),
{
    let ghost deep = read_names.deep_view();
    let mut seen: Vec<bool> = Vec::new();
    let mut b: usize = 0;
    while b < 256
        invariant
            seen.len() == b <= 256,
            forall|k: int| 0 <= k < b ==> !seen@[k],
        decreases 256 - b,
    {
        seen.push(false);
        b += 1;
    }
    let mut total: usize = 0;
    let mut i: usize = 0;
    while i < read_names.len()
        invariant
            0 <= i <= read_names.len(),
            deep == read_names.deep_view(),
            deep.len() == read_names.len(),
            total_len(deep) <= usize::MAX,
            seen.len() == 256,
            total == total_len(deep.take(i as int)),
            forall|v: u8| #[trigger] seen@[v as int] <==> exists|p: int, q: int|
                0 <= p < i && 0 <= q < deep[p].len() && deep[p][q] == v,
        decreases read_names.len() - i,
    {
        let name = read_names[i];
        proof {
            assert(deep[i as int] =~= read_names@[i as int]@);
            assert(deep.take(i + 1).drop_last() =~= deep.take(i as int));
            assert(deep.take(i + 1).last() == deep[i as int]);
            lemma_total_len_prefix(deep, i + 1);
            lemma_total_len_nonneg(deep.take(i as int));
        }
        let mut j: usize = 0;
        while j < name.len()
            invariant
                0 <= j <= name.len(),
                deep == read_names.deep_view(),
                deep.len() == read_names.len(),
                0 <= i < read_names.len(),
                name@ == deep[i as int],
                seen.len() == 256,
                forall|v: u8| #[trigger] seen@[v as int] <==> (exists|p: int, q: int|
                    0 <= p < i && 0 <= q < deep[p].len() && deep[p][q] == v) || (exists|q: int|
                    0 <= q < j && deep[i as int][q] == v),
            decreases name.len() - j,
        {
            let v = name[j];
            seen.set(v as usize, true);
            proof {
                assert(deep[i as int][j as int] == v);
            }
            j += 1;
        }
        total = total + name.len();
        i += 1;
    }
    proof {
        assert(deep.take(deep.len() as int) =~= deep);
        assert(forall|v: u8| #[trigger] seen@[v as int] <==> byte_occurs(deep, v));
    }
    let mut distinct: usize = 0;
    let mut n: usize = 0;
    while n < 256
        invariant
            0 <= n <= 256,
            seen.len() == 256,
            deep == read_names.deep_view(),
            forall|v: u8| #[trigger] seen@[v as int] <==> byte_occurs(deep, v),
            distinct == distinct_below(deep, n as int),
            distinct <= n,
        decreases 256 - n,
    {
        if seen[n] {
            distinct += 1;
        }
        n += 1;
    }
    proof {
        lemma_total_len_nonneg(deep);
    }
    10 * (distinct as u128) < 7 * (total as u128)
}

pub proof fn lemma_total_len_nonneg(names: Seq<Seq<u8>>)
    ensures
        total_len(names) >= 0,
    decreases names.len(),
{
    if names.len() != 0 {
        lemma_total_len_nonneg(names.drop_last());
    }
}

/// A prefix of the batch never holds more bytes than the whole batch.
pub proof fn lemma_total_len_prefix(names: Seq<Seq<u8>>, k: int)
    requires
        0 <= k <= names.len(),
    ensures
        total_len(names.take(k)) <= total_len(names),
    decreases names.len() - k,
{
    if k < names.len() {
        lemma_total_len_prefix(names, k + 1);
        assert(names.take(k + 1).drop_last() =~= names.take(k));
        assert(names.take(k + 1).last() == names[k]);
    } else {
        assert(names.take(k) =~= names);
    }
}

} // verus!
