//! Interning dictionary for read-name components, and the tokenized record.
//!
//! Four independent append-only tables (instruments, flowcells, UMIs,
//! indices) intern recurring byte strings behind small dense integer IDs.
//! Each u8-indexed table caps at 255 entries with slot 254 acting as a lossy
//! saturation sink; the u16-indexed UMI table caps at 65535 with sink 65534.
//! Exact-match reverse lookup is a scan over the dense table itself.

use vstd::prelude::*;

verus! {

/// Tokenized representation of a sequencing read name.
///
/// A `flowcell_id` of 0 marks the legacy shape (no flowcell component); the
/// flowcell table therefore reserves slot 0, so modern names always resolve
/// to a non-zero flowcell ID.
#[derive(Debug, Clone, PartialEq, Eq, Structural, Hash)]
pub struct TokenizedReadName {
    pub instrument_id: u8,
    pub run_id: u32,
    pub flowcell_id: u8,
    pub lane: u8,
    pub tile: u16,
    pub x_coord: u32,
    pub y_coord: u32,
    pub umi_id: Option<u16>,
    pub read_num: u8,
    pub flags: u8,
    pub index_id: Option<u8>,
}

impl TokenizedReadName {
    /// In-memory size of the record type.
    pub fn size_bytes() -> (n: usize)
        ensures
            n == vstd::layout::size_of::<TokenizedReadName>(),
    {
        core::mem::size_of::<TokenizedReadName>()
    }
}

/// No byte string appears twice in the table.
pub open spec fn table_unique(t: Seq<Seq<u8>>) -> bool {
    forall|i: int, j: int| 0 <= i < j < t.len() ==> t[i] != t[j]
}

/// Sum of the lengths of all entries of a table.
pub open spec fn sum_lens(t: Seq<Seq<u8>>) -> int
    decreases t.len(),
{
    if t.len() == 0 {
        0
    } else {
        sum_lens(t.drop_last()) + t.last().len()
    }
}

/// What interning `x` into a table with capacity `cap` yields: the new table
/// and the returned ID.  An already-present entry keeps the table and returns
/// its (unique) index; a fresh entry appends when below `cap`; a saturated
/// table stays unchanged and hands back the sink `cap - 1`.
pub open spec fn spec_intern(t: Seq<Seq<u8>>, x: Seq<u8>, cap: int) -> (Seq<Seq<u8>>, int) {
    if t.contains(x) {
        (t, choose|j: int| 0 <= j < t.len() && t[j] == x)
    } else if t.len() < cap {
        (t.push(x), t.len() as int)
    } else {
        (t, cap - 1)
    }
}

/// Interning never loses entries and keeps uniqueness.
pub proof fn lemma_intern_wf(t: Seq<Seq<u8>>, x: Seq<u8>, cap: int)
    requires
        table_unique(t),
        t.len() <= cap,
    ensures
        table_unique(spec_intern(t, x, cap).0),
        t.len() <= spec_intern(t, x, cap).0.len() <= cap,
{
    if !t.contains(x) && t.len() < cap {
        let t2 = t.push(x);
        assert forall|i: int, j: int| 0 <= i < j < t2.len() implies t2[i] != t2[j] by {
            if j == t.len() {
                assert(t[i] == t2[i]);
                assert(!t.contains(x));
            }
        }
    }
}

/// Below capacity, the returned ID always resolves back to the interned
/// bytes: `get` after `add` is the identity.
pub proof fn lemma_intern_get(t: Seq<Seq<u8>>, x: Seq<u8>, cap: int)
    requires
        table_unique(t),
        t.len() < cap,
    ensures
        ({
            let (t2, id) = spec_intern(t, x, cap);
            &&& 0 <= id < t2.len()
            &&& t2[id] == x
        }),
{
    if t.contains(x) {
        let j = choose|j: int| 0 <= j < t.len() && t[j] == x;
        assert(t[j] == x);
    }
}

/// Interning is idempotent: a second intern of the same bytes returns the
/// same ID and leaves the table unchanged.
pub proof fn lemma_intern_idempotent(t: Seq<Seq<u8>>, x: Seq<u8>, cap: int)
    requires
        table_unique(t),
        t.len() <= cap,
        cap >= 1,
    ensures
        ({
            let (t2, id) = spec_intern(t, x, cap);
            let (t3, id2) = spec_intern(t2, x, cap);
            t3 == t2 && id2 == id
        }),
{
    let (t2, id) = spec_intern(t, x, cap);
    if t.contains(x) {
        let j = choose|j: int| 0 <= j < t.len() && t[j] == x;
        assert(t[j] == x);
        let j2 = choose|j2: int| 0 <= j2 < t2.len() && t2[j2] == x;
        assert(t2[j2] == x);
    } else if t.len() < cap {
        assert(t2.last() == x);
        assert(t2.contains(x));
        let j2 = choose|j2: int| 0 <= j2 < t2.len() && t2[j2] == x;
        if j2 < t.len() {
            assert(t[j2] == t2[j2]);
            assert(t.contains(x));
        }
    } else {
        assert(!t2.contains(x));
    }
}

/// Dictionary of interned read-name components.
#[derive(Debug, Clone)]
pub struct ReadNameDictionary {
    pub instruments: Vec<Vec<u8>>,
    pub flowcells: Vec<Vec<u8>>,
    pub umis: Vec<Vec<u8>>,
    pub indices: Vec<Vec<u8>>,
}

/// Byte-wise slice equality.
fn bytes_equal(a: &[u8], b: &[u8]) -> (r: bool)
    ensures
        r <==> a@ == b@,
{
    if a.len() != b.len() {
        return false;
    }
    let mut i: usize = 0;
    while i < a.len()
        invariant
            0 <= i <= a.len(),
            a.len() == b.len(),
            forall|j: int| 0 <= j < i ==> a@[j] == b@[j],
        decreases a.len() - i,
    {
        if a[i] != b[i] {
            return false;
        }
        i += 1;
    }
    proof {
        assert(a@ =~= b@);
    }
    true
}

/// Intern `x` into a u8-indexed table (capacity 255, sink 254).
fn intern_u8(table: &mut Vec<Vec<u8>>, x: &[u8]) -> (id: u8)
    requires
        table_unique(old(table).deep_view()),
        old(table).len() <= 255,
    ensures
        (final(table).deep_view(), id as int) == spec_intern(old(table).deep_view(), x@, 255),
        table_unique(final(table).deep_view()),
        final(table).len() <= 255,
{
    proof {
        lemma_intern_wf(old(table).deep_view(), x@, 255);
    }
    let mut j: usize = 0;
    while j < table.len()
        invariant
            0 <= j <= table.len(),
            table == old(table),
            table.len() <= 255,
            table_unique(table.deep_view()),
            forall|k: int| 0 <= k < j ==> table.deep_view()[k] != x@,
        decreases table.len() - j,
    {
        if bytes_equal(table[j].as_slice(), x) {
            proof {
                let t = table.deep_view();
                assert(t[j as int] == table@[j as int].deep_view());
                assert(table@[j as int].deep_view() =~= table@[j as int]@);
                assert(t[j as int] == x@);
                assert(t.contains(x@));
                assert(table_unique(t));
                let w = choose|w: int| 0 <= w < t.len() && t[w] == x@;
                assert(t[w] == x@);
                if w < j as int {
                    assert(t[w] != t[j as int]);
                } else if w > j as int {
                    assert(t[j as int] != t[w]);
                }
            }
            return j as u8;
        }
        proof {
            assert(table.deep_view()[j as int] == table@[j as int].deep_view());
            assert(table@[j as int].deep_view() =~= table@[j as int]@);
        }
        j += 1;
    }
    proof {
        let t = table.deep_view();
        assert(!t.contains(x@));
    }
    if table.len() >= 255 {
        return 254;
    }
    let id = table.len() as u8;
    let ghost before = table.deep_view();
    table.push(vstd::slice::slice_to_vec(x));
    proof {
        assert(table.deep_view() =~~= before.push(x@));
    }
    id
}

/// Intern `x` into the u16-indexed UMI table (capacity 65535, sink 65534).
fn intern_u16(table: &mut Vec<Vec<u8>>, x: &[u8]) -> (id: u16)
    requires
        table_unique(old(table).deep_view()),
        old(table).len() <= 65535,
    ensures
        (final(table).deep_view(), id as int) == spec_intern(old(table).deep_view(), x@, 65535),
        table_unique(final(table).deep_view()),
        final(table).len() <= 65535,
{
    proof {
        lemma_intern_wf(old(table).deep_view(), x@, 65535);
    }
    let mut j: usize = 0;
    while j < table.len()
        invariant
            0 <= j <= table.len(),
            table == old(table),
            table.len() <= 65535,
            table_unique(table.deep_view()),
            forall|k: int| 0 <= k < j ==> table.deep_view()[k] != x@,
        decreases table.len() - j,
    {
        if bytes_equal(table[j].as_slice(), x) {
            proof {
                let t = table.deep_view();
                assert(t[j as int] == table@[j as int].deep_view());
                assert(table@[j as int].deep_view() =~= table@[j as int]@);
                assert(t[j as int] == x@);
                assert(t.contains(x@));
                assert(table_unique(t));
                let w = choose|w: int| 0 <= w < t.len() && t[w] == x@;
                assert(t[w] == x@);
                if w < j as int {
                    assert(t[w] != t[j as int]);
                } else if w > j as int {
                    assert(t[j as int] != t[w]);
                }
            }
            return j as u16;
        }
        proof {
            assert(table.deep_view()[j as int] == table@[j as int].deep_view());
            assert(table@[j as int].deep_view() =~= table@[j as int]@);
        }
        j += 1;
    }
    proof {
        let t = table.deep_view();
        assert(!t.contains(x@));
    }
    if table.len() >= 65535 {
        return 65534;
    }
    let id = table.len() as u16;
    let ghost before = table.deep_view();
    table.push(vstd::slice::slice_to_vec(x));
    proof {
        assert(table.deep_view() =~~= before.push(x@));
    }
    id
}

/// Fetch the entry at `id`, or `None` past the end of the table.
fn table_get(table: &Vec<Vec<u8>>, id: usize) -> (r: Option<&[u8]>)
    ensures
        r is Some <==> id < table.len(),
        r is Some ==> r->0@ == table.deep_view()[id as int],
{
    if id < table.len() {
        proof {
            assert(table.deep_view()[id as int] == table@[id as int].deep_view());
        }
        Some(table[id].as_slice())
    } else {
        None
    }
}

impl ReadNameDictionary {
    /// All four tables hold no duplicate entries and respect their caps.
    pub open spec fn wf(&self) -> bool {
        &&& table_unique(self.instruments.deep_view())
        &&& table_unique(self.flowcells.deep_view())
        &&& table_unique(self.umis.deep_view())
        &&& table_unique(self.indices.deep_view())
        &&& self.instruments.len() <= 255
        &&& self.flowcells.len() <= 255
        &&& self.umis.len() <= 65535
        &&& self.indices.len() <= 255
    }

    /// Fresh dictionary.  The flowcell table starts with the reserved empty
    /// entry at slot 0: flowcell ID 0 marks the legacy (flowcell-less) name
    /// shape, so real flowcells must resolve to non-zero IDs, and reserving
    /// the slot keeps every flowcell ID a plain table index.
    pub fn new() -> (d: Self)
        ensures
            d.wf(),
            d.instruments.len() == 0,
            d.flowcells.deep_view() =~~= seq![Seq::<u8>::empty()],
            d.umis.len() == 0,
            d.indices.len() == 0,
    {
        let mut flowcells: Vec<Vec<u8>> = Vec::new();
        flowcells.push(Vec::new());
        proof {
            assert(flowcells.deep_view() =~~= seq![Seq::<u8>::empty()]);
        }
        ReadNameDictionary { instruments: Vec::new(), flowcells, umis: Vec::new(), indices: Vec::new() }
    }

    pub fn add_instrument(&mut self, instrument: &[u8]) -> (id: u8)
        requires
            old(self).wf(),
        ensures
            final(self).wf(),
            (final(self).instruments.deep_view(), id as int) == spec_intern(
                old(self).instruments.deep_view(),
                instrument@,
                255,
            ),
            final(self).flowcells == old(self).flowcells,
            final(self).umis == old(self).umis,
            final(self).indices == old(self).indices,
    {
        intern_u8(&mut self.instruments, instrument)
    }

    pub fn add_flowcell(&mut self, flowcell: &[u8]) -> (id: u8)
        requires
            old(self).wf(),
        ensures
            final(self).wf(),
            (final(self).flowcells.deep_view(), id as int) == spec_intern(
                old(self).flowcells.deep_view(),
                flowcell@,
                255,
            ),
            final(self).instruments == old(self).instruments,
            final(self).umis == old(self).umis,
            final(self).indices == old(self).indices,
    {
        intern_u8(&mut self.flowcells, flowcell)
    }

    pub fn add_umi(&mut self, umi: &[u8]) -> (id: u16)
        requires
            old(self).wf(),
        ensures
            final(self).wf(),
            (final(self).umis.deep_view(), id as int) == spec_intern(
                old(self).umis.deep_view(),
                umi@,
                65535,
            ),
            final(self).instruments == old(self).instruments,
            final(self).flowcells == old(self).flowcells,
            final(self).indices == old(self).indices,
    {
        intern_u16(&mut self.umis, umi)
    }

    pub fn add_index(&mut self, index: &[u8]) -> (id: u8)
        requires
            old(self).wf(),
        ensures
            final(self).wf(),
            (final(self).indices.deep_view(), id as int) == spec_intern(
                old(self).indices.deep_view(),
                index@,
                255,
            ),
            final(self).instruments == old(self).instruments,
            final(self).flowcells == old(self).flowcells,
            final(self).umis == old(self).umis,
    {
        intern_u8(&mut self.indices, index)
    }

    pub fn get_instrument(&self, id: u8) -> (r: Option<&[u8]>)
        ensures
            r is Some <==> (id as int) < self.instruments.len(),
            r is Some ==> r->0@ == self.instruments.deep_view()[id as int],
    {
        table_get(&self.instruments, id as usize)
    }

    pub fn get_flowcell(&self, id: u8) -> (r: Option<&[u8]>)
        ensures
            r is Some <==> (id as int) < self.flowcells.len(),
            r is Some ==> r->0@ == self.flowcells.deep_view()[id as int],
    {
        table_get(&self.flowcells, id as usize)
    }

    pub fn get_umi(&self, id: u16) -> (r: Option<&[u8]>)
        ensures
            r is Some <==> (id as int) < self.umis.len(),
            r is Some ==> r->0@ == self.umis.deep_view()[id as int],
    {
        table_get(&self.umis, id as usize)
    }

    pub fn get_index(&self, id: u8) -> (r: Option<&[u8]>)
        ensures
            r is Some <==> (id as int) < self.indices.len(),
            r is Some ==> r->0@ == self.indices.deep_view()[id as int],
    {
        table_get(&self.indices, id as usize)
    }

    /// Total number of interned bytes across all four tables.
    pub open spec fn spec_total_size(&self) -> int {
        sum_lens(self.instruments.deep_view()) + sum_lens(self.flowcells.deep_view())
            + sum_lens(self.umis.deep_view()) + sum_lens(self.indices.deep_view())
    }

    pub fn total_size(&self) -> (n: usize)
        requires
            self.spec_total_size() <= usize::MAX,
        ensures
            n == self.spec_total_size(),
    {
        proof {
            lemma_sum_lens_nonneg(self.instruments.deep_view());
            lemma_sum_lens_nonneg(self.flowcells.deep_view());
            lemma_sum_lens_nonneg(self.umis.deep_view());
            lemma_sum_lens_nonneg(self.indices.deep_view());
        }
        let a = sum_table_lens(&self.instruments);
        let b = sum_table_lens(&self.flowcells);
        let c = sum_table_lens(&self.umis);
        let d = sum_table_lens(&self.indices);
        a + b + c + d
    }

    /// Entry counts of the four tables, in fixed order.
    pub fn entry_counts(&self) -> (r: (usize, usize, usize, usize))
        ensures
            r.0 == self.instruments.len(),
            r.1 == self.flowcells.len(),
            r.2 == self.umis.len(),
            r.3 == self.indices.len(),
    {
        (self.instruments.len(), self.flowcells.len(), self.umis.len(), self.indices.len())
    }
}

impl Default for ReadNameDictionary {
    fn default() -> (d: Self)
        ensures
            d.wf(),
            d.instruments.len() == 0,
            d.flowcells.deep_view() =~~= seq![Seq::<u8>::empty()],
            d.umis.len() == 0,
            d.indices.len() == 0,
    {
        Self::new()
    }
}

pub proof fn lemma_sum_lens_nonneg(t: Seq<Seq<u8>>)
    ensures
        sum_lens(t) >= 0,
    decreases t.len(),
{
    if t.len() != 0 {
        lemma_sum_lens_nonneg(t.drop_last());
    }
}

/// Sum the entry lengths of one table.
fn sum_table_lens(table: &Vec<Vec<u8>>) -> (n: usize)
    requires
        sum_lens(table.deep_view()) <= usize::MAX,
    ensures
        n == sum_lens(table.deep_view()),
{
    let mut n: usize = 0;
    let mut i: usize = 0;
    while i < table.len()
        invariant
            0 <= i <= table.len(),
            sum_lens(table.deep_view()) <= usize::MAX,
            n == sum_lens(table.deep_view().take(i as int)),
        decreases table.len() - i,
    {
        proof {
            let t = table.deep_view();
            assert(t.take(i + 1).drop_last() =~= t.take(i as int));
            assert(t.take(i + 1).last() == t[i as int]);
            lemma_sum_lens_prefix(t, i + 1);
            lemma_sum_lens_nonneg(t.take(i as int));
            assert(t[i as int] == table@[i as int].deep_view());
        }
        n = n + table[i].len();
        i += 1;
    }
    proof {
        assert(table.deep_view().take(table@.len() as int) =~= table.deep_view());
    }
    n
}

/// A prefix of a table never sums to more than the whole table.
pub proof fn lemma_sum_lens_prefix(t: Seq<Seq<u8>>, k: int)
    requires
        0 <= k <= t.len(),
    ensures
        sum_lens(t.take(k)) <= sum_lens(t),
    decreases t.len() - k,
{
    if k < t.len() {
        lemma_sum_lens_prefix(t, k + 1);
        assert(t.take(k + 1).drop_last() =~= t.take(k));
        assert(t.take(k + 1).last() == t[k]);
    } else {
        assert(t.take(k) =~= t);
    }
}

} // verus!
