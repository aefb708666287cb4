//! Stateful delta coder for (x, y, tile) triples with clamping.
//!
//! Deltas are clamped into the signed-16-bit range, so the coder is lossy
//! once a step exceeds that range; the running state follows the *original*
//! values on encode.  Decoding adds deltas to the running state and clamps
//! the result into the coordinate's unsigned range.

use vstd::prelude::*;

verus! {

/// Delta-encoded coordinates.
#[derive(Debug, Clone, PartialEq, Eq, Structural)]
pub struct CoordinateDeltas {
    pub x_delta: i16,
    pub y_delta: i16,
    pub tile_delta: i16,
}

/// Clamp into the signed-16-bit range.
pub open spec fn clamp_i16(v: int) -> int {
    if v < -32768 {
        -32768
    } else if v > 32767 {
        32767
    } else {
        v
    }
}

/// Clamp negatives to zero, then truncate to the low sixteen bits.
pub open spec fn clamp0_wrap16(v: int) -> int {
    (if v < 0 {
        0int
    } else {
        v
    }) % 0x1_0000
}

/// Clamp into `[0, hi]`.
pub open spec fn clamp_unsigned(v: int, hi: int) -> int {
    if v < 0 {
        0
    } else if v > hi {
        hi
    } else {
        v
    }
}

/// One encode step: deltas from state `s` to coordinates `c`; the next state
/// is `c` itself.
pub open spec fn spec_encode_step(s: (int, int, int), c: (int, int, int)) -> (int, int, int) {
    (clamp_i16(c.0 - s.0), clamp_i16(c.1 - s.1), clamp_i16(c.2 - s.2))
}

/// One decode step: the reconstructed coordinates, which also become the
/// next state.  Negative sums clamp to zero; the tile, stored narrow,
/// truncates to its low sixteen bits.
pub open spec fn spec_decode_step(s: (int, int, int), d: (int, int, int)) -> (int, int, int) {
    (
        clamp_unsigned(s.0 + d.0, u32::MAX as int),
        clamp_unsigned(s.1 + d.1, u32::MAX as int),
        clamp0_wrap16(s.2 + d.2),
    )
}

/// Deltas produced by encoding the coordinate sequence `cs` from state `s`.
pub open spec fn spec_encode_seq(s: (int, int, int), cs: Seq<(int, int, int)>) -> Seq<
    (int, int, int),
>
    decreases cs.len(),
{
    if cs.len() == 0 {
        Seq::empty()
    } else {
        seq![spec_encode_step(s, cs[0])].add(spec_encode_seq(cs[0], cs.drop_first()))
    }
}

/// Coordinates reconstructed by decoding the delta sequence `ds` from state
/// `s`.
pub open spec fn spec_decode_seq(s: (int, int, int), ds: Seq<(int, int, int)>) -> Seq<
    (int, int, int),
>
    decreases ds.len(),
{
    if ds.len() == 0 {
        Seq::empty()
    } else {
        let c = spec_decode_step(s, ds[0]);
        seq![c].add(spec_decode_seq(c, ds.drop_first()))
    }
}

/// A coordinate triple whose components all lie in `[0, i16::MAX]`.
pub open spec fn in_i16_range(c: (int, int, int)) -> bool {
    &&& 0 <= c.0 <= 32767
    &&& 0 <= c.1 <= 32767
    &&& 0 <= c.2 <= 32767
}

/// Coordinate round-trip: as long as every coordinate (and the starting
/// state) stays within `[0, i16::MAX]`, no delta is ever clamped and
/// decoding the encoded sequence reproduces the coordinates exactly.
pub proof fn lemma_coordinate_round_trip(s: (int, int, int), cs: Seq<(int, int, int)>)
    requires
        in_i16_range(s),
        forall|i: int| 0 <= i < cs.len() ==> in_i16_range(#[trigger] cs[i]),
    ensures
        spec_decode_seq(s, spec_encode_seq(s, cs)) =~= cs,
    decreases cs.len(),
{
    if cs.len() != 0 {
        assert(in_i16_range(cs[0]));
        assert(spec_decode_step(s, spec_encode_step(s, cs[0])) == cs[0]);
        lemma_coordinate_round_trip(cs[0], cs.drop_first());
        assert(spec_encode_seq(s, cs).drop_first() =~= spec_encode_seq(cs[0], cs.drop_first()));
    }
}

/// Rolling delta coder over (x, y, tile) triples.
pub struct CoordinateEncoder {
    last_x: u32,
    last_y: u32,
    last_tile: u16,
}

impl CoordinateEncoder {
    /// Running state as a triple of mathematical integers.
    pub closed spec fn state(&self) -> (int, int, int) {
        (self.last_x as int, self.last_y as int, self.last_tile as int)
    }

    pub fn new() -> (e: Self)
        ensures
            e.state() == (0int, 0int, 0int),
    {
        CoordinateEncoder { last_x: 0, last_y: 0, last_tile: 0 }
    }

    /// Emit the clamped deltas from the running state to `(x, y, tile)` and
    /// advance the state to the original (unclamped) values.
    pub fn encode_coordinates(&mut self, x: u32, y: u32, tile: u16) -> (deltas: CoordinateDeltas)
        ensures
            (deltas.x_delta as int, deltas.y_delta as int, deltas.tile_delta as int)
                == spec_encode_step(old(self).state(), (x as int, y as int, tile as int)),
            final(self).state() == (x as int, y as int, tile as int),
    {
        let dx = clamp_delta(x as i64 - self.last_x as i64);
        let dy = clamp_delta(y as i64 - self.last_y as i64);
        let dt = clamp_delta(tile as i64 - self.last_tile as i64);
        self.last_x = x;
        self.last_y = y;
        self.last_tile = tile;
        CoordinateDeltas { x_delta: dx, y_delta: dy, tile_delta: dt }
    }

    /// Add the deltas to the running state, clamping into the coordinate
    /// ranges, and return (and keep) the reconstruction.
    pub fn decode_coordinates(&mut self, deltas: &CoordinateDeltas) -> (r: (u32, u32, u16))
        ensures
            (r.0 as int, r.1 as int, r.2 as int) == spec_decode_step(
                old(self).state(),
                (deltas.x_delta as int, deltas.y_delta as int, deltas.tile_delta as int),
            ),
            final(self).state() == (r.0 as int, r.1 as int, r.2 as int),
    {
        let nx = add_clamped_u32(self.last_x, deltas.x_delta);
        let ny = add_clamped_u32(self.last_y, deltas.y_delta);
        let nt = add_wrapped_u16(self.last_tile, deltas.tile_delta);
        self.last_x = nx;
        self.last_y = ny;
        self.last_tile = nt;
        (nx, ny, nt)
    }

    /// Zero the running state.
    pub fn reset(&mut self)
        ensures
            final(self).state() == (0int, 0int, 0int),
    {
        self.last_x = 0;
        self.last_y = 0;
        self.last_tile = 0;
    }

    /// The running state `(last_x, last_y, last_tile)`.
    pub fn get_state(&self) -> (r: (u32, u32, u16))
        ensures
            (r.0 as int, r.1 as int, r.2 as int) == self.state(),
    {
        (self.last_x, self.last_y, self.last_tile)
    }
}

impl Default for CoordinateEncoder {
    fn default() -> (e: Self)
        ensures
            e.state() == (0int, 0int, 0int),
    {
        Self::new()
    }
}

/// Clamp a difference of two 32-bit quantities into `i16`.
fn clamp_delta(v: i64) -> (r: i16)
    requires
        -0x1_0000_0000 < v < 0x1_0000_0000,
    ensures
        r as int == clamp_i16(v as int),
{
    if v < -32768 {
        -32768
    } else if v > 32767 {
        32767
    } else {
        v as i16
    }
}

fn add_clamped_u32(base: u32, delta: i16) -> (r: u32)
    ensures
        r as int == clamp_unsigned(base as int + delta as int, u32::MAX as int),
{
    let v = base as i64 + delta as i64;
    if v < 0 {
        0
    } else if v > u32::MAX as i64 {
        u32::MAX
    } else {
        v as u32
    }
}

fn add_wrapped_u16(base: u16, delta: i16) -> (r: u16)
    ensures
        r as int == clamp0_wrap16(base as int + delta as int),
{
    let v = base as i32 + delta as i32;
    if v < 0 {
        0
    } else {
        (v % 0x1_0000) as u16
    }
}

} // verus!
