//! Integer projection from world coordinates to tile indices and tile-local
//! coordinates.
//!
//! A world coordinate counts extent units of the tile grid at `MAX_ZOOM`:
//! the whole Web-Mercator square is `2^WORLD_BITS` units wide and high, with
//! x growing east and y growing south. At zoom `z` a tile spans
//! `2^(WORLD_BITS - z)` units and one tile-local unit spans `2^(MAX_ZOOM - z)`.
use vstd::arithmetic::div_mod::{lemma_fundamental_div_mod, lemma_hoist_over_denominator};
use vstd::arithmetic::power2::{
    lemma2_to64, lemma_pow2_adds, lemma_pow2_pos, lemma_pow2_strictly_increases, lemma_pow2_unfold,
    pow2,
};
use vstd::bits::{lemma_u32_shl_is_mul, lemma_u64_shl_is_mul};
use vstd::prelude::*;

verus! {

/// The deepest zoom level: its tile indices, up to `2^31 - 1`, still fit a `u32`.
pub const MAX_ZOOM: u8 = 31;

/// Width of a tile in tile-local units.
pub const EXTENT: i32 = 4096;

/// log2 of the world's width in world units (`EXTENT` times `2^MAX_ZOOM`).
pub const WORLD_BITS: u8 = 43;

/// World units per tile side at `zoom`.
pub open spec fn tile_span(zoom: nat) -> nat {
    pow2((WORLD_BITS - zoom) as nat)
}

/// World units per tile-local unit at `zoom`.
pub open spec fn unit_span(zoom: nat) -> nat {
    pow2((MAX_ZOOM - zoom) as nat)
}

pub open spec fn clamp(v: int, lo: int, hi: int) -> int {
    if v < lo {
        lo
    } else if v > hi {
        hi
    } else {
        v
    }
}

/// Index of the tile row or column holding world coordinate `w` at `zoom`,
/// clamped into the valid range `[0, 2^zoom - 1]`.
pub open spec fn tile_index(w: int, zoom: nat) -> int {
    clamp(w / (tile_span(zoom) as int), 0, pow2(zoom) - 1)
}

/// `a / d` rounded to the nearest integer, halves upward.
pub open spec fn round_div(a: int, d: int) -> int {
    (2 * a + d) / (2 * d)
}

/// `v` saturated into the range of `i32`.
pub open spec fn saturate_i32(v: int) -> i32 {
    clamp(v, i32::MIN as int, i32::MAX as int) as i32
}

/// Tile-local coordinate of world coordinate `w` in the tile row or column
/// `tile` at `zoom`: the offset from the tile's origin, in extent units,
/// rounded; no clamping other than to the range of `i32`.
pub open spec fn local_coord(w: int, tile: int, zoom: nat) -> i32 {
    saturate_i32(round_div(w, unit_span(zoom) as int) - tile * EXTENT)
}

/// Number of tiles along each axis at `zoom`: `2^zoom`.
pub fn get_tile_count(zoom: u8) -> (r: u32)
    requires
        zoom <= MAX_ZOOM,
    ensures
        r == pow2(zoom as nat),
{
    proof {
        lemma_pow2_strictly_increases(zoom as nat, 32);
        lemma2_to64();
        lemma_u32_shl_is_mul(1, zoom as u32);
    }
    1u32 << (zoom as u32)
}

proof fn lemma_negative_quotient(w: int, d: int)
    requires
        w < 0,
        d > 0,
    ensures
        w / d < 0,
{
    lemma_fundamental_div_mod(w, d);
    assert(w / d < 0) by (nonlinear_arith)
        requires
            w < 0,
            d > 0,
            w == d * (w / d) + (w % d),
            w % d < d,
            0 <= w % d,
    ;
}

/// Tile row or column holding world coordinate `w` at `zoom`.
pub fn world_to_tile(w: i64, zoom: u8) -> (t: u32)
    requires
        zoom <= MAX_ZOOM,
    ensures
        t == tile_index(w as int, zoom as nat),
        t < pow2(zoom as nat),
{
    let count = get_tile_count(zoom);
    let shift: u64 = (WORLD_BITS - zoom) as u64;
    proof {
        lemma_pow2_strictly_increases(shift as nat, 64);
        lemma2_to64();
        lemma_u64_shl_is_mul(1, shift);
        lemma_pow2_pos(shift as nat);
    }
    let span: u64 = 1u64 << shift;
    if w < 0 {
        proof {
            lemma_negative_quotient(w as int, span as int);
        }
        return 0;
    }
    let q: u64 = (w as u64) / span;
    if q >= count as u64 {
        count - 1
    } else {
        q as u32
    }
}

/// Tile-local coordinate of world coordinate `w` in tile row or column `tile`
/// at `zoom`.
pub fn world_to_local(w: i64, tile: u32, zoom: u8) -> (r: i32)
    requires
        zoom <= MAX_ZOOM,
    ensures
        r == local_coord(w as int, tile as int, zoom as nat),
{
    let shift: u64 = (MAX_ZOOM - zoom) as u64;
    proof {
        lemma_pow2_strictly_increases(shift as nat, 32);
        lemma2_to64();
        lemma_u64_shl_is_mul(1, shift);
        lemma_pow2_pos(shift as nat);
    }
    let unit: u64 = 1u64 << shift;
    let d: i128 = unit as i128;
    let n: i128 = 2 * (w as i128) + d;
    // 2^65 exceeds |n| and is a multiple of 2 * d.
    let offset: i128 = 0x2_0000_0000_0000_0000i128;
    let m: i128 = 2 * d;
    let j: i128 = offset / m;
    proof {
        lemma_pow2_unfold(65);
        lemma_pow2_unfold(shift as nat + 1);
        lemma_pow2_adds(shift as nat + 1, (64 - shift) as nat);
        lemma_pow2_pos((64 - shift) as nat);
        assert(offset == pow2(65));
        assert(m == pow2(shift as nat + 1));
        assert((shift as nat + 1) + (64 - shift) as nat == 65);
        assert(pow2(65) == pow2(shift as nat + 1) * pow2((64 - shift) as nat));
        vstd::arithmetic::mul::lemma_mul_is_commutative(
            pow2((64 - shift) as nat) as int,
            m as int,
        );
        assert(offset == pow2((64 - shift) as nat) * m);
        vstd::arithmetic::div_mod::lemma_div_by_multiple(pow2((64 - shift) as nat) as int, m as int);
        assert(j == pow2((64 - shift) as nat));
        lemma_hoist_over_denominator(n as int, j as int, m as nat);
    }
    let q: i128 = ((n + offset) as u128 / m as u128) as i128;
    let rounded: i128 = q - j;
    assert(rounded == round_div(w as int, d as int));
    let v: i128 = rounded - (tile as i128) * 4096;
    if v < i32::MIN as i128 {
        i32::MIN
    } else if v > i32::MAX as i128 {
        i32::MAX
    } else {
        v as i32
    }
}

/// At zoom 0 every world coordinate lies in tile row and column 0.
pub proof fn lemma_zoom_zero_single_tile(w: int)
    ensures
        tile_index(w, 0) == 0,
{
    lemma2_to64();
}

} // verus!
