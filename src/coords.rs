//! Chunk addressing: floor division and Euclidean remainder, for negative coordinates too.

use vstd::prelude::*;

verus! {

/// Index of the chunk that holds `coord`, for chunks `dim` cells wide: floor division.
pub open spec fn chunk_of(coord: int, dim: int) -> int {
    coord / dim
}

/// Offset of `coord` inside its chunk: the Euclidean remainder, never negative.
pub open spec fn local_of(coord: int, dim: int) -> int {
    coord % dim
}

/// The world coordinate of offset `local` inside chunk `chunk`.
pub open spec fn world_of(chunk: int, local: int, dim: int) -> int {
    chunk * dim + local
}

/// Floor division of `x` by a positive `d`.
pub fn floor_div(x: i32, d: u32) -> (r: i32)
    requires
        d > 0,
    ensures
        r == chunk_of(x as int, d as int),
{
    if x >= 0 {
        let q: u32 = (x as u32) / d;
        assert(q <= x);
        q as i32
    } else {
        let m: u32 = ((-(x as i64)) - 1) as u32;
        let q: u32 = m / d;
        assert(q <= m);
        proof {
            lemma_floor_negative(x as int, d as int);
        }
        -(q as i32) - 1
    }
}

/// Euclidean remainder of `x` by a positive `d`.
pub fn rem_euclid(x: i32, d: u32) -> (r: u32)
    requires
        d > 0,
    ensures
        r == local_of(x as int, d as int),
        r < d,
{
    if x >= 0 {
        (x as u32) % d
    } else {
        let m: u32 = ((-(x as i64)) - 1) as u32;
        let s: u32 = m % d;
        proof {
            lemma_floor_negative(x as int, d as int);
        }
        d - 1 - s
    }
}

proof fn lemma_floor_negative(x: int, d: int)
    requires
        x < 0,
        d > 0,
    ensures
        x / d == -((-x - 1) / d) - 1,
        x % d == d - 1 - ((-x - 1) % d),
{
    let m = -x - 1;
    vstd::arithmetic::div_mod::lemma_fundamental_div_mod(m, d);
    vstd::arithmetic::div_mod::lemma_fundamental_div_mod(x, d);
    let q = m / d;
    let r = m % d;
    assert(x == (-q - 1) * d + (d - 1 - r)) by (nonlinear_arith)
        requires m == d * q + r, x == -m - 1;
    assert(0 <= r < d);
    vstd::arithmetic::div_mod::lemma_fundamental_div_mod_converse(x, d, -q - 1, d - 1 - r);
}

/// Chunk addressing round-trips on both axes, for any coordinates and positive chunk sizes:
/// a coordinate is its chunk joined with its offset, the offset lies inside the chunk, and a
/// chunk joined with an offset inside it splits back into that chunk and offset.
pub proof fn lemma_chunk_round_trip(x: int, y: int, dw: int, dh: int, chunk: int, local: int)
    requires
        dw > 0,
        dh > 0,
    ensures
        world_of(chunk_of(x, dw), local_of(x, dw), dw) == x,
        world_of(chunk_of(y, dh), local_of(y, dh), dh) == y,
        0 <= local_of(x, dw) < dw,
        0 <= local_of(y, dh) < dh,
        chunk_of(world_of(chunk_of(x, dw), local_of(x, dw), dw), dw) == chunk_of(x, dw),
        chunk_of(world_of(chunk_of(y, dh), local_of(y, dh), dh), dh) == chunk_of(y, dh),
        0 <= local < dw ==> chunk_of(world_of(chunk, local, dw), dw) == chunk && local_of(
            world_of(chunk, local, dw),
            dw,
        ) == local,
{
    vstd::arithmetic::div_mod::lemma_fundamental_div_mod(x, dw);
    vstd::arithmetic::div_mod::lemma_fundamental_div_mod(y, dh);
    assert(world_of(chunk_of(x, dw), local_of(x, dw), dw) == x) by (nonlinear_arith)
        requires
            x == dw * (x / dw) + x % dw,
    ;
    assert(world_of(chunk_of(y, dh), local_of(y, dh), dh) == y) by (nonlinear_arith)
        requires
            y == dh * (y / dh) + y % dh,
    ;
    if 0 <= local < dw {
        vstd::arithmetic::div_mod::lemma_fundamental_div_mod_converse(
            world_of(chunk, local, dw),
            dw,
            chunk,
            local,
        );
    }
}

} // verus!
