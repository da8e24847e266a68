//! The sparse grid: chunks of handle slots, created on first insert, keyed by chunk
//! coordinates.

use vstd::prelude::*;
use std::collections::HashMap;
use crate::coords::{chunk_of, floor_div, local_of, rem_euclid};

verus! {

broadcast use vstd::std_specs::hash::group_hash_axioms;

/// Handle of a cell record: its index in the world's arena of cells.
#[derive(Clone, Copy, Debug, PartialEq, Eq, Structural)]
pub struct CellId {
    pub index: usize,
}

/// Why a grid operation was refused.
#[derive(Clone, Copy, Debug, PartialEq, Eq, Structural)]
pub enum GridError {
    /// The chunk that owns the coordinate was never created.
    MissingChunk,
    /// The coordinate already holds a handle.
    Occupied,
}

/// A dense block of `width * height` slots, stored row by row.
pub struct Chunk {
    width: u32,
    height: u32,
    cells: Vec<Option<CellId>>,
}

impl Chunk {
    pub closed spec fn spec_width(&self) -> int {
        self.width as int
    }

    pub closed spec fn spec_height(&self) -> int {
        self.height as int
    }

    pub closed spec fn wf(&self) -> bool {
        &&& self.width > 0
        &&& self.height > 0
        &&& self.cells@.len() == self.width * self.height
        &&& self.width * self.height <= usize::MAX
    }

    /// The slot at local offset (`x`, `y`).
    pub closed spec fn slot(&self, x: int, y: int) -> Option<CellId> {
        self.cells@[y * self.width + x]
    }

    pub open spec fn in_chunk(&self, x: int, y: int) -> bool {
        0 <= x < self.spec_width() && 0 <= y < self.spec_height()
    }

    fn index(&self, x: u32, y: u32) -> (r: usize)
        requires
            self.wf(),
            self.in_chunk(x as int, y as int),
        ensures
            r == y * self.width + x,
            r < self.cells@.len(),
    {
        proof {
            lemma_row_major(x as int, y as int, self.width as int, self.height as int);
        }
        let row: usize = (y as usize) * (self.width as usize);
        row + (x as usize)
    }

    /// An empty chunk of `width * height` slots.
    pub fn new(width: u32, height: u32) -> (r: Chunk)
        requires
            width > 0,
            height > 0,
            width * height <= usize::MAX,
        ensures
            r.wf(),
            r.spec_width() == width,
            r.spec_height() == height,
            forall|x: int, y: int| r.in_chunk(x, y) ==> r.slot(x, y).is_none(),
    {
        let n: usize = (width as usize) * (height as usize);
        let mut cells: Vec<Option<CellId>> = Vec::new();
        let mut i: usize = 0;
        while i < n
            invariant
                i <= n,
                cells@.len() == i,
                forall|j: int| 0 <= j < i ==> cells@[j].is_none(),
            decreases n - i,
        {
            cells.push(None);
            i = i + 1;
        }
        let r = Chunk { width, height, cells };
        assert forall|x: int, y: int| r.in_chunk(x, y) implies r.slot(x, y).is_none() by {
            lemma_row_major(x, y, width as int, height as int);
        }
        r
    }

    pub fn get(&self, x: u32, y: u32) -> (r: Option<CellId>)
        requires
            self.wf(),
            self.in_chunk(x as int, y as int),
        ensures
            r == self.slot(x as int, y as int),
    {
        let i = self.index(x, y);
        self.cells[i]
    }

    fn set(&mut self, x: u32, y: u32, v: Option<CellId>)
        requires
            old(self).wf(),
            old(self).in_chunk(x as int, y as int),
        ensures
            final(self).wf(),
            final(self).spec_width() == old(self).spec_width(),
            final(self).spec_height() == old(self).spec_height(),
            forall|a: int, b: int|
                #![trigger final(self).slot(a, b)]
                final(self).in_chunk(a, b) ==> final(self).slot(a, b) == if a == x && b == y {
                    v
                } else {
                    old(self).slot(a, b)
                },
    {
        let i = self.index(x, y);
        self.cells.set(i, v);
        proof {
            assert forall|a: int, b: int| #[trigger]
                final(self).in_chunk(a, b) implies final(self).slot(a, b) == if a == x && b == y {
                v
            } else {
                old(self).slot(a, b)
            } by {
                lemma_row_major(a, b, self.width as int, self.height as int);
                if b * self.width + a == y * self.width + x {
                    lemma_row_major_unique(a, b, x as int, y as int, self.width as int);
                }
            }
        }
    }

    /// Puts `entity` in the slot at (`x`, `y`), replacing what was there.
    pub fn insert(&mut self, x: u32, y: u32, entity: CellId)
        requires
            old(self).wf(),
            old(self).in_chunk(x as int, y as int),
        ensures
            final(self).wf(),
            final(self).spec_width() == old(self).spec_width(),
            final(self).spec_height() == old(self).spec_height(),
            forall|a: int, b: int|
                #![trigger final(self).slot(a, b)]
                final(self).in_chunk(a, b) ==> final(self).slot(a, b) == if a == x && b == y {
                    Some(entity)
                } else {
                    old(self).slot(a, b)
                },
    {
        self.set(x, y, Some(entity));
    }

    /// Empties the slot at (`x`, `y`).
    pub fn delete(&mut self, x: u32, y: u32)
        requires
            old(self).wf(),
            old(self).in_chunk(x as int, y as int),
        ensures
            final(self).wf(),
            final(self).spec_width() == old(self).spec_width(),
            final(self).spec_height() == old(self).spec_height(),
            forall|a: int, b: int|
                #![trigger final(self).slot(a, b)]
                final(self).in_chunk(a, b) ==> final(self).slot(a, b) == if a == x && b == y {
                    None
                } else {
                    old(self).slot(a, b)
                },
    {
        self.set(x, y, None);
    }
}

proof fn lemma_row_major(x: int, y: int, w: int, h: int)
    requires
        0 <= x < w,
        0 <= y < h,
    ensures
        0 <= y * w <= y * w + x < w * h,
{
    assert(0 <= y * w <= y * w + x < w * h) by (nonlinear_arith)
        requires
            0 <= x < w,
            0 <= y < h,
    ;
}

proof fn lemma_row_major_unique(a: int, b: int, x: int, y: int, w: int)
    requires
        0 <= a < w,
        0 <= x < w,
        b >= 0,
        y >= 0,
        b * w + a == y * w + x,
    ensures
        a == x,
        b == y,
{
    if b < y {
        assert(b * w + a < y * w + x) by (nonlinear_arith)
            requires
                b < y,
                0 <= a < w,
                0 <= x,
        ;
    } else if b > y {
        assert(b * w + a > y * w + x) by (nonlinear_arith)
            requires
                b > y,
                0 <= x < w,
                0 <= a,
        ;
    }
}

} // verus!

verus! {

/// The key under which chunk (`cx`, `cy`) is stored: both halves shifted to be non-negative
/// and packed into one 64-bit word.
pub open spec fn chunk_key(cx: int, cy: int) -> int {
    (cx + 0x8000_0000) * 0x1_0000_0000 + (cy + 0x8000_0000)
}

pub open spec fn is_i32(v: int) -> bool {
    i32::MIN <= v <= i32::MAX
}

fn key_of(cx: i32, cy: i32) -> (k: u64)
    ensures
        k == chunk_key(cx as int, cy as int),
{
    let hi: u64 = (cx as i64 + 0x8000_0000) as u64;
    let lo: u64 = (cy as i64 + 0x8000_0000) as u64;
    assert(hi * 0x1_0000_0000 + lo <= u64::MAX) by (nonlinear_arith)
        requires
            hi < 0x1_0000_0000,
            lo < 0x1_0000_0000,
    ;
    hi * 0x1_0000_0000 + lo
}

proof fn lemma_chunk_key_injective(a: int, b: int, c: int, d: int)
    requires
        is_i32(a),
        is_i32(b),
        is_i32(c),
        is_i32(d),
        chunk_key(a, b) == chunk_key(c, d),
    ensures
        a == c,
        b == d,
{
    lemma_row_major_unique(b + 0x8000_0000, a + 0x8000_0000, d + 0x8000_0000, c + 0x8000_0000, 0x1_0000_0000);
}

proof fn lemma_chunk_key_range(a: int, b: int)
    requires
        is_i32(a),
        is_i32(b),
    ensures
        0 <= chunk_key(a, b) <= u64::MAX,
        chunk_key(a, b) as u64 == chunk_key(a, b),
{
    assert(0 <= chunk_key(a, b) <= u64::MAX) by (nonlinear_arith)
        requires
            0 <= a + 0x8000_0000 < 0x1_0000_0000,
            0 <= b + 0x8000_0000 < 0x1_0000_0000,
    ;
}

/// A world coordinate is its chunk index times the chunk size plus its offset in the chunk.
proof fn lemma_split(v: int, d: int)
    requires
        d > 0,
    ensures
        v == chunk_of(v, d) * d + local_of(v, d),
        0 <= local_of(v, d) < d,
        is_i32(v) ==> is_i32(chunk_of(v, d)),
{
    vstd::arithmetic::div_mod::lemma_fundamental_div_mod(v, d);
    assert(v == chunk_of(v, d) * d + local_of(v, d)) by (nonlinear_arith)
        requires
            v == d * (v / d) + v % d,
    ;
    if is_i32(v) {
        if v >= 0 {
            vstd::arithmetic::div_mod::lemma_div_pos_is_pos(v, d);
            vstd::arithmetic::div_mod::lemma_div_is_ordered_by_denominator(v, 1, d);
        } else {
            vstd::arithmetic::div_mod::lemma_div_is_ordered(i32::MIN as int, v, d);
            vstd::arithmetic::div_mod::lemma_div_is_ordered_by_denominator(-v, 1, d);
            assert(chunk_of(v, d) < 0) by (nonlinear_arith)
                requires
                    v == chunk_of(v, d) * d + local_of(v, d),
                    v < 0,
                    0 <= local_of(v, d) < d,
            ;
            assert(chunk_of(v, d) >= i32::MIN) by (nonlinear_arith)
                requires
                    v == chunk_of(v, d) * d + local_of(v, d),
                    v >= i32::MIN,
                    0 <= local_of(v, d),
                    d >= 1,
                    chunk_of(v, d) < 0,
            ;
        }
    }
}

/// `g1` is `g0` with `entity` registered at (`x`, `y`) and every other coordinate unchanged.
pub open spec fn inserted(g0: Grid, g1: Grid, x: i32, y: i32, entity: CellId) -> bool {
    forall|a: i32, b: i32|
        #![trigger g1.cell_at(a as int, b as int)]
        g1.cell_at(a as int, b as int) == if a == x && b == y {
            Some(entity)
        } else {
            g0.cell_at(a as int, b as int)
        }
}

/// Two inserts at distinct free coordinates never collide: the second coordinate is still free
/// after the first insert, and both handles are registered after the second.
pub proof fn lemma_distinct_inserts(
    g0: Grid,
    g1: Grid,
    g2: Grid,
    x1: i32,
    y1: i32,
    e1: CellId,
    x2: i32,
    y2: i32,
    e2: CellId,
)
    requires
        x1 != x2 || y1 != y2,
        g0.cell_at(x1 as int, y1 as int).is_none(),
        g0.cell_at(x2 as int, y2 as int).is_none(),
        inserted(g0, g1, x1, y1, e1),
        inserted(g1, g2, x2, y2, e2),
    ensures
        g1.cell_at(x2 as int, y2 as int).is_none(),
        g2.cell_at(x1 as int, y1 as int) == Some(e1),
        g2.cell_at(x2 as int, y2 as int) == Some(e2),
{
    assert(g1.cell_at(x2 as int, y2 as int) == g0.cell_at(x2 as int, y2 as int));
    assert(g2.cell_at(x1 as int, y1 as int) == g1.cell_at(x1 as int, y1 as int));
    assert(g2.cell_at(x2 as int, y2 as int) == Some(e2));
}

/// The sparse grid: chunks of `chunk_width * chunk_height` slots, created on first insert,
/// keyed by chunk coordinates.
pub struct Grid {
    width: u32,
    height: u32,
    cell_size: u32,
    chunk_width: u32,
    chunk_height: u32,
    chunks: HashMap<u64, Chunk>,
}

impl Grid {
    pub closed spec fn spec_width(&self) -> int {
        self.width as int
    }

    pub closed spec fn spec_height(&self) -> int {
        self.height as int
    }

    pub closed spec fn spec_cell_size(&self) -> int {
        self.cell_size as int
    }

    pub closed spec fn spec_chunk_width(&self) -> int {
        self.chunk_width as int
    }

    pub closed spec fn spec_chunk_height(&self) -> int {
        self.chunk_height as int
    }

    pub closed spec fn wf(&self) -> bool {
        &&& self.chunk_width > 0
        &&& self.chunk_height > 0
        &&& self.chunk_width * self.chunk_height <= usize::MAX
        &&& forall|k: u64| #[trigger]
            self.chunks@.contains_key(k) ==> {
                &&& self.chunks@[k].wf()
                &&& self.chunks@[k].spec_width() == self.chunk_width
                &&& self.chunks@[k].spec_height() == self.chunk_height
            }
    }

    /// Whether chunk (`cx`, `cy`) has been created.
    pub closed spec fn has_chunk(&self, cx: int, cy: int) -> bool {
        self.chunks@.contains_key(chunk_key(cx, cy) as u64)
    }

    /// Whether the chunk that owns world coordinate (`x`, `y`) has been created.
    pub open spec fn owns(&self, x: int, y: int) -> bool {
        self.has_chunk(chunk_of(x, self.spec_chunk_width()), chunk_of(y, self.spec_chunk_height()))
    }

    /// The handle at world coordinate (`x`, `y`); `None` where the slot is empty or its chunk
    /// does not exist.
    pub closed spec fn cell_at(&self, x: int, y: int) -> Option<CellId> {
        if self.owns(x, y) {
            self.chunks@[chunk_key(
                chunk_of(x, self.chunk_width as int),
                chunk_of(y, self.chunk_height as int),
            ) as u64].slot(local_of(x, self.chunk_width as int), local_of(y, self.chunk_height as int))
        } else {
            None
        }
    }

    /// An empty grid of `width` by `height` cells of side `cell_size`, stored in chunks of
    /// `chunk_width` by `chunk_height`.
    pub fn new(width: u32, height: u32, cell_size: u32, chunk_width: u32, chunk_height: u32) -> (r:
        Grid)
        requires
            chunk_width > 0,
            chunk_height > 0,
            chunk_width * chunk_height <= usize::MAX,
        ensures
            r.wf(),
            r.spec_width() == width,
            r.spec_height() == height,
            r.spec_cell_size() == cell_size,
            r.spec_chunk_width() == chunk_width,
            r.spec_chunk_height() == chunk_height,
            forall|cx: int, cy: int| !r.has_chunk(cx, cy),
            forall|x: int, y: int| r.cell_at(x, y).is_none(),
    {
        Grid { width, height, cell_size, chunk_width, chunk_height, chunks: HashMap::new() }
    }

    pub fn width(&self) -> (r: u32)
        ensures
            r == self.spec_width(),
    {
        self.width
    }

    pub fn height(&self) -> (r: u32)
        ensures
            r == self.spec_height(),
    {
        self.height
    }

    pub fn cell_size(&self) -> (r: u32)
        ensures
            r == self.spec_cell_size(),
    {
        self.cell_size
    }

    /// The handle at (`x`, `y`): `MissingChunk` when its chunk was never created, else what
    /// the slot holds.
    pub fn get(&self, x: i32, y: i32) -> (r: Result<Option<CellId>, GridError>)
        requires
            self.wf(),
        ensures
            !self.owns(x as int, y as int) ==> r == Err::<Option<CellId>, GridError>(
                GridError::MissingChunk,
            ),
            self.owns(x as int, y as int) ==> r == Ok::<Option<CellId>, GridError>(
                self.cell_at(x as int, y as int),
            ),
            r is Err ==> self.cell_at(x as int, y as int).is_none(),
    {
        let cx = floor_div(x, self.chunk_width);
        let cy = floor_div(y, self.chunk_height);
        let key = key_of(cx, cy);
        match self.chunks.get(&key) {
            None => Err(GridError::MissingChunk),
            Some(chunk) => {
                let lx = rem_euclid(x, self.chunk_width);
                let ly = rem_euclid(y, self.chunk_height);
                Ok(chunk.get(lx, ly))
            },
        }
    }

    /// Registers `entity` at (`x`, `y`), creating the owning chunk on demand. A coordinate
    /// that already holds a handle is refused with `Occupied` and the grid is left as it was.
    pub fn insert(&mut self, x: i32, y: i32, entity: CellId) -> (r: Result<(), GridError>)
        requires
            old(self).wf(),
        ensures
            final(self).wf(),
            final(self).spec_width() == old(self).spec_width(),
            final(self).spec_height() == old(self).spec_height(),
            final(self).spec_cell_size() == old(self).spec_cell_size(),
            final(self).spec_chunk_width() == old(self).spec_chunk_width(),
            final(self).spec_chunk_height() == old(self).spec_chunk_height(),
            old(self).cell_at(x as int, y as int).is_some() ==> r == Err::<(), GridError>(
                GridError::Occupied,
            ) && *final(self) == *old(self),
            old(self).cell_at(x as int, y as int).is_none() ==> {
                &&& r == Ok::<(), GridError>(())
                &&& inserted(*old(self), *final(self), x, y, entity)
                &&& forall|cx: int, cy: int|
                    is_i32(cx) && is_i32(cy) ==> #[trigger] final(self).has_chunk(cx, cy) == (
                    old(self).has_chunk(cx, cy) || (cx == chunk_of(
                        x as int,
                        old(self).spec_chunk_width(),
                    ) && cy == chunk_of(y as int, old(self).spec_chunk_height())))
            },
    {
        let cw = self.chunk_width;
        let ch = self.chunk_height;
        let cx = floor_div(x, cw);
        let cy = floor_div(y, ch);
        let lx = rem_euclid(x, cw);
        let ly = rem_euclid(y, ch);
        let key = key_of(cx, cy);
        proof {
            lemma_split(x as int, cw as int);
            lemma_split(y as int, ch as int);
        }
        match self.chunks.get(&key) {
            Some(chunk) => {
                if chunk.get(lx, ly).is_some() {
                    return Err(GridError::Occupied);
                }
            },
            None => {},
        }
        let ghost before = *self;
        let mut chunk = match self.chunks.remove(&key) {
            Some(c) => c,
            None => Chunk::new(cw, ch),
        };
        let ghost old_chunk = chunk;
        chunk.insert(lx, ly, entity);
        self.chunks.insert(key, chunk);
        proof {
            assert forall|a: i32, b: i32|
                #![trigger self.cell_at(a as int, b as int)]
                self.cell_at(a as int, b as int) == if a == x && b == y {
                    Some(entity)
                } else {
                    before.cell_at(a as int, b as int)
                } by {
                lemma_split(a as int, cw as int);
                lemma_split(b as int, ch as int);
                let ca = chunk_of(a as int, cw as int);
                let cb = chunk_of(b as int, ch as int);
                lemma_chunk_key_range(ca, cb);
                lemma_chunk_key_range(cx as int, cy as int);
                let la = local_of(a as int, cw as int);
                let lb = local_of(b as int, ch as int);
                if ca == cx && cb == cy {
                    assert(chunk.in_chunk(la, lb));
                    assert(old_chunk.in_chunk(la, lb));
                    if la == lx && lb == ly {
                        assert(a == x && b == y);
                    }
                } else if chunk_key(ca, cb) == chunk_key(cx as int, cy as int) {
                    lemma_chunk_key_injective(ca, cb, cx as int, cy as int);
                }
            }
            assert forall|qx: int, qy: int|
                is_i32(qx) && is_i32(qy) implies #[trigger] self.has_chunk(qx, qy) == (
                before.has_chunk(qx, qy) || (qx == cx && qy == cy)) by {
                lemma_chunk_key_range(qx, qy);
                lemma_chunk_key_range(cx as int, cy as int);
                if chunk_key(qx, qy) == chunk_key(cx as int, cy as int) {
                    lemma_chunk_key_injective(qx, qy, cx as int, cy as int);
                }
            }
        }
        Ok(())
    }
}

} // verus!
