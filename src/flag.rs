//! Flag toggling, and what holds of walls through any sequence of inputs.

use vstd::prelude::*;
use crate::cell::{Cell, CellKind};
use crate::cascade::{after_reveal, lemma_only_openable_revealed, openable};
use crate::world::World;

verus! {

/// The cell at `c` can carry a flag: a mine, or air that is still hidden.
pub open spec fn flaggable(w: World, x: int, y: int) -> bool {
    match w.cell_at(x, y) {
        Some(cell) => match cell.kind {
            CellKind::Mine => true,
            CellKind::Air(a) => !a.revealed,
            CellKind::Wall => false,
        },
        None => false,
    }
}

/// The cell at (`a`, `b`) once the flag at (`x`, `y`) has been toggled in world `w`.
pub open spec fn after_toggle(w: World, x: int, y: int, a: int, b: int) -> Option<Cell> {
    if a == x && b == y && flaggable(w, x, y) {
        let cell = w.cell_at(x, y)->0;
        Some(Cell { kind: cell.kind, flagged: !cell.flagged })
    } else {
        w.cell_at(a, b)
    }
}

/// Toggles the flag on the cell at (`x`, `y`). Walls, revealed air and empty coordinates are
/// left alone and give `None`; otherwise the flag flips and the result says whether the cell
/// is now flagged, which is whether its flag icon is shown.
pub fn toggle_flag(world: &mut World, x: i32, y: i32) -> (r: Option<bool>)
    requires
        old(world).wf(),
    ensures
        final(world).wf(),
        final(world).spec_grid() == old(world).spec_grid(),
        forall|a: int, b: int| #[trigger]
            final(world).cell_at(a, b) == after_toggle(*old(world), x as int, y as int, a, b),
        flaggable(*old(world), x as int, y as int) ==> r == Some(
            !old(world).cell_at(x as int, y as int)->0.flagged,
        ),
        !flaggable(*old(world), x as int, y as int) ==> r is None && *final(world) == *old(world),
{
    let handle = match world.get(x, y) {
        Ok(Some(h)) => h,
        _ => return None,
    };
    let cell = world.cell(handle);
    let can_flag = match cell.kind {
        CellKind::Wall => false,
        CellKind::Air(a) => !a.revealed,
        CellKind::Mine => true,
    };
    if !can_flag {
        return None;
    }
    let ghost w0 = *world;
    world.set_cell(handle, Cell { kind: cell.kind, flagged: !cell.flagged });
    proof {
        assert forall|a: int, b: int| #[trigger]
            world.cell_at(a, b) == after_toggle(w0, x as int, y as int, a, b) by {
            w0.lemma_handles(a, b, x as int, y as int);
        }
    }
    Some(!cell.flagged)
}

/// Toggling the same coordinate twice gives back every cell as it was.
pub proof fn lemma_toggle_twice(w0: World, w1: World, w2: World, x: int, y: int)
    requires
        forall|a: int, b: int| #[trigger] w1.cell_at(a, b) == after_toggle(w0, x, y, a, b),
        forall|a: int, b: int| #[trigger] w2.cell_at(a, b) == after_toggle(w1, x, y, a, b),
    ensures
        forall|a: int, b: int| #[trigger] w2.cell_at(a, b) == w0.cell_at(a, b),
{
    assert(w1.cell_at(x, y) == after_toggle(w0, x, y, x, y));
    assert forall|a: int, b: int| #[trigger] w2.cell_at(a, b) == w0.cell_at(a, b) by {
        assert(w1.cell_at(a, b) == after_toggle(w0, x, y, a, b));
    }
}

/// A revealed air cell takes no flag.
pub proof fn lemma_revealed_unflaggable(w: World, x: int, y: int, a: int, b: int)
    requires
        w.cell_at(x, y) matches Some(cell) && cell.kind matches CellKind::Air(air) && air.revealed,
    ensures
        after_toggle(w, x, y, a, b) == w.cell_at(a, b),
{
}

/// `w1` follows from `w0` by one input: a reveal of some coordinates, or a flag toggle at one.
pub open spec fn one_step(w0: World, w1: World) -> bool {
    ||| exists|seeds: Seq<(i32, i32)>| #[trigger] revealed_by(w0, w1, seeds)
    ||| exists|x: int, y: int| #[trigger] toggled_by(w0, w1, x, y)
}

/// `w1` is `w0` after a reveal of `seeds`.
pub open spec fn revealed_by(w0: World, w1: World, seeds: Seq<(i32, i32)>) -> bool {
    forall|a: int, b: int| #[trigger] w1.cell_at(a, b) == after_reveal(w0, seeds, a, b)
}

/// `w1` is `w0` after the flag at (`x`, `y`) was toggled.
pub open spec fn toggled_by(w0: World, w1: World, x: int, y: int) -> bool {
    forall|a: int, b: int| #[trigger] w1.cell_at(a, b) == after_toggle(w0, x, y, a, b)
}

/// A wall is neither revealed nor flagged by any sequence of inputs: it stays exactly as it
/// was.
pub proof fn lemma_walls_fixed(ws: Seq<World>, x: int, y: int, n: int)
    requires
        0 <= n < ws.len(),
        forall|i: int| 0 <= i < ws.len() - 1 ==> one_step(#[trigger] ws[i], ws[i + 1]),
        ws[0].cell_at(x, y) matches Some(cell) && cell.kind == CellKind::Wall,
    ensures
        ws[n].cell_at(x, y) == ws[0].cell_at(x, y),
    decreases n,
{
    if n > 0 {
        lemma_walls_fixed(ws, x, y, n - 1);
        let w0 = ws[n - 1];
        let w1 = ws[n];
        assert(one_step(ws[n - 1], ws[n - 1 + 1]));
        assert(!openable(w0, (x, y)));
        if exists|seeds: Seq<(i32, i32)>| #[trigger] revealed_by(w0, w1, seeds) {
            let seeds = choose|seeds: Seq<(i32, i32)>| #[trigger] revealed_by(w0, w1, seeds);
            lemma_only_openable_revealed(w0, seeds, x, y);
            assert(w1.cell_at(x, y) == after_reveal(w0, seeds, x, y));
        } else {
            let (px, py) = choose|px: int, py: int| #[trigger] toggled_by(w0, w1, px, py);
            assert(w1.cell_at(x, y) == after_toggle(w0, px, py, x, y));
        }
    }
}

} // verus!
