//! Cell kinds and what their visual slots show in each state.

use vstd::prelude::*;
use crate::grid::{CellId, Grid};
use crate::world::{SpawnError, World};

verus! {

/// A mine: revealing it ends the game. It can be flagged.
#[derive(Clone, Copy, Debug, PartialEq, Eq, Structural)]
pub struct Mine;

/// Open ground that shows how many of its eight neighbours are mines once revealed.
/// It can be flagged while hidden.
#[derive(Clone, Copy, Debug, PartialEq, Eq, Structural)]
pub struct Air {
    pub neighbor_mines: u8,
    pub revealed: bool,
}

/// An obstacle: never revealed, never flagged.
#[derive(Clone, Copy, Debug, PartialEq, Eq, Structural)]
pub struct Wall;

/// The kind of a cell: exactly one of mine, air or wall.
#[derive(Clone, Copy, Debug, PartialEq, Eq, Structural)]
pub enum CellKind {
    Mine,
    Air(Air),
    Wall,
}

/// A cell record: its kind and whether the player has flagged it.
#[derive(Clone, Copy, Debug, PartialEq, Eq, Structural)]
pub struct Cell {
    pub kind: CellKind,
    pub flagged: bool,
}

/// The image a visual slot shows.
#[derive(Clone, Copy, Debug, PartialEq, Eq, Structural)]
pub enum Texture {
    Blank,
    Border,
    Wall,
    Flag,
    Numeral(u8),
}

/// A colour with 8-bit channels.
#[derive(Clone, Copy, Debug, PartialEq, Eq, Structural)]
pub struct Rgb {
    pub r: u8,
    pub g: u8,
    pub b: u8,
}

/// What one visual slot of a cell shows: an image, its tint, and whether it is drawn.
#[derive(Clone, Copy, Debug, PartialEq, Eq, Structural)]
pub struct Look {
    pub texture: Texture,
    pub tint: Rgb,
    pub visible: bool,
}

pub open spec fn white() -> Rgb {
    Rgb { r: 255, g: 255, b: 255 }
}

/// The tint of numeral `n`, for `n` in 1..=8.
pub open spec fn palette(n: int) -> Rgb {
    if n == 1 {
        Rgb { r: 80, g: 96, b: 219 }
    } else if n == 2 {
        Rgb { r: 21, g: 181, b: 81 }
    } else if n == 3 {
        Rgb { r: 233, g: 64, b: 51 }
    } else if n == 4 {
        Rgb { r: 63, g: 63, b: 143 }
    } else if n == 5 {
        Rgb { r: 187, g: 51, b: 37 }
    } else if n == 6 {
        Rgb { r: 45, g: 151, b: 170 }
    } else if n == 7 {
        Rgb { r: 226, g: 181, b: 23 }
    } else {
        Rgb { r: 177, g: 70, b: 193 }
    }
}

pub open spec fn hidden_look() -> Look {
    Look { texture: Texture::Blank, tint: white(), visible: false }
}

pub open spec fn border_shown() -> Look {
    Look { texture: Texture::Border, tint: white(), visible: true }
}

pub open spec fn flag_shown() -> Look {
    Look { texture: Texture::Flag, tint: white(), visible: true }
}

/// What the content slot of `cell` shows: the flag icon while it is flagged, else what its
/// kind shows.
pub open spec fn shown_content(cell: Cell) -> Look {
    if cell.flagged {
        flag_shown()
    } else {
        content_look(cell.kind)
    }
}

/// What the content slot of a cell of kind `kind` shows.
pub open spec fn content_look(kind: CellKind) -> Look {
    match kind {
        CellKind::Mine => hidden_look(),
        CellKind::Air(a) => if a.revealed && a.neighbor_mines > 0 {
            Look {
                texture: Texture::Numeral(a.neighbor_mines),
                tint: palette(a.neighbor_mines as int),
                visible: true,
            }
        } else {
            hidden_look()
        },
        CellKind::Wall => Look { texture: Texture::Wall, tint: white(), visible: true },
    }
}

/// What the border slot of a cell of kind `kind` shows; walls have no border slot.
pub open spec fn border_look(kind: CellKind) -> Option<Look> {
    match kind {
        CellKind::Mine => Some(border_shown()),
        CellKind::Air(a) => if a.revealed && a.neighbor_mines == 0 {
            Some(hidden_look())
        } else {
            Some(border_shown())
        },
        CellKind::Wall => None,
    }
}

fn palette_color(n: u8) -> (r: Rgb)
    requires
        1 <= n <= 8,
    ensures
        r == palette(n as int),
{
    match n {
        1 => Rgb { r: 80, g: 96, b: 219 },
        2 => Rgb { r: 21, g: 181, b: 81 },
        3 => Rgb { r: 233, g: 64, b: 51 },
        4 => Rgb { r: 63, g: 63, b: 143 },
        5 => Rgb { r: 187, g: 51, b: 37 },
        6 => Rgb { r: 45, g: 151, b: 170 },
        7 => Rgb { r: 226, g: 181, b: 23 },
        _ => Rgb { r: 177, g: 70, b: 193 },
    }
}

fn hidden() -> (r: Look)
    ensures
        r == hidden_look(),
{
    Look { texture: Texture::Blank, tint: Rgb { r: 255, g: 255, b: 255 }, visible: false }
}

pub(crate) fn flag() -> (r: Look)
    ensures
        r == flag_shown(),
{
    Look { texture: Texture::Flag, tint: Rgb { r: 255, g: 255, b: 255 }, visible: true }
}

fn border() -> (r: Look)
    ensures
        r == border_shown(),
{
    Look { texture: Texture::Border, tint: Rgb { r: 255, g: 255, b: 255 }, visible: true }
}

/// The capabilities that every cell kind shares: its sprite footprint, whether it has a
/// border slot, what its slots show, and the kind it enters the world as.
pub trait CellBehavior: Sized {
    spec fn spec_size() -> u32;

    spec fn spec_kind(&self) -> CellKind;

    /// Side of the kind's sprite in world units.
    fn size() -> (r: u32)
        ensures
            r == Self::spec_size(),
    ;

    fn has_border() -> (r: bool)
        ensures
            forall|c: Self| #[trigger] border_look(c.spec_kind()).is_some() == r,
    ;

    fn kind(&self) -> (r: CellKind)
        ensures
            r == self.spec_kind(),
    ;

    fn update_content(&self) -> (r: Look)
        ensures
            r == content_look(self.spec_kind()),
    ;

    /// What the border slot shows; only kinds that have a border slot can be asked.
    fn update_border(&self) -> (r: Look)
        requires
            border_look(self.spec_kind()) is Some,
        ensures
            Some(r) == border_look(self.spec_kind()),
    ;
    /// Where a cell of kind `T` is drawn: its coordinate scaled by the cell size. A kind whose
    /// sprite does not fit in a cell is refused.
    fn transform(grid: &Grid, x: i32, y: i32) -> (r: Result<(i64, i64), SpawnError>)
        ensures
            Self::spec_size() > grid.spec_cell_size() ==> r == Err::<(i64, i64), SpawnError>(
                SpawnError::TooLarge,
            ),
            Self::spec_size() <= grid.spec_cell_size() ==> r == Ok::<(i64, i64), SpawnError>(
                ((x * grid.spec_cell_size()) as i64, (y * grid.spec_cell_size()) as i64),
            ),
    {
        let cell_size = grid.cell_size();
        if Self::size() > cell_size {
            return Err(SpawnError::TooLarge);
        }
        let cs = cell_size as i64;
        assert(i64::MIN <= x * cs <= i64::MAX) by (nonlinear_arith)
            requires
                -0x8000_0000 <= x < 0x8000_0000,
                0 <= cs < 0x1_0000_0000,
        ;
        assert(i64::MIN <= y * cs <= i64::MAX) by (nonlinear_arith)
            requires
                -0x8000_0000 <= y < 0x8000_0000,
                0 <= cs < 0x1_0000_0000,
        ;
        Ok(((x as i64) * cs, (y as i64) * cs))
    }

    /// Brings `cell` into the world at (`x`, `y`): the sprite must fit in a grid cell and the
    /// coordinate must be free. On success the new handle is registered at (`x`, `y`) and no
    /// other coordinate changes; on failure the world is left as it was.
    fn spawn(self, world: &mut World, x: i32, y: i32) -> (r: Result<CellId, SpawnError>)
        requires
            old(world).wf(),
        ensures
            final(world).wf(),
            final(world).spec_grid().spec_width() == old(world).spec_grid().spec_width(),
            final(world).spec_grid().spec_height() == old(world).spec_grid().spec_height(),
            final(world).spec_grid().spec_cell_size() == old(world).spec_grid().spec_cell_size(),
            Self::spec_size() > old(world).spec_grid().spec_cell_size() ==> r == Err::<CellId, SpawnError>(
                SpawnError::TooLarge,
            ) && *final(world) == *old(world),
            Self::spec_size() <= old(world).spec_grid().spec_cell_size() && old(world).cell_at(
                x as int,
                y as int,
            ).is_some() ==> r == Err::<CellId, SpawnError>(SpawnError::Occupied) && *final(world)
                == *old(world),
            Self::spec_size() <= old(world).spec_grid().spec_cell_size() && old(world).cell_at(
                x as int,
                y as int,
            ).is_none() ==> r is Ok && final(world).handle_at(x as int, y as int) == Some(r->Ok_0)
                && forall|a: i32, b: i32| #[trigger]
                final(world).cell_at(a as int, b as int) == if a == x && b == y {
                    Some(Cell { kind: self.spec_kind(), flagged: false })
                } else {
                    old(world).cell_at(a as int, b as int)
                },
    {
        match Self::transform(world.grid(), x, y) {
            Err(e) => Err(e),
            Ok(_) => world.add(self.kind(), x, y),
        }
    }
}

impl CellBehavior for Mine {
    open spec fn spec_size() -> u32 {
        16
    }

    open spec fn spec_kind(&self) -> CellKind {
        CellKind::Mine
    }

    fn size() -> (r: u32) {
        16
    }

    fn has_border() -> (r: bool) {
        true
    }

    fn kind(&self) -> (r: CellKind) {
        CellKind::Mine
    }

    fn update_content(&self) -> (r: Look) {
        hidden()
    }

    fn update_border(&self) -> (r: Look) {
        border()
    }
}

impl CellBehavior for Air {
    open spec fn spec_size() -> u32 {
        16
    }

    open spec fn spec_kind(&self) -> CellKind {
        CellKind::Air(*self)
    }

    fn size() -> (r: u32) {
        16
    }

    fn has_border() -> (r: bool) {
        true
    }

    fn kind(&self) -> (r: CellKind) {
        CellKind::Air(*self)
    }

    fn update_content(&self) -> (r: Look) {
        if !self.revealed || self.neighbor_mines == 0 {
            return hidden();
        }
        let n = if self.neighbor_mines > 8 {
            8
        } else {
            self.neighbor_mines
        };
        Look {
            texture: Texture::Numeral(self.neighbor_mines),
            tint: palette_color(n),
            visible: true,
        }
    }

    fn update_border(&self) -> (r: Look) {
        if self.revealed && self.neighbor_mines == 0 {
            hidden()
        } else {
            border()
        }
    }
}

impl CellBehavior for Wall {
    open spec fn spec_size() -> u32 {
        20
    }

    open spec fn spec_kind(&self) -> CellKind {
        CellKind::Wall
    }

    fn size() -> (r: u32) {
        20
    }

    fn has_border() -> (r: bool) {
        false
    }

    fn kind(&self) -> (r: CellKind) {
        CellKind::Wall
    }

    fn update_content(&self) -> (r: Look) {
        Look { texture: Texture::Wall, tint: Rgb { r: 255, g: 255, b: 255 }, visible: true }
    }

    fn update_border(&self) -> (r: Look) {
        // Out of the domain: a wall has no border slot, so the precondition never holds.
        hidden()
    }
}

} // verus!
