//! The world: the grid of handles and the arena of cell records, and how cells are spawned.

use vstd::prelude::*;
use crate::cell::{Air, Cell, CellBehavior, CellKind, Mine, Wall};
use crate::grid::{CellId, Grid, GridError, is_i32};

verus! {

/// Why a cell could not be spawned.
#[derive(Clone, Copy, Debug, PartialEq, Eq, Structural)]
pub enum SpawnError {
    /// The kind's sprite is larger than a grid cell.
    TooLarge,
    /// The coordinate already holds a cell.
    Occupied,
}

/// One entry of the arena: the cell and the coordinate it is registered at.
struct Record {
    x: i32,
    y: i32,
    cell: Cell,
}

/// The simulation state: the grid of handles and the arena of cell records that the
/// handles index.
pub struct World {
    grid: Grid,
    records: Vec<Record>,
}

impl World {
    /// The grid maps each coordinate of a record to that record's handle, and every
    /// handle in the grid to a record registered at that coordinate.
    pub closed spec fn wf(&self) -> bool {
        &&& self.grid.wf()
        &&& forall|i: int|
            0 <= i < self.records@.len() ==> #[trigger] self.grid.cell_at(
                self.records@[i].x as int,
                self.records@[i].y as int,
            ) == Some(CellId { index: i as usize })
        &&& forall|a: i32, b: i32| #[trigger]
            self.grid.cell_at(a as int, b as int) is Some ==> {
                let i = self.grid.cell_at(a as int, b as int)->0.index as int;
                &&& i < self.records@.len()
                &&& self.records@[i].x == a
                &&& self.records@[i].y == b
            }
    }

    pub closed spec fn spec_grid(&self) -> Grid {
        self.grid
    }

    pub open spec fn width(&self) -> int {
        self.spec_grid().spec_width()
    }

    pub open spec fn height(&self) -> int {
        self.spec_grid().spec_height()
    }

    /// The handle registered at (`x`, `y`).
    pub open spec fn handle_at(&self, x: int, y: int) -> Option<CellId> {
        if is_i32(x) && is_i32(y) {
            self.spec_grid().cell_at(x, y)
        } else {
            None
        }
    }

    pub open spec fn valid(&self, id: CellId) -> bool {
        id.index < self.count()
    }

    /// The record behind handle `id`.
    pub closed spec fn cell_of(&self, id: CellId) -> Cell {
        self.records@[id.index as int].cell
    }

    /// The cell at (`x`, `y`), if one is registered there.
    pub open spec fn cell_at(&self, x: int, y: int) -> Option<Cell> {
        match self.handle_at(x, y) {
            Some(id) => Some(self.cell_of(id)),
            None => None,
        }
    }

    /// Distinct coordinates hold distinct handles, and every handle in the grid is valid.
    pub proof fn lemma_handles(&self, a: int, b: int, c: int, d: int)
        requires
            self.wf(),
        ensures
            self.handle_at(a, b) is Some ==> self.valid(self.handle_at(a, b)->0),
            self.handle_at(a, b) is Some && self.handle_at(a, b) == self.handle_at(c, d) ==> a == c
                && b == d,
    {
        if self.handle_at(a, b) is Some {
            assert(self.grid.cell_at((a as i32) as int, (b as i32) as int) is Some);
            if self.handle_at(a, b) == self.handle_at(c, d) {
                assert(self.grid.cell_at((c as i32) as int, (d as i32) as int) is Some);
            }
        }
    }

    /// Number of cell records.
    pub closed spec fn count(&self) -> nat {
        self.records@.len()
    }

    /// A world with no cells, over an empty grid.
    pub fn new(grid: Grid) -> (r: World)
        requires
            grid.wf(),
            forall|x: int, y: int| grid.cell_at(x, y).is_none(),
        ensures
            r.wf(),
            r.spec_grid() == grid,
            r.count() == 0,
            forall|x: int, y: int| r.cell_at(x, y).is_none(),
    {
        World { grid, records: Vec::new() }
    }

    pub fn grid(&self) -> (r: &Grid)
        ensures
            *r == self.spec_grid(),
    {
        &self.grid
    }

    /// The handle at (`x`, `y`), as the grid reports it.
    pub fn get(&self, x: i32, y: i32) -> (r: Result<Option<CellId>, GridError>)
        requires
            self.wf(),
        ensures
            !self.spec_grid().owns(x as int, y as int) ==> r == Err::<Option<CellId>, GridError>(
                GridError::MissingChunk,
            ),
            self.spec_grid().owns(x as int, y as int) ==> r == Ok::<Option<CellId>, GridError>(
                self.handle_at(x as int, y as int),
            ),
            r matches Ok(Some(id)) ==> self.valid(id) && self.handle_at(x as int, y as int) == Some(
                id,
            ),
            !(r matches Ok(Some(_))) ==> self.handle_at(x as int, y as int).is_none(),
    {
        proof {
            self.lemma_handles(x as int, y as int, x as int, y as int);
        }
        self.grid.get(x, y)
    }

    /// The record behind handle `id`.
    pub fn cell(&self, id: CellId) -> (r: Cell)
        requires
            self.valid(id),
        ensures
            r == self.cell_of(id),
    {
        self.records[id.index].cell
    }

    /// Replaces the record behind `id`; every coordinate keeps its handle.
    pub(crate) fn set_cell(&mut self, id: CellId, cell: Cell)
        requires
            old(self).wf(),
            old(self).valid(id),
        ensures
            final(self).wf(),
            final(self).spec_grid() == old(self).spec_grid(),
            final(self).count() == old(self).count(),
            forall|other: CellId|
                #![trigger final(self).cell_of(other)]
                final(self).valid(other) ==> final(self).cell_of(other) == if other.index == id.index {
                    cell
                } else {
                    old(self).cell_of(other)
                },
    {
        let x = self.records[id.index].x;
        let y = self.records[id.index].y;
        self.records.set(id.index, Record { x, y, cell });
        assert(self.records@.len() == old(self).records@.len());
        assert forall|i: int| 0 <= i < self.records@.len() implies #[trigger] self.grid.cell_at(
            self.records@[i].x as int,
            self.records@[i].y as int,
        ) == Some(CellId { index: i as usize }) by {
            assert(old(self).grid.cell_at(
                old(self).records@[i].x as int,
                old(self).records@[i].y as int,
            ) == Some(CellId { index: i as usize }));
        }
    }

    /// Registers a new record for `kind` at (`x`, `y`), unflagged.
    pub(crate) fn add(&mut self, kind: CellKind, x: i32, y: i32) -> (r: Result<CellId, SpawnError>)
        requires
            old(self).wf(),
        ensures
            final(self).wf(),
            final(self).spec_grid().spec_width() == old(self).spec_grid().spec_width(),
            final(self).spec_grid().spec_height() == old(self).spec_grid().spec_height(),
            final(self).spec_grid().spec_cell_size() == old(self).spec_grid().spec_cell_size(),
            old(self).cell_at(x as int, y as int).is_some() ==> r == Err::<CellId, SpawnError>(
                SpawnError::Occupied,
            ) && *final(self) == *old(self),
            old(self).cell_at(x as int, y as int).is_none() ==> r is Ok && final(self).handle_at(
                x as int,
                y as int,
            ) == Some(r->Ok_0) && forall|a: i32, b: i32| #[trigger]
                final(self).cell_at(a as int, b as int) == if a == x && b == y {
                    Some(Cell { kind, flagged: false })
                } else {
                    old(self).cell_at(a as int, b as int)
                },
    {
        let id = CellId { index: self.records.len() };
        match self.grid.insert(x, y, id) {
            Err(_) => Err(SpawnError::Occupied),
            Ok(()) => {
                let ghost prev = self.records@;
                self.records.push(Record { x, y, cell: Cell { kind, flagged: false } });
                proof {
                    assert forall|i: int| 0 <= i < self.records@.len() implies #[trigger] self.grid.cell_at(
                        self.records@[i].x as int,
                        self.records@[i].y as int,
                    ) == Some(CellId { index: i as usize }) by {
                        if i < prev.len() {
                            assert(old(self).grid.cell_at(prev[i].x as int, prev[i].y as int)
                                == Some(CellId { index: i as usize }));
                            assert(self.records@[i] == prev[i]);
                        }
                    }
                    assert forall|a: i32, b: i32| #[trigger]
                        self.grid.cell_at(a as int, b as int) is Some implies {
                        let i = self.grid.cell_at(a as int, b as int)->0.index as int;
                        &&& i < self.records@.len()
                        &&& self.records@[i].x == a
                        &&& self.records@[i].y == b
                    } by {
                        if a != x || b != y {
                            assert(old(self).grid.cell_at(a as int, b as int) is Some);
                        }
                    }
                    assert forall|a: i32, b: i32| #[trigger]
                        self.cell_at(a as int, b as int) == if a == x && b == y {
                            Some(Cell { kind, flagged: false })
                        } else {
                            old(self).cell_at(a as int, b as int)
                        } by {
                        if a != x || b != y {
                            if old(self).grid.cell_at(a as int, b as int) is Some {
                                let j = old(self).grid.cell_at(a as int, b as int)->0.index as int;
                                assert(j < prev.len());
                                assert(self.records@[j] == prev[j]);
                            }
                        }
                    }
                }
                Ok(id)
            },
        }
    }
}

/// Spawns each kind of cell.
pub struct CellFactory;

impl CellFactory {
    pub fn spawn_mine(world: &mut World, x: i32, y: i32) -> (r: Result<CellId, SpawnError>)
        requires
            old(world).wf(),
        ensures
            final(world).wf(),
            final(world).spec_grid().spec_width() == old(world).spec_grid().spec_width(),
            final(world).spec_grid().spec_height() == old(world).spec_grid().spec_height(),
            final(world).spec_grid().spec_cell_size() == old(world).spec_grid().spec_cell_size(),
            old(world).spec_grid().spec_cell_size() < 16 ==> r == Err::<CellId, SpawnError>(
                SpawnError::TooLarge,
            ) && *final(world) == *old(world),
            old(world).spec_grid().spec_cell_size() >= 16 && old(world).cell_at(
                x as int,
                y as int,
            ).is_some() ==> r == Err::<CellId, SpawnError>(SpawnError::Occupied) && *final(world)
                == *old(world),
            old(world).spec_grid().spec_cell_size() >= 16 && old(world).cell_at(
                x as int,
                y as int,
            ).is_none() ==> r is Ok && final(world).handle_at(x as int, y as int) == Some(r->Ok_0)
                && forall|a: i32, b: i32| #[trigger]
                final(world).cell_at(a as int, b as int) == if a == x && b == y {
                    Some(Cell { kind: CellKind::Mine, flagged: false })
                } else {
                    old(world).cell_at(a as int, b as int)
                },
    {
        Mine.spawn(world, x, y)
    }

    pub fn spawn_air(world: &mut World, x: i32, y: i32, neighbor_mines: u8) -> (r: Result<CellId, SpawnError>)
        requires
            old(world).wf(),
            neighbor_mines <= 8,
        ensures
            final(world).wf(),
            final(world).spec_grid().spec_width() == old(world).spec_grid().spec_width(),
            final(world).spec_grid().spec_height() == old(world).spec_grid().spec_height(),
            final(world).spec_grid().spec_cell_size() == old(world).spec_grid().spec_cell_size(),
            old(world).spec_grid().spec_cell_size() < 16 ==> r == Err::<CellId, SpawnError>(
                SpawnError::TooLarge,
            ) && *final(world) == *old(world),
            old(world).spec_grid().spec_cell_size() >= 16 && old(world).cell_at(
                x as int,
                y as int,
            ).is_some() ==> r == Err::<CellId, SpawnError>(SpawnError::Occupied) && *final(world)
                == *old(world),
            old(world).spec_grid().spec_cell_size() >= 16 && old(world).cell_at(
                x as int,
                y as int,
            ).is_none() ==> r is Ok && final(world).handle_at(x as int, y as int) == Some(r->Ok_0)
                && forall|a: i32, b: i32| #[trigger]
                final(world).cell_at(a as int, b as int) == if a == x && b == y {
                    Some(
                        Cell {
                            kind: CellKind::Air(Air { neighbor_mines, revealed: false }),
                            flagged: false,
                        },
                    )
                } else {
                    old(world).cell_at(a as int, b as int)
                },
    {
        Air { neighbor_mines, revealed: false }.spawn(world, x, y)
    }

    pub fn spawn_wall(world: &mut World, x: i32, y: i32) -> (r: Result<CellId, SpawnError>)
        requires
            old(world).wf(),
        ensures
            final(world).wf(),
            final(world).spec_grid().spec_width() == old(world).spec_grid().spec_width(),
            final(world).spec_grid().spec_height() == old(world).spec_grid().spec_height(),
            final(world).spec_grid().spec_cell_size() == old(world).spec_grid().spec_cell_size(),
            old(world).spec_grid().spec_cell_size() < 20 ==> r == Err::<CellId, SpawnError>(
                SpawnError::TooLarge,
            ) && *final(world) == *old(world),
            old(world).spec_grid().spec_cell_size() >= 20 && old(world).cell_at(
                x as int,
                y as int,
            ).is_some() ==> r == Err::<CellId, SpawnError>(SpawnError::Occupied) && *final(world)
                == *old(world),
            old(world).spec_grid().spec_cell_size() >= 20 && old(world).cell_at(
                x as int,
                y as int,
            ).is_none() ==> r is Ok && final(world).handle_at(x as int, y as int) == Some(r->Ok_0)
                && forall|a: i32, b: i32| #[trigger]
                final(world).cell_at(a as int, b as int) == if a == x && b == y {
                    Some(Cell { kind: CellKind::Wall, flagged: false })
                } else {
                    old(world).cell_at(a as int, b as int)
                },
    {
        Wall.spawn(world, x, y)
    }
}

} // verus!
