use minefield::coords::{floor_div, rem_euclid};
use minefield::grid::{CellId, Chunk, Grid, GridError};
use minefield::overlap::world_to_cell;

#[test]
fn negative_coordinate_addressing() {
    assert_eq!(floor_div(-1, 16), -1);
    assert_eq!(rem_euclid(-1, 16), 15);
    assert_eq!(floor_div(-16, 16), -1);
    assert_eq!(rem_euclid(-16, 16), 0);
    assert_eq!(floor_div(-17, 16), -2);
    assert_eq!(rem_euclid(-17, 16), 15);
    assert_eq!(floor_div(15, 16), 0);
    assert_eq!(floor_div(i32::MIN, 1), i32::MIN);
    assert_eq!(rem_euclid(i32::MIN, 7), (i32::MIN as i64).rem_euclid(7) as u32);
}

#[test]
fn chunk_addressing_round_trip() {
    for d in [1u32, 3, 16] {
        for x in -40i32..40 {
            let c = floor_div(x, d);
            let l = rem_euclid(x, d);
            assert!(l < d);
            assert_eq!(c * d as i32 + l as i32, x);
            assert_eq!(floor_div(c * d as i32 + l as i32, d), c);
        }
    }
}

#[test]
fn chunk_slots() {
    let mut chunk = Chunk::new(4, 3);
    assert_eq!(chunk.get(3, 2), None);
    chunk.insert(3, 2, CellId { index: 7 });
    chunk.insert(0, 0, CellId { index: 1 });
    assert_eq!(chunk.get(3, 2), Some(CellId { index: 7 }));
    assert_eq!(chunk.get(0, 0), Some(CellId { index: 1 }));
    assert_eq!(chunk.get(2, 2), None);
    chunk.delete(3, 2);
    assert_eq!(chunk.get(3, 2), None);
    assert_eq!(chunk.get(0, 0), Some(CellId { index: 1 }));
}

#[test]
fn get_on_missing_chunk() {
    let grid = Grid::new(16, 16, 20, 16, 16);
    assert_eq!(grid.get(0, 0), Err(GridError::MissingChunk));
    assert_eq!(grid.get(-1, -1), Err(GridError::MissingChunk));
}

#[test]
fn insert_then_get() {
    let mut grid = Grid::new(16, 16, 20, 4, 4);
    assert_eq!(grid.insert(5, 6, CellId { index: 3 }), Ok(()));
    assert_eq!(grid.get(5, 6), Ok(Some(CellId { index: 3 })));
    // Same chunk, empty slot.
    assert_eq!(grid.get(4, 7), Ok(None));
    // Another chunk that was never created.
    assert_eq!(grid.get(0, 0), Err(GridError::MissingChunk));
}

#[test]
fn insert_negative_coordinates() {
    let mut grid = Grid::new(16, 16, 20, 16, 16);
    assert_eq!(grid.insert(-1, -1, CellId { index: 0 }), Ok(()));
    assert_eq!(grid.insert(-16, -16, CellId { index: 1 }), Ok(()));
    assert_eq!(grid.get(-1, -1), Ok(Some(CellId { index: 0 })));
    assert_eq!(grid.get(-16, -16), Ok(Some(CellId { index: 1 })));
    assert_eq!(grid.get(-2, -1), Ok(None));
    // Chunk (0, 0) is distinct from chunk (-1, -1).
    assert_eq!(grid.get(0, 0), Err(GridError::MissingChunk));
    assert_eq!(grid.get(-17, -1), Err(GridError::MissingChunk));
}

#[test]
fn occupied_insert_is_rejected() {
    let mut grid = Grid::new(16, 16, 20, 16, 16);
    assert_eq!(grid.insert(2, 3, CellId { index: 0 }), Ok(()));
    assert_eq!(grid.insert(2, 3, CellId { index: 9 }), Err(GridError::Occupied));
    assert_eq!(grid.get(2, 3), Ok(Some(CellId { index: 0 })));
}

#[test]
fn distinct_inserts_do_not_collide() {
    let mut grid = Grid::new(16, 16, 20, 2, 2);
    let coords = [(0, 0), (1, 0), (0, 1), (1, 1), (2, 0), (-1, 0), (i32::MAX, i32::MIN), (i32::MIN, i32::MAX)];
    for (i, (x, y)) in coords.iter().enumerate() {
        assert_eq!(grid.insert(*x, *y, CellId { index: i }), Ok(()));
    }
    for (i, (x, y)) in coords.iter().enumerate() {
        assert_eq!(grid.get(*x, *y), Ok(Some(CellId { index: i })));
    }
}

#[test]
fn getters() {
    let grid = Grid::new(10, 8, 32, 16, 16);
    assert_eq!(grid.width(), 10);
    assert_eq!(grid.height(), 8);
    assert_eq!(grid.cell_size(), 32);
}

#[test]
fn world_point_to_cell() {
    let grid = Grid::new(16, 16, 16, 16, 16);
    assert_eq!(world_to_cell(0, 0, &grid), (0, 0));
    assert_eq!(world_to_cell(7, 9, &grid), (0, 1));
    // Halves round away from zero.
    assert_eq!(world_to_cell(8, -8, &grid), (1, -1));
    assert_eq!(world_to_cell(-7, 24, &grid), (0, 2));
    assert_eq!(world_to_cell(-25, -40, &grid), (-2, -3));
    assert_eq!(grid.cell_from_world(33, -33), (2, -2));
    let unit = Grid::new(1, 1, 1, 1, 1);
    assert_eq!(world_to_cell(i32::MIN, i32::MAX, &unit), (i32::MIN, i32::MAX));
}
