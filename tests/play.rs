use minefield::cascade::{reveal_cell, update_sprite};
use minefield::cell::{Air, Cell, CellBehavior, CellKind, Look, Rgb, Texture};
use minefield::flag::toggle_flag;
use minefield::generate::{draw_rolls, generate_grid, spawn_grid, CellType, Roll};
use minefield::grid::{CellId, Grid, GridError};
use minefield::world::{CellFactory, SpawnError, World};

/// A playfield of `width` by `height` with mines and inner walls at the given coordinates.
fn layout(width: u32, height: u32, mines: &[(u32, u32)], walls: &[(u32, u32)]) -> Vec<CellType> {
    let mut rolls = Vec::new();
    for i in 0..width * height {
        let (x, y) = (i % width, i / width);
        rolls.push(Roll {
            mine: if mines.contains(&(x, y)) { 0 } else { 99 },
            wall: if walls.contains(&(x, y)) { 0 } else { 99 },
        });
    }
    generate_grid(width, height, 1, 1, &rolls)
}

fn build(width: u32, height: u32, cells: &[CellType]) -> World {
    let mut world = World::new(Grid::new(width, height, 20, 4, 4));
    for (i, t) in cells.iter().enumerate() {
        let x = (i as u32 % width) as i32;
        let y = (i as u32 / width) as i32;
        let r = match t {
            CellType::Air(n) => CellFactory::spawn_air(&mut world, x, y, *n),
            CellType::Mine => CellFactory::spawn_mine(&mut world, x, y),
            CellType::Wall => CellFactory::spawn_wall(&mut world, x, y),
        };
        assert!(r.is_ok());
    }
    world
}

fn cell(world: &World, x: i32, y: i32) -> Cell {
    match world.get(x, y) {
        Ok(Some(id)) => world.cell(id),
        _ => panic!("no cell at ({}, {})", x, y),
    }
}

fn revealed(world: &World, x: i32, y: i32) -> bool {
    matches!(cell(world, x, y).kind, CellKind::Air(Air { revealed: true, .. }))
}

fn at(cells: &[CellType], width: u32, x: u32, y: u32) -> CellType {
    cells[(y * width + x) as usize]
}

#[test]
fn three_by_three_without_mines() {
    let cells = generate_grid(3, 3, 0, 0, &draw_rolls(9));
    for y in 0..3 {
        for x in 0..3 {
            let expected = if x == 1 && y == 1 { CellType::Air(0) } else { CellType::Wall };
            assert_eq!(at(&cells, 3, x, y), expected);
        }
    }
    let mut world = build(3, 3, &cells);
    let out = reveal_cell(&mut world, &vec![(1, 1)]);
    assert_eq!(out.updates.len(), 1);
    assert!(!out.mine_hit);
    assert!(revealed(&world, 1, 1));
    for y in 0..3 {
        for x in 0..3 {
            if (x, y) != (1, 1) {
                assert_eq!(cell(&world, x, y).kind, CellKind::Wall);
            }
        }
    }
}

#[test]
fn single_mine_counts() {
    let cells = layout(7, 7, &[(2, 2)], &[]);
    assert_eq!(at(&cells, 7, 2, 2), CellType::Mine);
    for y in 1..6u32 {
        for x in 1..6u32 {
            if (x, y) == (2, 2) {
                continue;
            }
            let near = x.abs_diff(2) <= 1 && y.abs_diff(2) <= 1;
            let expected = if near { CellType::Air(1) } else { CellType::Air(0) };
            assert_eq!(at(&cells, 7, x, y), expected, "at ({}, {})", x, y);
        }
    }
}

#[test]
fn generated_borders_and_counts() {
    let (w, h) = (12u32, 9u32);
    for _ in 0..5 {
        let cells = generate_grid(w, h, 20, 10, &draw_rolls((w * h) as usize));
        assert_eq!(cells.len(), (w * h) as usize);
        for y in 0..h {
            for x in 0..w {
                let t = at(&cells, w, x, y);
                if x == 0 || y == 0 || x == w - 1 || y == h - 1 {
                    assert_eq!(t, CellType::Wall);
                }
                if let CellType::Air(n) = t {
                    let mut count = 0;
                    for dy in -1i64..=1 {
                        for dx in -1i64..=1 {
                            let (nx, ny) = (x as i64 + dx, y as i64 + dy);
                            if (dx, dy) != (0, 0) && nx >= 0 && ny >= 0 && nx < w as i64 && ny < h as i64
                                && at(&cells, w, nx as u32, ny as u32) == CellType::Mine
                            {
                                count += 1;
                            }
                        }
                    }
                    assert_eq!(n, count);
                }
            }
        }
    }
}

#[test]
fn mine_draw_comes_before_wall_draw() {
    let rolls = vec![Roll { mine: 5, wall: 5 }; 9];
    let cells = generate_grid(3, 3, 10, 10, &rolls);
    assert_eq!(at(&cells, 3, 1, 1), CellType::Mine);
    let rolls = vec![Roll { mine: 50, wall: 5 }; 9];
    let cells = generate_grid(3, 3, 10, 10, &rolls);
    assert_eq!(at(&cells, 3, 1, 1), CellType::Wall);
}

#[test]
fn rolls_are_percentages() {
    let rolls = draw_rolls(300);
    assert_eq!(rolls.len(), 300);
    assert!(rolls.iter().all(|r| r.mine < 100 && r.wall < 100));
    assert!(rolls.iter().any(|r| r.mine != rolls[0].mine));
}

#[test]
fn spawn_grid_fills_the_playfield() {
    let mut world = World::new(Grid::new(9, 7, 20, 4, 4));
    assert_eq!(spawn_grid(&mut world, 15, 10), Ok(()));
    for y in 0..7 {
        for x in 0..9 {
            let c = cell(&world, x, y);
            assert!(!c.flagged);
            if x == 0 || y == 0 || x == 8 || y == 6 {
                assert_eq!(c.kind, CellKind::Wall);
            }
            if let CellKind::Air(a) = c.kind {
                assert!(!a.revealed);
                let mut count = 0;
                for dy in -1..=1 {
                    for dx in -1..=1 {
                        if (dx, dy) != (0, 0) && cell(&world, x + dx, y + dy).kind == CellKind::Mine {
                            count += 1;
                        }
                    }
                }
                assert_eq!(a.neighbor_mines, count);
            }
        }
    }
}

#[test]
fn spawn_grid_refuses_small_cells() {
    let mut world = World::new(Grid::new(9, 7, 16, 4, 4));
    assert_eq!(spawn_grid(&mut world, 15, 10), Err(SpawnError::TooLarge));
    assert_eq!(world.get(0, 0), Err(GridError::MissingChunk));
}

#[test]
fn spawn_errors() {
    let mut world = World::new(Grid::new(4, 4, 16, 4, 4));
    assert_eq!(CellFactory::spawn_wall(&mut world, 0, 0), Err(SpawnError::TooLarge));
    let id = CellFactory::spawn_mine(&mut world, 0, 0).unwrap();
    assert_eq!(world.get(0, 0), Ok(Some(id)));
    assert_eq!(CellFactory::spawn_air(&mut world, 0, 0, 2), Err(SpawnError::Occupied));
    assert_eq!(world.cell(id).kind, CellKind::Mine);
    let air = Air { neighbor_mines: 2, revealed: false }.spawn(&mut world, -3, 5).unwrap();
    assert_ne!(air, id);
    assert_eq!(
        world.cell(air),
        Cell { kind: CellKind::Air(Air { neighbor_mines: 2, revealed: false }), flagged: false }
    );
}

#[test]
fn cascade_reveals_region_and_fence() {
    // Inner wall column at x = 4 splits the playfield; a mine sits on the right.
    let walls: Vec<(u32, u32)> = (1..6).map(|y| (4, y)).collect();
    let cells = layout(9, 7, &[(6, 3)], &walls);
    let mut world = build(9, 7, &cells);
    let out = reveal_cell(&mut world, &vec![(1, 1)]);
    assert!(!out.mine_hit);
    assert_eq!(out.updates.len(), 15);
    for y in 1..6 {
        for x in 1..4 {
            assert!(revealed(&world, x, y));
        }
        for x in 5..8 {
            let c = cell(&world, x, y);
            assert!(!matches!(c.kind, CellKind::Air(Air { revealed: true, .. })));
        }
    }
}

#[test]
fn cascade_stops_at_numbered_ring() {
    let cells = layout(9, 7, &[(6, 3)], &[]);
    let mut world = build(9, 7, &cells);
    let out = reveal_cell(&mut world, &vec![(1, 1)]);
    assert!(!out.mine_hit);
    // Every zero cell and the numbered ring around them; (7, 3) touches no zero cell.
    assert_eq!(out.updates.len(), 33);
    assert!(!revealed(&world, 7, 3));
    assert_eq!(cell(&world, 6, 3).kind, CellKind::Mine);
    assert_eq!(
        cell(&world, 5, 2).kind,
        CellKind::Air(Air { neighbor_mines: 1, revealed: true })
    );
    let mut ids = out.updates.clone();
    ids.sort_by_key(|id| id.index);
    ids.dedup();
    assert_eq!(ids.len(), 33);
}

#[test]
fn numbered_cell_does_not_cascade() {
    let cells = layout(9, 7, &[(6, 3)], &[]);
    let mut world = build(9, 7, &cells);
    let out = reveal_cell(&mut world, &vec![(5, 3)]);
    assert_eq!(out.updates.len(), 1);
    assert!(revealed(&world, 5, 3));
    assert!(!revealed(&world, 4, 3));
}

#[test]
fn reveal_twice_is_one_transition() {
    let cells = layout(7, 7, &[(2, 2)], &[]);
    let mut world = build(7, 7, &cells);
    let out = reveal_cell(&mut world, &vec![(3, 3), (3, 3)]);
    assert_eq!(out.updates.len(), 1);
    let again = reveal_cell(&mut world, &vec![(3, 3)]);
    assert!(again.updates.is_empty());
    assert!(revealed(&world, 3, 3));
}

#[test]
fn flagged_cell_is_not_revealed() {
    let cells = layout(7, 7, &[(2, 2)], &[]);
    let mut world = build(7, 7, &cells);
    assert_eq!(toggle_flag(&mut world, 3, 3), Some(true));
    let out = reveal_cell(&mut world, &vec![(3, 3)]);
    assert!(out.updates.is_empty());
    assert!(!revealed(&world, 3, 3));
    assert!(cell(&world, 3, 3).flagged);
    assert_eq!(toggle_flag(&mut world, 3, 3), Some(false));
    let out = reveal_cell(&mut world, &vec![(3, 3)]);
    assert_eq!(out.updates.len(), 1);
}

#[test]
fn flag_toggles_back() {
    let cells = layout(7, 7, &[(2, 2)], &[]);
    let mut world = build(7, 7, &cells);
    let before = cell(&world, 2, 2);
    assert_eq!(toggle_flag(&mut world, 2, 2), Some(true));
    assert!(cell(&world, 2, 2).flagged);
    assert_eq!(toggle_flag(&mut world, 2, 2), Some(false));
    assert_eq!(cell(&world, 2, 2), before);
}

#[test]
fn flagged_cell_shows_flag() {
    let cells = layout(5, 5, &[], &[]);
    let mut world = build(5, 5, &cells);
    let id = world.get(2, 2).unwrap().unwrap();
    let white = Rgb { r: 255, g: 255, b: 255 };
    assert_eq!(toggle_flag(&mut world, 2, 2), Some(true));
    let (content, _) = update_sprite(&world, id);
    assert_eq!(content, Look { texture: Texture::Flag, tint: white, visible: true });
    assert_eq!(toggle_flag(&mut world, 2, 2), Some(false));
    let (content, _) = update_sprite(&world, id);
    assert_eq!(content, Look { texture: Texture::Blank, tint: white, visible: false });
    let wall = world.get(0, 0).unwrap().unwrap();
    let (content, border) = update_sprite(&world, wall);
    assert_eq!(content, Look { texture: Texture::Wall, tint: white, visible: true });
    assert_eq!(border, None);
}

#[test]
fn lookups_are_bounded() {
    // One zero cell in the middle of a 3 by 3 interior ringed by numbered cells.
    let mines = [(2, 2), (4, 2), (6, 2), (2, 4), (6, 4), (2, 6), (4, 6), (6, 6)];
    let cells = layout(9, 9, &mines, &[]);
    let mut world = build(9, 9, &cells);
    let out = reveal_cell(&mut world, &vec![(4, 4)]);
    assert_eq!(out.updates.len(), 9);
    assert_eq!(out.lookups, 1 + 8);
    let out = reveal_cell(&mut world, &vec![(2, 2), (4, 4)]);
    assert_eq!(out.lookups, 2);
    assert!(out.mine_hit);
}

#[test]
fn revealed_cell_takes_no_flag() {
    let cells = layout(7, 7, &[(2, 2)], &[]);
    let mut world = build(7, 7, &cells);
    reveal_cell(&mut world, &vec![(1, 1)]);
    assert!(revealed(&world, 1, 1));
    assert_eq!(toggle_flag(&mut world, 1, 1), None);
    assert!(!cell(&world, 1, 1).flagged);
}

#[test]
fn walls_are_inert() {
    let cells = layout(5, 5, &[], &[]);
    let mut world = build(5, 5, &cells);
    assert_eq!(toggle_flag(&mut world, 0, 0), None);
    let out = reveal_cell(&mut world, &vec![(0, 0), (4, 4)]);
    assert!(out.updates.is_empty());
    assert_eq!(cell(&world, 0, 0), Cell { kind: CellKind::Wall, flagged: false });
}

#[test]
fn mine_hit_is_signalled() {
    let cells = layout(7, 7, &[(2, 2)], &[]);
    let mut world = build(7, 7, &cells);
    let out = reveal_cell(&mut world, &vec![(2, 2), (3, 3)]);
    assert!(out.mine_hit);
    assert_eq!(out.updates.len(), 1);
    assert!(revealed(&world, 3, 3));
    assert_eq!(cell(&world, 2, 2).kind, CellKind::Mine);
    assert_eq!(toggle_flag(&mut world, 2, 2), Some(true));
    let out = reveal_cell(&mut world, &vec![(2, 2)]);
    assert!(!out.mine_hit);
}

#[test]
fn absent_coordinates_are_skipped() {
    let cells = layout(5, 5, &[], &[]);
    let mut world = build(5, 5, &cells);
    let out = reveal_cell(&mut world, &vec![(100, 100), (-50, 3), (2, 2)]);
    assert!(!out.mine_hit);
    assert_eq!(out.updates.len(), 9);
    assert_eq!(toggle_flag(&mut world, 100, 100), None);
}

#[test]
fn sprite_after_reveal() {
    let cells = layout(7, 7, &[(2, 2)], &[]);
    let mut world = build(7, 7, &cells);
    let out = reveal_cell(&mut world, &vec![(3, 3)]);
    let id: CellId = out.updates[0];
    let (content, border) = update_sprite(&world, id);
    assert_eq!(
        content,
        Look { texture: Texture::Numeral(1), tint: Rgb { r: 80, g: 96, b: 219 }, visible: true }
    );
    assert_eq!(
        border,
        Some(Look { texture: Texture::Border, tint: Rgb { r: 255, g: 255, b: 255 }, visible: true })
    );
}
