use minefield::cell::{Air, CellBehavior, CellKind, Look, Mine, Rgb, Texture, Wall};
use minefield::env::{ConfigError, EnvVariable, acquire_num};
use minefield::grid::Grid;
use minefield::cell::Cell;
use minefield::world::SpawnError;

fn white() -> Rgb {
    Rgb { r: 255, g: 255, b: 255 }
}

#[test]
fn sizes_and_borders() {
    assert_eq!(Mine::size(), 16);
    assert_eq!(Air::size(), 16);
    assert_eq!(Wall::size(), 20);
    assert!(Mine::has_border());
    assert!(Air::has_border());
    assert!(!Wall::has_border());
    assert_eq!(Mine.kind(), CellKind::Mine);
    assert_eq!(Wall.kind(), CellKind::Wall);
}

#[test]
fn mine_looks() {
    let hidden = Look { texture: Texture::Blank, tint: white(), visible: false };
    let border = Look { texture: Texture::Border, tint: white(), visible: true };
    assert_eq!(Mine.update_content(), hidden);
    assert_eq!(Mine.update_border(), border);
}

#[test]
fn wall_looks() {
    assert_eq!(Wall.update_content(), Look { texture: Texture::Wall, tint: white(), visible: true });
}

#[test]
fn air_looks() {
    let hidden = Look { texture: Texture::Blank, tint: white(), visible: false };
    let border = Look { texture: Texture::Border, tint: white(), visible: true };
    let a = Air { neighbor_mines: 3, revealed: false };
    assert_eq!(a.update_content(), hidden);
    assert_eq!(a.update_border(), border);
    let zero = Air { neighbor_mines: 0, revealed: true };
    assert_eq!(zero.update_content(), hidden);
    assert_eq!(zero.update_border(), hidden);
    let palette = [
        (80, 96, 219),
        (21, 181, 81),
        (233, 64, 51),
        (63, 63, 143),
        (187, 51, 37),
        (45, 151, 170),
        (226, 181, 23),
        (177, 70, 193),
    ];
    for n in 1u8..=8 {
        let a = Air { neighbor_mines: n, revealed: true };
        let (r, g, b) = palette[n as usize - 1];
        assert_eq!(
            a.update_content(),
            Look { texture: Texture::Numeral(n), tint: Rgb { r, g, b }, visible: true }
        );
        assert_eq!(a.update_border(), border);
    }
}

#[test]
fn transform_scales_by_cell_size() {
    let grid = Grid::new(16, 16, 20, 16, 16);
    assert_eq!(Mine::transform(&grid, 3, -2), Ok((60, -40)));
    assert_eq!(Wall::transform(&grid, -1, 5), Ok((-20, 100)));
    let small = Grid::new(16, 16, 16, 16, 16);
    assert_eq!(Wall::transform(&small, 0, 0), Err(SpawnError::TooLarge));
    assert_eq!(Air::transform(&small, 1, 1), Ok((16, 16)));
}

#[test]
fn config_numbers() {
    assert_eq!(acquire_num(EnvVariable::CHUNK_WIDTH, Some("16")), Ok(16));
    assert_eq!(acquire_num(EnvVariable::CELL_SIZE, Some("0")), Ok(0));
    assert_eq!(acquire_num(EnvVariable::CHUNK_WIDTH, Some("+5")), Ok(5));
    assert_eq!(acquire_num(EnvVariable::CHUNK_WIDTH, Some("007")), Ok(7));
    assert_eq!(
        acquire_num(EnvVariable::CHUNK_WIDTH, Some("+")),
        Err(ConfigError::Unparsable(EnvVariable::CHUNK_WIDTH))
    );
    assert_eq!(
        acquire_num(EnvVariable::CHUNK_WIDTH, Some("++5")),
        Err(ConfigError::Unparsable(EnvVariable::CHUNK_WIDTH))
    );
    assert_eq!(
        acquire_num(EnvVariable::CHUNK_WIDTH, Some("-5")),
        Err(ConfigError::Unparsable(EnvVariable::CHUNK_WIDTH))
    );
    assert_eq!(acquire_num(EnvVariable::CELL_SIZE, Some("4294967295")), Ok(u32::MAX));
    assert_eq!(
        acquire_num(EnvVariable::CELL_SIZE, Some("4294967296")),
        Err(ConfigError::Unparsable(EnvVariable::CELL_SIZE))
    );
    assert_eq!(
        acquire_num(EnvVariable::CHUNK_HEIGHT, Some("")),
        Err(ConfigError::Unparsable(EnvVariable::CHUNK_HEIGHT))
    );
    assert_eq!(
        acquire_num(EnvVariable::CHUNK_HEIGHT, Some("1x")),
        Err(ConfigError::Unparsable(EnvVariable::CHUNK_HEIGHT))
    );
    assert_eq!(
        acquire_num(EnvVariable::MINE_CHANCE, None),
        Err(ConfigError::Missing(EnvVariable::MINE_CHANCE))
    );
}

#[test]
fn config_key_names() {
    assert_eq!(EnvVariable::CHUNK_WIDTH.as_str(), "CHUNK_WIDTH");
    assert_eq!(EnvVariable::CELL_SCALE.as_str(), "CELL_SCALE");
    assert_eq!(EnvVariable::PLAYER_SPEED.as_str(), "PLAYER_SPEED");
    assert_eq!(EnvVariable::WALL_CHANCE.as_str(), "WALL_CHANCE");
}

#[test]
fn touched_cells_of_a_box() {
    // A box of 8 by 16 at the origin, cells of 16: only column 0; rows -1, 0 and 1 touch at
    // their edges.
    let t = Cell::touched_by(0, 0, 4, 8, 16);
    assert_eq!(t, vec![(0, -1), (0, 0), (0, 1)]);
    // Shifted right so that it straddles columns 0 and 1.
    let t = Cell::touched_by(8, 3, 4, 2, 16);
    assert_eq!(t, vec![(0, 0), (1, 0)]);
    // Column by column, bottom to top.
    let t = Cell::touched_by(8, 8, 4, 4, 16);
    assert_eq!(t, vec![(0, 0), (0, 1), (1, 0), (1, 1)]);
    // Every listed cell overlaps and none is listed twice.
    let t = Cell::touched_by(-37, 21, 30, 5, 10);
    for (x, y) in &t {
        assert!(t.iter().filter(|p| **p == (*x, *y)).count() == 1);
    }
    assert_eq!(t.len(), 7 * 2);
    assert!(t.contains(&(-7, 2)) && t.contains(&(-1, 3)));
}
