//! Playfield generation: walls on the edges, random mines and walls inside, mine counts.

use vstd::prelude::*;
use crate::cell::{Cell, CellBehavior, CellKind, Wall};
use crate::grid::is_i32;
use crate::world::{CellFactory, SpawnError, World};

verus! {

/// What generation decides for one cell.
#[derive(Clone, Copy, Debug, PartialEq, Eq, Structural)]
pub enum CellType {
    Air(u8),
    Mine,
    Wall,
}

/// The two random draws for one cell, each a percentage in 0..100: the first decides a mine,
/// the second a wall.
#[derive(Clone, Copy, Debug, PartialEq, Eq, Structural)]
pub struct Roll {
    pub mine: u32,
    pub wall: u32,
}

pub open spec fn on_border(w: int, h: int, x: int, y: int) -> bool {
    x == 0 || y == 0 || x == w - 1 || y == h - 1
}

/// The kind placed at (`x`, `y`) before neighbours are counted: edges are walls; inside, the
/// mine draw is tried first, then the wall draw.
pub open spec fn placed(w: int, h: int, mine_chance: int, wall_chance: int, roll: Roll, x: int, y: int) -> CellType {
    if on_border(w, h, x, y) {
        CellType::Wall
    } else if roll.mine < mine_chance {
        CellType::Mine
    } else if roll.wall < wall_chance {
        CellType::Wall
    } else {
        CellType::Air(0)
    }
}

/// The placed kinds of a `w` by `h` playfield, row by row.
pub open spec fn layout(w: int, h: int, mine_chance: int, wall_chance: int, rolls: Seq<Roll>) -> Seq<CellType> {
    Seq::new(
        (w * h) as nat,
        |j: int| placed(w, h, mine_chance, wall_chance, rolls[j], j % w, j / w),
    )
}

/// 1 where a mine stands at (`x`, `y`) of the row-major `w` by `h` playfield `l`, else 0;
/// coordinates off the playfield count 0.
pub open spec fn mine_in(l: Seq<CellType>, w: int, h: int, x: int, y: int) -> int {
    if 0 <= x < w && 0 <= y < h && l[y * w + x] == CellType::Mine {
        1
    } else {
        0
    }
}

/// The number of mines among the eight neighbours of (`x`, `y`).
pub open spec fn mines_around(l: Seq<CellType>, w: int, h: int, x: int, y: int) -> int {
    mine_in(l, w, h, x - 1, y - 1) + mine_in(l, w, h, x, y - 1) + mine_in(l, w, h, x + 1, y - 1)
        + mine_in(l, w, h, x - 1, y) + mine_in(l, w, h, x + 1, y) + mine_in(l, w, h, x - 1, y + 1)
        + mine_in(l, w, h, x, y + 1) + mine_in(l, w, h, x + 1, y + 1)
}

/// The generated playfield: the layout, with each air cell holding its mine count.
pub open spec fn generated(w: int, h: int, mine_chance: int, wall_chance: int, rolls: Seq<Roll>) -> Seq<CellType> {
    let l = layout(w, h, mine_chance, wall_chance, rolls);
    Seq::new(
        (w * h) as nat,
        |j: int|
            match l[j] {
                CellType::Air(_) => CellType::Air(mines_around(l, w, h, j % w, j / w) as u8),
                t => t,
            },
    )
}

/// Row-major index arithmetic: offset `y * w + x` lies in the playfield and gives back its
/// coordinates.
pub proof fn lemma_index(x: int, y: int, w: int, h: int)
    requires
        0 <= x < w,
        0 <= y < h,
    ensures
        0 <= y * w + x < w * h,
        (y * w + x) % w == x,
        (y * w + x) / w == y,
{
    assert(0 <= y * w + x < w * h) by (nonlinear_arith)
        requires
            0 <= x < w,
            0 <= y < h,
    ;
    vstd::arithmetic::div_mod::lemma_fundamental_div_mod_converse(y * w + x, w, y, x);
}

/// An offset of the playfield splits into coordinates on it.
pub proof fn lemma_coords(j: int, w: int, h: int)
    requires
        0 <= j < w * h,
        w > 0,
    ensures
        0 <= j % w < w,
        0 <= j / w < h,
        (j / w) * w + j % w == j,
{
    vstd::arithmetic::div_mod::lemma_fundamental_div_mod(j, w);
    assert((j / w) * w + j % w == j) by (nonlinear_arith)
        requires
            j == w * (j / w) + j % w,
    ;
    vstd::arithmetic::div_mod::lemma_div_pos_is_pos(j, w);
    if j / w >= h {
        assert(false) by (nonlinear_arith)
            requires
                j / w >= h,
                w > 0,
                j < w * h,
                (j / w) * w + j % w == j,
                j % w >= 0,
        ;
    }
}

fn mine_at(l: &Vec<CellType>, w: u32, h: u32, x: i64, y: i64) -> (r: u8)
    requires
        l@.len() == w * h,
        w * h <= usize::MAX,
        w <= i32::MAX,
        h <= i32::MAX,
        -1 <= x <= w,
        -1 <= y <= h,
    ensures
        r == mine_in(l@, w as int, h as int, x as int, y as int),
{
    if x < 0 || y < 0 || x >= w as i64 || y >= h as i64 {
        return 0;
    }
    proof {
        lemma_index(x as int, y as int, w as int, h as int);
        assert(0 <= y * w <= y * w + x) by (nonlinear_arith)
            requires
                0 <= x,
                0 <= y,
                0 <= w,
        ;
    }
    let j = (y as usize) * (w as usize) + (x as usize);
    match l[j] {
        CellType::Mine => 1,
        _ => 0,
    }
}

/// Generates a `width` by `height` playfield from one roll per cell, stored row by row: the
/// edges are walls; inside, a cell whose mine draw is below `mine_chance` is a mine, else one
/// whose wall draw is below `wall_chance` is a wall, else air; then each air cell counts the
/// mines among its neighbours on the playfield.
pub fn generate_grid(width: u32, height: u32, mine_chance: u32, wall_chance: u32, rolls: &Vec<Roll>) -> (r: Vec<CellType>)
    requires
        rolls@.len() == width * height,
        width <= i32::MAX,
        height <= i32::MAX,
    ensures
        r@ == generated(width as int, height as int, mine_chance as int, wall_chance as int, rolls@),
        forall|j: int| 0 <= j < r@.len() ==> (#[trigger] r@[j] matches CellType::Air(n) ==> n <= 8),
{
    let ghost w = width as int;
    let ghost h = height as int;
    let ghost lay = layout(w, h, mine_chance as int, wall_chance as int, rolls@);
    let n = rolls.len();
    let mut l: Vec<CellType> = Vec::new();
    let mut i: usize = 0;
    while i < n
        invariant
            n == w * h,
            n == rolls@.len(),
            i <= n,
            l@.len() == i,
            w == width,
            h == height,
            lay == layout(w, h, mine_chance as int, wall_chance as int, rolls@),
            forall|j: int| 0 <= j < i ==> l@[j] == lay[j],
        decreases n - i,
    {
        proof {
            lemma_coords(i as int, w, h);
        }
        let x = (i % width as usize) as u32;
        let y = (i / width as usize) as u32;
        let roll = rolls[i];
        let t = if x == 0 || y == 0 || x == width - 1 || y == height - 1 {
            CellType::Wall
        } else if roll.mine < mine_chance {
            CellType::Mine
        } else if roll.wall < wall_chance {
            CellType::Wall
        } else {
            CellType::Air(0)
        };
        l.push(t);
        i = i + 1;
    }
    assert(l@ =~= lay);
    let ghost gen = generated(w, h, mine_chance as int, wall_chance as int, rolls@);
    let mut out: Vec<CellType> = Vec::new();
    let mut i: usize = 0;
    while i < n
        invariant
            n == w * h,
            i <= n,
            out@.len() == i,
            l@ == lay,
            lay.len() == n,
            w == width,
            h == height,
            width <= i32::MAX,
            height <= i32::MAX,
            gen == generated(w, h, mine_chance as int, wall_chance as int, rolls@),
            lay == layout(w, h, mine_chance as int, wall_chance as int, rolls@),
            forall|j: int| 0 <= j < i ==> out@[j] == gen[j],
        decreases n - i,
    {
        proof {
            lemma_coords(i as int, w, h);
        }
        let x = (i % width as usize) as i64;
        let y = (i / width as usize) as i64;
        let t = match l[i] {
            CellType::Air(_) => {
                let count = mine_at(&l, width, height, x - 1, y - 1) + mine_at(&l, width, height, x, y - 1)
                    + mine_at(&l, width, height, x + 1, y - 1) + mine_at(&l, width, height, x - 1, y)
                    + mine_at(&l, width, height, x + 1, y) + mine_at(&l, width, height, x - 1, y + 1)
                    + mine_at(&l, width, height, x, y + 1) + mine_at(&l, width, height, x + 1, y + 1);
                CellType::Air(count)
            },
            other => other,
        };
        out.push(t);
        i = i + 1;
    }
    assert(out@ =~= gen);
    assert forall|j: int| 0 <= j < out@.len() implies (#[trigger] out@[j] matches CellType::Air(n)
        ==> n <= 8) by {
        let m = mines_around(lay, w, h, j % w, j / w);
        assert(0 <= m <= 8);
    }
    out
}

/// Every edge cell of a generated playfield is a wall, and every air cell holds the number of
/// mines among its neighbours on the playfield.
pub proof fn lemma_generation_invariants(
    w: int,
    h: int,
    mine_chance: int,
    wall_chance: int,
    rolls: Seq<Roll>,
    x: int,
    y: int,
)
    requires
        0 <= x < w,
        0 <= y < h,
        rolls.len() == w * h,
    ensures
        on_border(w, h, x, y) ==> generated(w, h, mine_chance, wall_chance, rolls)[y * w + x]
            == CellType::Wall,
        generated(w, h, mine_chance, wall_chance, rolls)[y * w + x] matches CellType::Air(n) ==> n
            == mines_around(generated(w, h, mine_chance, wall_chance, rolls), w, h, x, y),
{
    let l = layout(w, h, mine_chance, wall_chance, rolls);
    let g = generated(w, h, mine_chance, wall_chance, rolls);
    lemma_index(x, y, w, h);
    assert forall|a: int, b: int| -1 <= a - x <= 1 && -1 <= b - y <= 1 implies mine_in(g, w, h, a, b)
        == mine_in(l, w, h, a, b) by {
        if 0 <= a < w && 0 <= b < h {
            lemma_index(a, b, w, h);
        }
    }
    assert(mines_around(g, w, h, x, y) == mines_around(l, w, h, x, y));
}

/// Relies on rand::random_range: a number drawn from the half-open range 0..100.
#[verifier::external_body]
fn percent() -> (r: u32)
    ensures
        r < 100,
{
    rand::random_range(0..100u32)
}

/// `n` rolls from the thread's random source.
pub fn draw_rolls(n: usize) -> (r: Vec<Roll>)
    ensures
        r@.len() == n,
        forall|i: int| 0 <= i < n ==> #[trigger] r@[i].mine < 100 && r@[i].wall < 100,
{
    let mut rolls: Vec<Roll> = Vec::new();
    let mut i: usize = 0;
    while i < n
        invariant
            i <= n,
            rolls@.len() == i,
            forall|j: int| 0 <= j < i ==> #[trigger] rolls@[j].mine < 100 && rolls@[j].wall < 100,
        decreases n - i,
    {
        let mine = percent();
        let wall = percent();
        rolls.push(Roll { mine, wall });
        i = i + 1;
    }
    rolls
}

/// The kind that a generated cell enters the world as.
pub open spec fn kind_of(t: CellType) -> CellKind {
    match t {
        CellType::Air(n) => CellKind::Air(crate::cell::Air { neighbor_mines: n, revealed: false }),
        CellType::Mine => CellKind::Mine,
        CellType::Wall => CellKind::Wall,
    }
}

/// World `w1` is `w0` with the `width` by `height` playfield `cells` spawned on it, unflagged
/// and hidden.
pub open spec fn holds_playfield(w1: World, w0: World, cells: Seq<CellType>, width: int, height: int) -> bool {
    forall|x: int, y: int| #[trigger]
        w1.cell_at(x, y) == if 0 <= x < width && 0 <= y < height {
            Some(Cell { kind: kind_of(cells[y * width + x]), flagged: false })
        } else {
            w0.cell_at(x, y)
        }
}

/// Generates the world's playfield from fresh random draws and spawns every cell of it.
/// A playfield whose walls do not fit in a grid cell is refused before anything is spawned.
pub fn spawn_grid(world: &mut World, mine_chance: u32, wall_chance: u32) -> (r: Result<(), SpawnError>)
    requires
        old(world).wf(),
        old(world).width() <= i32::MAX,
        old(world).height() <= i32::MAX,
        old(world).width() * old(world).height() <= usize::MAX,
        forall|x: int, y: int|
            0 <= x < old(world).width() && 0 <= y < old(world).height() ==> #[trigger] old(
                world,
            ).cell_at(x, y).is_none(),
    ensures
        final(world).wf(),
        final(world).spec_grid().spec_width() == old(world).spec_grid().spec_width(),
        final(world).spec_grid().spec_height() == old(world).spec_grid().spec_height(),
        final(world).spec_grid().spec_cell_size() == old(world).spec_grid().spec_cell_size(),
        old(world).width() * old(world).height() > 0 && old(world).spec_grid().spec_cell_size()
            < Wall::spec_size() ==> r == Err::<(), SpawnError>(SpawnError::TooLarge) && *final(world)
            == *old(world),
        !(old(world).width() * old(world).height() > 0 && old(world).spec_grid().spec_cell_size()
            < Wall::spec_size()) ==> r is Ok && exists|rolls: Seq<Roll>|
            #![trigger generated(
                old(world).width(),
                old(world).height(),
                mine_chance as int,
                wall_chance as int,
                rolls,
            )]
            rolls.len() == old(world).width() * old(world).height() && (forall|i: int|
                0 <= i < rolls.len() ==> #[trigger] rolls[i].mine < 100 && rolls[i].wall < 100)
                && holds_playfield(
                *final(world),
                *old(world),
                generated(
                    old(world).width(),
                    old(world).height(),
                    mine_chance as int,
                    wall_chance as int,
                    rolls,
                ),
                old(world).width(),
                old(world).height(),
            ),
{
    let width = world.grid().width();
    let height = world.grid().height();
    let ghost w = width as int;
    let ghost h = height as int;
    assert((width as usize) * (height as usize) == w * h) by (nonlinear_arith)
        requires
            w * h <= usize::MAX,
            w == width,
            h == height,
    ;
    let n: usize = (width as usize) * (height as usize);
    if n > 0 && world.grid().cell_size() < Wall::size() {
        return Err(SpawnError::TooLarge);
    }
    let rolls = draw_rolls(n);
    let cells = generate_grid(width, height, mine_chance, wall_chance, &rolls);
    let ghost w0 = *world;
    let mut i: usize = 0;
    while i < n
        invariant
            world.wf(),
            w0.wf(),
            n == w * h,
            w == width,
            h == height,
            w == w0.width(),
            h == w0.height(),
            w <= i32::MAX,
            h <= i32::MAX,
            i <= n,
            cells@.len() == n,
            forall|j: int| 0 <= j < n ==> (#[trigger] cells@[j] matches CellType::Air(c) ==> c <= 8),
            world.spec_grid().spec_width() == w0.spec_grid().spec_width(),
            world.spec_grid().spec_height() == w0.spec_grid().spec_height(),
            world.spec_grid().spec_cell_size() == w0.spec_grid().spec_cell_size(),
            n > 0 ==> w0.spec_grid().spec_cell_size() >= 20,
            forall|x: int, y: int| #[trigger]
                world.cell_at(x, y) == if 0 <= x < w && 0 <= y < h {
                    if y * w + x < i {
                        Some(Cell { kind: kind_of(cells@[y * w + x]), flagged: false })
                    } else {
                        None
                    }
                } else {
                    w0.cell_at(x, y)
                },
        decreases n - i,
    {
        proof {
            lemma_coords(i as int, w, h);
        }
        let x = (i % width as usize) as i32;
        let y = (i / width as usize) as i32;
        proof {
            lemma_index(x as int, y as int, w, h);
            assert(world.cell_at(x as int, y as int).is_none());
        }
        let ghost before = *world;
        let spawned = match cells[i] {
            CellType::Air(count) => CellFactory::spawn_air(world, x, y, count),
            CellType::Mine => CellFactory::spawn_mine(world, x, y),
            CellType::Wall => CellFactory::spawn_wall(world, x, y),
        };
        if let Err(e) = spawned {
            return Err(e);
        }
        proof {
            assert forall|a: int, b: int| #[trigger]
                world.cell_at(a, b) == if 0 <= a < w && 0 <= b < h {
                    if b * w + a < i + 1 {
                        Some(Cell { kind: kind_of(cells@[b * w + a]), flagged: false })
                    } else {
                        None
                    }
                } else {
                    w0.cell_at(a, b)
                } by {
                if is_i32(a) && is_i32(b) {
                    assert(world.cell_at((a as i32) as int, (b as i32) as int) == if a == x && b == y {
                        Some(Cell { kind: kind_of(cells@[i as int]), flagged: false })
                    } else {
                        before.cell_at(a, b)
                    });
                    if 0 <= a < w && 0 <= b < h {
                        lemma_index(a, b, w, h);
                    }
                }
            }
        }
        i = i + 1;
    }
    proof {
        assert(holds_playfield(*world, w0, cells@, w, h)) by {
            assert forall|a: int, b: int| #[trigger]
                world.cell_at(a, b) == if 0 <= a < w && 0 <= b < h {
                    Some(Cell { kind: kind_of(cells@[b * w + a]), flagged: false })
                } else {
                    w0.cell_at(a, b)
                } by {
                if 0 <= a < w && 0 <= b < h {
                    lemma_index(a, b, w, h);
                }
            }
        }
    }
    Ok(())
}

} // verus!
