//! The reveal cascade: a breadth-first flood fill through cells with no mine neighbours.

use vstd::prelude::*;
use crate::cell::{
    Air, Cell, CellBehavior, CellKind, Look, Mine, Wall, border_look, flag, shown_content,
};
use crate::grid::CellId;
use crate::world::World;

verus! {

/// A coordinate of the world in spec terms.
pub type Pos = (int, int);

/// `c` lies on the playfield of `w`.
pub open spec fn in_bounds(w: World, c: Pos) -> bool {
    0 <= c.0 < w.width() && 0 <= c.1 < w.height()
}

/// `c` is one of the eight neighbours of `d`.
pub open spec fn adjacent(d: Pos, c: Pos) -> bool {
    &&& c != d
    &&& -1 <= c.0 - d.0 <= 1
    &&& -1 <= c.1 - d.1 <= 1
}

/// A hidden, unflagged air cell stands at `c`.
pub open spec fn openable(w: World, c: Pos) -> bool {
    match w.cell_at(c.0, c.1) {
        Some(cell) => !cell.flagged && match cell.kind {
            CellKind::Air(a) => !a.revealed,
            _ => false,
        },
        None => false,
    }
}

/// An air cell with no mine among its neighbours stands at `c`.
pub open spec fn is_zero(w: World, c: Pos) -> bool {
    match w.cell_at(c.0, c.1) {
        Some(cell) => match cell.kind {
            CellKind::Air(a) => a.neighbor_mines == 0,
            _ => false,
        },
        None => false,
    }
}

/// An unflagged mine stands at `c`.
pub open spec fn live_mine(w: World, c: Pos) -> bool {
    match w.cell_at(c.0, c.1) {
        Some(cell) => !cell.flagged && cell.kind == CellKind::Mine,
        None => false,
    }
}

/// Revealing `d` queues `c`: `d` has no mine neighbours and `c` is one of its neighbours on
/// the playfield.
pub open spec fn cascades_into(w: World, d: Pos, c: Pos) -> bool {
    is_zero(w, d) && adjacent(d, c) && in_bounds(w, c)
}

/// `c` is one of the requested coordinates `seeds`.
pub open spec fn is_seed(seeds: Seq<(i32, i32)>, c: Pos) -> bool {
    exists|j: int| 0 <= j < seeds.len() && #[trigger] seeds[j].0 == c.0 && seeds[j].1 == c.1
}

/// `p` is a chain of the cascade that starts at `seeds` in world `w`: it begins at a requested
/// coordinate, every cell on it is hidden, unflagged air, and each step goes from a cell with no
/// mine neighbours to one of its neighbours on the playfield.
pub open spec fn is_chain(w: World, seeds: Seq<(i32, i32)>, p: Seq<Pos>) -> bool {
    &&& p.len() > 0
    &&& is_seed(seeds, p[0])
    &&& forall|i: int| 0 <= i < p.len() ==> openable(w, #[trigger] p[i])
    &&& forall|i: int| 0 <= i < p.len() - 1 ==> cascades_into(w, #[trigger] p[i], p[i + 1])
}

/// A reveal of `seeds` in world `w` reveals `c`: some chain of the cascade ends at `c`.
pub open spec fn reveals(w: World, seeds: Seq<(i32, i32)>, c: Pos) -> bool {
    exists|p: Seq<Pos>| #[trigger] is_chain(w, seeds, p) && p.last() == c
}

/// A reveal of `seeds` in world `w` looks at `c`: it is requested, or queued by a revealed
/// cell.
pub open spec fn probes(w: World, seeds: Seq<(i32, i32)>, c: Pos) -> bool {
    is_seed(seeds, c) || exists|d: Pos| #[trigger] reveals(w, seeds, d) && cascades_into(w, d, c)
}

/// `id` is the handle of a cell that a reveal of `seeds` in world `w` reveals.
pub open spec fn handle_revealed(w: World, seeds: Seq<(i32, i32)>, id: CellId) -> bool {
    exists|c: Pos| #[trigger] reveals(w, seeds, c) && w.handle_at(c.0, c.1) == Some(id)
}

/// The cell at (`x`, `y`) once `seeds` have been revealed in world `w`.
pub open spec fn after_reveal(w: World, seeds: Seq<(i32, i32)>, x: int, y: int) -> Option<Cell> {
    if reveals(w, seeds, (x, y)) {
        Some(opened(w.cell_at(x, y)->0))
    } else {
        w.cell_at(x, y)
    }
}

/// The cell as it is once revealed.
pub open spec fn opened(cell: Cell) -> Cell {
    match cell.kind {
        CellKind::Air(a) => Cell {
            kind: CellKind::Air(Air { neighbor_mines: a.neighbor_mines, revealed: true }),
            flagged: cell.flagged,
        },
        _ => cell,
    }
}

/// What one reveal produced: the handles whose visuals must be redrawn, whether an unflagged
/// mine was hit, and how many coordinates were looked up.
pub struct RevealOutcome {
    pub updates: Vec<CellId>,
    pub mine_hit: bool,
    pub lookups: usize,
}

/// Air with no mine neighbours.
pub open spec fn zero_cell(cell: Cell) -> bool {
    match cell.kind {
        CellKind::Air(a) => a.neighbor_mines == 0,
        _ => false,
    }
}

/// How many of the handles `ids` stand, in world `w`, for air with no mine neighbours.
pub open spec fn zero_count(w: World, ids: Seq<CellId>) -> nat
    decreases ids.len(),
{
    if ids.len() == 0 {
        0
    } else {
        zero_count(w, ids.drop_last()) + if zero_cell(w.cell_of(ids.last())) {
            1nat
        } else {
            0nat
        }
    }
}

spec fn in_queue(q: Seq<(i32, i32)>, lo: int, c: Pos) -> bool {
    exists|j: int| lo <= j < q.len() && #[trigger] q[j].0 == c.0 && q[j].1 == c.1
}

/// Appends the neighbours of (`x`, `y`) that lie on the `width` by `height` playfield.
fn push_neighbors(queue: &mut Vec<(i32, i32)>, x: i32, y: i32, width: u32, height: u32)
    requires
        width <= i32::MAX,
        height <= i32::MAX,
    ensures
        old(queue)@.len() <= final(queue)@.len() <= old(queue)@.len() + 8,
        final(queue)@.subrange(0, old(queue)@.len() as int) == old(queue)@,
        forall|j: int|
            #![trigger final(queue)@[j]]
            old(queue)@.len() <= j < final(queue)@.len() ==> {
                let c = (final(queue)@[j].0 as int, final(queue)@[j].1 as int);
                adjacent((x as int, y as int), c) && 0 <= c.0 < width && 0 <= c.1 < height
            },
        forall|c: Pos|
            #![trigger adjacent((x as int, y as int), c)]
            adjacent((x as int, y as int), c) && 0 <= c.0 < width && 0 <= c.1 < height ==> in_queue(
                final(queue)@,
                old(queue)@.len() as int,
                c,
            ),
{
    let ghost n0 = queue@.len() as int;
    let mut dx: i64 = -1;
    while dx <= 1
        invariant
            -1 <= dx <= 2,
            n0 <= queue@.len() <= n0 + 3 * (dx + 1) - (if dx > 0 {
                1int
            } else {
                0int
            }),
            queue@.subrange(0, n0) == old(queue)@,
            n0 == old(queue)@.len(),
            width <= i32::MAX,
            height <= i32::MAX,
            forall|j: int|
                #![trigger queue@[j]]
                n0 <= j < queue@.len() ==> {
                    let c = (queue@[j].0 as int, queue@[j].1 as int);
                    adjacent((x as int, y as int), c) && 0 <= c.0 < width && 0 <= c.1 < height
                },
            forall|c: Pos|
            #![trigger adjacent((x as int, y as int), c)]
                adjacent((x as int, y as int), c) && 0 <= c.0 < width && 0 <= c.1 < height && c.0
                    - x < dx ==> in_queue(queue@, n0, c),
        decreases 2 - dx,
    {
        let mut dy: i64 = -1;
        while dy <= 1
            invariant
                -1 <= dx <= 1,
                -1 <= dy <= 2,
                n0 <= queue@.len() <= n0 + 3 * (dx + 1) - (if dx > 0 {
                    1int
                } else {
                    0int
                }) + (dy + 1) - (if dx == 0 && dy > 0 {
                    1int
                } else {
                    0int
                }),
                queue@.subrange(0, n0) == old(queue)@,
                n0 == old(queue)@.len(),
                width <= i32::MAX,
                height <= i32::MAX,
                forall|j: int|
                    #![trigger queue@[j]]
                    n0 <= j < queue@.len() ==> {
                        let c = (queue@[j].0 as int, queue@[j].1 as int);
                        adjacent((x as int, y as int), c) && 0 <= c.0 < width && 0 <= c.1 < height
                    },
                forall|c: Pos|
            #![trigger adjacent((x as int, y as int), c)]
                    adjacent((x as int, y as int), c) && 0 <= c.0 < width && 0 <= c.1 < height && (c.0
                        - x < dx || (c.0 - x == dx && c.1 - y < dy)) ==> in_queue(queue@, n0, c),
            decreases 2 - dy,
        {
            let rx = x as i64 + dx;
            let ry = y as i64 + dy;
            let ghost before = queue@;
            if !(dx == 0 && dy == 0) && 0 <= rx && rx < width as i64 && 0 <= ry && ry < height as i64 {
                queue.push((rx as i32, ry as i32));
                proof {
                    assert(queue@.subrange(0, n0) =~= before.subrange(0, n0));
                    assert forall|c: Pos|
            #![trigger adjacent((x as int, y as int), c)]
                        adjacent((x as int, y as int), c) && 0 <= c.0 < width && 0 <= c.1 < height
                            && (c.0 - x < dx || (c.0 - x == dx && c.1 - y < dy + 1)) implies in_queue(
                        queue@,
                        n0,
                        c,
                    ) by {
                        if c.0 - x == dx && c.1 - y == dy {
                            let j = queue@.len() - 1;
                            assert(queue@[j].0 == c.0 && queue@[j].1 == c.1);
                        } else {
                            let j = choose|j: int|
                                n0 <= j < before.len() && #[trigger] before[j].0 == c.0
                                    && before[j].1 == c.1;
                            assert(queue@[j] == before[j]);
                        }
                    }
                }
            }
            dy = dy + 1;
        }
        dx = dx + 1;
    }
}

} // verus!

verus! {

/// `c` was requested, or queued by a cell of `done`.
spec fn queued_by(st: World, seeds: Seq<(i32, i32)>, done: Set<Pos>, c: Pos) -> bool {
    is_seed(seeds, c) || exists|d: Pos| #[trigger] done.contains(d) && cascades_into(st, d, c)
}

spec fn shows(cell: Cell) -> bool {
    match cell.kind {
        CellKind::Air(a) => a.revealed,
        _ => false,
    }
}

spec fn queue_pos(q: Seq<(i32, i32)>, j: int) -> Pos {
    (q[j].0 as int, q[j].1 as int)
}

/// Once the queue is drained, every cell on a chain of the cascade has been revealed.
proof fn lemma_chain_done(
    st: World,
    seeds: Seq<(i32, i32)>,
    done: Set<Pos>,
    queue: Seq<(i32, i32)>,
    p: Seq<Pos>,
    n: int,
)
    requires
        seeds.len() <= queue.len(),
        queue.subrange(0, seeds.len() as int) == seeds,
        forall|d: Pos, e: Pos|
            #![trigger done.contains(d), cascades_into(st, d, e)]
            done.contains(d) && cascades_into(st, d, e) ==> in_queue(queue, 0, e),
        forall|e: Pos|
            openable(st, e) && !done.contains(e) && in_queue(queue, 0, e) ==> #[trigger] in_queue(
                queue,
                queue.len() as int,
                e,
            ),
        is_chain(st, seeds, p),
        0 <= n < p.len(),
    ensures
        done.contains(p[n]),
    decreases n,
{
    let c = p[n];
    assert(openable(st, c));
    if n == 0 {
        let j = choose|j: int| 0 <= j < seeds.len() && #[trigger] seeds[j].0 == c.0 && seeds[j].1 == c.1;
        assert(queue[j] == queue.subrange(0, seeds.len() as int)[j]);
        assert(in_queue(queue, 0, c));
    } else {
        lemma_chain_done(st, seeds, done, queue, p, n - 1);
        assert(cascades_into(st, p[n - 1], p[n - 1 + 1]));
        assert(in_queue(queue, 0, c));
    }
    if !done.contains(c) {
        assert(in_queue(queue, queue.len() as int, c));
    }
}

/// Skipping entry `i` of the queue keeps every pending cell ahead of the cursor.
proof fn lemma_skip(st: World, done: Set<Pos>, queue: Seq<(i32, i32)>, i: int)
    requires
        0 <= i < queue.len(),
        forall|e: Pos|
            openable(st, e) && !done.contains(e) && in_queue(queue, 0, e) ==> #[trigger] in_queue(
                queue,
                i,
                e,
            ),
        !openable(st, queue_pos(queue, i)) || done.contains(queue_pos(queue, i)),
    ensures
        forall|e: Pos|
            openable(st, e) && !done.contains(e) && in_queue(queue, 0, e) ==> #[trigger] in_queue(
                queue,
                i + 1,
                e,
            ),
{
    assert forall|e: Pos|
        openable(st, e) && !done.contains(e) && in_queue(queue, 0, e) implies #[trigger] in_queue(
        queue,
        i + 1,
        e,
    ) by {
        assert(in_queue(queue, i, e));
        let j = choose|j: int| i <= j < queue.len() && #[trigger] queue[j].0 == e.0 && queue[j].1 == e.1;
        assert(j != i);
    }
}

/// Whether a live mine stands at one of the first `n` entries of the queue.
spec fn mine_among(st: World, queue: Seq<(i32, i32)>, n: int) -> bool {
    exists|j: int| 0 <= j < n && live_mine(st, #[trigger] queue_pos(queue, j))
}

proof fn lemma_mine_step(st: World, queue: Seq<(i32, i32)>, i: int)
    requires
        0 <= i < queue.len(),
    ensures
        mine_among(st, queue, i + 1) == (mine_among(st, queue, i) || live_mine(
            st,
            queue_pos(queue, i),
        )),
{
    if mine_among(st, queue, i + 1) && !live_mine(st, queue_pos(queue, i)) {
        let j = choose|j: int| 0 <= j < i + 1 && live_mine(st, #[trigger] queue_pos(queue, j));
        assert(mine_among(st, queue, i));
    }
    if live_mine(st, queue_pos(queue, i)) {
        assert(mine_among(st, queue, i + 1));
    }
    if mine_among(st, queue, i) {
        let j = choose|j: int| 0 <= j < i && live_mine(st, #[trigger] queue_pos(queue, j));
        assert(mine_among(st, queue, i + 1));
    }
}

proof fn lemma_mine_prefix(st: World, q1: Seq<(i32, i32)>, q2: Seq<(i32, i32)>, n: int)
    requires
        0 <= n <= q1.len() <= q2.len(),
        q2.subrange(0, q1.len() as int) == q1,
    ensures
        mine_among(st, q1, n) == mine_among(st, q2, n),
{
    if mine_among(st, q1, n) {
        let j = choose|j: int| 0 <= j < n && live_mine(st, #[trigger] queue_pos(q1, j));
        assert(q2[j] == q2.subrange(0, q1.len() as int)[j]);
        assert(queue_pos(q2, j) == queue_pos(q1, j));
        assert(mine_among(st, q2, n));
    }
    if mine_among(st, q2, n) {
        let j = choose|j: int| 0 <= j < n && live_mine(st, #[trigger] queue_pos(q2, j));
        assert(q2[j] == q2.subrange(0, q1.len() as int)[j]);
        assert(queue_pos(q2, j) == queue_pos(q1, j));
        assert(mine_among(st, q1, n));
    }
}

spec fn queue_sound(st: World, seeds: Seq<(i32, i32)>, done: Set<Pos>, queue: Seq<(i32, i32)>) -> bool {
    forall|j: int| 0 <= j < queue.len() ==> queued_by(st, seeds, done, #[trigger] queue_pos(queue, j))
}

spec fn queue_covers(st: World, done: Set<Pos>, queue: Seq<(i32, i32)>) -> bool {
    forall|d: Pos, e: Pos|
        #![trigger done.contains(d), cascades_into(st, d, e)]
        done.contains(d) && cascades_into(st, d, e) ==> in_queue(queue, 0, e)
}

spec fn pending_ahead(st: World, done: Set<Pos>, queue: Seq<(i32, i32)>, i: int) -> bool {
    forall|e: Pos|
        openable(st, e) && !done.contains(e) && in_queue(queue, 0, e) ==> #[trigger] in_queue(queue, i, e)
}

spec fn starts_with(queue: Seq<(i32, i32)>, seeds: Seq<(i32, i32)>) -> bool {
    seeds.len() <= queue.len() && queue.subrange(0, seeds.len() as int) == seeds
}

/// What the world shows after the cells of `done` were revealed.
spec fn shows_done(st: World, w: World, done: Set<Pos>) -> bool {
    forall|c: Pos| #[trigger]
        w.cell_at(c.0, c.1) == if done.contains(c) {
            Some(opened(st.cell_at(c.0, c.1)->0))
        } else {
            st.cell_at(c.0, c.1)
        }
}

/// The redraw list holds the handles of the cells of `done`, once each.
spec fn lists_done(st: World, updates: Seq<CellId>, done: Set<Pos>) -> bool {
    &&& updates.no_duplicates()
    &&& forall|j: int| 0 <= j < updates.len() ==> handle_in(st, done, #[trigger] updates[j])
    &&& forall|c: Pos| #[trigger] done.contains(c) ==> updates.contains(st.handle_at(c.0, c.1)->0)
}

spec fn handle_in(st: World, done: Set<Pos>, id: CellId) -> bool {
    exists|c: Pos| #[trigger] done.contains(c) && st.handle_at(c.0, c.1) == Some(id)
}

/// A queued hidden air cell lies on a chain of the cascade.
proof fn lemma_on_chain(st: World, seeds: Seq<(i32, i32)>, done: Set<Pos>, q: Pos)
    requires
        queued_by(st, seeds, done, q),
        openable(st, q),
        forall|c: Pos| #[trigger] done.contains(c) ==> reveals(st, seeds, c),
    ensures
        reveals(st, seeds, q),
{
    if is_seed(seeds, q) {
        let p = seq![q];
        assert(is_chain(st, seeds, p));
    } else {
        let d = choose|d: Pos| #[trigger] done.contains(d) && cascades_into(st, d, q);
        let pd = choose|pd: Seq<Pos>| #[trigger] is_chain(st, seeds, pd) && pd.last() == d;
        let p = pd.push(q);
        assert forall|i: int| 0 <= i < p.len() implies openable(st, #[trigger] p[i]) by {
            if i < pd.len() {
                assert(p[i] == pd[i]);
            }
        }
        assert forall|i: int| 0 <= i < p.len() - 1 implies cascades_into(
            st,
            #[trigger] p[i],
            p[i + 1],
        ) by {
            if i < pd.len() - 1 {
                assert(p[i] == pd[i] && p[i + 1] == pd[i + 1]);
            } else {
                assert(p[i] == d && p[i + 1] == q);
            }
        }
        assert(p[0] == pd[0]);
        assert(is_chain(st, seeds, p));
        assert(p.last() == q);
    }
}

/// Revealing `q`, the entry at `at`, and queueing its neighbours when it has no mine
/// neighbours keeps the queue's invariants.
proof fn lemma_step_queue(
    st: World,
    seeds: Seq<(i32, i32)>,
    done0: Set<Pos>,
    q: Pos,
    q0: Seq<(i32, i32)>,
    q1: Seq<(i32, i32)>,
    at: int,
)
    requires
        0 <= at < q0.len(),
        queue_pos(q0, at) == q,
        q0.len() <= q1.len(),
        q1.subrange(0, q0.len() as int) == q0,
        !is_zero(st, q) ==> q1.len() == q0.len(),
        is_zero(st, q) ==> forall|j: int|
            q0.len() <= j < q1.len() ==> cascades_into(st, q, #[trigger] queue_pos(q1, j)),
        is_zero(st, q) ==> forall|e: Pos| #[trigger]
            cascades_into(st, q, e) ==> in_queue(q1, q0.len() as int, e),
        starts_with(q0, seeds),
        queue_sound(st, seeds, done0, q0),
        queue_covers(st, done0, q0),
        pending_ahead(st, done0, q0, at),
    ensures
        starts_with(q1, seeds),
        queue_sound(st, seeds, done0.insert(q), q1),
        queue_covers(st, done0.insert(q), q1),
        pending_ahead(st, done0.insert(q), q1, at + 1),
{
    let done = done0.insert(q);
    assert forall|j: int| 0 <= j < q1.len() implies queued_by(
        st,
        seeds,
        done,
        #[trigger] queue_pos(q1, j),
    ) by {
        if j < q0.len() {
            assert(q1[j] == q1.subrange(0, q0.len() as int)[j]);
            assert(queue_pos(q1, j) == queue_pos(q0, j));
            assert(queued_by(st, seeds, done0, queue_pos(q0, j)));
            if !is_seed(seeds, queue_pos(q0, j)) {
                let d = choose|d: Pos| #[trigger]
                    done0.contains(d) && cascades_into(st, d, queue_pos(q0, j));
                assert(done.contains(d));
            }
        } else {
            assert(cascades_into(st, q, queue_pos(q1, j)));
            assert(done.contains(q));
        }
    }
    assert(q1.subrange(0, seeds.len() as int) =~= seeds) by {
        assert(q1.subrange(0, seeds.len() as int) =~= q1.subrange(0, q0.len() as int).subrange(
            0,
            seeds.len() as int,
        ));
    }
    assert forall|d: Pos, e: Pos|
        #![trigger done.contains(d), cascades_into(st, d, e)]
        done.contains(d) && cascades_into(st, d, e) implies in_queue(q1, 0, e) by {
        if d == q {
            assert(in_queue(q1, q0.len() as int, e));
            let j = choose|j: int|
                q0.len() <= j < q1.len() && #[trigger] q1[j].0 == e.0 && q1[j].1 == e.1;
        } else {
            assert(done0.contains(d));
            assert(in_queue(q0, 0, e));
            let j = choose|j: int| 0 <= j < q0.len() && #[trigger] q0[j].0 == e.0 && q0[j].1 == e.1;
            assert(q1[j] == q1.subrange(0, q0.len() as int)[j]);
        }
    }
    assert forall|e: Pos|
        openable(st, e) && !done.contains(e) && in_queue(q1, 0, e) implies #[trigger] in_queue(
        q1,
        at + 1,
        e,
    ) by {
        let j = choose|j: int| 0 <= j < q1.len() && #[trigger] q1[j].0 == e.0 && q1[j].1 == e.1;
        if j < q0.len() {
            assert(q1[j] == q1.subrange(0, q0.len() as int)[j]);
            assert(in_queue(q0, 0, e));
            assert(in_queue(q0, at, e));
            let j2 = choose|j2: int| at <= j2 < q0.len() && #[trigger] q0[j2].0 == e.0 && q0[j2].1 == e.1;
            assert(j2 != at);
            assert(q1[j2] == q1.subrange(0, q0.len() as int)[j2]);
        }
    }
}

/// Revealing the cell at `q` through handle `h` moves the world from showing `done0` to showing
/// `done0` and `q`.
proof fn lemma_step_cells(st: World, w0: World, w1: World, done0: Set<Pos>, q: Pos, h: CellId)
    requires
        w0.wf(),
        w1.wf(),
        w0.spec_grid() == st.spec_grid(),
        w1.spec_grid() == st.spec_grid(),
        w1.count() == w0.count(),
        !done0.contains(q),
        w0.handle_at(q.0, q.1) == Some(h),
        forall|other: CellId|
            #![trigger w1.cell_of(other)]
            w1.valid(other) ==> w1.cell_of(other) == if other.index == h.index {
                opened(st.cell_at(q.0, q.1)->0)
            } else {
                w0.cell_of(other)
            },
        shows_done(st, w0, done0),
    ensures
        shows_done(st, w1, done0.insert(q)),
{
    let done = done0.insert(q);
    assert forall|c: Pos| #[trigger]
        w1.cell_at(c.0, c.1) == if done.contains(c) {
            Some(opened(st.cell_at(c.0, c.1)->0))
        } else {
            st.cell_at(c.0, c.1)
        } by {
        w0.lemma_handles(c.0, c.1, q.0, q.1);
        assert(w0.cell_at(c.0, c.1) == if done0.contains(c) {
            Some(opened(st.cell_at(c.0, c.1)->0))
        } else {
            st.cell_at(c.0, c.1)
        });
    }
}

/// Appending the handle of the newly revealed `q` keeps the redraw list exact.
proof fn lemma_step_updates(
    st: World,
    done0: Set<Pos>,
    q: Pos,
    h: CellId,
    u0: Seq<CellId>,
    u1: Seq<CellId>,
)
    requires
        st.wf(),
        u1 == u0.push(h),
        st.handle_at(q.0, q.1) == Some(h),
        !done0.contains(q),
        lists_done(st, u0, done0),
    ensures
        lists_done(st, u1, done0.insert(q)),
{
    let done = done0.insert(q);
    assert forall|j: int| 0 <= j < u1.len() implies handle_in(st, done, #[trigger] u1[j]) by {
        if j < u0.len() {
            assert(u1[j] == u0[j]);
            assert(handle_in(st, done0, u0[j]));
            let c = choose|c: Pos| #[trigger] done0.contains(c) && st.handle_at(c.0, c.1) == Some(u0[j]);
            assert(done.contains(c));
        } else {
            assert(done.contains(q) && st.handle_at(q.0, q.1) == Some(u1[j]));
        }
    }
    assert(!u0.contains(h)) by {
        if u0.contains(h) {
            let j = choose|j: int| 0 <= j < u0.len() && u0[j] == h;
            assert(handle_in(st, done0, u0[j]));
            let c = choose|c: Pos| #[trigger] done0.contains(c) && st.handle_at(c.0, c.1) == Some(u0[j]);
            st.lemma_handles(c.0, c.1, q.0, q.1);
        }
    }
    assert forall|a: int, b: int| 0 <= a < u1.len() && 0 <= b < u1.len() && a != b implies u1[a]
        != u1[b] by {
        if a < u0.len() && b < u0.len() {
            assert(u1[a] == u0[a] && u1[b] == u0[b]);
        } else if a < u0.len() {
            assert(u1[a] == u0[a] && u1[b] == h);
        } else {
            assert(u1[b] == u0[b] && u1[a] == h);
        }
    }
    assert forall|c: Pos| #[trigger] done.contains(c) implies u1.contains(st.handle_at(c.0, c.1)->0) by {
        if c != q {
            assert(done0.contains(c));
            let j = choose|j: int| 0 <= j < u0.len() && u0[j] == st.handle_at(c.0, c.1)->0;
            assert(u1[j] == u0[j]);
        } else {
            assert(u1[u1.len() - 1] == h);
        }
    }
    assert(u1.no_duplicates());
}

/// Reveals the requested coordinates and cascades breadth-first: a coordinate with no cell,
/// a flagged cell, a wall or an already revealed cell is skipped; an unflagged mine signals a
/// hit; a hidden air cell is revealed, its handle is queued for a redraw, and when it has no
/// mine neighbours its neighbours on the playfield are requested in turn.
pub fn reveal_cell(world: &mut World, requests: &Vec<(i32, i32)>) -> (r: RevealOutcome)
    requires
        old(world).wf(),
        old(world).width() <= i32::MAX,
        old(world).height() <= i32::MAX,
    ensures
        final(world).wf(),
        final(world).spec_grid() == old(world).spec_grid(),
        forall|x: int, y: int| #[trigger]
            final(world).cell_at(x, y) == after_reveal(*old(world), requests@, x, y),
        r.updates@.no_duplicates(),
        forall|j: int|
            0 <= j < r.updates@.len() ==> handle_revealed(
                *old(world),
                requests@,
                #[trigger] r.updates@[j],
            ),
        forall|c: Pos| #[trigger]
            reveals(*old(world), requests@, c) ==> r.updates@.contains(
                old(world).handle_at(c.0, c.1)->0,
            ),
        r.mine_hit == exists|c: Pos| #[trigger] probes(*old(world), requests@, c) && live_mine(
            *old(world),
            c,
        ),
        requests@.len() <= r.lookups <= requests@.len() + 8 * zero_count(*old(world), r.updates@),
{
    let ghost st = *world;
    let ghost seeds = requests@;
    let mut queue: Vec<(i32, i32)> = Vec::new();
    let mut k: usize = 0;
    while k < requests.len()
        invariant
            k <= requests@.len(),
            queue@ == requests@.subrange(0, k as int),
        decreases requests@.len() - k,
    {
        queue.push(requests[k]);
        k = k + 1;
        assert(queue@ =~= requests@.subrange(0, k as int));
    }
    assert(queue@ =~= seeds);
    assert(queue@.subrange(0, seeds.len() as int) =~= seeds);
    let width = world.grid().width();
    let height = world.grid().height();
    let mut updates: Vec<CellId> = Vec::new();
    let mut mine_hit = false;
    let ghost mut done: Set<Pos> = Set::empty();
    let ghost mut done_ids: Set<int> = Set::empty();
    let mut i: usize = 0;
    proof {
        assert forall|j: int| 0 <= j < queue@.len() implies queued_by(
            st,
            seeds,
            done,
            #[trigger] queue_pos(queue@, j),
        ) by {
            assert(seeds[j].0 == queue_pos(queue@, j).0 && seeds[j].1 == queue_pos(queue@, j).1);
        }
        assert(lists_done(st, updates@, done));
    }
    while i < queue.len()
        invariant
            world.wf(),
            world.spec_grid() == st.spec_grid(),
            world.count() == st.count(),
            st == *old(world),
            st.wf(),
            width == st.width(),
            height == st.height(),
            width <= i32::MAX,
            height <= i32::MAX,
            i <= queue@.len(),
            seeds == requests@,
            starts_with(queue@, seeds),
            shows_done(st, *world, done),
            forall|c: Pos| #[trigger] done.contains(c) ==> reveals(st, seeds, c) && openable(st, c),
            queue_sound(st, seeds, done, queue@),
            queue_covers(st, done, queue@),
            pending_ahead(st, done, queue@, i as int),
            mine_hit == mine_among(st, queue@, i as int),
            lists_done(st, updates@, done),
            queue@.len() <= seeds.len() + 8 * zero_count(st, updates@),
            done_ids.finite(),
            done_ids.len() <= st.count(),
            forall|id: int| #[trigger]
                done_ids.contains(id) ==> 0 <= id < st.count() && shows(
                    world.cell_of(CellId { index: id as usize }),
                ),
        decreases (st.count() - done_ids.len()) * 10 + queue@.len() - i,
    {
        let (x, y) = queue[i];
        let ghost q: Pos = (x as int, y as int);
        let ghost at = i as int;
        assert(queue_pos(queue@, at) == q);
        proof {
            lemma_mine_step(st, queue@, at);
        }
        i = i + 1;
        let handle = match world.get(x, y) {
            Ok(Some(h)) => h,
            _ => {
                assert(world.cell_at(q.0, q.1).is_none());
                proof {
                    lemma_skip(st, done, queue@, at);
                }
                continue;
            },
        };
        proof {
            world.lemma_handles(q.0, q.1, q.0, q.1);
        }
        let cell = world.cell(handle);
        assert(world.cell_at(q.0, q.1) == Some(cell));
        if cell.flagged {
            proof {
                lemma_skip(st, done, queue@, at);
            }
            continue;
        }
        match cell.kind {
            CellKind::Wall => {
                proof {
                    lemma_skip(st, done, queue@, at);
                }
                continue;
            },
            CellKind::Mine => {
                proof {
                    lemma_skip(st, done, queue@, at);
                }
                mine_hit = true;
                continue;
            },
            CellKind::Air(a) => {
                if a.revealed {
                    proof {
                        lemma_skip(st, done, queue@, at);
                    }
                    continue;
                }
                assert(!done.contains(q));
                assert(openable(st, q));
                assert(!live_mine(st, q));
                assert(is_zero(st, q) == (a.neighbor_mines == 0));
                proof {
                    lemma_on_chain(st, seeds, done, q);
                }
                let ghost w0 = *world;
                let ghost u0 = updates@;
                let ghost done0 = done;
                let ghost q0 = queue@;
                world.set_cell(
                    handle,
                    Cell {
                        kind: CellKind::Air(Air { neighbor_mines: a.neighbor_mines, revealed: true }),
                        flagged: false,
                    },
                );
                updates.push(handle);
                proof {
                    assert(updates@.drop_last() =~= u0);
                    assert(st.cell_of(handle) == cell);
                    assert(zero_count(st, updates@) == zero_count(st, u0) + if a.neighbor_mines == 0 {
                        1nat
                    } else {
                        0nat
                    });
                }
                if a.neighbor_mines == 0 {
                    push_neighbors(&mut queue, x, y, width, height);
                } else {
                    assert(queue@.subrange(0, q0.len() as int) =~= q0);
                }
                proof {
                    lemma_step_cells(st, w0, *world, done0, q, handle);
                    lemma_step_updates(st, done0, q, handle, u0, updates@);
                    lemma_step_queue(st, seeds, done0, q, q0, queue@, at);
                    lemma_mine_prefix(st, q0, queue@, i as int);
                    assert forall|id: int| #[trigger]
                        done_ids.insert(handle.index as int).contains(id) implies 0 <= id < st.count()
                        && shows(world.cell_of(CellId { index: id as usize })) by {
                        if id != handle.index as int {
                            assert(world.cell_of(CellId { index: id as usize }) == w0.cell_of(
                                CellId { index: id as usize },
                            ));
                        }
                    }
                    assert(!done_ids.contains(handle.index as int));
                    done = done.insert(q);
                    done_ids = done_ids.insert(handle.index as int);
                    vstd::set_lib::lemma_int_range(0, st.count() as int);
                    assert(done_ids.subset_of(vstd::set_lib::set_int_range(0, st.count() as int)));
                    vstd::set_lib::lemma_len_subset(
                        done_ids,
                        vstd::set_lib::set_int_range(0, st.count() as int),
                    );
                }
            },
        }
    }
    proof {
        assert forall|c: Pos| #[trigger] reveals(st, seeds, c) implies done.contains(c) by {
            let p = choose|p: Seq<Pos>| #[trigger] is_chain(st, seeds, p) && p.last() == c;
            lemma_chain_done(st, seeds, done, queue@, p, p.len() - 1);
        }
        assert forall|x: int, y: int| #[trigger]
            world.cell_at(x, y) == if reveals(st, seeds, (x, y)) {
                Some(opened(st.cell_at(x, y)->0))
            } else {
                st.cell_at(x, y)
            } by {
            let c: Pos = (x, y);
            assert(world.cell_at(c.0, c.1) == if done.contains(c) {
                Some(opened(st.cell_at(c.0, c.1)->0))
            } else {
                st.cell_at(c.0, c.1)
            });
        }
        assert forall|c: Pos| #[trigger]
            probes(st, seeds, c) && live_mine(st, c) implies mine_among(st, queue@, queue@.len() as int) by {
            if is_seed(seeds, c) {
                let j = choose|j: int| 0 <= j < seeds.len() && #[trigger] seeds[j].0 == c.0 && seeds[j].1 == c.1;
                assert(queue@[j] == queue@.subrange(0, seeds.len() as int)[j]);
                assert(queue_pos(queue@, j) == c);
            } else {
                let d = choose|d: Pos| #[trigger] reveals(st, seeds, d) && cascades_into(st, d, c);
                assert(done.contains(d));
                assert(in_queue(queue@, 0, c));
                let j = choose|j: int| 0 <= j < queue@.len() && #[trigger] queue@[j].0 == c.0 && queue@[j].1 == c.1;
                assert(queue_pos(queue@, j) == c);
            }
        }
        if mine_hit {
            let j = choose|j: int| 0 <= j < queue@.len() && live_mine(st, #[trigger] queue_pos(queue@, j));
            let c = queue_pos(queue@, j);
            assert(queued_by(st, seeds, done, c));
            if !is_seed(seeds, c) {
                let d = choose|d: Pos| #[trigger] done.contains(d) && cascades_into(st, d, c);
                assert(reveals(st, seeds, d));
            }
            assert(probes(st, seeds, c));
        }
    }
    let r = RevealOutcome { updates, mine_hit, lookups: i };
    assert forall|j: int| 0 <= j < r.updates@.len() implies handle_revealed(
        st,
        seeds,
        #[trigger] r.updates@[j],
    ) by {
        assert(handle_in(st, done, updates@[j]));
        let c = choose|c: Pos| #[trigger] done.contains(c) && st.handle_at(c.0, c.1) == Some(updates@[j]);
        assert(reveals(st, seeds, c));
    }
    r
}

/// Only hidden, unflagged air is ever revealed: a flagged cell, a wall, a mine or an already
/// revealed cell comes out of a reveal as it went in.
pub proof fn lemma_only_openable_revealed(w: World, seeds: Seq<(i32, i32)>, x: int, y: int)
    requires
        !openable(w, (x, y)),
    ensures
        after_reveal(w, seeds, x, y) == w.cell_at(x, y),
        !reveals(w, seeds, (x, y)),
{
    if reveals(w, seeds, (x, y)) {
        let p = choose|p: Seq<Pos>| #[trigger] is_chain(w, seeds, p) && p.last() == (x, y);
        assert(openable(w, p[p.len() - 1]));
    }
}

/// Revealing the same coordinates a second time, in the world the first reveal left, reveals
/// nothing: every cell stays as it is, so no handle is redrawn again.
pub proof fn lemma_reveal_idempotent(w0: World, w1: World, seeds: Seq<(i32, i32)>)
    requires
        forall|x: int, y: int| #[trigger] w1.cell_at(x, y) == after_reveal(w0, seeds, x, y),
    ensures
        forall|c: Pos| !#[trigger] reveals(w1, seeds, c),
        forall|x: int, y: int| #[trigger] after_reveal(w1, seeds, x, y) == w1.cell_at(x, y),
{
    assert forall|c: Pos| !#[trigger] reveals(w1, seeds, c) by {
        if reveals(w1, seeds, c) {
            let p = choose|p: Seq<Pos>| #[trigger] is_chain(w1, seeds, p) && p.last() == c;
            let s = p[0];
            assert(openable(w1, s));
            assert(w1.cell_at(s.0, s.1) == after_reveal(w0, seeds, s.0, s.1));
            if !reveals(w0, seeds, s) {
                let q = seq![s];
                assert(is_chain(w0, seeds, q));
                assert(q.last() == s);
            }
        }
    }
    assert forall|x: int, y: int| #[trigger] after_reveal(w1, seeds, x, y) == w1.cell_at(x, y) by {
        assert(!reveals(w1, seeds, (x, y)));
    }
}

/// `c` borders `zone` from outside, on the playfield.
pub open spec fn fence(w: World, zone: Set<Pos>, c: Pos) -> bool {
    !zone.contains(c) && in_bounds(w, c) && exists|z: Pos| #[trigger] zone.contains(z) && adjacent(z, c)
}

/// `p` walks inside `zone` from one cell to a neighbour at each step.
pub open spec fn walk_in(zone: Set<Pos>, p: Seq<Pos>) -> bool {
    &&& p.len() > 0
    &&& forall|i: int| 0 <= i < p.len() ==> zone.contains(#[trigger] p[i])
    &&& forall|i: int| 0 <= i < p.len() - 1 ==> adjacent(#[trigger] p[i], p[i + 1])
}

/// One reveal inside a connected region of hidden cells without mine neighbours, fenced by
/// hidden cells that have some, reveals exactly the region and its fence.
pub proof fn lemma_cascade_region(w: World, s: (i32, i32), zone: Set<Pos>, x: int, y: int)
    requires
        zone.contains((s.0 as int, s.1 as int)),
        forall|z: Pos| #[trigger]
            zone.contains(z) ==> openable(w, z) && is_zero(w, z) && in_bounds(w, z),
        forall|z: Pos| #[trigger]
            zone.contains(z) ==> exists|p: Seq<Pos>| #[trigger]
                walk_in(zone, p) && p[0] == (s.0 as int, s.1 as int) && p.last() == z,
        forall|c: Pos| #[trigger] fence(w, zone, c) ==> openable(w, c) && !is_zero(w, c),
    ensures
        reveals(w, seq![s], (x, y)) <==> zone.contains((x, y)) || fence(w, zone, (x, y)),
{
    let seeds = seq![s];
    let c: Pos = (x, y);
    let s0: Pos = (s.0 as int, s.1 as int);
    assert(is_seed(seeds, s0)) by {
        assert(seeds[0].0 == s0.0 && seeds[0].1 == s0.1);
    }
    if zone.contains(c) || fence(w, zone, c) {
        let z = if zone.contains(c) {
            c
        } else {
            choose|z: Pos| #[trigger] zone.contains(z) && adjacent(z, c)
        };
        let p = choose|p: Seq<Pos>| #[trigger] walk_in(zone, p) && p[0] == s0 && p.last() == z;
        assert forall|i: int| 0 <= i < p.len() implies openable(w, #[trigger] p[i]) by {
            assert(zone.contains(p[i]));
        }
        assert forall|i: int| 0 <= i < p.len() - 1 implies cascades_into(w, #[trigger] p[i], p[i + 1]) by {
            assert(zone.contains(p[i]) && zone.contains(p[i + 1]));
        }
        assert(is_chain(w, seeds, p));
        if zone.contains(c) {
            assert(reveals(w, seeds, c));
        } else {
            let q = p.push(c);
            assert forall|i: int| 0 <= i < q.len() implies openable(w, #[trigger] q[i]) by {
                if i < p.len() {
                    assert(q[i] == p[i]);
                }
            }
            assert forall|i: int| 0 <= i < q.len() - 1 implies cascades_into(w, #[trigger] q[i], q[i + 1]) by {
                if i < p.len() - 1 {
                    assert(q[i] == p[i] && q[i + 1] == p[i + 1]);
                } else {
                    assert(q[i] == z && q[i + 1] == c);
                }
            }
            assert(q[0] == p[0]);
            assert(is_chain(w, seeds, q));
            assert(q.last() == c);
        }
    }
    if reveals(w, seeds, c) {
        let p = choose|p: Seq<Pos>| #[trigger] is_chain(w, seeds, p) && p.last() == c;
        lemma_chain_in_region(w, s, zone, p, p.len() - 1);
    }
}

proof fn lemma_chain_in_region(w: World, s: (i32, i32), zone: Set<Pos>, p: Seq<Pos>, n: int)
    requires
        zone.contains((s.0 as int, s.1 as int)),
        forall|z: Pos| #[trigger]
            zone.contains(z) ==> openable(w, z) && is_zero(w, z) && in_bounds(w, z),
        forall|c: Pos| #[trigger] fence(w, zone, c) ==> openable(w, c) && !is_zero(w, c),
        is_chain(w, seq![s], p),
        0 <= n < p.len(),
    ensures
        zone.contains(p[n]) || fence(w, zone, p[n]),
        n < p.len() - 1 ==> zone.contains(p[n]),
    decreases n,
{
    if n == 0 {
        let j = choose|j: int| 0 <= j < seq![s].len() && #[trigger] seq![s][j].0 == p[0].0 && seq![s][j].1 == p[0].1;
        assert(p[0] == (s.0 as int, s.1 as int));
    } else {
        lemma_chain_in_region(w, s, zone, p, n - 1);
        assert(cascades_into(w, p[n - 1], p[n - 1 + 1]));
        assert(zone.contains(p[n - 1]));
        if !zone.contains(p[n]) {
            assert(fence(w, zone, p[n]));
        }
    }
    if n < p.len() - 1 {
        assert(cascades_into(w, p[n], p[n + 1]));
    }
}

/// What the content and border slots of the cell behind `id` show in its current state; a
/// wall has no border slot.
pub fn update_sprite(world: &World, id: CellId) -> (r: (Look, Option<Look>))
    requires
        world.valid(id),
    ensures
        r.0 == shown_content(world.cell_of(id)),
        r.1 == border_look(world.cell_of(id).kind),
{
    let cell = world.cell(id);
    let (content, border) = match cell.kind {
        CellKind::Mine => (Mine.update_content(), Some(Mine.update_border())),
        CellKind::Air(a) => (a.update_content(), Some(a.update_border())),
        CellKind::Wall => (Wall.update_content(), None),
    };
    if cell.flagged {
        (flag(), border)
    } else {
        (content, border)
    }
}

} // verus!
