//! Which wall cells the board mesh holds and which of their faces show,
//! and how a face's four corners become two triangles.
use vstd::prelude::*;
use vstd::arithmetic::div_mod::lemma_fundamental_div_mod_converse;
use crate::level::{Level, LevelView, lemma_cell_index};

verus! {

/// One wall block of the board mesh: its cell, and which of its faces show,
/// in the order top, bottom, `+z`, `-z`, `+x`, `-x`.
pub struct WallBox {
    pub x: i32,
    pub z: i32,
    pub faces: [bool; 6],
}

/// The faces of the wall block at `(x, z)` that show: the top always, the
/// bottom never, a side where the neighbouring cell holds no wall of the
/// grid.
pub open spec fn box_faces(v: LevelView, x: int, z: int) -> Seq<bool> {
    seq![
        true,
        false,
        !v.solid_at(x, z + 1),
        !v.solid_at(x, z - 1),
        !v.solid_at(x + 1, z),
        !v.solid_at(x - 1, z),
    ]
}

/// The cells of the grid, row after row.
pub open spec fn grid_cells(v: LevelView) -> Seq<(i32, i32)> {
    Seq::new((v.w * v.h) as nat, |i: int| ((i % v.w) as i32, (i / v.w) as i32))
}

pub open spec fn solid_fn(v: LevelView) -> spec_fn((i32, i32)) -> bool {
    |c: (i32, i32)| v.solid_at(c.0 as int, c.1 as int)
}

/// The wall cells of the grid, row after row.
pub open spec fn wall_cells(v: LevelView) -> Seq<(i32, i32)> {
    grid_cells(v).filter(solid_fn(v))
}

/// The six faces of a wall block: the top always shows, the bottom never,
/// and each side (`+z`, `-z`, `+x`, `-x`) shows exactly where the cell on
/// that side lies outside the grid or holds no wall.
pub proof fn lemma_face_rule(v: LevelView, x: int, z: int)
    ensures
        box_faces(v, x, z).len() == 6,
        box_faces(v, x, z)[0],
        !box_faces(v, x, z)[1],
        box_faces(v, x, z)[2] == (!v.in_bounds(x, z + 1) || !v.walls[(z + 1) * v.w + x]),
        box_faces(v, x, z)[3] == (!v.in_bounds(x, z - 1) || !v.walls[(z - 1) * v.w + x]),
        box_faces(v, x, z)[4] == (!v.in_bounds(x + 1, z) || !v.walls[z * v.w + (x + 1)]),
        box_faces(v, x, z)[5] == (!v.in_bounds(x - 1, z) || !v.walls[z * v.w + (x - 1)]),
{
}

/// The faces of the wall block at `(x, z)` that show (see
/// `lemma_face_rule`).
pub fn wall_faces(level: &Level, x: i32, z: i32) -> (r: [bool; 6])
    requires
        level@.in_bounds(x as int, z as int),
    ensures
        r@ == box_faces(level@, x as int, z as int),
        r[0],
        !r[1],
        r[2] == (!level@.in_bounds(x as int, z + 1) || !level@.walls[(z + 1) * level@.w + x]),
        r[3] == (!level@.in_bounds(x as int, z - 1) || !level@.walls[(z - 1) * level@.w + x]),
        r[4] == (!level@.in_bounds(x + 1, z as int) || !level@.walls[z * level@.w + (x + 1)]),
        r[5] == (!level@.in_bounds(x - 1, z as int) || !level@.walls[z * level@.w + (x - 1)]),
{
    let w = level.width();
    let h = level.height();
    assert(0 <= x < w && 0 <= z < h);
    let r = [
        true,
        false,
        !level.is_solid(x, z + 1),
        !level.is_solid(x, z - 1),
        !level.is_solid(x + 1, z),
        !level.is_solid(x - 1, z),
    ];
    assert(r@ =~= box_faces(level@, x as int, z as int));
    proof {
        lemma_face_rule(level@, x as int, z as int);
    }
    r
}

/// The blocks of the board mesh: one per wall cell, row after row, each
/// with the faces that show.
pub fn wall_boxes(level: &Level) -> (r: Vec<WallBox>)
    ensures
        r@.len() == wall_cells(level@).len(),
        forall|i: int|
            0 <= i < r@.len() ==> {
                &&& (#[trigger] r@[i]).x == wall_cells(level@)[i].0
                &&& r@[i].z == wall_cells(level@)[i].1
                &&& r@[i].faces@ == box_faces(level@, r@[i].x as int, r@[i].z as int)
            },
        boxes_faces(r@) == shown_faces(level@),
{
    broadcast use Seq::lemma_filter_push;

    let w = level.width();
    let h = level.height();
    let ghost v = level@;
    let ghost all = grid_cells(v);
    let mut out: Vec<WallBox> = Vec::new();
    let mut z: i32 = 0;
    while z < h
        invariant
            v == level@,
            v.wf(),
            w == v.w,
            h == v.h,
            all == grid_cells(v),
            0 <= z <= h,
            out@.len() == all.take(z * v.w).filter(solid_fn(v)).len(),
            forall|i: int|
                0 <= i < out@.len() ==> {
                    &&& (#[trigger] out@[i]).x == all.take(z * v.w).filter(solid_fn(v))[i].0
                    &&& out@[i].z == all.take(z * v.w).filter(solid_fn(v))[i].1
                    &&& out@[i].faces@ == box_faces(v, out@[i].x as int, out@[i].z as int)
                },
        decreases h - z,
    {
        let mut x: i32 = 0;
        while x < w
            invariant
                v == level@,
                v.wf(),
                w == v.w,
                h == v.h,
                all == grid_cells(v),
                0 <= z < h,
                0 <= x <= w,
                out@.len() == all.take(z * v.w + x).filter(solid_fn(v)).len(),
                forall|i: int|
                    0 <= i < out@.len() ==> {
                        &&& (#[trigger] out@[i]).x == all.take(z * v.w + x).filter(solid_fn(v))[i].0
                        &&& out@[i].z == all.take(z * v.w + x).filter(solid_fn(v))[i].1
                        &&& out@[i].faces@ == box_faces(v, out@[i].x as int, out@[i].z as int)
                    },
            decreases w - x,
        {
            let ghost i = z * v.w + x;
            proof {
                lemma_cell_index(v.w, v.h, x as int, z as int);
                assert(all[i] == (x, z));
                assert(all.take(i + 1) =~= all.take(i).push(all[i]));
            }
            let ghost before = all.take(i).filter(solid_fn(v));
            proof {
                all.take(i).lemma_filter_push((x, z), solid_fn(v));
            }
            if level.is_solid(x, z) {
                let faces = wall_faces(level, x, z);
                out.push(WallBox { x, z, faces });
                assert(all.take(i + 1).filter(solid_fn(v)) == before.push((x, z)));
            } else {
                assert(all.take(i + 1).filter(solid_fn(v)) == before);
            }
            x = x + 1;
        }
        assert((z + 1) * v.w == z * v.w + v.w) by (nonlinear_arith);
        z = z + 1;
    }
    assert(all.take(h * v.w) =~= all) by {
        assert(h * v.w == v.w * v.h) by (nonlinear_arith)
            requires
                h == v.h,
        ;
    }
    proof {
        lemma_boxes_faces(v, out@, wall_cells(v));
    }
    out
}

/// Puts the two triangles of a face whose four corners start at vertex
/// `s` at the back of `idx`: corners 0, 1, 2 and 0, 2, 3.
pub fn push_face_indices(idx: &mut Vec<u16>, s: u16)
    requires
        s as int + 3 <= u16::MAX,
    ensures
        final(idx)@ == old(idx)@ + seq![s, (s + 1) as u16, (s + 2) as u16, s, (s + 2) as u16, (s + 3) as u16],
{
    idx.push(s);
    idx.push(s + 1);
    idx.push(s + 2);
    idx.push(s);
    idx.push(s + 2);
    idx.push(s + 3);
    assert(idx@ =~= old(idx)@ + seq![s, (s + 1) as u16, (s + 2) as u16, s, (s + 2) as u16, (s + 3) as u16]);
}

/// The cells around `(cx, z)` that the ball is pushed out of, in the order
/// they are tried: the cell itself, its four side neighbours (`+x`, `-x`,
/// `+z`, `-z`), then its four corners; so a side is settled before a
/// corner can snag the ball.
pub open spec fn probe_offsets() -> Seq<(int, int)> {
    seq![(0, 0), (1, 0), (-1, 0), (0, 1), (0, -1), (1, 1), (1, -1), (-1, 1), (-1, -1)]
}

pub open spec fn probe_cells(cx: int, cz: int) -> Seq<(i32, i32)> {
    probe_offsets().map_values(|o: (int, int)| ((cx + o.0) as i32, (cz + o.1) as i32))
}

pub open spec fn wall_fn(v: LevelView) -> spec_fn((i32, i32)) -> bool {
    |c: (i32, i32)| v.wall_at(c.0 as int, c.1 as int)
}

/// Where the cell at offset `(dx, dz)` from the ball's cell stands in the
/// push-out order: the ball's own cell, then the side cells `+x`, `-x`,
/// `+z`, `-z`, then the corners `(+x, +z)`, `(+x, -z)`, `(-x, +z)`,
/// `(-x, -z)`.
pub open spec fn push_rank(dx: int, dz: int) -> int {
    if dx == 0 && dz == 0 {
        0
    } else if dx == 1 && dz == 0 {
        1
    } else if dx == -1 && dz == 0 {
        2
    } else if dx == 0 && dz == 1 {
        3
    } else if dx == 0 && dz == -1 {
        4
    } else if dx == 1 && dz == 1 {
        5
    } else if dx == 1 && dz == -1 {
        6
    } else if dx == -1 && dz == 1 {
        7
    } else {
        8
    }
}

/// Cell `c` touches cell `(cx, cz)` at a side.
pub open spec fn side_of(c: (i32, i32), cx: int, cz: int) -> bool {
    (c.0 - cx == 0 && (c.1 - cz == 1 || c.1 - cz == -1)) || (c.1 - cz == 0 && (c.0 - cx == 1
        || c.0 - cx == -1))
}

/// Cell `c` touches cell `(cx, cz)` only at a corner.
pub open spec fn corner_of(c: (i32, i32), cx: int, cz: int) -> bool {
    (c.0 - cx == 1 || c.0 - cx == -1) && (c.1 - cz == 1 || c.1 - cz == -1)
}

/// Cell `c` is `(cx, cz)` or one of its eight neighbours.
pub open spec fn near(c: (i32, i32), cx: int, cz: int) -> bool {
    -1 <= c.0 - cx <= 1 && -1 <= c.1 - cz <= 1
}

proof fn lemma_probe_cell(cx: int, cz: int, k: int)
    requires
        i32::MIN < cx < i32::MAX,
        i32::MIN < cz < i32::MAX,
        0 <= k < 9,
    ensures
        near(probe_cells(cx, cz)[k], cx, cz),
        push_rank(probe_cells(cx, cz)[k].0 - cx, probe_cells(cx, cz)[k].1 - cz) == k,
        probe_cells(cx, cz)[k] == ((cx + probe_offsets()[k].0) as i32, (cz + probe_offsets()[k].1) as i32),
{
    let o = probe_offsets();
    assert(o[0] == (0int, 0int) && o[1] == (1int, 0int) && o[2] == (-1int, 0int) && o[3] == (0int, 1int)
        && o[4] == (0int, -1int) && o[5] == (1int, 1int) && o[6] == (1int, -1int) && o[7] == (-1int, 1int)
        && o[8] == (-1int, -1int));
}

/// The cells of the first `k` probes that are walls: near the ball's cell,
/// walls, every wall among those probes, in strictly increasing push order.
proof fn lemma_probe_prefix(v: LevelView, cx: int, cz: int, k: int)
    requires
        i32::MIN < cx < i32::MAX,
        i32::MIN < cz < i32::MAX,
        0 <= k <= 9,
    ensures
        ({
            let f = probe_cells(cx, cz).take(k).filter(wall_fn(v));
            &&& forall|i: int|
                0 <= i < f.len() ==> near(#[trigger] f[i], cx, cz) && v.wall_at(f[i].0 as int, f[i].1 as int)
                    && push_rank(f[i].0 - cx, f[i].1 - cz) < k
            &&& forall|k2: int|
                0 <= k2 < k && v.wall_at(
                    probe_cells(cx, cz)[k2].0 as int,
                    probe_cells(cx, cz)[k2].1 as int,
                ) ==> f.contains(#[trigger] probe_cells(cx, cz)[k2])
            &&& forall|i: int, j: int|
                0 <= i < j < f.len() ==> push_rank(#[trigger] f[i].0 - cx, f[i].1 - cz) < push_rank(
                    #[trigger] f[j].0 - cx,
                    f[j].1 - cz,
                )
        }),
    decreases k,
{
    let cells = probe_cells(cx, cz);
    assert(cells.len() == 9);
    if k == 0 {
        assert(cells.take(0) =~= Seq::<(i32, i32)>::empty());
        reveal(Seq::filter);
    } else {
        lemma_probe_prefix(v, cx, cz, k - 1);
        lemma_probe_cell(cx, cz, k - 1);
        let c = cells[k - 1];
        assert(cells.take(k) =~= cells.take(k - 1).push(c));
        cells.take(k - 1).lemma_filter_push(c, wall_fn(v));
        let f0 = cells.take(k - 1).filter(wall_fn(v));
        let f = cells.take(k).filter(wall_fn(v));
        assert forall|k2: int|
            0 <= k2 < k && v.wall_at(cells[k2].0 as int, cells[k2].1 as int) implies f.contains(
            #[trigger] cells[k2],
        ) by {
            if k2 < k - 1 {
                let i = choose|i: int| 0 <= i < f0.len() && f0[i] == cells[k2];
                assert(f[i] == cells[k2]);
            } else {
                assert(f[f.len() - 1] == c);
            }
        }
        assert forall|i: int, j: int| 0 <= i < j < f.len() implies push_rank(
            #[trigger] f[i].0 - cx,
            f[i].1 - cz,
        ) < push_rank(#[trigger] f[j].0 - cx, f[j].1 - cz) by {
            assert(f[i] == f0[i]);
            if j < f0.len() {
                assert(f[j] == f0[j]);
            }
        }
        assert forall|i: int| 0 <= i < f.len() implies near(#[trigger] f[i], cx, cz) && v.wall_at(
            f[i].0 as int,
            f[i].1 as int,
        ) && push_rank(f[i].0 - cx, f[i].1 - cz) < k by {
            if i < f0.len() {
                assert(f[i] == f0[i]);
            }
        }
    }
}

/// The wall cells that the ball at `(cx, cz)` is pushed out of are those
/// of its own cell and its eight neighbours, each once, the own cell
/// first, then the sides in the order `+x`, `-x`, `+z`, `-z`, then the
/// corners: no corner comes before a side.
pub proof fn lemma_push_order(v: LevelView, cx: int, cz: int)
    requires
        i32::MIN < cx < i32::MAX,
        i32::MIN < cz < i32::MAX,
    ensures
        ({
            let r = probe_cells(cx, cz).filter(wall_fn(v));
            &&& forall|i: int|
                0 <= i < r.len() ==> near(#[trigger] r[i], cx, cz) && v.wall_at(r[i].0 as int, r[i].1 as int)
            &&& forall|dx: int, dz: int|
                -1 <= dx <= 1 && -1 <= dz <= 1 && #[trigger] v.wall_at(cx + dx, cz + dz) ==> r.contains(
                    ((cx + dx) as i32, (cz + dz) as i32),
                )
            &&& forall|i: int, j: int|
                0 <= i < j < r.len() ==> push_rank(#[trigger] r[i].0 - cx, r[i].1 - cz) < push_rank(
                    #[trigger] r[j].0 - cx,
                    r[j].1 - cz,
                )
            &&& forall|i: int, j: int|
                0 <= i < j < r.len() ==> !(corner_of(#[trigger] r[i], cx, cz) && side_of(
                    #[trigger] r[j],
                    cx,
                    cz,
                ))
            &&& forall|i: int| 0 <= i < r.len() && #[trigger] r[i] == (cx as i32, cz as i32) ==> i == 0
        }),
{
    lemma_probe_prefix(v, cx, cz, 9);
    let cells = probe_cells(cx, cz);
    assert(cells.take(9) =~= cells);
    let r = cells.filter(wall_fn(v));
    assert forall|dx: int, dz: int|
        -1 <= dx <= 1 && -1 <= dz <= 1 && #[trigger] v.wall_at(cx + dx, cz + dz) implies r.contains(
        ((cx + dx) as i32, (cz + dz) as i32),
    ) by {
        let k = push_rank(dx, dz);
        lemma_probe_cell(cx, cz, k);
        assert(cells[k] == ((cx + dx) as i32, (cz + dz) as i32));
    }
    assert forall|i: int, j: int| 0 <= i < j < r.len() implies !(corner_of(#[trigger] r[i], cx, cz)
        && side_of(#[trigger] r[j], cx, cz)) by {
        assert(push_rank(r[i].0 - cx, r[i].1 - cz) < push_rank(r[j].0 - cx, r[j].1 - cz));
    }
    assert forall|i: int| 0 <= i < r.len() && #[trigger] r[i] == (cx as i32, cz as i32) implies i == 0 by {
        if i > 0 {
            assert(push_rank(r[0].0 - cx, r[0].1 - cz) < push_rank(r[i].0 - cx, r[i].1 - cz));
        }
    }
}

/// The cells near the ball's cell `(cx, cz)` that are walls, in the order
/// the ball is pushed out of them (see `lemma_push_order`).
pub fn collision_cells(level: &Level, cx: i32, cz: i32) -> (r: Vec<(i32, i32)>)
    requires
        i32::MIN < cx < i32::MAX,
        i32::MIN < cz < i32::MAX,
    ensures
        r@ == probe_cells(cx as int, cz as int).filter(wall_fn(level@)),
        forall|i: int|
            0 <= i < r@.len() ==> near(#[trigger] r@[i], cx as int, cz as int) && level@.wall_at(
                r@[i].0 as int,
                r@[i].1 as int,
            ),
        forall|dx: int, dz: int|
            -1 <= dx <= 1 && -1 <= dz <= 1 && #[trigger] level@.wall_at(cx + dx, cz + dz)
                ==> r@.contains(((cx + dx) as i32, (cz + dz) as i32)),
        forall|i: int, j: int|
            0 <= i < j < r@.len() ==> push_rank(#[trigger] r@[i].0 - cx, r@[i].1 - cz) < push_rank(
                #[trigger] r@[j].0 - cx,
                r@[j].1 - cz,
            ),
        forall|i: int, j: int|
            0 <= i < j < r@.len() ==> !(corner_of(#[trigger] r@[i], cx as int, cz as int) && side_of(
                #[trigger] r@[j],
                cx as int,
                cz as int,
            )),
{
    broadcast use Seq::lemma_filter_push;

    let dx: [i32; 9] = [0, 1, -1, 0, 0, 1, 1, -1, -1];
    let dz: [i32; 9] = [0, 0, 0, 1, -1, 1, -1, 1, -1];
    let ghost cells = probe_cells(cx as int, cz as int);
    let mut out: Vec<(i32, i32)> = Vec::new();
    assert(dx@ =~= seq![0i32, 1i32, -1i32, 0i32, 0i32, 1i32, 1i32, -1i32, -1i32]);
    assert(dz@ =~= seq![0i32, 0i32, 0i32, 1i32, -1i32, 1i32, -1i32, 1i32, -1i32]);
    let mut k: usize = 0;
    while k < 9
        invariant
            dx@ == seq![0i32, 1i32, -1i32, 0i32, 0i32, 1i32, 1i32, -1i32, -1i32],
            dz@ == seq![0i32, 0i32, 0i32, 1i32, -1i32, 1i32, -1i32, 1i32, -1i32],
            cells == probe_cells(cx as int, cz as int),
            cells.len() == 9,
            i32::MIN < cx < i32::MAX,
            i32::MIN < cz < i32::MAX,
            k <= 9,
            out@ == cells.take(k as int).filter(wall_fn(level@)),
        decreases 9 - k,
    {
        let c = (cx + dx[k], cz + dz[k]);
        assert(cells[k as int] == c);
        assert(cells.take(k + 1) =~= cells.take(k as int).push(c));
        proof {
            cells.take(k as int).lemma_filter_push(c, wall_fn(level@));
        }
        if level.is_wall(c.0, c.1) {
            out.push(c);
        }
        k = k + 1;
    }
    assert(cells.take(9) =~= cells);
    proof {
        lemma_push_order(level@, cx as int, cz as int);
    }
    out
}

/// Between two wall cells of the grid that share a side, neither block
/// shows the face toward the other.
pub proof fn lemma_shared_faces_hidden(v: LevelView, x: int, z: int)
    requires
        v.solid_at(x, z),
    ensures
        v.solid_at(x + 1, z) ==> !box_faces(v, x, z)[4] && !box_faces(v, x + 1, z)[5],
        v.solid_at(x, z + 1) ==> !box_faces(v, x, z)[2] && !box_faces(v, x, z + 1)[3],
{
    assert(x + 1 - 1 == x);
    assert(z + 1 - 1 == z);
}

/// The number of `true` entries.
pub open spec fn shown_count(f: Seq<bool>) -> int
    decreases f.len(),
{
    if f.len() == 0 {
        0
    } else {
        shown_count(f.drop_last()) + if f.last() {
            1int
        } else {
            0int
        }
    }
}

/// The faces shown by blocks at `cells`, all counted.
pub open spec fn faces_total(v: LevelView, cells: Seq<(i32, i32)>) -> int
    decreases cells.len(),
{
    if cells.len() == 0 {
        0
    } else {
        faces_total(v, cells.drop_last()) + shown_count(
            box_faces(v, cells.last().0 as int, cells.last().1 as int),
        )
    }
}

/// The faces that the board's wall blocks show, all counted.
pub open spec fn shown_faces(v: LevelView) -> int {
    faces_total(v, wall_cells(v))
}

/// The faces shown by a list of blocks, all counted.
pub open spec fn boxes_faces(bs: Seq<WallBox>) -> int
    decreases bs.len(),
{
    if bs.len() == 0 {
        0
    } else {
        boxes_faces(bs.drop_last()) + shown_count(bs.last().faces@)
    }
}

spec fn ind(b: bool) -> int {
    if b {
        1
    } else {
        0
    }
}

/// How many of the four side neighbours of `(x, z)` are walls of the grid.
pub open spec fn solid_neighbours(v: LevelView, x: int, z: int) -> int {
    (if v.solid_at(x + 1, z) {
        1int
    } else {
        0int
    }) + (if v.solid_at(x - 1, z) {
        1int
    } else {
        0int
    }) + (if v.solid_at(x, z + 1) {
        1int
    } else {
        0int
    }) + (if v.solid_at(x, z - 1) {
        1int
    } else {
        0int
    })
}

/// Blocks that stand at `cells`, in order, with the faces that show count
/// as many faces as the cells' blocks.
proof fn lemma_boxes_faces(v: LevelView, bs: Seq<WallBox>, cells: Seq<(i32, i32)>)
    requires
        bs.len() == cells.len(),
        forall|i: int|
            0 <= i < bs.len() ==> {
                &&& (#[trigger] bs[i]).x == cells[i].0
                &&& bs[i].z == cells[i].1
                &&& bs[i].faces@ == box_faces(v, bs[i].x as int, bs[i].z as int)
            },
    ensures
        boxes_faces(bs) == faces_total(v, cells),
    decreases bs.len(),
{
    if bs.len() > 0 {
        let bi = bs.drop_last();
        let ci = cells.drop_last();
        assert forall|i: int| 0 <= i < bi.len() implies {
            &&& (#[trigger] bi[i]).x == ci[i].0
            &&& bi[i].z == ci[i].1
            &&& bi[i].faces@ == box_faces(v, bi[i].x as int, bi[i].z as int)
        } by {
            assert(bi[i] == bs[i]);
        }
        lemma_boxes_faces(v, bi, ci);
        assert(bs.last() == bs[bs.len() - 1]);
    }
}

proof fn lemma_box_count(v: LevelView, x: int, z: int)
    ensures
        shown_count(box_faces(v, x, z)) == 1 + ind(!v.solid_at(x, z + 1)) + ind(!v.solid_at(x, z - 1))
            + ind(!v.solid_at(x + 1, z)) + ind(!v.solid_at(x - 1, z)),
{
    let f = box_faces(v, x, z);
    reveal_with_fuel(shown_count, 7);
    assert(f.drop_last() =~= seq![true, false, f[2], f[3], f[4]]);
    assert(f.drop_last().drop_last() =~= seq![true, false, f[2], f[3]]);
    assert(f.drop_last().drop_last().drop_last() =~= seq![true, false, f[2]]);
    assert(f.drop_last().drop_last().drop_last().drop_last() =~= seq![true, false]);
    assert(f.drop_last().drop_last().drop_last().drop_last().drop_last() =~= seq![true]);
    assert(seq![true].drop_last() =~= Seq::<bool>::empty());
}

/// The faces of the block at grid entry `i`, or none where it holds no wall.
spec fn cell_faces(v: LevelView, i: int) -> int {
    let x = i % v.w;
    let z = i / v.w;
    if v.solid_at(x, z) {
        shown_count(box_faces(v, x, z))
    } else {
        0
    }
}

/// The faces of the blocks at the first `n` grid entries.
spec fn grid_sum(v: LevelView, n: nat) -> int
    decreases n,
{
    if n == 0 {
        0
    } else {
        grid_sum(v, (n - 1) as nat) + cell_faces(v, n - 1)
    }
}

proof fn lemma_grid_sum(v: LevelView, n: nat)
    requires
        v.wf(),
        n <= v.w * v.h,
    ensures
        faces_total(v, grid_cells(v).take(n as int).filter(solid_fn(v))) == grid_sum(v, n),
    decreases n,
{
    if n > 0 {
        let m = (n - 1) as int;
        lemma_grid_sum(v, (n - 1) as nat);
        let all = grid_cells(v);
        let x = m % v.w;
        let z = m / v.w;
        vstd::arithmetic::div_mod::lemma_fundamental_div_mod(m, v.w);
        vstd::arithmetic::div_mod::lemma_mod_pos_bound(m, v.w);
        vstd::arithmetic::div_mod::lemma_div_pos_is_pos(m, v.w);
        assert(z < v.h) by {
            if z >= v.h {
                assert(v.w * z >= v.w * v.h) by (nonlinear_arith)
                    requires
                        z >= v.h,
                        v.w >= 1,
                ;
            }
        }
        assert(all[m] == (x as i32, z as i32));
        assert(all.take(n as int) =~= all.take(m).push(all[m]));
        all.take(m).lemma_filter_push(all[m], solid_fn(v));
        let before = all.take(m).filter(solid_fn(v));
        if v.solid_at(x, z) {
            assert(before.push(all[m]).drop_last() =~= before);
        }
    }
}

/// Shown faces, counted cell by cell over the grid.
proof fn lemma_shown_faces_grid(v: LevelView)
    requires
        v.wf(),
    ensures
        shown_faces(v) == grid_sum(v, (v.w * v.h) as nat),
{
    lemma_grid_sum(v, (v.w * v.h) as nat);
    assert(grid_cells(v).take(v.w * v.h) =~= grid_cells(v));
}

/// What grid entry `i` adds when cell `(x, z)` becomes a wall: the new
/// block's five faces less those against walls, and one face hidden on each
/// neighbouring wall.
spec fn change_at(v: LevelView, x: int, z: int, i: int) -> int {
    (if i == z * v.w + x {
        5 - solid_neighbours(v, x, z)
    } else {
        0
    }) - ind(
        v.solid_at(x + 1, z) && i == z * v.w + x + 1,
    ) - ind(v.solid_at(x - 1, z) && i == z * v.w + x - 1) - ind(
        v.solid_at(x, z + 1) && i == (z + 1) * v.w + x,
    ) - ind(v.solid_at(x, z - 1) && i == (z - 1) * v.w + x)
}

/// `v2` is `v1` with the open cell `(x, z)` of the grid made a wall.
pub open spec fn with_wall(v1: LevelView, v2: LevelView, x: int, z: int) -> bool {
    &&& v1.wf()
    &&& v1.in_bounds(x, z)
    &&& !v1.solid_at(x, z)
    &&& v2 == (LevelView { walls: v1.walls.update(z * v1.w + x, true), ..v1 })
}

proof fn lemma_with_wall_solid(v1: LevelView, v2: LevelView, x: int, z: int, a: int, b: int)
    requires
        with_wall(v1, v2, x, z),
    ensures
        v2.solid_at(a, b) == (v1.solid_at(a, b) || (a == x && b == z)),
{
    lemma_cell_index(v1.w, v1.h, x, z);
    if v1.in_bounds(a, b) {
        lemma_cell_index(v1.w, v1.h, a, b);
    }
}

#[verifier::spinoff_prover]
#[verifier::rlimit(30)]
proof fn lemma_change_at(v1: LevelView, v2: LevelView, x: int, z: int, i: int)
    requires
        with_wall(v1, v2, x, z),
        0 <= i < v1.w * v1.h,
    ensures
        cell_faces(v2, i) - cell_faces(v1, i) == change_at(v1, x, z, i),
{
    let w = v1.w;
    let a = i % w;
    let b = i / w;
    vstd::arithmetic::div_mod::lemma_fundamental_div_mod(i, w);
    vstd::arithmetic::div_mod::lemma_mod_pos_bound(i, w);
    vstd::arithmetic::div_mod::lemma_div_pos_is_pos(i, w);
    assert(b < v1.h) by {
        if b >= v1.h {
            assert(w * b >= w * v1.h) by (nonlinear_arith)
                requires
                    b >= v1.h,
                    w >= 1,
            ;
        }
    }
    assert(i == b * w + a) by (nonlinear_arith)
        requires
            i == w * b + a,
    ;
    lemma_cell_index(w, v1.h, a, b);
    lemma_cell_index(w, v1.h, x, z);
    lemma_box_count(v1, a, b);
    lemma_box_count(v2, a, b);
    // the cells that `change_at` compares with `i`
    let cells = seq![(x, z), (x + 1, z), (x - 1, z), (x, z + 1), (x, z - 1)];
    assert(x * 1 == x);
    assert((z + 1) * w == z * w + w) by (nonlinear_arith);
    assert((z - 1) * w == z * w - w) by (nonlinear_arith);
    assert forall|j: int| 0 <= j < 5 && v1.in_bounds(cells[j].0, cells[j].1) implies (i == cells[j].1
        * w + cells[j].0 <==> (a == cells[j].0 && b == cells[j].1)) by {
        lemma_cell_index(w, v1.h, cells[j].0, cells[j].1);
    }
    assert(i == z * w + x <==> (a == x && b == z)) by {
        assert(cells[0] == (x, z));
    }
    assert(v1.solid_at(x + 1, z) ==> (i == z * w + x + 1 <==> (a == x + 1 && b == z))) by {
        assert(cells[1] == (x + 1, z));
    }
    assert(v1.solid_at(x - 1, z) ==> (i == z * w + x - 1 <==> (a == x - 1 && b == z))) by {
        assert(cells[2] == (x - 1, z));
    }
    assert(v1.solid_at(x, z + 1) ==> (i == (z + 1) * w + x <==> (a == x && b == z + 1))) by {
        assert(cells[3] == (x, z + 1));
    }
    assert(v1.solid_at(x, z - 1) ==> (i == (z - 1) * w + x <==> (a == x && b == z - 1))) by {
        assert(cells[4] == (x, z - 1));
    }
    lemma_with_wall_solid(v1, v2, x, z, a, b);
    lemma_with_wall_solid(v1, v2, x, z, a + 1, b);
    lemma_with_wall_solid(v1, v2, x, z, a - 1, b);
    lemma_with_wall_solid(v1, v2, x, z, a, b + 1);
    lemma_with_wall_solid(v1, v2, x, z, a, b - 1);
    lemma_with_wall_solid(v1, v2, x, z, x + 1, z);
    lemma_with_wall_solid(v1, v2, x, z, x - 1, z);
    lemma_with_wall_solid(v1, v2, x, z, x, z + 1);
    lemma_with_wall_solid(v1, v2, x, z, x, z - 1);
    let k = solid_neighbours(v1, x, z);
    if a == x && b == z {
        assert(cell_faces(v1, i) == 0);
        assert(cell_faces(v2, i) == 5 - k);
        assert(change_at(v1, x, z, i) == 5 - k);
    } else if !v1.solid_at(a, b) {
        assert(cell_faces(v1, i) == 0);
        assert(cell_faces(v2, i) == 0);
        assert(change_at(v1, x, z, i) == 0);
    } else {
        assert(cell_faces(v2, i) - cell_faces(v1, i) == -(ind(a + 1 == x && b == z) + ind(a - 1 == x
            && b == z) + ind(a == x && b + 1 == z) + ind(a == x && b - 1 == z)));
        assert(change_at(v1, x, z, i) == -(ind(a == x + 1 && b == z) + ind(a == x - 1 && b == z)
            + ind(a == x && b == z + 1) + ind(a == x && b == z - 1)));
    }
}

#[verifier::spinoff_prover]
proof fn lemma_grid_change(v1: LevelView, v2: LevelView, x: int, z: int, n: nat)
    requires
        with_wall(v1, v2, x, z),
        n <= v1.w * v1.h,
    ensures
        grid_sum(v2, n) - grid_sum(v1, n) == (if z * v1.w + x < n {
            5 - solid_neighbours(v1, x, z)
        } else {
            0
        })
            - ind(v1.solid_at(x + 1, z) && z * v1.w + x + 1 < n) - ind(
            v1.solid_at(x - 1, z) && z * v1.w + x - 1 < n,
        ) - ind(v1.solid_at(x, z + 1) && (z + 1) * v1.w + x < n) - ind(
            v1.solid_at(x, z - 1) && (z - 1) * v1.w + x < n,
        ),
    decreases n,
{
    if n > 0 {
        let m = (n - 1) as nat;
        lemma_grid_change(v1, v2, x, z, m);
        lemma_change_at(v1, v2, x, z, m as int);
        assert(grid_sum(v1, n) == grid_sum(v1, m) + cell_faces(v1, m as int));
        assert(grid_sum(v2, n) == grid_sum(v2, m) + cell_faces(v2, m as int));
        let w = v1.w;
        let c0 = z * w + x;
        let c3 = (z + 1) * w + x;
        let c4 = (z - 1) * w + x;
        assert(ind(v1.solid_at(x + 1, z) && c0 + 1 < n) == ind(v1.solid_at(x + 1, z) && c0 + 1 < m)
            + ind(v1.solid_at(x + 1, z) && m == c0 + 1));
        assert(ind(v1.solid_at(x - 1, z) && c0 - 1 < n) == ind(v1.solid_at(x - 1, z) && c0 - 1 < m)
            + ind(v1.solid_at(x - 1, z) && m == c0 - 1));
        assert(ind(v1.solid_at(x, z + 1) && c3 < n) == ind(v1.solid_at(x, z + 1) && c3 < m) + ind(
            v1.solid_at(x, z + 1) && m == c3,
        ));
        assert(ind(v1.solid_at(x, z - 1) && c4 < n) == ind(v1.solid_at(x, z - 1) && c4 < m) + ind(
            v1.solid_at(x, z - 1) && m == c4,
        ));
    }
}

/// Making one open cell of the grid a wall, where `k` of its side
/// neighbours are walls, shows `5 - 2k` more faces: the new block's top
/// and its sides toward open cells, less the side each neighbouring wall
/// turned toward it.
pub proof fn lemma_wall_added_faces(v1: LevelView, v2: LevelView, x: int, z: int)
    requires
        with_wall(v1, v2, x, z),
    ensures
        shown_faces(v2) == shown_faces(v1) + 5 - 2 * solid_neighbours(v1, x, z),
{
    let n = (v1.w * v1.h) as nat;
    lemma_cell_index(v1.w, v1.h, x, z);
    assert(v2.wf());
    lemma_shown_faces_grid(v1);
    lemma_shown_faces_grid(v2);
    lemma_grid_change(v1, v2, x, z, n);
    lemma_cell_index(v1.w, v1.h, x, z);
    if v1.solid_at(x + 1, z) {
        lemma_cell_index(v1.w, v1.h, x + 1, z);
    }
    if v1.solid_at(x - 1, z) {
        lemma_cell_index(v1.w, v1.h, x - 1, z);
    }
    if v1.solid_at(x, z + 1) {
        lemma_cell_index(v1.w, v1.h, x, z + 1);
        assert((z + 1) * v1.w + x == (z + 1) * v1.w + x);
    }
    if v1.solid_at(x, z - 1) {
        lemma_cell_index(v1.w, v1.h, x, z - 1);
    }
}

} // verus!
