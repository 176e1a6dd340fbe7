//! A maze level: a grid of wall cells, a start cell, a goal hole and trap
//! holes.
//!
//! In the text of a level, `#` is a wall, `S` the start, `G` the goal hole
//! and `O` a trap hole; every other character is open floor. Cells are
//! named `(x, z)`: `x` counts characters along a row, `z` counts rows. The
//! ball's position in the world is `(x + 0.5, z + 0.5)` at the centre of
//! cell `(x, z)`.
use vstd::prelude::*;
use vstd::arithmetic::div_mod::lemma_fundamental_div_mod_converse;
use crate::text::{text_rows, rows_of};

verus! {

/// What a level is, as plain values.
pub struct LevelView {
    /// Number of columns.
    pub w: int,
    /// Number of rows.
    pub h: int,
    /// Cell `(x, z)` of the grid is `walls[z * w + x]`.
    pub walls: Seq<bool>,
    pub start: (i32, i32),
    pub goal: (i32, i32),
    /// The trap holes, in the order the text lists them.
    pub hazards: Seq<(i32, i32)>,
}

impl LevelView {
    pub open spec fn wf(self) -> bool {
        &&& 1 <= self.w <= i32::MAX
        &&& 1 <= self.h <= i32::MAX
        &&& self.w * self.h <= i32::MAX
        &&& self.walls.len() == self.w * self.h
    }

    pub open spec fn in_bounds(self, x: int, z: int) -> bool {
        0 <= x < self.w && 0 <= z < self.h
    }

    /// A wall as the ball sees it: outside the grid counts as wall.
    pub open spec fn wall_at(self, x: int, z: int) -> bool {
        !self.in_bounds(x, z) || self.walls[z * self.w + x]
    }

    /// A wall cell of the grid itself: outside the grid there is none.
    pub open spec fn solid_at(self, x: int, z: int) -> bool {
        self.in_bounds(x, z) && self.walls[z * self.w + x]
    }

    pub open spec fn trap_at(self, c: (i32, i32)) -> bool {
        self.hazards.contains(c)
    }
}

/// The longest length among `rows`.
pub open spec fn max_len(rows: Seq<Seq<char>>) -> int
    decreases rows.len(),
{
    if rows.len() == 0 {
        0
    } else {
        let m = max_len(rows.drop_last());
        if rows.last().len() > m {
            rows.last().len() as int
        } else {
            m
        }
    }
}

/// The character at cell `(x, z)`, or a space where the row is shorter.
pub open spec fn cell_char(rows: Seq<Seq<char>>, x: int, z: int) -> char {
    if 0 <= z < rows.len() && 0 <= x < rows[z].len() {
        rows[z][x]
    } else {
        ' '
    }
}

/// The wall grid of `rows`, `w` cells wide and `h` high, row after row.
pub open spec fn wall_grid(rows: Seq<Seq<char>>, w: int, h: int) -> Seq<bool> {
    Seq::new((w * h) as nat, |i: int| cell_char(rows, i % w, i / w) == '#')
}

/// The cells of row `z` that hold `c`, left to right.
pub open spec fn row_cells(row: Seq<char>, z: int, c: char) -> Seq<(i32, i32)>
    decreases row.len(),
{
    if row.len() == 0 {
        Seq::empty()
    } else {
        let init = row_cells(row.drop_last(), z, c);
        if row.last() == c {
            init.push(((row.len() - 1) as i32, z as i32))
        } else {
            init
        }
    }
}

/// The cells of `rows` that hold `c`, row after row.
pub open spec fn cells_of(rows: Seq<Seq<char>>, c: char) -> Seq<(i32, i32)>
    decreases rows.len(),
{
    if rows.len() == 0 {
        Seq::empty()
    } else {
        cells_of(rows.drop_last(), c) + row_cells(rows.last(), rows.len() - 1, c)
    }
}

/// The last of `cells`, or `default` when there is none.
pub open spec fn last_or(cells: Seq<(i32, i32)>, default: (i32, i32)) -> (i32, i32) {
    if cells.len() > 0 {
        cells.last()
    } else {
        default
    }
}

/// Whether `src` makes a level: it has a row, and the grid's cell count
/// fits in an `i32`.
pub open spec fn parsable(src: Seq<char>) -> bool {
    let rows = text_rows(src);
    rows.len() > 0 && rows.len() * max_len(rows) <= i32::MAX
}

/// The level that the text `src` describes: as wide as its longest row;
/// the last `S` is the start (else cell `(1, 1)`), the last `G` the goal
/// (else the cell one in from the far corner), every `O` a trap.
pub open spec fn parsed(src: Seq<char>) -> LevelView {
    let rows = text_rows(src);
    let w = max_len(rows);
    let h = rows.len() as int;
    LevelView {
        w,
        h,
        walls: wall_grid(rows, w, h),
        start: last_or(cells_of(rows, 'S'), (1i32, 1i32)),
        goal: last_or(cells_of(rows, 'G'), ((w - 2) as i32, (h - 2) as i32)),
        hazards: cells_of(rows, 'O'),
    }
}

/// Cell `(x, z)` of a grid `w` wide and `h` high is entry `z * w + x`.
pub proof fn lemma_cell_index(w: int, h: int, x: int, z: int)
    requires
        0 <= x < w,
        0 <= z < h,
    ensures
        0 <= z * w + x < w * h,
        (z * w + x) % w == x,
        (z * w + x) / w == z,
{
    assert(0 <= z * w + x < w * h) by (nonlinear_arith)
        requires
            0 <= x < w,
            0 <= z < h,
    {
        assert(z * w + w == (z + 1) * w);
        assert((z + 1) * w <= h * w);
    }
    lemma_fundamental_div_mod_converse(z * w + x, w, z, x);
}

pub proof fn lemma_max_len(rows: Seq<Seq<char>>)
    ensures
        forall|z: int| 0 <= z < rows.len() ==> #[trigger] rows[z].len() <= max_len(rows),
        rows.len() > 0 ==> exists|z: int| 0 <= z < rows.len() && #[trigger] rows[z].len() == max_len(rows),
        max_len(rows) >= 0,
    decreases rows.len(),
{
    if rows.len() > 0 {
        let init = rows.drop_last();
        lemma_max_len(init);
        assert forall|z: int| 0 <= z < rows.len() implies #[trigger] rows[z].len() <= max_len(rows) by {
            if z < rows.len() - 1 {
                assert(rows[z] == init[z]);
            }
        }
        if rows.last().len() > max_len(init) {
            assert(rows[rows.len() - 1].len() == max_len(rows));
        } else if init.len() > 0 {
            let z = choose|z: int| 0 <= z < init.len() && #[trigger] init[z].len() == max_len(init);
            assert(rows[z] == init[z]);
        } else {
            assert(rows[0].len() == max_len(rows));
        }
    }
}

/// A maze level.
pub struct Level {
    w: i32,
    h: i32,
    walls: Vec<bool>,
    start: (i32, i32),
    goal: (i32, i32),
    hazards: Vec<(i32, i32)>,
}

impl View for Level {
    type V = LevelView;

    closed spec fn view(&self) -> LevelView {
        LevelView {
            w: self.w as int,
            h: self.h as int,
            walls: self.walls@,
            start: self.start,
            goal: self.goal,
            hazards: self.hazards@,
        }
    }
}

impl Level {
    #[verifier::type_invariant]
    spec fn well_formed(self) -> bool {
        self@.wf()
    }

    /// The level that the text `src` describes (see `parsed`).
    pub fn parse(src: &str) -> (level: Level)
        requires
            parsable(src@),
        ensures
            level@ == parsed(src@),
            level@.wf(),
    {
        let rows = rows_of(src);
        let ghost rs = text_rows(src@);
        proof {
            lemma_max_len(rs);
        }
        // width: the longest row
        let mut w: usize = 0;
        let mut i: usize = 0;
        while i < rows.len()
            invariant
                rows.deep_view() == rs,
                i <= rs.len(),
                w == max_len(rs.take(i as int)),
            decreases rs.len() - i,
        {
            assert(rs.take(i + 1).drop_last() =~= rs.take(i as int));
            assert(rows[i as int].deep_view() =~= rows[i as int]@);
            if rows[i].len() > w {
                w = rows[i].len();
            }
            i = i + 1;
        }
        assert(rs.take(i as int) =~= rs);
        let h = rows.len();
        let ghost gw = w as int;
        let ghost gh = h as int;
        proof {
            let z = choose|z: int| 0 <= z < rs.len() && #[trigger] rs[z].len() == max_len(rs);
            assert(rs[z].len() >= 1);
            assert(1 <= gw * gh <= i32::MAX) by (nonlinear_arith)
                requires
                    gw >= 1,
                    gh >= 1,
                    gh * gw <= i32::MAX,
            ;
            assert(gw <= gw * gh) by (nonlinear_arith)
                requires
                    gw >= 1,
                    gh >= 1,
            ;
            assert(gh <= gw * gh) by (nonlinear_arith)
                requires
                    gw >= 1,
                    gh >= 1,
            ;
        }
        let ghost grid = wall_grid(rs, gw, gh);
        // the wall grid, row after row
        let mut walls: Vec<bool> = Vec::new();
        let mut z: usize = 0;
        while z < h
            invariant
                rows.deep_view() == rs,
                h == rs.len(),
                gw == w,
                gh == h,
                1 <= gw * gh <= i32::MAX,
                grid == wall_grid(rs, gw, gh),
                z <= h,
                walls@ == grid.take(z * gw),
            decreases h - z,
        {
            proof {
                assert(z * gw + gw == (z + 1) * gw) by (nonlinear_arith);
                assert((z + 1) * gw <= gh * gw) by (nonlinear_arith)
                    requires
                        z < gh,
                        gw >= 1,
                ;
            }
            let row = &rows[z];
            assert(row.deep_view() =~= row@);
            let mut x: usize = 0;
            while x < w
                invariant
                    rows.deep_view() == rs,
                    h == rs.len(),
                    gw == w,
                    gh == h,
                    z < h,
                    row@ == rs[z as int],
                    grid == wall_grid(rs, gw, gh),
                    x <= w,
                    z * gw + gw <= gw * gh,
                    walls@ == grid.take(z * gw + x),
                decreases w - x,
            {
                let cell = x < row.len() && row[x] == '#';
                proof {
                    lemma_cell_index(gw, gh, x as int, z as int);
                    assert(grid[z * gw + x] == cell);
                }
                walls.push(cell);
                assert(walls@ =~= grid.take(z * gw + x + 1));
                x = x + 1;
            }
            assert((z + 1) * gw == z * gw + gw) by (nonlinear_arith);
            z = z + 1;
        }
        assert(walls@ =~= grid);
        // start, goal and traps, in reading order
        let wi = w as i32;
        let hi = h as i32;
        let mut start: (i32, i32) = (1, 1);
        let mut goal: (i32, i32) = (wi - 2, hi - 2);
        let mut hazards: Vec<(i32, i32)> = Vec::new();
        let mut z: usize = 0;
        while z < h
            invariant
                rows.deep_view() == rs,
                h == rs.len(),
                gw == w,
                gh == h,
                wi == gw,
                hi == gh,
                gw == max_len(rs),
                gw <= i32::MAX,
                gh <= i32::MAX,
                z <= h,
                start == last_or(cells_of(rs.take(z as int), 'S'), (1i32, 1i32)),
                goal == last_or(cells_of(rs.take(z as int), 'G'), ((gw - 2) as i32, (gh - 2) as i32)),
                hazards@ == cells_of(rs.take(z as int), 'O'),
            decreases h - z,
        {
            let row = &rows[z];
            assert(row.deep_view() =~= row@);
            let ghost done = rs.take(z as int);
            let ghost before_s = start;
            let ghost before_g = goal;
            proof {
                lemma_max_len(rs);
                assert(rs[z as int].len() <= max_len(rs));
            }
            let mut x: usize = 0;
            while x < row.len()
                invariant
                    row@ == rs[z as int],
                    row@.len() <= gw <= i32::MAX,
                    z < gh <= i32::MAX,
                    x <= row@.len(),
                    start == last_or(
                        cells_of(done, 'S') + row_cells(row@.take(x as int), z as int, 'S'),
                        (1i32, 1i32),
                    ),
                    goal == last_or(
                        cells_of(done, 'G') + row_cells(row@.take(x as int), z as int, 'G'),
                        ((gw - 2) as i32, (gh - 2) as i32),
                    ),
                    hazards@ == cells_of(done, 'O') + row_cells(row@.take(x as int), z as int, 'O'),
                decreases row@.len() - x,
            {
                let c = row[x];
                let cell = (x as i32, z as i32);
                assert(row@.take(x + 1).drop_last() =~= row@.take(x as int));
                assert(row@.take(x + 1).last() == c);
                let ghost old_h = hazards@;
                if c == 'S' {
                    start = cell;
                } else if c == 'G' {
                    goal = cell;
                } else if c == 'O' {
                    hazards.push(cell);
                }
                assert(cells_of(done, 'O') + row_cells(row@.take(x + 1), z as int, 'O') =~= if c
                    == 'O' {
                    old_h.push(cell)
                } else {
                    old_h
                });
                x = x + 1;
            }
            assert(rs.take(z + 1).drop_last() =~= done);
            assert(rs.take(z + 1).last() == row@);
            assert(row@.take(x as int) =~= row@);
            z = z + 1;
        }
        assert(rs.take(h as int) =~= rs);
        let level = Level { w: wi, h: hi, walls, start, goal, hazards };
        assert(level@.walls == parsed(src@).walls);
        level
    }

    /// Whether cell `(x, z)` stops the ball: a wall of the grid, or any
    /// cell outside it.
    pub fn is_wall(&self, x: i32, z: i32) -> (r: bool)
        ensures
            r == self@.wall_at(x as int, z as int),
            self@.wf(),
    {
        proof {
            use_type_invariant(self);
        }
        if x < 0 || z < 0 || x >= self.w || z >= self.h {
            return true;
        }
        proof {
            lemma_cell_index(self.w as int, self.h as int, x as int, z as int);
        }
        self.walls[(z * self.w + x) as usize]
    }

    /// Whether cell `(x, z)` is a wall of the grid; outside the grid
    /// nothing is.
    pub fn is_solid(&self, x: i32, z: i32) -> (r: bool)
        ensures
            r == self@.solid_at(x as int, z as int),
            self@.wf(),
    {
        proof {
            use_type_invariant(self);
        }
        x >= 0 && z >= 0 && x < self.w && z < self.h && self.is_wall(x, z)
    }

    pub fn width(&self) -> (r: i32)
        ensures
            r == self@.w,
            self@.wf(),
    {
        proof {
            use_type_invariant(self);
        }
        self.w
    }

    pub fn height(&self) -> (r: i32)
        ensures
            r == self@.h,
            self@.wf(),
    {
        proof {
            use_type_invariant(self);
        }
        self.h
    }

    pub fn start(&self) -> (r: (i32, i32))
        ensures
            r == self@.start,
    {
        self.start
    }

    pub fn goal(&self) -> (r: (i32, i32))
        ensures
            r == self@.goal,
    {
        self.goal
    }

    pub fn hazards(&self) -> (r: &Vec<(i32, i32)>)
        ensures
            r@ == self@.hazards,
    {
        &self.hazards
    }
}

/// A cell of a parsed level is a wall exactly where its text has `#`.
pub proof fn lemma_parsed_wall(src: Seq<char>, x: int, z: int)
    requires
        parsable(src),
        parsed(src).in_bounds(x, z),
    ensures
        parsed(src).wall_at(x, z) == (cell_char(text_rows(src), x, z) == '#'),
{
    let v = parsed(src);
    lemma_cell_index(v.w, v.h, x, z);
}

} // verus!
