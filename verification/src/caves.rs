//! Caves: a grid of wall and open cells, grown from noise, smoothed, and cut
//! down to one region in which every open cell can be reached from every
//! other.

use vstd::prelude::*;
use crate::prng::{advance_by, lemma_advance_by_add, output, spread, PCG32};

verus! {

/// Of a hundred cells of noise, this many are wall.
pub const WALL_PERCENT: u32 = 45;

/// How often the noise is smoothed.
pub const SMOOTHING_PASSES: usize = 5;

/// A grid of cells, row by row: `rows[y][x]` says whether the cell is wall.
#[derive(Debug)]
pub struct CaveGrid {
    pub rows: Vec<Vec<bool>>,
}

/// A grid as a value of mathematics: `plan[y][x]` says whether the cell is
/// wall.
pub type Plan = Seq<Seq<bool>>;

impl View for CaveGrid {
    type V = Plan;

    open spec fn view(&self) -> Plan {
        Seq::new(self.rows@.len(), |y: int| self.rows@[y]@)
    }
}

/// The plan has `height` rows of `width` cells.
pub open spec fn shaped(plan: Plan, width: int, height: int) -> bool {
    &&& plan.len() == height
    &&& forall|y: int| 0 <= y < height ==> (#[trigger] plan[y]).len() == width
}

/// The cell lies on the plan.
pub open spec fn on_plan(plan: Plan, x: int, y: int) -> bool {
    0 <= y < plan.len() && 0 <= x < plan[y].len()
}

/// Whether the cell counts as wall. What lies off the plan does.
pub open spec fn wall(plan: Plan, x: int, y: int) -> bool {
    !on_plan(plan, x, y) || plan[y][x]
}

/// 1 for a wall, 0 for an open cell.
pub open spec fn wall_weight(plan: Plan, x: int, y: int) -> int {
    if wall(plan, x, y) {
        1
    } else {
        0
    }
}

/// The walls in row `y` from column `from` up to and without column `to`.
pub open spec fn walls_in_row(plan: Plan, y: int, from: int, to: int) -> int
    decreases to - from,
{
    if to <= from {
        0
    } else {
        walls_in_row(plan, y, from, to - 1) + wall_weight(plan, to - 1, y)
    }
}

/// The walls in the columns `x - range ..= x + range` of the rows from
/// `from` up to and without `to`.
pub open spec fn walls_in_rows(plan: Plan, x: int, range: int, from: int, to: int) -> int
    decreases to - from,
{
    if to <= from {
        0
    } else {
        walls_in_rows(plan, x, range, from, to - 1) + walls_in_row(
            plan,
            to - 1,
            x - range,
            x + range + 1,
        )
    }
}

/// The walls around the cell within `range` steps, diagonal steps
/// allowed; the cell itself does not count.
pub open spec fn walls_around(plan: Plan, x: int, y: int, range: int) -> int {
    walls_in_rows(plan, x, range, y - range, y + range + 1) - wall_weight(plan, x, y)
}

/// What smoothing makes of the cell: wall if at least five of its eight
/// neighbours are wall, or if at most one of the 24 cells within two steps
/// is.
pub open spec fn smooth_cell(plan: Plan, x: int, y: int) -> bool {
    walls_around(plan, x, y, 1) >= 5 || walls_around(plan, x, y, 2) <= 1
}

/// The plan after one smoothing pass.
pub open spec fn smoothed(plan: Plan) -> Plan {
    Seq::new(plan.len(), |y: int| Seq::new(plan[y].len(), |x: int| smooth_cell(plan, x, y)))
}

/// The plan after `passes` smoothing passes.
pub open spec fn smoothed_times(plan: Plan, passes: nat) -> Plan
    decreases passes,
{
    if passes == 0 {
        plan
    } else {
        smoothed(smoothed_times(plan, (passes - 1) as nat))
    }
}

/// Whether draw number `n` from `state` makes a wall of a cell of noise.
pub open spec fn noise_wall(state: u64, n: nat) -> bool {
    spread(1, 100, output(advance_by(state, n))) <= WALL_PERCENT
}

/// The noise that a generator in `state` makes: the cells are drawn row
/// by row, one draw each.
pub open spec fn noise(width: int, height: int, state: u64) -> Plan {
    Seq::new(
        height as nat,
        |y: int| Seq::new(width as nat, |x: int| noise_wall(state, (y * width + x) as nat)),
    )
}

impl CaveGrid {
    /// The grid has `width` columns and `height` rows.
    pub open spec fn is_shaped(&self, width: int, height: int) -> bool {
        shaped(self@, width, height)
    }

    /// A grid of the given size with every cell set to `fill`.
    pub fn filled(width: usize, height: usize, fill: bool) -> (r: CaveGrid)
        ensures
            r.is_shaped(width as int, height as int),
            forall|x: int, y: int| 0 <= y < height && 0 <= x < width ==> r@[y][x] == fill,
    {
        let mut rows: Vec<Vec<bool>> = Vec::new();
        let mut y: usize = 0;
        while y < height
            invariant
                y <= height,
                rows@.len() == y,
                forall|j: int| 0 <= j < y ==> (#[trigger] rows@[j])@.len() == width,
                forall|j: int, i: int| 0 <= j < y && 0 <= i < width ==> rows@[j]@[i] == fill,
            decreases height - y,
        {
            let mut row: Vec<bool> = Vec::new();
            let mut x: usize = 0;
            while x < width
                invariant
                    x <= width,
                    row@.len() == x,
                    forall|i: int| 0 <= i < x ==> row@[i] == fill,
                decreases width - x,
            {
                row.push(fill);
                x = x + 1;
            }
            rows.push(row);
            y = y + 1;
        }
        CaveGrid { rows }
    }

    /// The number of rows.
    pub fn height(&self) -> (r: usize)
        ensures
            r == self@.len(),
    {
        self.rows.len()
    }

    /// Whether the cell counts as wall. What lies off the grid does.
    pub fn is_wall(&self, x: i64, y: i64) -> (r: bool)
        ensures
            r == wall(self@, x as int, y as int),
    {
        if y < 0 || x < 0 {
            return true;
        }
        if y as u64 >= self.rows.len() as u64 {
            return true;
        }
        let row = y as usize;
        if x as u64 >= self.rows[row].len() as u64 {
            return true;
        }
        let column = x as usize;
        self.rows[row][column]
    }

    /// Sets one cell of the grid.
    pub fn set(&mut self, x: usize, y: usize, value: bool)
        requires
            on_plan(old(self)@, x as int, y as int),
        ensures
            final(self)@ == old(self)@.update(y as int, old(self)@[y as int].update(x as int, value)),
    {
        self.rows[y][x] = value;
        assert(self@ =~= old(self)@.update(y as int, old(self)@[y as int].update(x as int, value)));
    }

    /// The walls around the cell within `range` steps; the cell itself
    /// does not count.
    pub fn count_walls(&self, x: usize, y: usize, range: u8) -> (r: u32)
        requires
            on_plan(self@, x as int, y as int),
            1 <= range <= 2,
            self@.len() <= i64::MAX - 8,
            self@[y as int].len() <= i64::MAX - 8,
        ensures
            r == walls_around(self@, x as int, y as int, range as int),
    {
        let reach: i64 = range as i64;
        let cx: i64 = x as i64;
        let cy: i64 = y as i64;
        let mut total: u32 = 0;
        let mut row: i64 = cy - reach;
        while row <= cy + reach
            invariant
                cy - reach <= row <= cy + reach + 1,
                1 <= reach <= 2,
                0 <= cx <= i64::MAX - 8,
                0 <= cy <= i64::MAX - 8,
                total == walls_in_rows(self@, cx as int, reach as int, cy - reach, row as int),
                0 <= total <= 5 * (row - (cy - reach)),
            decreases cy + reach + 1 - row,
        {
            let mut column: i64 = cx - reach;
            let mut in_row: u32 = 0;
            while column <= cx + reach
                invariant
                    cx - reach <= column <= cx + reach + 1,
                    1 <= reach <= 2,
                    0 <= cx <= i64::MAX - 8,
                    in_row == walls_in_row(self@, row as int, cx - reach, column as int),
                    0 <= in_row <= column - (cx - reach),
                decreases cx + reach + 1 - column,
            {
                if self.is_wall(column, row) {
                    in_row = in_row + 1;
                }
                column = column + 1;
            }
            total = total + in_row;
            row = row + 1;
        }
        if self.is_wall(cx, cy) {
            proof {
                lemma_walls_count_centre(self@, cx as int, cy as int, reach as int);
            }
            total - 1
        } else {
            total
        }
    }

    /// One smoothing pass over `self`, written into a new grid.
    pub fn smooth(&self, width: usize, height: usize) -> (r: CaveGrid)
        requires
            self.is_shaped(width as int, height as int),
            width <= i64::MAX - 8,
            height <= i64::MAX - 8,
        ensures
            r@ == smoothed(self@),
            r.is_shaped(width as int, height as int),
    {
        let mut rows: Vec<Vec<bool>> = Vec::new();
        let mut y: usize = 0;
        while y < height
            invariant
                y <= height,
                self.is_shaped(width as int, height as int),
                width <= i64::MAX - 8,
                height <= i64::MAX - 8,
                rows@.len() == y,
                forall|j: int| 0 <= j < y ==> (#[trigger] rows@[j])@ == smoothed(self@)[j],
            decreases height - y,
        {
            let mut row: Vec<bool> = Vec::new();
            let mut x: usize = 0;
            while x < width
                invariant
                    x <= width,
                    y < height,
                    self.is_shaped(width as int, height as int),
                    width <= i64::MAX - 8,
                    height <= i64::MAX - 8,
                    row@.len() == x,
                    forall|i: int| 0 <= i < x ==> row@[i] == smooth_cell(self@, i, y as int),
                decreases width - x,
            {
                assert(self@[y as int].len() == width);
                let near = self.count_walls(x, y, 1);
                let far = self.count_walls(x, y, 2);
                row.push(near >= 5 || far <= 1);
                x = x + 1;
            }
            assert(row@ =~= smoothed(self@)[y as int]);
            rows.push(row);
            y = y + 1;
        }
        let r = CaveGrid { rows };
        assert(r@ =~= smoothed(self@));
        r
    }

    /// A grid of noise: each cell is wall with 45 chances in a hundred, from
    /// one draw of `gen`, row by row.
    pub fn noise(width: usize, height: usize, gen: &mut PCG32) -> (r: CaveGrid)
        requires
            width * height <= usize::MAX,
        ensures
            r@ == noise(width as int, height as int, old(gen).state),
            r.is_shaped(width as int, height as int),
            *final(gen) == old(gen).after_n((width * height) as nat),
    {
        let mut rows: Vec<Vec<bool>> = Vec::new();
        let mut y: usize = 0;
        let ghost start = gen.state;
        while y < height
            invariant
                y <= height,
                width * height <= usize::MAX,
                rows@.len() == y,
                gen.state == advance_by(start, (y * width) as nat),
                forall|j: int|
                    0 <= j < y ==> (#[trigger] rows@[j])@ == noise(
                        width as int,
                        height as int,
                        start,
                    )[j],
            decreases height - y,
        {
            let mut row: Vec<bool> = Vec::new();
            let mut x: usize = 0;
            proof {
                assert(0 <= y * width && (y + 1) * width <= height * width) by (nonlinear_arith)
                    requires
                        0 <= y < height,
                        0 <= width,
                ;
                assert((y + 1) * width == y * width + width) by (nonlinear_arith);
                assert(height * width == width * height) by (nonlinear_arith);
            }
            while x < width
                invariant
                    x <= width,
                    y < height,
                    0 <= y * width,
                    y * width + width <= usize::MAX,
                    row@.len() == x,
                    gen.state == advance_by(start, (y * width + x) as nat),
                    forall|i: int|
                        0 <= i < x ==> row@[i] == noise_wall(start, (y * width + i) as nat),
                decreases width - x,
            {
                proof {
                    lemma_advance_by_add(start, (y * width + x) as nat, 1);
                    assert(advance_by(gen.state, 1) == crate::prng::advance(gen.state)) by {
                        assert(advance_by(crate::prng::advance(gen.state), 0) == crate::prng::advance(
                            gen.state,
                        ));
                    }
                }
                let roll = gen.roll(1, 100);
                row.push(roll <= WALL_PERCENT);
                x = x + 1;
            }
            assert(row@ =~= noise(width as int, height as int, start)[y as int]);
            rows.push(row);
            y = y + 1;
        }
        proof {
            assert(height * width == width * height) by (nonlinear_arith);
        }
        let r = CaveGrid { rows };
        assert(r@ =~= noise(width as int, height as int, start));
        r
    }
}

/// The count of a square with the centre taken off is never negative.
pub proof fn lemma_walls_count_centre(plan: Plan, x: int, y: int, range: int)
    requires
        range >= 0,
    ensures
        walls_in_rows(plan, x, range, y - range, y + range + 1) >= wall_weight(plan, x, y),
{
    lemma_rows_count(plan, x, range, y - range, y + range + 1, y);
}

/// The walls of a stretch of a row count at least the weight of each cell
/// of the stretch.
proof fn lemma_row_count(plan: Plan, y: int, from: int, to: int, x: int)
    requires
        from <= x < to,
    ensures
        walls_in_row(plan, y, from, to) >= wall_weight(plan, x, y),
        walls_in_row(plan, y, from, to) >= 0,
    decreases to - from,
{
    lemma_row_count_pos(plan, y, from, to - 1);
    if x < to - 1 {
        lemma_row_count(plan, y, from, to - 1, x);
    }
}

/// The walls of a stretch of a row count no less than nothing.
proof fn lemma_row_count_pos(plan: Plan, y: int, from: int, to: int)
    ensures
        walls_in_row(plan, y, from, to) >= 0,
    decreases to - from,
{
    if to > from {
        lemma_row_count_pos(plan, y, from, to - 1);
    }
}

/// The walls of a block of rows count no less than nothing.
proof fn lemma_rows_count_pos(plan: Plan, x: int, range: int, from: int, to: int)
    ensures
        walls_in_rows(plan, x, range, from, to) >= 0,
    decreases to - from,
{
    if to > from {
        lemma_rows_count_pos(plan, x, range, from, to - 1);
        lemma_row_count_pos(plan, to - 1, x - range, x + range + 1);
    }
}

/// The walls of a block of rows count at least the weight of each cell in
/// the middle column of the block.
proof fn lemma_rows_count(plan: Plan, x: int, range: int, from: int, to: int, y: int)
    requires
        range >= 0,
        from <= y < to,
    ensures
        walls_in_rows(plan, x, range, from, to) >= wall_weight(plan, x, y),
    decreases to - from,
{
    lemma_rows_count_pos(plan, x, range, from, to - 1);
    lemma_row_count_pos(plan, to - 1, x - range, x + range + 1);
    if y < to - 1 {
        lemma_rows_count(plan, x, range, from, to - 1, y);
    } else {
        lemma_row_count(plan, y, x - range, x + range + 1, x);
    }
}

/// The cell lies on the plan and is open.
pub open spec fn open_cell(plan: Plan, x: int, y: int) -> bool {
    on_plan(plan, x, y) && !plan[y][x]
}

/// The cell lies at least one cell away from every edge of the plan.
pub open spec fn inner(plan: Plan, x: int, y: int) -> bool {
    1 <= y < plan.len() - 1 && 1 <= x < plan[y].len() - 1
}

/// Whether a flood that starts on the cell `(sx, sy)` gets to `(x, y)`
/// within `k` steps. The flood runs over open cells, from a cell to the
/// cells that share an edge with it, and never onto the rim of the plan.
pub open spec fn flows(plan: Plan, sx: int, sy: int, x: int, y: int, k: nat) -> bool
    decreases k,
{
    open_cell(plan, x, y) && ((x == sx && y == sy) || (k > 0 && inner(plan, x, y) && {
        ||| flows(plan, sx, sy, x + 1, y, (k - 1) as nat)
        ||| flows(plan, sx, sy, x - 1, y, (k - 1) as nat)
        ||| flows(plan, sx, sy, x, y + 1, (k - 1) as nat)
        ||| flows(plan, sx, sy, x, y - 1, (k - 1) as nat)
    }))
}

/// Whether the flood from `(sx, sy)` gets to `(x, y)` at all.
pub open spec fn in_region(plan: Plan, sx: int, sy: int, x: int, y: int) -> bool {
    exists|k: nat| flows(plan, sx, sy, x, y, k)
}

/// The plan in which only the region of `(sx, sy)` is open.
pub open spec fn flooded(plan: Plan, sx: int, sy: int) -> Plan {
    Seq::new(
        plan.len(),
        |y: int| Seq::new(plan[y].len(), |x: int| !in_region(plan, sx, sy, x, y)),
    )
}

/// The open cells among the first `n` of a row.
pub open spec fn open_in_row(row: Seq<bool>, n: int) -> int
    decreases n,
{
    if n <= 0 {
        0
    } else {
        open_in_row(row, n - 1) + if row[n - 1] {
            0int
        } else {
            1int
        }
    }
}

/// The open cells in the first `n` rows of a plan.
pub open spec fn open_in_rows(plan: Plan, n: int) -> int
    decreases n,
{
    if n <= 0 {
        0
    } else {
        open_in_rows(plan, n - 1) + open_in_row(plan[n - 1], plan[n - 1].len() as int)
    }
}

/// The number of open cells of a plan.
pub open spec fn open_count(plan: Plan) -> int {
    open_in_rows(plan, plan.len() as int)
}

/// A stretch of a row has no more open cells than cells.
proof fn lemma_open_in_row_bound(row: Seq<bool>, n: int)
    requires
        0 <= n,
    ensures
        0 <= open_in_row(row, n) <= n,
    decreases n,
{
    if n > 0 {
        lemma_open_in_row_bound(row, n - 1);
    }
}

/// The first rows of a plan have no more open cells than cells.
proof fn lemma_open_in_rows_bound(plan: Plan, width: int, n: int)
    requires
        0 <= n <= plan.len(),
        0 <= width,
        forall|y: int| 0 <= y < plan.len() ==> (#[trigger] plan[y]).len() == width,
    ensures
        0 <= open_in_rows(plan, n) <= n * width,
    decreases n,
{
    if n > 0 {
        lemma_open_in_rows_bound(plan, width, n - 1);
        lemma_open_in_row_bound(plan[n - 1], width);
        assert(n * width == (n - 1) * width + width) by (nonlinear_arith);
    } else {
        assert(0 * width == 0);
    }
}

/// A stretch of walls has no open cell.
proof fn lemma_open_in_row_all_wall(row: Seq<bool>, n: int)
    requires
        0 <= n <= row.len(),
        forall|i: int| 0 <= i < n ==> row[i],
    ensures
        open_in_row(row, n) == 0,
    decreases n,
{
    if n > 0 {
        lemma_open_in_row_all_wall(row, n - 1);
    }
}

/// Rows of walls have no open cell.
proof fn lemma_open_in_rows_all_wall(plan: Plan, n: int)
    requires
        0 <= n <= plan.len(),
        forall|x: int, y: int| 0 <= y < n && 0 <= x < plan[y].len() ==> plan[y][x],
    ensures
        open_in_rows(plan, n) == 0,
    decreases n,
{
    if n > 0 {
        lemma_open_in_rows_all_wall(plan, n - 1);
        lemma_open_in_row_all_wall(plan[n - 1], plan[n - 1].len() as int);
    }
}

/// Opening a wall of a row adds one to the open cells of every stretch
/// that holds it.
proof fn lemma_open_in_row_opened(row: Seq<bool>, x: int, n: int)
    requires
        0 <= x < row.len(),
        0 <= n <= row.len(),
        row[x],
    ensures
        open_in_row(row.update(x, false), n) == open_in_row(row, n) + if x < n {
            1int
        } else {
            0int
        },
    decreases n,
{
    if n > 0 {
        lemma_open_in_row_opened(row, x, n - 1);
    }
}

/// Opening a wall of a plan adds one to the open cells of the rows that
/// hold it.
proof fn lemma_open_in_rows_opened(plan: Plan, x: int, y: int, n: int)
    requires
        on_plan(plan, x, y),
        plan[y][x],
        0 <= n <= plan.len(),
    ensures
        open_in_rows(plan.update(y, plan[y].update(x, false)), n) == open_in_rows(plan, n) + if y
            < n {
            1int
        } else {
            0int
        },
    decreases n,
{
    if n > 0 {
        lemma_open_in_rows_opened(plan, x, y, n - 1);
        if y == n - 1 {
            lemma_open_in_row_opened(plan[y], x, plan[y].len() as int);
        }
    }
}

/// The flood has got to the cell.
pub open spec fn reached(dest: Plan, x: int, y: int) -> bool {
    on_plan(dest, x, y) && !dest[y][x]
}

/// The flood needs to look at the cell no more: it is at the rim, or
/// wall, or the flood has got to it.
pub open spec fn settled(src: Plan, dest: Plan, x: int, y: int) -> bool {
    inner(src, x, y) && open_cell(src, x, y) ==> reached(dest, x, y)
}

/// The flood is done with the cell: all four cells beside it are settled.
pub open spec fn closed_at(src: Plan, dest: Plan, x: int, y: int) -> bool {
    &&& settled(src, dest, x + 1, y)
    &&& settled(src, dest, x - 1, y)
    &&& settled(src, dest, x, y + 1)
    &&& settled(src, dest, x, y - 1)
}

/// What holds while the flood runs: every cell that it got to belongs to
/// the region, and is waiting on the stack, or being looked at, or done.
pub open spec fn flooding(
    src: Plan,
    sx: int,
    sy: int,
    dest: Plan,
    stack: Seq<(usize, usize)>,
    depth: Map<(int, int), nat>,
    count: int,
    current: Option<(int, int)>,
    width: int,
    height: int,
) -> bool {
    &&& shaped(src, width, height)
    &&& shaped(dest, width, height)
    &&& reached(dest, sx, sy)
    &&& forall|x: int, y: int| #[trigger]
        reached(dest, x, y) ==> depth.contains_key((x, y)) && flows(src, sx, sy, x, y, depth[(x, y)])
    &&& forall|x: int, y: int| #[trigger]
        reached(dest, x, y) ==> stack.contains((x as usize, y as usize)) || current == Some((x, y))
            || closed_at(src, dest, x, y)
    &&& forall|i: int|
        0 <= i < stack.len() ==> reached(dest, (#[trigger] stack[i]).0 as int, stack[i].1 as int)
    &&& count == open_count(dest)
}

/// Once the flood is done with every cell it got to, it got to the whole
/// region.
proof fn lemma_flood_complete(src: Plan, dest: Plan, sx: int, sy: int, x: int, y: int, k: nat)
    requires
        reached(dest, sx, sy),
        forall|x: int, y: int| #[trigger] reached(dest, x, y) ==> closed_at(src, dest, x, y),
        flows(src, sx, sy, x, y, k),
    ensures
        reached(dest, x, y),
    decreases k,
{
    if !(x == sx && y == sy) {
        let j = (k - 1) as nat;
        if flows(src, sx, sy, x + 1, y, j) {
            lemma_flood_complete(src, dest, sx, sy, x + 1, y, j);
            assert(closed_at(src, dest, x + 1, y));
        } else if flows(src, sx, sy, x - 1, y, j) {
            lemma_flood_complete(src, dest, sx, sy, x - 1, y, j);
            assert(closed_at(src, dest, x - 1, y));
        } else if flows(src, sx, sy, x, y + 1, j) {
            lemma_flood_complete(src, dest, sx, sy, x, y + 1, j);
            assert(closed_at(src, dest, x, y + 1));
        } else {
            lemma_flood_complete(src, dest, sx, sy, x, y - 1, j);
            assert(closed_at(src, dest, x, y - 1));
        }
    }
}

/// Looks at the cell `(nx, ny)` beside the cell that the flood is at, and
/// lets the flood get to it if it can.
fn flood_visit(
    src: &CaveGrid,
    dest: &mut CaveGrid,
    stack: &mut Vec<(usize, usize)>,
    count: &mut usize,
    nx: i64,
    ny: i64,
    width: usize,
    height: usize,
    Ghost(seed): Ghost<(int, int)>,
    Ghost(at): Ghost<(int, int)>,
    Ghost(depth): Ghost<Map<(int, int), nat>>,
) -> (r: Ghost<Map<(int, int), nat>>)
    requires
        flooding(
            src@,
            seed.0,
            seed.1,
            old(dest)@,
            old(stack)@,
            depth,
            *old(count) as int,
            Some(at),
            width as int,
            height as int,
        ),
        reached(old(dest)@, at.0, at.1),
        (nx == at.0 + 1 && ny == at.1) || (nx == at.0 - 1 && ny == at.1) || (nx == at.0 && ny
            == at.1 + 1) || (nx == at.0 && ny == at.1 - 1),
        width * height <= usize::MAX,
    ensures
        flooding(
            src@,
            seed.0,
            seed.1,
            final(dest)@,
            final(stack)@,
            r@,
            *final(count) as int,
            Some(at),
            width as int,
            height as int,
        ),
        settled(src@, final(dest)@, nx as int, ny as int),
        forall|x: int, y: int| #[trigger] reached(old(dest)@, x, y) ==> reached(final(dest)@, x, y),
        *final(count) > *old(count) || (*final(count) == *old(count) && final(stack)@ == old(
            stack,
        )@),
{
    if nx < 1 || ny < 1 || nx as u64 >= (width as u64) || ny as u64 >= (height as u64) {
        return Ghost(depth);
    }
    if nx as u64 + 1 >= (width as u64) || ny as u64 + 1 >= (height as u64) {
        return Ghost(depth);
    }
    if src.is_wall(nx, ny) || !dest.is_wall(nx, ny) {
        return Ghost(depth);
    }
    let x = nx as usize;
    let y = ny as usize;
    let ghost dest0 = dest@;
    let ghost stack0 = stack@;
    proof {
        lemma_open_in_rows_opened(dest0, nx as int, ny as int, height as int);
        lemma_open_in_rows_bound(
            dest0.update(ny as int, dest0[ny as int].update(nx as int, false)),
            width as int,
            height as int,
        );
        assert(height * width == width * height) by (nonlinear_arith);
    }
    dest.set(x, y, false);
    stack.push((x, y));
    *count = *count + 1;
    let ghost deeper = depth.insert((nx as int, ny as int), depth[at] + 1);
    proof {
        assert forall|a: int, b: int| #[trigger] reached(dest0, a, b) implies reached(dest@, a, b) by {}
        assert forall|a: int, b: int| #[trigger] reached(dest@, a, b) implies deeper.contains_key(
            (a, b),
        ) && flows(src@, seed.0, seed.1, a, b, deeper[(a, b)]) by {
            if a == nx && b == ny {
                assert(flows(src@, seed.0, seed.1, at.0, at.1, depth[at]));
            } else {
                assert(reached(dest0, a, b));
            }
        }
        assert forall|a: int, b: int| #[trigger] reached(dest@, a, b) implies stack@.contains(
            (a as usize, b as usize),
        ) || Some(at) == Some((a, b)) || closed_at(src@, dest@, a, b) by {
            if a == nx && b == ny {
                assert(stack@[stack@.len() - 1] == (a as usize, b as usize));
            } else {
                assert(reached(dest0, a, b));
                if stack0.contains((a as usize, b as usize)) {
                    let i = choose|i: int|
                        0 <= i < stack0.len() && stack0[i] == (a as usize, b as usize);
                    assert(stack@[i] == (a as usize, b as usize));
                } else if Some(at) != Some((a, b)) {
                    assert(closed_at(src@, dest0, a, b));
                    assert(settled(src@, dest0, a + 1, b) ==> settled(src@, dest@, a + 1, b));
                    assert(settled(src@, dest0, a - 1, b) ==> settled(src@, dest@, a - 1, b));
                    assert(settled(src@, dest0, a, b + 1) ==> settled(src@, dest@, a, b + 1));
                    assert(settled(src@, dest0, a, b - 1) ==> settled(src@, dest@, a, b - 1));
                }
            }
        }
        assert forall|i: int| 0 <= i < stack@.len() implies reached(
            dest@,
            (#[trigger] stack@[i]).0 as int,
            stack@[i].1 as int,
        ) by {
            if i < stack0.len() {
                assert(stack@[i] == stack0[i]);
                assert(reached(dest0, stack0[i].0 as int, stack0[i].1 as int));
            }
        }
    }
    Ghost(deeper)
}

/// Floods the open cells of `src` from the open cell `(sx, sy)`. Returns
/// the grid in which only the flooded region is open, and the number of
/// its open cells.
pub fn flood(src: &CaveGrid, width: usize, height: usize, sx: usize, sy: usize) -> (r: (
    CaveGrid,
    usize,
))
    requires
        src.is_shaped(width as int, height as int),
        sx < width,
        sy < height,
        !src@[sy as int][sx as int],
        width * height <= usize::MAX,
        width <= i64::MAX - 8,
        height <= i64::MAX - 8,
    ensures
        r.0@ == flooded(src@, sx as int, sy as int),
        r.0.is_shaped(width as int, height as int),
        r.1 == open_count(r.0@),
{
    let mut dest = CaveGrid::filled(width, height, true);
    let ghost all_wall = dest@;
    proof {
        lemma_open_in_rows_all_wall(all_wall, height as int);
        lemma_open_in_rows_opened(all_wall, sx as int, sy as int, height as int);
    }
    dest.set(sx, sy, false);
    let mut stack: Vec<(usize, usize)> = Vec::new();
    stack.push((sx, sy));
    let mut count: usize = 1;
    let ghost mut depth: Map<(int, int), nat> = Map::empty().insert((sx as int, sy as int), 0nat);
    proof {
        assert(stack@[0] == (sx, sy));
        assert forall|x: int, y: int| #[trigger] reached(dest@, x, y) implies x == sx && y
            == sy by {}
        assert(1 <= width * height) by (nonlinear_arith)
            requires
                1 <= width,
                1 <= height,
        ;
    }
    while stack.len() > 0
        invariant
            flooding(
                src@,
                sx as int,
                sy as int,
                dest@,
                stack@,
                depth,
                count as int,
                None,
                width as int,
                height as int,
            ),
            width * height <= usize::MAX,
            width <= i64::MAX - 8,
            height <= i64::MAX - 8,
            count <= width * height,
        decreases width * height - count, stack@.len(),
    {
        let ghost stack0 = stack@;
        let (cx, cy) = stack.pop().unwrap();
        let ghost at = (cx as int, cy as int);
        proof {
            assert(stack0[stack0.len() - 1] == (cx, cy));
            assert(reached(dest@, at.0, at.1));
            assert forall|a: int, b: int| #[trigger] reached(dest@, a, b) implies stack@.contains(
                (a as usize, b as usize),
            ) || Some(at) == Some((a, b)) || closed_at(src@, dest@, a, b) by {
                if stack0.contains((a as usize, b as usize)) {
                    let i = choose|i: int|
                        0 <= i < stack0.len() && stack0[i] == (a as usize, b as usize);
                    if i < stack0.len() - 1 {
                        assert(stack@[i] == (a as usize, b as usize));
                    }
                }
            }
            assert forall|i: int| 0 <= i < stack@.len() implies reached(
                dest@,
                (#[trigger] stack@[i]).0 as int,
                stack@[i].1 as int,
            ) by {
                assert(stack@[i] == stack0[i]);
            }
        }
        let x = cx as i64;
        let y = cy as i64;
        let Ghost(d1) = flood_visit(
            src,
            &mut dest,
            &mut stack,
            &mut count,
            x + 1,
            y,
            width,
            height,
            Ghost((sx as int, sy as int)),
            Ghost(at),
            Ghost(depth),
        );
        let ghost dest1 = dest@;
        let Ghost(d2) = flood_visit(
            src,
            &mut dest,
            &mut stack,
            &mut count,
            x - 1,
            y,
            width,
            height,
            Ghost((sx as int, sy as int)),
            Ghost(at),
            Ghost(d1),
        );
        let ghost dest2 = dest@;
        let Ghost(d3) = flood_visit(
            src,
            &mut dest,
            &mut stack,
            &mut count,
            x,
            y + 1,
            width,
            height,
            Ghost((sx as int, sy as int)),
            Ghost(at),
            Ghost(d2),
        );
        let ghost dest3 = dest@;
        let Ghost(d4) = flood_visit(
            src,
            &mut dest,
            &mut stack,
            &mut count,
            x,
            y - 1,
            width,
            height,
            Ghost((sx as int, sy as int)),
            Ghost(at),
            Ghost(d3),
        );
        proof {
            depth = d4;
            assert(settled(src@, dest1, at.0 + 1, at.1));
            assert(settled(src@, dest2, at.0 - 1, at.1));
            assert(settled(src@, dest3, at.0, at.1 + 1));
            assert(reached(dest1, at.0 + 1, at.1) ==> reached(dest2, at.0 + 1, at.1));
            assert(reached(dest2, at.0 + 1, at.1) ==> reached(dest3, at.0 + 1, at.1));
            assert(reached(dest3, at.0 + 1, at.1) ==> reached(dest@, at.0 + 1, at.1));
            assert(reached(dest2, at.0 - 1, at.1) ==> reached(dest3, at.0 - 1, at.1));
            assert(reached(dest3, at.0 - 1, at.1) ==> reached(dest@, at.0 - 1, at.1));
            assert(reached(dest3, at.0, at.1 + 1) ==> reached(dest@, at.0, at.1 + 1));
            assert(closed_at(src@, dest@, at.0, at.1));
            lemma_open_in_rows_bound(dest@, width as int, height as int);
            assert(height * width == width * height) by (nonlinear_arith);
        }
    }
    proof {
        assert forall|x: int, y: int| #[trigger] reached(dest@, x, y) implies closed_at(
            src@,
            dest@,
            x,
            y,
        ) by {
            assert(!stack@.contains((x as usize, y as usize)));
        }
        assert forall|x: int, y: int| on_plan(dest@, x, y) implies dest@[y][x] == !in_region(
            src@,
            sx as int,
            sy as int,
            x,
            y,
        ) by {
            if in_region(src@, sx as int, sy as int, x, y) {
                let k = choose|k: nat| flows(src@, sx as int, sy as int, x, y, k);
                lemma_flood_complete(src@, dest@, sx as int, sy as int, x, y, k);
            }
            if !dest@[y][x] {
                assert(reached(dest@, x, y));
            }
        }
        assert forall|y: int| 0 <= y < dest@.len() implies #[trigger] dest@[y] =~= flooded(
            src@,
            sx as int,
            sy as int,
        )[y] by {
            assert forall|x: int| 0 <= x < dest@[y].len() implies dest@[y][x] == flooded(
                src@,
                sx as int,
                sy as int,
            )[y][x] by {
                assert(on_plan(dest@, x, y));
            }
        }
        assert(dest@ =~= flooded(src@, sx as int, sy as int));
    }
    (dest, count)
}

/// How often the search for an open cell to flood from draws again.
pub const SEED_TRIES: usize = 100;

/// How many caves are tried before the making of a cave gives up.
pub const CAVE_ATTEMPTS: usize = 1000;

/// The search for an open cell to flood from: a column and a row are
/// drawn, and drawn again, up to `tries` more times, while they name a wall.
/// Returns the cell found, if any, and the state of the generator after
/// the search.
#[verifier::opaque]
pub open spec fn seed_search(plan: Plan, width: int, height: int, state: u64, tries: nat) -> (
    Option<(int, int)>,
    u64,
)
    decreases tries,
{
    let x = spread(0, (width - 1) as u32, output(state));
    let y = spread(0, (height - 1) as u32, output(crate::prng::advance(state)));
    let next = crate::prng::advance(crate::prng::advance(state));
    if !wall(plan, x, y) {
        (Some((x, y)), next)
    } else if tries == 0 {
        (None, next)
    } else {
        seed_search(plan, width, height, next, (tries - 1) as nat)
    }
}

/// The plan of the given size that is all wall.
pub open spec fn solid(width: int, height: int) -> Plan {
    Seq::new(height as nat, |y: int| Seq::new(width as nat, |x: int| true))
}

/// One try at a cave, from a generator in `state`: noise, smoothed five
/// times, flooded from an open cell found by search. The try is good if the
/// flooded region holds at least half of all cells. Returns the cave, if
/// the try was good, and the state of the generator after the try.
#[verifier::opaque]
pub open spec fn cave_attempt(width: int, height: int, state: u64) -> (Option<Plan>, u64) {
    let rough = smoothed_times(noise(width, height, state), SMOOTHING_PASSES as nat);
    let found = seed_search(
        rough,
        width,
        height,
        advance_by(state, (width * height) as nat),
        SEED_TRIES as nat,
    );
    match found.0 {
        Some(seed) => {
            let cave = flooded(rough, seed.0, seed.1);
            if open_count(cave) >= (width * height) / 2 {
                (Some(cave), found.1)
            } else {
                (None, found.1)
            }
        },
        None => if (width * height) / 2 == 0 {
            (Some(solid(width, height)), found.1)
        } else {
            (None, found.1)
        },
    }
}

/// The first good try among up to `budget` tries, each starting where the
/// one before left the generator.
#[verifier::opaque]
pub open spec fn caves_from(width: int, height: int, state: u64, budget: nat) -> (Option<Plan>, u64)
    decreases budget,
{
    if budget == 0 {
        (None, state)
    } else {
        let tried = cave_attempt(width, height, state);
        if tried.0 is Some {
            tried
        } else {
            caves_from(width, height, tried.1, (budget - 1) as nat)
        }
    }
}

/// Two cells that share an edge.
pub open spec fn beside(a: (int, int), b: (int, int)) -> bool {
    ||| (a.1 == b.1 && (a.0 - b.0 == 1 || b.0 - a.0 == 1))
    ||| (a.0 == b.0 && (a.1 - b.1 == 1 || b.1 - a.1 == 1))
}

/// A walk over open cells of the plan, each sharing an edge with the next.
pub open spec fn is_walk(plan: Plan, p: Seq<(int, int)>) -> bool {
    &&& p.len() > 0
    &&& forall|i: int| 0 <= i < p.len() ==> open_cell(plan, (#[trigger] p[i]).0, p[i].1)
    &&& forall|i: int| 0 <= i < p.len() - 1 ==> beside(#[trigger] p[i], p[i + 1])
}

/// Some walk leads from `a` to `b`.
pub open spec fn linked(plan: Plan, a: (int, int), b: (int, int)) -> bool {
    exists|p: Seq<(int, int)>| #[trigger] is_walk(plan, p) && p[0] == a && p[p.len() - 1] == b
}

/// From every open cell of the plan a walk leads to every other.
pub open spec fn all_linked(plan: Plan) -> bool {
    forall|a: (int, int), b: (int, int)|
        open_cell(plan, a.0, a.1) && open_cell(plan, b.0, b.1) ==> #[trigger] linked(plan, a, b)
}

/// From a cell of the region a walk leads to the seed, inside the region.
pub proof fn lemma_walk_to_seed(src: Plan, sx: int, sy: int, x: int, y: int, k: nat) -> (p: Seq<
    (int, int),
>)
    requires
        flows(src, sx, sy, x, y, k),
    ensures
        is_walk(flooded(src, sx, sy), p),
        p[0] == (x, y),
        p[p.len() - 1] == (sx, sy),
    decreases k,
{
    let cave = flooded(src, sx, sy);
    assert(in_region(src, sx, sy, x, y));
    assert(open_cell(cave, x, y));
    if x == sx && y == sy {
        seq![(x, y)]
    } else {
        let j = (k - 1) as nat;
        let n = if flows(src, sx, sy, x + 1, y, j) {
            (x + 1, y)
        } else if flows(src, sx, sy, x - 1, y, j) {
            (x - 1, y)
        } else if flows(src, sx, sy, x, y + 1, j) {
            (x, y + 1)
        } else {
            (x, y - 1)
        };
        let rest = lemma_walk_to_seed(src, sx, sy, n.0, n.1, j);
        let p = seq![(x, y)] + rest;
        assert forall|i: int| 0 <= i < p.len() implies open_cell(cave, (#[trigger] p[i]).0, p[i].1) by {
            if i > 0 {
                assert(p[i] == rest[i - 1]);
            }
        }
        assert forall|i: int| 0 <= i < p.len() - 1 implies beside(#[trigger] p[i], p[i + 1]) by {
            if i > 0 {
                assert(p[i] == rest[i - 1]);
                assert(p[i + 1] == rest[i]);
            } else {
                assert(p[1] == rest[0]);
            }
        }
        p
    }
}

/// A walk to a cell and a walk from it on make a walk.
pub proof fn lemma_walks_join(plan: Plan, p: Seq<(int, int)>, q: Seq<(int, int)>)
    requires
        is_walk(plan, p),
        is_walk(plan, q),
        p[p.len() - 1] == q[0],
    ensures
        is_walk(plan, p + q.drop_first()),
        (p + q.drop_first())[0] == p[0],
        (p + q.drop_first())[(p + q.drop_first()).len() - 1] == q[q.len() - 1],
{
    let r = p + q.drop_first();
    assert forall|i: int| 0 <= i < r.len() implies open_cell(plan, (#[trigger] r[i]).0, r[i].1) by {
        if i < p.len() {
            assert(r[i] == p[i]);
        } else {
            assert(r[i] == q[i - p.len() + 1]);
        }
    }
    assert forall|i: int| 0 <= i < r.len() - 1 implies beside(#[trigger] r[i], r[i + 1]) by {
        if i < p.len() - 1 {
            assert(r[i] == p[i]);
            assert(r[i + 1] == p[i + 1]);
        } else if i == p.len() - 1 {
            assert(r[i] == q[0]);
            assert(r[i + 1] == q[1]);
        } else {
            assert(r[i] == q[i - p.len() + 1]);
            assert(r[i + 1] == q[i - p.len() + 2]);
        }
    }
}

/// A walk can be walked backwards.
pub proof fn lemma_walk_back(plan: Plan, p: Seq<(int, int)>)
    requires
        is_walk(plan, p),
    ensures
        is_walk(plan, p.reverse()),
{
    let q = p.reverse();
    assert forall|i: int| 0 <= i < q.len() implies open_cell(plan, (#[trigger] q[i]).0, q[i].1) by {
        assert(q[i] == p[p.len() - 1 - i]);
    }
    assert forall|i: int| 0 <= i < q.len() - 1 implies beside(#[trigger] q[i], q[i + 1]) by {
        assert(q[i] == p[p.len() - 1 - i]);
        assert(q[i + 1] == p[p.len() - 2 - i]);
        assert(beside(p[p.len() - 2 - i], p[p.len() - 2 - i + 1]));
    }
}

/// In a flooded plan every open cell can be reached from every other by a
/// walk over open cells.
pub proof fn lemma_flooded_is_linked(src: Plan, sx: int, sy: int)
    ensures
        all_linked(flooded(src, sx, sy)),
{
    let cave = flooded(src, sx, sy);
    assert forall|a: (int, int), b: (int, int)|
        open_cell(cave, a.0, a.1) && open_cell(cave, b.0, b.1) implies #[trigger] linked(
        cave,
        a,
        b,
    ) by {
        assert(in_region(src, sx, sy, a.0, a.1));
        assert(in_region(src, sx, sy, b.0, b.1));
        let ka = choose|k: nat| flows(src, sx, sy, a.0, a.1, k);
        let kb = choose|k: nat| flows(src, sx, sy, b.0, b.1, k);
        let pa = lemma_walk_to_seed(src, sx, sy, a.0, a.1, ka);
        let pb = lemma_walk_to_seed(src, sx, sy, b.0, b.1, kb);
        lemma_walk_back(cave, pb);
        let back = pb.reverse();
        assert(back[0] == pb[pb.len() - 1]);
        assert(back[back.len() - 1] == pb[0]);
        lemma_walks_join(cave, pa, back);
        let p = pa + back.drop_first();
        assert(is_walk(cave, p) && p[0] == a && p[p.len() - 1] == b);
    }
}

/// Smoothing keeps the shape of a plan.
pub proof fn lemma_smoothed_shape(plan: Plan, width: int, height: int, passes: nat)
    requires
        shaped(plan, width, height),
    ensures
        shaped(smoothed_times(plan, passes), width, height),
    decreases passes,
{
    if passes > 0 {
        lemma_smoothed_shape(plan, width, height, (passes - 1) as nat);
    }
}

/// A good try yields a cave of the size asked for, in which at least half
/// of all cells are open and every open cell can be reached from every
/// other.
pub proof fn lemma_attempt_is_cave(width: int, height: int, state: u64)
    requires
        width >= 1,
        height >= 1,
        cave_attempt(width, height, state).0 is Some,
    ensures
        shaped(cave_attempt(width, height, state).0->0, width, height),
        open_count(cave_attempt(width, height, state).0->0) >= (width * height) / 2,
        all_linked(cave_attempt(width, height, state).0->0),
{
    reveal(cave_attempt);
    lemma_smoothed_shape(noise(width, height, state), width, height, SMOOTHING_PASSES as nat);
    let rough = smoothed_times(noise(width, height, state), SMOOTHING_PASSES as nat);
    let found = seed_search(
        rough,
        width,
        height,
        advance_by(state, (width * height) as nat),
        SEED_TRIES as nat,
    );
    match found.0 {
        Some(seed) => {
            lemma_flooded_is_linked(rough, seed.0, seed.1);
        },
        None => {
            let plan = solid(width, height);
            lemma_open_in_rows_all_wall(plan, height);
            assert forall|a: (int, int), b: (int, int)|
                open_cell(plan, a.0, a.1) && open_cell(plan, b.0, b.1) implies #[trigger] linked(
                plan,
                a,
                b,
            ) by {}
        },
    }
}

/// Whatever try of `caves_from` was good, it yields a cave.
pub proof fn lemma_caves_are_caves(width: int, height: int, state: u64, budget: nat)
    requires
        width >= 1,
        height >= 1,
        caves_from(width, height, state, budget).0 is Some,
    ensures
        shaped(caves_from(width, height, state, budget).0->0, width, height),
        open_count(caves_from(width, height, state, budget).0->0) >= (width * height) / 2,
        all_linked(caves_from(width, height, state, budget).0->0),
    decreases budget,
{
    reveal(caves_from);
    if budget > 0 {
        let tried = cave_attempt(width, height, state);
        if tried.0 is Some {
            lemma_attempt_is_cave(width, height, state);
        } else {
            lemma_caves_are_caves(width, height, tried.1, (budget - 1) as nat);
        }
    }
}

/// The search for a seed, one draw of a cell unfolded.
proof fn lemma_seed_search_step(plan: Plan, width: int, height: int, state: u64, tries: nat)
    ensures
        seed_search(plan, width, height, state, tries) == {
            let x = spread(0, (width - 1) as u32, output(state));
            let y = spread(0, (height - 1) as u32, output(crate::prng::advance(state)));
            let next = crate::prng::advance(crate::prng::advance(state));
            if !wall(plan, x, y) {
                (Some((x, y)), next)
            } else if tries == 0 {
                (None::<(int, int)>, next)
            } else {
                seed_search(plan, width, height, next, (tries - 1) as nat)
            }
        },
{
    reveal(seed_search);
}

/// The making of a cave, one try unfolded.
proof fn lemma_caves_from_step(width: int, height: int, state: u64, budget: nat)
    ensures
        caves_from(width, height, state, budget) == if budget == 0 {
            (None::<Plan>, state)
        } else if cave_attempt(width, height, state).0 is Some {
            cave_attempt(width, height, state)
        } else {
            caves_from(width, height, cave_attempt(width, height, state).1, (budget - 1) as nat)
        },
{
    reveal(caves_from);
}

/// Searches for an open cell to flood from.
pub fn find_seed(src: &CaveGrid, width: usize, height: usize, gen: &mut PCG32) -> (r: Option<
    (usize, usize),
>)
    requires
        src.is_shaped(width as int, height as int),
        1 <= width <= u32::MAX,
        1 <= height <= u32::MAX,
    ensures
        seed_search(src@, width as int, height as int, old(gen).state, SEED_TRIES as nat) == (
            match r {
                Some(seed) => Some((seed.0 as int, seed.1 as int)),
                None => None,
            },
            final(gen).state,
        ),
        r matches Some(seed) ==> seed.0 < width && seed.1 < height && !src@[seed.1 as int][seed.0 as int],
{
    let mut tries: usize = SEED_TRIES;
    let ghost start = gen.state;
    loop
        invariant
            start == old(gen).state,
            src.is_shaped(width as int, height as int),
            1 <= width <= u32::MAX,
            1 <= height <= u32::MAX,
            seed_search(src@, width as int, height as int, gen.state, tries as nat) == seed_search(
                src@,
                width as int,
                height as int,
                start,
                SEED_TRIES as nat,
            ),
        decreases tries,
    {
        proof {
            lemma_seed_search_step(src@, width as int, height as int, gen.state, tries as nat);
        }
        let x = gen.roll(0, (width - 1) as u32) as usize;
        let y = gen.roll(0, (height - 1) as u32) as usize;
        assert(src@[y as int].len() == width);
        if !src.rows[y][x] {
            return Some((x, y));
        }
        if tries == 0 {
            return None;
        }
        tries = tries - 1;
    }
}

/// Tries once to make a cave.
pub fn attempt(width: usize, height: usize, gen: &mut PCG32) -> (r: Option<CaveGrid>)
    requires
        1 <= width <= u32::MAX,
        1 <= height <= u32::MAX,
        width * height <= usize::MAX,
    ensures
        cave_attempt(width as int, height as int, old(gen).state) == (
            match r {
                Some(cave) => Some(cave@),
                None => None,
            },
            final(gen).state,
        ),
        r matches Some(cave) ==> cave.is_shaped(width as int, height as int),
{
    proof {
        reveal(cave_attempt);
    }
    let mut grid = CaveGrid::noise(width, height, gen);
    let mut pass: usize = 0;
    while pass < SMOOTHING_PASSES
        invariant
            pass <= SMOOTHING_PASSES,
            1 <= width <= u32::MAX,
            1 <= height <= u32::MAX,
            grid.is_shaped(width as int, height as int),
            grid@ == smoothed_times(
                noise(width as int, height as int, old(gen).state),
                pass as nat,
            ),
        decreases SMOOTHING_PASSES - pass,
    {
        grid = grid.smooth(width, height);
        pass = pass + 1;
    }
    match find_seed(&grid, width, height, gen) {
        Some((sx, sy)) => {
            let (cave, count) = flood(&grid, width, height, sx, sy);
            if count >= (width * height) / 2 {
                Some(cave)
            } else {
                None
            }
        },
        None => {
            if (width * height) / 2 == 0 {
                let cave = CaveGrid::filled(width, height, true);
                assert(cave@ =~= solid(width as int, height as int)) by {
                    assert forall|y: int| 0 <= y < height implies #[trigger] cave@[y] =~= solid(
                        width as int,
                        height as int,
                    )[y] by {}
                }
                Some(cave)
            } else {
                None
            }
        },
    }
}

/// Whether a cave of the given size can be held: the sides can be drawn
/// from the generator and the cells can be counted.
pub open spec fn fits(width: int, height: int) -> bool {
    width <= u32::MAX && height <= u32::MAX && width * height <= usize::MAX
}

/// The cave of the given size that a generator in `state` makes within
/// `CAVE_ATTEMPTS` tries, and the state of the generator afterwards. A size
/// that cannot be held makes none and takes no draw.
pub open spec fn caves_made(width: int, height: int, state: u64) -> (Option<Plan>, u64) {
    if fits(width, height) {
        caves_from(width, height, state, CAVE_ATTEMPTS as nat)
    } else {
        (None, state)
    }
}

/// Makes a cave of the given size: tries until a try is good, up to
/// `CAVE_ATTEMPTS` times. In the cave at least half of all cells are open,
/// and from every open cell a walk over open cells leads to every other.
pub fn make_cellular_caves(width: usize, height: usize, gen: &mut PCG32) -> (r: Option<CaveGrid>)
    requires
        1 <= width,
        1 <= height,
    ensures
        caves_made(width as int, height as int, old(gen).state) == (
            match r {
                Some(cave) => Some(cave@),
                None => None,
            },
            final(gen).state,
        ),
        r matches Some(cave) ==> cave.is_shaped(width as int, height as int) && open_count(cave@)
            >= (width * height) / 2 && all_linked(cave@),
{
    if width > u32::MAX as usize || height > u32::MAX as usize {
        return None;
    }
    match width.checked_mul(height) {
        None => {
            return None;
        },
        Some(_) => {},
    }
    let mut left: usize = CAVE_ATTEMPTS;
    let ghost start = gen.state;
    while left > 0
        invariant
            start == old(gen).state,
            1 <= width <= u32::MAX,
            1 <= height <= u32::MAX,
            width * height <= usize::MAX,
            caves_from(width as int, height as int, gen.state, left as nat) == caves_from(
                width as int,
                height as int,
                start,
                CAVE_ATTEMPTS as nat,
            ),
        decreases left,
    {
        proof {
            lemma_caves_from_step(width as int, height as int, gen.state, left as nat);
        }
        match attempt(width, height, gen) {
            Some(cave) => {
                proof {
                    lemma_caves_are_caves(width as int, height as int, start, CAVE_ATTEMPTS as nat);
                }
                return Some(cave);
            },
            None => {},
        }
        left = left - 1;
    }
    proof {
        lemma_caves_from_step(width as int, height as int, gen.state, 0);
    }
    None
}

} // verus!
