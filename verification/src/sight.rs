//! Lines of sight. A sight line runs from cell to cell over shared edges, so
//! whoever sees a cell could also walk to it along the line.

use vstd::prelude::*;
use vstd::arithmetic::div_mod::{lemma_fundamental_div_mod, lemma_mod_bound};
use vstd::seq_lib::lemma_seq_contains_after_push;
use std::collections::HashMap;
use crate::location::Location;
use crate::terrain::Terrain;

verus! {

/// What the map `t` says of cell `l`. A cell that the map does not hold is
/// a wall.
pub open spec fn cell(t: Map<u128, Terrain>, l: Location) -> Terrain {
    if t.contains_key(l.key()) {
        t[l.key()]
    } else {
        Terrain::Wall
    }
}

/// Reads a cell of the map without changing the map: a cell that it does
/// not hold reads as a wall.
pub fn terrain_or_wall(t: &HashMap<u128, Terrain>, l: Location) -> (r: Terrain)
    ensures
        r == cell(t@, l),
{
    match t.get(&l.key()) {
        Some(found) => *found,
        None => Terrain::Wall,
    }
}

/// Whether cell `l` stops a sight line. Walls always do; ice does where
/// `ice_blocks` says so.
pub open spec fn opaque(t: Map<u128, Terrain>, l: Location, ice_blocks: bool) -> bool {
    cell(t, l) == Terrain::Wall || (ice_blocks && cell(t, l) == Terrain::Ice)
}

/// Whether cell `l` stops a sight line.
pub fn is_opaque(t: &HashMap<u128, Terrain>, l: Location, ice_blocks: bool) -> (r: bool)
    ensures
        r == opaque(t@, l, ice_blocks),
{
    match terrain_or_wall(t, l) {
        Terrain::Wall => true,
        Terrain::Ice => ice_blocks,
        _ => false,
    }
}

/// The distance between two coordinates.
pub open spec fn span(a: int, b: int) -> int {
    if b >= a {
        b - a
    } else {
        a - b
    }
}

/// The number of steps of the sight line from `o` to `c`.
pub open spec fn line_steps(o: Location, c: Location) -> int {
    span(o.x as int, c.x as int) + span(o.y as int, c.y as int)
}

/// How many of the first `k` steps of the line from `o` to `c` go along x:
/// the share that x has of the whole line, rounded to the nearest.
#[verifier::opaque]
pub open spec fn x_steps(o: Location, c: Location, k: int) -> int {
    let n = line_steps(o, c);
    if n == 0 {
        0
    } else {
        (k * span(o.x as int, c.x as int) + n / 2) / n
    }
}

/// The cell that the line from `o` to `c` reaches after `k` steps.
pub open spec fn line_point(o: Location, c: Location, k: int) -> Location {
    let along_x = x_steps(o, c, k);
    let along_y = k - along_x;
    Location {
        x: (if c.x >= o.x {
            o.x + along_x
        } else {
            o.x - along_x
        }) as i32,
        y: (if c.y >= o.y {
            o.y + along_y
        } else {
            o.y - along_y
        }) as i32,
        z: o.z,
    }
}

/// No cell strictly between `o` and `c` on the line from `o` to `c` stops
/// the sight.
pub open spec fn clear_line(t: Map<u128, Terrain>, o: Location, c: Location, ice_blocks: bool) -> bool {
    forall|k: int| 0 < k < line_steps(o, c) ==> !opaque(t, #[trigger] line_point(o, c, k), ice_blocks)
}

/// `c` lies on the floor of `o`, no further from it than `radius`.
pub open spec fn in_disk(o: Location, c: Location, radius: u32) -> bool {
    &&& o.z == c.z
    &&& (c.x - o.x) * (c.x - o.x) + (c.y - o.y) * (c.y - o.y) <= radius * radius
}

/// Whether `c` is seen from `o`: it lies in the disk, and the line from
/// one of the two to the other is clear.
pub open spec fn sees(
    t: Map<u128, Terrain>,
    o: Location,
    c: Location,
    radius: u32,
    ice_blocks: bool,
) -> bool {
    in_disk(o, c, radius) && (clear_line(t, o, c, ice_blocks) || clear_line(t, c, o, ice_blocks))
}

/// A quotient lies between two numbers if the dividend lies between
/// their multiples.
proof fn lemma_quotient_between(a: int, n: int, lo: int, hi: int)
    requires
        n > 0,
        lo * n <= a,
        a < (hi + 1) * n,
    ensures
        lo <= a / n <= hi,
{
    lemma_fundamental_div_mod(a, n);
    lemma_mod_bound(a, n);
    let q = a / n;
    let r = a % n;
    assert(a == n * q + r);
    assert(q >= lo) by (nonlinear_arith)
        requires
            a == n * q + r,
            0 <= r < n,
            lo * n <= a,
            n > 0,
    ;
    assert(q <= hi) by (nonlinear_arith)
        requires
            a == n * q + r,
            0 <= r < n,
            a < (hi + 1) * n,
            n > 0,
    ;
}

/// The steps along x and along y stay within the spans of the line, start
/// at nothing, end at the spans, and grow by one step at a time.
pub proof fn lemma_x_steps(o: Location, c: Location, k: int)
    requires
        0 <= k <= line_steps(o, c),
    ensures
        0 <= x_steps(o, c, k) <= span(o.x as int, c.x as int),
        0 <= k - x_steps(o, c, k) <= span(o.y as int, c.y as int),
        k == 0 ==> x_steps(o, c, k) == 0,
        k == line_steps(o, c) ==> x_steps(o, c, k) == span(o.x as int, c.x as int),
        k < line_steps(o, c) ==> x_steps(o, c, k) <= x_steps(o, c, k + 1) <= x_steps(o, c, k) + 1,
{
    reveal(x_steps);
    let n = line_steps(o, c);
    let ax = span(o.x as int, c.x as int);
    let ay = span(o.y as int, c.y as int);
    if n > 0 {
        let h = n / 2;
        assert(0 <= h < n);
        let a = k * ax + h;
        assert(0 <= k * ax <= n * ax) by (nonlinear_arith)
            requires
                0 <= k <= n,
                0 <= ax,
        ;
        assert(0 <= k * ay <= n * ay) by (nonlinear_arith)
            requires
                0 <= k <= n,
                0 <= ay,
        ;
        assert(k * ax + k * ay == k * n) by (nonlinear_arith)
            requires
                ax + ay == n,
        ;
        assert(k * ax <= k * n) by (nonlinear_arith)
            requires
                0 <= k,
                0 <= ax <= n,
        ;
        // 0 <= q <= ax, and k - ay <= q <= k
        assert(0 * n <= a);
        assert(a < (ax + 1) * n) by (nonlinear_arith)
            requires
                a == k * ax + h,
                k * ax <= n * ax,
                h < n,
        ;
        lemma_quotient_between(a, n, 0, ax);
        assert((k - ay) * n <= a) by (nonlinear_arith)
            requires
                a == k * ax + h,
                k * ax + k * ay == k * n,
                k * ay <= n * ay,
                h >= 0,
        ;
        assert(a < (k + 1) * n) by (nonlinear_arith)
            requires
                a == k * ax + h,
                k * ax <= k * n,
                h < n,
        ;
        lemma_quotient_between(a, n, k - ay, k);
        if k == 0 {
            assert(a == h);
            assert(a < (0 + 1) * n);
            lemma_quotient_between(a, n, 0, 0);
        }
        if k == n {
            assert(ax * n <= a) by (nonlinear_arith)
                requires
                    a == k * ax + h,
                    k == n,
                    h >= 0,
            ;
            lemma_quotient_between(a, n, ax, ax);
        }
        if k < n {
            let q = a / n;
            let a2 = (k + 1) * ax + h;
            assert(a2 == a + ax) by (nonlinear_arith)
                requires
                    a == k * ax + h,
                    a2 == (k + 1) * ax + h,
            ;
            lemma_fundamental_div_mod(a, n);
            lemma_mod_bound(a, n);
            assert(q * n <= a2) by (nonlinear_arith)
                requires
                    a == n * q + a % n,
                    0 <= a % n,
                    a2 == a + ax,
                    ax >= 0,
            ;
            assert(a2 < (q + 1 + 1) * n) by (nonlinear_arith)
                requires
                    a == n * q + a % n,
                    a % n < n,
                    a2 == a + ax,
                    ax <= n,
            ;
            lemma_quotient_between(a2, n, q, q + 1);
        }
    }
}

/// A sight line starts at its first cell, ends at its last, and each of
/// its cells shares an edge with the next.
pub proof fn lemma_line_walks(o: Location, c: Location, k: int)
    requires
        o.z == c.z,
        0 <= k <= line_steps(o, c),
    ensures
        k == 0 ==> line_point(o, c, k) == o,
        k == line_steps(o, c) ==> line_point(o, c, k) == c,
        k < line_steps(o, c) ==> line_point(o, c, k).adjacent(line_point(o, c, k + 1)),
        span(o.x as int, line_point(o, c, k).x as int) == x_steps(o, c, k),
        span(o.y as int, line_point(o, c, k).y as int) == k - x_steps(o, c, k),
{
    lemma_x_steps(o, c, k);
    if k < line_steps(o, c) {
        lemma_x_steps(o, c, k + 1);
    }
}

/// A cell in the disk is no further than the radius along either axis.
pub proof fn lemma_disk_in_square(o: Location, c: Location, radius: u32)
    requires
        in_disk(o, c, radius),
    ensures
        span(o.x as int, c.x as int) <= radius,
        span(o.y as int, c.y as int) <= radius,
{
    let dx = c.x - o.x;
    let dy = c.y - o.y;
    let r = radius as int;
    assert(dx * dx <= r * r && dy * dy <= r * r) by (nonlinear_arith)
        requires
            dx * dx + dy * dy <= r * r,
    ;
    assert(-r <= dx <= r) by (nonlinear_arith)
        requires
            dx * dx <= r * r,
            r >= 0,
    ;
    assert(-r <= dy <= r) by (nonlinear_arith)
        requires
            dy * dy <= r * r,
            r >= 0,
    ;
}

/// Whether `c` lies in the disk of `radius` around `o`.
pub fn within_disk(o: Location, c: Location, radius: u32) -> (r: bool)
    ensures
        r == in_disk(o, c, radius),
{
    if o.z != c.z {
        return false;
    }
    let dx: i128 = c.x as i128 - o.x as i128;
    let dy: i128 = c.y as i128 - o.y as i128;
    let rr: i128 = radius as i128;
    assert(0 <= dx * dx <= 0x1_0000_0000 * 0x1_0000_0000) by (nonlinear_arith)
        requires
            -0x1_0000_0000 <= dx <= 0x1_0000_0000,
    ;
    assert(0 <= dy * dy <= 0x1_0000_0000 * 0x1_0000_0000) by (nonlinear_arith)
        requires
            -0x1_0000_0000 <= dy <= 0x1_0000_0000,
    ;
    assert(0 <= rr * rr <= 0x1_0000_0000 * 0x1_0000_0000) by (nonlinear_arith)
        requires
            0 <= rr <= 0x1_0000_0000,
    ;
    dx * dx + dy * dy <= rr * rr
}

/// Whether the line from `o` to `c` is clear.
pub fn line_is_clear(t: &HashMap<u128, Terrain>, o: Location, c: Location, ice_blocks: bool) -> (r:
    bool)
    requires
        o.z == c.z,
    ensures
        r == clear_line(t@, o, c, ice_blocks),
{
    let ax: i128 = if c.x >= o.x {
        c.x as i128 - o.x as i128
    } else {
        o.x as i128 - c.x as i128
    };
    let ay: i128 = if c.y >= o.y {
        c.y as i128 - o.y as i128
    } else {
        o.y as i128 - c.y as i128
    };
    let n: i128 = ax + ay;
    let mut k: i128 = 1;
    while k < n
        invariant
            1 <= k,
            o.z == c.z,
            ax == span(o.x as int, c.x as int),
            ay == span(o.y as int, c.y as int),
            n == line_steps(o, c),
            forall|j: int| 0 < j < k ==> !opaque(t@, #[trigger] line_point(o, c, j), ice_blocks),
        decreases n - k,
    {
        proof {
            reveal(x_steps);
            lemma_x_steps(o, c, k as int);
            assert(0 <= k * ax <= 0x2_0000_0000 * 0x1_0000_0000) by (nonlinear_arith)
                requires
                    0 <= k <= 0x2_0000_0000,
                    0 <= ax <= 0x1_0000_0000,
            ;
        }
        let along_x: i128 = (k * ax + n / 2) / n;
        let along_y: i128 = k - along_x;
        let x: i128 = if c.x >= o.x {
            o.x as i128 + along_x
        } else {
            o.x as i128 - along_x
        };
        let y: i128 = if c.y >= o.y {
            o.y as i128 + along_y
        } else {
            o.y as i128 - along_y
        };
        let p = Location { x: x as i32, y: y as i32, z: o.z };
        assert(p == line_point(o, c, k as int));
        if is_opaque(t, p, ice_blocks) {
            return false;
        }
        k = k + 1;
    }
    true
}

/// Whether `c` is seen from `o` within `radius`.
pub fn can_see(t: &HashMap<u128, Terrain>, o: Location, c: Location, radius: u32, ice_blocks: bool) -> (r:
    bool)
    ensures
        r == sees(t@, o, c, radius, ice_blocks),
{
    within_disk(o, c, radius) && (line_is_clear(t, o, c, ice_blocks) || line_is_clear(
        t,
        c,
        o,
        ice_blocks,
    ))
}

/// Seeing is mutual: whoever is seen from a cell sees that cell.
pub proof fn lemma_sees_symmetric(
    t: Map<u128, Terrain>,
    o: Location,
    c: Location,
    radius: u32,
    ice_blocks: bool,
)
    ensures
        sees(t, o, c, radius, ice_blocks) == sees(t, c, o, radius, ice_blocks),
{
    assert((c.x - o.x) * (c.x - o.x) == (o.x - c.x) * (o.x - c.x)) by (nonlinear_arith);
    assert((c.y - o.y) * (c.y - o.y) == (o.y - c.y) * (o.y - c.y)) by (nonlinear_arith);
}

/// A cell sees itself, at any radius.
pub proof fn lemma_sees_itself(t: Map<u128, Terrain>, o: Location, radius: u32, ice_blocks: bool)
    ensures
        sees(t, o, o, radius, ice_blocks),
{
    assert(0 <= radius * radius) by (nonlinear_arith);
}

/// `l` comes before row `y`, or in row `y` before column `x`.
pub open spec fn scanned(l: Location, x: int, y: int) -> bool {
    l.y < y || (l.y == y && l.x < x)
}

/// The cells of `s` come row by row, and from west to east in each row.
pub open spec fn row_major(s: Seq<Location>) -> bool {
    forall|i: int, j: int|
        0 <= i < j < s.len() ==> scanned(#[trigger] s[i], (#[trigger] s[j]).x as int, s[j].y as int)
}

/// The least and greatest coordinate within `radius` of `v`.
fn reach_of(v: i32, radius: u32) -> (r: (i64, i64))
    ensures
        r.0 == if v - radius < i32::MIN {
            i32::MIN as int
        } else {
            v - radius
        },
        r.1 == if v + radius > i32::MAX {
            i32::MAX as int
        } else {
            v + radius
        },
{
    let lo: i64 = v as i64 - radius as i64;
    let hi: i64 = v as i64 + radius as i64;
    (
        if lo < -0x8000_0000 {
            -0x8000_0000
        } else {
            lo
        },
        if hi > 0x7fff_ffff {
            0x7fff_ffff
        } else {
            hi
        },
    )
}

/// The cells seen from `o` within `radius`, each once, row by row.
pub fn visible_cells(t: &HashMap<u128, Terrain>, o: Location, radius: u32, ice_blocks: bool) -> (r:
    Vec<Location>)
    ensures
        forall|l: Location| r@.contains(l) <==> sees(t@, o, l, radius, ice_blocks),
        r@.no_duplicates(),
        row_major(r@),
{
    let mut out: Vec<Location> = Vec::new();
    let (x_lo, x_hi) = reach_of(o.x, radius);
    let (y_lo, y_hi) = reach_of(o.y, radius);
    let mut y: i64 = y_lo;
    proof {
        assert forall|l: Location| sees(t@, o, l, radius, ice_blocks) implies l.y >= y_lo by {
            lemma_disk_in_square(o, l, radius);
        }
    }
    while y <= y_hi
        invariant
            y_lo <= y <= y_hi + 1,
            i32::MIN <= y_lo <= y_hi <= i32::MAX,
            i32::MIN <= x_lo <= x_hi <= i32::MAX,
            x_lo == (if o.x - radius < i32::MIN {
                i32::MIN as int
            } else {
                o.x - radius
            }),
            x_hi == (if o.x + radius > i32::MAX {
                i32::MAX as int
            } else {
                o.x + radius
            }),
            y_lo == (if o.y - radius < i32::MIN {
                i32::MIN as int
            } else {
                o.y - radius
            }),
            forall|l: Location|
                #[trigger] out@.contains(l) <==> sees(t@, o, l, radius, ice_blocks) && l.y < y,
            out@.no_duplicates(),
            row_major(out@),
        decreases y_hi + 1 - y,
    {
        let mut x: i64 = x_lo;
        proof {
            assert forall|l: Location| sees(t@, o, l, radius, ice_blocks) implies l.x >= x_lo by {
                lemma_disk_in_square(o, l, radius);
            }
        }
        while x <= x_hi
            invariant
                x_lo <= x <= x_hi + 1,
                y_lo <= y <= y_hi,
                i32::MIN <= y_lo <= y_hi <= i32::MAX,
                i32::MIN <= x_lo <= x_hi <= i32::MAX,
                forall|l: Location|
                    #[trigger] out@.contains(l) <==> sees(t@, o, l, radius, ice_blocks) && scanned(l, x as int, y as int),
                out@.no_duplicates(),
                row_major(out@),
            decreases x_hi + 1 - x,
        {
            let p = Location { x: x as i32, y: y as i32, z: o.z };
            let ghost before = out@;
            let hit = can_see(t, o, p, radius, ice_blocks);
            if hit {
                out.push(p);
            }
            proof {
                assert(!scanned(p, x as int, y as int));
                assert(!before.contains(p));
                assert forall|i: int, j: int| 0 <= i < j < out@.len() implies scanned(
                    #[trigger] out@[i],
                    (#[trigger] out@[j]).x as int,
                    out@[j].y as int,
                ) by {
                    if hit && j == out@.len() - 1 {
                        assert(before.contains(before[i]));
                    } else {
                        assert(scanned(before[i], before[j].x as int, before[j].y as int));
                    }
                }
                assert forall|l: Location|
                    #[trigger] out@.contains(l) <==> sees(t@, o, l, radius, ice_blocks) && scanned(l, x + 1, y as int) by {
                    assert(before.contains(l) <==> sees(t@, o, l, radius, ice_blocks) && scanned(l, x as int, y as int));
                    if hit {
                        lemma_seq_contains_after_push(before, p, l);
                    }
                    if scanned(l, x + 1, y as int) && !scanned(l, x as int, y as int) && sees(t@, o, l, radius, ice_blocks) {
                        assert(l == p);
                    }
                }
            }
            x = x + 1;
        }
        proof {
            assert forall|l: Location|
                #[trigger] out@.contains(l) <==> sees(t@, o, l, radius, ice_blocks) && l.y < y + 1 by {
                assert(scanned(l, x as int, y as int) <==> l.y < y || (l.y == y && l.x < x));
                if sees(t@, o, l, radius, ice_blocks) {
                    lemma_disk_in_square(o, l, radius);
                }
            }
        }
        y = y + 1;
    }
    proof {
        assert forall|l: Location| out@.contains(l) <==> sees(t@, o, l, radius, ice_blocks) by {
            if sees(t@, o, l, radius, ice_blocks) {
                lemma_disk_in_square(o, l, radius);
            }
        }
    }
    out
}

/// The cells of the disk of `radius` around `o`, each once, row by row:
/// what would be seen if nothing stopped the sight.
pub fn disk_cells(o: Location, radius: u32) -> (r: Vec<Location>)
    ensures
        forall|l: Location| r@.contains(l) <==> in_disk(o, l, radius),
        r@.no_duplicates(),
        row_major(r@),
{
    let mut out: Vec<Location> = Vec::new();
    let (x_lo, x_hi) = reach_of(o.x, radius);
    let (y_lo, y_hi) = reach_of(o.y, radius);
    let mut y: i64 = y_lo;
    proof {
        assert forall|l: Location| in_disk(o, l, radius) implies l.y >= y_lo by {
            lemma_disk_in_square(o, l, radius);
        }
    }
    while y <= y_hi
        invariant
            y_lo <= y <= y_hi + 1,
            i32::MIN <= y_lo <= y_hi <= i32::MAX,
            i32::MIN <= x_lo <= x_hi <= i32::MAX,
            x_lo == (if o.x - radius < i32::MIN {
                i32::MIN as int
            } else {
                o.x - radius
            }),
            x_hi == (if o.x + radius > i32::MAX {
                i32::MAX as int
            } else {
                o.x + radius
            }),
            y_lo == (if o.y - radius < i32::MIN {
                i32::MIN as int
            } else {
                o.y - radius
            }),
            forall|l: Location|
                #[trigger] out@.contains(l) <==> in_disk(o, l, radius) && l.y < y,
            out@.no_duplicates(),
            row_major(out@),
        decreases y_hi + 1 - y,
    {
        let mut x: i64 = x_lo;
        proof {
            assert forall|l: Location| in_disk(o, l, radius) implies l.x >= x_lo by {
                lemma_disk_in_square(o, l, radius);
            }
        }
        while x <= x_hi
            invariant
                x_lo <= x <= x_hi + 1,
                y_lo <= y <= y_hi,
                i32::MIN <= y_lo <= y_hi <= i32::MAX,
                i32::MIN <= x_lo <= x_hi <= i32::MAX,
                forall|l: Location|
                    #[trigger] out@.contains(l) <==> in_disk(o, l, radius) && scanned(l, x as int, y as int),
                out@.no_duplicates(),
                row_major(out@),
            decreases x_hi + 1 - x,
        {
            let p = Location { x: x as i32, y: y as i32, z: o.z };
            let ghost before = out@;
            let hit = within_disk(o, p, radius);
            if hit {
                out.push(p);
            }
            proof {
                assert(!scanned(p, x as int, y as int));
                assert(!before.contains(p));
                assert forall|i: int, j: int| 0 <= i < j < out@.len() implies scanned(
                    #[trigger] out@[i],
                    (#[trigger] out@[j]).x as int,
                    out@[j].y as int,
                ) by {
                    if hit && j == out@.len() - 1 {
                        assert(before.contains(before[i]));
                    } else {
                        assert(scanned(before[i], before[j].x as int, before[j].y as int));
                    }
                }
                assert forall|l: Location|
                    #[trigger] out@.contains(l) <==> in_disk(o, l, radius) && scanned(l, x + 1, y as int) by {
                    assert(before.contains(l) <==> in_disk(o, l, radius) && scanned(l, x as int, y as int));
                    if hit {
                        lemma_seq_contains_after_push(before, p, l);
                    }
                    if scanned(l, x + 1, y as int) && !scanned(l, x as int, y as int) && in_disk(o, l, radius) {
                        assert(l == p);
                    }
                }
            }
            x = x + 1;
        }
        proof {
            assert forall|l: Location|
                #[trigger] out@.contains(l) <==> in_disk(o, l, radius) && l.y < y + 1 by {
                assert(scanned(l, x as int, y as int) <==> l.y < y || (l.y == y && l.x < x));
                if in_disk(o, l, radius) {
                    lemma_disk_in_square(o, l, radius);
                }
            }
        }
        y = y + 1;
    }
    proof {
        assert forall|l: Location| out@.contains(l) <==> in_disk(o, l, radius) by {
            if in_disk(o, l, radius) {
                lemma_disk_in_square(o, l, radius);
            }
        }
    }
    out
}

} // verus!
