use vstd::prelude::*;

use crate::frame::{blend_channel, blend_pixel, pixel_of, set_pixel, Rgba};

verus! {

/// The distance between two integers.
pub open spec fn dist(a: int, b: int) -> nat {
    if a < b {
        (b - a) as nat
    } else {
        (a - b) as nat
    }
}

/// The coordinate `k` steps from `a` in the direction of `b`.
pub open spec fn toward(a: int, b: int, k: int) -> int {
    if a < b {
        a + k
    } else {
        a - k
    }
}

/// Integer-error line stepping, counted in steps taken: from `ax` steps along x
/// and `ay` along y, with error term `err`, on a line that spans `dx` columns
/// and `dy` rows. Each step doubles the error once, steps along x when that is
/// at least `-dy` and along y when it is at most `dx`; the walk stops at the
/// far corner, or when a step is due along an axis that is already done.
pub open spec fn walk(dx: nat, dy: nat, ax: int, ay: int, err: int) -> Seq<(int, int)>
    decreases (if ax < dx {
        dx - ax
    } else {
        0
    }) + (if ay < dy {
        dy - ay
    } else {
        0
    }),
{
    if ax >= dx && ay >= dy {
        seq![(ax, ay)]
    } else {
        let step_x = 2 * err >= -dy;
        let step_y = 2 * err <= dx;
        if (step_x && ax >= dx) || (step_y && ay >= dy) {
            seq![(ax, ay)]
        } else {
            let nx = if step_x {
                ax + 1
            } else {
                ax
            };
            let ny = if step_y {
                ay + 1
            } else {
                ay
            };
            let ne = err + (if step_x {
                -dy
            } else {
                0
            }) + (if step_y {
                dx as int
            } else {
                0
            });
            seq![(ax, ay)] + walk(dx, dy, nx, ny, ne)
        }
    }
}

/// The grid cell reached after `p.0` steps along x and `p.1` along y on the
/// line from `(x0, y0)` to `(x1, y1)`.
pub open spec fn line_point(x0: int, y0: int, x1: int, y1: int, p: (int, int)) -> (int, int) {
    (toward(x0, x1, p.0), toward(y0, y1, p.1))
}

/// The grid cells of a sequence of step counts.
pub open spec fn cells_of(x0: int, y0: int, x1: int, y1: int, steps: Seq<(int, int)>) -> Seq<
    (int, int),
> {
    steps.map_values(|p: (int, int)| line_point(x0, y0, x1, y1, p))
}

/// The step counts of the line from `(x0, y0)` to `(x1, y1)`, in order.
pub open spec fn line_steps(x0: int, y0: int, x1: int, y1: int) -> Seq<(int, int)> {
    let dx = dist(x0, x1);
    let dy = dist(y0, y1);
    walk(dx, dy, 0, 0, dx - dy)
}

/// The grid cells that the line from `(x0, y0)` to `(x1, y1)` visits, in order.
pub open spec fn line_cells(x0: int, y0: int, x1: int, y1: int) -> Seq<(int, int)> {
    cells_of(x0, y0, x1, y1, line_steps(x0, y0, x1, y1))
}

/// The alpha that a fading line from `(x0, y0)` to `(x1, y1)` adds at cell
/// `(x, y)`: `a` times the squared distance of the cell from the start over the
/// squared length of the line, so that it grows from nothing at the start to
/// `a` at the end.
pub open spec fn fade_alpha(a: u8, x0: int, y0: int, x1: int, y1: int, x: int, y: int) -> u8 {
    let d = dist(x0, x1) * dist(x0, x1) + dist(y0, y1) * dist(y0, y1);
    let s = dist(x0, x) * dist(x0, x) + dist(y0, y) * dist(y0, y);
    ((a as int) * (s as int) / (d as int)) as u8
}

/// Channel `k` of line cell `cell`, over a pixel whose old byte there is `old`.
pub open spec fn line_byte(
    old: u8,
    color: Rgba,
    fade: bool,
    x0: int,
    y0: int,
    x1: int,
    y1: int,
    cell: (int, int),
    k: int,
) -> u8 {
    if fade {
        blend_channel(old, color, fade_alpha(color.a, x0, y0, x1, y1, cell.0, cell.1), k)
    } else {
        color.channel(k)
    }
}

/// What `draw_line` makes of a frame: each byte of a cell on the line is
/// painted, every other byte is kept.
pub open spec fn drawn(
    frame: Seq<u8>,
    width: int,
    cells: Seq<(int, int)>,
    color: Rgba,
    fade: bool,
    x0: int,
    y0: int,
    x1: int,
    y1: int,
) -> Seq<u8> {
    Seq::new(
        frame.len(),
        |i: int|
            if cells.contains(pixel_of(width, i)) {
                line_byte(frame[i], color, fade, x0, y0, x1, y1, pixel_of(width, i), i % 4)
            } else {
                frame[i]
            },
    )
}

/// `a * s / d`, for `s <= d`: the alpha of a fading line at a cell.
fn fade_at(a: u8, dx: u64, dy: u64, ax: u64, ay: u64) -> (r: u8)
    requires
        ax <= dx <= u32::MAX,
        ay <= dy <= u32::MAX,
        dx + dy > 0,
    ensures
        r as int == (a as int) * (ax * ax + ay * ay) / (dx * dx + dy * dy),
        r <= a,
{
    assert(ax * ax <= dx * dx <= u32::MAX * u32::MAX) by (nonlinear_arith)
        requires
            ax <= dx <= u32::MAX,
    ;
    assert(ay * ay <= dy * dy <= u32::MAX * u32::MAX) by (nonlinear_arith)
        requires
            ay <= dy <= u32::MAX,
    ;
    assert(dx * dx + dy * dy > 0) by (nonlinear_arith)
        requires
            dx + dy > 0,
    ;
    let s: u128 = (ax as u128) * (ax as u128) + (ay as u128) * (ay as u128);
    let d: u128 = (dx as u128) * (dx as u128) + (dy as u128) * (dy as u128);
    assert(a * s <= 255 * d) by (nonlinear_arith)
        requires
            s <= d,
            a <= 255,
    ;
    let q: u128 = (a as u128) * s / d;
    assert(q <= a) by (nonlinear_arith)
        requires
            q == (a as int) * (s as int) / (d as int),
            s <= d,
            d > 0,
    ;
    q as u8
}

/// The error term after `ax` steps along x and `ay` along y, on a line that
/// spans `dx` columns and `dy` rows, and the bounds on the steps.
pub open spec fn walk_inv(dx: nat, dy: nat, ax: int, ay: int, err: int) -> bool {
    0 <= ax <= dx && 0 <= ay <= dy && err == dx * (1 + ay) - dy * (1 + ax)
}

/// One step of a walk: along x, along y, or both, by one.
pub open spec fn is_step(p: (int, int), q: (int, int)) -> bool {
    (q == (p.0 + 1, p.1)) || (q == (p.0, p.1 + 1)) || (q == (p.0 + 1, p.1 + 1))
}

/// From a state that keeps `walk_inv`, the walk never stops early: it starts
/// where it stands, moves by single steps and ends at the far corner `(dx, dy)`.
pub proof fn lemma_walk(dx: nat, dy: nat, ax: int, ay: int, err: int)
    requires
        walk_inv(dx, dy, ax, ay, err),
    ensures
        walk(dx, dy, ax, ay, err).len() >= 1,
        walk(dx, dy, ax, ay, err)[0] == (ax, ay),
        walk(dx, dy, ax, ay, err).last() == (dx as int, dy as int),
        forall|k: int|
            0 <= k < walk(dx, dy, ax, ay, err).len() - 1 ==> is_step(
                #[trigger] walk(dx, dy, ax, ay, err)[k],
                walk(dx, dy, ax, ay, err)[k + 1],
            ),
        forall|k: int|
            0 <= k < walk(dx, dy, ax, ay, err).len() ==> ax <= (#[trigger] walk(
                dx,
                dy,
                ax,
                ay,
                err,
            )[k]).0 <= dx && ay <= walk(dx, dy, ax, ay, err)[k].1 <= dy,
        forall|j: int, k: int|
            0 <= j < k < walk(dx, dy, ax, ay, err).len() ==> (#[trigger] walk(
                dx,
                dy,
                ax,
                ay,
                err,
            )[j]).0 <= (#[trigger] walk(dx, dy, ax, ay, err)[k]).0 && walk(dx, dy, ax, ay, err)[j].1
                <= walk(dx, dy, ax, ay, err)[k].1 && walk(dx, dy, ax, ay, err)[j].0 + walk(
                dx,
                dy,
                ax,
                ay,
                err,
            )[j].1 < walk(dx, dy, ax, ay, err)[k].0 + walk(dx, dy, ax, ay, err)[k].1,
    decreases (dx - ax) + (dy - ay),
{
    let w = walk(dx, dy, ax, ay, err);
    if ax >= dx && ay >= dy {
        return;
    }
    let step_x = 2 * err >= -dy;
    let step_y = 2 * err <= dx;
    if step_x && ax >= dx {
        assert(false) by (nonlinear_arith)
            requires
                ax == dx,
                0 <= ay < dy,
                err == dx * (1 + ay) - dy * (1 + ax),
                2 * err >= -dy,
        ;
    }
    if step_y && ay >= dy {
        assert(false) by (nonlinear_arith)
            requires
                ay == dy,
                0 <= ax < dx,
                err == dx * (1 + ay) - dy * (1 + ax),
                2 * err <= dx,
        ;
    }
    let nx = if step_x {
        ax + 1
    } else {
        ax
    };
    let ny = if step_y {
        ay + 1
    } else {
        ay
    };
    let ne = err + (if step_x {
        -dy
    } else {
        0
    }) + (if step_y {
        dx as int
    } else {
        0
    });
    assert(ne == dx * (1 + ny) - dy * (1 + nx)) by (nonlinear_arith)
        requires
            err == dx * (1 + ay) - dy * (1 + ax),
            nx == ax + 1 || nx == ax,
            ny == ay + 1 || ny == ay,
            ne == err + (if nx == ax + 1 {
                -dy
            } else {
                0
            }) + (if ny == ay + 1 {
                dx as int
            } else {
                0
            }),
    ;
    lemma_walk(dx, dy, nx, ny, ne);
    let rest = walk(dx, dy, nx, ny, ne);
    assert(w == seq![(ax, ay)] + rest);
    assert forall|k: int| 0 <= k < w.len() - 1 implies is_step(#[trigger] w[k], w[k + 1]) by {
        if k > 0 {
            assert(w[k] == rest[k - 1]);
            assert(w[k + 1] == rest[k]);
        }
    }
    assert forall|k: int| 0 <= k < w.len() implies ax <= (#[trigger] w[k]).0 <= dx && ay <= w[k].1
        <= dy by {
        if k > 0 {
            assert(w[k] == rest[k - 1]);
        }
    }
    assert forall|j: int, k: int| 0 <= j < k < w.len() implies (#[trigger] w[j]).0 <= (
    #[trigger] w[k]).0 && w[j].1 <= w[k].1 && w[j].0 + w[j].1 < w[k].0 + w[k].1 by {
        assert(w[k] == rest[k - 1]);
        if j > 0 {
            assert(w[j] == rest[j - 1]);
        }
    }
}

/// Whether `c` and `d` are distinct cells that touch at a side or a corner.
pub open spec fn adjacent(c: (int, int), d: (int, int)) -> bool {
    c != d && dist(c.0, d.0) <= 1 && dist(c.1, d.1) <= 1
}

/// The cells of any line form a path without gaps: it starts at `(x0, y0)`,
/// ends at `(x1, y1)`, each cell touches the next, and no cell comes twice, so
/// each endpoint is visited exactly once.
pub proof fn lemma_line_path(x0: int, y0: int, x1: int, y1: int)
    ensures
        line_cells(x0, y0, x1, y1).len() >= 1,
        line_cells(x0, y0, x1, y1)[0] == (x0, y0),
        line_cells(x0, y0, x1, y1).last() == (x1, y1),
        forall|k: int|
            0 <= k < line_cells(x0, y0, x1, y1).len() - 1 ==> adjacent(
                #[trigger] line_cells(x0, y0, x1, y1)[k],
                line_cells(x0, y0, x1, y1)[k + 1],
            ),
        forall|j: int, k: int|
            0 <= j < k < line_cells(x0, y0, x1, y1).len() ==> #[trigger] line_cells(
                x0,
                y0,
                x1,
                y1,
            )[j] != #[trigger] line_cells(x0, y0, x1, y1)[k],
{
    let dx = dist(x0, x1);
    let dy = dist(y0, y1);
    let w = walk(dx, dy, 0, 0, dx - dy);
    let c = line_cells(x0, y0, x1, y1);
    assert(walk_inv(dx, dy, 0, 0, dx - dy));
    lemma_walk(dx, dy, 0, 0, dx - dy);
    assert(c[c.len() - 1] == line_point(x0, y0, x1, y1, w[w.len() - 1]));
    assert forall|k: int| 0 <= k < c.len() - 1 implies adjacent(#[trigger] c[k], c[k + 1]) by {
        assert(is_step(w[k], w[k + 1]));
    }
    assert forall|j: int, k: int| 0 <= j < k < c.len() implies #[trigger] c[j] != #[trigger] c[k] by {
        assert(w[j].0 <= w[k].0 && w[j].0 + w[j].1 < w[k].0 + w[k].1);
        assert(0 <= w[j].0 && 0 <= w[j].1);
    }
}

/// A line whose two endpoints are the same cell visits that cell alone.
pub proof fn lemma_line_single_point(x: int, y: int)
    ensures
        line_cells(x, y, x, y) == seq![(x, y)],
{
    assert(line_cells(x, y, x, y) =~= seq![(x, y)]);
}

/// The walk along a single row visits each column from `ax` to `dx` once.
proof fn lemma_walk_row(dx: nat, ax: int)
    requires
        0 <= ax <= dx,
    ensures
        walk(dx, 0, ax, 0, dx as int).len() == dx - ax + 1,
        forall|k: int|
            0 <= k < walk(dx, 0, ax, 0, dx as int).len() ==> #[trigger] walk(
                dx,
                0,
                ax,
                0,
                dx as int,
            )[k] == (ax + k, 0int),
    decreases dx - ax,
{
    if ax < dx {
        lemma_walk_row(dx, ax + 1);
        let rest = walk(dx, 0, ax + 1, 0, dx as int);
        assert(walk(dx, 0, ax, 0, dx as int) == seq![(ax, 0int)] + rest);
        assert forall|k: int| 0 < k < walk(dx, 0, ax, 0, dx as int).len() implies #[trigger] walk(
            dx,
            0,
            ax,
            0,
            dx as int,
        )[k] == (ax + k, 0int) by {
            assert(rest[k - 1] == (ax + 1 + (k - 1), 0int));
        }
    }
}

/// The walk along a single column visits each row from `ay` to `dy` once.
proof fn lemma_walk_column(dy: nat, ay: int)
    requires
        0 <= ay <= dy,
    ensures
        walk(0, dy, 0, ay, -dy).len() == dy - ay + 1,
        forall|k: int|
            0 <= k < walk(0, dy, 0, ay, -dy).len() ==> #[trigger] walk(0, dy, 0, ay, -dy)[k] == (
                0int,
                ay + k,
            ),
    decreases dy - ay,
{
    if ay < dy {
        lemma_walk_column(dy, ay + 1);
        let rest = walk(0, dy, 0, ay + 1, -dy);
        assert(walk(0, dy, 0, ay, -dy) == seq![(0int, ay)] + rest);
        assert forall|k: int| 0 < k < walk(0, dy, 0, ay, -dy).len() implies #[trigger] walk(
            0,
            dy,
            0,
            ay,
            -dy,
        )[k] == (0int, ay + k) by {
            assert(rest[k - 1] == (0int, ay + 1 + (k - 1)));
        }
    }
}

/// A horizontal line visits every cell of its row between the endpoints, in
/// order and once each; so does a vertical line in its column.
pub proof fn lemma_line_straight(x0: int, y0: int, x1: int, y1: int)
    ensures
        y0 == y1 ==> line_cells(x0, y0, x1, y1).len() == dist(x0, x1) + 1 && forall|k: int|
            0 <= k < line_cells(x0, y0, x1, y1).len() ==> #[trigger] line_cells(x0, y0, x1, y1)[k]
                == (toward(x0, x1, k), y0),
        x0 == x1 ==> line_cells(x0, y0, x1, y1).len() == dist(y0, y1) + 1 && forall|k: int|
            0 <= k < line_cells(x0, y0, x1, y1).len() ==> #[trigger] line_cells(x0, y0, x1, y1)[k]
                == (x0, toward(y0, y1, k)),
{
    let c = line_cells(x0, y0, x1, y1);
    if y0 == y1 {
        let dx = dist(x0, x1);
        lemma_walk_row(dx, 0);
        assert(line_steps(x0, y0, x1, y1) == walk(dx, 0, 0, 0, dx as int));
        assert forall|k: int| 0 <= k < c.len() implies #[trigger] c[k] == (toward(x0, x1, k), y0) by {
            assert(walk(dx, 0, 0, 0, dx as int)[k] == (k, 0int));
        }
    }
    if x0 == x1 {
        let dy = dist(y0, y1);
        lemma_walk_column(dy, 0);
        assert(line_steps(x0, y0, x1, y1) == walk(0, dy, 0, 0, -dy));
        assert forall|k: int| 0 <= k < c.len() implies #[trigger] c[k] == (x0, toward(y0, y1, k)) by {
            assert(walk(0, dy, 0, 0, -dy)[k] == (0int, k));
        }
    }
}

/// With fading, the end `(x1, y1)` gets the color's full alpha, and the alpha
/// never grows from a cell of the line to an earlier one: it falls, or stays,
/// going from the end back toward the start.
pub proof fn lemma_fade_alpha(a: u8, x0: int, y0: int, x1: int, y1: int)
    requires
        x0 != x1 || y0 != y1,
    ensures
        fade_alpha(a, x0, y0, x1, y1, x1, y1) == a,
        forall|j: int, k: int|
            0 <= j < k < line_cells(x0, y0, x1, y1).len() ==> fade_alpha(
                a,
                x0,
                y0,
                x1,
                y1,
                (#[trigger] line_cells(x0, y0, x1, y1)[j]).0,
                line_cells(x0, y0, x1, y1)[j].1,
            ) <= fade_alpha(
                a,
                x0,
                y0,
                x1,
                y1,
                (#[trigger] line_cells(x0, y0, x1, y1)[k]).0,
                line_cells(x0, y0, x1, y1)[k].1,
            ),
{
    let dx = dist(x0, x1);
    let dy = dist(y0, y1);
    let d: int = (dx * dx + dy * dy) as int;
    assert(d > 0) by (nonlinear_arith)
        requires
            d == dx * dx + dy * dy,
            dx > 0 || dy > 0,
    ;
    assert((a as int) * d / d == a) by (nonlinear_arith)
        requires
            d > 0,
    ;
    let w = walk(dx, dy, 0, 0, dx - dy);
    let c = line_cells(x0, y0, x1, y1);
    assert(walk_inv(dx, dy, 0, 0, dx - dy));
    lemma_walk(dx, dy, 0, 0, dx - dy);
    assert forall|j: int, k: int| 0 <= j < k < c.len() implies fade_alpha(
        a,
        x0,
        y0,
        x1,
        y1,
        (#[trigger] c[j]).0,
        c[j].1,
    ) <= fade_alpha(a, x0, y0, x1, y1, (#[trigger] c[k]).0, c[k].1) by {
        let p = w[j];
        let q = w[k];
        assert(0 <= p.0 <= q.0 <= dx && 0 <= p.1 <= q.1 <= dy);
        assert(dist(x0, c[j].0) == p.0 && dist(y0, c[j].1) == p.1);
        assert(dist(x0, c[k].0) == q.0 && dist(y0, c[k].1) == q.1);
        let sp = p.0 * p.0 + p.1 * p.1;
        let sq = q.0 * q.0 + q.1 * q.1;
        assert(0 <= sp <= sq <= d) by (nonlinear_arith)
            requires
                0 <= p.0 <= q.0 <= dx,
                0 <= p.1 <= q.1 <= dy,
                sp == p.0 * p.0 + p.1 * p.1,
                sq == q.0 * q.0 + q.1 * q.1,
                d == dx * dx + dy * dy,
        ;
        assert((a as int) * sp / d <= (a as int) * sq / d <= a) by (nonlinear_arith)
            requires
                0 <= sp <= sq <= d,
                d > 0,
                0 <= a,
        ;
    }
}

/// A cell is on the cells of `steps.push(p)` exactly when it is on those of
/// `steps` or is the cell of `p`.
proof fn lemma_cells_push(x0: int, y0: int, x1: int, y1: int, steps: Seq<(int, int)>, p: (int, int))
    ensures
        forall|c: (int, int)|
            cells_of(x0, y0, x1, y1, steps.push(p)).contains(c) <==> (cells_of(
                x0,
                y0,
                x1,
                y1,
                steps,
            ).contains(c) || c == line_point(x0, y0, x1, y1, p)),
{
    let a = cells_of(x0, y0, x1, y1, steps);
    let b = cells_of(x0, y0, x1, y1, steps.push(p));
    assert(b =~= a.push(line_point(x0, y0, x1, y1, p)));
    assert forall|c: (int, int)| b.contains(c) <==> (a.contains(c) || c == line_point(
        x0,
        y0,
        x1,
        y1,
        p,
    )) by {
        if a.contains(c) {
            let k = choose|k: int| 0 <= k < a.len() && a[k] == c;
            assert(b[k] == c);
        }
        if c == line_point(x0, y0, x1, y1, p) {
            assert(b[a.len() as int] == c);
        }
        if b.contains(c) {
            let k = choose|k: int| 0 <= k < b.len() && b[k] == c;
            if k < a.len() {
                assert(a[k] == c);
            }
        }
    }
}

/// Draws the line from `(x0, y0)` to `(x1, y1)` into a `width` by `height`
/// frame, one cell at a time along `line_cells`; cells off the grid are
/// skipped. Without `fade` each cell takes `color`; with it, each cell takes
/// the color's red, green and blue, and `fade_alpha` is added to its alpha.
pub fn draw_line(
    frame: &mut [u8],
    width: usize,
    height: usize,
    x0: i32,
    y0: i32,
    x1: i32,
    y1: i32,
    color: Rgba,
    fade: bool,
)
    requires
        old(frame)@.len() == 4 * width * height,
        fade ==> (x0 != x1 || y0 != y1),
    ensures
        final(frame)@ == drawn(
            old(frame)@,
            width as int,
            line_cells(x0 as int, y0 as int, x1 as int, y1 as int),
            color,
            fade,
            x0 as int,
            y0 as int,
            x1 as int,
            y1 as int,
        ),
{
    let ghost start = frame@;
    let ghost full = line_steps(x0 as int, y0 as int, x1 as int, y1 as int);
    let dx: i64 = if x0 < x1 {
        x1 as i64 - x0 as i64
    } else {
        x0 as i64 - x1 as i64
    };
    let dy: i64 = if y0 < y1 {
        y1 as i64 - y0 as i64
    } else {
        y0 as i64 - y1 as i64
    };
    let sx: i64 = if x0 < x1 {
        1
    } else {
        -1
    };
    let sy: i64 = if y0 < y1 {
        1
    } else {
        -1
    };
    let ghost gdx: nat = dx as nat;
    let ghost gdy: nat = dy as nat;
    let mut err: i64 = dx - dy;
    let mut x: i64 = x0 as i64;
    let mut y: i64 = y0 as i64;
    let ghost mut ax: int = 0;
    let ghost mut ay: int = 0;
    let ghost mut visited: Seq<(int, int)> = seq![];
    assert(visited + walk(gdx, gdy, ax, ay, err as int) =~= full);
    loop
        invariant_except_break
            visited + walk(gdx, gdy, ax, ay, err as int) == full,
            forall|k: int|
                0 <= k < visited.len() ==> visited[k].0 <= ax && visited[k].1 <= ay && visited[k].0
                    + visited[k].1 < ax + ay,
        invariant
            frame@.len() == start.len(),
            start == old(frame)@,
            start.len() == 4 * width * height,
            fade ==> (x0 != x1 || y0 != y1),
            gdx == dist(x0 as int, x1 as int),
            gdy == dist(y0 as int, y1 as int),
            dx == gdx,
            dy == gdy,
            sx == (if x0 < x1 {
                1int
            } else {
                -1
            }),
            sy == (if y0 < y1 {
                1int
            } else {
                -1
            }),
            full == walk(gdx, gdy, 0, 0, gdx - gdy),
            0 <= ax <= dx,
            0 <= ay <= dy,
            x == toward(x0 as int, x1 as int, ax),
            y == toward(y0 as int, y1 as int, ay),
            -2 * dy <= err <= 2 * dx,
            frame@ == drawn(
                start,
                width as int,
                cells_of(x0 as int, y0 as int, x1 as int, y1 as int, visited),
                color,
                fade,
                x0 as int,
                y0 as int,
                x1 as int,
                y1 as int,
            ),
        ensures
            visited == full,
            frame@ == drawn(
                start,
                width as int,
                cells_of(x0 as int, y0 as int, x1 as int, y1 as int, visited),
                color,
                fade,
                x0 as int,
                y0 as int,
                x1 as int,
                y1 as int,
            ),
        decreases (dx - ax) + (dy - ay),
    {
        let ghost before = frame@;
        let ghost here = (ax, ay);
        let ghost c = line_point(x0 as int, y0 as int, x1 as int, y1 as int, here);
        proof {
            let cv = cells_of(x0 as int, y0 as int, x1 as int, y1 as int, visited);
            assert(!cv.contains(c)) by {
                if cv.contains(c) {
                    let k = choose|k: int| 0 <= k < cv.len() && #[trigger] cv[k] == c;
                    assert(line_point(x0 as int, y0 as int, x1 as int, y1 as int, visited[k]) == c);
                }
            }
        }
        if fade {
            let px: u64 = if x >= x0 as i64 {
                (x - x0 as i64) as u64
            } else {
                (x0 as i64 - x) as u64
            };
            let py: u64 = if y >= y0 as i64 {
                (y - y0 as i64) as u64
            } else {
                (y0 as i64 - y) as u64
            };
            let alpha = fade_at(color.a, dx as u64, dy as u64, px, py);
            blend_pixel(frame, width, height, x, y, color, alpha);
        } else {
            set_pixel(frame, width, height, x, y, color);
        }
        proof {
            lemma_cells_push(x0 as int, y0 as int, x1 as int, y1 as int, visited, here);
            visited = visited.push(here);
            assert(frame@ =~= drawn(
                start,
                width as int,
                cells_of(x0 as int, y0 as int, x1 as int, y1 as int, visited),
                color,
                fade,
                x0 as int,
                y0 as int,
                x1 as int,
                y1 as int,
            ));
        }
        if x == x1 as i64 && y == y1 as i64 {
            assert(visited =~= full);
            break;
        }
        let e2: i64 = 2 * err;
        if e2 >= -dy {
            if x == x1 as i64 {
                assert(visited =~= full);
                break;
            }
            err = err - dy;
            x = x + sx;
            proof {
                ax = ax + 1;
            }
        }
        if e2 <= dx {
            if y == y1 as i64 {
                assert(visited =~= full);
                break;
            }
            err = err + dx;
            y = y + sy;
            proof {
                ay = ay + 1;
            }
        }
        assert(visited + walk(gdx, gdy, ax, ay, err as int) =~= full);
    }
}

} // verus!
