use vstd::arithmetic::div_mod::{lemma_fundamental_div_mod, lemma_fundamental_div_mod_converse};
use vstd::prelude::*;

verus! {

/// An RGBA color, one byte per channel.
#[derive(Clone, Copy, Debug, PartialEq, Eq, Structural)]
pub struct Rgba {
    pub r: u8,
    pub g: u8,
    pub b: u8,
    pub a: u8,
}

impl Rgba {
    /// The byte of channel `k` (0 red, 1 green, 2 blue, 3 alpha).
    pub open spec fn channel(self, k: int) -> u8 {
        if k == 0 {
            self.r
        } else if k == 1 {
            self.g
        } else if k == 2 {
            self.b
        } else {
            self.a
        }
    }
}

/// Writes `color` to every pixel of `frame`.
pub fn clear(frame: &mut [u8], color: Rgba)
    requires
        old(frame)@.len() % 4 == 0,
    ensures
        final(frame)@.len() == old(frame)@.len(),
        forall|i: int| 0 <= i < final(frame)@.len() ==> final(frame)@[i] == color.channel(i % 4),
{
    let n = frame.len();
    let mut p: usize = 0;
    while p < n
        invariant
            n == frame@.len(),
            n % 4 == 0,
            p % 4 == 0,
            p <= n,
            forall|i: int| 0 <= i < p ==> frame@[i] == color.channel(i % 4),
        decreases n - p,
    {
        frame[p] = color.r;
        frame[p + 1] = color.g;
        frame[p + 2] = color.b;
        frame[p + 3] = color.a;
        p = p + 4;
    }
}

/// The grid cell `(x, y)` that byte `i` of a frame `width` pixels wide belongs to.
pub open spec fn pixel_of(width: int, i: int) -> (int, int) {
    ((i / 4) % width, (i / 4) / width)
}

/// Whether `(x, y)` lies on a `width` by `height` grid.
pub open spec fn in_grid(width: int, height: int, x: int, y: int) -> bool {
    0 <= x < width && 0 <= y < height
}

/// The byte at channel `k` of a pixel whose old byte there is `old`, after the
/// color's red, green and blue replace the pixel's and `alpha` is added to its
/// alpha, stopping at 255.
pub open spec fn blend_channel(old: u8, color: Rgba, alpha: u8, k: int) -> u8 {
    if k < 3 {
        color.channel(k)
    } else if old + alpha > 255 {
        255
    } else {
        (old + alpha) as u8
    }
}

/// Every byte of a `width` by `height` frame lies on the grid, and the four
/// bytes of cell `(x, y)` start at `4 * (y * width + x)`.
pub proof fn lemma_pixel_bytes(width: int, height: int, x: int, y: int, i: int)
    requires
        0 <= width,
        0 <= height,
        0 <= i < 4 * width * height,
    ensures
        in_grid(width, height, pixel_of(width, i).0, pixel_of(width, i).1),
        in_grid(width, height, x, y) ==> (pixel_of(width, i) == (x, y) <==> 4 * (y * width + x)
            <= i < 4 * (y * width + x) + 4),
{
    assert(0 < width) by (nonlinear_arith)
        requires
            0 <= width,
            0 <= i < 4 * width * height,
    ;
    let q = i / 4;
    lemma_fundamental_div_mod(i, 4);
    lemma_fundamental_div_mod(q, width);
    assert(0 <= q < width * height) by (nonlinear_arith)
        requires
            q == i / 4,
            0 <= i < 4 * width * height,
    ;
    assert(q / width < height) by (nonlinear_arith)
        requires
            0 <= q < width * height,
            0 < width,
            q == width * (q / width) + q % width,
            0 <= q % width < width,
    ;
    if in_grid(width, height, x, y) {
        let p = y * width + x;
        if 4 * p <= i < 4 * p + 4 {
            lemma_fundamental_div_mod_converse(i, 4, p, i - 4 * p);
            lemma_fundamental_div_mod_converse(q, width, y, x);
        }
        if pixel_of(width, i) == (x, y) {
            assert(q == y * width + x) by (nonlinear_arith)
                requires
                    q == width * (q / width) + q % width,
                    q % width == x,
                    q / width == y,
            ;
        }
    }
}

/// The offset of the first byte of cell `(x, y)`.
fn pixel_offset(width: usize, height: usize, x: usize, y: usize) -> (r: usize)
    requires
        x < width,
        y < height,
        4 * width * height <= usize::MAX,
    ensures
        r == 4 * (y * width + x),
        r + 4 <= 4 * width * height,
{
    assert(4 * (y * width + x) + 4 <= 4 * width * height) by (nonlinear_arith)
        requires
            x < width,
            y < height,
    ;
    4 * (y * width + x)
}

/// Overwrites the four bytes of cell `(x, y)` with `color`; a cell off the grid
/// leaves the frame as it was.
pub fn set_pixel(frame: &mut [u8], width: usize, height: usize, x: i64, y: i64, color: Rgba)
    requires
        old(frame)@.len() == 4 * width * height,
    ensures
        final(frame)@.len() == old(frame)@.len(),
        forall|i: int|
            0 <= i < final(frame)@.len() ==> final(frame)@[i] == if pixel_of(width as int, i) == (
                x as int,
                y as int,
            ) {
                color.channel(i % 4)
            } else {
                old(frame)@[i]
            },
{
    proof {
        assert forall|i: int| 0 <= i < frame@.len() implies pixel_of(width as int, i) != (
            x as int,
            y as int,
        ) || in_grid(width as int, height as int, x as int, y as int) by {
            lemma_pixel_bytes(width as int, height as int, x as int, y as int, i);
        }
    }
    if x < 0 || y < 0 || x as u64 >= width as u64 || y as u64 >= height as u64 {
        return;
    }
    let n = frame.len();
    let p = pixel_offset(width, height, x as usize, y as usize);
    frame[p] = color.r;
    frame[p + 1] = color.g;
    frame[p + 2] = color.b;
    frame[p + 3] = color.a;
    proof {
        assert forall|i: int| 0 <= i < frame@.len() implies (pixel_of(width as int, i) == (
            x as int,
            y as int,
        ) <==> p <= i < p + 4) by {
            lemma_pixel_bytes(width as int, height as int, x as int, y as int, i);
        }
    }
}

/// Replaces the red, green and blue of cell `(x, y)` with those of `color`
/// and adds `alpha` to its alpha, stopping at 255; a cell off the grid leaves
/// the frame as it was.
pub fn blend_pixel(
    frame: &mut [u8],
    width: usize,
    height: usize,
    x: i64,
    y: i64,
    color: Rgba,
    alpha: u8,
)
    requires
        old(frame)@.len() == 4 * width * height,
    ensures
        final(frame)@.len() == old(frame)@.len(),
        forall|i: int|
            0 <= i < final(frame)@.len() ==> final(frame)@[i] == if pixel_of(width as int, i) == (
                x as int,
                y as int,
            ) {
                blend_channel(old(frame)@[i], color, alpha, i % 4)
            } else {
                old(frame)@[i]
            },
{
    proof {
        assert forall|i: int| 0 <= i < frame@.len() implies pixel_of(width as int, i) != (
            x as int,
            y as int,
        ) || in_grid(width as int, height as int, x as int, y as int) by {
            lemma_pixel_bytes(width as int, height as int, x as int, y as int, i);
        }
    }
    if x < 0 || y < 0 || x as u64 >= width as u64 || y as u64 >= height as u64 {
        return;
    }
    let n = frame.len();
    let p = pixel_offset(width, height, x as usize, y as usize);
    let old_alpha = frame[p + 3];
    frame[p] = color.r;
    frame[p + 1] = color.g;
    frame[p + 2] = color.b;
    frame[p + 3] = old_alpha.saturating_add(alpha);
    proof {
        assert forall|i: int| 0 <= i < frame@.len() implies (pixel_of(width as int, i) == (
            x as int,
            y as int,
        ) <==> p <= i < p + 4) by {
            lemma_pixel_bytes(width as int, height as int, x as int, y as int, i);
        }
    }
}

} // verus!
