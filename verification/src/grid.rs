//! Block tiling of the image.
//!
//! The image is split into a row-major grid of rectangular regions, each at
//! most one configured block in size; regions in the last column and row are
//! clipped to the image boundary. The grid also answers, for a pixel, which
//! neighbouring block centre lies in each diagonal direction, which is what
//! the cross-block interpolation is anchored on.

use vstd::arithmetic::div_mod::{
    lemma_div_pos_is_pos, lemma_fundamental_div_mod, lemma_fundamental_div_mod_converse,
    lemma_mod_division_less_than_divisor, lemma_multiply_divide_lt,
};
use vstd::arithmetic::mul::{lemma_mul_inequality, lemma_mul_upper_bound};
use vstd::prelude::*;

verus! {

/// A pixel position.
#[derive(Clone, Copy, Debug, PartialEq, Eq, Structural)]
pub struct Point {
    pub x: usize,
    pub y: usize,
}

impl Point {
    pub fn new(x: usize, y: usize) -> (p: Point)
        ensures
            p.x == x,
            p.y == y,
    {
        Point { x, y }
    }
}

/// An axis-aligned rectangle of pixels: `start` inclusive, `end` exclusive.
#[derive(Clone, Copy, Debug, PartialEq, Eq, Structural)]
pub struct Region {
    pub start: Point,
    pub end: Point,
}

impl Region {
    pub open spec fn wf(self) -> bool {
        self.start.x <= self.end.x && self.start.y <= self.end.y
    }

    pub open spec fn width(self) -> int {
        self.end.x - self.start.x
    }

    pub open spec fn height(self) -> int {
        self.end.y - self.start.y
    }

    pub open spec fn area(self) -> int {
        self.height() * self.width()
    }

    pub open spec fn contains(self, x: int, y: int) -> bool {
        self.start.x <= x < self.end.x && self.start.y <= y < self.end.y
    }

    /// Index into the backing row-major array of the `k`-th sample of this
    /// region, for an image `image_width` pixels wide.
    pub open spec fn item_index(self, image_width: int, k: int) -> int {
        (self.start.y + k / self.width()) * image_width + self.start.x + k % self.width()
    }

    /// Number of pixels covered by the region.
    pub fn len(&self) -> (n: usize)
        requires
            self.wf(),
            self.area() <= usize::MAX,
        ensures
            n == self.area(),
    {
        (self.end.y - self.start.y) * (self.end.x - self.start.x)
    }

    /// Horizontal coordinate of the region's centre.
    pub fn center_x(&self) -> (c: usize)
        requires
            self.wf(),
        ensures
            c == self.start.x + (self.end.x - self.start.x) / 2,
    {
        (self.end.x - self.start.x) / 2 + self.start.x
    }

    /// Vertical coordinate of the region's centre.
    pub fn center_y(&self) -> (c: usize)
        requires
            self.wf(),
        ensures
            c == self.start.y + (self.end.y - self.start.y) / 2,
    {
        (self.end.y - self.start.y) / 2 + self.start.y
    }

    /// The samples of `all_items` falling inside this region, row by row,
    /// where `all_items` is a row-major array of an image `image_width`
    /// pixels wide.
    pub fn items<T: Copy>(self, all_items: &[T], image_width: usize) -> (v: Vec<T>)
        requires
            self.wf(),
            self.end.x <= image_width,
            self.end.y * image_width <= all_items@.len(),
        ensures
            v@.len() == self.area(),
            forall|k: int|
                0 <= k < v@.len() ==> #[trigger] v@[k] == all_items@[self.item_index(
                    image_width as int,
                    k,
                )],
    {
        let w: usize = self.end.x - self.start.x;
        let total: usize = all_items.len();
        let mut v: Vec<T> = Vec::new();
        let mut y: usize = self.start.y;
        proof {
            assert(self.area() == (self.end.y - self.start.y) * w);
        }
        while y < self.end.y
            invariant
                self.wf(),
                self.start.y <= y <= self.end.y,
                w == self.width(),
                self.end.x <= image_width,
                total == all_items@.len(),
                self.end.y * image_width <= total,
                v@.len() == (y - self.start.y) * w,
                forall|k: int|
                    0 <= k < v@.len() ==> #[trigger] v@[k] == all_items@[self.item_index(
                        image_width as int,
                        k,
                    )],
            decreases self.end.y - y,
        {
            let mut x: usize = self.start.x;
            proof {
                assert((y + 1 - self.start.y) * w == (y - self.start.y) * w + w)
                    by (nonlinear_arith);
                assert((y - self.start.y) * w >= 0) by (nonlinear_arith)
                    requires
                        y >= self.start.y,
                        w >= 0,
                ;
                assert((y + 1) * image_width <= self.end.y * image_width) by (nonlinear_arith)
                    requires
                        y + 1 <= self.end.y,
                        image_width >= 0,
                ;
                assert((y + 1) * image_width == y * image_width + image_width)
                    by (nonlinear_arith);
            }
            while x < self.end.x
                invariant
                    self.wf(),
                    self.start.y <= y < self.end.y,
                    self.start.x <= x <= self.end.x,
                    w == self.width(),
                    self.end.x <= image_width,
                    total == all_items@.len(),
                    y * image_width + image_width <= total,
                    v@.len() == (y - self.start.y) * w + (x - self.start.x),
                    0 <= (y - self.start.y) * w,
                    forall|k: int|
                        0 <= k < v@.len() ==> #[trigger] v@[k] == all_items@[self.item_index(
                            image_width as int,
                            k,
                        )],
                decreases self.end.x - x,
            {
                let idx: usize = y * image_width + x;
                v.push(all_items[idx]);
                proof {
                    let k = (y - self.start.y) * w + (x - self.start.x);
                    lemma_fundamental_div_mod_converse(
                        k,
                        w as int,
                        y - self.start.y,
                        x - self.start.x,
                    );
                    assert(self.item_index(image_width as int, k) == idx);
                }
                x = x + 1;
            }
            y = y + 1;
        }
        proof {
            assert(v@.len() == self.area());
        }
        v
    }
}

/// Integer division rounding up.
pub open spec fn div_ceil(a: int, b: int) -> int {
    (a + b - 1) / b
}

/// How rounding-up division relates to rounding-down division, and the
/// bounds that make `div_ceil(a, b)` blocks of size `b` cover `a` exactly.
pub proof fn lemma_div_ceil_props(a: int, b: int)
    requires
        1 <= a,
        1 <= b,
    ensures
        div_ceil(a, b) == a / b + if a % b == 0 {
            0int
        } else {
            1int
        },
        1 <= div_ceil(a, b) <= a,
        a <= div_ceil(a, b) * b < a + b,
{
    let q = a / b;
    let r = a % b;
    lemma_fundamental_div_mod(a, b);
    lemma_mod_division_less_than_divisor(a, b);
    lemma_div_pos_is_pos(a, b);
    assert(q <= b * q) by (nonlinear_arith)
        requires
            b >= 1,
            q >= 0,
    ;
    if r == 0 {
        assert(q * b == b * q) by (nonlinear_arith);
        lemma_fundamental_div_mod_converse(a + b - 1, b, q, b - 1);
        assert(q >= 1) by (nonlinear_arith)
            requires
                a == b * q,
                a >= 1,
                b >= 1,
                q >= 0,
        ;
    } else {
        assert((q + 1) * b == b * q + b) by (nonlinear_arith);
        lemma_fundamental_div_mod_converse(a + b - 1, b, q + 1, r - 1);
    }
}

/// The block grid laid over an image: the image dimensions and the
/// configured block dimensions, all in pixels.
#[derive(Clone, Copy, Debug, PartialEq, Eq, Structural)]
pub struct BlockGrid {
    pub image_width: usize,
    pub image_height: usize,
    pub block_width: usize,
    pub block_height: usize,
}

impl BlockGrid {
    pub open spec fn wf(self) -> bool {
        &&& 1 <= self.image_width
        &&& 1 <= self.image_height
        &&& 1 <= self.block_width
        &&& 1 <= self.block_height
        &&& self.image_width * self.image_height <= usize::MAX
    }

    /// Number of block columns.
    pub open spec fn cols(self) -> int {
        div_ceil(self.image_width as int, self.block_width as int)
    }

    /// Number of block rows.
    pub open spec fn rows(self) -> int {
        div_ceil(self.image_height as int, self.block_height as int)
    }

    /// Total number of blocks.
    pub open spec fn block_count(self) -> int {
        self.rows() * self.cols()
    }

    /// The region of the block in the given grid row and column.
    pub open spec fn region_spec(self, row: int, col: int) -> Region {
        Region {
            start: Point {
                x: (col * self.block_width) as usize,
                y: (row * self.block_height) as usize,
            },
            end: Point {
                x: if (col + 1) * self.block_width < self.image_width {
                    ((col + 1) * self.block_width) as usize
                } else {
                    self.image_width
                },
                y: if (row + 1) * self.block_height < self.image_height {
                    ((row + 1) * self.block_height) as usize
                } else {
                    self.image_height
                },
            },
        }
    }

    /// The region of the `k`-th block in row-major order.
    pub open spec fn region_at(self, k: int) -> Region {
        self.region_spec(k / self.cols(), k % self.cols())
    }

    /// Index, in row-major order, of the block containing the pixel.
    pub open spec fn block_index_of(self, x: int, y: int) -> int {
        (y / self.block_height as int) * self.cols() + x / self.block_width as int
    }

    pub fn new(image_width: usize, image_height: usize, block_width: usize, block_height: usize) -> (g:
        BlockGrid)
        requires
            1 <= image_width,
            1 <= image_height,
            1 <= block_width,
            1 <= block_height,
            image_width * image_height <= usize::MAX,
        ensures
            g == (BlockGrid { image_width, image_height, block_width, block_height }),
            g.wf(),
    {
        BlockGrid { image_width, image_height, block_width, block_height }
    }

    /// Number of block columns.
    pub fn num_cols(&self) -> (n: usize)
        requires
            self.wf(),
        ensures
            n == self.cols(),
    {
        proof {
            lemma_div_ceil_props(self.image_width as int, self.block_width as int);
        }
        let q: usize = self.image_width / self.block_width;
        if self.image_width % self.block_width == 0 {
            q
        } else {
            q + 1
        }
    }

    /// Number of block rows.
    pub fn num_rows(&self) -> (n: usize)
        requires
            self.wf(),
        ensures
            n == self.rows(),
    {
        proof {
            lemma_div_ceil_props(self.image_height as int, self.block_height as int);
        }
        let q: usize = self.image_height / self.block_height;
        if self.image_height % self.block_height == 0 {
            q
        } else {
            q + 1
        }
    }

    /// All block regions in row-major order.
    pub fn regions(&self) -> (v: Vec<Region>)
        requires
            self.wf(),
        ensures
            v@.len() == self.block_count(),
            forall|k: int| 0 <= k < v@.len() ==> #[trigger] v@[k] == self.region_at(k),
    {
        let cols = self.num_cols();
        let rows = self.num_rows();
        proof {
            lemma_div_ceil_props(self.image_width as int, self.block_width as int);
            lemma_div_ceil_props(self.image_height as int, self.block_height as int);
            assert(rows * cols <= self.image_height * self.image_width) by (nonlinear_arith)
                requires
                    1 <= cols <= self.image_width,
                    1 <= rows <= self.image_height,
            ;
            assert(self.image_height * self.image_width == self.image_width * self.image_height)
                by (nonlinear_arith);
        }
        let mut v: Vec<Region> = Vec::new();
        let mut row: usize = 0;
        while row < rows
            invariant
                self.wf(),
                cols == self.cols(),
                rows == self.rows(),
                row <= rows,
                v@.len() == row * cols,
                forall|k: int| 0 <= k < v@.len() ==> #[trigger] v@[k] == self.region_at(k),
            decreases rows - row,
        {
            let mut col: usize = 0;
            proof {
                assert((row + 1) * cols == row * cols + cols) by (nonlinear_arith);
                assert(row * cols >= 0) by (nonlinear_arith)
                    requires
                        row >= 0,
                        cols >= 0,
                ;
            }
            while col < cols
                invariant
                    self.wf(),
                    cols == self.cols(),
                    rows == self.rows(),
                    row < rows,
                    col <= cols,
                    v@.len() == row * cols + col,
                    0 <= row * cols,
                    forall|k: int| 0 <= k < v@.len() ==> #[trigger] v@[k] == self.region_at(k),
                decreases cols - col,
            {
                proof {
                    lemma_div_ceil_props(self.image_width as int, self.block_width as int);
                    lemma_div_ceil_props(self.image_height as int, self.block_height as int);
                    lemma_mul_inequality(col + 1, cols as int, self.block_width as int);
                    lemma_mul_inequality(row + 1, rows as int, self.block_height as int);
                    assert((col + 1) * self.block_width == col * self.block_width
                        + self.block_width) by (nonlinear_arith);
                    assert((row + 1) * self.block_height == row * self.block_height
                        + self.block_height) by (nonlinear_arith);
                    assert(col * self.block_width >= 0) by (nonlinear_arith)
                        requires
                            col >= 0,
                            self.block_width >= 0,
                    ;
                    assert(row * self.block_height >= 0) by (nonlinear_arith)
                        requires
                            row >= 0,
                            self.block_height >= 0,
                    ;
                }
                let sx: usize = col * self.block_width;
                let sy: usize = row * self.block_height;
                let ex: usize = if self.image_width - sx < self.block_width {
                    self.image_width
                } else {
                    sx + self.block_width
                };
                let ey: usize = if self.image_height - sy < self.block_height {
                    self.image_height
                } else {
                    sy + self.block_height
                };
                v.push(Region { start: Point { x: sx, y: sy }, end: Point { x: ex, y: ey } });
                proof {
                    let k = row * cols + col;
                    lemma_fundamental_div_mod_converse(k, cols as int, row as int, col as int);
                    assert(v@[k] == self.region_at(k));
                }
                col = col + 1;
            }
            row = row + 1;
        }
        v
    }

    /// Index of the block whose centre lies half a block away from
    /// `(x, y)` in the given direction: downward or upward, rightward or
    /// leftward. `None` when the pixel is within half a block of the image
    /// edge on that side, so no such centre exists.
    ///
    /// The pixel is first clamped to the last fully-aligned block column and
    /// row, so pixels past the final aligned block boundary reuse the last
    /// aligned block's geometry.
    pub open spec fn neighbor_spec(self, y: int, x: int, down: bool, right: bool) -> Option<
        int,
    > {
        let bw = self.block_width as int;
        let bh = self.block_height as int;
        let aw = (self.image_width as int / bw) * bw;
        let ah = (self.image_height as int / bh) * bh;
        let x0 = if aw == 0 {
            x
        } else if x < aw {
            x
        } else {
            aw - 1
        };
        let y0 = if ah == 0 {
            y
        } else if y < ah {
            y
        } else {
            ah - 1
        };
        let row_ok = if down {
            y0 + bh / 2 < ah
        } else {
            y0 >= bh / 2
        };
        let col_ok = if right {
            x0 + bw / 2 < aw
        } else {
            x0 >= bw / 2
        };
        if row_ok && col_ok {
            let row = if down {
                (y0 + bh / 2) / bh
            } else {
                (y0 - bh / 2) / bh
            };
            let col = if right {
                (x0 + bw / 2) / bw
            } else {
                (x0 - bw / 2) / bw
            };
            Some(row * self.cols() + col)
        } else {
            None
        }
    }

    /// Looks up the neighbouring block in the given diagonal direction; see
    /// [`Self::neighbor_spec`]. A returned index is always within the block
    /// grid.
    pub fn neighbor(&self, y: usize, x: usize, down: bool, right: bool) -> (r: Option<usize>)
        requires
            self.wf(),
            y < self.image_height,
            x < self.image_width,
        ensures
            r is None <==> self.neighbor_spec(y as int, x as int, down, right) is None,
            r matches Some(k) ==> {
                &&& Some(k as int) == self.neighbor_spec(y as int, x as int, down, right)
                &&& k < self.block_count()
            },
    {
        let bw = self.block_width;
        let bh = self.block_height;
        let w = self.image_width;
        let h = self.image_height;
        proof {
            lemma_div_ceil_props(w as int, bw as int);
            lemma_div_ceil_props(h as int, bh as int);
            lemma_fundamental_div_mod(w as int, bw as int);
            lemma_fundamental_div_mod(h as int, bh as int);
            lemma_mod_division_less_than_divisor(w as int, bw as int);
            lemma_mod_division_less_than_divisor(h as int, bh as int);
            lemma_div_pos_is_pos(w as int, bw as int);
            lemma_div_pos_is_pos(h as int, bh as int);
            assert(bw * (w as int / bw as int) == (w as int / bw as int) * bw)
                by (nonlinear_arith);
            assert(bh * (h as int / bh as int) == (h as int / bh as int) * bh)
                by (nonlinear_arith);
        }
        let aw: usize = (w / bw) * bw;
        let ah: usize = (h / bh) * bh;
        let x0: usize = if aw == 0 {
            x
        } else if x < aw {
            x
        } else {
            aw - 1
        };
        let y0: usize = if ah == 0 {
            y
        } else if y < ah {
            y
        } else {
            ah - 1
        };
        let bw2: usize = bw / 2;
        let bh2: usize = bh / 2;
        let row_ok: bool = if down {
            ah > bh2 && y0 < ah - bh2
        } else {
            y0 >= bh2
        };
        let col_ok: bool = if right {
            aw > bw2 && x0 < aw - bw2
        } else {
            x0 >= bw2
        };
        if row_ok && col_ok {
            let row: usize = if down {
                (y0 + bh2) / bh
            } else {
                (y0 - bh2) / bh
            };
            let col: usize = if right {
                (x0 + bw2) / bw
            } else {
                (x0 - bw2) / bw
            };
            let cols = self.num_cols();
            let rows = self.num_rows();
            proof {
                assert(bh as int * rows as int >= h) by (nonlinear_arith)
                    requires
                        rows as int * bh as int >= h,
                ;
                assert(bw as int * cols as int >= w) by (nonlinear_arith)
                    requires
                        cols as int * bw as int >= w,
                ;
                if down {
                    lemma_multiply_divide_lt((y0 + bh2) as int, bh as int, rows as int);
                    lemma_div_pos_is_pos((y0 + bh2) as int, bh as int);
                } else {
                    lemma_multiply_divide_lt((y0 - bh2) as int, bh as int, rows as int);
                    lemma_div_pos_is_pos((y0 - bh2) as int, bh as int);
                }
                if right {
                    lemma_multiply_divide_lt((x0 + bw2) as int, bw as int, cols as int);
                    lemma_div_pos_is_pos((x0 + bw2) as int, bw as int);
                } else {
                    lemma_multiply_divide_lt((x0 - bw2) as int, bw as int, cols as int);
                    lemma_div_pos_is_pos((x0 - bw2) as int, bw as int);
                }
                lemma_mul_inequality(row as int, rows as int - 1, cols as int);
                assert((rows as int - 1) * cols as int == rows as int * cols as int
                    - cols as int) by (nonlinear_arith);
                assert(row * cols >= 0) by (nonlinear_arith)
                    requires
                        row >= 0,
                        cols >= 0,
                ;
                assert(rows as int * cols as int <= h as int * w as int) by (nonlinear_arith)
                    requires
                        1 <= cols <= w as int,
                        1 <= rows <= h as int,
                ;
                assert(h as int * w as int == w as int * h as int) by (nonlinear_arith);
            }
            Some(row * cols + col)
        } else {
            None
        }
    }
}

/// Every block of the grid is a non-empty rectangle lying inside the image.
pub proof fn lemma_region_in_image(g: BlockGrid, row: int, col: int)
    requires
        g.wf(),
        0 <= row < g.rows(),
        0 <= col < g.cols(),
    ensures
        g.region_spec(row, col).wf(),
        g.region_spec(row, col).start.x == col * g.block_width,
        g.region_spec(row, col).start.y == row * g.block_height,
        g.region_spec(row, col).start.x < g.region_spec(row, col).end.x,
        g.region_spec(row, col).start.y < g.region_spec(row, col).end.y,
        g.region_spec(row, col).end.x <= (col + 1) * g.block_width,
        g.region_spec(row, col).end.y <= (row + 1) * g.block_height,
        g.region_spec(row, col).end.x == (col + 1) * g.block_width || g.region_spec(row, col).end.x
            == g.image_width,
        g.region_spec(row, col).end.y == (row + 1) * g.block_height || g.region_spec(row, col).end.y
            == g.image_height,
        g.region_spec(row, col).end.x <= g.image_width,
        g.region_spec(row, col).end.y <= g.image_height,
        g.region_spec(row, col).area() <= g.image_width * g.image_height,
{
    let w = g.image_width as int;
    let h = g.image_height as int;
    let bw = g.block_width as int;
    let bh = g.block_height as int;
    lemma_div_ceil_props(w, bw);
    lemma_div_ceil_props(h, bh);
    lemma_mul_inequality(col + 1, g.cols(), bw);
    lemma_mul_inequality(row + 1, g.rows(), bh);
    assert((col + 1) * bw == col * bw + bw) by (nonlinear_arith);
    assert((row + 1) * bh == row * bh + bh) by (nonlinear_arith);
    assert(col * bw >= 0) by (nonlinear_arith)
        requires
            col >= 0,
            bw >= 0,
    ;
    assert(row * bh >= 0) by (nonlinear_arith)
        requires
            row >= 0,
            bh >= 0,
    ;
    let reg = g.region_spec(row, col);
    assert(reg.height() <= h && reg.width() <= w);
    lemma_mul_upper_bound(reg.height(), h, reg.width(), w);
    assert(h * w == w * h) by (nonlinear_arith);
}

/// Law: the block regions tile the image exactly. Every pixel of the image
/// lies in the region of the block `block_index_of` names, and in no other
/// region of the grid: no gaps, no overlaps.
pub proof fn lemma_tiling(g: BlockGrid, x: int, y: int)
    requires
        g.wf(),
        0 <= x < g.image_width,
        0 <= y < g.image_height,
    ensures
        0 <= g.block_index_of(x, y) < g.block_count(),
        g.region_at(g.block_index_of(x, y)).contains(x, y),
        forall|k: int|
            0 <= k < g.block_count() && #[trigger] g.region_at(k).contains(x, y) ==> k
                == g.block_index_of(x, y),
{
    let w = g.image_width as int;
    let h = g.image_height as int;
    let bw = g.block_width as int;
    let bh = g.block_height as int;
    let cols = g.cols();
    let rows = g.rows();
    lemma_div_ceil_props(w, bw);
    lemma_div_ceil_props(h, bh);
    let c = x / bw;
    let r = y / bh;
    lemma_fundamental_div_mod(x, bw);
    lemma_mod_division_less_than_divisor(x, bw);
    lemma_fundamental_div_mod(y, bh);
    lemma_mod_division_less_than_divisor(y, bh);
    lemma_div_pos_is_pos(x, bw);
    lemma_div_pos_is_pos(y, bh);
    assert(bw * cols == cols * bw) by (nonlinear_arith);
    assert(bh * rows == rows * bh) by (nonlinear_arith);
    lemma_multiply_divide_lt(x, bw, cols);
    lemma_multiply_divide_lt(y, bh, rows);
    assert(bw * c == c * bw) by (nonlinear_arith);
    assert(bh * r == r * bh) by (nonlinear_arith);
    let k = r * cols + c;
    lemma_mul_inequality(r, rows - 1, cols);
    assert((rows - 1) * cols == rows * cols - cols) by (nonlinear_arith);
    assert(r * cols >= 0) by (nonlinear_arith)
        requires
            r >= 0,
            cols >= 0,
    ;
    lemma_fundamental_div_mod_converse(k, cols, r, c);
    lemma_region_in_image(g, r, c);
    assert((c + 1) * bw == c * bw + bw) by (nonlinear_arith);
    assert((r + 1) * bh == r * bh + bh) by (nonlinear_arith);
    assert(g.region_at(k).contains(x, y));
    assert forall|k2: int|
        0 <= k2 < g.block_count() && #[trigger] g.region_at(k2).contains(x, y) implies k2 == k by {
        let r2 = k2 / cols;
        let c2 = k2 % cols;
        lemma_mod_division_less_than_divisor(k2, cols);
        lemma_div_pos_is_pos(k2, cols);
        assert(cols * rows == rows * cols) by (nonlinear_arith);
        lemma_multiply_divide_lt(k2, cols, rows);
        lemma_region_in_image(g, r2, c2);
        assert((c2 + 1) * bw == c2 * bw + bw) by (nonlinear_arith);
        assert((r2 + 1) * bh == r2 * bh + bh) by (nonlinear_arith);
        lemma_fundamental_div_mod_converse(x, bw, c2, x - c2 * bw);
        lemma_fundamental_div_mod_converse(y, bh, r2, y - r2 * bh);
        lemma_fundamental_div_mod(k2, cols);
        assert(cols * r2 == r2 * cols) by (nonlinear_arith);
    }
}

} // verus!
