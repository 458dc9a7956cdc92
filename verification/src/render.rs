//! Rendering the graph topology onto a grayscale raster.
//!
//! The raster is the library's own value: a flat row-major byte buffer with
//! its dimensions. The caller projects each node's position into raster
//! coordinates (that mapping is floating-point work and stays with the
//! driver) and hands the projected points in, one per node in index order;
//! everything drawn from there — the filled square node markers and the
//! integer line walk along each edge — is verified here.
use vstd::prelude::*;

use crate::structs::Graph;

verus! {

/// Intensity of a node marker.
pub const NODE_LUMA: u8 = 255;

/// Intensity of an edge line.
pub const EDGE_LUMA: u8 = 123;

/// The value of the pixel at column `x`, row `y`.
pub open spec fn pix(r: Raster, x: int, y: int) -> u8 {
    r.data@[y * r.width + x]
}

/// Whether `(x, y)` lies in the filled square marker centred at `(cx, cy)`:
/// half-width 3, closed below and open above on both axes.
pub open spec fn in_marker(cx: int, cy: int, x: int, y: int) -> bool {
    cx - 3 <= x < cx + 3 && cy - 3 <= y < cy + 3
}

/// Whether `c` lies between `a` and `b`, in either order.
pub open spec fn between(a: int, b: int, c: int) -> bool {
    (a <= c && c <= b) || (b <= c && c <= a)
}

/// Whether `(x, y)` lies in the axis-aligned bounding box of the two
/// endpoints.
pub open spec fn in_bbox(x0: int, y0: int, x1: int, y1: int, x: int, y: int) -> bool {
    between(x0, x1, x) && between(y0, y1, y)
}

/// Whether the pixel holds one of the two drawing intensities.
pub open spec fn drawn(r: Raster, x: int, y: int) -> bool {
    pix(r, x, y) == EDGE_LUMA || pix(r, x, y) == NODE_LUMA
}

/// A connecting path of edge-intensity pixels between `(x0, y0)` and
/// `(x1, y1)`: every column between the endpoints has a painted row between
/// their rows, and every row between them has a painted column.
pub open spec fn edge_path(r: Raster, x0: int, y0: int, x1: int, y1: int) -> bool {
    &&& forall|c: int|
        #[trigger] between(x0, x1, c) ==> exists|rr: int|
            ((y0 <= rr && rr <= y1) || (y1 <= rr && rr <= y0)) && (#[trigger] pix(r, c, rr))
                == EDGE_LUMA
    &&& forall|rr: int|
        #[trigger] between(y0, y1, rr) ==> exists|c: int|
            ((x0 <= c && c <= x1) || (x1 <= c && c <= x0)) && (#[trigger] pix(r, c, rr))
                == EDGE_LUMA
}

/// The same connecting path, allowing either drawing intensity: what remains
/// of a drawn edge after later markers and walks have painted over parts of
/// it.
pub open spec fn drawn_path(r: Raster, x0: int, y0: int, x1: int, y1: int) -> bool {
    &&& forall|c: int|
        #[trigger] between(x0, x1, c) ==> exists|rr: int|
            ((y0 <= rr && rr <= y1) || (y1 <= rr && rr <= y0)) && #[trigger] drawn(r, c, rr)
    &&& forall|rr: int|
        #[trigger] between(y0, y1, rr) ==> exists|c: int|
            ((x0 <= c && c <= x1) || (x1 <= c && c <= x0)) && #[trigger] drawn(r, c, rr)
}

/// A path of edge pixels is in particular a path of drawn pixels.
proof fn lemma_edge_path_is_drawn_path(r: Raster, x0: int, y0: int, x1: int, y1: int)
    requires
        edge_path(r, x0, y0, x1, y1),
    ensures
        drawn_path(r, x0, y0, x1, y1),
{
    assert forall|c: int| #[trigger] between(x0, x1, c) implies exists|rr: int|
        ((y0 <= rr && rr <= y1) || (y1 <= rr && rr <= y0)) && #[trigger] drawn(r, c, rr) by {
        let rr = choose|rr: int|
            ((y0 <= rr && rr <= y1) || (y1 <= rr && rr <= y0)) && (#[trigger] pix(r, c, rr))
                == EDGE_LUMA;
        assert(((y0 <= rr && rr <= y1) || (y1 <= rr && rr <= y0)) && drawn(r, c, rr));
    }
    assert forall|rr: int| #[trigger] between(y0, y1, rr) implies exists|c: int|
        ((x0 <= c && c <= x1) || (x1 <= c && c <= x0)) && #[trigger] drawn(r, c, rr) by {
        let c = choose|c: int|
            ((x0 <= c && c <= x1) || (x1 <= c && c <= x0)) && (#[trigger] pix(r, c, rr))
                == EDGE_LUMA;
        assert(((x0 <= c && c <= x1) || (x1 <= c && c <= x0)) && drawn(r, c, rr));
    }
}

/// Drawing never erases a connecting path: when every on-raster pixel either
/// keeps its value or takes a drawing intensity, a drawn path whose
/// endpoints lie on the raster survives.
proof fn lemma_drawn_path_kept(pre: Raster, post: Raster, x0: int, y0: int, x1: int, y1: int)
    requires
        pre.width == post.width,
        pre.height == post.height,
        0 <= x0 < pre.width,
        0 <= y0 < pre.height,
        0 <= x1 < pre.width,
        0 <= y1 < pre.height,
        drawn_path(pre, x0, y0, x1, y1),
        forall|px: int, py: int|
            0 <= px < pre.width && 0 <= py < pre.height ==> pix(post, px, py) == pix(pre, px, py)
                || pix(post, px, py) == EDGE_LUMA || pix(post, px, py) == NODE_LUMA,
    ensures
        drawn_path(post, x0, y0, x1, y1),
{
    assert forall|c: int| #[trigger] between(x0, x1, c) implies exists|rr: int|
        ((y0 <= rr && rr <= y1) || (y1 <= rr && rr <= y0)) && #[trigger] drawn(post, c, rr) by {
        let rr = choose|rr: int|
            ((y0 <= rr && rr <= y1) || (y1 <= rr && rr <= y0)) && #[trigger] drawn(pre, c, rr);
        assert(0 <= c < pre.width && 0 <= rr < pre.height);
        assert(((y0 <= rr && rr <= y1) || (y1 <= rr && rr <= y0)) && drawn(post, c, rr));
    }
    assert forall|rr: int| #[trigger] between(y0, y1, rr) implies exists|c: int|
        ((x0 <= c && c <= x1) || (x1 <= c && c <= x0)) && #[trigger] drawn(post, c, rr) by {
        let c = choose|c: int|
            ((x0 <= c && c <= x1) || (x1 <= c && c <= x0)) && #[trigger] drawn(pre, c, rr);
        assert(0 <= c < pre.width && 0 <= rr < pre.height);
        assert(((x0 <= c && c <= x1) || (x1 <= c && c <= x0)) && drawn(post, c, rr));
    }
}

/// Distinct in-range coordinates give distinct row-major indices.
proof fn lemma_pixel_index_injective(w: int, x1: int, y1: int, x2: int, y2: int)
    requires
        0 <= x1 < w,
        0 <= x2 < w,
        0 <= y1,
        0 <= y2,
        y1 * w + x1 == y2 * w + x2,
    ensures
        x1 == x2,
        y1 == y2,
{
    assert(x1 == x2 && y1 == y2) by (nonlinear_arith)
        requires
            0 <= x1 < w,
            0 <= x2 < w,
            0 <= y1,
            0 <= y2,
            y1 * w + x1 == y2 * w + x2,
    ;
}

/// An in-range coordinate pair indexes into the buffer.
proof fn lemma_pixel_index_in_range(w: int, h: int, x: int, y: int)
    requires
        0 <= x < w,
        0 <= y < h,
    ensures
        0 <= y * w + x < w * h,
{
    assert(0 <= y * w + x < w * h) by (nonlinear_arith)
        requires
            0 <= x < w,
            0 <= y < h,
    ;
}

/// An 8-bit single-channel raster: `data` holds the pixel rows top to
/// bottom, one byte per pixel.
pub struct Raster {
    pub width: usize,
    pub height: usize,
    pub data: Vec<u8>,
}

impl Raster {
    /// The buffer holds exactly one byte per pixel; the pixel count fits the
    /// machine and each side fits in 31 bits, so raster coordinates survive
    /// the signed arithmetic of the drawing routines.
    pub open spec fn wf(self) -> bool {
        &&& self.data@.len() == self.width * self.height
        &&& self.width * self.height <= usize::MAX
        &&& self.width <= 0x7fff_ffff
        &&& self.height <= 0x7fff_ffff
    }

    /// A raster of the given dimensions with every pixel black (zero).
    pub fn new(width: usize, height: usize) -> (r: Raster)
        requires
            width <= 0x7fff_ffff,
            height <= 0x7fff_ffff,
            width * height <= usize::MAX,
        ensures
            r.wf(),
            r.width == width,
            r.height == height,
            r.data@.len() == width * height,
            forall|i: int| 0 <= i < r.data@.len() ==> r.data@[i] == 0u8,
    {
        let n: usize = width * height;
        let mut data: Vec<u8> = Vec::new();
        let mut i: usize = 0;
        while i < n
            invariant
                0 <= i <= n,
                data@.len() == i,
                forall|k: int| 0 <= k < i ==> data@[k] == 0u8,
            decreases n - i,
        {
            data.push(0);
            i += 1;
        }
        Raster { width, height, data }
    }

    /// Sets the pixel at column `x`, row `y` to `v`.
    pub fn put_pixel(&mut self, x: usize, y: usize, v: u8)
        requires
            old(self).wf(),
            x < old(self).width,
            y < old(self).height,
        ensures
            final(self).wf(),
            final(self).width == old(self).width,
            final(self).height == old(self).height,
            final(self).data@ == old(self).data@.update(y * old(self).width + x, v),
    {
        proof {
            lemma_pixel_index_in_range(
                self.width as int,
                self.height as int,
                x as int,
                y as int,
            );
        }
        let idx: usize = y * self.width + x;
        self.data.set(idx, v);
    }

    /// The pixel at column `x`, row `y`.
    pub fn get_pixel(&self, x: usize, y: usize) -> (v: u8)
        requires
            self.wf(),
            x < self.width,
            y < self.height,
        ensures
            v == pix(*self, x as int, y as int),
    {
        proof {
            lemma_pixel_index_in_range(
                self.width as int,
                self.height as int,
                x as int,
                y as int,
            );
        }
        self.data[y * self.width + x]
    }

    /// Sets the pixel at `(x, y)` to `v` when that lies on the raster, and
    /// leaves the raster untouched when it does not.
    fn plot_clipped(&mut self, x: i64, y: i64, v: u8)
        requires
            old(self).wf(),
        ensures
            final(self).wf(),
            final(self).width == old(self).width,
            final(self).height == old(self).height,
            0 <= x < old(self).width && 0 <= y < old(self).height ==> final(self).data@ == old(
                self,
            ).data@.update(y * old(self).width + x, v),
            !(0 <= x < old(self).width && 0 <= y < old(self).height) ==> final(self).data@ == old(
                self,
            ).data@,
    {
        if 0 <= x && x < self.width as i64 && 0 <= y && y < self.height as i64 {
            self.put_pixel(x as usize, y as usize, v);
        }
    }

    /// Paints the filled square marker of half-width 3 centred at
    /// `(cx, cy)`, clipped to the raster, with the node intensity; every
    /// pixel outside the marker keeps its value.
    pub fn draw_marker(&mut self, cx: i32, cy: i32)
        requires
            old(self).wf(),
        ensures
            final(self).wf(),
            final(self).width == old(self).width,
            final(self).height == old(self).height,
            forall|x: int, y: int|
                0 <= x < old(self).width && 0 <= y < old(self).height ==> pix(*final(self), x, y)
                    == (if in_marker(cx as int, cy as int, x, y) {
                    NODE_LUMA
                } else {
                    pix(*old(self), x, y)
                }),
    {
        let w: i64 = self.width as i64;
        let h: i64 = self.height as i64;
        let cx64: i64 = cx as i64;
        let cy64: i64 = cy as i64;
        let x_lo: i64 = if cx64 - 3 > 0 {
            cx64 - 3
        } else {
            0
        };
        let x_hi: i64 = if cx64 + 3 < w {
            cx64 + 3
        } else {
            w
        };
        let y_lo: i64 = if cy64 - 3 > 0 {
            cy64 - 3
        } else {
            0
        };
        let y_hi: i64 = if cy64 + 3 < h {
            cy64 + 3
        } else {
            h
        };
        let mut xi: i64 = x_lo;
        while xi < x_hi
            invariant
                self.wf(),
                self.width == old(self).width,
                self.height == old(self).height,
                w == self.width,
                h == self.height,
                cx64 == cx,
                cy64 == cy,
                x_lo == (if cx64 - 3 > 0 { cx64 - 3 } else { 0 }),
                x_hi == (if cx64 + 3 < w { cx64 + 3 } else { w as int }),
                y_lo == (if cy64 - 3 > 0 { cy64 - 3 } else { 0 }),
                y_hi == (if cy64 + 3 < h { cy64 + 3 } else { h as int }),
                x_lo <= xi <= x_hi || xi == x_lo,
                forall|x: int, y: int|
                    0 <= x < w && 0 <= y < h ==> pix(*self, x, y) == (if in_marker(
                        cx as int,
                        cy as int,
                        x,
                        y,
                    ) && x < xi {
                        NODE_LUMA
                    } else {
                        pix(*old(self), x, y)
                    }),
            decreases x_hi - xi,
        {
            let mut yi: i64 = y_lo;
            while yi < y_hi
                invariant
                    self.wf(),
                    self.width == old(self).width,
                    self.height == old(self).height,
                    w == self.width,
                    h == self.height,
                    cx64 == cx,
                    cy64 == cy,
                    x_lo == (if cx64 - 3 > 0 { cx64 - 3 } else { 0 }),
                    x_hi == (if cx64 + 3 < w { cx64 + 3 } else { w as int }),
                    y_lo == (if cy64 - 3 > 0 { cy64 - 3 } else { 0 }),
                    y_hi == (if cy64 + 3 < h { cy64 + 3 } else { h as int }),
                    x_lo <= xi < x_hi,
                    y_lo <= yi <= y_hi || yi == y_lo,
                    forall|x: int, y: int|
                        0 <= x < w && 0 <= y < h ==> pix(*self, x, y) == (if in_marker(
                            cx as int,
                            cy as int,
                            x,
                            y,
                        ) && (x < xi || (x == xi && y < yi)) {
                            NODE_LUMA
                        } else {
                            pix(*old(self), x, y)
                        }),
                decreases y_hi - yi,
            {
                let ghost prev = *self;
                self.put_pixel(xi as usize, yi as usize, NODE_LUMA);
                proof {
                    let wi = prev.width as int;
                    let hi = prev.height as int;
                    let ti = (yi as int) * wi + (xi as int);
                    lemma_pixel_index_in_range(wi, hi, xi as int, yi as int);
                    assert(self.data@ == prev.data@.update(ti, NODE_LUMA));
                    assert forall|x: int, y: int| 0 <= x < wi && 0 <= y < hi implies pix(
                        *self,
                        x,
                        y,
                    ) == (if in_marker(cx as int, cy as int, x, y) && (x < xi || (x == xi && y
                        < yi + 1)) {
                        NODE_LUMA
                    } else {
                        pix(*old(self), x, y)
                    }) by {
                        lemma_pixel_index_in_range(wi, hi, x, y);
                        assert(pix(prev, x, y) == (if in_marker(cx as int, cy as int, x, y) && (x
                            < xi || (x == xi && y < yi)) {
                            NODE_LUMA
                        } else {
                            pix(*old(self), x, y)
                        }));
                        if y * wi + x == ti {
                            lemma_pixel_index_injective(wi, x, y, xi as int, yi as int);
                            assert(x == xi && y == yi);
                            assert(pix(*self, x, y) == NODE_LUMA);
                        } else {
                            assert(pix(*self, x, y) == prev.data@[y * wi + x]);
                        }
                    }
                }
                yi += 1;
            }
            xi += 1;
        }
    }

    /// One step of the line walk: paints `(x, y)`, clipped to the raster,
    /// with the edge intensity. Changes stay inside the endpoints' bounding
    /// box, the visited pixel (on the raster) ends up painted, and pixels
    /// already painted stay painted.
    fn line_plot(&mut self, x: i64, y: i64, ax: i64, ay: i64, bx: i64, by: i64)
        requires
            old(self).wf(),
            between(ax as int, bx as int, x as int),
            between(ay as int, by as int, y as int),
        ensures
            final(self).wf(),
            final(self).width == old(self).width,
            final(self).height == old(self).height,
            forall|px: int, py: int|
                0 <= px < old(self).width && 0 <= py < old(self).height ==> pix(
                    *final(self),
                    px,
                    py,
                ) == pix(*old(self), px, py) || (pix(*final(self), px, py) == EDGE_LUMA && in_bbox(
                    ax as int,
                    ay as int,
                    bx as int,
                    by as int,
                    px,
                    py,
                )),
            0 <= x < old(self).width && 0 <= y < old(self).height ==> pix(
                *final(self),
                x as int,
                y as int,
            ) == EDGE_LUMA,
            forall|px: int, py: int|
                0 <= px < old(self).width && 0 <= py < old(self).height && pix(*old(self), px, py)
                    == EDGE_LUMA ==> pix(*final(self), px, py) == EDGE_LUMA,
    {
        let ghost prev = *self;
        self.plot_clipped(x, y, EDGE_LUMA);
        proof {
            let wi = prev.width as int;
            let hi = prev.height as int;
            if 0 <= x < wi && 0 <= y < hi {
                let ti = (y as int) * wi + (x as int);
                lemma_pixel_index_in_range(wi, hi, x as int, y as int);
                assert(self.data@ == prev.data@.update(ti, EDGE_LUMA));
                assert(pix(*self, x as int, y as int) == EDGE_LUMA);
                assert forall|px: int, py: int| 0 <= px < wi && 0 <= py < hi implies pix(
                    *self,
                    px,
                    py,
                ) == pix(prev, px, py) || (pix(*self, px, py) == EDGE_LUMA && px == x && py == y)
                    by {
                    lemma_pixel_index_in_range(wi, hi, px, py);
                    if py * wi + px == ti {
                        lemma_pixel_index_injective(wi, px, py, x as int, y as int);
                    } else {
                        assert(pix(*self, px, py) == prev.data@[py * wi + px]);
                    }
                }
            } else {
                assert(self.data@ == prev.data@);
            }
        }
    }

    /// Walks the integer line from `(x0, y0)` to `(x1, y1)` and paints each
    /// visited pixel that lies on the raster with the edge intensity. Every
    /// change stays inside the bounding box of the two endpoints; both
    /// endpoints, where they lie on the raster, end up painted; horizontal
    /// and vertical walks paint their whole clipped span; and whenever both
    /// endpoints lie on the raster the painted pixels form a connecting
    /// path between them. Degenerate slopes — vertical, horizontal, a
    /// single point — need no special case.
    #[verifier::rlimit(60)]
    pub fn draw_line(&mut self, x0: i32, y0: i32, x1: i32, y1: i32)
        requires
            old(self).wf(),
        ensures
            final(self).wf(),
            final(self).width == old(self).width,
            final(self).height == old(self).height,
            forall|x: int, y: int|
                0 <= x < old(self).width && 0 <= y < old(self).height ==> pix(*final(self), x, y)
                    == pix(*old(self), x, y) || (pix(*final(self), x, y) == EDGE_LUMA && in_bbox(
                    x0 as int,
                    y0 as int,
                    x1 as int,
                    y1 as int,
                    x,
                    y,
                )),
            0 <= x0 < old(self).width && 0 <= y0 < old(self).height ==> pix(
                *final(self),
                x0 as int,
                y0 as int,
            ) == EDGE_LUMA,
            0 <= x1 < old(self).width && 0 <= y1 < old(self).height ==> pix(
                *final(self),
                x1 as int,
                y1 as int,
            ) == EDGE_LUMA,
            y0 == y1 && 0 <= y0 < old(self).height ==> forall|c: int|
                0 <= c < old(self).width && between(x0 as int, x1 as int, c) ==> pix(
                    *final(self),
                    c,
                    y0 as int,
                ) == EDGE_LUMA,
            x0 == x1 && 0 <= x0 < old(self).width ==> forall|rr: int|
                0 <= rr < old(self).height && between(y0 as int, y1 as int, rr) ==> pix(
                    *final(self),
                    x0 as int,
                    rr,
                ) == EDGE_LUMA,
            0 <= x0 < old(self).width && 0 <= y0 < old(self).height && 0 <= x1 < old(self).width
                && 0 <= y1 < old(self).height ==> edge_path(
                *final(self),
                x0 as int,
                y0 as int,
                x1 as int,
                y1 as int,
            ),
    {
        let w: i64 = self.width as i64;
        let h: i64 = self.height as i64;
        let ax: i64 = x0 as i64;
        let ay: i64 = y0 as i64;
        let bx: i64 = x1 as i64;
        let by: i64 = y1 as i64;
        let dx: i64 = if bx >= ax {
            bx - ax
        } else {
            ax - bx
        };
        let dy: i64 = if by >= ay {
            ay - by
        } else {
            by - ay
        };
        let sx: i64 = if ax < bx {
            1
        } else {
            -1
        };
        let sy: i64 = if ay < by {
            1
        } else {
            -1
        };
        let mut err: i128 = (dx + dy) as i128;
        let mut steps: i64 = dx - dy;
        let mut x: i64 = ax;
        let mut y: i64 = ay;
        self.line_plot(ax, ay, ax, ay, bx, by);
        proof {
            assert(dx * (0 + 1) + dy * (0 + 1) == dx + dy) by (nonlinear_arith);
            if 0 <= ax < w && 0 <= ay < h && 0 <= bx < w && 0 <= by < h {
                assert forall|c: int| #[trigger] between(ax as int, x as int, c) implies exists|
                    rr: int,
                |
                    ((ay <= rr && rr <= by) || (by <= rr && rr <= ay)) && (#[trigger] pix(*self, c, rr)) == EDGE_LUMA by {
                    let rr = ay as int;
                    assert(((ay <= rr && rr <= by) || (by <= rr && rr <= ay)) && pix(*self, ax as int, rr) == EDGE_LUMA);
                }
                assert forall|rr: int| #[trigger] between(ay as int, y as int, rr) implies exists|
                    c: int,
                |
                    ((ax <= c && c <= bx) || (bx <= c && c <= ax)) && (#[trigger] pix(*self, c, rr)) == EDGE_LUMA by {
                    let c = ax as int;
                    assert(((ax <= c && c <= bx) || (bx <= c && c <= ax)) && pix(*self, c, ay as int) == EDGE_LUMA);
                }
            }
        }
        while (x != bx || y != by) && steps > 0
            invariant
                self.wf(),
                self.width == old(self).width,
                self.height == old(self).height,
                w == self.width,
                h == self.height,
                ax == x0,
                ay == y0,
                bx == x1,
                by == y1,
                ax < bx ==> sx == 1,
                ax >= bx ==> sx == -1,
                ay < by ==> sy == 1,
                ay >= by ==> sy == -1,
                dx == (if bx >= ax { bx - ax } else { ax - bx }),
                dy == (if by >= ay { ay - by } else { by - ay }),
                steps >= 0,
                between(ax as int, bx as int, x as int),
                between(ay as int, by as int, y as int),
                ay == by ==> y == ay,
                ax == bx ==> x == ax,
                ({
                    let uu = if x >= ax { x - ax } else { ax - x };
                    let vv = if y >= ay { y - ay } else { ay - y };
                    &&& err == dx * (vv + 1) + dy * (uu + 1)
                    &&& steps >= (dx - uu) + ((-dy) - vv)
                }),
                forall|px: int, py: int|
                    0 <= px < w && 0 <= py < h ==> pix(*self, px, py) == pix(*old(self), px, py)
                        || (pix(*self, px, py) == EDGE_LUMA && in_bbox(
                        ax as int,
                        ay as int,
                        bx as int,
                        by as int,
                        px,
                        py,
                    )),
                0 <= ax < w && 0 <= ay < h ==> pix(*self, ax as int, ay as int) == EDGE_LUMA,
                ay == by && 0 <= ay < h ==> forall|c: int|
                    0 <= c < w && between(ax as int, x as int, c) ==> pix(*self, c, ay as int)
                        == EDGE_LUMA,
                ax == bx && 0 <= ax < w ==> forall|rr: int|
                    0 <= rr < h && between(ay as int, y as int, rr) ==> pix(*self, ax as int, rr)
                        == EDGE_LUMA,
                0 <= ax < w && 0 <= ay < h && 0 <= bx < w && 0 <= by < h ==> forall|c: int|
                    #[trigger] between(ax as int, x as int, c) ==> exists|rr: int|
                        ((ay <= rr && rr <= by) || (by <= rr && rr <= ay)) && (#[trigger] pix(*self, c, rr)) == EDGE_LUMA,
                0 <= ax < w && 0 <= ay < h && 0 <= bx < w && 0 <= by < h ==> forall|rr: int|
                    #[trigger] between(ay as int, y as int, rr) ==> exists|c: int|
                        ((ax <= c && c <= bx) || (bx <= c && c <= ax)) && (#[trigger] pix(*self, c, rr)) == EDGE_LUMA,
            decreases steps,
        {
            let ghost xh = x;
            let ghost yh = y;
            let ghost errh: int = err as int;
            let ghost uu: int = if x >= ax {
                x as int - ax as int
            } else {
                ax as int - x as int
            };
            let ghost vv: int = if y >= ay {
                y as int - ay as int
            } else {
                ay as int - y as int
            };
            proof {
                assert(0 <= uu <= dx && 0 <= vv <= -(dy as int));
                assert(dx <= 0x1_0000_0000 && -0x1_0000_0000 <= dy);
                assert(-0x2_0000_0000_0000_0000 <= err <= 0x2_0000_0000_0000_0000)
                    by (nonlinear_arith)
                    requires
                        err == dx * (vv + 1) + dy * (uu + 1),
                        0 <= uu <= dx,
                        0 <= vv <= -(dy as int),
                        0 <= dx <= 0x1_0000_0000,
                        -0x1_0000_0000 <= dy <= 0,
                ;
            }
            let e2: i128 = 2 * err;
            proof {
                if x == bx && y != by {
                    assert(uu == dx && vv <= -(dy as int) - 1);
                    assert(e2 <= dx) by (nonlinear_arith)
                        requires
                            e2 == 2 * (dx * (vv + 1) + dy * (uu + 1)),
                            uu == dx,
                            0 <= vv <= -(dy as int) - 1,
                            0 <= dx,
                            dy <= 0,
                    ;
                }
                if y == by && x != bx {
                    assert(vv == -(dy as int) && uu <= dx - 1);
                    assert(e2 >= dy) by (nonlinear_arith)
                        requires
                            e2 == 2 * (dx * (vv + 1) + dy * (uu + 1)),
                            vv == -(dy as int),
                            0 <= uu <= dx - 1,
                            0 <= dx,
                            dy <= 0,
                    ;
                }
            }
            let ghost fx = e2 as int >= dy as int && xh != bx;
            let ghost fy = e2 as int <= dx as int && yh != by;
            if e2 >= dy as i128 && x != bx {
                err = err + dy as i128;
                x += sx;
            }
            if e2 <= dx as i128 && y != by {
                err = err + dx as i128;
                y += sy;
            }
            proof {
                let uu1: int = if x >= ax {
                    x as int - ax as int
                } else {
                    ax as int - x as int
                };
                let vv1: int = if y >= ay {
                    y as int - ay as int
                } else {
                    ay as int - y as int
                };
                assert(uu1 == uu + (if fx { 1int } else { 0int }));
                assert(vv1 == vv + (if fy { 1int } else { 0int }));
                assert(fx || fy);
                assert(err == errh + (if fx { dy as int } else { 0int }) + (if fy {
                    dx as int
                } else {
                    0int
                }));
                if fx && fy {
                    assert(err == dx * (vv1 + 1) + dy * (uu1 + 1)) by (nonlinear_arith)
                        requires
                            err == errh + dy + dx,
                            errh == dx * (vv + 1) + dy * (uu + 1),
                            uu1 == uu + 1,
                            vv1 == vv + 1,
                    ;
                } else if fx {
                    assert(err == dx * (vv1 + 1) + dy * (uu1 + 1)) by (nonlinear_arith)
                        requires
                            err == errh + dy,
                            errh == dx * (vv + 1) + dy * (uu + 1),
                            uu1 == uu + 1,
                            vv1 == vv,
                    ;
                } else {
                    assert(err == dx * (vv1 + 1) + dy * (uu1 + 1)) by (nonlinear_arith)
                        requires
                            err == errh + dx,
                            errh == dx * (vv + 1) + dy * (uu + 1),
                            uu1 == uu,
                            vv1 == vv + 1,
                    ;
                }
            }
            let ghost mid = *self;
            self.line_plot(x, y, ax, ay, bx, by);
            proof {
                assert forall|px: int, py: int| 0 <= px < w && 0 <= py < h implies pix(
                    *self,
                    px,
                    py,
                ) == pix(*old(self), px, py) || (pix(*self, px, py) == EDGE_LUMA && in_bbox(
                    ax as int,
                    ay as int,
                    bx as int,
                    by as int,
                    px,
                    py,
                )) by {
                    assert(pix(*self, px, py) == pix(mid, px, py) || (pix(*self, px, py)
                        == EDGE_LUMA && in_bbox(ax as int, ay as int, bx as int, by as int, px, py)));
                }
                if ay == by && 0 <= ay < h {
                    assert forall|c: int|
                        0 <= c < w && between(ax as int, x as int, c) implies pix(
                        *self,
                        c,
                        ay as int,
                    ) == EDGE_LUMA by {
                        if c != x {
                            assert(between(ax as int, xh as int, c));
                            assert(pix(mid, c, ay as int) == EDGE_LUMA);
                        }
                    }
                }
                if ax == bx && 0 <= ax < w {
                    assert forall|rr: int|
                        0 <= rr < h && between(ay as int, y as int, rr) implies pix(
                        *self,
                        ax as int,
                        rr,
                    ) == EDGE_LUMA by {
                        if rr != y {
                            assert(between(ay as int, yh as int, rr));
                            assert(pix(mid, ax as int, rr) == EDGE_LUMA);
                        }
                    }
                }
                if 0 <= ax < w && 0 <= ay < h && 0 <= bx < w && 0 <= by < h {
                    assert forall|c: int| #[trigger] between(ax as int, x as int, c) implies exists|
                        rr: int,
                    |
                        ((ay <= rr && rr <= by) || (by <= rr && rr <= ay)) && (#[trigger] pix(*self, c, rr)) == EDGE_LUMA by {
                        if c == x as int {
                            let rr = y as int;
                            assert(((ay <= rr && rr <= by) || (by <= rr && rr <= ay)) && pix(*self, c, rr) == EDGE_LUMA);
                        } else {
                            assert(between(ax as int, xh as int, c));
                            let rr = choose|rr: int|
                                ((ay <= rr && rr <= by) || (by <= rr && rr <= ay)) && (#[trigger] pix(mid, c, rr)) == EDGE_LUMA;
                            assert(0 <= c < w && 0 <= rr < h);
                            assert(((ay <= rr && rr <= by) || (by <= rr && rr <= ay)) && pix(*self, c, rr) == EDGE_LUMA);
                        }
                    }
                    assert forall|rr: int| #[trigger] between(ay as int, y as int, rr) implies exists|
                        c: int,
                    |
                        ((ax <= c && c <= bx) || (bx <= c && c <= ax)) && (#[trigger] pix(*self, c, rr)) == EDGE_LUMA by {
                        if rr == y as int {
                            let c = x as int;
                            assert(((ax <= c && c <= bx) || (bx <= c && c <= ax)) && pix(*self, c, rr) == EDGE_LUMA);
                        } else {
                            assert(between(ay as int, yh as int, rr));
                            let c = choose|c: int|
                                ((ax <= c && c <= bx) || (bx <= c && c <= ax)) && (#[trigger] pix(mid, c, rr)) == EDGE_LUMA;
                            assert(0 <= c < w && 0 <= rr < h);
                            assert(((ax <= c && c <= bx) || (bx <= c && c <= ax)) && pix(*self, c, rr) == EDGE_LUMA);
                        }
                    }
                }
            }
            steps -= 1;
        }
        proof {
            let uu2: int = if x >= ax {
                x as int - ax as int
            } else {
                ax as int - x as int
            };
            let vv2: int = if y >= ay {
                y as int - ay as int
            } else {
                ay as int - y as int
            };
            assert(uu2 <= dx && vv2 <= -(dy as int));
            assert(x == bx && y == by);
        }
        let ghost mid = *self;
        self.line_plot(bx, by, ax, ay, bx, by);
        proof {
            assert forall|px: int, py: int| 0 <= px < w && 0 <= py < h implies pix(*self, px, py)
                == pix(*old(self), px, py) || (pix(*self, px, py) == EDGE_LUMA && in_bbox(
                ax as int,
                ay as int,
                bx as int,
                by as int,
                px,
                py,
            )) by {
                assert(pix(*self, px, py) == pix(mid, px, py) || (pix(*self, px, py) == EDGE_LUMA
                    && in_bbox(ax as int, ay as int, bx as int, by as int, px, py)));
            }
            if ay == by && 0 <= ay < h {
                assert forall|c: int|
                    0 <= c < w && between(ax as int, bx as int, c) implies pix(*self, c, ay as int)
                    == EDGE_LUMA by {
                    assert(between(ax as int, x as int, c));
                    assert(pix(mid, c, ay as int) == EDGE_LUMA);
                }
            }
            if ax == bx && 0 <= ax < w {
                assert forall|rr: int|
                    0 <= rr < h && between(ay as int, by as int, rr) implies pix(
                    *self,
                    ax as int,
                    rr,
                ) == EDGE_LUMA by {
                    assert(between(ay as int, y as int, rr));
                    assert(pix(mid, ax as int, rr) == EDGE_LUMA);
                }
            }
            if 0 <= ax < w && 0 <= ay < h && 0 <= bx < w && 0 <= by < h {
                assert forall|c: int| #[trigger] between(ax as int, bx as int, c) implies exists|
                    rr: int,
                |
                    ((ay <= rr && rr <= by) || (by <= rr && rr <= ay)) && (#[trigger] pix(*self, c, rr)) == EDGE_LUMA by {
                    assert(between(ax as int, x as int, c));
                    let rr = choose|rr: int|
                        ((ay <= rr && rr <= by) || (by <= rr && rr <= ay)) && (#[trigger] pix(mid, c, rr)) == EDGE_LUMA;
                    assert(0 <= c < w && 0 <= rr < h);
                    assert(((ay <= rr && rr <= by) || (by <= rr && rr <= ay)) && pix(*self, c, rr) == EDGE_LUMA);
                }
                assert forall|rr: int| #[trigger] between(ay as int, by as int, rr) implies exists|
                    c: int,
                |
                    ((ax <= c && c <= bx) || (bx <= c && c <= ax)) && (#[trigger] pix(*self, c, rr)) == EDGE_LUMA by {
                    assert(between(ay as int, y as int, rr));
                    let c = choose|c: int|
                        ((ax <= c && c <= bx) || (bx <= c && c <= ax)) && (#[trigger] pix(mid, c, rr)) == EDGE_LUMA;
                    assert(0 <= c < w && 0 <= rr < h);
                    assert(((ax <= c && c <= bx) || (bx <= c && c <= ax)) && pix(*self, c, rr) == EDGE_LUMA);
                }
                assert(edge_path(*self, x0 as int, y0 as int, x1 as int, y1 as int));
            }
        }
    }
}

/// Whether `(x, y)` lies in the bounding box of the line walk for edge `j`
/// of node `k`: from node `k`'s projected point to its destination's.
pub open spec fn in_edge_bbox(
    graph: Graph,
    proj: Seq<(i32, i32)>,
    k: int,
    j: int,
    x: int,
    y: int,
) -> bool {
    in_bbox(
        proj[k].0 as int,
        proj[k].1 as int,
        proj[graph.nodes@[k].edges@[j].dest as int].0 as int,
        proj[graph.nodes@[k].edges@[j].dest as int].1 as int,
        x,
        y,
    )
}

/// Whether `(x, y)` lies outside the bounding box of every edge walk.
pub open spec fn outside_edges(graph: Graph, proj: Seq<(i32, i32)>, x: int, y: int) -> bool {
    forall|k: int, j: int|
        0 <= k < graph.nodes@.len() && 0 <= j < graph.nodes@[k].edges@.len() ==> !in_edge_bbox(
            graph,
            proj,
            k,
            j,
            x,
            y,
        )
}

/// Whether edge `j` of node `k` is visibly drawn on `img`: when both its
/// projected endpoints lie on the raster, the pixels holding a drawing
/// intensity form a connecting path between them.
pub open spec fn edge_drawn(img: Raster, graph: Graph, proj: Seq<(i32, i32)>, k: int, j: int) -> bool {
    let a = proj[k];
    let b = proj[graph.nodes@[k].edges@[j].dest as int];
    (0 <= a.0 < img.width && 0 <= a.1 < img.height && 0 <= b.0 < img.width && 0 <= b.1
        < img.height) ==> drawn_path(img, a.0 as int, a.1 as int, b.0 as int, b.1 as int)
}

/// Whether `(x, y)` lies outside everything the renderer draws: every node's
/// marker and every edge walk's bounding box.
pub open spec fn untouched(graph: Graph, proj: Seq<(i32, i32)>, x: int, y: int) -> bool {
    &&& forall|k: int|
        0 <= k < graph.nodes@.len() ==> !in_marker(proj[k].0 as int, proj[k].1 as int, x, y)
    &&& outside_edges(graph, proj, x, y)
}

/// Projects nothing itself: `proj` holds, for each node in index order, the
/// node's position already projected into raster coordinates by the caller.
/// Draws, for each node in index order, its square marker and then the line
/// walk of each of its outgoing edges towards the destination's projected
/// point. Dimensions are untouched; every pixel either keeps its old value
/// or holds one of the two drawing intensities; every node's marker region
/// ends up visibly drawn (marker intensity, or edge intensity where a later
/// walk crossed it), and exactly the marker intensity where no edge walk can
/// reach it; every edge whose projected endpoints lie on the raster leaves a
/// visible connecting path between them; and a pixel outside everything
/// drawn keeps its value exactly.
pub fn draw_graph(graph: &Graph, img: &mut Raster, proj: &Vec<(i32, i32)>)
    requires
        graph.wf(),
        old(img).wf(),
        proj@.len() == graph.nodes@.len(),
    ensures
        final(img).wf(),
        final(img).width == old(img).width,
        final(img).height == old(img).height,
        forall|x: int, y: int|
            0 <= x < old(img).width && 0 <= y < old(img).height ==> pix(*final(img), x, y) == pix(
                *old(img),
                x,
                y,
            ) || pix(*final(img), x, y) == EDGE_LUMA || pix(*final(img), x, y) == NODE_LUMA,
        forall|k: int, x: int, y: int|
            0 <= k < graph.nodes@.len() && 0 <= x < old(img).width && 0 <= y < old(img).height
                && in_marker(proj@[k].0 as int, proj@[k].1 as int, x, y) ==> pix(*final(img), x, y)
                == NODE_LUMA || pix(*final(img), x, y) == EDGE_LUMA,
        forall|x: int, y: int|
            0 <= x < old(img).width && 0 <= y < old(img).height && untouched(*graph, proj@, x, y)
                ==> pix(*final(img), x, y) == pix(*old(img), x, y),
        forall|k: int, j: int|
            0 <= k < graph.nodes@.len() && 0 <= j < graph.nodes@[k].edges@.len()
                ==> #[trigger] edge_drawn(*final(img), *graph, proj@, k, j),
        forall|k: int, x: int, y: int|
            0 <= k < graph.nodes@.len() && 0 <= x < old(img).width && 0 <= y < old(img).height
                && in_marker(proj@[k].0 as int, proj@[k].1 as int, x, y) && outside_edges(
                *graph,
                proj@,
                x,
                y,
            ) ==> pix(*final(img), x, y) == NODE_LUMA,
{
    let n = graph.nodes.len();
    let mut i: usize = 0;
    while i < n
        invariant
            graph.wf(),
            img.wf(),
            img.width == old(img).width,
            img.height == old(img).height,
            n == graph.nodes@.len(),
            proj@.len() == graph.nodes@.len(),
            0 <= i <= n,
            forall|x: int, y: int|
                0 <= x < old(img).width && 0 <= y < old(img).height ==> pix(*img, x, y) == pix(
                    *old(img),
                    x,
                    y,
                ) || pix(*img, x, y) == EDGE_LUMA || pix(*img, x, y) == NODE_LUMA,
            forall|k: int, x: int, y: int|
                0 <= k < i && 0 <= x < old(img).width && 0 <= y < old(img).height && in_marker(
                    proj@[k].0 as int,
                    proj@[k].1 as int,
                    x,
                    y,
                ) ==> pix(*img, x, y) == NODE_LUMA || pix(*img, x, y) == EDGE_LUMA,
            forall|x: int, y: int|
                0 <= x < old(img).width && 0 <= y < old(img).height && untouched(
                    *graph,
                    proj@,
                    x,
                    y,
                ) ==> pix(*img, x, y) == pix(*old(img), x, y),
            forall|k: int, j: int|
                0 <= k < i && 0 <= j < graph.nodes@[k].edges@.len() ==> #[trigger] edge_drawn(
                    *img,
                    *graph,
                    proj@,
                    k,
                    j,
                ),
            forall|k: int, x: int, y: int|
                0 <= k < i && 0 <= x < old(img).width && 0 <= y < old(img).height && in_marker(
                    proj@[k].0 as int,
                    proj@[k].1 as int,
                    x,
                    y,
                ) && outside_edges(*graph, proj@, x, y) ==> pix(*img, x, y) == NODE_LUMA,
        decreases n - i,
    {
        let (px, py) = proj[i];
        let ghost before_marker = *img;
        img.draw_marker(px, py);
        proof {
            assert forall|x: int, y: int|
                0 <= x < old(img).width && 0 <= y < old(img).height implies pix(*img, x, y) == pix(
                *old(img),
                x,
                y,
            ) || pix(*img, x, y) == EDGE_LUMA || pix(*img, x, y) == NODE_LUMA by {
                assert(pix(*img, x, y) == NODE_LUMA || pix(*img, x, y) == pix(before_marker, x, y));
            }
            assert forall|k: int, x: int, y: int|
                0 <= k < i + 1 && 0 <= x < old(img).width && 0 <= y < old(img).height && in_marker(
                proj@[k].0 as int,
                proj@[k].1 as int,
                x,
                y,
            ) implies pix(*img, x, y) == NODE_LUMA || pix(*img, x, y) == EDGE_LUMA by {
                assert(pix(*img, x, y) == NODE_LUMA || pix(*img, x, y) == pix(before_marker, x, y));
            }
            assert forall|x: int, y: int|
                0 <= x < old(img).width && 0 <= y < old(img).height && untouched(
                *graph,
                proj@,
                x,
                y,
            ) implies pix(*img, x, y) == pix(*old(img), x, y) by {
                assert(!in_marker(proj@[i as int].0 as int, proj@[i as int].1 as int, x, y));
                assert(pix(*img, x, y) == pix(before_marker, x, y));
            }
            assert forall|x2: int, y2: int|
                0 <= x2 < before_marker.width && 0 <= y2 < before_marker.height implies pix(
                *img,
                x2,
                y2,
            ) == pix(before_marker, x2, y2) || pix(*img, x2, y2) == EDGE_LUMA || pix(*img, x2, y2)
                == NODE_LUMA by {
                assert(pix(*img, x2, y2) == NODE_LUMA || pix(*img, x2, y2) == pix(
                    before_marker,
                    x2,
                    y2,
                ));
            }
            assert forall|k: int, j2: int|
                0 <= k < i && 0 <= j2 < graph.nodes@[k].edges@.len() implies #[trigger] edge_drawn(
                *img,
                *graph,
                proj@,
                k,
                j2,
            ) by {
                assert(edge_drawn(before_marker, *graph, proj@, k, j2));
                let a = proj@[k];
                let b = proj@[graph.nodes@[k].edges@[j2].dest as int];
                if 0 <= a.0 < img.width && 0 <= a.1 < img.height && 0 <= b.0 < img.width && 0
                    <= b.1 < img.height {
                    lemma_drawn_path_kept(
                        before_marker,
                        *img,
                        a.0 as int,
                        a.1 as int,
                        b.0 as int,
                        b.1 as int,
                    );
                }
            }
            assert forall|k: int, x: int, y: int|
                0 <= k < i + 1 && 0 <= x < old(img).width && 0 <= y < old(img).height && in_marker(
                proj@[k].0 as int,
                proj@[k].1 as int,
                x,
                y,
            ) && outside_edges(*graph, proj@, x, y) implies pix(*img, x, y) == NODE_LUMA by {
                if !in_marker(proj@[i as int].0 as int, proj@[i as int].1 as int, x, y) {
                    assert(pix(*img, x, y) == pix(before_marker, x, y));
                }
            }
        }
        let m = graph.nodes[i].edges.len();
        let mut j: usize = 0;
        while j < m
            invariant
                graph.wf(),
                img.wf(),
                img.width == old(img).width,
                img.height == old(img).height,
                n == graph.nodes@.len(),
                proj@.len() == graph.nodes@.len(),
                0 <= i < n,
                m == graph.nodes@[i as int].edges@.len(),
                0 <= j <= m,
                px == proj@[i as int].0,
                py == proj@[i as int].1,
                forall|x: int, y: int|
                    0 <= x < old(img).width && 0 <= y < old(img).height ==> pix(*img, x, y) == pix(
                        *old(img),
                        x,
                        y,
                    ) || pix(*img, x, y) == EDGE_LUMA || pix(*img, x, y) == NODE_LUMA,
                forall|k: int, x: int, y: int|
                    0 <= k < i + 1 && 0 <= x < old(img).width && 0 <= y < old(img).height
                        && in_marker(proj@[k].0 as int, proj@[k].1 as int, x, y) ==> pix(
                        *img,
                        x,
                        y,
                    ) == NODE_LUMA || pix(*img, x, y) == EDGE_LUMA,
                forall|x: int, y: int|
                    0 <= x < old(img).width && 0 <= y < old(img).height && untouched(
                        *graph,
                        proj@,
                        x,
                        y,
                    ) ==> pix(*img, x, y) == pix(*old(img), x, y),
                forall|k: int, j2: int|
                    0 <= k < i && 0 <= j2 < graph.nodes@[k].edges@.len() ==> #[trigger] edge_drawn(
                        *img,
                        *graph,
                        proj@,
                        k,
                        j2,
                    ),
                forall|j2: int|
                    0 <= j2 < j ==> #[trigger] edge_drawn(*img, *graph, proj@, i as int, j2),
                forall|k: int, x: int, y: int|
                    0 <= k < i + 1 && 0 <= x < old(img).width && 0 <= y < old(img).height
                        && in_marker(proj@[k].0 as int, proj@[k].1 as int, x, y) && outside_edges(
                        *graph,
                        proj@,
                        x,
                        y,
                    ) ==> pix(*img, x, y) == NODE_LUMA,
            decreases m - j,
        {
            let dest = graph.nodes[i].edges[j].dest;
            let (qx, qy) = proj[dest];
            let ghost before_line = *img;
            img.draw_line(px, py, qx, qy);
            proof {
                assert forall|x: int, y: int|
                    0 <= x < old(img).width && 0 <= y < old(img).height implies pix(*img, x, y)
                    == pix(*old(img), x, y) || pix(*img, x, y) == EDGE_LUMA || pix(*img, x, y)
                    == NODE_LUMA by {
                    assert(pix(*img, x, y) == pix(before_line, x, y) || pix(*img, x, y)
                        == EDGE_LUMA);
                }
                assert forall|k: int, x: int, y: int|
                    0 <= k < i + 1 && 0 <= x < old(img).width && 0 <= y < old(img).height
                    && in_marker(proj@[k].0 as int, proj@[k].1 as int, x, y) implies pix(
                    *img,
                    x,
                    y,
                ) == NODE_LUMA || pix(*img, x, y) == EDGE_LUMA by {
                    assert(pix(*img, x, y) == pix(before_line, x, y) || pix(*img, x, y)
                        == EDGE_LUMA);
                }
                assert forall|x: int, y: int|
                    0 <= x < old(img).width && 0 <= y < old(img).height && untouched(
                    *graph,
                    proj@,
                    x,
                    y,
                ) implies pix(*img, x, y) == pix(*old(img), x, y) by {
                    assert(!in_edge_bbox(*graph, proj@, i as int, j as int, x, y));
                    assert(pix(*img, x, y) == pix(before_line, x, y));
                }
                assert forall|x2: int, y2: int|
                    0 <= x2 < before_line.width && 0 <= y2 < before_line.height implies pix(
                    *img,
                    x2,
                    y2,
                ) == pix(before_line, x2, y2) || pix(*img, x2, y2) == EDGE_LUMA || pix(
                    *img,
                    x2,
                    y2,
                ) == NODE_LUMA by {
                    assert(pix(*img, x2, y2) == pix(before_line, x2, y2) || pix(*img, x2, y2)
                        == EDGE_LUMA);
                }
                assert forall|k: int, j2: int|
                    0 <= k < i && 0 <= j2 < graph.nodes@[k].edges@.len() implies #[trigger] edge_drawn(
                    *img,
                    *graph,
                    proj@,
                    k,
                    j2,
                ) by {
                    assert(edge_drawn(before_line, *graph, proj@, k, j2));
                    let a = proj@[k];
                    let b = proj@[graph.nodes@[k].edges@[j2].dest as int];
                    if 0 <= a.0 < img.width && 0 <= a.1 < img.height && 0 <= b.0 < img.width && 0
                        <= b.1 < img.height {
                        lemma_drawn_path_kept(
                            before_line,
                            *img,
                            a.0 as int,
                            a.1 as int,
                            b.0 as int,
                            b.1 as int,
                        );
                    }
                }
                assert forall|j2: int| 0 <= j2 < j + 1 implies #[trigger] edge_drawn(
                    *img,
                    *graph,
                    proj@,
                    i as int,
                    j2,
                ) by {
                    if j2 == j {
                        if 0 <= px < img.width && 0 <= py < img.height && 0 <= qx < img.width && 0
                            <= qy < img.height {
                            assert(edge_path(*img, px as int, py as int, qx as int, qy as int));
                            lemma_edge_path_is_drawn_path(
                                *img,
                                px as int,
                                py as int,
                                qx as int,
                                qy as int,
                            );
                        }
                    } else {
                        assert(edge_drawn(before_line, *graph, proj@, i as int, j2));
                        let a = proj@[i as int];
                        let b = proj@[graph.nodes@[i as int].edges@[j2].dest as int];
                        if 0 <= a.0 < img.width && 0 <= a.1 < img.height && 0 <= b.0 < img.width
                            && 0 <= b.1 < img.height {
                            lemma_drawn_path_kept(
                                before_line,
                                *img,
                                a.0 as int,
                                a.1 as int,
                                b.0 as int,
                                b.1 as int,
                            );
                        }
                    }
                }
                assert forall|k: int, x: int, y: int|
                    0 <= k < i + 1 && 0 <= x < old(img).width && 0 <= y < old(img).height
                    && in_marker(proj@[k].0 as int, proj@[k].1 as int, x, y) && outside_edges(
                    *graph,
                    proj@,
                    x,
                    y,
                ) implies pix(*img, x, y) == NODE_LUMA by {
                    assert(!in_edge_bbox(*graph, proj@, i as int, j as int, x, y));
                    assert(pix(*img, x, y) == pix(before_line, x, y));
                }
            }
            j += 1;
        }
        proof {
            assert forall|k: int, j2: int|
                0 <= k < i + 1 && 0 <= j2 < graph.nodes@[k].edges@.len() implies #[trigger] edge_drawn(
                *img,
                *graph,
                proj@,
                k,
                j2,
            ) by {
                if k == i {
                    assert(edge_drawn(*img, *graph, proj@, i as int, j2));
                }
            }
        }
        i += 1;
    }
}

} // verus!
