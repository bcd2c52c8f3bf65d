use vstd::prelude::*;

use crate::color::Color;

verus! {

/// A fixed-size grid of packed colors, stored row-major: the cell at
/// coordinates (x, y) lives at index `y * width + x` of the backing store.
///
/// The 0-by-0 surface is a valid empty buffer (used for the idle clipboard).
/// `get` and `set_pixel` are unchecked against their preconditions at run
/// time: callers must pre-clip, as the drawing primitives do.
pub struct Surface {
    pub width: u32,
    pub height: u32,
    pub data: Vec<Color>,
}

/// A selection rectangle in surface coordinates.
#[derive(Clone, Copy, Debug, PartialEq, Eq, Structural)]
pub struct Rect {
    pub x: i32,
    pub y: i32,
    pub width: u32,
    pub height: u32,
}

/// A row-major index stays inside the backing store.
pub proof fn lemma_index_in_range(w: int, h: int, x: int, y: int)
    requires
        0 <= x < w,
        0 <= y < h,
    ensures
        0 <= y * w + x < w * h,
{
    assert(y * w + x < w * h) by (nonlinear_arith)
        requires
            0 <= x < w,
            0 <= y < h,
    ;
}

/// Distinct in-bounds coordinates have distinct row-major indices.
pub proof fn lemma_index_distinct(w: int, x1: int, y1: int, x2: int, y2: int)
    requires
        0 <= x1 < w,
        0 <= x2 < w,
        0 <= y1,
        0 <= y2,
        x1 != x2 || y1 != y2,
    ensures
        y1 * w + x1 != y2 * w + x2,
{
    assert(y1 * w + x1 != y2 * w + x2) by (nonlinear_arith)
        requires
            0 <= x1 < w,
            0 <= x2 < w,
            0 <= y1,
            0 <= y2,
            x1 != x2 || y1 != y2,
    ;
}

impl Surface {
    /// Well-formed: the backing store holds exactly width * height cells.
    pub open spec fn wf(self) -> bool {
        self.data.len() == (self.width as int) * (self.height as int)
    }

    pub open spec fn in_bounds(self, x: int, y: int) -> bool {
        0 <= x < self.width as int && 0 <= y < self.height as int
    }

    pub open spec fn spec_index(self, x: int, y: int) -> int {
        y * (self.width as int) + x
    }

    /// The color of the cell at (x, y).
    pub open spec fn spec_at(self, x: int, y: int) -> Color {
        self.data@[self.spec_index(x, y)]
    }

    pub open spec fn same_dims(self, other: Surface) -> bool {
        self.width == other.width && self.height == other.height
    }

    /// Both surfaces hold the same picture.
    pub open spec fn same_pixels(self, other: Surface) -> bool {
        self.same_dims(other) && self.data@ == other.data@
    }

    /// A surface of the given size filled with one color.
    pub fn from_color(width: u32, height: u32, color: Color) -> (s: Surface)
        requires
            (width as int) * (height as int) <= usize::MAX as int,
        ensures
            s.wf(),
            s.width == width,
            s.height == height,
            forall|i: int| 0 <= i < s.data@.len() ==> s.data@[i] == color,
    {
        let n: usize = (width as usize) * (height as usize);
        let mut data: Vec<Color> = Vec::new();
        let mut i: usize = 0;
        while i < n
            invariant
                i <= n,
                data@.len() == i,
                forall|j: int| 0 <= j < i ==> data@[j] == color,
            decreases n - i,
        {
            data.push(color);
            i = i + 1;
        }
        Surface { width, height, data }
    }

    /// A surface of the given size filled with opaque black.
    pub fn new(width: u32, height: u32) -> (s: Surface)
        requires
            (width as int) * (height as int) <= usize::MAX as int,
        ensures
            s.wf(),
            s.width == width,
            s.height == height,
            forall|i: int| 0 <= i < s.data@.len() ==> s.data@[i] == (Color {
                data: Color::spec_rgba(0, 0, 0, 255),
            }),
    {
        Surface::from_color(width, height, Color::rgb(0, 0, 0))
    }

    /// A surface over a pre-filled row-major buffer.
    pub fn from_data(width: u32, height: u32, data: Vec<Color>) -> (s: Surface)
        requires
            data@.len() == (width as int) * (height as int),
        ensures
            s.wf(),
            s.width == width,
            s.height == height,
            s.data@ == data@,
    {
        Surface { width, height, data }
    }

    /// A copy of this surface: same size, same picture.
    pub fn duplicate(&self) -> (r: Surface)
        ensures
            r.same_pixels(*self),
    {
        let n: usize = self.data.len();
        let mut data: Vec<Color> = Vec::new();
        let mut i: usize = 0;
        while i < n
            invariant
                i <= n,
                n == self.data@.len(),
                data@.len() == i,
                forall|j: int| 0 <= j < i ==> data@[j] == self.data@[j],
            decreases n - i,
        {
            data.push(self.data[i]);
            i = i + 1;
        }
        assert(data@ =~= self.data@);
        Surface { width: self.width, height: self.height, data }
    }

    /// Read the cell at (x, y); the caller must stay in bounds.
    pub fn get(&self, x: i32, y: i32) -> (c: Color)
        requires
            self.wf(),
            self.in_bounds(x as int, y as int),
        ensures
            c == self.spec_at(x as int, y as int),
    {
        proof {
            lemma_index_in_range(
                self.width as int,
                self.height as int,
                x as int,
                y as int,
            );
        }
        let i: usize = (y as usize) * (self.width as usize) + (x as usize);
        self.data[i]
    }

    /// Store `color` at (x, y) unconditionally; the caller must stay in
    /// bounds.
    pub fn set_pixel(&mut self, x: i32, y: i32, color: Color)
        requires
            old(self).wf(),
            old(self).in_bounds(x as int, y as int),
        ensures
            final(self).wf(),
            final(self).same_dims(*old(self)),
            final(self).data@ == old(self).data@.update(
                old(self).spec_index(x as int, y as int),
                color,
            ),
            forall|px: int, py: int|
                old(self).in_bounds(px, py) ==> final(self).spec_at(px, py) == (if px == x as int
                    && py == y as int {
                    color
                } else {
                    old(self).spec_at(px, py)
                }),
    {
        proof {
            lemma_index_in_range(
                self.width as int,
                self.height as int,
                x as int,
                y as int,
            );
        }
        let i: usize = (y as usize) * (self.width as usize) + (x as usize);
        self.data[i] = color;
        proof {
            assert forall|px: int, py: int| old(self).in_bounds(px, py) implies self.spec_at(
                px,
                py,
            ) == (if px == x as int && py == y as int {
                color
            } else {
                old(self).spec_at(px, py)
            }) by {
                lemma_index_in_range(self.width as int, self.height as int, px, py);
                if px != x as int || py != y as int {
                    lemma_index_distinct(self.width as int, px, py, x as int, y as int);
                }
            }
        }
    }

    /// True when (px, py) lies in the axis-aligned rectangle whose corner is
    /// (rx, ry) and whose extent is rw by rh.
    pub open spec fn in_rect(px: int, py: int, rx: int, ry: int, rw: int, rh: int) -> bool {
        rx <= px < rx + rw && ry <= py < ry + rh
    }

    /// Fill a rectangle with one color, clipped to the surface.
    pub fn rect_fill(&mut self, x: i32, y: i32, rw: u32, rh: u32, color: Color)
        requires
            old(self).wf(),
        ensures
            final(self).wf(),
            final(self).same_dims(*old(self)),
            forall|px: int, py: int|
                old(self).in_bounds(px, py) ==> final(self).spec_at(px, py) == (if Self::in_rect(
                    px,
                    py,
                    x as int,
                    y as int,
                    rw as int,
                    rh as int,
                ) {
                    color
                } else {
                    old(self).spec_at(px, py)
                }),
    {
        let w: i64 = self.width as i64;
        let h: i64 = self.height as i64;
        let x0: i64 = if (x as i64) < 0 {
            0
        } else {
            x as i64
        };
        let y0: i64 = if (y as i64) < 0 {
            0
        } else {
            y as i64
        };
        let x1: i64 = if (x as i64) + (rw as i64) > w {
            w
        } else {
            (x as i64) + (rw as i64)
        };
        let y1: i64 = if (y as i64) + (rh as i64) > h {
            h
        } else {
            (y as i64) + (rh as i64)
        };
        let mut cy: i64 = y0;
        while cy < y1
            invariant
                self.wf(),
                self.same_dims(*old(self)),
                y0 <= cy,
                y1 <= h,
                h == self.height as int,
                w == self.width as int,
                0 <= y0,
                0 <= x0,
                x1 <= w,
                x0 == if x < 0 { 0 } else { x as int },
                y0 == if y < 0 { 0 } else { y as int },
                x1 == if x + rw > w { w as int } else { x + rw },
                y1 == if y + rh > h { h as int } else { y + rh },
                y1 <= y0 ==> cy == y0,
                forall|px: int, py: int|
                    old(self).in_bounds(px, py) ==> self.spec_at(px, py) == (if Self::in_rect(
                        px,
                        py,
                        x as int,
                        y as int,
                        rw as int,
                        rh as int,
                    ) && py < cy {
                        color
                    } else {
                        old(self).spec_at(px, py)
                    }),
            decreases y1 - cy,
        {
            let mut cx: i64 = x0;
            while cx < x1
                invariant
                    self.wf(),
                    self.same_dims(*old(self)),
                    x0 <= cx,
                    y0 <= cy < y1,
                    y1 <= h,
                    h == self.height as int,
                    w == self.width as int,
                    0 <= y0,
                    0 <= x0,
                    x1 <= w,
                    x0 == if x < 0 { 0 } else { x as int },
                    y0 == if y < 0 { 0 } else { y as int },
                    x1 == if x + rw > w { w as int } else { x + rw },
                    y1 == if y + rh > h { h as int } else { y + rh },
                    forall|px: int, py: int|
                        old(self).in_bounds(px, py) ==> self.spec_at(px, py) == (if Self::in_rect(
                            px,
                            py,
                            x as int,
                            y as int,
                            rw as int,
                            rh as int,
                        ) && (py < cy || (py == cy && px < cx)) {
                            color
                        } else {
                            old(self).spec_at(px, py)
                        }),
                decreases x1 - cx,
            {
                proof {
                    lemma_index_in_range(w as int, h as int, cx as int, cy as int);
                }
                let i: usize = (cy as usize) * (self.width as usize) + (cx as usize);
                self.data[i] = color;
                proof {
                    assert forall|px: int, py: int| old(self).in_bounds(px, py) implies
                        self.spec_at(px, py) == (if Self::in_rect(
                        px,
                        py,
                        x as int,
                        y as int,
                        rw as int,
                        rh as int,
                    ) && (py < cy || (py == cy && px < cx + 1)) {
                        color
                    } else {
                        old(self).spec_at(px, py)
                    }) by {
                        lemma_index_in_range(w as int, h as int, px, py);
                        if px != cx as int || py != cy as int {
                            lemma_index_distinct(w as int, px, py, cx as int, cy as int);
                        }
                    }
                }
                cx = cx + 1;
            }
            cy = cy + 1;
        }
    }

    /// Extract the w-by-h region whose top-left corner is (x, y); the region
    /// must lie inside the surface.
    pub fn copy_region(&self, x: i32, y: i32, rw: u32, rh: u32) -> (r: Surface)
        requires
            self.wf(),
            0 <= x as int,
            0 <= y as int,
            x as int + rw as int <= self.width as int,
            y as int + rh as int <= self.height as int,
        ensures
            r.wf(),
            r.width == rw,
            r.height == rh,
            forall|i: int, j: int|
                0 <= i < rw as int && 0 <= j < rh as int ==> r.spec_at(i, j) == self.spec_at(
                    x as int + i,
                    y as int + j,
                ),
    {
        let mut data: Vec<Color> = Vec::new();
        let mut j: u32 = 0;
        while j < rh
            invariant
                self.wf(),
                j <= rh,
                0 <= x as int,
                0 <= y as int,
                x as int + rw as int <= self.width as int,
                y as int + rh as int <= self.height as int,
                data@.len() == j as int * rw as int,
                forall|ii: int, jj: int|
                    0 <= ii < rw as int && 0 <= jj < j as int ==> #[trigger] data@[jj * rw as int
                        + ii] == self.spec_at(x as int + ii, y as int + jj),
            decreases rh - j,
        {
            let mut i: u32 = 0;
            while i < rw
                invariant
                    self.wf(),
                    i <= rw,
                    j < rh,
                    0 <= x as int,
                    0 <= y as int,
                    x as int + rw as int <= self.width as int,
                    y as int + rh as int <= self.height as int,
                    data@.len() == j as int * rw as int + i as int,
                    forall|ii: int, jj: int|
                        0 <= ii < rw as int && 0 <= jj < j as int ==> #[trigger] data@[jj
                            * rw as int + ii] == self.spec_at(x as int + ii, y as int + jj),
                    forall|ii: int|
                        0 <= ii < i as int ==> #[trigger] data@[j as int * rw as int + ii]
                            == self.spec_at(x as int + ii, y as int + j as int),
                decreases rw - i,
            {
                proof {
                    lemma_index_in_range(
                        self.width as int,
                        self.height as int,
                        x as int + i as int,
                        y as int + j as int,
                    );
                }
                let idx: usize = ((y as usize) + (j as usize)) * (self.width as usize) + (
                x as usize) + (i as usize);
                let c = self.data[idx];
                let ghost pre = data@;
                data.push(c);
                proof {
                    assert forall|ii: int, jj: int|
                        0 <= ii < rw as int && 0 <= jj < j as int implies #[trigger] data@[jj
                        * rw as int + ii] == self.spec_at(x as int + ii, y as int + jj) by {
                        lemma_index_in_range(rw as int, j as int, ii, jj);
                        assert(rw as int * j as int == j as int * rw as int) by (nonlinear_arith);
                        assert(pre[jj * rw as int + ii] == self.spec_at(
                            x as int + ii,
                            y as int + jj,
                        ));
                        assert(jj * rw as int + ii < pre.len());
                    }
                    assert forall|ii: int|
                        0 <= ii < i as int + 1 implies #[trigger] data@[j as int * rw as int + ii]
                        == self.spec_at(x as int + ii, y as int + j as int) by {
                        assert(j as int * rw as int >= 0) by (nonlinear_arith)
                            requires
                                j as int >= 0 && rw as int >= 0,
                        ;
                        if ii < i as int {
                            assert(pre[j as int * rw as int + ii] == self.spec_at(
                                x as int + ii,
                                y as int + j as int,
                            ));
                        } else {
                            assert(j as int * rw as int + ii == pre.len());
                        }
                    }
                }
                i = i + 1;
            }
            proof {
                assert((j as int + 1) * rw as int == j as int * rw as int + rw as int)
                    by (nonlinear_arith);
            }
            j = j + 1;
        }
        proof {
            assert(rh as int * rw as int == rw as int * rh as int) by (nonlinear_arith);
        }
        let r = Surface { width: rw, height: rh, data };
        proof {
            assert forall|i: int, j: int| 0 <= i < rw as int && 0 <= j < rh as int implies
                r.spec_at(i, j) == self.spec_at(x as int + i, y as int + j) by {
                lemma_index_in_range(rw as int, rh as int, i, j);
            }
        }
        r
    }

    /// Unconditional paste of `region` with its top-left corner at (x, y),
    /// clipped to the surface.
    pub fn blit(&mut self, x: i32, y: i32, region: &Surface)
        requires
            old(self).wf(),
            region.wf(),
        ensures
            final(self).wf(),
            final(self).same_dims(*old(self)),
            forall|px: int, py: int|
                old(self).in_bounds(px, py) ==> final(self).spec_at(px, py) == (
                if region.in_bounds(px - x as int, py - y as int) {
                    region.spec_at(px - x as int, py - y as int)
                } else {
                    old(self).spec_at(px, py)
                }),
    {
        let rw: u32 = region.width;
        let rh: u32 = region.height;
        let mut j: u32 = 0;
        while j < rh
            invariant
                self.wf(),
                self.same_dims(*old(self)),
                region.wf(),
                rw == region.width,
                rh == region.height,
                j <= rh,
                forall|px: int, py: int|
                    old(self).in_bounds(px, py) ==> self.spec_at(px, py) == (
                    if (region.in_bounds(px - x as int, py - y as int) && (py - y as int) < j as int) {
                        region.spec_at(px - x as int, py - y as int)
                    } else {
                        old(self).spec_at(px, py)
                    }),
            decreases rh - j,
        {
            let ty: i64 = (y as i64) + (j as i64);
            let mut i: u32 = 0;
            while i < rw
                invariant
                    self.wf(),
                    self.same_dims(*old(self)),
                    region.wf(),
                    rw == region.width,
                    rh == region.height,
                    j < rh,
                    i <= rw,
                    ty == y as int + j as int,
                    forall|px: int, py: int|
                        old(self).in_bounds(px, py) ==> self.spec_at(px, py) == (
                        if (region.in_bounds(px - x as int, py - y as int) && ((py - y as int)
                            < j as int || (py - y as int == j as int && (px - x as int)
                            < i as int))) {
                            region.spec_at(px - x as int, py - y as int)
                        } else {
                            old(self).spec_at(px, py)
                        }),
                decreases rw - i,
            {
                let tx: i64 = (x as i64) + (i as i64);
                if 0 <= tx && tx < self.width as i64 && 0 <= ty && ty < self.height as i64 {
                    proof {
                        lemma_index_in_range(rw as int, rh as int, i as int, j as int);
                    }
                    let ridx: usize = (j as usize) * (rw as usize) + (i as usize);
                    let c = region.data[ridx];
                    proof {
                        lemma_index_in_range(
                            self.width as int,
                            self.height as int,
                            tx as int,
                            ty as int,
                        );
                    }
                    let idx: usize = (ty as usize) * (self.width as usize) + (tx as usize);
                    self.data[idx] = c;
                    proof {
                        assert forall|px: int, py: int| old(self).in_bounds(px, py) implies
                            self.spec_at(px, py) == (if (region.in_bounds(
                            px - x as int,
                            py - y as int,
                        ) && ((py - y as int) < j as int || (py - y as int == j as int && (px
                            - x as int) < i as int + 1))) {
                            region.spec_at(px - x as int, py - y as int)
                        } else {
                            old(self).spec_at(px, py)
                        }) by {
                            lemma_index_in_range(self.width as int, self.height as int, px, py);
                            if px != tx as int || py != ty as int {
                                lemma_index_distinct(
                                    self.width as int,
                                    px,
                                    py,
                                    tx as int,
                                    ty as int,
                                );
                            }
                        }
                    }
                }
                i = i + 1;
            }
            j = j + 1;
        }
    }

    /// Paste `region` with its top-left corner at (x, y), clipped to the
    /// surface; each stored pixel keeps the source color channels and carries
    /// the source alpha scaled by opacity / 255.
    pub fn alpha_blit(&mut self, x: i32, y: i32, opacity: u8, region: &Surface)
        requires
            old(self).wf(),
            region.wf(),
        ensures
            final(self).wf(),
            final(self).same_dims(*old(self)),
            forall|px: int, py: int|
                old(self).in_bounds(px, py) ==> final(self).spec_at(px, py) == (
                if region.in_bounds(px - x as int, py - y as int) {
                    region.spec_at(px - x as int, py - y as int).spec_scale_alpha(opacity as u32)
                } else {
                    old(self).spec_at(px, py)
                }),
    {
        let rw: u32 = region.width;
        let rh: u32 = region.height;
        let mut j: u32 = 0;
        while j < rh
            invariant
                self.wf(),
                self.same_dims(*old(self)),
                region.wf(),
                rw == region.width,
                rh == region.height,
                j <= rh,
                forall|px: int, py: int|
                    old(self).in_bounds(px, py) ==> self.spec_at(px, py) == (
                    if (region.in_bounds(px - x as int, py - y as int) && (py - y as int) < j as int) {
                        region.spec_at(px - x as int, py - y as int).spec_scale_alpha(opacity as u32)
                    } else {
                        old(self).spec_at(px, py)
                    }),
            decreases rh - j,
        {
            let ty: i64 = (y as i64) + (j as i64);
            let mut i: u32 = 0;
            while i < rw
                invariant
                    self.wf(),
                    self.same_dims(*old(self)),
                    region.wf(),
                    rw == region.width,
                    rh == region.height,
                    j < rh,
                    i <= rw,
                    ty == y as int + j as int,
                    forall|px: int, py: int|
                        old(self).in_bounds(px, py) ==> self.spec_at(px, py) == (
                        if (region.in_bounds(px - x as int, py - y as int) && ((py - y as int)
                            < j as int || (py - y as int == j as int && (px - x as int)
                            < i as int))) {
                            region.spec_at(px - x as int, py - y as int).spec_scale_alpha(opacity as u32)
                        } else {
                            old(self).spec_at(px, py)
                        }),
                decreases rw - i,
            {
                let tx: i64 = (x as i64) + (i as i64);
                if 0 <= tx && tx < self.width as i64 && 0 <= ty && ty < self.height as i64 {
                    proof {
                        lemma_index_in_range(rw as int, rh as int, i as int, j as int);
                    }
                    let ridx: usize = (j as usize) * (rw as usize) + (i as usize);
                    let c = region.data[ridx].scale_alpha(opacity);
                    proof {
                        lemma_index_in_range(
                            self.width as int,
                            self.height as int,
                            tx as int,
                            ty as int,
                        );
                    }
                    let idx: usize = (ty as usize) * (self.width as usize) + (tx as usize);
                    self.data[idx] = c;
                    proof {
                        assert forall|px: int, py: int| old(self).in_bounds(px, py) implies
                            self.spec_at(px, py) == (if (region.in_bounds(
                            px - x as int,
                            py - y as int,
                        ) && ((py - y as int) < j as int || (py - y as int == j as int && (px
                            - x as int) < i as int + 1))) {
                            region.spec_at(px - x as int, py - y as int).spec_scale_alpha(opacity as u32)
                        } else {
                            old(self).spec_at(px, py)
                        }) by {
                            lemma_index_in_range(self.width as int, self.height as int, px, py);
                            if px != tx as int || py != ty as int {
                                lemma_index_distinct(
                                    self.width as int,
                                    px,
                                    py,
                                    tx as int,
                                    ty as int,
                                );
                            }
                        }
                    }
                }
                i = i + 1;
            }
            j = j + 1;
        }
    }

    /// Flood-clear: every cell becomes `color`.
    pub fn set_all(&mut self, color: Color)
        requires
            old(self).wf(),
        ensures
            final(self).wf(),
            final(self).same_dims(*old(self)),
            forall|i: int| 0 <= i < final(self).data@.len() ==> final(self).data@[i] == color,
    {
        let n: usize = self.data.len();
        let mut i: usize = 0;
        while i < n
            invariant
                i <= n,
                n == self.data@.len(),
                self.width == old(self).width,
                self.height == old(self).height,
                self.wf(),
                forall|j: int| 0 <= j < i ==> self.data@[j] == color,
            decreases n - i,
        {
            self.data[i] = color;
            i = i + 1;
        }
    }
}

} // verus!
