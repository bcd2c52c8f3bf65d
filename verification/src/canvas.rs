use vstd::prelude::*;

use crate::color::Color;
use crate::surface::Surface;

verus! {

/// Greatest number of snapshots the undo stack may hold.
pub const UNDODEPTH: usize = 10;

/// The color actually stored by a masked write: the written color keeps its
/// r, g and b channels, while its alpha is gated by the bitwise AND with the
/// mask pixel's red channel.
pub open spec fn spec_masked(c: Color, gate: Color) -> Color {
    Color {
        data: Color::spec_rgba(
            c.spec_r(),
            c.spec_g(),
            c.spec_b(),
            gate.spec_r() & c.spec_a(),
        ),
    }
}

/// A masked write stores the written color's r, g and b channels unchanged,
/// and stores as alpha exactly the bitwise AND of the mask pixel's red
/// channel with the written color's alpha.
pub proof fn lemma_masked_write_channels(c: Color, gate: Color)
    ensures
        spec_masked(c, gate).spec_r() == c.spec_r(),
        spec_masked(c, gate).spec_g() == c.spec_g(),
        spec_masked(c, gate).spec_b() == c.spec_b(),
        spec_masked(c, gate).spec_a() == gate.spec_r() & c.spec_a(),
{
    crate::color::lemma_channel_range(c);
    crate::color::lemma_channel_range(gate);
    let m = gate.spec_r();
    let a = c.spec_a();
    assert(m < 256 && a < 256 ==> (m & a) < 256) by (bit_vector);
    crate::color::lemma_rgba_channels(c.spec_r(), c.spec_g(), c.spec_b(), m & a);
}

/// Every cell of row r holds exactly c.
pub open spec fn spec_row_all(img: Surface, r: int, c: Color) -> bool {
    forall|col: int| 0 <= col < img.width as int ==> img.spec_at(col, r) == c
}

/// Every cell of the picture holds exactly c.
pub open spec fn spec_all(img: Surface, c: Color) -> bool {
    forall|px: int, py: int| img.in_bounds(px, py) ==> img.spec_at(px, py) == c
}

/// The undo stack after a snapshot is pushed: the snapshot is appended and,
/// when the depth would pass `UNDODEPTH`, the oldest entry is evicted.
pub open spec fn spec_undo_push(stack: Seq<Surface>, snap: Surface) -> Seq<Surface> {
    let grown = stack.push(snap);
    if grown.len() > UNDODEPTH as int {
        grown.drop_first()
    } else {
        grown
    }
}

/// The undo stack after a restore: the newest snapshot is discarded, unless
/// only the initial snapshot remains, in which case nothing changes.
pub open spec fn spec_undo_pop(stack: Seq<Surface>) -> Seq<Surface> {
    if stack.len() > 1 {
        stack.drop_last()
    } else {
        stack
    }
}

/// The undo stack after a whole sequence of snapshots is pushed in order.
pub open spec fn spec_undo_push_all(stack: Seq<Surface>, snaps: Seq<Surface>) -> Seq<Surface>
    decreases snaps.len(),
{
    if snaps.len() == 0 {
        stack
    } else {
        spec_undo_push_all(spec_undo_push(stack, snaps[0]), snaps.drop_first())
    }
}

/// Saving a snapshot, mutating, saving again and then restoring brings the
/// stack's restore target back to the first snapshot: after the two saves the
/// entry below the top is exactly the first saved picture, so a restore
/// (which discards the top and reinstates the entry below it) returns the
/// pre-mutation state.
pub proof fn lemma_restore_returns_to_saved(stack: Seq<Surface>, first: Surface, second: Surface)
    requires
        1 <= stack.len() <= UNDODEPTH as int,
    ensures
        spec_undo_push(spec_undo_push(stack, first), second).len() > 1,
        spec_undo_push(spec_undo_push(stack, first), second)[spec_undo_push(
            spec_undo_push(stack, first),
            second,
        ).len() - 2] == first,
{
}

/// A restore never drops the stack below one entry: the initial snapshot is
/// always retained, and once it is the only entry a restore changes nothing.
pub proof fn lemma_restore_keeps_floor(stack: Seq<Surface>)
    requires
        stack.len() >= 1,
    ensures
        spec_undo_pop(stack).len() >= 1,
        spec_undo_pop(stack)[0] == stack[0],
        stack.len() == 1 ==> spec_undo_pop(stack) == stack,
{
}

/// Pushing one snapshot keeps the depth within `UNDODEPTH`, and on a full
/// stack evicts exactly the oldest entry.
pub proof fn lemma_push_depth_bound(stack: Seq<Surface>, snap: Surface)
    requires
        stack.len() <= UNDODEPTH as int,
    ensures
        spec_undo_push(stack, snap).len() <= UNDODEPTH as int,
        stack.len() < UNDODEPTH as int ==> spec_undo_push(stack, snap) == stack.push(snap),
        stack.len() == UNDODEPTH as int ==> spec_undo_push(stack, snap) =~= stack.drop_first().push(
            snap,
        ),
{
}

/// Pushing any run of snapshots keeps the depth within `UNDODEPTH`; pushing
/// `UNDODEPTH` or more leaves exactly the newest `UNDODEPTH` of them on the
/// stack, oldest evicted first.
pub proof fn lemma_push_all_keeps_latest(stack: Seq<Surface>, snaps: Seq<Surface>)
    requires
        stack.len() <= UNDODEPTH as int,
    ensures
        spec_undo_push_all(stack, snaps).len() <= UNDODEPTH as int,
        spec_undo_push_all(stack, snaps) =~= (if stack.len() + snaps.len() <= UNDODEPTH as int {
            stack + snaps
        } else {
            (stack + snaps).skip(stack.len() + snaps.len() - UNDODEPTH as int)
        }),
    decreases snaps.len(),
{
    if snaps.len() == 0 {
        assert(stack + snaps =~= stack);
    } else {
        let pushed = spec_undo_push(stack, snaps[0]);
        lemma_push_all_keeps_latest(pushed, snaps.drop_first());
        assert(pushed + snaps.drop_first() =~= (if stack.len() + 1 > UNDODEPTH as int {
            (stack + snaps).drop_first()
        } else {
            stack + snaps
        }));
        if stack.len() + snaps.len() > UNDODEPTH as int {
            assert(spec_undo_push_all(stack, snaps) =~= (stack + snaps).skip(
                stack.len() + snaps.len() - UNDODEPTH as int,
            ));
        }
    }
}

/// Pushing `UNDODEPTH` or more snapshots leaves exactly the newest
/// `UNDODEPTH` of them, whatever the stack held before.
pub proof fn lemma_push_all_overflow(stack: Seq<Surface>, snaps: Seq<Surface>)
    requires
        stack.len() <= UNDODEPTH as int,
        snaps.len() >= UNDODEPTH as int,
    ensures
        spec_undo_push_all(stack, snaps) =~= snaps.skip(snaps.len() - UNDODEPTH as int),
{
    lemma_push_all_keeps_latest(stack, snaps);
}

/// True when (px, py) lies in the closed box spanned by the two corner
/// points (ax, ay) and (bx, by).
pub open spec fn in_box(px: int, py: int, ax: int, ay: int, bx: int, by: int) -> bool {
    vstd::math::min(ax, bx) <= px <= vstd::math::max(ax, bx) && vstd::math::min(ay, by) <= py
        <= vstd::math::max(ay, by)
}


/// The absolute span between two coordinates.
pub open spec fn spec_span(a: int, b: int) -> int {
    if a > b {
        a - b
    } else {
        b - a
    }
}

/// The step direction from one coordinate toward another.
pub open spec fn spec_dir(a: int, b: int) -> int {
    if a < b {
        1
    } else {
        -1
    }
}

/// The initial Bresenham error term for spans dx and dy.
pub open spec fn spec_e0(dx: int, dy: int) -> int {
    if dx > dy {
        dx / 2
    } else {
        -(dy / 2)
    }
}

/// The x position after one step of the Bresenham walk.
pub open spec fn spec_step_x(x: int, err: int, dx: int, sx: int) -> int {
    if 2 * err > -dx {
        x + sx
    } else {
        x
    }
}

/// The y position after one step of the Bresenham walk.
pub open spec fn spec_step_y(y: int, err: int, dy: int, sy: int) -> int {
    if 2 * err < dy {
        y + sy
    } else {
        y
    }
}

/// The error term after one step of the Bresenham walk: both comparisons
/// read the doubled error term from before the step.
pub open spec fn spec_step_err(err: int, dx: int, dy: int) -> int {
    (if 2 * err > -dx {
        err - dy
    } else {
        err
    }) + (if 2 * err < dy {
        dx
    } else {
        0
    })
}

/// The points the Bresenham walk visits from (x, y) until it reaches
/// (x2, y2).  The fuel merely bounds the recursion; the walk provably
/// reaches its endpoint within dx + dy steps, so the executable line never
/// exhausts it.
pub open spec fn spec_walk(
    x: int,
    y: int,
    err: int,
    x2: int,
    y2: int,
    dx: int,
    dy: int,
    sx: int,
    sy: int,
    fuel: nat,
) -> Set<(int, int)>
    decreases fuel,
{
    if (x == x2 && y == y2) || fuel == 0 {
        set![(x, y)]
    } else {
        set![(x, y)].union(
            spec_walk(
                spec_step_x(x, err, dx, sx),
                spec_step_y(y, err, dy, sy),
                spec_step_err(err, dx, dy),
                x2,
                y2,
                dx,
                dy,
                sx,
                sy,
                (fuel - 1) as nat,
            ),
        )
    }
}

/// Every pixel of the Bresenham line from (ax, ay) to (bx, by): the walk
/// from (ax, ay) with the initial error term over the absolute spans.
pub open spec fn spec_line_pts(ax: int, ay: int, bx: int, by: int) -> (Set<(int, int)>) {
    spec_walk(
        ax,
        ay,
        spec_e0(spec_span(ax, bx), spec_span(ay, by)),
        bx,
        by,
        spec_span(ax, bx),
        spec_span(ay, by),
        spec_dir(ax, bx),
        spec_dir(ay, by),
        (spec_span(ax, bx) + spec_span(ay, by)) as nat,
    )
}

/// A walk always contains its own starting point.
pub proof fn lemma_walk_contains_start(
    x: int,
    y: int,
    err: int,
    x2: int,
    y2: int,
    dx: int,
    dy: int,
    sx: int,
    sy: int,
    fuel: nat,
)
    ensures
        spec_walk(x, y, err, x2, y2, dx, dy, sx, sy, fuel).contains((x, y)),
{
}


/// A horizontal walk (dy == 0, nonnegative error term) visits exactly the
/// pixels of its row between its two ends.
proof fn lemma_walk_horizontal(
    x: int,
    y: int,
    err: int,
    x2: int,
    dx: int,
    sx: int,
    sy: int,
    fuel: nat,
)
    requires
        err >= 0,
        dx >= 0,
        x != x2 ==> dx > 0,
        sx == 1 ==> x <= x2 && x2 - x <= fuel,
        sx == -1 ==> x >= x2 && x - x2 <= fuel,
        sx == 1 || sx == -1,
    ensures
        spec_walk(x, y, err, x2, y, dx, 0, sx, sy, fuel) =~= Set::new(
            |p: (int, int)|
                p.1 == y && vstd::math::min(x, x2) <= p.0 <= vstd::math::max(x, x2),
        ),
    decreases fuel,
{
    if x == x2 {
        assert(spec_walk(x, y, err, x2, y, dx, 0, sx, sy, fuel) =~= Set::new(
            |p: (int, int)|
                p.1 == y && vstd::math::min(x, x2) <= p.0 <= vstd::math::max(x, x2),
        ));
    } else {
        assert(spec_step_x(x, err, dx, sx) == x + sx);
        assert(spec_step_y(y, err, 0, sy) == y);
        assert(spec_step_err(err, dx, 0) == err);
        lemma_walk_horizontal(x + sx, y, err, x2, dx, sx, sy, (fuel - 1) as nat);
        assert(spec_walk(x, y, err, x2, y, dx, 0, sx, sy, fuel) =~= Set::new(
            |p: (int, int)|
                p.1 == y && vstd::math::min(x, x2) <= p.0 <= vstd::math::max(x, x2),
        ));
    }
}

/// A horizontal line's pixel set is exactly the run of its row between its
/// two endpoints.
pub proof fn lemma_line_pts_horizontal(ax: int, y: int, bx: int)
    ensures
        spec_line_pts(ax, y, bx, y) =~= Set::new(
            |p: (int, int)|
                p.1 == y && vstd::math::min(ax, bx) <= p.0 <= vstd::math::max(ax, bx),
        ),
{
    lemma_walk_horizontal(
        ax,
        y,
        spec_e0(spec_span(ax, bx), 0),
        bx,
        spec_span(ax, bx),
        spec_dir(ax, bx),
        spec_dir(y, y),
        spec_span(ax, bx) as nat,
    );
}

/// In the Bresenham walk, once the driven coordinate has covered its whole
/// span (gx == dx) but the other has not, the error term refuses a further
/// x step: the walk never overshoots its endpoint.
proof fn lemma_no_x_overshoot(dx: int, dy: int, e0: int, gy: int, err: int)
    requires
        dx >= 0,
        dy >= 0,
        0 <= gy < dy,
        e0 == if dx > dy {
            dx / 2
        } else {
            -(dy / 2)
        },
        err == e0 - dx * dy + gy * dx,
    ensures
        2 * err <= -dx,
{
    if dx > dy {
        assert(2 * e0 <= dx);
        assert(2 * err <= -dx) by (nonlinear_arith)
            requires
                dx >= 0,
                dy >= 0,
                0 <= gy < dy,
                2 * e0 <= dx,
                err == e0 - dx * dy + gy * dx,
        ;
    } else {
        assert(2 * e0 <= -dy + 1);
        assert(2 * err <= -dx) by (nonlinear_arith)
            requires
                dx >= 0,
                dy >= 1,
                0 <= gy < dy,
                2 * e0 <= -dy + 1,
                err == e0 - dx * dy + gy * dx,
        ;
    }
}

/// The mirrored fact for the y coordinate: with gy == dy and gx still short
/// of dx, the error term refuses a further y step.
proof fn lemma_no_y_overshoot(dx: int, dy: int, e0: int, gx: int, err: int)
    requires
        dx >= 0,
        dy >= 0,
        0 <= gx < dx,
        e0 == if dx > dy {
            dx / 2
        } else {
            -(dy / 2)
        },
        err == e0 - gx * dy + dy * dx,
    ensures
        2 * err >= dy,
{
    if dx > dy {
        assert(2 * e0 >= dx - 1);
        assert(2 * err >= dy) by (nonlinear_arith)
            requires
                dx >= 1,
                dy >= 0,
                0 <= gx < dx,
                2 * e0 >= dx - 1,
                err == e0 - gx * dy + dy * dx,
        ;
    } else {
        assert(2 * e0 >= -dy);
        assert(2 * err >= dy) by (nonlinear_arith)
            requires
                dx >= 0,
                dy >= 0,
                0 <= gx < dx,
                2 * e0 >= -dy,
                err == e0 - gx * dy + dy * dx,
        ;
    }
}


/// How many cells of the buffer hold exactly the color `c`.
pub open spec fn count_eq(s: Seq<Color>, c: Color) -> nat
    decreases s.len(),
{
    if s.len() == 0 {
        0
    } else {
        count_eq(s.drop_last(), c) + (if s.last() == c {
            1nat
        } else {
            0nat
        })
    }
}

/// A buffer whose matching cells all matched before has no more matches.
proof fn lemma_count_le(s1: Seq<Color>, s2: Seq<Color>, c: Color)
    requires
        s1.len() == s2.len(),
        forall|j: int| 0 <= j < s2.len() && s2[j] == c ==> s1[j] == c,
    ensures
        count_eq(s2, c) <= count_eq(s1, c),
    decreases s1.len(),
{
    if s1.len() > 0 {
        assert(forall|j: int|
            0 <= j < s2.drop_last().len() && s2.drop_last()[j] == c ==> s1.drop_last()[j] == c);
        lemma_count_le(s1.drop_last(), s2.drop_last(), c);
    }
}

/// If additionally some cell that matched stopped matching, the count
/// strictly drops.
proof fn lemma_count_lt(s1: Seq<Color>, s2: Seq<Color>, c: Color, i: int)
    requires
        s1.len() == s2.len(),
        forall|j: int| 0 <= j < s2.len() && s2[j] == c ==> s1[j] == c,
        0 <= i < s1.len(),
        s1[i] == c,
        s2[i] != c,
    ensures
        count_eq(s2, c) < count_eq(s1, c),
    decreases s1.len(),
{
    assert(forall|j: int|
        0 <= j < s2.drop_last().len() && s2.drop_last()[j] == c ==> s1.drop_last()[j] == c);
    if i == s1.len() - 1 {
        lemma_count_le(s1.drop_last(), s2.drop_last(), c);
    } else {
        lemma_count_lt(s1.drop_last(), s2.drop_last(), c, i);
    }
}


/// The eight symmetric points of one midpoint-circle step around (cx, cy).
pub open spec fn spec_octet(cx: int, cy: int, x: int, y: int) -> (Set<(int, int)>) {
    set![
        (cx - x, cy + y),
        (cx + x, cy + y),
        (cx - y, cy + x),
        (cx + y, cy + x),
        (cx - x, cy - y),
        (cx + x, cy - y),
        (cx - y, cy - x),
        (cx + y, cy - x),
    ]
}

/// The error term of a midpoint-circle step after the y advance.
pub open spec fn spec_ring_e1(y: int, err: int) -> int {
    err + 1 + 2 * (y + 1)
}

/// Whether a midpoint-circle step pulls x inward.
pub open spec fn spec_ring_dec(x: int, y: int, err: int) -> bool {
    2 * (spec_ring_e1(y, err) - x) + 1 > 0
}

/// The x coordinate after one midpoint-circle step.
pub open spec fn spec_ring_step_x(x: int, y: int, err: int) -> int {
    if spec_ring_dec(x, y, err) {
        x - 1
    } else {
        x
    }
}

/// The error term after one midpoint-circle step.
pub open spec fn spec_ring_step_err(x: int, y: int, err: int) -> int {
    if spec_ring_dec(x, y, err) {
        spec_ring_e1(y, err) + 1 - 2 * (x - 1)
    } else {
        spec_ring_e1(y, err)
    }
}

/// The points the midpoint-circle walk visits from state (x, y, err); the
/// fuel merely bounds the recursion and is never exhausted on the
/// executable path.
pub open spec fn spec_ring_walk(
    cx: int,
    cy: int,
    x: int,
    y: int,
    err: int,
    fuel: nat,
) -> Set<(int, int)>
    decreases fuel,
{
    if x < y || fuel == 0 {
        Set::empty()
    } else {
        spec_octet(cx, cy, x, y).union(
            spec_ring_walk(
                cx,
                cy,
                spec_ring_step_x(x, y, err),
                y + 1,
                spec_ring_step_err(x, y, err),
                (fuel - 1) as nat,
            ),
        )
    }
}

/// Every pixel of the aliased circle outline of radius r around (cx, cy).
pub open spec fn spec_circle_pts(cx: int, cy: int, r: int) -> (Set<(int, int)>) {
    spec_ring_walk(cx, cy, r, 0, 0, (r + 2) as nat)
}

/// The one or two mirrored rows a filled-circle span step covers: the rows
/// cy + dy and cy - dy, each over the run of half-width halfw around cx.
pub open spec fn spec_rows(cx: int, cy: int, halfw: int, dy: int) -> (Set<(int, int)>) {
    Set::new(
        |p: (int, int)|
            (p.1 == cy + dy || p.1 == cy - dy) && cx - halfw <= p.0 <= cx + halfw,
    )
}

/// The points the filled-circle span walk covers from state (x, y, err).
pub open spec fn spec_disc_walk(
    cx: int,
    cy: int,
    x: int,
    y: int,
    err: int,
    fuel: nat,
) -> Set<(int, int)>
    decreases fuel,
{
    if x < y || fuel == 0 {
        Set::empty()
    } else {
        let e1 = err + 2 * y + 1;
        let base = spec_rows(cx, cy, x, y);
        let extra = if e1 >= 0 && x != y {
            spec_rows(cx, cy, y, x)
        } else {
            Set::empty()
        };
        let nx = if e1 >= 0 {
            x - 1
        } else {
            x
        };
        let nerr = if e1 >= 0 {
            e1 - x - (x - 1)
        } else {
            e1
        };
        base.union(extra).union(spec_disc_walk(cx, cy, nx, y + 1, nerr, (fuel - 1) as nat))
    }
}

/// Every pixel of the filled disc of radius r around (cx, cy), as the span
/// walk covers it.
pub open spec fn spec_disc_pts(cx: int, cy: int, r: int) -> (Set<(int, int)>) {
    spec_disc_walk(cx, cy, r, 0, -r, (r + 2) as nat)
}

/// Multiplication is monotone in both nonnegative factors.
proof fn lemma_mul_le(a: int, b: int, c: int, d: int)
    requires
        0 <= a <= c,
        0 <= b <= d,
    ensures
        a * b <= c * d,
{
    assert(a * b <= c * d) by (nonlinear_arith)
        requires
            0 <= a <= c,
            0 <= b <= d,
    ;
}

/// A raster editing canvas: the picture being edited, its mask, the bounded
/// undo stack and the cut/copy clipboard.
///
/// The mask gates the alpha of every write made through `pixel` while
/// `mask_enabled` holds.  `mask_flag` tells which of the two stored rasters
/// is currently the user-visible editing target after `paint_on_mask` swaps
/// them.  Writes through the mask at positions the mask does not cover are
/// stored ungated.
pub struct Canvas {
    pub image: Surface,
    pub undo_stack: Vec<Surface>,
    pub mask: Surface,
    pub mask_flag: bool,
    pub mask_enabled: bool,
    pub copy_buffer: Surface,
}

impl Canvas {
    /// Well-formed: all rasters carry consistent buffers and the undo stack
    /// holds between 1 and `UNDODEPTH` well-formed snapshots.
    pub open spec fn wf(self) -> bool {
        &&& self.image.wf()
        &&& self.mask.wf()
        &&& self.copy_buffer.wf()
        &&& 1 <= self.undo_stack@.len() <= UNDODEPTH as int
        &&& forall|i: int| 0 <= i < self.undo_stack@.len() ==> (#[trigger] self.undo_stack@[i]).wf()
    }

    /// Everything but the edited picture is kept as it was.
    pub open spec fn same_but_image(self, other: Canvas) -> bool {
        &&& self.undo_stack == other.undo_stack
        &&& self.mask == other.mask
        &&& self.mask_flag == other.mask_flag
        &&& self.mask_enabled == other.mask_enabled
        &&& self.copy_buffer == other.copy_buffer
    }

    /// The color that writing `color` at (x, y) through the mask state
    /// actually stores.
    pub open spec fn spec_write(self, x: int, y: int, color: Color) -> Color {
        if self.mask_enabled && self.mask.in_bounds(x, y) {
            spec_masked(color, self.mask.spec_at(x, y))
        } else {
            color
        }
    }

    /// The translucent marker color the mask is created with and cleared to.
    pub fn mask_marker() -> (c: Color)
        ensures
            c.data == Color::spec_rgba(255, 0, 0, 50),
    {
        Color::rgba(255, 0, 0, 50)
    }

    /// A canvas over an existing picture: the mask is created at the same
    /// size filled with the marker color, the undo stack is seeded with one
    /// blank snapshot of the same size, and the clipboard starts empty.
    pub fn from_image(image: Surface) -> (c: Canvas)
        requires
            image.wf(),
        ensures
            c.wf(),
            c.image == image,
            c.mask_flag == false,
            c.mask_enabled == false,
            c.undo_stack@.len() == 1,
            c.undo_stack@[0].same_dims(image),
            forall|i: int|
                0 <= i < c.undo_stack@[0].data@.len() ==> c.undo_stack@[0].data@[i].data
                    == Color::spec_rgba(0, 0, 0, 255),
            c.mask.same_dims(image),
            c.copy_buffer.width == 0,
            c.copy_buffer.height == 0,
            forall|x: int, y: int|
                c.mask.in_bounds(x, y) ==> c.mask.spec_at(x, y).data == Color::spec_rgba(
                    255,
                    0,
                    0,
                    50,
                ),
    {
        let w = image.width;
        let h = image.height;
        proof {
            assert(image.data@.len() <= usize::MAX as int);
        }
        let blank = Surface::new(w, h);
        let mask = Surface::from_color(w, h, Canvas::mask_marker());
        let mut undo_stack: Vec<Surface> = Vec::new();
        undo_stack.push(blank);
        let c = Canvas {
            image,
            undo_stack,
            mask,
            mask_flag: false,
            mask_enabled: false,
            copy_buffer: Surface::new(0, 0),
        };
        proof {
            assert forall|x: int, y: int| c.mask.in_bounds(x, y) implies c.mask.spec_at(x, y).data
                == Color::spec_rgba(255, 0, 0, 50) by {
                crate::surface::lemma_index_in_range(
                    c.mask.width as int,
                    c.mask.height as int,
                    x,
                    y,
                );
            }
        }
        c
    }

    /// A canvas of the given size over an opaque black picture.
    pub fn new(width: u32, height: u32) -> (c: Canvas)
        requires
            (width as int) * (height as int) <= usize::MAX as int,
        ensures
            c.wf(),
            c.image.width == width,
            c.image.height == height,
            c.mask_flag == false,
            c.mask_enabled == false,
            c.undo_stack@.len() == 1,
            c.undo_stack@[0].width == width,
            c.undo_stack@[0].height == height,
            forall|i: int|
                0 <= i < c.undo_stack@[0].data@.len() ==> c.undo_stack@[0].data@[i].data
                    == Color::spec_rgba(0, 0, 0, 255),
            c.mask.width == width,
            c.mask.height == height,
            forall|x: int, y: int|
                c.mask.in_bounds(x, y) ==> c.mask.spec_at(x, y).data == Color::spec_rgba(
                    255,
                    0,
                    0,
                    50,
                ),
            c.copy_buffer.width == 0,
            c.copy_buffer.height == 0,
            forall|x: int, y: int|
                c.image.in_bounds(x, y) ==> c.image.spec_at(x, y).data == Color::spec_rgba(
                    0,
                    0,
                    0,
                    255,
                ),
    {
        let image = Surface::new(width, height);
        let c = Canvas::from_image(image);
        proof {
            assert forall|x: int, y: int| c.image.in_bounds(x, y) implies c.image.spec_at(
                x,
                y,
            ).data == Color::spec_rgba(0, 0, 0, 255) by {
                crate::surface::lemma_index_in_range(
                    c.image.width as int,
                    c.image.height as int,
                    x,
                    y,
                );
            }
        }
        c
    }

    /// A canvas of the given size over a picture filled with one color.
    pub fn from_color(width: u32, height: u32, color: Color) -> (c: Canvas)
        requires
            (width as int) * (height as int) <= usize::MAX as int,
        ensures
            c.wf(),
            c.image.width == width,
            c.image.height == height,
            c.mask_flag == false,
            c.mask_enabled == false,
            c.undo_stack@.len() == 1,
            c.undo_stack@[0].width == width,
            c.undo_stack@[0].height == height,
            forall|i: int|
                0 <= i < c.undo_stack@[0].data@.len() ==> c.undo_stack@[0].data@[i].data
                    == Color::spec_rgba(0, 0, 0, 255),
            c.mask.width == width,
            c.mask.height == height,
            forall|x: int, y: int|
                c.mask.in_bounds(x, y) ==> c.mask.spec_at(x, y).data == Color::spec_rgba(
                    255,
                    0,
                    0,
                    50,
                ),
            c.copy_buffer.width == 0,
            c.copy_buffer.height == 0,
            forall|x: int, y: int|
                c.image.in_bounds(x, y) ==> c.image.spec_at(x, y) == color,
    {
        let image = Surface::from_color(width, height, color);
        let c = Canvas::from_image(image);
        proof {
            assert forall|x: int, y: int| c.image.in_bounds(x, y) implies c.image.spec_at(x, y)
                == color by {
                crate::surface::lemma_index_in_range(
                    c.image.width as int,
                    c.image.height as int,
                    x,
                    y,
                );
            }
        }
        c
    }

    pub fn width(&self) -> (w: u32)
        ensures
            w == self.image.width,
    {
        self.image.width
    }

    pub fn height(&self) -> (h: u32)
        ensures
            h == self.image.height,
    {
        self.image.height
    }

    /// Which raster is currently the user-visible editing target.
    pub fn mask_flag(&self) -> (f: bool)
        ensures
            f == self.mask_flag,
    {
        self.mask_flag
    }

    /// Turn mask-gated writing on or off.
    pub fn enable_mask(&mut self, status: bool)
        requires
            old(self).wf(),
        ensures
            final(self).wf(),
            *final(self) == (Canvas { mask_enabled: status, ..*old(self) }),
    {
        self.mask_enabled = status;
    }

    /// Swap the picture and the mask, so the user paints directly onto the
    /// mask; gated writing is enabled exactly when the flag transitions to
    /// true, and disabled on the transition back.
    pub fn paint_on_mask(&mut self)
        requires
            old(self).wf(),
        ensures
            final(self).wf(),
            final(self).image.same_pixels(old(self).mask),
            final(self).mask.same_pixels(old(self).image),
            final(self).mask_flag == !old(self).mask_flag,
            final(self).mask_enabled == final(self).mask_flag,
            final(self).undo_stack == old(self).undo_stack,
            final(self).copy_buffer == old(self).copy_buffer,
    {
        let image2 = self.image.duplicate();
        self.image = self.mask.duplicate();
        self.mask = image2;
        if self.mask_flag {
            self.mask_flag = false;
            self.mask_enabled = false;
        } else {
            self.mask_flag = true;
            self.mask_enabled = true;
        }
    }

    /// Reset whichever raster is not the user-visible editing target to the
    /// translucent marker color.
    pub fn clear_mask(&mut self)
        requires
            old(self).wf(),
        ensures
            final(self).wf(),
            final(self).mask_flag == old(self).mask_flag,
            final(self).mask_enabled == old(self).mask_enabled,
            final(self).undo_stack == old(self).undo_stack,
            final(self).copy_buffer == old(self).copy_buffer,
            old(self).mask_flag ==> final(self).mask == old(self).mask
                && final(self).image.same_dims(old(self).image) && forall|i: int|
                0 <= i < final(self).image.data@.len() ==> final(self).image.data@[i].data
                    == Color::spec_rgba(255, 0, 0, 50),
            !old(self).mask_flag ==> final(self).image == old(self).image
                && final(self).mask.same_dims(old(self).mask) && forall|i: int|
                0 <= i < final(self).mask.data@.len() ==> final(self).mask.data@[i].data
                    == Color::spec_rgba(255, 0, 0, 50),
    {
        if self.mask_flag {
            self.image.set_all(Canvas::mask_marker());
        } else {
            self.mask.set_all(Canvas::mask_marker());
        }
    }

    /// Snapshot the picture onto the undo stack, evicting the oldest entry
    /// when the stack is full.
    pub fn undo_save(&mut self)
        requires
            old(self).wf(),
        ensures
            final(self).wf(),
            final(self).image == old(self).image,
            final(self).mask == old(self).mask,
            final(self).mask_flag == old(self).mask_flag,
            final(self).mask_enabled == old(self).mask_enabled,
            final(self).copy_buffer == old(self).copy_buffer,
            final(self).undo_stack@ == spec_undo_push(
                old(self).undo_stack@,
                final(self).undo_stack@.last(),
            ),
            final(self).undo_stack@.last().same_pixels(old(self).image),
    {
        let snap = self.image.duplicate();
        self.undo_stack.push(snap);
        if self.undo_stack.len() > UNDODEPTH {
            self.undo_stack.remove(0);
            proof {
                assert(self.undo_stack@ =~= old(self).undo_stack@.push(snap).drop_first());
            }
        }
        proof {
            assert(self.undo_stack@.last() == snap);
        }
    }

    /// Restore: discard the newest snapshot and reinstate the one below it
    /// as the picture.  With only the initial snapshot left this is a no-op.
    pub fn undo(&mut self)
        requires
            old(self).wf(),
        ensures
            final(self).wf(),
            final(self).mask == old(self).mask,
            final(self).mask_flag == old(self).mask_flag,
            final(self).mask_enabled == old(self).mask_enabled,
            final(self).copy_buffer == old(self).copy_buffer,
            final(self).undo_stack@ == spec_undo_pop(old(self).undo_stack@),
            old(self).undo_stack@.len() > 1 ==> final(self).image.same_pixels(
                old(self).undo_stack@[old(self).undo_stack@.len() - 2],
            ),
            old(self).undo_stack@.len() == 1 ==> final(self).image == old(self).image,
    {
        let l = self.undo_stack.len();
        if l > 1 {
            self.undo_stack.pop();
            let restored = self.undo_stack[l - 2].duplicate();
            self.image = restored;
            proof {
                assert(self.undo_stack@ =~= old(self).undo_stack@.drop_last());
            }
        }
    }

    /// Clear the picture to opaque white, snapshotting it first.
    pub fn clear(&mut self)
        requires
            old(self).wf(),
        ensures
            final(self).wf(),
            final(self).mask == old(self).mask,
            final(self).mask_flag == old(self).mask_flag,
            final(self).mask_enabled == old(self).mask_enabled,
            final(self).copy_buffer == old(self).copy_buffer,
            final(self).undo_stack@ == spec_undo_push(
                old(self).undo_stack@,
                final(self).undo_stack@.last(),
            ),
            final(self).undo_stack@.last().same_pixels(old(self).image),
            final(self).image.same_dims(old(self).image),
            forall|i: int|
                0 <= i < final(self).image.data@.len() ==> final(self).image.data@[i].data
                    == Color::spec_rgba(255, 255, 255, 255),
    {
        self.undo_save();
        self.image.set_all(Color::rgba(255, 255, 255, 255));
    }

    /// Write one pixel through the mask: the stored color is
    /// `spec_write(x, y, color)`, and positions off the picture are ignored.
    pub fn pixel(&mut self, x: i32, y: i32, color: Color)
        requires
            old(self).wf(),
        ensures
            final(self).wf(),
            final(self).same_but_image(*old(self)),
            final(self).image.same_dims(old(self).image),
            forall|px: int, py: int|
                old(self).image.in_bounds(px, py) ==> final(self).image.spec_at(px, py) == (if px
                    == x as int && py == y as int {
                    old(self).spec_write(x as int, y as int, color)
                } else {
                    old(self).image.spec_at(px, py)
                }),
            final(self).image.data@.len() == old(self).image.data@.len(),
            forall|j: int|
                0 <= j < old(self).image.data@.len() ==> (final(self).image.data@[j] == old(
                    self,
                ).image.data@[j] || (old(self).image.in_bounds(x as int, y as int) && j == old(
                    self,
                ).image.spec_index(x as int, y as int) && final(self).image.data@[j] == old(
                    self,
                ).spec_write(x as int, y as int, color))),
    {
        if 0 <= x && 0 <= y && (x as i64) < (self.image.width as i64) && (y as i64) < (
        self.image.height as i64) {
            let mut c = color;
            if self.mask_enabled {
                if (x as i64) < (self.mask.width as i64) && (y as i64) < (
                self.mask.height as i64) {
                    let gate: u8 = self.mask.get(x, y).r();
                    let ca: u8 = color.a();
                    c = Color::rgba(color.r(), color.g(), color.b(), gate & ca);
                    proof {
                        assert((gate & ca) as u32 == (gate as u32) & (ca as u32))
                            by (bit_vector);
                    }
                }
            }
            assert(c == old(self).spec_write(x as int, y as int, color));
            self.image.set_pixel(x, y, c);
            proof {
                let i = old(self).image.spec_index(x as int, y as int);
                crate::surface::lemma_index_in_range(
                    old(self).image.width as int,
                    old(self).image.height as int,
                    x as int,
                    y as int,
                );
                assert forall|j: int| 0 <= j < old(self).image.data@.len() implies (
                self.image.data@[j] == old(self).image.data@[j] || (old(self).image.in_bounds(
                    x as int,
                    y as int,
                ) && j == i && self.image.data@[j] == old(self).spec_write(
                    x as int,
                    y as int,
                    color,
                ))) by {
                    assert(self.image.data@ == old(self).image.data@.update(i, c));
                }
            }
        }
    }
    /// Integer Bresenham line from (argx1, argy1) to (argx2, argy2), every
    /// pixel written through the mask.  Both endpoints are always written;
    /// nothing outside the box spanned by the endpoints changes.
    #[verifier::loop_isolation(false)]
    #[verifier::rlimit(100)]
    #[verifier::spinoff_prover]
    pub fn line(&mut self, argx1: i32, argy1: i32, argx2: i32, argy2: i32, color: Color)
        requires
            old(self).wf(),
        ensures
            final(self).wf(),
            final(self).same_but_image(*old(self)),
            final(self).image.same_dims(old(self).image),
            forall|px: int, py: int|
                old(self).image.in_bounds(px, py) ==> (final(self).image.spec_at(px, py) == old(
                    self,
                ).image.spec_at(px, py) || final(self).image.spec_at(px, py) == old(
                    self,
                ).spec_write(px, py, color)),
            forall|px: int, py: int|
                old(self).image.in_bounds(px, py) && !in_box(
                    px,
                    py,
                    argx1 as int,
                    argy1 as int,
                    argx2 as int,
                    argy2 as int,
                ) ==> final(self).image.spec_at(px, py) == old(self).image.spec_at(px, py),
            old(self).image.in_bounds(argx1 as int, argy1 as int) ==> final(self).image.spec_at(
                argx1 as int,
                argy1 as int,
            ) == old(self).spec_write(argx1 as int, argy1 as int, color),
            old(self).image.in_bounds(argx2 as int, argy2 as int) ==> final(self).image.spec_at(
                argx2 as int,
                argy2 as int,
            ) == old(self).spec_write(argx2 as int, argy2 as int, color),
            forall|px: int, py: int|
                old(self).image.in_bounds(px, py) ==> final(self).image.spec_at(px, py) == (
                if spec_line_pts(
                    argx1 as int,
                    argy1 as int,
                    argx2 as int,
                    argy2 as int,
                ).contains((px, py)) {
                    old(self).spec_write(px, py, color)
                } else {
                    old(self).image.spec_at(px, py)
                }),
    {
        let x1: i64 = argx1 as i64;
        let y1: i64 = argy1 as i64;
        let x2: i64 = argx2 as i64;
        let y2: i64 = argy2 as i64;
        let dx: i64 = if x1 > x2 {
            x1 - x2
        } else {
            x2 - x1
        };
        let dy: i64 = if y1 > y2 {
            y1 - y2
        } else {
            y2 - y1
        };
        let sx: i64 = if x1 < x2 {
            1
        } else {
            -1
        };
        let sy: i64 = if y1 < y2 {
            1
        } else {
            -1
        };
        let e0: i64 = if dx > dy {
            dx / 2
        } else {
            -(dy / 2)
        };
        let mut err: i64 = e0;
        let mut x: i64 = x1;
        let mut y: i64 = y1;
        let ghost mut gx: int = 0;
        let ghost mut gy: int = 0;
        proof {
            assert(err as int == e0 as int - gx * (dy as int) + gy * (dx as int))
                by (nonlinear_arith)
                requires
                    gx == 0,
                    gy == 0,
                    err == e0,
            ;
        }
        let ghost mut iters: int = 0;
        let ghost mut painted: Set<(int, int)> = set![(argx1 as int, argy1 as int)];
        self.pixel(argx1, argy1, color);
        proof {
            lemma_walk_contains_start(
                x as int,
                y as int,
                err as int,
                x2 as int,
                y2 as int,
                dx as int,
                dy as int,
                sx as int,
                sy as int,
                (dx + dy - iters) as nat,
            );
            assert(spec_line_pts(argx1 as int, argy1 as int, argx2 as int, argy2 as int)
                =~= painted.union(
                spec_walk(
                    x as int,
                    y as int,
                    err as int,
                    x2 as int,
                    y2 as int,
                    dx as int,
                    dy as int,
                    sx as int,
                    sy as int,
                    (dx + dy - iters) as nat,
                ),
            ));
        }
        #[verifier::loop_isolation(true)]
        while x != x2 || y != y2
            invariant
                self.wf(),
                self.same_but_image(*old(self)),
                self.image.same_dims(old(self).image),
                x1 == argx1 as i64,
                y1 == argy1 as i64,
                x2 == argx2 as i64,
                y2 == argy2 as i64,
                dx as int == spec_span(argx1 as int, argx2 as int),
                dy as int == spec_span(argy1 as int, argy2 as int),
                sx as int == spec_dir(argx1 as int, argx2 as int),
                sy as int == spec_dir(argy1 as int, argy2 as int),
                e0 as int == spec_e0(dx as int, dy as int),
                sx == 1 ==> x as int == x1 as int + gx,
                sx == -1 ==> x as int == x1 as int - gx,
                sy == 1 ==> y as int == y1 as int + gy,
                sy == -1 ==> y as int == y1 as int - gy,
                0 <= gx <= dx as int,
                0 <= gy <= dy as int,
                err as int == e0 as int - gx * (dy as int) + gy * (dx as int),
                -(dx as int) - 2 * (dy as int) <= 2 * (err as int) <= 2 * (dx as int) + (
                dy as int),
                forall|px: int, py: int|
                    old(self).image.in_bounds(px, py) && !in_box(
                        px,
                        py,
                        argx1 as int,
                        argy1 as int,
                        argx2 as int,
                        argy2 as int,
                    ) ==> self.image.spec_at(px, py) == old(self).image.spec_at(px, py),
                0 <= iters <= gx + gy,
                painted.contains((x as int, y as int)),
                spec_line_pts(argx1 as int, argy1 as int, argx2 as int, argy2 as int)
                    == painted.union(
                    spec_walk(
                        x as int,
                        y as int,
                        err as int,
                        x2 as int,
                        y2 as int,
                        dx as int,
                        dy as int,
                        sx as int,
                        sy as int,
                        (dx + dy - iters) as nat,
                    ),
                ),
                forall|px: int, py: int|
                    old(self).image.in_bounds(px, py) ==> self.image.spec_at(px, py) == (
                    if painted.contains((px, py)) {
                        old(self).spec_write(px, py, color)
                    } else {
                        old(self).image.spec_at(px, py)
                    }),
            decreases (dx as int) + (dy as int) - gx - gy,
        {
            let ghost gx0 = gx;
            let ghost gy0 = gy;
            let ghost err0 = err as int;
            let ghost xs = x as int;
            let ghost ys = y as int;
            let e2: i64 = 2 * err;
            if e2 > -dx {
                proof {
                    if gx == dx as int {
                        lemma_no_x_overshoot(dx as int, dy as int, e0 as int, gy, err as int);
                        assert(false);
                    }
                    assert((gx + 1) * (dy as int) == gx * (dy as int) + (dy as int))
                        by (nonlinear_arith);
                }
                err = err - dy;
                x = x + sx;
                proof {
                    gx = gx + 1;
                }
            }
            if e2 < dy {
                proof {
                    if gy == dy as int {
                        lemma_no_y_overshoot(dx as int, dy as int, e0 as int, gx0, err0);
                        assert(false);
                    }
                    assert((gy + 1) * (dx as int) == gy * (dx as int) + (dx as int))
                        by (nonlinear_arith);
                }
                err = err + dx;
                y = y + sy;
                proof {
                    gy = gy + 1;
                }
            }
            proof {
                if gx == gx0 && gy == gy0 {
                    assert(false);
                }
                assert(in_box(
                    x as int,
                    y as int,
                    argx1 as int,
                    argy1 as int,
                    argx2 as int,
                    argy2 as int,
                ));
                assert(x as int == spec_step_x(xs, err0, dx as int, sx as int));
                assert(y as int == spec_step_y(ys, err0, dy as int, sy as int));
                assert(err as int == spec_step_err(err0, dx as int, dy as int));
                assert(iters < dx + dy);
                assert(spec_walk(
                    xs,
                    ys,
                    err0,
                    x2 as int,
                    y2 as int,
                    dx as int,
                    dy as int,
                    sx as int,
                    sy as int,
                    (dx + dy - iters) as nat,
                ) =~= set![(xs, ys)].union(
                    spec_walk(
                        x as int,
                        y as int,
                        err as int,
                        x2 as int,
                        y2 as int,
                        dx as int,
                        dy as int,
                        sx as int,
                        sy as int,
                        (dx + dy - iters - 1) as nat,
                    ),
                ));
                iters = iters + 1;
                painted = painted.insert((x as int, y as int));
                lemma_walk_contains_start(
                    x as int,
                    y as int,
                    err as int,
                    x2 as int,
                    y2 as int,
                    dx as int,
                    dy as int,
                    sx as int,
                    sy as int,
                    (dx + dy - iters) as nat,
                );
                assert(spec_line_pts(argx1 as int, argy1 as int, argx2 as int, argy2 as int)
                    =~= painted.union(
                    spec_walk(
                        x as int,
                        y as int,
                        err as int,
                        x2 as int,
                        y2 as int,
                        dx as int,
                        dy as int,
                        sx as int,
                        sy as int,
                        (dx + dy - iters) as nat,
                    ),
                ));
            }
            self.pixel(x as i32, y as i32, color);
        }
        proof {
            assert(spec_line_pts(argx1 as int, argy1 as int, argx2 as int, argy2 as int)
                =~= painted);
            lemma_walk_contains_start(
                argx1 as int,
                argy1 as int,
                spec_e0(
                    spec_span(argx1 as int, argx2 as int),
                    spec_span(argy1 as int, argy2 as int),
                ),
                argx2 as int,
                argy2 as int,
                spec_span(argx1 as int, argx2 as int),
                spec_span(argy1 as int, argy2 as int),
                spec_dir(argx1 as int, argx2 as int),
                spec_dir(argy1 as int, argy2 as int),
                (spec_span(argx1 as int, argx2 as int) + spec_span(argy1 as int, argy2 as int))
                    as nat,
            );
            assert(painted.contains((argx2 as int, argy2 as int)));
        }
    }

    /// Two mirrored horizontal lines, the span rows of the filled circle: a
    /// run at y0 + y and, when y is not 0, the mirrored run at y0 - y.
    pub fn line4points(&mut self, x0: i32, y0: i32, x: i32, y: i32, color: Color)
        requires
            old(self).wf(),
            -1000000000 <= x0 <= 1000000000,
            -1000000000 <= y0 <= 1000000000,
            0 <= x <= 1000000000,
            0 <= y <= 1000000000,
        ensures
            final(self).wf(),
            final(self).same_but_image(*old(self)),
            final(self).image.same_dims(old(self).image),
            forall|px: int, py: int|
                old(self).image.in_bounds(px, py) ==> (final(self).image.spec_at(px, py) == old(
                    self,
                ).image.spec_at(px, py) || final(self).image.spec_at(px, py) == old(
                    self,
                ).spec_write(px, py, color)),
            forall|px: int, py: int|
                old(self).image.in_bounds(px, py) && !in_box(
                    px,
                    py,
                    x0 - x,
                    y0 - y,
                    x0 + x,
                    y0 + y,
                ) ==> final(self).image.spec_at(px, py) == old(self).image.spec_at(px, py),
            old(self).image.in_bounds(x0 - x, y0 + y) ==> final(self).image.spec_at(
                x0 - x,
                y0 + y,
            ) == old(self).spec_write(x0 - x, y0 + y, color),
            old(self).image.in_bounds(x0 + x, y0 + y) ==> final(self).image.spec_at(
                x0 + x,
                y0 + y,
            ) == old(self).spec_write(x0 + x, y0 + y, color),
            forall|px: int, py: int|
                old(self).image.in_bounds(px, py) ==> final(self).image.spec_at(px, py) == (if ((
                py == y0 + y || (y != 0 && py == y0 - y)) && x0 - x <= px <= x0 + x) {
                    old(self).spec_write(px, py, color)
                } else {
                    old(self).image.spec_at(px, py)
                }),
    {
        proof {
            lemma_line_pts_horizontal(x0 - x, y0 + y, x + x0);
        }
        self.line(x0 - x, y0 + y, x + x0, y0 + y, color);
        if y != 0 {
            proof {
                lemma_line_pts_horizontal(x0 - x, y0 - y, x + x0);
            }
            self.line(x0 - x, y0 - y, x + x0, y0 - y, color);
        }
    }

    /// Midpoint circle through the mask.  The sign of the radius selects the
    /// behavior: a positive radius draws the outline, a negative radius the
    /// filled disc of radius |radius|, and radius 0 a single pixel.  Nothing
    /// outside the box of half-width |radius| around the center changes, and
    /// only masked writes of `color` land.
    #[verifier::loop_isolation(false)]
    #[verifier::rlimit(100)]
    pub fn circle(&mut self, x0: i32, y0: i32, radius: i32, color: Color)
        requires
            old(self).wf(),
            -1000000000 <= x0 <= 1000000000,
            -1000000000 <= y0 <= 1000000000,
            -1000000000 <= radius <= 1000000000,
        ensures
            final(self).wf(),
            final(self).same_but_image(*old(self)),
            final(self).image.same_dims(old(self).image),
            forall|px: int, py: int|
                old(self).image.in_bounds(px, py) ==> (final(self).image.spec_at(px, py) == old(
                    self,
                ).image.spec_at(px, py) || final(self).image.spec_at(px, py) == old(
                    self,
                ).spec_write(px, py, color)),
            forall|px: int, py: int|
                old(self).image.in_bounds(px, py) && !in_box(
                    px,
                    py,
                    x0 as int - vstd::math::abs(radius as int) as int,
                    y0 as int - vstd::math::abs(radius as int) as int,
                    x0 as int + vstd::math::abs(radius as int) as int,
                    y0 as int + vstd::math::abs(radius as int) as int,
                ) ==> final(self).image.spec_at(px, py) == old(self).image.spec_at(px, py),
            radius > 0 ==> (old(self).image.in_bounds(x0 as int + radius as int, y0 as int)
                ==> final(self).image.spec_at(x0 as int + radius as int, y0 as int) == old(
                self,
            ).spec_write(x0 as int + radius as int, y0 as int, color)),
            radius > 0 ==> (old(self).image.in_bounds(x0 as int - radius as int, y0 as int)
                ==> final(self).image.spec_at(x0 as int - radius as int, y0 as int) == old(
                self,
            ).spec_write(x0 as int - radius as int, y0 as int, color)),
            radius > 0 ==> (old(self).image.in_bounds(x0 as int, y0 as int + radius as int)
                ==> final(self).image.spec_at(x0 as int, y0 as int + radius as int) == old(
                self,
            ).spec_write(x0 as int, y0 as int + radius as int, color)),
            radius > 0 ==> (old(self).image.in_bounds(x0 as int, y0 as int - radius as int)
                ==> final(self).image.spec_at(x0 as int, y0 as int - radius as int) == old(
                self,
            ).spec_write(x0 as int, y0 as int - radius as int, color)),
            radius < 0 ==> (old(self).image.in_bounds(
                x0 as int - vstd::math::abs(radius as int) as int,
                y0 as int,
            ) ==> final(self).image.spec_at(
                x0 as int - vstd::math::abs(radius as int) as int,
                y0 as int,
            ) == old(self).spec_write(
                x0 as int - vstd::math::abs(radius as int) as int,
                y0 as int,
                color,
            )),
            radius < 0 ==> (old(self).image.in_bounds(
                x0 as int + vstd::math::abs(radius as int) as int,
                y0 as int,
            ) ==> final(self).image.spec_at(
                x0 as int + vstd::math::abs(radius as int) as int,
                y0 as int,
            ) == old(self).spec_write(
                x0 as int + vstd::math::abs(radius as int) as int,
                y0 as int,
                color,
            )),
            radius == 0 ==> forall|px: int, py: int|
                old(self).image.in_bounds(px, py) ==> final(self).image.spec_at(px, py) == (if px
                    == x0 as int && py == y0 as int {
                    old(self).spec_write(px, py, color)
                } else {
                    old(self).image.spec_at(px, py)
                }),
            radius > 0 ==> forall|px: int, py: int|
                old(self).image.in_bounds(px, py) ==> final(self).image.spec_at(px, py) == (
                if spec_circle_pts(x0 as int, y0 as int, radius as int).contains((px, py)) {
                    old(self).spec_write(px, py, color)
                } else {
                    old(self).image.spec_at(px, py)
                }),
    {
        if radius > 0 {
            self.circle_outline(x0, y0, radius, color);
        } else if radius < 0 {
            self.circle_filled(x0, y0, radius, color);
        } else {
            self.pixel(x0, y0, color);
        }
    }

    /// The outlined circle: the eight mirrored midpoint writes per step,
    /// exactly the pixels of `spec_circle_pts`.
    #[verifier::loop_isolation(false)]
    #[verifier::rlimit(100)]
    #[verifier::spinoff_prover]
    fn circle_outline(&mut self, x0: i32, y0: i32, radius: i32, color: Color)
        requires
            old(self).wf(),
            -1000000000 <= x0 <= 1000000000,
            -1000000000 <= y0 <= 1000000000,
            0 < radius <= 1000000000,
        ensures
            final(self).wf(),
            final(self).same_but_image(*old(self)),
            final(self).image.same_dims(old(self).image),
            forall|px: int, py: int|
                old(self).image.in_bounds(px, py) ==> final(self).image.spec_at(px, py) == (
                if spec_circle_pts(x0 as int, y0 as int, radius as int).contains((px, py)) {
                    old(self).spec_write(px, py, color)
                } else {
                    old(self).image.spec_at(px, py)
                }),
            forall|px: int, py: int|
                old(self).image.in_bounds(px, py) && !in_box(
                    px,
                    py,
                    x0 as int - radius as int,
                    y0 as int - radius as int,
                    x0 as int + radius as int,
                    y0 as int + radius as int,
                ) ==> final(self).image.spec_at(px, py) == old(self).image.spec_at(px, py),
            old(self).image.in_bounds(x0 as int + radius as int, y0 as int) ==> final(self).image.spec_at(x0 as int + radius as int, y0 as int) == old(self).spec_write(
                x0 as int + radius as int,
                y0 as int,
                color,
            ),
            old(self).image.in_bounds(x0 as int - radius as int, y0 as int) ==> final(self).image.spec_at(x0 as int - radius as int, y0 as int) == old(self).spec_write(
                x0 as int - radius as int,
                y0 as int,
                color,
            ),
            old(self).image.in_bounds(x0 as int, y0 as int + radius as int) ==> final(self).image.spec_at(x0 as int, y0 as int + radius as int) == old(self).spec_write(
                x0 as int,
                y0 as int + radius as int,
                color,
            ),
            old(self).image.in_bounds(x0 as int, y0 as int - radius as int) ==> final(self).image.spec_at(x0 as int, y0 as int - radius as int) == old(self).spec_write(
                x0 as int,
                y0 as int - radius as int,
                color,
            ),
    {
        let cx: i64 = x0 as i64;
        let cy: i64 = y0 as i64;
        let r64: i64 = radius as i64;
        let ghost b: int = 4 * (r64 as int) + 10;
        let mut x: i64 = r64;
        let mut y: i64 = 0;
        let mut err: i64 = 0;
        let ghost mut painted: Set<(int, int)> = Set::empty();
        let ghost mut iters: int = 0;
        while x >= y
            invariant
                self.wf(),
                self.same_but_image(*old(self)),
                self.image.same_dims(old(self).image),
                0 <= y <= x + 2,
                -1 <= x <= r64,
                y == 0 ==> x == r64,
                -(b * (y as int + 1)) <= err as int <= b * (y as int + 1),
                0 <= iters <= r64 as int - x as int + y as int,
                spec_circle_pts(x0 as int, y0 as int, r64 as int) == painted.union(
                    spec_ring_walk(
                        x0 as int,
                        y0 as int,
                        x as int,
                        y as int,
                        err as int,
                        (r64 + 2 - iters) as nat,
                    ),
                ),
                forall|px: int, py: int|
                    old(self).image.in_bounds(px, py) ==> self.image.spec_at(px, py) == (
                    if painted.contains((px, py)) {
                        old(self).spec_write(px, py, color)
                    } else {
                        old(self).image.spec_at(px, py)
                    }),
                forall|px: int, py: int|
                    old(self).image.in_bounds(px, py) && !in_box(
                        px,
                        py,
                        x0 as int - r64 as int,
                        y0 as int - r64 as int,
                        x0 as int + r64 as int,
                        y0 as int + r64 as int,
                    ) ==> self.image.spec_at(px, py) == old(self).image.spec_at(px, py),
            decreases x - y + 2,
        {
            proof {
                lemma_mul_le(b, y as int + 2, 4000000010, 1000000005);
                assert(b * (y as int + 2) == b * (y as int + 1) + b) by (nonlinear_arith);
            }
            let ghost xs = x as int;
            let ghost ys = y as int;
            let ghost errs = err as int;
            self.pixel((cx - x) as i32, (cy + y) as i32, color);
            self.pixel((cx + x) as i32, (cy + y) as i32, color);
            self.pixel((cx - y) as i32, (cy + x) as i32, color);
            self.pixel((cx + y) as i32, (cy + x) as i32, color);
            self.pixel((cx - x) as i32, (cy - y) as i32, color);
            self.pixel((cx + x) as i32, (cy - y) as i32, color);
            self.pixel((cx - y) as i32, (cy - x) as i32, color);
            self.pixel((cx + y) as i32, (cy - x) as i32, color);

            y = y + 1;
            err = err + 1 + 2 * y;
            if 2 * (err - x) + 1 > 0 {
                x = x - 1;
                err = err + 1 - 2 * x;
            }
            proof {
                assert(y as int == ys + 1);
                assert(x as int == spec_ring_step_x(xs, ys, errs));
                assert(err as int == spec_ring_step_err(xs, ys, errs));
                assert(spec_ring_walk(
                    x0 as int,
                    y0 as int,
                    xs,
                    ys,
                    errs,
                    (r64 + 2 - iters) as nat,
                ) == spec_octet(x0 as int, y0 as int, xs, ys).union(
                    spec_ring_walk(
                        x0 as int,
                        y0 as int,
                        x as int,
                        y as int,
                        err as int,
                        (r64 + 2 - iters - 1) as nat,
                    ),
                ));
                painted = painted.union(spec_octet(x0 as int, y0 as int, xs, ys));
                iters = iters + 1;
                assert(spec_circle_pts(x0 as int, y0 as int, r64 as int) =~= painted.union(
                    spec_ring_walk(
                        x0 as int,
                        y0 as int,
                        x as int,
                        y as int,
                        err as int,
                        (r64 + 2 - iters) as nat,
                    ),
                ));
            }
        }
        proof {
            assert(spec_circle_pts(x0 as int, y0 as int, r64 as int) =~= painted);
            assert(r64 as int == radius as int);
        }
    }

    /// The filled disc: mirrored horizontal spans, exactly the pixels of
    /// `spec_disc_pts`.
    #[verifier::loop_isolation(false)]
    #[verifier::rlimit(100)]
    #[verifier::spinoff_prover]
    fn circle_filled(&mut self, x0: i32, y0: i32, radius: i32, color: Color)
        requires
            old(self).wf(),
            -1000000000 <= x0 <= 1000000000,
            -1000000000 <= y0 <= 1000000000,
            -1000000000 <= radius < 0,
        ensures
            final(self).wf(),
            final(self).same_but_image(*old(self)),
            final(self).image.same_dims(old(self).image),
            forall|px: int, py: int|
                old(self).image.in_bounds(px, py) ==> final(self).image.spec_at(px, py) == (
                if spec_disc_pts(
                    x0 as int,
                    y0 as int,
                    vstd::math::abs(radius as int) as int,
                ).contains((px, py)) {
                    old(self).spec_write(px, py, color)
                } else {
                    old(self).image.spec_at(px, py)
                }),
            forall|px: int, py: int|
                old(self).image.in_bounds(px, py) && !in_box(
                    px,
                    py,
                    x0 as int - vstd::math::abs(radius as int) as int,
                    y0 as int - vstd::math::abs(radius as int) as int,
                    x0 as int + vstd::math::abs(radius as int) as int,
                    y0 as int + vstd::math::abs(radius as int) as int,
                ) ==> final(self).image.spec_at(px, py) == old(self).image.spec_at(px, py),
            old(self).image.in_bounds(
                x0 as int - vstd::math::abs(radius as int) as int,
                y0 as int,
            ) ==> final(self).image.spec_at(
                x0 as int - vstd::math::abs(radius as int) as int,
                y0 as int,
            ) == old(self).spec_write(
                x0 as int - vstd::math::abs(radius as int) as int,
                y0 as int,
                color,
            ),
            old(self).image.in_bounds(
                x0 as int + vstd::math::abs(radius as int) as int,
                y0 as int,
            ) ==> final(self).image.spec_at(
                x0 as int + vstd::math::abs(radius as int) as int,
                y0 as int,
            ) == old(self).spec_write(
                x0 as int + vstd::math::abs(radius as int) as int,
                y0 as int,
                color,
            ),
    {
        let cx: i64 = x0 as i64;
        let cy: i64 = y0 as i64;
        let r64: i64 = -(radius as i64);
        let ghost b: int = 4 * (r64 as int) + 10;
        let ghost rr: int = r64 as int;
        let mut x: i64 = r64;
        let mut y: i64 = 0;
        let mut err: i64 = -r64;
        let ghost mut painted: Set<(int, int)> = Set::empty();
        let ghost mut iters: int = 0;
        while x >= y
            invariant
                self.wf(),
                self.same_but_image(*old(self)),
                self.image.same_dims(old(self).image),
                0 <= y <= x + 2,
                -1 <= x <= r64,
                y == 0 ==> x == r64,
                -(b * (y as int + 1)) <= err as int <= b * (y as int + 1),
                0 <= iters <= rr - x as int + y as int,
                spec_disc_pts(x0 as int, y0 as int, rr) == painted.union(
                    spec_disc_walk(
                        x0 as int,
                        y0 as int,
                        x as int,
                        y as int,
                        err as int,
                        (rr + 2 - iters) as nat,
                    ),
                ),
                forall|px: int, py: int|
                    old(self).image.in_bounds(px, py) ==> self.image.spec_at(px, py) == (
                    if painted.contains((px, py)) {
                        old(self).spec_write(px, py, color)
                    } else {
                        old(self).image.spec_at(px, py)
                    }),
                forall|px: int, py: int|
                    old(self).image.in_bounds(px, py) && !in_box(
                        px,
                        py,
                        x0 as int - rr,
                        y0 as int - rr,
                        x0 as int + rr,
                        y0 as int + rr,
                    ) ==> self.image.spec_at(px, py) == old(self).image.spec_at(px, py),
            decreases x - y + 2,
        {
            proof {
                lemma_mul_le(b, y as int + 2, 4000000010, 1000000005);
                assert(b * (y as int + 2) == b * (y as int + 1) + b) by (nonlinear_arith);
            }
            let ghost xs = x as int;
            let ghost ys = y as int;
            let ghost errs = err as int;
            let lasty: i64 = y;
            err = err + y;
            y = y + 1;
            err = err + y;
            self.line4points(x0, y0, x as i32, lasty as i32, color);
            let ghost sofar = painted.union(spec_rows(x0 as int, y0 as int, xs, ys));
            proof {
                assert forall|px: int, py: int| old(self).image.in_bounds(px, py) implies
                    self.image.spec_at(px, py) == (if sofar.contains((px, py)) {
                    old(self).spec_write(px, py, color)
                } else {
                    old(self).image.spec_at(px, py)
                }) by {}
            }
            if err >= 0 {
                if x != lasty {
                    self.line4points(x0, y0, lasty as i32, x as i32, color);
                }
                err = err - x;
                x = x - 1;
                err = err - x;
            }
            proof {
                let e1 = errs + 2 * ys + 1;
                assert(e1 == errs + ys + (ys + 1));
                let extra: Set<(int, int)> = if e1 >= 0 && xs != ys {
                    spec_rows(x0 as int, y0 as int, ys, xs)
                } else {
                    Set::empty()
                };
                assert(y as int == ys + 1);
                assert(x as int == (if e1 >= 0 {
                    xs - 1
                } else {
                    xs
                }));
                assert(err as int == (if e1 >= 0 {
                    e1 - xs - (xs - 1)
                } else {
                    e1
                }));
                assert(spec_disc_walk(
                    x0 as int,
                    y0 as int,
                    xs,
                    ys,
                    errs,
                    (rr + 2 - iters) as nat,
                ) == spec_rows(x0 as int, y0 as int, xs, ys).union(extra).union(
                    spec_disc_walk(
                        x0 as int,
                        y0 as int,
                        x as int,
                        y as int,
                        err as int,
                        (rr + 2 - iters - 1) as nat,
                    ),
                ));
                painted = sofar.union(extra);
                iters = iters + 1;
                assert forall|px: int, py: int| old(self).image.in_bounds(px, py) implies
                    self.image.spec_at(px, py) == (if painted.contains((px, py)) {
                    old(self).spec_write(px, py, color)
                } else {
                    old(self).image.spec_at(px, py)
                }) by {}
                assert(spec_disc_pts(x0 as int, y0 as int, rr) =~= painted.union(
                    spec_disc_walk(
                        x0 as int,
                        y0 as int,
                        x as int,
                        y as int,
                        err as int,
                        (rr + 2 - iters) as nat,
                    ),
                ));
            }
        }
        proof {
            assert(spec_disc_pts(x0 as int, y0 as int, rr) =~= painted);
            assert(rr == vstd::math::abs(radius as int) as int);
        }
    }

    /// The value a flood-fill write stores at (px, py): the masked write of
    /// `color` when filling through the mask, `color` itself otherwise.
    pub open spec fn spec_flood_val(self, px: int, py: int, color: Color, masked: bool) -> Color {
        if masked {
            self.spec_write(px, py, color)
        } else {
            color
        }
    }

    /// Scanline flood fill from (x, y) over the run color `oc`.  Fills each
    /// horizontal run of `oc` it reaches, then seeds the rows above and below
    /// wherever they still hold `oc`, comparing the just-filled run against
    /// the color the seed write actually produced (`res`), since a masked
    /// write need not store `color` itself.  Seeds wait on an explicit
    /// worklist, so deep fills cannot overflow the call stack.  A run whose seed write
    /// leaves the pixel equal to `oc` seeds no neighbors: continuing would
    /// revisit the same runs forever.
    #[verifier::loop_isolation(false)]
    #[verifier::rlimit(100)]
    fn flood_scanline(&mut self, x: i32, y: i32, color: Color, oc: Color, masked: bool)
        requires
            old(self).wf(),
            old(self).image.in_bounds(x as int, y as int),
            old(self).image.width <= 1000000000,
            old(self).image.height <= 1000000000,
            color != oc,
            oc == old(self).image.spec_at(x as int, y as int),
        ensures
            final(self).wf(),
            final(self).same_but_image(*old(self)),
            final(self).image.same_dims(old(self).image),
            forall|px: int, py: int|
                old(self).image.in_bounds(px, py) ==> (final(self).image.spec_at(px, py) == old(
                    self,
                ).image.spec_at(px, py) || final(self).image.spec_at(px, py) == old(
                    self,
                ).spec_flood_val(px, py, color, masked)),
            forall|px: int, py: int|
                old(self).image.in_bounds(px, py) && old(self).image.spec_at(px, py) != oc ==>
                    final(self).image.spec_at(px, py) == old(self).image.spec_at(px, py),
            final(self).image.spec_at(x as int, y as int) == old(self).spec_flood_val(
                x as int,
                y as int,
                color,
                masked,
            ),
            (!masked || !old(self).mask_enabled) && spec_all(old(self).image, oc) ==> spec_all(
                final(self).image,
                color,
            ),
    {
        let w: i32 = self.image.width as i32;
        let h: i32 = self.image.height as i32;
        let mut work: Vec<(i32, i32)> = Vec::new();
        work.push((x, y));
        let ghost unif: bool = (!masked || !old(self).mask_enabled) && spec_all(
            old(self).image,
            oc,
        );
        let ghost mut started: bool = false;
        let ghost mut lo: int = 0;
        let ghost mut hi: int = 0;
        let ghost mut wlo: int = 0;
        let ghost mut whi: int = 0;
        while work.len() > 0
            invariant
                self.wf(),
                self.same_but_image(*old(self)),
                self.image.same_dims(old(self).image),
                forall|i: int|
                    0 <= i < work@.len() ==> old(self).image.in_bounds(
                        (#[trigger] work@[i]).0 as int,
                        work@[i].1 as int,
                    ),
                forall|px: int, py: int|
                    old(self).image.in_bounds(px, py) ==> (self.image.spec_at(px, py) == old(
                        self,
                    ).image.spec_at(px, py) || self.image.spec_at(px, py) == old(
                        self,
                    ).spec_flood_val(px, py, color, masked)),
                forall|px: int, py: int|
                    old(self).image.in_bounds(px, py) && old(self).image.spec_at(px, py) != oc
                        ==> self.image.spec_at(px, py) == old(self).image.spec_at(px, py),
                forall|j: int|
                    0 <= j < old(self).image.data@.len() && #[trigger] self.image.data@[j] == oc
                        ==> old(self).image.data@[j] == oc,
                (work@.len() == 1 && work@[0] == (x, y) && self.image == old(self).image) || (
                self.image.spec_at(x as int, y as int) == old(self).spec_flood_val(
                    x as int,
                    y as int,
                    color,
                    masked,
                )),
                unif && !started ==> self.image == old(self).image && work@ =~= seq![(x, y)],
                unif && started ==> 0 <= lo <= hi < old(self).image.height as int,
                unif && started ==> forall|r: int|
                    lo <= r <= hi ==> spec_row_all(self.image, r, color),
                unif && started ==> forall|r: int|
                    (0 <= r < lo || hi < r < old(self).image.height as int) ==> spec_row_all(
                        self.image,
                        r,
                        oc,
                    ),
                unif && started && lo > 0 ==> 0 <= wlo < work@.len() && (work@[wlo]).1 as int
                    == lo - 1,
                unif && started && hi < old(self).image.height as int - 1 ==> 0 <= whi
                    < work@.len() && (work@[whi]).1 as int == hi + 1,
                unif && started ==> forall|i: int|
                    0 <= i < work@.len() ==> lo - 1 <= (#[trigger] work@[i]).1 as int <= hi + 1,
            decreases count_eq(self.image.data@, oc), work@.len(),
        {
            let ghost workpre: Seq<(i32, i32)> = work@;
            let p = work.pop().unwrap();
            let px = p.0;
            let py = p.1;
            let ghost snap: Seq<Color> = self.image.data@;
            let ghost worksnap: Seq<(i32, i32)> = work@;
            if self.image.get(px, py) == oc {
                let ghost img0 = self.image;
                proof {
                    if unif {
                        if started {
                            if lo <= py as int <= hi {
                                assert(spec_row_all(self.image, py as int, color));
                                assert(self.image.spec_at(px as int, py as int) == color);
                                assert(false);
                            }
                            assert(lo - 1 <= py as int <= hi + 1);
                            assert(py as int == lo - 1 || py as int == hi + 1);
                            assert(spec_row_all(img0, py as int, oc));
                        } else {
                            assert(workpre =~= seq![(x, y)]);
                            assert(p == (x, y));
                            assert forall|col: int|
                                0 <= col < img0.width as int implies img0.spec_at(
                                col,
                                py as int,
                            ) == oc by {
                                assert(img0.in_bounds(col, py as int));
                            }
                            assert(spec_row_all(img0, py as int, oc));
                        }
                    }
                }
                let mut x1: i32 = px;
                while x1 < w && self.image.get(x1, py) == oc
                    invariant
                        self.wf(),
                        self.same_but_image(*old(self)),
                        self.image.same_dims(old(self).image),
                        px <= x1 <= w,
                        x1 == px ==> self.image == img0,
                        x1 > px ==> self.image.spec_at(px as int, py as int) == old(
                            self,
                        ).spec_flood_val(px as int, py as int, color, masked),
                        forall|px2: int, py2: int|
                            old(self).image.in_bounds(px2, py2) ==> (self.image.spec_at(px2, py2)
                                == old(self).image.spec_at(px2, py2) || self.image.spec_at(
                                px2,
                                py2,
                            ) == old(self).spec_flood_val(px2, py2, color, masked)),
                        forall|px2: int, py2: int|
                            old(self).image.in_bounds(px2, py2) && old(self).image.spec_at(
                                px2,
                                py2,
                            ) != oc ==> self.image.spec_at(px2, py2) == old(self).image.spec_at(
                                px2,
                                py2,
                            ),
                        forall|j: int|
                            0 <= j < snap.len() && #[trigger] self.image.data@[j] == oc ==> snap[j]
                                == oc,
                        (self.image.spec_at(x as int, y as int) == old(self).spec_flood_val(
                            x as int,
                            y as int,
                            color,
                            masked,
                        )) || (x1 == px && self.image == img0 && img0 == old(self).image),
                        forall|c2: int, r2: int|
                            old(self).image.in_bounds(c2, r2) && r2 != py as int
                                ==> self.image.spec_at(c2, r2) == img0.spec_at(c2, r2),
                        unif ==> forall|col: int|
                            px as int <= col < x1 as int ==> self.image.spec_at(col, py as int)
                                == color,
                        unif ==> forall|col: int|
                            (0 <= col < px as int || x1 as int <= col < old(
                                self,
                            ).image.width as int) ==> self.image.spec_at(col, py as int) == oc,
                    decreases w - x1,
                {
                    let ghost pre = self.image.data@;
                    if masked {
                        self.pixel(x1, py, color);
                    } else {
                        self.image.set_pixel(x1, py, color);
                    }
                    proof {
                        crate::surface::lemma_index_in_range(
                            old(self).image.width as int,
                            old(self).image.height as int,
                            x1 as int,
                            py as int,
                        );
                        assert forall|j: int|
                            0 <= j < snap.len() && #[trigger] self.image.data@[j] == oc implies
                            snap[j] == oc by {
                            assert(pre[j] == oc ==> snap[j] == oc);
                        }
                    }
                    x1 = x1 + 1;
                }
                proof {
                    if unif {
                        if x1 < w {
                            assert(self.image.spec_at(x1 as int, py as int) == oc);
                            assert(false);
                        }
                        assert(self.image.spec_at(px as int, py as int) == color);
                    }
                }
                let res = self.image.get(px, py);
                x1 = px - 1;
                while x1 >= 0 && self.image.get(x1, py) == oc
                    invariant
                        self.wf(),
                        self.same_but_image(*old(self)),
                        self.image.same_dims(old(self).image),
                        -1 <= x1 < px,
                        self.image.spec_at(px as int, py as int) == res,
                        self.image.spec_at(x as int, y as int) == old(self).spec_flood_val(
                            x as int,
                            y as int,
                            color,
                            masked,
                        ),
                        forall|px2: int, py2: int|
                            old(self).image.in_bounds(px2, py2) ==> (self.image.spec_at(px2, py2)
                                == old(self).image.spec_at(px2, py2) || self.image.spec_at(
                                px2,
                                py2,
                            ) == old(self).spec_flood_val(px2, py2, color, masked)),
                        forall|px2: int, py2: int|
                            old(self).image.in_bounds(px2, py2) && old(self).image.spec_at(
                                px2,
                                py2,
                            ) != oc ==> self.image.spec_at(px2, py2) == old(self).image.spec_at(
                                px2,
                                py2,
                            ),
                        forall|j: int|
                            0 <= j < snap.len() && #[trigger] self.image.data@[j] == oc ==> snap[j]
                                == oc,
                        forall|c2: int, r2: int|
                            old(self).image.in_bounds(c2, r2) && r2 != py as int
                                ==> self.image.spec_at(c2, r2) == img0.spec_at(c2, r2),
                        unif ==> forall|col: int|
                            (x1 as int) < col < old(self).image.width as int
                                ==> self.image.spec_at(col, py as int) == color,
                        unif ==> forall|col: int|
                            0 <= col <= x1 as int ==> self.image.spec_at(col, py as int) == oc,
                    decreases x1 + 1,
                {
                    let ghost pre = self.image.data@;
                    if masked {
                        self.pixel(x1, py, color);
                    } else {
                        self.image.set_pixel(x1, py, color);
                    }
                    proof {
                        crate::surface::lemma_index_in_range(
                            old(self).image.width as int,
                            old(self).image.height as int,
                            x1 as int,
                            py as int,
                        );
                        assert forall|j: int|
                            0 <= j < snap.len() && #[trigger] self.image.data@[j] == oc implies
                            snap[j] == oc by {
                            assert(pre[j] == oc ==> snap[j] == oc);
                        }
                    }
                    x1 = x1 - 1;
                }
                proof {
                    if unif {
                        if x1 >= 0 {
                            assert(self.image.spec_at(x1 as int, py as int) == oc);
                            assert(false);
                        }
                        assert forall|col: int|
                            0 <= col < self.image.width as int implies self.image.spec_at(
                            col,
                            py as int,
                        ) == color by {}
                        assert(spec_row_all(self.image, py as int, color));
                        assert(res == color);
                    }
                }
                let pym: i32 = if py > 0 {
                    py - 1
                } else {
                    0
                };
                let pyp: i32 = if py < h - 1 {
                    py + 1
                } else {
                    py
                };
                let ghost mut wdown: int = 0;
                let ghost mut wup: int = 0;
                if res != oc {
                    x1 = px;
                    while x1 < w && self.image.get(x1, py) == res
                        invariant
                            px <= x1 <= w,
                            forall|i: int|
                                0 <= i < work@.len() ==> old(self).image.in_bounds(
                                    (#[trigger] work@[i]).0 as int,
                                    work@[i].1 as int,
                                ),
                            worksnap.len() <= work@.len(),
                            forall|i: int| 0 <= i < worksnap.len() ==> work@[i] == worksnap[i],
                            forall|i: int|
                                worksnap.len() <= i < work@.len() ==> ((
                                #[trigger] work@[i]).1 as int == py as int - 1 || work@[i].1 as int
                                    == py as int + 1),
                            unif && py > 0 && x1 > px && self.image.spec_at(
                                px as int,
                                py as int - 1,
                            ) == oc ==> 0 <= wdown < work@.len() && work@[wdown] == (px, pym),
                        decreases w - x1,
                    {
                        if py > 0 && self.image.get(x1, py - 1) == oc {
                            work.push((x1, py - 1));
                            proof {
                                if x1 == px {
                                    wdown = work@.len() - 1;
                                    assert(work@[wdown] == (px, pym));
                                }
                            }
                        }
                        x1 = x1 + 1;
                    }
                    proof {
                        if unif {
                            if x1 == px {
                                assert(self.image.spec_at(px as int, py as int) == res);
                                assert(false);
                            }
                        }
                    }
                    x1 = px - 1;
                    while x1 >= 0 && self.image.get(x1, py) == res
                        invariant
                            -1 <= x1 < px,
                            forall|i: int|
                                0 <= i < work@.len() ==> old(self).image.in_bounds(
                                    (#[trigger] work@[i]).0 as int,
                                    work@[i].1 as int,
                                ),
                            worksnap.len() <= work@.len(),
                            forall|i: int| 0 <= i < worksnap.len() ==> work@[i] == worksnap[i],
                            forall|i: int|
                                worksnap.len() <= i < work@.len() ==> ((
                                #[trigger] work@[i]).1 as int == py as int - 1 || work@[i].1 as int
                                    == py as int + 1),
                            unif && py > 0 && self.image.spec_at(px as int, py as int - 1) == oc
                                ==> 0 <= wdown < work@.len() && work@[wdown] == (px, pym),
                        decreases x1 + 1,
                    {
                        if py > 0 && self.image.get(x1, py - 1) == oc {
                            work.push((x1, py - 1));
                            proof {
                                if x1 == px {
                                    wdown = work@.len() - 1;
                                    assert(work@[wdown] == (px, pym));
                                }
                            }
                        }
                        x1 = x1 - 1;
                    }
                    x1 = px;
                    while x1 < w && self.image.get(x1, py) == res
                        invariant
                            px <= x1 <= w,
                            forall|i: int|
                                0 <= i < work@.len() ==> old(self).image.in_bounds(
                                    (#[trigger] work@[i]).0 as int,
                                    work@[i].1 as int,
                                ),
                            worksnap.len() <= work@.len(),
                            forall|i: int| 0 <= i < worksnap.len() ==> work@[i] == worksnap[i],
                            forall|i: int|
                                worksnap.len() <= i < work@.len() ==> ((
                                #[trigger] work@[i]).1 as int == py as int - 1 || work@[i].1 as int
                                    == py as int + 1),
                            unif && py > 0 && self.image.spec_at(px as int, py as int - 1) == oc
                                ==> 0 <= wdown < work@.len() && work@[wdown] == (px, pym),
                            unif && py < h as int - 1 && x1 > px && self.image.spec_at(
                                px as int,
                                py as int + 1,
                            ) == oc ==> 0 <= wup < work@.len() && work@[wup] == (px, pyp),
                        decreases w - x1,
                    {
                        if py < h - 1 && self.image.get(x1, py + 1) == oc {
                            work.push((x1, py + 1));
                            proof {
                                if x1 == px {
                                    wup = work@.len() - 1;
                                    assert(work@[wup] == (px, pyp));
                                }
                            }
                        }
                        x1 = x1 + 1;
                    }
                    proof {
                        if unif {
                            if x1 == px {
                                assert(self.image.spec_at(px as int, py as int) == res);
                                assert(false);
                            }
                        }
                    }
                    x1 = px - 1;
                    while x1 >= 0 && self.image.get(x1, py) == res
                        invariant
                            -1 <= x1 < px,
                            forall|i: int|
                                0 <= i < work@.len() ==> old(self).image.in_bounds(
                                    (#[trigger] work@[i]).0 as int,
                                    work@[i].1 as int,
                                ),
                            worksnap.len() <= work@.len(),
                            forall|i: int| 0 <= i < worksnap.len() ==> work@[i] == worksnap[i],
                            forall|i: int|
                                worksnap.len() <= i < work@.len() ==> ((
                                #[trigger] work@[i]).1 as int == py as int - 1 || work@[i].1 as int
                                    == py as int + 1),
                            unif && py > 0 && self.image.spec_at(px as int, py as int - 1) == oc
                                ==> 0 <= wdown < work@.len() && work@[wdown] == (px, pym),
                            unif && py < h as int - 1 && self.image.spec_at(
                                px as int,
                                py as int + 1,
                            ) == oc ==> 0 <= wup < work@.len() && work@[wup] == (px, pyp),
                        decreases x1 + 1,
                    {
                        if py < h - 1 && self.image.get(x1, py + 1) == oc {
                            work.push((x1, py + 1));
                            proof {
                                if x1 == px {
                                    wup = work@.len() - 1;
                                    assert(work@[wup] == (px, pyp));
                                }
                            }
                        }
                        x1 = x1 - 1;
                    }
                    proof {
                        crate::surface::lemma_index_in_range(
                            old(self).image.width as int,
                            old(self).image.height as int,
                            px as int,
                            py as int,
                        );
                        lemma_count_lt(
                            snap,
                            self.image.data@,
                            oc,
                            old(self).image.spec_index(px as int, py as int),
                        );
                        if unif {
                            let hh = old(self).image.height as int;
                            let ww = old(self).image.width as int;
                            if started && py as int != lo - 1 && lo > 0 {
                                assert(workpre[wlo].1 as int == lo - 1);
                                assert(wlo < workpre.len() - 1);
                                assert(worksnap[wlo] == workpre[wlo]);
                                assert(work@[wlo] == worksnap[wlo]);
                            }
                            if started && py as int != hi + 1 && hi < hh - 1 {
                                assert(workpre[whi].1 as int == hi + 1);
                                assert(whi < workpre.len() - 1);
                                assert(worksnap[whi] == workpre[whi]);
                                assert(work@[whi] == worksnap[whi]);
                            }
                            if !started {
                                started = true;
                                lo = py as int;
                                hi = py as int;
                                assert forall|r: int| (0 <= r < lo || hi < r < hh) implies
                                    spec_row_all(self.image, r, oc) by {
                                    assert forall|col: int| 0 <= col < ww implies
                                        self.image.spec_at(col, r) == oc by {
                                        assert(old(self).image.in_bounds(col, r));
                                        assert(self.image.spec_at(col, r) == img0.spec_at(
                                            col,
                                            r,
                                        ));
                                        assert(img0.spec_at(col, r) == oc);
                                    }
                                }
                            } else if py as int == lo - 1 {
                                lo = lo - 1;
                                assert forall|r: int| lo <= r <= hi implies spec_row_all(
                                    self.image,
                                    r,
                                    color,
                                ) by {
                                    if r != py as int {
                                        assert(spec_row_all(img0, r, color));
                                        assert forall|col: int| 0 <= col < ww implies
                                            self.image.spec_at(col, r) == color by {
                                            assert(old(self).image.in_bounds(col, r));
                                        }
                                    }
                                }
                                assert forall|r: int| (0 <= r < lo || hi < r < hh) implies
                                    spec_row_all(self.image, r, oc) by {
                                    assert(r != py as int);
                                    assert(spec_row_all(img0, r, oc));
                                    assert forall|col: int| 0 <= col < ww implies
                                        self.image.spec_at(col, r) == oc by {
                                        assert(old(self).image.in_bounds(col, r));
                                    }
                                }
                            } else {
                                hi = hi + 1;
                                assert forall|r: int| lo <= r <= hi implies spec_row_all(
                                    self.image,
                                    r,
                                    color,
                                ) by {
                                    if r != py as int {
                                        assert(spec_row_all(img0, r, color));
                                        assert forall|col: int| 0 <= col < ww implies
                                            self.image.spec_at(col, r) == color by {
                                            assert(old(self).image.in_bounds(col, r));
                                        }
                                    }
                                }
                                assert forall|r: int| (0 <= r < lo || hi < r < hh) implies
                                    spec_row_all(self.image, r, oc) by {
                                    assert(r != py as int);
                                    assert(spec_row_all(img0, r, oc));
                                    assert forall|col: int| 0 <= col < ww implies
                                        self.image.spec_at(col, r) == oc by {
                                        assert(old(self).image.in_bounds(col, r));
                                    }
                                }
                            }
                            if lo > 0 && py as int == lo {
                                assert(spec_row_all(self.image, lo - 1, oc));
                                assert(self.image.spec_at(px as int, py as int - 1) == oc);
                                assert(work@[wdown] == (px, pym));
                                wlo = wdown;
                            }
                            if hi < hh - 1 && py as int == hi {
                                assert(spec_row_all(self.image, hi + 1, oc));
                                assert(self.image.spec_at(px as int, py as int + 1) == oc);
                                assert(work@[wup] == (px, pyp));
                                whi = wup;
                            }
                            assert forall|i: int| 0 <= i < work@.len() implies lo - 1 <= (
                            #[trigger] work@[i]).1 as int <= hi + 1 by {
                                if i < worksnap.len() {
                                    assert(work@[i] == worksnap[i]);
                                    assert(worksnap[i] == workpre[i]);
                                }
                            }
                        }
                    }
                } else {
                    proof {
                        if unif {
                            assert(res == color);
                            assert(false);
                        }
                        lemma_count_le(snap, self.image.data@, oc);
                    }
                }
            } else {
                proof {
                    if unif {
                        if !started {
                            assert(workpre =~= seq![(x, y)]);
                            assert(p == (x, y));
                            assert(self.image.spec_at(x as int, y as int) == oc);
                            assert(false);
                        }
                        assert(lo - 1 <= py as int <= hi + 1);
                        if py as int == lo - 1 {
                            assert(spec_row_all(self.image, py as int, oc));
                            assert(self.image.spec_at(px as int, py as int) == oc);
                            assert(false);
                        }
                        if py as int == hi + 1 {
                            assert(spec_row_all(self.image, py as int, oc));
                            assert(self.image.spec_at(px as int, py as int) == oc);
                            assert(false);
                        }
                        if lo > 0 {
                            assert(workpre[wlo].1 as int == lo - 1);
                            assert(wlo < workpre.len() - 1);
                            assert(work@[wlo] == workpre[wlo]);
                        }
                        if hi < old(self).image.height as int - 1 {
                            assert(workpre[whi].1 as int == hi + 1);
                            assert(whi < workpre.len() - 1);
                            assert(work@[whi] == workpre[whi]);
                        }
                        assert(work@ == workpre.drop_last());
                        assert forall|i: int| 0 <= i < work@.len() implies lo - 1 <= (
                        #[trigger] work@[i]).1 as int <= hi + 1 by {
                            assert(work@[i] == workpre[i]);
                        }
                    }
                }
            }
        }
        proof {
            if unif {
                if !started {
                    assert(work@.len() == 1);
                    assert(false);
                }
                if lo > 0 {
                    assert(false);
                }
                if hi < old(self).image.height as int - 1 {
                    assert(false);
                }
                assert forall|px2: int, py2: int| self.image.in_bounds(px2, py2) implies
                    self.image.spec_at(px2, py2) == color by {
                    assert(spec_row_all(self.image, py2, color));
                }
                assert(spec_all(self.image, color));
            }
        }
    }

    /// Flood fill from (x, y) with raw, unmasked writes, snapshotting the
    /// picture for undo first.  Every filled cell becomes exactly `color`;
    /// cells that did not hold the seed's color are untouched, and a fill
    /// with the color already there changes nothing.
    pub fn fill(&mut self, x: i32, y: i32, color: Color)
        requires
            old(self).wf(),
            old(self).image.in_bounds(x as int, y as int),
            old(self).image.width <= 1000000000,
            old(self).image.height <= 1000000000,
        ensures
            final(self).wf(),
            final(self).mask == old(self).mask,
            final(self).mask_flag == old(self).mask_flag,
            final(self).mask_enabled == old(self).mask_enabled,
            final(self).copy_buffer == old(self).copy_buffer,
            final(self).undo_stack@ == spec_undo_push(
                old(self).undo_stack@,
                final(self).undo_stack@.last(),
            ),
            final(self).undo_stack@.last().same_pixels(old(self).image),
            final(self).image.same_dims(old(self).image),
            color == old(self).image.spec_at(x as int, y as int) ==> final(self).image.data@
                == old(self).image.data@,
            forall|px: int, py: int|
                old(self).image.in_bounds(px, py) ==> (final(self).image.spec_at(px, py) == old(
                    self,
                ).image.spec_at(px, py) || (old(self).image.spec_at(px, py) == old(
                    self,
                ).image.spec_at(x as int, y as int) && final(self).image.spec_at(px, py)
                    == color)),
            color != old(self).image.spec_at(x as int, y as int) ==> final(self).image.spec_at(
                x as int,
                y as int,
            ) == color,
            spec_all(old(self).image, old(self).image.spec_at(x as int, y as int)) && color
                != old(self).image.spec_at(x as int, y as int) ==> spec_all(
                final(self).image,
                color,
            ),
    {
        self.undo_save();
        let oc = self.image.get(x, y);
        if color != oc {
            self.flood_scanline(x, y, color, oc, false);
        }
    }

    /// Flood fill from (x, y) with writes gated by the mask, as interactive
    /// painting is.  The fill compares colors as packed words, so it is
    /// alpha-sensitive; no undo snapshot is taken here.
    pub fn fill_mask(&mut self, x: i32, y: i32, color: Color)
        requires
            old(self).wf(),
            old(self).image.in_bounds(x as int, y as int),
            old(self).image.width <= 1000000000,
            old(self).image.height <= 1000000000,
        ensures
            final(self).wf(),
            final(self).same_but_image(*old(self)),
            final(self).image.same_dims(old(self).image),
            color == old(self).image.spec_at(x as int, y as int) ==> final(self).image.data@
                == old(self).image.data@,
            forall|px: int, py: int|
                old(self).image.in_bounds(px, py) ==> (final(self).image.spec_at(px, py) == old(
                    self,
                ).image.spec_at(px, py) || final(self).image.spec_at(px, py) == old(
                    self,
                ).spec_write(px, py, color)),
            forall|px: int, py: int|
                old(self).image.in_bounds(px, py) && old(self).image.spec_at(px, py) != old(
                    self,
                ).image.spec_at(x as int, y as int) ==> final(self).image.spec_at(px, py) == old(
                    self,
                ).image.spec_at(px, py),
            color != old(self).image.spec_at(x as int, y as int) ==> final(self).image.spec_at(
                x as int,
                y as int,
            ) == old(self).spec_write(x as int, y as int, color),
            !old(self).mask_enabled && spec_all(
                old(self).image,
                old(self).image.spec_at(x as int, y as int),
            ) && color != old(self).image.spec_at(x as int, y as int) ==> spec_all(
                final(self).image,
                color,
            ),
    {
        let oc = self.image.get(x, y);
        if color != oc {
            self.flood_scanline(x, y, color, oc, true);
        }
    }

    /// Apply a named whole-surface operation, snapshotting first.  The codes
    /// are those of `spec_trans_seq`; a code this core does not compute
    /// (among them the Gaussian "blur" and "unsharpen", which need floating
    /// point and run in the surrounding application) leaves the picture
    /// unchanged.
    pub fn transformation(&mut self, cod: &str, a: i32, b: i32)
        requires
            old(self).wf(),
            cod@ == "resize"@ ==> 0 < a && 0 < b && (a as int) * (b as int) <= usize::MAX as int
                && old(self).image.width > 0 && old(self).image.height > 0,
        ensures
            final(self).wf(),
            final(self).mask == old(self).mask,
            final(self).mask_flag == old(self).mask_flag,
            final(self).mask_enabled == old(self).mask_enabled,
            final(self).copy_buffer == old(self).copy_buffer,
            final(self).undo_stack@ == spec_undo_push(
                old(self).undo_stack@,
                final(self).undo_stack@.last(),
            ),
            final(self).undo_stack@.last().same_pixels(old(self).image),
            final(self).image.width as int == crate::transform::spec_trans_width(
                cod@,
                old(self).image.width as int,
                old(self).image.height as int,
                a as int,
                b as int,
            ),
            final(self).image.height as int == crate::transform::spec_trans_height(
                cod@,
                old(self).image.width as int,
                old(self).image.height as int,
                a as int,
                b as int,
            ),
            final(self).image.data@ == crate::transform::spec_trans_seq(
                cod@,
                old(self).image.width as int,
                old(self).image.height as int,
                old(self).image.data@,
                a as int,
                b as int,
            ),
    {
        self.undo_save();
        let timg = crate::transform::apply_trans(&self.image, cod, a, b);
        self.image = timg;
    }

    /// Apply a named operation to a detached picture and hand back its
    /// transformed buffer.
    pub fn trans_image(&self, image_selection: Surface, cod: &str, a: i32, b: i32) -> (r: Vec<
        Color,
    >)
        requires
            image_selection.wf(),
            cod@ == "resize"@ ==> 0 < a && 0 < b && (a as int) * (b as int) <= usize::MAX as int
                && image_selection.width > 0 && image_selection.height > 0,
        ensures
            r@ == crate::transform::spec_trans_seq(
                cod@,
                image_selection.width as int,
                image_selection.height as int,
                image_selection.data@,
                a as int,
                b as int,
            ),
    {
        let timg = crate::transform::apply_trans(&image_selection, cod, a, b);
        timg.data
    }

    /// Apply a named operation to a rectangular selection in place: the
    /// selection is copied out, transformed, its place cleared to opaque
    /// white, and the result pasted back at the selection's corner (so a
    /// rotation or resize may cover a different rectangle).  Snapshots
    /// first.
    pub fn trans_selection(&mut self, selection: crate::surface::Rect, cod: &str, a: i32, b: i32)
        requires
            old(self).wf(),
            0 <= selection.x as int,
            0 <= selection.y as int,
            selection.x as int + selection.width as int <= old(self).image.width as int,
            selection.y as int + selection.height as int <= old(self).image.height as int,
            cod@ == "resize"@ ==> 0 < a && 0 < b && (a as int) * (b as int) <= usize::MAX as int
                && selection.width > 0 && selection.height > 0,
        ensures
            final(self).wf(),
            final(self).mask == old(self).mask,
            final(self).mask_flag == old(self).mask_flag,
            final(self).mask_enabled == old(self).mask_enabled,
            final(self).copy_buffer == old(self).copy_buffer,
            final(self).undo_stack@ == spec_undo_push(
                old(self).undo_stack@,
                final(self).undo_stack@.last(),
            ),
            final(self).undo_stack@.last().same_pixels(old(self).image),
            final(self).image.same_dims(old(self).image),
            forall|px: int, py: int|
                old(self).image.in_bounds(px, py) ==> final(self).image.spec_at(px, py) == (if (0
                    <= px - selection.x as int && (px - selection.x as int)
                    < crate::transform::spec_trans_width(
                    cod@,
                    selection.width as int,
                    selection.height as int,
                    a as int,
                    b as int,
                ) && 0 <= py - selection.y as int && (py - selection.y as int)
                    < crate::transform::spec_trans_height(
                    cod@,
                    selection.width as int,
                    selection.height as int,
                    a as int,
                    b as int,
                )) {
                    crate::transform::spec_trans_seq(
                        cod@,
                        selection.width as int,
                        selection.height as int,
                        crate::transform::spec_region(
                            old(self).image,
                            selection.x as int,
                            selection.y as int,
                            selection.width as int,
                            selection.height as int,
                        ),
                        a as int,
                        b as int,
                    )[(py - selection.y as int) * crate::transform::spec_trans_width(
                        cod@,
                        selection.width as int,
                        selection.height as int,
                        a as int,
                        b as int,
                    ) + (px - selection.x as int)]
                } else if Surface::in_rect(
                    px,
                    py,
                    selection.x as int,
                    selection.y as int,
                    selection.width as int,
                    selection.height as int,
                ) {
                    Color { data: Color::spec_rgba(255, 255, 255, 255) }
                } else {
                    old(self).image.spec_at(px, py)
                }),
    {
        self.undo_save();
        let region = self.image.copy_region(
            selection.x,
            selection.y,
            selection.width,
            selection.height,
        );
        proof {
            assert forall|k: int|
                0 <= k < (selection.width as int) * (selection.height as int) implies
                region.data@[k] == crate::transform::spec_region(
                old(self).image,
                selection.x as int,
                selection.y as int,
                selection.width as int,
                selection.height as int,
            )[k] by {
                crate::transform::lemma_index_split(
                    k,
                    selection.width as int,
                    selection.height as int,
                );
                assert(region.spec_at(
                    k % (selection.width as int),
                    k / (selection.width as int),
                ) == old(self).image.spec_at(
                    selection.x as int + k % (selection.width as int),
                    selection.y as int + k / (selection.width as int),
                ));
            }
            assert(region.data@ =~= crate::transform::spec_region(
                old(self).image,
                selection.x as int,
                selection.y as int,
                selection.width as int,
                selection.height as int,
            ));
        }
        let timg = crate::transform::apply_trans(&region, cod, a, b);
        self.image.rect_fill(
            selection.x,
            selection.y,
            selection.width,
            selection.height,
            Color::rgba(255, 255, 255, 255),
        );
        self.image.blit(selection.x, selection.y, &timg);
    }

    /// Fill a rectangle of the picture with one color, unmasked and without
    /// an undo snapshot, clipped to the picture.
    pub fn rect(&mut self, x: i32, y: i32, lenght: u32, width: u32, color: Color)
        requires
            old(self).wf(),
        ensures
            final(self).wf(),
            final(self).same_but_image(*old(self)),
            final(self).image.same_dims(old(self).image),
            forall|px: int, py: int|
                old(self).image.in_bounds(px, py) ==> final(self).image.spec_at(px, py) == (
                if Surface::in_rect(px, py, x as int, y as int, lenght as int, width as int) {
                    color
                } else {
                    old(self).image.spec_at(px, py)
                }),
    {
        self.image.rect_fill(x, y, lenght, width, color);
    }

    /// Copy a rectangle of the picture into the clipboard.
    pub fn copy_selection(&mut self, x: i32, y: i32, w: u32, h: u32)
        requires
            old(self).wf(),
            0 <= x as int,
            0 <= y as int,
            x as int + w as int <= old(self).image.width as int,
            y as int + h as int <= old(self).image.height as int,
        ensures
            final(self).wf(),
            final(self).image == old(self).image,
            final(self).mask == old(self).mask,
            final(self).mask_flag == old(self).mask_flag,
            final(self).mask_enabled == old(self).mask_enabled,
            final(self).undo_stack == old(self).undo_stack,
            final(self).copy_buffer.width == w,
            final(self).copy_buffer.height == h,
            forall|i: int, j: int|
                0 <= i < w as int && 0 <= j < h as int ==> final(self).copy_buffer.spec_at(i, j)
                    == old(self).image.spec_at(x as int + i, y as int + j),
    {
        let region = self.image.copy_region(x, y, w, h);
        self.copy_buffer = region;
    }

    /// Paste a detached picture at (x, y) with its alpha scaled by
    /// opacity / 255, snapshotting first; the paste is clipped.
    pub fn paste_selection(&mut self, x: i32, y: i32, opacity: u8, newimage: Surface)
        requires
            old(self).wf(),
            newimage.wf(),
        ensures
            final(self).wf(),
            final(self).mask == old(self).mask,
            final(self).mask_flag == old(self).mask_flag,
            final(self).mask_enabled == old(self).mask_enabled,
            final(self).copy_buffer == old(self).copy_buffer,
            final(self).undo_stack@ == spec_undo_push(
                old(self).undo_stack@,
                final(self).undo_stack@.last(),
            ),
            final(self).undo_stack@.last().same_pixels(old(self).image),
            final(self).image.same_dims(old(self).image),
            forall|px: int, py: int|
                old(self).image.in_bounds(px, py) ==> final(self).image.spec_at(px, py) == (
                if newimage.in_bounds(px - x as int, py - y as int) {
                    newimage.spec_at(px - x as int, py - y as int).spec_scale_alpha(
                        opacity as u32,
                    )
                } else {
                    old(self).image.spec_at(px, py)
                }),
    {
        self.undo_save();
        self.image.alpha_blit(x, y, opacity, &newimage);
    }

    /// Paste the clipboard at (x, y) with its alpha scaled by opacity / 255,
    /// snapshotting the picture for undo first; the paste is clipped.
    pub fn paste_buffer(&mut self, x: i32, y: i32, opacity: u8)
        requires
            old(self).wf(),
        ensures
            final(self).wf(),
            final(self).mask == old(self).mask,
            final(self).mask_flag == old(self).mask_flag,
            final(self).mask_enabled == old(self).mask_enabled,
            final(self).copy_buffer == old(self).copy_buffer,
            final(self).undo_stack@ == spec_undo_push(
                old(self).undo_stack@,
                final(self).undo_stack@.last(),
            ),
            final(self).undo_stack@.last().same_pixels(old(self).image),
            final(self).image.same_dims(old(self).image),
            forall|px: int, py: int|
                old(self).image.in_bounds(px, py) ==> final(self).image.spec_at(px, py) == (
                if old(self).copy_buffer.in_bounds(px - x as int, py - y as int) {
                    old(self).copy_buffer.spec_at(px - x as int, py - y as int).spec_scale_alpha(
                        opacity as u32,
                    )
                } else {
                    old(self).image.spec_at(px, py)
                }),
    {
        self.undo_save();
        self.image.alpha_blit(x, y, opacity, &self.copy_buffer);
    }

    /// The picture as a row-major byte buffer in R, G, B, A channel order;
    /// the stored packed words keep alpha high and blue low, so the export
    /// reorders each pixel's bytes for the outside encoder.
    pub fn export_data(&self) -> (out: Vec<u8>)
        ensures
            out@.len() == 4 * self.image.data@.len(),
            forall|k: int|
                0 <= k < self.image.data@.len() ==> (out@[4 * k] as u32 == (
                #[trigger] self.image.data@[k]).spec_r() && out@[4 * k + 1] as u32
                    == self.image.data@[k].spec_g() && out@[4 * k + 2] as u32
                    == self.image.data@[k].spec_b() && out@[4 * k + 3] as u32
                    == self.image.data@[k].spec_a()),
    {
        let n: usize = self.image.data.len();
        let mut out: Vec<u8> = Vec::new();
        let mut i: usize = 0;
        while i < n
            invariant
                n == self.image.data@.len(),
                i <= n,
                out@.len() == 4 * i,
                forall|k: int|
                    0 <= k < i ==> (out@[4 * k] as u32 == (
                    #[trigger] self.image.data@[k]).spec_r() && out@[4 * k + 1] as u32
                        == self.image.data@[k].spec_g() && out@[4 * k + 2] as u32
                        == self.image.data@[k].spec_b() && out@[4 * k + 3] as u32
                        == self.image.data@[k].spec_a()),
            decreases n - i,
        {
            let c = self.image.data[i];
            out.push(c.r());
            out.push(c.g());
            out.push(c.b());
            out.push(c.a());
            i = i + 1;
        }
        out
    }

    /// Draw lines through the mask between consecutive vertices and close
    /// the path back to the first vertex; every vertex pixel is written.
    pub fn polyline(&mut self, points: &Vec<(i32, i32)>, color: Color)
        requires
            old(self).wf(),
        ensures
            final(self).wf(),
            final(self).same_but_image(*old(self)),
            final(self).image.same_dims(old(self).image),
            forall|px: int, py: int|
                old(self).image.in_bounds(px, py) ==> (final(self).image.spec_at(px, py) == old(
                    self,
                ).image.spec_at(px, py) || final(self).image.spec_at(px, py) == old(
                    self,
                ).spec_write(px, py, color)),
            forall|k: int|
                0 <= k < points@.len() && old(self).image.in_bounds(
                    (#[trigger] points@[k]).0 as int,
                    points@[k].1 as int,
                ) ==> final(self).image.spec_at(points@[k].0 as int, points@[k].1 as int) == old(
                    self,
                ).spec_write(points@[k].0 as int, points@[k].1 as int, color),
            forall|k: int, px: int, py: int|
                0 <= k < points@.len() - 1 && old(self).image.in_bounds(px, py)
                    && #[trigger] spec_line_pts(
                    (points@[k]).0 as int,
                    points@[k].1 as int,
                    points@[k + 1].0 as int,
                    points@[k + 1].1 as int,
                ).contains((px, py)) ==> final(self).image.spec_at(px, py) == old(
                    self,
                ).spec_write(px, py, color),
            points@.len() > 0 ==> forall|px: int, py: int|
                old(self).image.in_bounds(px, py) && #[trigger] spec_line_pts(
                    (points@[points@.len() - 1]).0 as int,
                    points@[points@.len() - 1].1 as int,
                    points@[0].0 as int,
                    points@[0].1 as int,
                ).contains((px, py)) ==> final(self).image.spec_at(px, py) == old(
                    self,
                ).spec_write(px, py, color),
    {
        let n: usize = points.len();
        if n == 0 {
            return ;
        }
        let mut i: usize = 0;
        while i + 1 < n
            invariant
                self.wf(),
                self.same_but_image(*old(self)),
                self.image.same_dims(old(self).image),
                n == points@.len(),
                0 < n,
                i < n,
                forall|px: int, py: int|
                    old(self).image.in_bounds(px, py) ==> (self.image.spec_at(px, py) == old(
                        self,
                    ).image.spec_at(px, py) || self.image.spec_at(px, py) == old(
                        self,
                    ).spec_write(px, py, color)),
                forall|k: int|
                    0 <= k <= i && old(self).image.in_bounds(
                        (#[trigger] points@[k]).0 as int,
                        points@[k].1 as int,
                    ) && i > 0 ==> self.image.spec_at(points@[k].0 as int, points@[k].1 as int)
                        == old(self).spec_write(points@[k].0 as int, points@[k].1 as int, color),
                forall|k: int, px: int, py: int|
                    0 <= k < i as int && old(self).image.in_bounds(px, py)
                        && #[trigger] spec_line_pts(
                        (points@[k]).0 as int,
                        points@[k].1 as int,
                        points@[k + 1].0 as int,
                        points@[k + 1].1 as int,
                    ).contains((px, py)) ==> self.image.spec_at(px, py) == old(self).spec_write(
                        px,
                        py,
                        color,
                    ),
            decreases n - i,
        {
            let p = points[i];
            let q = points[i + 1];
            self.line(p.0, p.1, q.0, q.1, color);
            i = i + 1;
        }
        let last = points[n - 1];
        let first = points[0];
        self.line(last.0, last.1, first.0, first.1, color);
    }
}

} // verus!
