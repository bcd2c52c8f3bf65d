use vstd::prelude::*;

use vstd::arithmetic::div_mod::lemma_fundamental_div_mod;
use vstd::arithmetic::div_mod::lemma_fundamental_div_mod_converse;

use crate::color::Color;
use vstd::string::StrSliceExecFns;

use crate::surface::lemma_index_in_range;
use crate::surface::Surface;

verus! {

/// A row-major index splits into its row i / w and column i % w.
pub proof fn lemma_index_split(i: int, w: int, h: int)
    requires
        0 < w,
        0 <= i < w * h,
    ensures
        0 <= i % w < w,
        0 <= i / w < h,
        i == (i / w) * w + i % w,
{
    lemma_fundamental_div_mod(i, w);
    vstd::arithmetic::div_mod::lemma_mod_bound(i, w);
    assert(0 <= i / w < h) by (nonlinear_arith)
        requires
            0 < w,
            0 <= i < w * h,
            i == w * (i / w) + i % w,
            0 <= i % w < w,
    ;
    assert((i / w) * w == w * (i / w)) by (nonlinear_arith);
}

/// One color channel brightened by `delta`, clamped to the channel range.
pub open spec fn spec_brighten_chan(v: u32, delta: int) -> u32 {
    if v + delta < 0 {
        0
    } else if v + delta > 255 {
        255
    } else {
        (v + delta) as u32
    }
}

/// A pixel brightened by `delta` on its color channels; alpha is kept.
pub open spec fn spec_brighten(c: Color, delta: int) -> Color {
    Color {
        data: Color::spec_rgba(
            spec_brighten_chan(c.spec_r(), delta),
            spec_brighten_chan(c.spec_g(), delta),
            spec_brighten_chan(c.spec_b(), delta),
            c.spec_a(),
        ),
    }
}

/// A pixel with its color channels inverted; alpha is kept.
pub open spec fn spec_invert(c: Color) -> Color {
    Color {
        data: Color::spec_rgba(
            (255 - c.spec_r()) as u32,
            (255 - c.spec_g()) as u32,
            (255 - c.spec_b()) as u32,
            c.spec_a(),
        ),
    }
}

/// The luma of a pixel, with the integer weights 2126 / 7152 / 722.
pub open spec fn spec_luma(c: Color) -> u32 {
    ((2126 * c.spec_r() + 7152 * c.spec_g() + 722 * c.spec_b()) / 10000) as u32
}

/// The grayscale tint of a pixel: pure gray 255 maps to pure white, any
/// other luma is scaled down by the fixed factor 12/10 on every channel;
/// the result is opaque.
pub open spec fn spec_gray(c: Color) -> Color {
    if spec_luma(c) == 255 {
        Color { data: Color::spec_rgba(255, 255, 255, 255) }
    } else {
        Color {
            data: Color::spec_rgba(
                ((spec_luma(c) * 10) / 12) as u32,
                ((spec_luma(c) * 10) / 12) as u32,
                ((spec_luma(c) * 10) / 12) as u32,
                255,
            ),
        }
    }
}

/// The buffer mirrored left-to-right within each row.
pub open spec fn flip_h_seq(w: int, h: int, data: Seq<Color>) -> Seq<Color> {
    Seq::new((w * h) as nat, |i: int| data[(i / w) * w + (w - 1 - i % w)])
}

/// The buffer with its rows in reverse order.
pub open spec fn flip_v_seq(w: int, h: int, data: Seq<Color>) -> Seq<Color> {
    Seq::new((w * h) as nat, |i: int| data[(h - 1 - i / w) * w + i % w])
}

/// The buffer rotated a quarter turn clockwise: the result is h wide and w
/// tall, and its cell (x, y) is the source cell (y, h - 1 - x).
pub open spec fn rot90_seq(w: int, h: int, data: Seq<Color>) -> Seq<Color> {
    Seq::new((w * h) as nat, |i: int| data[(h - 1 - i % h) * w + i / h])
}

/// The buffer in reverse order (a half turn of the picture).
pub open spec fn rev_seq(data: Seq<Color>) -> Seq<Color> {
    Seq::new(data.len(), |i: int| data[data.len() - 1 - i])
}

/// The buffer resized to nw by nh cells by nearest-neighbor sampling:
/// the result cell (x, y) is the source cell (x * w / nw, y * h / nh).
pub open spec fn resize_seq(w: int, h: int, data: Seq<Color>, nw: int, nh: int) -> Seq<Color> {
    Seq::new((nw * nh) as nat, |i: int| data[((i / nw) * h / nh) * w + (i % nw) * w / nw])
}

/// Mirroring each row twice gives back the original picture.
pub proof fn lemma_flip_horizontal_involutive(w: int, h: int, data: Seq<Color>)
    requires
        0 <= w,
        0 <= h,
        data.len() == w * h,
    ensures
        flip_h_seq(w, h, flip_h_seq(w, h, data)) == data,
{
    if w > 0 {
        assert forall|i: int| 0 <= i < w * h implies flip_h_seq(w, h, flip_h_seq(w, h, data))[i]
            == data[i] by {
            lemma_index_split(i, w, h);
            let j = (i / w) * w + (w - 1 - i % w);
            lemma_index_in_range(w, h, w - 1 - i % w, i / w);
            lemma_fundamental_div_mod_converse(j, w, i / w, w - 1 - i % w);
        }
    }
    assert(flip_h_seq(w, h, flip_h_seq(w, h, data)) =~= data);
}

/// Reversing the row order twice gives back the original picture.
pub proof fn lemma_flip_vertical_involutive(w: int, h: int, data: Seq<Color>)
    requires
        0 <= w,
        0 <= h,
        data.len() == w * h,
    ensures
        flip_v_seq(w, h, flip_v_seq(w, h, data)) == data,
{
    if w > 0 {
        assert forall|i: int| 0 <= i < w * h implies flip_v_seq(w, h, flip_v_seq(w, h, data))[i]
            == data[i] by {
            lemma_index_split(i, w, h);
            let j = (h - 1 - i / w) * w + i % w;
            lemma_index_in_range(w, h, i % w, h - 1 - i / w);
            lemma_fundamental_div_mod_converse(j, w, h - 1 - i / w, i % w);
        }
    }
    assert(flip_v_seq(w, h, flip_v_seq(w, h, data)) =~= data);
}

/// Two quarter turns reverse the buffer: a half turn of the picture.
pub proof fn lemma_rot90_twice(w: int, h: int, data: Seq<Color>)
    requires
        0 <= w,
        0 <= h,
        data.len() == w * h,
    ensures
        rot90_seq(h, w, rot90_seq(w, h, data)) == rev_seq(data),
{
    assert(h * w == w * h) by (nonlinear_arith);
    if w > 0 && h > 0 {
        assert forall|i: int| 0 <= i < h * w implies rot90_seq(h, w, rot90_seq(w, h, data))[i]
            == rev_seq(data)[i] by {
            lemma_index_split(i, w, h);
            let j = (w - 1 - i % w) * h + i / w;
            lemma_index_in_range(h, w, i / w, w - 1 - i % w);
            lemma_fundamental_div_mod_converse(j, h, w - 1 - i % w, i / w);
            let k = (h - 1 - j % h) * w + j / h;
            lemma_index_in_range(w, h, w - 1 - i % w, h - 1 - i / w);
            assert(k == (h - 1 - i / w) * w + (w - 1 - i % w));
            assert(k == w * h - 1 - i) by (nonlinear_arith)
                requires
                    k == (h - 1 - i / w) * w + (w - 1 - i % w),
                    i == (i / w) * w + i % w,
                    0 <= i % w < w,
                    0 <= i / w < h,
            ;
        }
    }
    assert(rot90_seq(h, w, rot90_seq(w, h, data)) =~= rev_seq(data));
}

/// Reversing the buffer twice gives back the original picture.
pub proof fn lemma_rev_involutive(data: Seq<Color>)
    ensures
        rev_seq(rev_seq(data)) == data,
{
    assert(rev_seq(rev_seq(data)) =~= data);
}

/// A quarter turn applied four times gives back the original picture, with
/// the original dimensions.
pub proof fn lemma_rotate90_four_times(w: int, h: int, data: Seq<Color>)
    requires
        0 <= w,
        0 <= h,
        data.len() == w * h,
    ensures
        rot90_seq(h, w, rot90_seq(w, h, rot90_seq(h, w, rot90_seq(w, h, data)))) == data,
{
    lemma_rot90_twice(w, h, data);
    assert(rev_seq(data).len() == w * h);
    lemma_rot90_twice(w, h, rev_seq(data));
    lemma_rev_involutive(data);
}

/// The picture mirrored left-to-right.
pub fn flip_horizontal(src: &Surface) -> (r: Surface)
    requires
        src.wf(),
    ensures
        r.wf(),
        r.width == src.width,
        r.height == src.height,
        r.data@ == flip_h_seq(src.width as int, src.height as int, src.data@),
{
    let w: usize = src.width as usize;
    let n: usize = src.data.len();
    let mut data: Vec<Color> = Vec::new();
    let mut i: usize = 0;
    while i < n
        invariant
            src.wf(),
            w == src.width as int,
            n == src.data@.len(),
            i <= n,
            data@.len() == i,
            forall|k: int|
                0 <= k < i ==> data@[k] == flip_h_seq(
                    src.width as int,
                    src.height as int,
                    src.data@,
                )[k],
        decreases n - i,
    {
        proof {
            assert(w > 0) by (nonlinear_arith)
                requires
                    (i as int) < (src.width as int) * (src.height as int),
                    0 <= i as int,
                    w == src.width as int,
            ;
            lemma_index_split(i as int, w as int, src.height as int);
            lemma_index_in_range(
                w as int,
                src.height as int,
                w as int - 1 - (i as int) % (w as int),
                (i as int) / (w as int),
            );
        }
        let row: usize = i / w;
        let col: usize = i % w;
        let s: usize = row * w + (w - 1 - col);
        data.push(src.data[s]);
        i = i + 1;
    }
    let r = Surface { width: src.width, height: src.height, data };
    proof {
        assert(r.data@ =~= flip_h_seq(src.width as int, src.height as int, src.data@));
    }
    r
}

/// The picture with its rows in reverse order.
pub fn flip_vertical(src: &Surface) -> (r: Surface)
    requires
        src.wf(),
    ensures
        r.wf(),
        r.width == src.width,
        r.height == src.height,
        r.data@ == flip_v_seq(src.width as int, src.height as int, src.data@),
{
    let w: usize = src.width as usize;
    let h: usize = src.height as usize;
    let n: usize = src.data.len();
    let mut data: Vec<Color> = Vec::new();
    let mut i: usize = 0;
    while i < n
        invariant
            src.wf(),
            w == src.width as int,
            h == src.height as int,
            n == src.data@.len(),
            i <= n,
            data@.len() == i,
            forall|k: int|
                0 <= k < i ==> data@[k] == flip_v_seq(
                    src.width as int,
                    src.height as int,
                    src.data@,
                )[k],
        decreases n - i,
    {
        proof {
            assert(w > 0) by (nonlinear_arith)
                requires
                    (i as int) < (src.width as int) * (src.height as int),
                    0 <= i as int,
                    w == src.width as int,
            ;
            lemma_index_split(i as int, w as int, h as int);
            lemma_index_in_range(
                w as int,
                h as int,
                (i as int) % (w as int),
                h as int - 1 - (i as int) / (w as int),
            );
        }
        let row: usize = i / w;
        let col: usize = i % w;
        let s: usize = (h - 1 - row) * w + col;
        data.push(src.data[s]);
        i = i + 1;
    }
    let r = Surface { width: src.width, height: src.height, data };
    proof {
        assert(r.data@ =~= flip_v_seq(src.width as int, src.height as int, src.data@));
    }
    r
}

/// The picture rotated a quarter turn clockwise; the dimensions swap.
pub fn rotate90(src: &Surface) -> (r: Surface)
    requires
        src.wf(),
    ensures
        r.wf(),
        r.width == src.height,
        r.height == src.width,
        r.data@ == rot90_seq(src.width as int, src.height as int, src.data@),
{
    let w: usize = src.width as usize;
    let h: usize = src.height as usize;
    let n: usize = src.data.len();
    let mut data: Vec<Color> = Vec::new();
    let mut i: usize = 0;
    while i < n
        invariant
            src.wf(),
            w == src.width as int,
            h == src.height as int,
            n == src.data@.len(),
            i <= n,
            data@.len() == i,
            forall|k: int|
                0 <= k < i ==> data@[k] == rot90_seq(
                    src.width as int,
                    src.height as int,
                    src.data@,
                )[k],
        decreases n - i,
    {
        proof {
            assert(w > 0 && h > 0) by (nonlinear_arith)
                requires
                    (i as int) < (src.width as int) * (src.height as int),
                    0 <= i as int,
                    w == src.width as int,
                    h == src.height as int,
            ;
            assert((i as int) < (src.height as int) * (src.width as int)) by (nonlinear_arith)
                requires
                    (i as int) < (src.width as int) * (src.height as int),
            ;
            lemma_index_split(i as int, h as int, w as int);
            lemma_index_in_range(
                w as int,
                h as int,
                (i as int) / (h as int),
                h as int - 1 - (i as int) % (h as int),
            );
        }
        let rowcol: usize = i % h;
        let s: usize = (h - 1 - rowcol) * w + i / h;
        data.push(src.data[s]);
        i = i + 1;
    }
    proof {
        assert((src.height as int) * (src.width as int) == (src.width as int) * (
        src.height as int)) by (nonlinear_arith);
    }
    let r = Surface { width: src.height, height: src.width, data };
    proof {
        assert(r.data@ =~= rot90_seq(src.width as int, src.height as int, src.data@));
    }
    r
}

/// Every color channel moved by `delta` and clamped; alpha kept.
pub fn brighten(src: &Surface, delta: i32) -> (r: Surface)
    requires
        src.wf(),
        -255 <= delta <= 255,
    ensures
        r.wf(),
        r.width == src.width,
        r.height == src.height,
        r.data@ == src.data@.map_values(|c: Color| spec_brighten(c, delta as int)),
{
    let n: usize = src.data.len();
    let mut data: Vec<Color> = Vec::new();
    let mut i: usize = 0;
    while i < n
        invariant
            src.wf(),
            n == src.data@.len(),
            i <= n,
            -255 <= delta <= 255,
            data@.len() == i,
            forall|k: int|
                0 <= k < i ==> data@[k] == spec_brighten(src.data@[k], delta as int),
        decreases n - i,
    {
        let c = src.data[i];
        let nr = brighten_chan(c.r(), delta);
        let ng = brighten_chan(c.g(), delta);
        let nb = brighten_chan(c.b(), delta);
        data.push(Color::rgba(nr, ng, nb, c.a()));
        i = i + 1;
    }
    let r = Surface { width: src.width, height: src.height, data };
    proof {
        assert(r.data@ =~= src.data@.map_values(|c: Color| spec_brighten(c, delta as int)));
    }
    r
}

/// One channel of the brighten operation.
fn brighten_chan(v: u8, delta: i32) -> (r: u8)
    requires
        -255 <= delta <= 255,
    ensures
        r as u32 == spec_brighten_chan(v as u32, delta as int),
{
    let t: i32 = v as i32 + delta;
    if t < 0 {
        0
    } else if t > 255 {
        255
    } else {
        t as u8
    }
}

/// Every color channel inverted; alpha kept.
pub fn invert(src: &Surface) -> (r: Surface)
    requires
        src.wf(),
    ensures
        r.wf(),
        r.width == src.width,
        r.height == src.height,
        r.data@ == src.data@.map_values(|c: Color| spec_invert(c)),
{
    let n: usize = src.data.len();
    let mut data: Vec<Color> = Vec::new();
    let mut i: usize = 0;
    while i < n
        invariant
            src.wf(),
            n == src.data@.len(),
            i <= n,
            data@.len() == i,
            forall|k: int| 0 <= k < i ==> data@[k] == spec_invert(src.data@[k]),
        decreases n - i,
    {
        let c = src.data[i];
        data.push(Color::rgba(255 - c.r(), 255 - c.g(), 255 - c.b(), c.a()));
        i = i + 1;
    }
    let r = Surface { width: src.width, height: src.height, data };
    proof {
        assert(r.data@ =~= src.data@.map_values(|c: Color| spec_invert(c)));
    }
    r
}

/// Every pixel replaced by its grayscale tint.
pub fn grayscale(src: &Surface) -> (r: Surface)
    requires
        src.wf(),
    ensures
        r.wf(),
        r.width == src.width,
        r.height == src.height,
        r.data@ == src.data@.map_values(|c: Color| spec_gray(c)),
{
    let n: usize = src.data.len();
    let mut data: Vec<Color> = Vec::new();
    let mut i: usize = 0;
    while i < n
        invariant
            src.wf(),
            n == src.data@.len(),
            i <= n,
            data@.len() == i,
            forall|k: int| 0 <= k < i ==> data@[k] == spec_gray(src.data@[k]),
        decreases n - i,
    {
        let c = src.data[i];
        let luma: u32 = (2126 * (c.r() as u32) + 7152 * (c.g() as u32) + 722 * (c.b() as u32))
            / 10000;
        if luma == 255 {
            data.push(Color::rgba(255, 255, 255, 255));
        } else {
            let t: u32 = (luma * 10) / 12;
            data.push(Color::rgba(t as u8, t as u8, t as u8, 255));
        }
        i = i + 1;
    }
    let r = Surface { width: src.width, height: src.height, data };
    proof {
        assert(r.data@ =~= src.data@.map_values(|c: Color| spec_gray(c)));
    }
    r
}

/// The picture resampled to nw by nh cells with nearest-neighbor sampling.
pub fn resize_nearest(src: &Surface, nw: u32, nh: u32) -> (r: Surface)
    requires
        src.wf(),
        src.width > 0,
        src.height > 0,
        (nw as int) * (nh as int) <= usize::MAX as int,
    ensures
        r.wf(),
        r.width == nw,
        r.height == nh,
        r.data@ == resize_seq(src.width as int, src.height as int, src.data@, nw as int, nh as int),
{
    let w: usize = src.width as usize;
    let h: usize = src.height as usize;
    let nwu: usize = nw as usize;
    let nhu: usize = nh as usize;
    let n: usize = nwu * nhu;
    let mut data: Vec<Color> = Vec::new();
    let mut i: usize = 0;
    while i < n
        invariant
            src.wf(),
            w == src.width as int,
            h == src.height as int,
            nwu == nw as int,
            nhu == nh as int,
            n == nwu as int * nhu as int,
            i <= n,
            w > 0,
            h > 0,
            data@.len() == i,
            w * h == src.data@.len(),
            forall|k: int|
                0 <= k < i ==> data@[k] == resize_seq(
                    src.width as int,
                    src.height as int,
                    src.data@,
                    nw as int,
                    nh as int,
                )[k],
        decreases n - i,
    {
        proof {
            assert(nwu > 0 && nhu > 0) by (nonlinear_arith)
                requires
                    (i as int) < (nwu as int) * (nhu as int),
                    0 <= i as int,
            ;
            lemma_index_split(i as int, nwu as int, nhu as int);
        }
        let yo: usize = i / nwu;
        let xo: usize = i % nwu;
        proof {
            assert((xo as int) * (w as int) <= 0xffff_ffff * 0xffff_ffff) by (nonlinear_arith)
                requires
                    0 <= xo as int <= 0xffff_ffff,
                    0 <= w as int <= 0xffff_ffff,
            ;
            assert((yo as int) * (h as int) <= 0xffff_ffff * 0xffff_ffff) by (nonlinear_arith)
                requires
                    0 <= yo as int <= 0xffff_ffff,
                    0 <= h as int <= 0xffff_ffff,
            ;
        }
        let sx64: u64 = (xo as u64) * (w as u64) / (nwu as u64);
        let sy64: u64 = (yo as u64) * (h as u64) / (nhu as u64);
        proof {
            lemma_div_scale_bound(xo as int, nwu as int, w as int);
            lemma_div_scale_bound(yo as int, nhu as int, h as int);
            lemma_index_in_range(w as int, h as int, sx64 as int, sy64 as int);
        }
        let sx: usize = sx64 as usize;
        let sy: usize = sy64 as usize;
        let s: usize = sy * w + sx;
        data.push(src.data[s]);
        i = i + 1;
    }
    let r = Surface { width: nw, height: nh, data };
    proof {
        assert(r.data@ =~= resize_seq(
            src.width as int,
            src.height as int,
            src.data@,
            nw as int,
            nh as int,
        ));
    }
    r
}


/// The width an operation code produces from a w-by-h input: rotation swaps
/// the dimensions, resizing replaces them, everything else keeps them.
pub open spec fn spec_trans_width(cod: Seq<char>, w: int, h: int, a: int, b: int) -> int {
    if cod == "rotate90"@ {
        h
    } else if cod == "resize"@ {
        a
    } else {
        w
    }
}

/// The height an operation code produces from a w-by-h input.
pub open spec fn spec_trans_height(cod: Seq<char>, w: int, h: int, a: int, b: int) -> int {
    if cod == "rotate90"@ {
        w
    } else if cod == "resize"@ {
        b
    } else {
        h
    }
}

/// The buffer an operation code produces from a w-by-h input.  The Gaussian
/// operations ("blur", "unsharpen") are not computed by this core -- they
/// need floating point and run in the surrounding application -- so they,
/// like every unrecognized code, leave the buffer unchanged here.
pub open spec fn spec_trans_seq(
    cod: Seq<char>,
    w: int,
    h: int,
    data: Seq<Color>,
    a: int,
    b: int,
) -> Seq<Color> {
    if cod == "flip_horizontal"@ {
        flip_h_seq(w, h, data)
    } else if cod == "flip_vertical"@ {
        flip_v_seq(w, h, data)
    } else if cod == "rotate90"@ {
        rot90_seq(w, h, data)
    } else if cod == "brighten"@ {
        data.map_values(|c: Color| spec_brighten(c, 10))
    } else if cod == "darken"@ {
        data.map_values(|c: Color| spec_brighten(c, -10))
    } else if cod == "invert"@ {
        data.map_values(|c: Color| spec_invert(c))
    } else if cod == "grayscale"@ {
        data.map_values(|c: Color| spec_gray(c))
    } else if cod == "resize"@ {
        resize_seq(w, h, data, a, b)
    } else {
        data
    }
}

/// The sub-rectangle of a picture as its own row-major buffer.
pub open spec fn spec_region(img: Surface, x: int, y: int, w: int, h: int) -> Seq<Color> {
    Seq::new((w * h) as nat, |i: int| img.spec_at(x + i % w, y + i / w))
}

/// Character-for-character string equality, settled against the views.
pub fn str_eq(a: &str, b: &str) -> (r: bool)
    ensures
        r == (a@ == b@),
{
    let la = a.unicode_len();
    let lb = b.unicode_len();
    if la != lb {
        return false;
    }
    let mut i: usize = 0;
    while i < la
        invariant
            la as int == a@.len(),
            la as int == b@.len(),
            i <= la,
            forall|k: int| 0 <= k < i ==> a@[k] == b@[k],
        decreases la - i,
    {
        let ca = a.get_char(i);
        let cb = b.get_char(i);
        if ca != cb {
            return false;
        }
        i = i + 1;
    }
    proof {
        assert(a@ =~= b@);
    }
    true
}

/// The operation code applied to a whole surface.  Needs the resize bounds
/// when the code is "resize"; any unrecognized code gives back a copy.
pub fn apply_trans(src: &Surface, cod: &str, a: i32, b: i32) -> (r: Surface)
    requires
        src.wf(),
        cod@ == "resize"@ ==> 0 < a && 0 < b && (a as int) * (b as int) <= usize::MAX as int
            && src.width > 0 && src.height > 0,
    ensures
        r.wf(),
        r.width as int == spec_trans_width(
            cod@,
            src.width as int,
            src.height as int,
            a as int,
            b as int,
        ),
        r.height as int == spec_trans_height(
            cod@,
            src.width as int,
            src.height as int,
            a as int,
            b as int,
        ),
        r.data@ == spec_trans_seq(
            cod@,
            src.width as int,
            src.height as int,
            src.data@,
            a as int,
            b as int,
        ),
{
    proof {
        reveal_strlit("flip_horizontal");
        reveal_strlit("flip_vertical");
        reveal_strlit("rotate90");
        reveal_strlit("brighten");
        reveal_strlit("darken");
        reveal_strlit("invert");
        reveal_strlit("grayscale");
        reveal_strlit("resize");
        assert("flip_horizontal"@.len() == 15);
        assert("flip_vertical"@.len() == 13);
        assert("rotate90"@.len() == 8);
        assert("brighten"@.len() == 8);
        assert("darken"@.len() == 6);
        assert("invert"@.len() == 6);
        assert("grayscale"@.len() == 9);
        assert("resize"@.len() == 6);
        assert("rotate90"@[0] == 'r' && "brighten"@[0] == 'b');
        assert("darken"@[0] == 'd' && "invert"@[0] == 'i' && "resize"@[0] == 'r');
    }
    if str_eq(cod, "flip_horizontal") {
        flip_horizontal(src)
    } else if str_eq(cod, "flip_vertical") {
        flip_vertical(src)
    } else if str_eq(cod, "rotate90") {
        rotate90(src)
    } else if str_eq(cod, "brighten") {
        brighten(src, 10)
    } else if str_eq(cod, "darken") {
        brighten(src, -10)
    } else if str_eq(cod, "invert") {
        invert(src)
    } else if str_eq(cod, "grayscale") {
        grayscale(src)
    } else if str_eq(cod, "resize") {
        resize_nearest(src, a as u32, b as u32)
    } else {
        src.duplicate()
    }
}

/// Scaling an index a < b up by c and dividing by b stays below c.
proof fn lemma_div_scale_bound(a: int, b: int, c: int)
    requires
        0 <= a < b,
        0 < c,
    ensures
        0 <= a * c / b < c,
{
    lemma_fundamental_div_mod(a * c, b);
    vstd::arithmetic::div_mod::lemma_mod_bound(a * c, b);
    assert(0 <= a * c / b < c) by (nonlinear_arith)
        requires
            0 <= a < b,
            0 < c,
            a * c == b * (a * c / b) + (a * c) % b,
            0 <= (a * c) % b < b,
    ;
}

} // verus!
