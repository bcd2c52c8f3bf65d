use vstd::prelude::*;

verus! {

/// A 4-channel color packed into one 32-bit word, compared as that raw word.
///
/// The packing keeps alpha in the top byte, then red, green and blue:
/// `0xAARRGGBB`.  On a little-endian machine the in-memory byte order of the
/// word is therefore B, G, R, A; the export path reorders bytes to R, G, B, A
/// (see `Canvas::export_data`), and nothing else in the crate depends on the
/// machine byte order.
#[derive(Clone, Copy, Debug, PartialEq, Eq, Structural)]
pub struct Color {
    pub data: u32,
}

impl Color {
    /// The packed word built from four channel values, each below 256.
    pub open spec fn spec_rgba(r: u32, g: u32, b: u32, a: u32) -> u32
        recommends
            r < 256,
            g < 256,
            b < 256,
            a < 256,
    {
        (a << 24) | (r << 16) | (g << 8) | b
    }

    pub open spec fn spec_r(self) -> u32 {
        (self.data >> 16) & 0xff
    }

    pub open spec fn spec_g(self) -> u32 {
        (self.data >> 8) & 0xff
    }

    pub open spec fn spec_b(self) -> u32 {
        self.data & 0xff
    }

    pub open spec fn spec_a(self) -> u32 {
        (self.data >> 24) & 0xff
    }

    pub fn rgba(r: u8, g: u8, b: u8, a: u8) -> (c: Color)
        ensures
            c.data == Self::spec_rgba(r as u32, g as u32, b as u32, a as u32),
    {
        Color { data: ((a as u32) << 24) | ((r as u32) << 16) | ((g as u32) << 8) | (b as u32) }
    }

    /// An opaque color: alpha fixed at 255.
    pub fn rgb(r: u8, g: u8, b: u8) -> (c: Color)
        ensures
            c.data == Self::spec_rgba(r as u32, g as u32, b as u32, 255),
    {
        Color::rgba(r, g, b, 255)
    }

    pub fn r(&self) -> (v: u8)
        ensures
            v as u32 == self.spec_r(),
    {
        let d = self.data;
        assert(((d >> 16) & 0xff) < 256) by (bit_vector);
        ((d >> 16) & 0xff) as u8
    }

    pub fn g(&self) -> (v: u8)
        ensures
            v as u32 == self.spec_g(),
    {
        let d = self.data;
        assert(((d >> 8) & 0xff) < 256) by (bit_vector);
        ((d >> 8) & 0xff) as u8
    }

    pub fn b(&self) -> (v: u8)
        ensures
            v as u32 == self.spec_b(),
    {
        let d = self.data;
        assert((d & 0xff) < 256) by (bit_vector);
        (d & 0xff) as u8
    }

    pub fn a(&self) -> (v: u8)
        ensures
            v as u32 == self.spec_a(),
    {
        let d = self.data;
        assert(((d >> 24) & 0xff) < 256) by (bit_vector);
        ((d >> 24) & 0xff) as u8
    }
    /// This color with its alpha scaled by opacity / 255; the color channels
    /// are kept.
    pub open spec fn spec_scale_alpha(self, opacity: u32) -> Color {
        Color {
            data: Color::spec_rgba(
                self.spec_r(),
                self.spec_g(),
                self.spec_b(),
                ((self.spec_a() * opacity) / 255) as u32,
            ),
        }
    }

    pub fn scale_alpha(&self, opacity: u8) -> (r: Color)
        ensures
            r == self.spec_scale_alpha(opacity as u32),
    {
        let a: u32 = self.a() as u32;
        let o: u32 = opacity as u32;
        proof {
            assert(a * o <= 255 * 255) by (nonlinear_arith)
                requires
                    a <= 255 && o <= 255,
            ;
        }
        let scaled: u32 = (a * o) / 255;
        Color::rgba(self.r(), self.g(), self.b(), scaled as u8)
    }
}

/// Packing four channels and extracting them again returns the channels:
/// the packed word determines r, g, b and a exactly.
pub proof fn lemma_rgba_channels(r: u32, g: u32, b: u32, a: u32)
    requires
        r < 256,
        g < 256,
        b < 256,
        a < 256,
    ensures
        (Color { data: Color::spec_rgba(r, g, b, a) }).spec_r() == r,
        (Color { data: Color::spec_rgba(r, g, b, a) }).spec_g() == g,
        (Color { data: Color::spec_rgba(r, g, b, a) }).spec_b() == b,
        (Color { data: Color::spec_rgba(r, g, b, a) }).spec_a() == a,
{
    assert(r < 256 && g < 256 && b < 256 && a < 256 ==> (((a << 24) | (r << 16) | (g << 8) | b)
        >> 16) & 0xff == r) by (bit_vector);
    assert(r < 256 && g < 256 && b < 256 && a < 256 ==> (((a << 24) | (r << 16) | (g << 8) | b)
        >> 8) & 0xff == g) by (bit_vector);
    assert(r < 256 && g < 256 && b < 256 && a < 256 ==> ((a << 24) | (r << 16) | (g << 8) | b)
        & 0xff == b) by (bit_vector);
    assert(r < 256 && g < 256 && b < 256 && a < 256 ==> (((a << 24) | (r << 16) | (g << 8) | b)
        >> 24) & 0xff == a) by (bit_vector);
}

/// Each extracted channel is below 256.
pub proof fn lemma_channel_range(c: Color)
    ensures
        c.spec_r() < 256,
        c.spec_g() < 256,
        c.spec_b() < 256,
        c.spec_a() < 256,
{
    let d = c.data;
    assert((d >> 16) & 0xff < 256) by (bit_vector);
    assert((d >> 8) & 0xff < 256) by (bit_vector);
    assert(d & 0xff < 256) by (bit_vector);
    assert((d >> 24) & 0xff < 256) by (bit_vector);
}

} // verus!
