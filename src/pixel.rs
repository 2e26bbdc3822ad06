//! A pixel: three 8-bit colour channels, with its equalities and transforms.
use vstd::prelude::*;

use crate::codec::{channel_ok, channels_ok, parse_channel, pixel_at, split_words, words};
use crate::text::{append_decimal, ascii_chars, decimal};

verus! {

/// A 24-bit colour: one byte each for red, green and blue.
#[derive(Clone, Copy, PartialEq, Eq, Structural, Debug)]
pub struct Pixel {
    pub red: u8,
    pub green: u8,
    pub blue: u8,
}

/// The negative of `p`: each channel `c` becomes `255 - c`.
pub open spec fn inverted(p: Pixel) -> Pixel {
    Pixel { red: (255 - p.red) as u8, green: (255 - p.green) as u8, blue: (255 - p.blue) as u8 }
}

/// The gray level of `p`: each channel divided by three, then summed.
pub open spec fn gray_level(p: Pixel) -> u8 {
    (p.red / 3 + p.green / 3 + p.blue / 3) as u8
}

/// `p` in shades of gray: all three channels set to its gray level.
pub open spec fn grayed(p: Pixel) -> Pixel {
    Pixel { red: gray_level(p), green: gray_level(p), blue: gray_level(p) }
}

/// Full equality: all three channels agree.
pub open spec fn same_pixel(a: Pixel, b: Pixel) -> bool {
    a.red == b.red && a.green == b.green && a.blue == b.blue
}

/// Partial equality: at least one channel agrees.
pub open spec fn partly_same_pixel(a: Pixel, b: Pixel) -> bool {
    a.red == b.red || a.green == b.green || a.blue == b.blue
}

/// The readable form `(r:R, g:G, b:B)` of `p`, with decimal channels.
pub open spec fn pixel_text(p: Pixel) -> Seq<char> {
    "(r:"@ + ascii_chars(decimal(p.red as nat)) + ", g:"@ + ascii_chars(decimal(p.green as nat))
        + ", b:"@ + ascii_chars(decimal(p.blue as nat)) + ")"@
}

impl Pixel {
    /// The pixel with the given channels.
    pub fn new(red: u8, green: u8, blue: u8) -> (r: Pixel)
        ensures
            r == (Pixel { red, green, blue }),
    {
        Pixel { red, green, blue }
    }

    /// Reads a pixel from text holding exactly three whitespace-separated
    /// words, its red, green and blue channels, each a run of digits denoting
    /// at most 255.
    pub fn parse(text: &[u8]) -> (r: Option<Pixel>)
        ensures
            r is Some <==> words(text@).len() == 3 && channels_ok(words(text@)),
            r matches Some(p) ==> p == pixel_at(words(text@), 0),
    {
        let ws = split_words(text, 0, text.len());
        assert(text@.subrange(0, text@.len() as int) =~= text@);
        let ghost t = words(text@);
        if ws.len() != 3 {
            return None;
        }
        assert(forall|i: int| 0 <= i < 3 ==> #[trigger] ws@[i]@ == t[i]);
        let red = match parse_channel(&ws[0]) {
            Some(c) => c,
            None => {
                assert(!channel_ok(t[0]));
                return None;
            },
        };
        let green = match parse_channel(&ws[1]) {
            Some(c) => c,
            None => {
                assert(!channel_ok(t[1]));
                return None;
            },
        };
        let blue = match parse_channel(&ws[2]) {
            Some(c) => c,
            None => {
                assert(!channel_ok(t[2]));
                return None;
            },
        };
        assert(forall|i: int| 0 <= i < 3 ==> channel_ok(#[trigger] t[i]));
        Some(Pixel { red, green, blue })
    }

    /// The red channel.
    pub fn red(self) -> (r: u8)
        ensures
            r == self.red,
    {
        self.red
    }

    /// The green channel.
    pub fn green(self) -> (r: u8)
        ensures
            r == self.green,
    {
        self.green
    }

    /// The blue channel.
    pub fn blue(self) -> (r: u8)
        ensures
            r == self.blue,
    {
        self.blue
    }

    /// The readable form `(r:R, g:G, b:B)`.
    pub fn display(self) -> (r: String)
        ensures
            r@ == pixel_text(self),
    {
        let mut s = String::new();
        s.append("(r:");
        append_decimal(&mut s, self.red);
        s.append(", g:");
        append_decimal(&mut s, self.green);
        s.append(", b:");
        append_decimal(&mut s, self.blue);
        s.append(")");
        s
    }

    /// Full equality: true when all three channels agree.
    pub fn eq(self, other: Pixel) -> (r: bool)
        ensures
            r == same_pixel(self, other),
            r == (self == other),
    {
        self.blue == other.blue && self.red == other.red && self.green == other.green
    }

    /// Partial equality: true when at least one channel agrees.
    pub fn partial_eq(self, other: Pixel) -> (r: bool)
        ensures
            r == partly_same_pixel(self, other),
    {
        self.blue == other.blue || self.red == other.red || self.green == other.green
    }

    /// Replaces the pixel by its negative.
    pub fn invert_pixel(&mut self)
        ensures
            *final(self) == inverted(*old(self)),
    {
        self.red = 255 - self.red;
        self.green = 255 - self.green;
        self.blue = 255 - self.blue;
    }

    /// Replaces the pixel by its gray level on all three channels.
    pub fn grayscale_pixel(&mut self)
        ensures
            *final(self) == grayed(*old(self)),
    {
        let mean: u8 = self.red / 3 + self.green / 3 + self.blue / 3;
        self.red = mean;
        self.green = mean;
        self.blue = mean;
    }
}

/// The negative of `pixel`.
pub fn invert(pixel: Pixel) -> (r: Pixel)
    ensures
        r == inverted(pixel),
{
    let mut p = pixel;
    p.invert_pixel();
    p
}

/// `pixel` in shades of gray.
pub fn grayscale(pixel: Pixel) -> (r: Pixel)
    ensures
        r == grayed(pixel),
{
    let mut p = pixel;
    p.grayscale_pixel();
    p
}

/// Inverting twice gives back the pixel.
pub proof fn lemma_invert_involution(p: Pixel)
    ensures
        inverted(inverted(p)) == p,
{
}

/// The three channels of a grayed pixel are equal, and each is the sum of the
/// channels of `p` each divided by three.
pub proof fn lemma_grayscale_channels(p: Pixel)
    ensures
        grayed(p).red == grayed(p).green,
        grayed(p).green == grayed(p).blue,
        grayed(p).red as int == p.red as int / 3 + p.green as int / 3 + p.blue as int / 3,
{
}

/// Full equality implies partial equality, and two pixels that differ in
/// exactly one channel are partly but not fully equal.
pub proof fn lemma_full_narrower_than_partial(a: Pixel, b: Pixel)
    ensures
        same_pixel(a, b) ==> partly_same_pixel(a, b),
        (a.red != b.red && a.green == b.green && a.blue == b.blue) ==> (!same_pixel(a, b)
            && partly_same_pixel(a, b)),
        (a.red == b.red && a.green != b.green && a.blue == b.blue) ==> (!same_pixel(a, b)
            && partly_same_pixel(a, b)),
        (a.red == b.red && a.green == b.green && a.blue != b.blue) ==> (!same_pixel(a, b)
            && partly_same_pixel(a, b)),
{
}

} // verus!
