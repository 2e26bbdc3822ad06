//! An image: a width, a height and its pixels in row order.
use vstd::prelude::*;

use crate::pixel::{grayed, inverted, Pixel};

verus! {

/// What an image is: its pixels in row order, its width and its height.
pub ghost struct ImageModel {
    pub pixels: Seq<Pixel>,
    pub width: nat,
    pub height: nat,
}

/// An image of `width` by `height` pixels, stored row by row in `vector`.
///
/// Construction does not ask that `vector` hold `width * height` pixels;
/// the codec does (see `is_complete`).
#[derive(Clone, Debug)]
pub struct Image {
    pub vector: Vec<Pixel>,
    pub width: usize,
    pub height: usize,
}

impl View for Image {
    type V = ImageModel;

    open spec fn view(&self) -> ImageModel {
        ImageModel { pixels: self.vector@, width: self.width as nat, height: self.height as nat }
    }
}

/// The image holds exactly one pixel per position of its grid.
pub open spec fn is_complete(m: ImageModel) -> bool {
    m.pixels.len() == m.width * m.height
}

/// Every pixel inverted, in the same order.
pub open spec fn inverted_pixels(s: Seq<Pixel>) -> Seq<Pixel> {
    s.map_values(|p: Pixel| inverted(p))
}

/// Every pixel grayed, in the same order.
pub open spec fn grayed_pixels(s: Seq<Pixel>) -> Seq<Pixel> {
    s.map_values(|p: Pixel| grayed(p))
}

/// The negative of an image, of the same size.
pub open spec fn inverted_image(m: ImageModel) -> ImageModel {
    ImageModel { pixels: inverted_pixels(m.pixels), ..m }
}

/// An image in shades of gray, of the same size.
pub open spec fn grayed_image(m: ImageModel) -> ImageModel {
    ImageModel { pixels: grayed_pixels(m.pixels), ..m }
}

impl Image {
    /// The image of the given pixels and size, taken as they are.
    pub fn new(vector: Vec<Pixel>, width: usize, height: usize) -> (r: Image)
        ensures
            r.vector@ == vector@,
            r.width == width,
            r.height == height,
    {
        Image { vector, width, height }
    }

    /// Equality of images: same width, same height, and the same pixels
    /// (fully equal) at every position.
    pub fn eq(self, other: Image) -> (r: bool)
        ensures
            r == (self@ == other@),
    {
        if self.width != other.width || self.height != other.height
            || self.vector.len() != other.vector.len() {
            return false;
        }
        let n = self.vector.len();
        let mut i: usize = 0;
        while i < n
            invariant
                n == self.vector@.len(),
                n == other.vector@.len(),
                i <= n,
                forall|j: int| 0 <= j < i ==> self.vector@[j] == other.vector@[j],
            decreases n - i,
        {
            if !self.vector[i].eq(other.vector[i]) {
                return false;
            }
            i += 1;
        }
        assert(self.vector@ =~= other.vector@);
        true
    }

    /// Replaces every pixel by its negative.
    pub fn invert_image(&mut self)
        ensures
            final(self)@ == inverted_image(old(self)@),
    {
        let n = self.vector.len();
        let mut i: usize = 0;
        while i < n
            invariant
                n == old(self).vector@.len(),
                n == self.vector@.len(),
                i <= n,
                self.width == old(self).width,
                self.height == old(self).height,
                forall|j: int| 0 <= j < i ==> self.vector@[j] == inverted(old(self).vector@[j]),
                forall|j: int| i <= j < n ==> self.vector@[j] == old(self).vector@[j],
            decreases n - i,
        {
            let mut p = self.vector[i];
            p.invert_pixel();
            self.vector.set(i, p);
            i += 1;
        }
        assert(self.vector@ =~= inverted_pixels(old(self).vector@));
    }

    /// Replaces every pixel by its gray level.
    pub fn grayscale_image(&mut self)
        ensures
            final(self)@ == grayed_image(old(self)@),
    {
        let n = self.vector.len();
        let mut i: usize = 0;
        while i < n
            invariant
                n == old(self).vector@.len(),
                n == self.vector@.len(),
                i <= n,
                self.width == old(self).width,
                self.height == old(self).height,
                forall|j: int| 0 <= j < i ==> self.vector@[j] == grayed(old(self).vector@[j]),
                forall|j: int| i <= j < n ==> self.vector@[j] == old(self).vector@[j],
            decreases n - i,
        {
            let mut p = self.vector[i];
            p.grayscale_pixel();
            self.vector.set(i, p);
            i += 1;
        }
        assert(self.vector@ =~= grayed_pixels(old(self).vector@));
    }

    /// The negative of the image, as a new image.
    pub fn invert(&self) -> (r: Image)
        ensures
            r@ == inverted_image(self@),
    {
        let mut vector: Vec<Pixel> = Vec::with_capacity(self.vector.len());
        let mut i: usize = 0;
        while i < self.vector.len()
            invariant
                i <= self.vector@.len(),
                vector@ =~= inverted_pixels(self.vector@.take(i as int)),
            decreases self.vector@.len() - i,
        {
            let mut p = self.vector[i];
            p.invert_pixel();
            vector.push(p);
            i += 1;
            assert(vector@ =~= inverted_pixels(self.vector@.take(i as int)));
        }
        assert(self.vector@.take(i as int) =~= self.vector@);
        Image { vector, width: self.width, height: self.height }
    }

    /// The image in shades of gray, as a new image.
    pub fn grayscale(&self) -> (r: Image)
        ensures
            r@ == grayed_image(self@),
    {
        let mut vector: Vec<Pixel> = Vec::with_capacity(self.vector.len());
        let mut i: usize = 0;
        while i < self.vector.len()
            invariant
                i <= self.vector@.len(),
                vector@ =~= grayed_pixels(self.vector@.take(i as int)),
            decreases self.vector@.len() - i,
        {
            let mut p = self.vector[i];
            p.grayscale_pixel();
            vector.push(p);
            i += 1;
            assert(vector@ =~= grayed_pixels(self.vector@.take(i as int)));
        }
        assert(self.vector@.take(i as int) =~= self.vector@);
        Image { vector, width: self.width, height: self.height }
    }

    /// The pixels, in row order.
    pub fn vector(self) -> (r: Vec<Pixel>)
        ensures
            r@ == self.vector@,
    {
        self.vector
    }

    /// The width, in pixels.
    pub fn width(self) -> (r: usize)
        ensures
            r == self.width,
    {
        self.width
    }

    /// The height, in pixels.
    pub fn height(self) -> (r: usize)
        ensures
            r == self.height,
    {
        self.height
    }
}

/// Inverting an image twice gives back an equal image.
pub proof fn lemma_image_invert_involution(m: ImageModel)
    ensures
        inverted_image(inverted_image(m)) == m,
{
    assert(inverted_pixels(inverted_pixels(m.pixels)) =~= m.pixels);
}

} // verus!
