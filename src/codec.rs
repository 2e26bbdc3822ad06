//! The plain-text PPM ("P3") format: decoding text into an image and
//! encoding an image as text.
//!
//! The text opens with a header of three lines: the tag `P3`, then the width
//! and the height, then the largest channel value, which is not read (the
//! channels are always 8-bit). The rest is a flat stream of
//! whitespace-separated words, three (red, green, blue) per pixel, in row
//! order; its line breaks carry no meaning.
use vstd::prelude::*;

use crate::image::{is_complete, Image, ImageModel};
use crate::pixel::Pixel;
use crate::text::{
    decimal, decimal_value, is_decimal, is_digit, lemma_decimal_round_trip, parse_decimal,
    write_decimal,
};

verus! {

/// ASCII whitespace: space, tab, line feed, form feed, carriage return.
pub open spec fn is_space(b: u8) -> bool {
    b == 32 || b == 9 || b == 10 || b == 12 || b == 13
}

/// The maximal runs of non-whitespace bytes of `s`, in order.
pub open spec fn words(s: Seq<u8>) -> Seq<Seq<u8>>
    decreases s.len(),
{
    if s.len() == 0 {
        Seq::empty()
    } else {
        let w = words(s.drop_last());
        if is_space(s.last()) {
            w
        } else if s.len() >= 2 && !is_space(s[s.len() - 2]) {
            w.update(w.len() - 1, w.last().push(s.last()))
        } else {
            w.push(seq![s.last()])
        }
    }
}

/// The contents of a vector of words.
pub open spec fn words_of(v: Seq<Vec<u8>>) -> Seq<Seq<u8>> {
    v.map_values(|w: Vec<u8>| w@)
}

/// Text that ends in a word has at least one word.
proof fn lemma_words_nonempty(s: Seq<u8>)
    requires
        s.len() > 0,
        !is_space(s.last()),
    ensures
        words(s).len() > 0,
    decreases s.len(),
{
    if s.len() >= 2 && !is_space(s[s.len() - 2]) {
        lemma_words_nonempty(s.drop_last());
    }
}

/// Text cut after whitespace splits into the words of each part.
proof fn lemma_words_concat(a: Seq<u8>, b: Seq<u8>)
    requires
        a.len() == 0 || is_space(a.last()),
    ensures
        words(a + b) == words(a) + words(b),
    decreases b.len(),
{
    if b.len() == 0 {
        assert(a + b =~= a);
        assert(words(a) + words(b) =~= words(a));
    } else {
        let ab = a + b;
        let b0 = b.drop_last();
        assert(ab.drop_last() =~= a + b0);
        lemma_words_concat(a, b0);
        assert(ab.last() == b.last());
        if is_space(b.last()) {
        } else if b.len() >= 2 {
            assert(ab[ab.len() - 2] == b[b.len() - 2]);
            if !is_space(b[b.len() - 2]) {
                lemma_words_nonempty(b0);
            }
            assert(words(ab) =~= words(a) + words(b));
        } else {
            assert(words(ab) =~= words(a) + words(b));
        }
    }
}

/// Splits the bytes of `text` from `start` up to `end` into their
/// whitespace-separated words.
pub fn split_words(text: &[u8], start: usize, end: usize) -> (r: Vec<Vec<u8>>)
    requires
        start <= end <= text@.len(),
    ensures
        words_of(r@) == words(text@.subrange(start as int, end as int)),
{
    let mut r: Vec<Vec<u8>> = Vec::new();
    let mut i: usize = start;
    assert(text@.subrange(start as int, start as int) =~= Seq::<u8>::empty());
    while i < end
        invariant
            start <= i <= end <= text@.len(),
            words_of(r@) == words(text@.subrange(start as int, i as int)),
        decreases end - i,
    {
        let b = text[i];
        let ghost pre = text@.subrange(start as int, i as int);
        let ghost cur = text@.subrange(start as int, i + 1);
        assert(cur.drop_last() =~= pre);
        assert(cur.last() == b);
        assert(i > start ==> cur[cur.len() - 2] == text@[i - 1]);
        if b == 32 || b == 9 || b == 10 || b == 12 || b == 13 {
        } else if i > start && !(text[i - 1] == 32 || text[i - 1] == 9 || text[i - 1] == 10
            || text[i - 1] == 12 || text[i - 1] == 13) {
            proof {
                lemma_words_nonempty(pre);
            }
            let mut last = r.pop().unwrap();
            last.push(b);
            r.push(last);
            assert(words_of(r@) =~= words(cur));
        } else {
            let mut fresh: Vec<u8> = Vec::new();
            fresh.push(b);
            assert(fresh@ =~= seq![b]);
            r.push(fresh);
            assert(words_of(r@) =~= words(cur));
        }
        i += 1;
    }
    r
}

/// Why a text is not a PPM image.
#[derive(Clone, Copy, PartialEq, Eq, Structural, Debug)]
pub enum FormatError {
    /// Fewer than three header lines, or a first line other than the tag
    /// `P3` alone.
    Header,
    /// A second line other than two words, the width and the height, each a
    /// run of digits that fits in a `usize`.
    Dimension,
    /// A pixel word that is not a run of digits denoting at most 255.
    Channel,
    /// A number of channel words other than three per pixel of the grid.
    PixelCount,
}

/// The tag `P3` that opens the text.
pub open spec fn tag() -> Seq<u8> {
    seq![80u8, 51u8]
}

/// The number of bytes of `s` before its first line feed (all of `s` where it
/// has none).
pub open spec fn line_len(s: Seq<u8>) -> nat
    decreases s.len(),
{
    if s.len() == 0 || s[0] == 10 {
        0
    } else {
        1 + line_len(s.drop_first())
    }
}

/// `s` opens with a line ended by a line feed.
pub open spec fn has_line(s: Seq<u8>) -> bool {
    line_len(s) < s.len()
}

/// The first line of `s`, without its line feed.
pub open spec fn first_line(s: Seq<u8>) -> Seq<u8> {
    s.take(line_len(s) as int)
}

/// What follows the first line feed of `s`.
pub open spec fn after_line(s: Seq<u8>) -> Seq<u8> {
    s.skip(line_len(s) + 1int)
}

/// `s` opens with the three lines of a header, each ended by a line feed:
/// the tag, the size, and the largest channel value.
pub open spec fn has_header_lines(s: Seq<u8>) -> bool {
    has_line(s) && has_line(after_line(s)) && has_line(after_line(after_line(s)))
}

/// The second line of `s`: the width and the height.
pub open spec fn size_line(s: Seq<u8>) -> Seq<u8> {
    first_line(after_line(s))
}

/// What follows the three header lines of `s`: the channels of the pixels.
pub open spec fn raster(s: Seq<u8>) -> Seq<u8> {
    after_line(after_line(after_line(s)))
}

/// A word that can stand for a width or a height.
pub open spec fn dimension_ok(t: Seq<u8>) -> bool {
    is_decimal(t) && decimal_value(t) <= usize::MAX
}

/// A word that can stand for a channel.
pub open spec fn channel_ok(t: Seq<u8>) -> bool {
    is_decimal(t) && decimal_value(t) <= 255
}

/// Every word of `t` can stand for a channel.
pub open spec fn channels_ok(t: Seq<Seq<u8>>) -> bool {
    forall|i: int| 0 <= i < t.len() ==> channel_ok(#[trigger] t[i])
}

/// The pixel whose channels the three words from `t[i]` on denote.
pub open spec fn pixel_at(t: Seq<Seq<u8>>, i: int) -> Pixel {
    Pixel {
        red: decimal_value(t[i]) as u8,
        green: decimal_value(t[i + 1]) as u8,
        blue: decimal_value(t[i + 2]) as u8,
    }
}

/// The image that the text `s` holds, or the first thing wrong with it.
///
/// The header is three lines: the tag alone, then the width and the height,
/// then the largest channel value, which is not read. What follows is one
/// stream of words, three per pixel, whatever the line breaks.
pub open spec fn decoded(s: Seq<u8>) -> Result<ImageModel, FormatError> {
    if !has_header_lines(s) || words(first_line(s)) != seq![tag()] {
        Err(FormatError::Header)
    } else {
        let d = words(size_line(s));
        let t = words(raster(s));
        if d.len() != 2 || !dimension_ok(d[0]) || !dimension_ok(d[1]) {
            Err(FormatError::Dimension)
        } else if !channels_ok(t) {
            Err(FormatError::Channel)
        } else if t.len() != 3 * (decimal_value(d[0]) * decimal_value(d[1])) {
            Err(FormatError::PixelCount)
        } else {
            Ok(
                ImageModel {
                    pixels: Seq::new((t.len() / 3) as nat, |k: int| pixel_at(t, 3 * k)),
                    width: decimal_value(d[0]),
                    height: decimal_value(d[1]),
                },
            )
        }
    }
}

/// Whether `w` is the tag `P3`.
fn is_tag(w: &Vec<u8>) -> (r: bool)
    ensures
        r == (w@ == tag()),
{
    if w.len() == 2 && w[0] == 80 && w[1] == 51 {
        assert(w@ =~= tag());
        true
    } else {
        false
    }
}

/// Reads the channel that `w` denotes, or `None` where it is not one.
pub(crate) fn parse_channel(w: &Vec<u8>) -> (r: Option<u8>)
    ensures
        r is Some <==> channel_ok(w@),
        r matches Some(c) ==> c == decimal_value(w@),
{
    match parse_decimal(w) {
        Some(v) => if v <= 255 {
            Some(v as u8)
        } else {
            None
        },
        None => None,
    }
}

/// The position of the first line feed in `text` from `start` on, or the
/// length of `text` where there is none.
fn find_line_end(text: &[u8], start: usize) -> (r: usize)
    requires
        start <= text@.len(),
    ensures
        r <= text@.len(),
        r == start + line_len(text@.skip(start as int)),
{
    let mut i: usize = start;
    while i < text.len() && text[i] != 10
        invariant
            start <= i <= text@.len(),
            line_len(text@.skip(start as int)) == (i - start) + line_len(text@.skip(i as int)),
        decreases text@.len() - i,
    {
        assert(text@.skip(i as int).drop_first() =~= text@.skip(i + 1));
        i += 1;
    }
    i
}

/// The header of `s` is well formed, of the given width and height.
spec fn header_read(s: Seq<u8>, width: usize, height: usize) -> bool {
    let d = words(size_line(s));
    &&& has_header_lines(s)
    &&& words(first_line(s)) == seq![tag()]
    &&& d.len() == 2
    &&& dimension_ok(d[0])
    &&& dimension_ok(d[1])
    &&& width == decimal_value(d[0])
    &&& height == decimal_value(d[1])
}

/// Decodes PPM text into an image.
///
/// The header is three lines: `P3`, then the width and the height, then the
/// largest channel value, which is skipped. The rest is a stream of
/// whitespace-separated words, the red, green and blue channel of each pixel
/// in row order, whatever the line breaks. Exactly `width * height` pixels
/// must follow.
pub fn decode(text: &[u8]) -> (r: Result<Image, FormatError>)
    ensures
        match r {
            Ok(image) => decoded(text@) == Ok::<ImageModel, FormatError>(image@),
            Err(e) => decoded(text@) == Err::<ImageModel, FormatError>(e),
        },
{
    let ghost s = text@;
    let len = text.len();
    assert(s.skip(0) =~= s);
    let e1 = find_line_end(text, 0);
    if e1 >= len {
        return Err(FormatError::Header);
    }
    assert(after_line(s) =~= s.skip(e1 + 1));
    let e2 = find_line_end(text, e1 + 1);
    if e2 >= len {
        return Err(FormatError::Header);
    }
    assert(after_line(after_line(s)) =~= s.skip(e2 + 1));
    let e3 = find_line_end(text, e2 + 1);
    if e3 >= len {
        return Err(FormatError::Header);
    }
    assert(raster(s) =~= s.subrange(e3 + 1, len as int));
    assert(first_line(s) =~= s.subrange(0, e1 as int));
    assert(size_line(s) =~= s.subrange(e1 + 1, e2 as int));
    let first = split_words(text, 0, e1);
    if first.len() != 1 || !is_tag(&first[0]) {
        if first.len() == 1 {
            assert(words_of(first@)[0] != seq![tag()][0]);
        } else {
            assert(words_of(first@).len() != seq![tag()].len());
        }
        return Err(FormatError::Header);
    }
    assert(words_of(first@) =~= seq![tag()]);
    let size = split_words(text, e1 + 1, e2);
    let ghost d = words(size_line(s));
    if size.len() != 2 {
        return Err(FormatError::Dimension);
    }
    assert(size@[0]@ == d[0] && size@[1]@ == d[1]);
    let width = match parse_decimal(&size[0]) {
        Some(v) => v,
        None => {
            return Err(FormatError::Dimension);
        },
    };
    let height = match parse_decimal(&size[1]) {
        Some(v) => v,
        None => {
            return Err(FormatError::Dimension);
        },
    };
    let ws = split_words(text, e3 + 1, len);
    let ghost t = words(raster(s));
    assert(forall|i: int| 0 <= i < ws@.len() ==> #[trigger] ws@[i]@ == t[i]);
    let mut channels: Vec<u8> = Vec::new();
    let mut i: usize = 0;
    while i < ws.len()
        invariant
            i <= ws@.len(),
            header_read(s, width, height),
            s == text@,
            t == words(raster(s)),
            ws@.len() == t.len(),
            forall|j: int| 0 <= j < ws@.len() ==> #[trigger] ws@[j]@ == t[j],
            channels@.len() == i,
            forall|j: int| 0 <= j < i ==> channel_ok(#[trigger] t[j]),
            forall|j: int| 0 <= j < channels@.len() ==> #[trigger] channels@[j] == decimal_value(t[j]),
        decreases ws@.len() - i,
    {
        match parse_channel(&ws[i]) {
            Some(c) => {
                channels.push(c);
            },
            None => {
                assert(!channel_ok(t[i as int]));
                return Err(FormatError::Channel);
            },
        }
        i += 1;
    }
    let n = channels.len();
    let count = match width.checked_mul(height) {
        Some(c) => c,
        None => {
            return Err(FormatError::PixelCount);
        },
    };
    if n % 3 != 0 || n / 3 != count {
        return Err(FormatError::PixelCount);
    }
    let mut pixels: Vec<Pixel> = Vec::new();
    let mut k: usize = 0;
    while k < count
        invariant
            k <= count,
            header_read(s, width, height),
            s == text@,
            t == words(raster(s)),
            count == width * height,
            channels_ok(t),
            n == channels@.len(),
            n == 3 * count,
            n == t.len(),
            forall|j: int| 0 <= j < channels@.len() ==> #[trigger] channels@[j] == decimal_value(t[j]),
            pixels@.len() == k,
            forall|j: int| 0 <= j < k ==> #[trigger] pixels@[j] == pixel_at(t, 3 * j),
        decreases count - k,
    {
        let p = Pixel::new(channels[3 * k], channels[3 * k + 1], channels[3 * k + 2]);
        pixels.push(p);
        k += 1;
    }
    let image = Image::new(pixels, width, height);
    assert(image@.pixels =~= Seq::new(t.len() / 3, |k: int| pixel_at(t, 3 * k)));
    Ok(image)
}

/// The text of one pixel: its red, green and blue channels in decimal, one
/// space apart.
pub open spec fn record(p: Pixel) -> Seq<u8> {
    decimal(p.red as nat) + seq![32u8] + decimal(p.green as nat) + seq![32u8] + decimal(
        p.blue as nat,
    )
}

/// The byte written after the `k`-th pixel (counting from one): a line feed
/// where it ends a row of `width` pixels, a tab elsewhere.
pub open spec fn separator(k: nat, width: nat) -> u8 {
    if width > 0 && k % width == 0 {
        10
    } else {
        9
    }
}

/// The text of the pixels `ps`, each record followed by its separator.
pub open spec fn body(ps: Seq<Pixel>, width: nat) -> Seq<u8>
    decreases ps.len(),
{
    if ps.len() == 0 {
        Seq::empty()
    } else {
        body(ps.drop_last(), width) + record(ps.last()).push(separator(ps.len(), width))
    }
}

/// The header: `P3`, then the width and height on one line, then `255`, each
/// line ended by a line feed.
pub open spec fn header(width: nat, height: nat) -> Seq<u8> {
    seq![80u8, 51u8, 10u8] + decimal(width) + seq![32u8] + decimal(height) + seq![
        10u8,
        50u8,
        53u8,
        53u8,
        10u8,
    ]
}

/// The PPM text of an image: its header, then its pixels row by row, one row
/// per line, the pixels of a row separated by tabs.
pub open spec fn encoded(m: ImageModel) -> Seq<u8> {
    header(m.width, m.height) + body(m.pixels, m.width)
}

/// Writes the PPM text of `image` to `out` and returns the number of pixels
/// written.
pub fn encode(image: &Image, out: &mut Vec<u8>) -> (count: usize)
    ensures
        final(out)@ == old(out)@ + encoded(image@),
        count == image.vector@.len(),
{
    out.push(80);
    out.push(51);
    out.push(10);
    write_decimal(out, image.width);
    out.push(32);
    write_decimal(out, image.height);
    out.push(10);
    out.push(50);
    out.push(53);
    out.push(53);
    out.push(10);
    let ghost start = out@;
    assert(start =~= old(out)@ + header(image.width as nat, image.height as nat));
    let n = image.vector.len();
    let mut i: usize = 0;
    assert(image.vector@.take(0) =~= Seq::<Pixel>::empty());
    assert(out@ =~= start + body(image.vector@.take(0), image.width as nat));
    while i < n
        invariant
            n == image.vector@.len(),
            i <= n,
            out@ == start + body(image.vector@.take(i as int), image.width as nat),
        decreases n - i,
    {
        let p = image.vector[i];
        write_decimal(out, p.red as usize);
        out.push(32);
        write_decimal(out, p.green as usize);
        out.push(32);
        write_decimal(out, p.blue as usize);
        if image.width > 0 && (i + 1) % image.width == 0 {
            out.push(10);
        } else {
            out.push(9);
        }
        i += 1;
        assert(image.vector@.take(i as int).drop_last() =~= image.vector@.take(i - 1));
        assert(out@ =~= start + body(image.vector@.take(i as int), image.width as nat));
    }
    assert(image.vector@.take(i as int) =~= image.vector@);
    n
}

/// The words of the text of the pixels `ps`: the three channels of each
/// pixel in decimal, pixel after pixel.
pub open spec fn channel_words(ps: Seq<Pixel>) -> Seq<Seq<u8>>
    decreases ps.len(),
{
    if ps.len() == 0 {
        Seq::empty()
    } else {
        let p = ps.last();
        channel_words(ps.drop_last()) + seq![
            decimal(p.red as nat),
            decimal(p.green as nat),
            decimal(p.blue as nat),
        ]
    }
}

/// A non-empty run of bytes without whitespace is a single word.
proof fn lemma_single_word(t: Seq<u8>)
    requires
        t.len() > 0,
        forall|i: int| 0 <= i < t.len() ==> !is_space(#[trigger] t[i]),
    ensures
        words(t) == seq![t],
    decreases t.len(),
{
    assert(!is_space(t[t.len() - 1]));
    if t.len() == 1 {
        assert(t.drop_last() =~= Seq::<u8>::empty());
        assert(words(Seq::<u8>::empty()) == Seq::<Seq<u8>>::empty());
        assert(seq![t.last()] =~= t);
    } else {
        assert(!is_space(t[t.len() - 2]));
        assert(forall|i: int| 0 <= i < t.len() - 1 ==> t.drop_last()[i] == t[i]);
        lemma_single_word(t.drop_last());
        assert(t.drop_last().push(t.last()) =~= t);
    }
}

/// A word followed by one whitespace byte is that word alone.
proof fn lemma_word_then_space(t: Seq<u8>, sp: u8)
    requires
        t.len() > 0,
        forall|i: int| 0 <= i < t.len() ==> !is_space(#[trigger] t[i]),
        is_space(sp),
    ensures
        words(t.push(sp)) == seq![t],
{
    lemma_single_word(t);
    assert(t.push(sp).drop_last() =~= t);
}

/// A decimal notation followed by one whitespace byte is that notation alone.
proof fn lemma_number_then_space(n: nat, sp: u8)
    requires
        is_space(sp),
    ensures
        words(decimal(n).push(sp)) == seq![decimal(n)],
        words(decimal(n) + seq![sp]) == seq![decimal(n)],
{
    lemma_decimal_round_trip(n);
    assert(forall|i: int| 0 <= i < decimal(n).len() ==> is_digit(#[trigger] decimal(n)[i]));
    lemma_word_then_space(decimal(n), sp);
    assert(decimal(n) + seq![sp] =~= decimal(n).push(sp));
}

/// A line without line feeds, its line feed, and what follows: the first
/// line of that text is the line, and what follows its line feed is the rest.
proof fn lemma_split_line(a: Seq<u8>, b: Seq<u8>)
    requires
        forall|i: int| 0 <= i < a.len() ==> #[trigger] a[i] != 10,
    ensures
        line_len(a.push(10) + b) == a.len(),
        has_line(a.push(10) + b),
        first_line(a.push(10) + b) == a,
        after_line(a.push(10) + b) == b,
    decreases a.len(),
{
    let s = a.push(10) + b;
    if a.len() > 0 {
        assert(s[0] == a[0]);
        assert(s.drop_first() =~= a.drop_first().push(10) + b);
        assert(forall|i: int| 0 <= i < a.len() - 1 ==> a.drop_first()[i] == a[i + 1]);
        lemma_split_line(a.drop_first(), b);
    } else {
        assert(s[0] == 10);
    }
    assert(first_line(s) =~= a);
    assert(after_line(s) =~= b);
}

/// A decimal notation holds no whitespace.
proof fn lemma_decimal_no_space(n: nat)
    ensures
        decimal(n).len() > 0,
        forall|i: int| 0 <= i < decimal(n).len() ==> !is_space(#[trigger] decimal(n)[i]),
{
    lemma_decimal_round_trip(n);
    assert(forall|i: int| 0 <= i < decimal(n).len() ==> is_digit(#[trigger] decimal(n)[i]));
}

/// The words of the text of one pixel and its separator are its channels.
proof fn lemma_record_words(p: Pixel, sp: u8)
    requires
        is_space(sp),
    ensures
        words(record(p).push(sp)) == seq![
            decimal(p.red as nat),
            decimal(p.green as nat),
            decimal(p.blue as nat),
        ],
{
    let a = decimal(p.red as nat) + seq![32u8];
    let b = decimal(p.green as nat) + seq![32u8];
    let c = decimal(p.blue as nat).push(sp);
    assert(record(p).push(sp) =~= a + (b + c));
    lemma_words_concat(a, b + c);
    lemma_words_concat(b, c);
    lemma_number_then_space(p.red as nat, 32u8);
    lemma_number_then_space(p.green as nat, 32u8);
    lemma_number_then_space(p.blue as nat, sp);
    assert(words(record(p).push(sp)) =~= seq![
        decimal(p.red as nat),
        decimal(p.green as nat),
        decimal(p.blue as nat),
    ]);
}

/// The words of the text of the pixels are their channels.
proof fn lemma_body_words(ps: Seq<Pixel>, width: nat)
    ensures
        words(body(ps, width)) == channel_words(ps),
        body(ps, width).len() == 0 || is_space(body(ps, width).last()),
    decreases ps.len(),
{
    if ps.len() == 0 {
        assert(words(Seq::<u8>::empty()) =~= Seq::<Seq<u8>>::empty());
    } else {
        let front = body(ps.drop_last(), width);
        let sep = separator(ps.len(), width);
        lemma_body_words(ps.drop_last(), width);
        lemma_words_concat(front, record(ps.last()).push(sep));
        lemma_record_words(ps.last(), sep);
    }
}

/// The channel words hold each pixel's channels at three times its index.
proof fn lemma_channel_words_index(ps: Seq<Pixel>)
    ensures
        channel_words(ps).len() == 3 * ps.len(),
        forall|k: int|
            #![trigger ps[k]]
            0 <= k < ps.len() ==> {
                &&& channel_words(ps)[3 * k] == decimal(ps[k].red as nat)
                &&& channel_words(ps)[3 * k + 1] == decimal(ps[k].green as nat)
                &&& channel_words(ps)[3 * k + 2] == decimal(ps[k].blue as nat)
            },
    decreases ps.len(),
{
    if ps.len() > 0 {
        let front = ps.drop_last();
        lemma_channel_words_index(front);
        assert forall|k: int| #![trigger ps[k]] 0 <= k < ps.len() implies {
            &&& channel_words(ps)[3 * k] == decimal(ps[k].red as nat)
            &&& channel_words(ps)[3 * k + 1] == decimal(ps[k].green as nat)
            &&& channel_words(ps)[3 * k + 2] == decimal(ps[k].blue as nat)
        } by {
            if k < front.len() {
                assert(front[k] == ps[k]);
            }
        }
    }
}

/// Decoding the text that encoding writes gives back the image, for every
/// image with exactly `width * height` pixels.
pub proof fn lemma_decode_encode(m: ImageModel)
    requires
        is_complete(m),
        m.width <= usize::MAX,
        m.height <= usize::MAX,
    ensures
        decoded(encoded(m)) == Ok::<ImageModel, FormatError>(m),
{
    let l1 = tag();
    let l2 = decimal(m.width) + seq![32u8] + decimal(m.height);
    let l3 = seq![50u8, 53u8, 53u8];
    let b = body(m.pixels, m.width);
    let s = encoded(m);
    assert(s =~= l1.push(10) + (l2.push(10) + (l3.push(10) + b)));
    lemma_decimal_no_space(m.width);
    lemma_decimal_no_space(m.height);
    assert forall|i: int| 0 <= i < l2.len() implies #[trigger] l2[i] != 10 by {
        if i < decimal(m.width).len() {
            assert(l2[i] == decimal(m.width)[i]);
        } else if i > decimal(m.width).len() {
            assert(l2[i] == decimal(m.height)[i - decimal(m.width).len() - 1]);
        }
    }
    lemma_split_line(l1, l2.push(10) + (l3.push(10) + b));
    lemma_split_line(l2, l3.push(10) + b);
    lemma_split_line(l3, b);
    assert(has_header_lines(s));
    assert(raster(s) == b);
    lemma_single_word(l1);
    lemma_number_then_space(m.width, 32u8);
    lemma_single_word(decimal(m.height));
    lemma_words_concat(decimal(m.width) + seq![32u8], decimal(m.height));
    assert(words(size_line(s)) =~= seq![decimal(m.width), decimal(m.height)]);
    lemma_decimal_round_trip(m.width);
    lemma_decimal_round_trip(m.height);
    let t = words(raster(s));
    let cw = channel_words(m.pixels);
    lemma_body_words(m.pixels, m.width);
    lemma_channel_words_index(m.pixels);
    assert(t == cw);
    assert forall|i: int| 0 <= i < t.len() implies channel_ok(#[trigger] t[i]) by {
        let k = i / 3;
        let p = m.pixels[k];
        if i % 3 == 0 {
            assert(cw[3 * k] == decimal(p.red as nat));
            lemma_decimal_round_trip(p.red as nat);
        } else if i % 3 == 1 {
            assert(cw[3 * k + 1] == decimal(p.green as nat));
            lemma_decimal_round_trip(p.green as nat);
        } else {
            assert(cw[3 * k + 2] == decimal(p.blue as nat));
            lemma_decimal_round_trip(p.blue as nat);
        }
    }
    let pixels = Seq::new((t.len() / 3) as nat, |k: int| pixel_at(t, 3 * k));
    assert forall|k: int| 0 <= k < m.pixels.len() implies #[trigger] pixels[k] == m.pixels[k] by {
        let p = m.pixels[k];
        lemma_decimal_round_trip(p.red as nat);
        lemma_decimal_round_trip(p.green as nat);
        lemma_decimal_round_trip(p.blue as nat);
    }
    assert(pixels =~= m.pixels);
}

/// The third header line, the largest channel value, is not read: two texts
/// that differ only in that line decode alike.
pub proof fn lemma_max_value_line_ignored(
    tag_line: Seq<u8>,
    size: Seq<u8>,
    max1: Seq<u8>,
    max2: Seq<u8>,
    rest: Seq<u8>,
)
    requires
        forall|i: int| 0 <= i < tag_line.len() ==> #[trigger] tag_line[i] != 10,
        forall|i: int| 0 <= i < size.len() ==> #[trigger] size[i] != 10,
        forall|i: int| 0 <= i < max1.len() ==> #[trigger] max1[i] != 10,
        forall|i: int| 0 <= i < max2.len() ==> #[trigger] max2[i] != 10,
    ensures
        decoded(tag_line.push(10) + (size.push(10) + (max1.push(10) + rest))) == decoded(
            tag_line.push(10) + (size.push(10) + (max2.push(10) + rest)),
        ),
{
    lemma_split_line(tag_line, size.push(10) + (max1.push(10) + rest));
    lemma_split_line(size, max1.push(10) + rest);
    lemma_split_line(max1, rest);
    lemma_split_line(tag_line, size.push(10) + (max2.push(10) + rest));
    lemma_split_line(size, max2.push(10) + rest);
    lemma_split_line(max2, rest);
}

} // verus!
