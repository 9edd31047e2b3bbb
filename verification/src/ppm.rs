//! The binary pixel-map format: a short text header, then three bytes for each pixel.

use crate::util::_flatten_tuple;
use vstd::prelude::*;

verus! {

/// A colour as it is written out: red, green and blue, one byte each.
pub type Rgb = (u8, u8, u8);

/// The largest value of a channel, as announced in the header.
pub const MAX_CHANNEL: usize = 255;

/// The ASCII digit for `d`, which is below ten.
pub open spec fn digit(d: nat) -> u8 {
    (48 + d) as u8
}

/// `n` in decimal, as ASCII digits without leading zeros.
pub open spec fn decimal(n: nat) -> Seq<u8>
    decreases n,
{
    if n < 10 {
        seq![digit(n)]
    } else {
        decimal(n / 10).push(digit(n % 10))
    }
}

/// The header of a `w` × `h` image: the magic token of the binary pixel map (the letter `P`
/// and the digit `6`), the two dimensions separated by a space, and the largest channel value,
/// each on a line of its own.
pub open spec fn header(w: nat, h: nat) -> Seq<u8> {
    seq![0x50u8, 0x36u8, 0x0au8] + decimal(w) + seq![0x20u8] + decimal(h) + seq![0x0au8] + decimal(
        MAX_CHANNEL as nat,
    ) + seq![0x0au8]
}

/// Channel `c` of a pixel: 0 for red, 1 for green, anything else for blue.
pub open spec fn channel(pixel: Rgb, c: int) -> u8 {
    if c == 0 {
        pixel.0
    } else if c == 1 {
        pixel.1
    } else {
        pixel.2
    }
}

/// The pixels written out one after the other, each as its red, green and blue byte.
pub open spec fn raster(pixels: Seq<Rgb>) -> Seq<u8> {
    Seq::new(3 * pixels.len(), |i: int| channel(pixels[i / 3], i % 3))
}

/// The whole file for an image: header, then raster.
pub open spec fn encoding(image: Image) -> Seq<u8> {
    header(image.width, image.height) + raster(image.pixels)
}

/// The byte that stands for a channel whose intensity, scaled to the range of a byte and cut
/// off to a whole number, is `scaled`: values below 0 give 0 and values above 255 give 255.
/// Nothing wraps around.
pub open spec fn clamped(scaled: int) -> u8 {
    if scaled < 0 {
        0u8
    } else if scaled > 255 {
        255u8
    } else {
        scaled as u8
    }
}

/// Mathematical model of an image: its dimensions and its pixels in row-major order, top row
/// first.
pub struct Image {
    pub width: nat,
    pub height: nat,
    pub pixels: Seq<Rgb>,
}

impl Image {
    /// Whether the image holds one pixel for each cell of its dimensions.
    pub open spec fn complete(self) -> bool {
        self.pixels.len() == self.width * self.height
    }
}

/// An image ready to be written out.
pub struct PPM {
    w: usize,
    h: usize,
    data: Box<[Rgb]>,
}

impl View for PPM {
    type V = Image;

    closed spec fn view(&self) -> Image {
        Image { width: self.w as nat, height: self.h as nat, pixels: self.data@ }
    }
}

impl PPM {
    /// An image of `w` × `h` pixels, given in row-major order, top row first.
    pub fn new(w: usize, h: usize, data: Box<[Rgb]>) -> (image: PPM)
        ensures
            image@.width == w,
            image@.height == h,
            image@.pixels == data@,
    {
        PPM { w, h, data }
    }

    /// The header of this image.
    pub fn header(&self) -> (bytes: Vec<u8>)
        ensures
            bytes@ == header(self@.width, self@.height),
    {
        let mut bytes: Vec<u8> = Vec::new();
        bytes.push(0x50u8);
        bytes.push(0x36u8);
        bytes.push(0x0au8);
        push_decimal(&mut bytes, self.w);
        bytes.push(0x20u8);
        push_decimal(&mut bytes, self.h);
        bytes.push(0x0au8);
        push_decimal(&mut bytes, MAX_CHANNEL);
        bytes.push(0x0au8);
        assert(bytes@ =~= header(self@.width, self@.height));
        bytes
    }

    /// The whole file: the header, then every pixel as three bytes.
    pub fn encode(&self) -> (bytes: Vec<u8>)
        ensures
            bytes@ == encoding(self@),
    {
        let mut bytes: Vec<u8> = self.header();
        let ghost head: Seq<u8> = bytes@;
        let mut i: usize = 0;
        while i < self.data.len()
            invariant
                i <= self.data@.len(),
                bytes@ == head + raster(self.data@.take(i as int)),
            decreases self.data.len() - i,
        {
            let rgb: [u8; 3] = _flatten_tuple(self.data[i]);
            bytes.push(rgb[0]);
            bytes.push(rgb[1]);
            bytes.push(rgb[2]);
            proof {
                let done = self.data@.take(i as int);
                let next = self.data@.take(i + 1);
                assert(next =~= done.push(self.data@[i as int]));
                lemma_raster_push(done, self.data@[i as int]);
                assert(bytes@ =~= head + raster(next));
            }
            i += 1;
        }
        proof {
            assert(self.data@.take(i as int) =~= self.data@);
        }
        bytes
    }
}

/// Appends `n` in decimal to `out`.
pub fn push_decimal(out: &mut Vec<u8>, n: usize)
    ensures
        final(out)@ == old(out)@ + decimal(n as nat),
    decreases n,
{
    if n >= 10 {
        push_decimal(out, n / 10);
    }
    out.push(0x30u8 + (n % 10) as u8);
    proof {
        assert(final(out)@ =~= old(out)@ + decimal(n as nat));
    }
}

/// The byte for a channel whose scaled intensity is `scaled`.
pub fn quantize(scaled: i64) -> (byte: u8)
    ensures
        byte == clamped(scaled as int),
{
    if scaled < 0 {
        0
    } else if scaled > 255 {
        255
    } else {
        scaled as u8
    }
}

/// Adding a pixel to an image adds its three bytes to the raster.
pub proof fn lemma_raster_push(pixels: Seq<Rgb>, pixel: Rgb)
    ensures
        raster(pixels.push(pixel)) == raster(pixels) + seq![pixel.0, pixel.1, pixel.2],
{
    assert(raster(pixels.push(pixel)) =~= raster(pixels) + seq![pixel.0, pixel.1, pixel.2]);
}

/// The raster holds three bytes for each pixel, and byte `c` of pixel `i` is its channel `c`.
/// So the file of a complete image is its header followed by `3 * width * height` bytes.
pub proof fn lemma_encoding_layout(image: Image)
    ensures
        encoding(image).len() == header(image.width, image.height).len() + 3 * image.pixels.len(),
        image.complete() ==> encoding(image).len() == header(image.width, image.height).len() + 3
            * (image.width * image.height),
        forall|i: int, c: int|
            0 <= i < image.pixels.len() && 0 <= c < 3 ==> #[trigger] encoding(image)[header(
                image.width,
                image.height,
            ).len() + (3 * i + c)] == channel(image.pixels[i], c),
{
    let head = header(image.width, image.height);
    assert forall|i: int, c: int| 0 <= i < image.pixels.len() && 0 <= c < 3 implies #[trigger] encoding(
        image,
    )[head.len() + (3 * i + c)] == channel(image.pixels[i], c) by {
        assert(0 <= 3 * i + c < 3 * image.pixels.len());
        assert((3 * i + c) / 3 == i && (3 * i + c) % 3 == c) by (nonlinear_arith)
            requires
                0 <= c < 3,
        ;
        assert(encoding(image)[head.len() + (3 * i + c)] == raster(image.pixels)[3 * i + c]);
    }
}

} // verus!
