//! Channel planes: the pixels of an image as three sequences of numbers, one
//! for each channel. This is the form in which a routine written in C takes
//! and gives the pixels.

use vstd::prelude::*;
use crate::pixels::{channel_of, Pixels};

verus! {

/// The red channel of each pixel, in order.
pub open spec fn red_plane(pixels: Seq<Pixels>) -> Seq<i32> {
    Seq::new(pixels.len(), |i: int| pixels[i].red as i32)
}

/// The green channel of each pixel, in order.
pub open spec fn green_plane(pixels: Seq<Pixels>) -> Seq<i32> {
    Seq::new(pixels.len(), |i: int| pixels[i].green as i32)
}

/// The blue channel of each pixel, in order.
pub open spec fn blue_plane(pixels: Seq<Pixels>) -> Seq<i32> {
    Seq::new(pixels.len(), |i: int| pixels[i].blue as i32)
}

/// The pixels of three planes: one for each number of the red plane, made of
/// the numbers that the three planes hold at its position, each narrowed to a
/// channel.
pub open spec fn pixels_of_planes(r: Seq<i32>, g: Seq<i32>, b: Seq<i32>) -> Seq<Pixels> {
    Seq::new(
        r.len(),
        |i: int|
            Pixels {
                red: channel_of(r[i] as int),
                green: channel_of(g[i] as int),
                blue: channel_of(b[i] as int),
            },
    )
}

/// Narrows a signed number to one channel: negative numbers wrap around.
pub fn narrow_signed(n: i32) -> (c: u8)
    ensures
        c == channel_of(n as int),
{
    let low = n % 256;
    if low < 0 {
        (low + 256) as u8
    } else {
        low as u8
    }
}

/// Splits pixels into their red, green and blue planes, in this order.
pub fn un_zip_pixel(pixels: &Vec<Pixels>) -> (planes: (Vec<i32>, Vec<i32>, Vec<i32>))
    ensures
        planes.0@ == red_plane(pixels@),
        planes.1@ == green_plane(pixels@),
        planes.2@ == blue_plane(pixels@),
{
    let mut r: Vec<i32> = Vec::new();
    let mut g: Vec<i32> = Vec::new();
    let mut b: Vec<i32> = Vec::new();
    let mut i: usize = 0;
    while i < pixels.len()
        invariant
            i <= pixels.len(),
            r@ == red_plane(pixels@.take(i as int)),
            g@ == green_plane(pixels@.take(i as int)),
            b@ == blue_plane(pixels@.take(i as int)),
        decreases pixels.len() - i,
    {
        let pixel = pixels[i];
        r.push(pixel.red as i32);
        g.push(pixel.green as i32);
        b.push(pixel.blue as i32);
        i = i + 1;
    }
    assert(pixels@.take(i as int) == pixels@);
    (r, g, b)
}

/// Joins three planes into pixels: one pixel for each number of the red
/// plane. The other two planes are at least as long as the red one.
pub fn zip_pixel(r: Vec<i32>, g: Vec<i32>, b: Vec<i32>) -> (pixels: Vec<Pixels>)
    requires
        r@.len() <= g@.len(),
        r@.len() <= b@.len(),
    ensures
        pixels@ == pixels_of_planes(r@, g@, b@),
{
    let mut pixels: Vec<Pixels> = Vec::new();
    let mut i: usize = 0;
    while i < r.len()
        invariant
            i <= r.len() <= g.len(),
            r.len() <= b.len(),
            pixels@ == pixels_of_planes(r@, g@, b@).take(i as int),
        decreases r.len() - i,
    {
        pixels.push(Pixels::new(narrow_signed(r[i]), narrow_signed(g[i]), narrow_signed(b[i])));
        i = i + 1;
    }
    assert(pixels_of_planes(r@, g@, b@).take(i as int) == pixels_of_planes(r@, g@, b@));
    pixels
}

/// Joining the planes of some pixels gives the pixels back.
pub proof fn lemma_zip_of_un_zip(pixels: Seq<Pixels>)
    ensures
        pixels_of_planes(red_plane(pixels), green_plane(pixels), blue_plane(pixels)) == pixels,
{
    assert(pixels_of_planes(red_plane(pixels), green_plane(pixels), blue_plane(pixels))
        =~= pixels);
}

} // verus!
