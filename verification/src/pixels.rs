//! One pixel: three channel bytes, their text, and the scanner that reads a
//! pixel off a buffer.

use vstd::prelude::*;
use vstd::std_specs::cmp::PartialEqSpecImpl;
use crate::numbers::{
    after_number, decimal, find_number, is_digit, lemma_decimal, lemma_number_shortens,
    lemma_scan_field, number_at, push_decimal, ParseError,
};

verus! {

/// A pixel: the intensities of its red, green and blue channels.
#[derive(Clone, Copy, Debug)]
pub struct Pixels {
    pub red: u8,
    pub green: u8,
    pub blue: u8,
}

/// Weight of the red channel in a grey level, in whole units.
///
/// The luma weights are fractions below one. A channel holds whole numbers
/// only, so each of the three weights is zero.
pub const RED_WEIGHT: u8 = 0;

/// Weight of the green channel in a grey level, in whole units.
pub const GREEN_WEIGHT: u8 = 0;

/// Weight of the blue channel in a grey level, in whole units.
pub const BLUE_WEIGHT: u8 = 0;

/// A number narrowed to one channel: its lowest eight bits.
pub open spec fn channel_of(n: int) -> u8 {
    (n % 256) as u8
}

/// The pixel that stands first in a buffer: its first three numbers, each
/// narrowed to a channel, as red, green and blue. The first token that is no
/// number gives the error.
pub open spec fn pixel_at(buffer: Seq<char>) -> Result<Pixels, ParseError> {
    let after_red = after_number(buffer);
    let after_green = after_number(after_red);
    match number_at(buffer) {
        Err(e) => Err(e),
        Ok(red) => match number_at(after_red) {
            Err(e) => Err(e),
            Ok(green) => match number_at(after_green) {
                Err(e) => Err(e),
                Ok(blue) => Ok(
                    Pixels {
                        red: channel_of(red as int),
                        green: channel_of(green as int),
                        blue: channel_of(blue as int),
                    },
                ),
            },
        },
    }
}

/// The buffer after the scan of its first pixel: after three numbers where
/// there are three, and else after the numbers before the first token that
/// is none.
pub open spec fn after_pixel(buffer: Seq<char>) -> Seq<char> {
    after_number(after_number(after_number(buffer)))
}

impl Pixels {
    /// The text of a pixel: its three channels in decimal, one space between
    /// them.
    pub open spec fn text(self) -> Seq<char> {
        decimal(self.red as nat) + seq![' '] + decimal(self.green as nat) + seq![' '] + decimal(
            self.blue as nat,
        )
    }

    /// The grey level of a pixel: the weighted sum of its channels.
    pub open spec fn grey_level(self) -> int {
        RED_WEIGHT * self.red + GREEN_WEIGHT * self.green + BLUE_WEIGHT * self.blue
    }

    /// The grey pixel of a pixel: its grey level on each channel.
    pub open spec fn grey(self) -> Pixels {
        Pixels {
            red: self.grey_level() as u8,
            green: self.grey_level() as u8,
            blue: self.grey_level() as u8,
        }
    }

    /// A pixel from its three channels.
    pub fn new(red: u8, green: u8, blue: u8) -> (pixel: Pixels)
        ensures
            pixel.red == red,
            pixel.green == green,
            pixel.blue == blue,
    {
        Pixels { red, green, blue }
    }

    /// The text of the pixel, as it stands in an image file.
    pub fn display(self) -> (text: String)
        ensures
            text@ == self.text(),
    {
        let mut text = String::new();
        push_decimal(&mut text, self.red as usize);
        text.push(' ');
        push_decimal(&mut text, self.green as usize);
        text.push(' ');
        push_decimal(&mut text, self.blue as usize);
        proof {
            assert(text@ == self.text());
        }
        text
    }

    /// The grey pixel: the grey level on each channel.
    ///
    /// With whole-number weights the grey level of every pixel is zero, so the
    /// result is always black. This is a known limit of the weights, kept as
    /// it is.
    pub fn grayscale(&self) -> (grey: Pixels)
        ensures
            grey == self.grey(),
            grey == (Pixels { red: 0, green: 0, blue: 0 }),
    {
        let level = RED_WEIGHT * self.red + GREEN_WEIGHT * self.green + BLUE_WEIGHT * self.blue;
        Pixels::new(level, level, level)
    }
}

impl PartialEq for Pixels {
    /// Two pixels are equal where each channel of one equals that channel of
    /// the other.
    fn eq(&self, other: &Self) -> (r: bool) {
        self.red == other.red && self.green == other.green && self.blue == other.blue
    }
}

impl PartialEqSpecImpl for Pixels {
    open spec fn obeys_eq_spec() -> bool {
        true
    }

    open spec fn eq_spec(&self, other: &Self) -> bool {
        self.red == other.red && self.green == other.green && self.blue == other.blue
    }
}

/// Takes the first pixel off a buffer: three numbers, as red, green and blue,
/// each narrowed to a channel. Where one of them is missing or no number, the
/// numbers before it are taken off the buffer all the same.
pub fn find_pixels(contents: &mut String) -> (r: Result<Pixels, ParseError>)
    ensures
        r == pixel_at(old(contents)@),
        final(contents)@ == after_pixel(old(contents)@),
{
    let red = match find_number(contents) {
        Ok(n) => n,
        Err(e) => {
            return Err(e);
        },
    };
    let green = match find_number(contents) {
        Ok(n) => n,
        Err(e) => {
            return Err(e);
        },
    };
    let blue = match find_number(contents) {
        Ok(n) => n,
        Err(e) => {
            return Err(e);
        },
    };
    Ok(Pixels::new(narrow(red), narrow(green), narrow(blue)))
}

/// Narrows a number to one channel.
pub fn narrow(n: usize) -> (c: u8)
    ensures
        c == channel_of(n as int),
{
    (n % 256) as u8
}

/// A buffer that starts with a pixel gets shorter when the pixel is taken
/// off.
pub proof fn lemma_pixel_shortens(buffer: Seq<char>)
    requires
        pixel_at(buffer) is Ok,
    ensures
        after_pixel(buffer).len() < buffer.len(),
{
    lemma_number_shortens(buffer);
    lemma_number_shortens(after_number(buffer));
    lemma_number_shortens(after_number(after_number(buffer)));
}

/// Three numbers in decimal, a space behind each, and then nothing or
/// something other than a space, scan as the pixel of these three channels
/// and leave what stood behind the last space.
proof fn lemma_scan_channels(red: u8, green: u8, blue: u8, tail: Seq<char>)
    requires
        tail.len() == 0 || tail[0] != ' ',
    ensures
        ({
            let from_blue = decimal(blue as nat) + (seq![' '] + tail);
            let from_green = decimal(green as nat) + (seq![' '] + from_blue);
            let from_red = decimal(red as nat) + (seq![' '] + from_green);
            &&& pixel_at(from_red) == Ok::<Pixels, ParseError>(Pixels { red, green, blue })
            &&& after_pixel(from_red) == tail
        }),
{
    let from_blue = decimal(blue as nat) + (seq![' '] + tail);
    let from_green = decimal(green as nat) + (seq![' '] + from_blue);
    let from_red = decimal(red as nat) + (seq![' '] + from_green);
    assert(from_green[0] != ' ') by {
        lemma_decimal(green as nat);
        assert(is_digit(decimal(green as nat)[0]));
    }
    assert(from_blue[0] != ' ') by {
        lemma_decimal(blue as nat);
        assert(is_digit(decimal(blue as nat)[0]));
    }
    lemma_scan_field(red as usize, from_green);
    lemma_scan_field(green as usize, from_blue);
    lemma_scan_field(blue as usize, tail);
    assert(channel_of(red as int) == red);
    assert(channel_of(green as int) == green);
    assert(channel_of(blue as int) == blue);
}

/// The text of a pixel, a space, and then nothing or something other than a
/// space, scans as that pixel and leaves what stood behind the space.
pub proof fn lemma_scan_pixel(pixel: Pixels, tail: Seq<char>)
    requires
        tail.len() == 0 || tail[0] != ' ',
    ensures
        pixel_at(pixel.text() + seq![' '] + tail) == Ok::<Pixels, ParseError>(pixel),
        after_pixel(pixel.text() + seq![' '] + tail) == tail,
{
    let from_blue = decimal(pixel.blue as nat) + (seq![' '] + tail);
    let from_green = decimal(pixel.green as nat) + (seq![' '] + from_blue);
    let from_red = decimal(pixel.red as nat) + (seq![' '] + from_green);
    assert(pixel.text() + seq![' '] + tail =~= from_red);
    lemma_scan_channels(pixel.red, pixel.green, pixel.blue, tail);
}

} // verus!
