//! An image: its pixels, size, format tag and largest channel value, with the
//! encoder that writes it as text and the decoder that reads it back.

use vstd::prelude::*;
use vstd::std_specs::cmp::PartialEqSpecImpl;
use crate::lines::{
    after_first_content, find_line_not_commentaire, first_content, split_lines, Lines,
};
use crate::numbers::{after_number, decimal, find_number, number_at, push_decimal, ParseError};
use crate::pixels::{after_pixel, find_pixels, lemma_pixel_shortens, pixel_at, Pixels};

verus! {

/// An image. The pixels stand row by row; nothing holds their number to
/// `heigth` times `width`.
#[allow(non_snake_case)]
#[derive(Debug)]
pub struct Image {
    pub pixels: Vec<Pixels>,
    pub heigth: usize,
    pub width: usize,
    pub fileType: String,
    pub maxValue: usize,
}

/// The mathematical value of an image.
pub struct ImageView {
    pub pixels: Seq<Pixels>,
    pub height: nat,
    pub width: nat,
    pub tag: Seq<char>,
    pub max: nat,
}

impl View for Image {
    type V = ImageView;

    open spec fn view(&self) -> ImageView {
        ImageView {
            pixels: self.pixels@,
            height: self.heigth as nat,
            width: self.width as nat,
            tag: self.fileType@,
            max: self.maxValue as nat,
        }
    }
}

/// The end of a line in an image file: carriage return, line feed.
pub open spec fn line_end() -> Seq<char> {
    seq!['\r', '\n']
}

/// The body of an image file: each pixel's text with a space behind it, and a
/// line end behind every third pixel.
pub open spec fn body_text(pixels: Seq<Pixels>) -> Seq<char>
    decreases pixels.len(),
{
    if pixels.len() == 0 {
        Seq::empty()
    } else {
        body_text(pixels.drop_last()) + pixels.last().text() + seq![' '] + if pixels.len() % 3
            == 0 {
            line_end()
        } else {
            Seq::empty()
        }
    }
}

/// The header of an image file: the format tag, the file's name as a
/// comment, height and width, and the largest channel value, each on a line
/// of its own.
pub open spec fn header_text(image: ImageView, file_name: Seq<char>) -> Seq<char> {
    image.tag + line_end() + seq!['#'] + file_name + line_end() + decimal(image.height) + seq![
        ' ',
    ] + decimal(image.width) + line_end() + decimal(image.max) + line_end()
}

/// The text of an image file: header, then body.
pub open spec fn encode_text(image: ImageView, file_name: Seq<char>) -> Seq<char> {
    header_text(image, file_name) + body_text(image.pixels)
}

/// A result with `before` put in front of the pixels it holds.
pub open spec fn prepend(
    before: Seq<Pixels>,
    rest: Result<Seq<Pixels>, ParseError>,
) -> Result<Seq<Pixels>, ParseError> {
    match rest {
        Ok(pixels) => Ok(before + pixels),
        Err(e) => Err(e),
    }
}

/// The pixels of one body line: pixel after pixel until the line is used up
/// or what is left of it starts with `#`. The first token that is no number
/// gives the error.
pub open spec fn line_pixels(line: Seq<char>) -> Result<Seq<Pixels>, ParseError>
    decreases line.len(),
    via line_pixels_terminates
{
    if line.len() == 0 || line[0] == '#' {
        Ok(Seq::empty())
    } else {
        match pixel_at(line) {
            Err(e) => Err(e),
            Ok(pixel) => prepend(seq![pixel], line_pixels(after_pixel(line))),
        }
    }
}

#[via_fn]
proof fn line_pixels_terminates(line: Seq<char>) {
    if line.len() != 0 && pixel_at(line) is Ok {
        lemma_pixel_shortens(line);
    }
}

/// The pixels of the body lines, line after line. The first line that fails
/// gives the error.
pub open spec fn body_pixels(lines: Seq<Seq<char>>) -> Result<Seq<Pixels>, ParseError>
    decreases lines.len(),
{
    if lines.len() == 0 {
        Ok(Seq::empty())
    } else {
        match line_pixels(lines[0]) {
            Err(e) => Err(e),
            Ok(pixels) => prepend(pixels, body_pixels(lines.drop_first())),
        }
    }
}

/// The image that a sequence of lines holds. The first three lines with
/// content are the header: the format tag as it stands, then height and
/// width, then the largest channel value. All lines behind them are the body.
/// Height, width, largest value and body are read in this order, and the
/// first that fails gives the error.
pub open spec fn decode_lines(lines: Seq<Seq<char>>) -> Result<ImageView, ParseError> {
    let tag = first_content(lines);
    let after_tag = after_first_content(lines);
    let size = first_content(after_tag);
    let after_size = after_first_content(after_tag);
    let max = first_content(after_size);
    let body = after_first_content(after_size);
    match number_at(size) {
        Err(e) => Err(e),
        Ok(height) => match number_at(after_number(size)) {
            Err(e) => Err(e),
            Ok(width) => match number_at(max) {
                Err(e) => Err(e),
                Ok(max) => match body_pixels(body) {
                    Err(e) => Err(e),
                    Ok(pixels) => Ok(
                        ImageView {
                            pixels,
                            height: height as nat,
                            width: width as nat,
                            tag,
                            max: max as nat,
                        },
                    ),
                },
            },
        },
    }
}

/// The image that the text of a file holds.
pub open spec fn decode_text(text: Seq<char>) -> Result<ImageView, ParseError> {
    decode_lines(split_lines(text))
}

/// Reads the pixels of one body line. A line that starts with `#` holds no
/// pixel, and neither does what follows a `#` at the start of a token.
pub fn pixels_of_line(line: &str) -> (r: Result<Vec<Pixels>, ParseError>)
    ensures
        r is Ok ==> line_pixels(line@) == Ok::<Seq<Pixels>, ParseError>(r->Ok_0@),
        r is Err ==> line_pixels(line@) == Err::<Seq<Pixels>, ParseError>(r->Err_0),
        line@.len() > 0 && line@[0] == '#' ==> r is Ok && r->Ok_0@.len() == 0,
{
    let mut buffer = line.to_owned();
    let mut pixels: Vec<Pixels> = Vec::new();
    assert(prepend(pixels@, line_pixels(buffer@)) == line_pixels(line@)) by {
        assert(prepend(Seq::empty(), line_pixels(line@)) == line_pixels(line@)) by {
            if line_pixels(line@) is Ok {
                assert(Seq::<Pixels>::empty() + line_pixels(line@)->Ok_0 == line_pixels(
                    line@,
                )->Ok_0);
            }
        }
    }
    loop
        invariant
            prepend(pixels@, line_pixels(buffer@)) == line_pixels(line@),
            line@.len() > 0 && line@[0] == '#' ==> buffer@ == line@ && pixels@.len() == 0,
        decreases buffer@.len(),
    {
        if buffer.as_str().is_empty() || buffer.as_str().get_char(0) == '#' {
            assert(pixels@ + Seq::<Pixels>::empty() == pixels@);
            return Ok(pixels);
        }
        let ghost before = buffer@;
        let ghost seen = pixels@;
        match find_pixels(&mut buffer) {
            Err(e) => {
                return Err(e);
            },
            Ok(pixel) => {
                pixels.push(pixel);
                proof {
                    lemma_pixel_shortens(before);
                    let rest = line_pixels(buffer@);
                    if rest is Ok {
                        assert(seen + (seq![pixel] + rest->Ok_0) == seen.push(pixel) + rest->Ok_0);
                    }
                }
            },
        }
    }
}

/// Reads the pixels of all the lines that are left, line after line. Fails
/// with the error of the first line that does not read.
pub fn pixels_of_lines(lines: Lines) -> (r: Result<Vec<Pixels>, ParseError>)
    ensures
        r is Ok ==> body_pixels(lines@) == Ok::<Seq<Pixels>, ParseError>(r->Ok_0@),
        r is Err ==> body_pixels(lines@) == Err::<Seq<Pixels>, ParseError>(r->Err_0),
{
    let mut left = lines;
    let mut pixels: Vec<Pixels> = Vec::new();
    assert(prepend(pixels@, body_pixels(lines@)) == body_pixels(lines@)) by {
        if body_pixels(lines@) is Ok {
            assert(Seq::<Pixels>::empty() + body_pixels(lines@)->Ok_0 == body_pixels(
                lines@,
            )->Ok_0);
        }
    }
    loop
        invariant
            prepend(pixels@, body_pixels(left@)) == body_pixels(lines@),
        decreases left@.len(),
    {
        let ghost seen = pixels@;
        match left.next_line() {
            None => {
                assert(pixels@ + Seq::<Pixels>::empty() == pixels@);
                return Ok(pixels);
            },
            Some(line) => {
                match pixels_of_line(line.as_str()) {
                    Err(e) => {
                        return Err(e);
                    },
                    Ok(mut found) => {
                        let ghost new = found@;
                        pixels.append(&mut found);
                        proof {
                            let rest = body_pixels(left@);
                            if rest is Ok {
                                assert(seen + (new + rest->Ok_0) == (seen + new) + rest->Ok_0);
                            }
                        }
                    },
                }
            },
        }
    }
}

impl Image {
    /// An image from its parts.
    #[allow(non_snake_case)]
    pub fn new(
        pixels: Vec<Pixels>,
        heigth: usize,
        width: usize,
        fileType: String,
        maxValue: usize,
    ) -> (image: Image)
        ensures
            image.pixels == pixels,
            image.heigth == heigth,
            image.width == width,
            image.fileType == fileType,
            image.maxValue == maxValue,
    {
        Image { pixels, heigth, width, fileType, maxValue }
    }

    /// The grey image: every pixel replaced by its grey pixel, all else kept.
    pub fn grayscale(&self) -> (grey: Image)
        ensures
            grey.pixels@.len() == self.pixels@.len(),
            forall|i: int|
                0 <= i < self.pixels@.len() ==> grey.pixels@[i] == (#[trigger] self.pixels@[i]).grey(),
            grey.heigth == self.heigth,
            grey.width == self.width,
            grey.fileType@ == self.fileType@,
            grey.maxValue == self.maxValue,
    {
        let mut pixels: Vec<Pixels> = Vec::new();
        let mut i: usize = 0;
        while i < self.pixels.len()
            invariant
                i <= self.pixels.len(),
                pixels@.len() == i,
                forall|j: int| 0 <= j < i ==> pixels@[j] == (#[trigger] self.pixels@[j]).grey(),
            decreases self.pixels.len() - i,
        {
            pixels.push(self.pixels[i].grayscale());
            i = i + 1;
        }
        Image::new(pixels, self.heigth, self.width, self.fileType.clone(), self.maxValue)
    }

    /// The text of the image's file. `file_name` goes into the comment line
    /// of the header.
    pub fn encode(&self, file_name: &str) -> (text: String)
        ensures
            text@ == encode_text(self@, file_name@),
    {
        let mut text = String::new();
        text.append(self.fileType.as_str());
        text.push('\r');
        text.push('\n');
        text.push('#');
        text.append(file_name);
        text.push('\r');
        text.push('\n');
        push_decimal(&mut text, self.heigth);
        text.push(' ');
        push_decimal(&mut text, self.width);
        text.push('\r');
        text.push('\n');
        push_decimal(&mut text, self.maxValue);
        text.push('\r');
        text.push('\n');
        assert(text@ == header_text(self@, file_name@));
        let mut i: usize = 0;
        assert(self.pixels@.take(0).len() == 0);
        while i < self.pixels.len()
            invariant
                i <= self.pixels.len(),
                text@ == header_text(self@, file_name@) + body_text(self.pixels@.take(i as int)),
            decreases self.pixels.len() - i,
        {
            let ghost before = text@;
            let pixel = self.pixels[i];
            text.append(pixel.display().as_str());
            text.push(' ');
            i = i + 1;
            if i % 3 == 0 {
                text.push('\r');
                text.push('\n');
            }
            proof {
                let done = self.pixels@.take(i as int);
                assert(done.drop_last() == self.pixels@.take(i - 1));
                assert(done.last() == pixel);
                assert(text@ == before + (pixel.text() + seq![' '] + if i % 3 == 0 {
                    line_end()
                } else {
                    Seq::empty()
                }));
            }
        }
        assert(self.pixels@.take(i as int) == self.pixels@);
        text
    }

    /// Reads an image from the text of its file. The first three lines with
    /// content are the format tag, taken as it stands, height and width, and
    /// the largest channel value; the lines behind them hold the pixels.
    /// Nothing holds the number of pixels to height times width. Fails with
    /// the error of the first number that does not read.
    pub fn decode(text: &str) -> (r: Result<Image, ParseError>)
        ensures
            r is Ok ==> decode_text(text@) == Ok::<ImageView, ParseError>(r->Ok_0@),
            r is Err ==> decode_text(text@) == Err::<ImageView, ParseError>(r->Err_0),
    {
        let mut lines = Lines::new(text);
        let tag = find_line_not_commentaire(&mut lines);
        let mut size = find_line_not_commentaire(&mut lines);
        let mut max = find_line_not_commentaire(&mut lines);
        let height = match find_number(&mut size) {
            Ok(n) => n,
            Err(e) => {
                return Err(e);
            },
        };
        let width = match find_number(&mut size) {
            Ok(n) => n,
            Err(e) => {
                return Err(e);
            },
        };
        let max_value = match find_number(&mut max) {
            Ok(n) => n,
            Err(e) => {
                return Err(e);
            },
        };
        match pixels_of_lines(lines) {
            Err(e) => Err(e),
            Ok(pixels) => Ok(Image::new(pixels, height, width, tag, max_value)),
        }
    }
}

impl Clone for Image {
    /// A copy with the same pixels, size, format tag and largest value.
    fn clone(&self) -> (copy: Image)
        ensures
            copy@ == self@,
    {
        let pixels = self.pixels.clone();
        assert(pixels@ == self.pixels@);
        Image::new(pixels, self.heigth, self.width, self.fileType.clone(), self.maxValue)
    }
}

impl PartialEq for Image {
    /// Two images are equal where they have the same pixels in the same
    /// order, the same format tag and the same largest channel value. Height
    /// and width take no part in the comparison.
    fn eq(&self, other: &Self) -> (r: bool) {
        let mut mine = self.pixels.clone();
        let mut theirs = other.pixels.clone();
        assert(mine@ == self.pixels@);
        assert(theirs@ == other.pixels@);
        while !mine.is_empty()
            invariant
                (self.pixels@ == other.pixels@) == (mine@ == theirs@),
            decreases mine@.len(),
        {
            let ghost m = mine@;
            let ghost t = theirs@;
            let a = mine.pop();
            let b = theirs.pop();
            match (a, b) {
                (Some(p), Some(q)) => {
                    if !(p == q) {
                        assert(m.last() != t.last());
                        return false;
                    }
                    assert(m == mine@.push(p));
                    assert(t == theirs@.push(q));
                },
                _ => {
                    assert(m.len() != t.len());
                    return false;
                },
            }
        }
        assert((mine@ =~= theirs@) == (theirs@.len() == 0));
        theirs.is_empty() && self.fileType == other.fileType && self.maxValue == other.maxValue
    }
}

impl PartialEqSpecImpl for Image {
    open spec fn obeys_eq_spec() -> bool {
        true
    }

    open spec fn eq_spec(&self, other: &Self) -> bool {
        &&& self.pixels@ == other.pixels@
        &&& self.fileType@ == other.fileType@
        &&& self.maxValue == other.maxValue
    }
}

} // verus!
