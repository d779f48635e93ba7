use ppm::images::{pixels_of_line, pixels_of_lines};
use ppm::lines::Lines;
use ppm::numbers::ParseError;
use ppm::{Image, Pixels};

fn sample() -> Image {
    let mut pixels = Vec::new();
    pixels.push(Pixels::new(7, 91, 43));
    pixels.push(Pixels::new(14, 32, 56));
    pixels.push(Pixels::new(23, 43, 32));
    Image::new(pixels, 1, 3, "P3".to_string(), 91)
}

fn same_in_every_field(a: &Image, b: &Image) -> bool {
    a.pixels == b.pixels
        && a.heigth == b.heigth
        && a.width == b.width
        && a.fileType == b.fileType
        && a.maxValue == b.maxValue
}

#[test]
fn test_save() {
    let mut pixels = Vec::new();
    pixels.push(Pixels::new(7, 91, 43));
    pixels.push(Pixels::new(14, 32, 56));
    pixels.push(Pixels::new(23, 43, 32));
    let image = Image::new(pixels, 1, 3, "P3".to_string(), 91);
    let text = image.encode("test_save_image.ppm");
    let image_load = Image::decode(&text);
    assert_eq!(Ok(sample()), image_load);
    assert_eq!(image, image_load.unwrap());
}

#[test]
fn test_grayscale() {
    let mut pixels = Vec::new();
    pixels.push(Pixels::new(7, 91, 43));
    pixels.push(Pixels::new(14, 32, 56));
    pixels.push(Pixels::new(23, 43, 32));
    let image = Image::new(pixels, 1, 3, "P3".to_string(), 91);

    let mut pixels_grayscale = Vec::new();
    for pixel in &image.pixels {
        pixels_grayscale.push(pixel.grayscale());
    }
    let image_grayscale = Image::new(pixels_grayscale, 1, 3, "P3".to_string(), 91);
    let image_compare = image.grayscale();

    assert_eq!(image_grayscale, image_compare);
}

#[test]
fn grayscale_keeps_everything_but_the_pixels() {
    let grey = sample().grayscale();
    let black = Pixels::new(0, 0, 0);
    assert_eq!(vec![black, black, black], grey.pixels);
    assert_eq!(1, grey.heigth);
    assert_eq!(3, grey.width);
    assert_eq!("P3", grey.fileType);
    assert_eq!(91, grey.maxValue);
}

#[test]
fn new_keeps_each_part() {
    let image = Image::new(vec![Pixels::new(1, 2, 3)], 4, 5, "P3".to_string(), 6);
    assert_eq!(vec![Pixels::new(1, 2, 3)], image.pixels);
    assert_eq!(4, image.heigth);
    assert_eq!(5, image.width);
    assert_eq!("P3", image.fileType);
    assert_eq!(6, image.maxValue);
}

#[test]
fn clone_keeps_every_field() {
    let image = sample();
    assert!(same_in_every_field(&image, &image.clone()));
}

#[test]
fn encode_writes_the_exact_layout() {
    let text = sample().encode("test_save_image.ppm");
    assert_eq!(
        "P3\r\n#test_save_image.ppm\r\n1 3\r\n91\r\n7 91 43 14 32 56 23 43 32 \r\n",
        text
    );
}

#[test]
fn encode_breaks_the_line_behind_every_third_pixel() {
    let mut image = sample();
    image.pixels.push(Pixels::new(1, 2, 3));
    image.pixels.push(Pixels::new(4, 5, 6));
    assert_eq!(
        "P3\r\n#f\r\n1 3\r\n91\r\n7 91 43 14 32 56 23 43 32 \r\n1 2 3 4 5 6 ",
        image.encode("f")
    );
    image.pixels.push(Pixels::new(255, 0, 10));
    assert_eq!(
        "P3\r\n#f\r\n1 3\r\n91\r\n7 91 43 14 32 56 23 43 32 \r\n1 2 3 4 5 6 255 0 10 \r\n",
        image.encode("f")
    );
}

#[test]
fn encode_of_an_image_without_pixels() {
    let image = Image::new(Vec::new(), 0, 0, "P3".to_string(), 255);
    assert_eq!("P3\r\n#\r\n0 0\r\n255\r\n", image.encode(""));
}

#[test]
fn encode_puts_height_before_width() {
    let image = Image::new(Vec::new(), 2, 7, "P3".to_string(), 255);
    assert_eq!("P3\r\n#x\r\n2 7\r\n255\r\n", image.encode("x"));
}

#[test]
fn decode_reads_height_before_width() {
    let image = Image::decode("P3\n2 7\n255\n").unwrap();
    assert_eq!(2, image.heigth);
    assert_eq!(7, image.width);
    assert_eq!(255, image.maxValue);
    assert_eq!("P3", image.fileType);
    assert!(image.pixels.is_empty());
}

#[test]
fn decode_passes_over_comments_and_empty_lines_in_the_header() {
    let text = "# made by hand\n\nP3 # the tag\r\n#size\r\n1 2 # height, width\n\n#max\n255#max\n1 2 3 4 5 6\n";
    let image = Image::decode(text).unwrap();
    assert_eq!("P3 ", image.fileType);
    assert_eq!(1, image.heigth);
    assert_eq!(2, image.width);
    assert_eq!(255, image.maxValue);
    assert_eq!(vec![Pixels::new(1, 2, 3), Pixels::new(4, 5, 6)], image.pixels);
}

#[test]
fn decode_takes_the_tag_as_it_stands() {
    let image = Image::decode("anything goes\n1 1\n9\n").unwrap();
    assert_eq!("anything goes", image.fileType);
}

#[test]
fn decode_does_not_hold_the_pixels_to_the_size() {
    let fewer = Image::decode("P3\n2 2\n255\n1 2 3\n").unwrap();
    assert_eq!(2, fewer.heigth);
    assert_eq!(2, fewer.width);
    assert_eq!(vec![Pixels::new(1, 2, 3)], fewer.pixels);

    let more = Image::decode("P3\n1 1\n255\n1 2 3 4 5 6\n7 8 9\n").unwrap();
    assert_eq!(3, more.pixels.len());
}

#[test]
fn decode_ignores_what_follows_the_header_numbers() {
    let image = Image::decode("P3\n1 3 99 x\n91 y\n").unwrap();
    assert_eq!(1, image.heigth);
    assert_eq!(3, image.width);
    assert_eq!(91, image.maxValue);
}

#[test]
fn a_body_line_that_starts_with_a_comment_holds_no_pixel() {
    assert_eq!(Ok(Vec::new()), pixels_of_line("#7 91 43"));
    assert_eq!(Ok(Vec::new()), pixels_of_line("#"));
    assert_eq!(Ok(Vec::new()), pixels_of_line("# 1 2"));

    let image = Image::decode("P3\n1 2\n255\n1 2 3\n#4 5 6\n7 8 9\n").unwrap();
    assert_eq!(vec![Pixels::new(1, 2, 3), Pixels::new(7, 8, 9)], image.pixels);
}

#[test]
fn a_comment_behind_whole_pixels_ends_the_line() {
    assert_eq!(Ok(vec![Pixels::new(1, 2, 3)]), pixels_of_line("1 2 3 # 4 5 6"));
    assert_eq!(Ok(vec![Pixels::new(1, 2, 3)]), pixels_of_line("1 2 3 #"));
}

#[test]
fn a_comment_inside_a_pixel_is_an_error() {
    assert_eq!(Err(ParseError::InvalidDigit), pixels_of_line("1 2 # 3"));
    assert_eq!(Err(ParseError::InvalidDigit), pixels_of_line("1 2 3#"));
    assert_eq!(Err(ParseError::InvalidDigit), pixels_of_line("1 2 3 4#5 6 7"));
}

#[test]
fn pixels_of_line_reads_every_pixel() {
    assert_eq!(Ok(Vec::new()), pixels_of_line(""));
    assert_eq!(
        Ok(vec![Pixels::new(4, 11, 4), Pixels::new(12, 9, 11)]),
        pixels_of_line("4 11 4 12 9 11")
    );
    assert_eq!(
        Ok(vec![Pixels::new(4, 11, 4), Pixels::new(12, 9, 11)]),
        pixels_of_line("4  11   4 12 9 11   ")
    );
    assert_eq!(Ok(vec![Pixels::new(44, 1, 0)]), pixels_of_line("300 257 256"));
}

#[test]
fn pixels_of_line_each_error() {
    assert_eq!(Err(ParseError::Empty), pixels_of_line("1 2"));
    assert_eq!(Err(ParseError::Empty), pixels_of_line("1 2 3 4"));
    assert_eq!(Err(ParseError::Empty), pixels_of_line(" 1 2 3"));
    assert_eq!(Err(ParseError::InvalidDigit), pixels_of_line("1 2 x"));
    assert_eq!(Err(ParseError::InvalidDigit), pixels_of_line("1 2 3\t4 5 6"));
    assert_eq!(Err(ParseError::Overflow), pixels_of_line("1 2 99999999999999999999999999"));
}

#[test]
fn pixels_of_lines_reads_line_after_line() {
    assert_eq!(
        Ok(vec![Pixels::new(1, 2, 3), Pixels::new(4, 5, 6), Pixels::new(7, 8, 9)]),
        pixels_of_lines(Lines::new("1 2 3\n\n#c\n4 5 6 7 8 9\n"))
    );
    assert_eq!(Ok(Vec::new()), pixels_of_lines(Lines::new("")));
    assert_eq!(Err(ParseError::Empty), pixels_of_lines(Lines::new("1 2 3\n4 5\n6 7 8\n")));
    assert_eq!(Err(ParseError::InvalidDigit), pixels_of_lines(Lines::new("1 2 x\n4 5\n")));
}

#[test]
fn pixels_of_lines_starts_at_the_next_line() {
    let mut lines = Lines::new("P3\n1 2 3\n4 5 6\n");
    assert_eq!(Some("P3".to_string()), lines.next_line());
    assert_eq!(Ok(vec![Pixels::new(1, 2, 3), Pixels::new(4, 5, 6)]), pixels_of_lines(lines));
}

#[test]
fn decode_fails_without_the_largest_value() {
    assert_eq!(Err(ParseError::Empty), Image::decode("P3\r\n1 3\r\n"));
    assert_eq!(Err(ParseError::Empty), Image::decode("P3\r\n#c\r\n1 3\r\n#c\r\n"));
}

#[test]
fn decode_fails_without_the_size() {
    assert_eq!(Err(ParseError::Empty), Image::decode(""));
    assert_eq!(Err(ParseError::Empty), Image::decode("P3\n"));
    assert_eq!(Err(ParseError::Empty), Image::decode("P3\n1\n255\n"));
}

#[test]
fn decode_fails_on_bad_header_numbers() {
    assert_eq!(Err(ParseError::InvalidDigit), Image::decode("P3\nx 3\n255\n"));
    assert_eq!(Err(ParseError::InvalidDigit), Image::decode("P3\n1 x\n255\n"));
    assert_eq!(Err(ParseError::InvalidDigit), Image::decode("P3\n1 3\nmax\n"));
    assert_eq!(Err(ParseError::InvalidDigit), Image::decode("P3\n1,3\n255\n"));
    assert_eq!(
        Err(ParseError::Overflow),
        Image::decode("P3\n1 99999999999999999999999999\n255\n")
    );
    assert_eq!(Err(ParseError::Empty), Image::decode("P3\n 1 3\n255\n"));
}

#[test]
fn decode_reports_the_first_failure() {
    assert_eq!(Err(ParseError::InvalidDigit), Image::decode("P3\nx 99999999999999999999999999\n\n"));
    assert_eq!(Err(ParseError::Overflow), Image::decode("P3\n99999999999999999999999999 x\n"));
    assert_eq!(Err(ParseError::InvalidDigit), Image::decode("P3\n1 1\nx\n1 2\n"));
    assert_eq!(Err(ParseError::Empty), Image::decode("P3\n1 1\n255\n1 2\nx\n"));
}

#[test]
fn decode_fails_on_a_body_with_a_broken_pixel() {
    assert_eq!(Err(ParseError::Empty), Image::decode("P3\n1 1\n255\n1 2\n3\n"));
    assert_eq!(Err(ParseError::InvalidDigit), Image::decode("P3\n1 1\n255\n1 2 3\n4 five 6\n"));
}

#[test]
fn a_missing_largest_value_takes_the_first_body_line() {
    let image = Image::decode("P3\n1 1\n7 8 9\n").unwrap();
    assert_eq!(7, image.maxValue);
    assert!(image.pixels.is_empty());
}

// Equality looks at the pixels, the format tag and the largest value. Height
// and width take no part in it: two images that differ in them alone are
// equal.
#[test]
fn equality_leaves_out_height_and_width() {
    let image = sample();
    let mut other = sample();
    other.heigth = 3;
    other.width = 1;
    assert_eq!(image, other);
    assert_eq!(other, image);
}

#[test]
fn equality_looks_at_tag_and_largest_value() {
    let image = sample();
    let mut tag = sample();
    tag.fileType = "other".to_string();
    assert_ne!(image, tag);
    let mut max = sample();
    max.maxValue = 255;
    assert_ne!(image, max);
}

// The pixels are compared from the last to the first, and both sequences
// have to end together: an image is not equal to one that holds its pixels
// behind others.
#[test]
fn equality_looks_at_every_pixel() {
    let image = sample();

    let mut changed = sample();
    changed.pixels[0] = Pixels::new(8, 91, 43);
    assert_ne!(image, changed);
    assert_ne!(changed, image);

    let mut shorter = sample();
    shorter.pixels.remove(0);
    assert_ne!(image, shorter);
    assert_ne!(shorter, image);

    let mut longer = sample();
    longer.pixels.push(Pixels::new(0, 0, 0));
    assert_ne!(image, longer);
    assert_ne!(longer, image);

    let none = Image::new(Vec::new(), 1, 3, "P3".to_string(), 91);
    assert_ne!(image, none);
    assert_ne!(none, image);
    assert_eq!(none, Image::new(Vec::new(), 0, 0, "P3".to_string(), 91));
}
