//! The decoder reads back what the encoder writes.

use vstd::prelude::*;
use vstd::std_specs::cmp::PartialEqSpec;
use crate::images::{
    body_pixels, body_text, decode_lines, decode_text, encode_text, line_end, line_pixels,
    prepend, Image, ImageView,
};
use crate::lines::{
    after_first_content, first_content, lemma_content_in_front, lemma_content_line,
    lemma_first_content_is_plain, lemma_lines_hold_no_line_feed, lemma_no_content_no_rest,
    lemma_pass_over, lemma_split_concat, lemma_split_one_line, split_lines, strip_comment,
    without_content,
};
use crate::numbers::{
    after_number, decimal, first_token, is_digit, lemma_decimal, lemma_decimal_is_plain,
    lemma_scan_decimal, lemma_scan_field, number_at, ParseError,
};
use crate::pixels::{lemma_scan_pixel, Pixels};
use crate::text::{lemma_span_until_at, run_len};

verus! {

/// The text of a row of pixels: each pixel's text with a space behind it.
pub open spec fn row_text(pixels: Seq<Pixels>) -> Seq<char>
    decreases pixels.len(),
{
    if pixels.len() == 0 {
        Seq::empty()
    } else {
        pixels[0].text() + seq![' '] + row_text(pixels.drop_first())
    }
}

/// A row's text holds digits and spaces alone. Where it has pixels it starts
/// with a digit and ends with a space.
pub proof fn lemma_row_text(pixels: Seq<Pixels>)
    ensures
        forall|i: int|
            0 <= i < row_text(pixels).len() ==> is_digit(#[trigger] row_text(pixels)[i])
                || row_text(pixels)[i] == ' ',
        pixels.len() > 0 ==> row_text(pixels).len() > 0 && is_digit(row_text(pixels)[0])
            && row_text(pixels).last() == ' ',
    decreases pixels.len(),
{
    if pixels.len() > 0 {
        let pixel = pixels[0];
        let rest = row_text(pixels.drop_first());
        lemma_row_text(pixels.drop_first());
        lemma_decimal(pixel.red as nat);
        lemma_decimal(pixel.green as nat);
        lemma_decimal(pixel.blue as nat);
        let red = decimal(pixel.red as nat);
        let green = decimal(pixel.green as nat);
        let blue = decimal(pixel.blue as nat);
        let text = pixel.text() + seq![' '];
        let row = row_text(pixels);
        assert(row == text + rest);
        assert(text == red + seq![' '] + green + seq![' '] + blue + seq![' ']);
        assert forall|i: int| 0 <= i < text.len() implies is_digit(#[trigger] text[i]) || text[i]
            == ' ' by {
            if i < red.len() {
                assert(text[i] == red[i]);
            } else if i == red.len() {
            } else if i < red.len() + 1 + green.len() {
                assert(text[i] == green[i - red.len() - 1]);
            } else if i == red.len() + 1 + green.len() {
            } else if i < red.len() + 1 + green.len() + 1 + blue.len() {
                assert(text[i] == blue[i - red.len() - green.len() - 2]);
            } else {
            }
        }
        assert forall|i: int| 0 <= i < row.len() implies is_digit(#[trigger] row[i]) || row[i]
            == ' ' by {
            if i < text.len() {
                assert(row[i] == text[i]);
            } else {
                assert(row[i] == rest[i - text.len()]);
            }
        }
        assert(row[0] == red[0]);
        if rest.len() == 0 {
            assert(row.last() == text.last());
        } else {
            assert(row.last() == rest.last());
        }
    }
}

/// A row's text reads as the row's pixels.
pub proof fn lemma_row_pixels(pixels: Seq<Pixels>)
    ensures
        line_pixels(row_text(pixels)) == Ok::<Seq<Pixels>, ParseError>(pixels),
    decreases pixels.len(),
{
    if pixels.len() == 0 {
        assert(pixels == Seq::<Pixels>::empty());
    } else {
        let pixel = pixels[0];
        let others = pixels.drop_first();
        let rest = row_text(others);
        let row = row_text(pixels);
        lemma_row_text(pixels);
        lemma_row_text(others);
        if rest.len() > 0 {
            assert(is_digit(rest[0]));
        }
        lemma_scan_pixel(pixel, rest);
        lemma_row_pixels(others);
        assert(is_digit(row[0]));
        assert(line_pixels(row) == prepend(seq![pixel], line_pixels(rest)));
        assert(seq![pixel] + others == pixels);
    }
}

/// Behind a whole number of rows of three, the body of more pixels starts
/// afresh.
pub proof fn lemma_body_text_concat(rows: Seq<Pixels>, more: Seq<Pixels>)
    requires
        rows.len() % 3 == 0,
    ensures
        body_text(rows + more) == body_text(rows) + body_text(more),
    decreases more.len(),
{
    if more.len() == 0 {
        assert(rows + more == rows);
        assert(body_text(rows) + body_text(more) == body_text(rows));
    } else {
        let all = rows + more;
        assert(all.drop_last() == rows + more.drop_last());
        assert(all.last() == more.last());
        lemma_body_text_concat(rows, more.drop_last());
        let end = if more.len() % 3 == 0 {
            line_end()
        } else {
            Seq::empty()
        };
        assert(body_text(all) == body_text(rows) + body_text(more.drop_last()) + more.last().text()
            + seq![' '] + end);
        assert(body_text(more) == body_text(more.drop_last()) + more.last().text() + seq![' ']
            + end);
        assert(body_text(all) == body_text(rows) + body_text(more));
    }
}

/// The body of fewer than three pixels is their row; the body of three is
/// their row and a line end.
pub proof fn lemma_body_text_row(pixels: Seq<Pixels>)
    requires
        pixels.len() <= 3,
    ensures
        pixels.len() < 3 ==> body_text(pixels) == row_text(pixels),
        pixels.len() == 3 ==> body_text(pixels) == row_text(pixels) + line_end(),
{
    reveal_with_fuel(body_text, 4);
    reveal_with_fuel(row_text, 4);
    if pixels.len() == 1 {
        assert(body_text(pixels) == row_text(pixels));
    } else if pixels.len() == 2 {
        assert(pixels.drop_last().last() == pixels[0]);
        assert(pixels.drop_first()[0] == pixels[1]);
        assert(body_text(pixels) == row_text(pixels));
    } else if pixels.len() == 3 {
        assert(pixels.drop_last().last() == pixels[1]);
        assert(pixels.drop_last().drop_last().last() == pixels[0]);
        assert(pixels.drop_first()[0] == pixels[1]);
        assert(pixels.drop_first().drop_first()[0] == pixels[2]);
        assert(body_text(pixels) == row_text(pixels) + line_end());
    }
}

/// A line without a line feed, closed by a line end, is the first line of a
/// text, and the lines behind it are those of what follows.
pub proof fn lemma_split_first_line(line: Seq<char>, rest: Seq<char>)
    requires
        forall|i: int| 0 <= i < line.len() ==> line[i] != '\n',
    ensures
        split_lines(line + line_end() + rest) == seq![line] + split_lines(rest),
{
    let text = line + line_end() + rest;
    let end = line.len() as int + 1;
    assert forall|i: int| 0 <= i < end implies text[i] != '\n' by {
        if i < line.len() {
            assert(text[i] == line[i]);
        }
    }
    assert(text[end] == '\n');
    lemma_span_until_at(text, '\n', end);
    assert(text.take(end) == line.push('\r'));
    assert(line.push('\r').drop_last() == line);
    assert(text.skip(end + 1) == rest);
}

/// The body of some pixels, cut into lines, reads as those pixels.
pub proof fn lemma_body_pixels(pixels: Seq<Pixels>)
    ensures
        body_pixels(split_lines(body_text(pixels))) == Ok::<Seq<Pixels>, ParseError>(pixels),
    decreases pixels.len(),
{
    if pixels.len() == 0 {
        assert(pixels == Seq::<Pixels>::empty());
    } else if pixels.len() < 3 {
        let row = row_text(pixels);
        lemma_body_text_row(pixels);
        lemma_row_text(pixels);
        lemma_row_pixels(pixels);
        assert forall|i: int| 0 <= i < row.len() implies row[i] != '\n' by {
            assert(is_digit(row[i]) || row[i] == ' ');
        }
        lemma_split_one_line(row);
        let lines = seq![row];
        assert(lines.drop_first().len() == 0);
        assert(body_pixels(lines) == prepend(pixels, body_pixels(lines.drop_first())));
        assert(pixels + Seq::<Pixels>::empty() == pixels);
    } else {
        let first = pixels.take(3);
        let others = pixels.skip(3);
        let row = row_text(first);
        assert(pixels == first + others);
        lemma_body_text_concat(first, others);
        lemma_body_text_row(first);
        lemma_row_text(first);
        lemma_row_pixels(first);
        assert forall|i: int| 0 <= i < row.len() implies row[i] != '\n' by {
            assert(is_digit(row[i]) || row[i] == ' ');
        }
        lemma_split_first_line(row, body_text(others));
        lemma_body_pixels(others);
        let behind = split_lines(body_text(others));
        let lines = seq![row] + behind;
        assert(lines[0] == row);
        assert(lines.drop_first() == behind);
        assert(body_pixels(lines) == prepend(first, body_pixels(behind)));
    }
}

/// A format tag that reads back as it is: it is not empty and holds neither
/// `#` nor a line feed.
pub open spec fn tag_reads_back(tag: Seq<char>) -> bool {
    &&& tag.len() > 0
    &&& forall|i: int| 0 <= i < tag.len() ==> tag[i] != '#' && tag[i] != '\n'
}

/// The lines that the comment of a header takes: one where the file's name
/// holds no line feed.
pub open spec fn comment_lines(file_name: Seq<char>) -> Seq<Seq<char>> {
    split_lines(seq!['#'] + file_name + line_end())
}

/// The comment of a header stays a comment: none of its lines has content.
pub open spec fn name_stays_comment(file_name: Seq<char>) -> bool {
    without_content(comment_lines(file_name))
}

/// A file name without a line feed stays a comment.
pub proof fn lemma_plain_name_stays_comment(file_name: Seq<char>)
    requires
        forall|i: int| 0 <= i < file_name.len() ==> file_name[i] != '\n',
    ensures
        name_stays_comment(file_name),
{
    let line = seq!['#'] + file_name;
    assert forall|i: int| 0 <= i < line.len() implies line[i] != '\n' by {
        if i > 0 {
            assert(line[i] == file_name[i - 1]);
        }
    }
    lemma_split_first_line(line, Seq::empty());
    assert(line + line_end() + Seq::<char>::empty() == line + line_end());
    assert(split_lines(Seq::<char>::empty()) == Seq::<Seq<char>>::empty());
    assert(comment_lines(file_name) == seq![line]);
    assert(strip_comment(line).len() == 0);
}

/// The size line of a header: height and width in decimal, a space between
/// them.
pub open spec fn size_line(height: nat, width: nat) -> Seq<char> {
    decimal(height) + seq![' '] + decimal(width)
}

/// A size line holds neither `#` nor a line feed, and is not empty.
pub proof fn lemma_size_line_is_plain(height: nat, width: nat)
    ensures
        size_line(height, width).len() > 0,
        forall|i: int|
            0 <= i < size_line(height, width).len() ==> size_line(height, width)[i] != '#'
                && size_line(height, width)[i] != '\n',
{
    let line = size_line(height, width);
    lemma_decimal_is_plain(height);
    lemma_decimal_is_plain(width);
    assert forall|i: int| 0 <= i < line.len() implies line[i] != '#' && line[i] != '\n' by {
        if i < decimal(height).len() {
            assert(line[i] == decimal(height)[i]);
        } else if i > decimal(height).len() {
            assert(line[i] == decimal(width)[i - decimal(height).len() - 1]);
        }
    }
}

/// A size line scans as the height, then as the width.
pub proof fn lemma_scan_size_line(height: usize, width: usize)
    ensures
        number_at(size_line(height as nat, width as nat)) == Ok::<usize, ParseError>(height),
        number_at(after_number(size_line(height as nat, width as nat))) == Ok::<
            usize,
            ParseError,
        >(width),
{
    let second = decimal(width as nat);
    assert(size_line(height as nat, width as nat) == decimal(height as nat) + (seq![' '] + second));
    assert(second[0] != ' ') by {
        lemma_decimal(width as nat);
        assert(is_digit(second[0]));
    }
    lemma_scan_field(height, second);
    lemma_scan_decimal(width, Seq::empty());
    assert(second + Seq::<char>::empty() == second);
}

/// The lines of an encoded image: the format tag, the lines of the comment,
/// the size line, the largest value, and the lines of the body.
pub proof fn lemma_encoded_lines(image: ImageView, file_name: Seq<char>)
    requires
        forall|i: int| 0 <= i < image.tag.len() ==> image.tag[i] != '\n',
    ensures
        split_lines(encode_text(image, file_name)) == seq![image.tag] + (comment_lines(file_name)
            + (seq![size_line(image.height, image.width)] + (seq![decimal(image.max)]
            + split_lines(body_text(image.pixels))))),
{
    let comment = seq!['#'] + file_name + line_end();
    let size = size_line(image.height, image.width);
    let max = decimal(image.max);
    let body = body_text(image.pixels);
    let from_max = max + line_end() + body;
    let from_size = size + line_end() + from_max;
    assert(encode_text(image, file_name) == image.tag + line_end() + (comment + from_size)) by {
        assert(encode_text(image, file_name) =~= image.tag + line_end() + (comment + from_size));
    }
    lemma_split_first_line(image.tag, comment + from_size);
    assert(comment.last() == '\n');
    lemma_split_concat(comment, from_size);
    lemma_size_line_is_plain(image.height, image.width);
    lemma_split_first_line(size, from_max);
    lemma_decimal_is_plain(image.max);
    lemma_split_first_line(max, body);
}

/// In a header with a comment without content, the three fields are the
/// format tag, the size line and the largest value, and the body follows.
pub proof fn lemma_header_fields(
    tag: Seq<char>,
    silent: Seq<Seq<char>>,
    size: Seq<char>,
    max: Seq<char>,
    body: Seq<Seq<char>>,
)
    requires
        tag_reads_back(tag),
        without_content(silent),
        size.len() > 0,
        forall|i: int| 0 <= i < size.len() ==> size[i] != '#',
        max.len() > 0,
        forall|i: int| 0 <= i < max.len() ==> max[i] != '#',
    ensures
        ({
            let lines = seq![tag] + (silent + (seq![size] + (seq![max] + body)));
            let after_tag = after_first_content(lines);
            let after_size = after_first_content(after_tag);
            &&& first_content(lines) == tag
            &&& first_content(after_tag) == size
            &&& first_content(after_size) == max
            &&& after_first_content(after_size) == body
        }),
{
    let after_size = seq![max] + body;
    let after_comment = seq![size] + after_size;
    let after_tag = silent + after_comment;
    lemma_content_line(tag, after_tag);
    lemma_pass_over(silent, after_comment);
    lemma_content_line(size, after_size);
    lemma_content_line(max, body);
}

/// Decoding what the encoder wrote gives the image back, with every field as
/// it was, for any number of pixels and any size. This holds where the format
/// tag reads back and the file's name stays a comment. An image that decodes
/// to the same value is equal to the first, whichever stands on the left.
pub proof fn lemma_decode_of_encode(image: Image, file_name: Seq<char>)
    requires
        tag_reads_back(image@.tag),
        name_stays_comment(file_name),
    ensures
        decode_text(encode_text(image@, file_name)) == Ok::<ImageView, ParseError>(image@),
        forall|decoded: Image|
            decode_text(encode_text(image@, file_name)) == Ok::<ImageView, ParseError>(decoded@)
                ==> image.eq_spec(&decoded) && decoded.eq_spec(&image),
{
    let view = image@;
    let size = size_line(view.height, view.width);
    let max = decimal(view.max);
    let body = split_lines(body_text(view.pixels));
    lemma_encoded_lines(view, file_name);
    lemma_size_line_is_plain(view.height, view.width);
    lemma_decimal_is_plain(view.max);
    lemma_header_fields(view.tag, comment_lines(file_name), size, max, body);
    lemma_scan_size_line(image.heigth, image.width);
    assert(number_at(max) == Ok::<usize, ParseError>(image.maxValue)) by {
        lemma_scan_decimal(image.maxValue, Seq::empty());
        assert(max + Seq::<char>::empty() == max);
    }
    lemma_body_pixels(view.pixels);
    assert(decode_lines(split_lines(encode_text(view, file_name))) == Ok::<
        ImageView,
        ParseError,
    >(view));
}

/// The format tag of every image that decodes reads back.
pub proof fn lemma_decoded_tag_reads_back(text: Seq<char>)
    requires
        decode_text(text) is Ok,
    ensures
        tag_reads_back(decode_text(text)->Ok_0.tag),
{
    let lines = split_lines(text);
    lemma_lines_hold_no_line_feed(text);
    lemma_first_content_is_plain(lines);
    if first_content(lines).len() == 0 {
        lemma_no_content_no_rest(lines);
        let after_tag = after_first_content(lines);
        assert(first_content(after_tag).len() == 0);
        assert(first_token(first_content(after_tag)).len() == 0);
        assert(false);
    }
}

/// A body with a line that does not read does not read.
pub proof fn lemma_body_fails(lines: Seq<Seq<char>>, at: int)
    requires
        0 <= at < lines.len(),
        line_pixels(lines[at]) is Err,
    ensures
        body_pixels(lines) is Err,
    decreases lines.len(),
{
    if at > 0 {
        assert(lines.drop_first()[at - 1] == lines[at]);
        lemma_body_fails(lines.drop_first(), at - 1);
    }
}

/// A line that holds one number alone does not read as pixels.
pub proof fn lemma_lone_number_fails(n: usize)
    ensures
        line_pixels(decimal(n as nat)) is Err,
{
    let line = decimal(n as nat);
    lemma_decimal(n as nat);
    assert(is_digit(line[0]));
    lemma_scan_decimal(n, Seq::empty());
    assert(line + Seq::<char>::empty() == line);
    assert(run_len(Seq::<char>::empty(), ' ') == 0);
    assert(after_number(line).len() == 0);
    assert(first_token(after_number(line)).len() == 0);
    assert(number_at(after_number(line)) is Err);
}

/// Where the comment of the header has a line with content, the encoded image
/// does not decode: the largest value then stands among the body lines.
pub proof fn lemma_loud_comment_fails(image: Image, file_name: Seq<char>)
    requires
        tag_reads_back(image@.tag),
        !name_stays_comment(file_name),
    ensures
        decode_text(encode_text(image@, file_name)) is Err,
{
    let view = image@;
    let comment = comment_lines(file_name);
    let size = size_line(view.height, view.width);
    let max = decimal(view.max);
    let body = split_lines(body_text(view.pixels));
    let from_max = seq![max] + body;
    let from_size = seq![size] + from_max;
    let lines = seq![view.tag] + (comment + from_size);
    lemma_encoded_lines(view, file_name);
    assert(split_lines(encode_text(view, file_name)) == lines);
    lemma_lone_number_fails(image.maxValue);

    lemma_content_line(view.tag, comment + from_size);
    lemma_content_in_front(comment, from_size);
    let left = after_first_content(comment);
    let after_size = left + from_size;
    assert(after_first_content(after_first_content(lines)) == after_size);
    let rest = after_first_content(after_size);
    assert(body_pixels(rest) is Err) by {
        if without_content(left) {
            lemma_pass_over(left, from_size);
            lemma_size_line_is_plain(view.height, view.width);
            lemma_content_line(size, from_max);
            assert(rest == from_max);
            assert(rest[0] == max);
            lemma_body_fails(rest, 0);
        } else {
            lemma_content_in_front(left, from_size);
            let before = after_first_content(left);
            assert(rest == before + from_size);
            let at = before.len() as int + 1;
            assert(rest[at] == max);
            lemma_body_fails(rest, at);
        }
    }
}

/// An encoded image decodes to the image it was made of exactly where its
/// format tag reads back and the file's name stays a comment. Any other
/// encoded image decodes to another image or does not decode.
pub proof fn lemma_reads_back_exactly(image: Image, file_name: Seq<char>)
    ensures
        decode_text(encode_text(image@, file_name)) == Ok::<ImageView, ParseError>(image@) <==> (
        tag_reads_back(image@.tag) && name_stays_comment(file_name)),
{
    if tag_reads_back(image@.tag) {
        if name_stays_comment(file_name) {
            lemma_decode_of_encode(image, file_name);
        } else {
            lemma_loud_comment_fails(image, file_name);
        }
    } else {
        if decode_text(encode_text(image@, file_name)) is Ok {
            lemma_decoded_tag_reads_back(encode_text(image@, file_name));
        }
    }
}

} // verus!
