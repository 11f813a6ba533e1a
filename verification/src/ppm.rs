//! The plain-text portable pixmap encoding of a canvas.
//!
//! An image is a header of three lines followed by the pixel data: three
//! decimal numbers per pixel, row by row. Every canvas row starts a new line
//! of text, and a line that would grow past the line limit is broken before
//! the number that would not fit.

use crate::canvas::Canvas;
use crate::decimal::{
    decimal, is_digit, lemma_byte_digits, lemma_decimal_is_digits, lemma_decimal_is_injective,
    push_decimal,
};
use crate::lines::{
    is_full_split, is_word, is_wrapped, joined, lemma_lines_are_a_full_split,
    lemma_lines_hold_only_tokens, lemma_lines_nonempty, lemma_place, lemma_rendered_is_wrapped,
    lemma_rendered_spells, lemma_spelling_is_unique, lemma_spells_concat, lemma_wrapped_concat,
    pending, rendered, spells, split_lines, LINE_LIMIT,
};
use crate::true_color::TrueColor;
use vstd::prelude::*;

verus! {

/// The decimal tokens of `pixels`: red, green and blue of the first pixel,
/// then of the second, and so on.
pub open spec fn pixel_tokens(pixels: Seq<TrueColor>) -> Seq<Seq<char>> {
    Seq::new(3 * pixels.len(), |k: int| decimal(pixels[k / 3].channel(k % 3) as nat))
}

/// Whether `token` is a number of one to three digits.
pub open spec fn is_number(token: Seq<char>) -> bool {
    &&& 1 <= token.len() <= 3
    &&& forall|j: int| 0 <= j < token.len() ==> is_digit(#[trigger] token[j])
}

/// The pixels of row `y` in a row-major grid `width` pixels wide.
pub open spec fn row_of(pixels: Seq<TrueColor>, width: nat, y: nat) -> Seq<TrueColor> {
    pixels.subrange((y * width) as int, ((y + 1) * width) as int)
}

/// The lines of text that hold row `y`.
pub open spec fn row_lines(pixels: Seq<TrueColor>, width: nat, y: nat) -> Seq<Seq<Seq<char>>> {
    split_lines(pixel_tokens(row_of(pixels, width, y)))
}

/// The pixel data of the first `rows` rows: the lines of the first row, then
/// those of the second, and so on.
pub open spec fn body_text(pixels: Seq<TrueColor>, width: nat, rows: nat) -> Seq<char>
    decreases rows,
{
    if rows == 0 {
        Seq::empty()
    } else {
        body_text(pixels, width, (rows - 1) as nat) + rendered(
            row_lines(pixels, width, (rows - 1) as nat),
        )
    }
}

/// The header: the format's name, the canvas size, and the largest channel
/// value, one line each.
pub open spec fn header_text(width: nat, height: nat) -> Seq<char> {
    seq!['P', '3', '\n'] + decimal(width) + seq![' '] + decimal(height) + seq![
        '\n',
        '2',
        '5',
        '5',
        '\n',
    ]
}

/// The whole image: header, then pixel data.
pub open spec fn image_text(pixels: Seq<TrueColor>, width: nat, height: nat) -> Seq<char> {
    header_text(width, height) + body_text(pixels, width, height)
}

/// The tokens of a run of pixels with one more pixel are the tokens of the
/// run followed by the three tokens of that pixel.
proof fn lemma_tokens_push(pixels: Seq<TrueColor>, pixel: TrueColor)
    ensures
        pixel_tokens(pixels.push(pixel)) == pixel_tokens(pixels).push(decimal(pixel.r as nat)).push(
            decimal(pixel.g as nat),
        ).push(decimal(pixel.b as nat)),
{
    assert(pixel_tokens(pixels.push(pixel)) =~= pixel_tokens(pixels).push(
        decimal(pixel.r as nat),
    ).push(decimal(pixel.g as nat)).push(decimal(pixel.b as nat)));
}

/// Appends the decimal token of `value` to `text`, preceded by what the line
/// splitting calls for, and keeps `used` at the length of the open line.
/// `first` tells that the token opens its row.
fn push_token(
    text: &mut String,
    used: &mut usize,
    value: u8,
    first: bool,
    Ghost(base): Ghost<Seq<char>>,
    Ghost(placed): Ghost<Seq<Seq<char>>>,
)
    requires
        old(text)@ == base + pending(split_lines(placed)),
        first == (placed.len() == 0),
        !first ==> *old(used) == joined(split_lines(placed).last()).len(),
        *old(used) + 1 <= LINE_LIMIT,
    ensures
        final(text)@ == base + pending(split_lines(placed.push(decimal(value as nat)))),
        *final(used) == joined(split_lines(placed.push(decimal(value as nat))).last()).len(),
        *final(used) + 1 <= LINE_LIMIT,
{
    let length: usize = if value < 10 {
        1
    } else if value < 100 {
        2
    } else {
        3
    };
    proof {
        lemma_byte_digits(value as nat);
        lemma_decimal_is_digits(value as nat);
        lemma_place(placed, decimal(value as nat));
        lemma_lines_nonempty(placed);
    }
    if first {
        *used = length;
    } else if *used + length + 2 > LINE_LIMIT {
        text.push('\n');
        *used = length;
    } else {
        text.push(' ');
        *used = *used + 1 + length;
    }
    push_decimal(text, value as usize);
}

impl<P> Canvas<P> {
    /// The image header for this canvas: `P3`, then width and height, then
    /// `255`, each on a line of its own.
    pub fn to_ppm_header(&self) -> (text: String)
        ensures
            text@ == header_text(self.width() as nat, self.height() as nat),
    {
        let mut text = String::new();
        text.push('P');
        text.push('3');
        text.push('\n');
        push_decimal(&mut text, self.width());
        text.push(' ');
        push_decimal(&mut text, self.height());
        text.push('\n');
        text.push('2');
        text.push('5');
        text.push('5');
        text.push('\n');
        text
    }
}

impl Canvas<TrueColor> {
    /// Appends the pixel data of this canvas to `text`.
    fn push_ppm_body(&self, text: &mut String)
        ensures
            final(text)@ == old(text)@ + body_text(
                self@,
                self.width() as nat,
                self.height() as nat,
            ),
    {
        let width = self.width();
        let height = self.height();
        let ghost start = text@;
        let mut y: usize = 0;
        while y < height
            invariant
                y <= height,
                width == self.width(),
                height == self.height(),
                self@.len() == width * height,
                text@ == start + body_text(self@, width as nat, y as nat),
            decreases height - y,
        {
            let ghost base = text@;
            let ghost row = row_of(self@, width as nat, y as nat);
            proof {
                assert(0 <= y * width <= (y + 1) * width <= width * height && (y + 1) * width == y
                    * width + width) by (nonlinear_arith)
                    requires
                        0 <= y < height,
                        0 <= width,
                ;
                assert(row.len() == width);
            }
            let mut used: usize = 0;
            let mut x: usize = 0;
            while x < width
                invariant
                    x <= width,
                    y < height,
                    width == self.width(),
                    height == self.height(),
                    self@.len() == width * height,
                    row == row_of(self@, width as nat, y as nat),
                    row.len() == width,
                    0 <= y * width,
                    (y + 1) * width == y * width + width,
                    y * width + width <= width * height,
                    text@ == base + pending(split_lines(pixel_tokens(row.take(x as int)))),
                    x > 0 ==> used == joined(
                        split_lines(pixel_tokens(row.take(x as int))).last(),
                    ).len(),
                    used + 1 <= LINE_LIMIT,
                decreases width - x,
            {
                let pixel = self.get_pixel(x, y);
                let ghost placed = pixel_tokens(row.take(x as int));
                proof {
                    assert(width * y == y * width) by (nonlinear_arith);
                    assert(pixel == row[x as int]);
                    assert(row.take(x + 1) =~= row.take(x as int).push(pixel));
                    lemma_tokens_push(row.take(x as int), pixel);
                }
                push_token(text, &mut used, pixel.r, x == 0, Ghost(base), Ghost(placed));
                push_token(
                    text,
                    &mut used,
                    pixel.g,
                    false,
                    Ghost(base),
                    Ghost(placed.push(decimal(pixel.r as nat))),
                );
                push_token(
                    text,
                    &mut used,
                    pixel.b,
                    false,
                    Ghost(base),
                    Ghost(placed.push(decimal(pixel.r as nat)).push(decimal(pixel.g as nat))),
                );
                x += 1;
            }
            if width > 0 {
                text.push('\n');
            }
            proof {
                assert(row.take(width as int) =~= row);
                lemma_lines_nonempty(pixel_tokens(row));
            }
            y += 1;
        }
    }

    /// The pixel data of this canvas as text: for every pixel, row by row,
    /// its red, green and blue channel in decimal notation. The numbers of
    /// a row are spread over lines of at most [`LINE_LIMIT`] characters, and
    /// no line holds numbers of two rows.
    pub fn to_ppm_body(&self) -> (text: String)
        ensures
            text@ == body_text(self@, self.width() as nat, self.height() as nat),
    {
        let mut text = String::new();
        self.push_ppm_body(&mut text);
        text
    }

    /// The whole image as text: header, then pixel data.
    pub fn to_ppm(&self) -> (text: String)
        ensures
            text@ == image_text(self@, self.width() as nat, self.height() as nat),
    {
        let mut text = self.to_ppm_header();
        self.push_ppm_body(&mut text);
        text
    }
}

/// Every token of pixel data has one to three characters, all of them digits.
pub proof fn lemma_pixel_tokens_are_numbers(pixels: Seq<TrueColor>)
    ensures
        pixel_tokens(pixels).len() == 3 * pixels.len(),
        forall|k: int|
            0 <= k < pixel_tokens(pixels).len() ==> is_number(#[trigger] pixel_tokens(pixels)[k]),
{
    assert forall|k: int| 0 <= k < pixel_tokens(pixels).len() implies is_number(
        #[trigger] pixel_tokens(pixels)[k],
    ) by {
        let value = pixels[k / 3].channel(k % 3) as nat;
        lemma_byte_digits(value);
        lemma_decimal_is_digits(value);
    }
}

/// A line of numbers begins and ends with a digit and holds digits and
/// single spaces only.
proof fn lemma_joined_numbers(line: Seq<Seq<char>>)
    requires
        line.len() > 0,
        forall|j: int| 0 <= j < line.len() ==> is_number(#[trigger] line[j]),
    ensures
        joined(line).len() > 0,
        is_digit(joined(line).first()),
        is_digit(joined(line).last()),
        forall|k: int|
            0 <= k < joined(line).len() ==> is_digit(#[trigger] joined(line)[k]) || joined(line)[k]
                == ' ',
    decreases line.len(),
{
    assert(is_number(line[0]));
    assert(is_number(line.last()));
    if line.len() > 1 {
        lemma_joined_numbers(line.drop_last());
    }
}

/// The lines of a row are spread as the rule asks: none is empty, none is
/// longer than the limit, its line feed included, and a line ends only where
/// the next number would not have fitted. Every line begins and ends with a
/// digit and holds digits and spaces only.
pub proof fn lemma_row_lines_are_full_and_trim(pixels: Seq<TrueColor>, width: nat, y: nat)
    ensures
        is_full_split(row_lines(pixels, width, y)),
        forall|i: int|
            0 <= i < row_lines(pixels, width, y).len() ==> {
                let line = joined(#[trigger] row_lines(pixels, width, y)[i]);
                &&& 0 < line.len() < LINE_LIMIT
                &&& is_digit(line.first())
                &&& is_digit(line.last())
                &&& forall|k: int|
                    0 <= k < line.len() ==> is_digit(#[trigger] line[k]) || line[k] == ' '
            },
{
    let tokens = pixel_tokens(row_of(pixels, width, y));
    let lines = split_lines(tokens);
    lemma_pixel_tokens_are_numbers(row_of(pixels, width, y));
    assert forall|k: int| 0 <= k < tokens.len() implies (#[trigger] tokens[k]).len() + 1
        <= LINE_LIMIT by {
        assert(is_number(tokens[k]));
    }
    lemma_lines_are_a_full_split(tokens);
    lemma_lines_hold_only_tokens(tokens, |token: Seq<char>| is_number(token));
    assert forall|i: int| 0 <= i < lines.len() implies {
        let line = joined(#[trigger] lines[i]);
        &&& 0 < line.len() < LINE_LIMIT
        &&& is_digit(line.first())
        &&& is_digit(line.last())
        &&& forall|k: int|
            0 <= k < line.len() ==> is_digit(#[trigger] line[k]) || line[k] == ' '
    } by {
        assert forall|j: int| 0 <= j < lines[i].len() implies is_number(#[trigger] lines[i][j]) by {
            assert(is_number(lines[i][j]));
        }
        lemma_joined_numbers(lines[i]);
    }
}

/// The pixel data is made of lines within the limit: it ends with a line
/// feed unless it is empty, and no line of it, line feed included, is longer
/// than [`LINE_LIMIT`].
pub proof fn lemma_body_is_wrapped(pixels: Seq<TrueColor>, width: nat, rows: nat)
    ensures
        is_wrapped(body_text(pixels, width, rows)),
    decreases rows,
{
    if rows > 0 {
        let above = (rows - 1) as nat;
        lemma_body_is_wrapped(pixels, width, above);
        lemma_row_lines_are_full_and_trim(pixels, width, above);
        lemma_rendered_is_wrapped(row_lines(pixels, width, above));
        lemma_wrapped_concat(
            body_text(pixels, width, above),
            rendered(row_lines(pixels, width, above)),
        );
    }
}

/// The tokens of two runs of pixels, one after the other, are the tokens of
/// the two runs joined.
proof fn lemma_tokens_concat(a: Seq<TrueColor>, b: Seq<TrueColor>)
    ensures
        pixel_tokens(a + b) == pixel_tokens(a) + pixel_tokens(b),
{
    assert(pixel_tokens(a + b) =~= pixel_tokens(a) + pixel_tokens(b));
}

/// The pixel data of the first `rows` rows spells the tokens of the pixels
/// of these rows: every channel of every pixel is there, in row-major order,
/// with one separator after it.
pub proof fn lemma_body_spells_pixels(pixels: Seq<TrueColor>, width: nat, rows: nat)
    requires
        rows * width <= pixels.len(),
    ensures
        spells(body_text(pixels, width, rows), pixel_tokens(pixels.take((rows * width) as int))),
    decreases rows,
{
    if rows == 0 {
        assert(rows * width == 0) by (nonlinear_arith)
            requires
                rows == 0,
        ;
        assert(pixel_tokens(pixels.take(0)) =~= Seq::<Seq<char>>::empty());
    } else {
        let above = (rows - 1) as nat;
        let row = row_of(pixels, width, above);
        assert(above * width + width == rows * width && 0 <= above * width) by (nonlinear_arith)
            requires
                above + 1 == rows,
        ;
        assert((above + 1) * width == rows * width);
        lemma_body_spells_pixels(pixels, width, above);
        lemma_rendered_spells(pixel_tokens(row));
        lemma_spells_concat(
            body_text(pixels, width, above),
            pixel_tokens(pixels.take((above * width) as int)),
            rendered(split_lines(pixel_tokens(row))),
            pixel_tokens(row),
        );
        lemma_tokens_concat(pixels.take((above * width) as int), row);
        assert(pixels.take((above * width) as int) + row =~= pixels.take((rows * width) as int));
        assert(body_text(pixels, width, rows) == body_text(pixels, width, above) + rendered(
            split_lines(pixel_tokens(row)),
        ));
    }
}

/// Pixels can be read back from their tokens: different runs of pixels have
/// different tokens.
pub proof fn lemma_pixel_tokens_are_injective(a: Seq<TrueColor>, b: Seq<TrueColor>)
    requires
        pixel_tokens(a) == pixel_tokens(b),
    ensures
        a == b,
{
    assert(pixel_tokens(a).len() == 3 * a.len());
    assert(pixel_tokens(b).len() == 3 * b.len());
    assert forall|i: int| 0 <= i < a.len() implies a[i] == b[i] by {
        assert(pixel_tokens(a)[3 * i] == pixel_tokens(b)[3 * i]);
        assert(pixel_tokens(a)[3 * i + 1] == pixel_tokens(b)[3 * i + 1]);
        assert(pixel_tokens(a)[3 * i + 2] == pixel_tokens(b)[3 * i + 2]);
        lemma_decimal_is_injective(a[i].r as nat, b[i].r as nat);
        lemma_decimal_is_injective(a[i].g as nat, b[i].g as nat);
        lemma_decimal_is_injective(a[i].b as nat, b[i].b as nat);
    }
    assert(a =~= b);
}

/// A run of digits is known from any text that begins with it and goes on
/// with a character that is no digit: so is that character, and so is the
/// rest.
proof fn lemma_digits_then_stop(
    a: Seq<char>,
    stop_a: char,
    rest_a: Seq<char>,
    b: Seq<char>,
    stop_b: char,
    rest_b: Seq<char>,
)
    requires
        forall|i: int| 0 <= i < a.len() ==> is_digit(#[trigger] a[i]),
        forall|i: int| 0 <= i < b.len() ==> is_digit(#[trigger] b[i]),
        !is_digit(stop_a),
        !is_digit(stop_b),
        a + seq![stop_a] + rest_a == b + seq![stop_b] + rest_b,
    ensures
        a == b,
        stop_a == stop_b,
        rest_a == rest_b,
{
    let text = a + seq![stop_a] + rest_a;
    let other = b + seq![stop_b] + rest_b;
    if a.len() < b.len() {
        assert(text[a.len() as int] == stop_a);
        assert(other[a.len() as int] == b[a.len() as int]);
    } else if b.len() < a.len() {
        assert(other[b.len() as int] == stop_b);
        assert(text[b.len() as int] == a[b.len() as int]);
    }
    assert(a.len() == b.len());
    assert forall|i: int| 0 <= i < a.len() implies a[i] == b[i] by {
        assert(text[i] == a[i]);
        assert(other[i] == b[i]);
    }
    assert(a =~= b);
    assert(text[a.len() as int] == stop_a);
    assert(other[a.len() as int] == stop_b);
    assert(text.len() == other.len());
    assert(rest_a.len() == rest_b.len());
    assert forall|i: int| 0 <= i < rest_a.len() implies rest_a[i] == rest_b[i] by {
        assert(text[a.len() + 1 + i] == rest_a[i]);
        assert(other[a.len() + 1 + i] == rest_b[i]);
    }
    assert(rest_a =~= rest_b);
}

/// The size of the canvas and the pixel data can be read back from an image
/// text.
pub proof fn lemma_header_is_injective(
    width: nat,
    height: nat,
    body: Seq<char>,
    other_width: nat,
    other_height: nat,
    other_body: Seq<char>,
)
    requires
        header_text(width, height) + body == header_text(other_width, other_height) + other_body,
    ensures
        width == other_width,
        height == other_height,
        body == other_body,
{
    let magic = seq!['P', '3', '\n'];
    let depth = seq!['2', '5', '5', '\n'];
    let text = header_text(width, height) + body;
    let other = header_text(other_width, other_height) + other_body;
    let tail = decimal(height) + seq!['\n'] + (depth + body);
    let other_tail = decimal(other_height) + seq!['\n'] + (depth + other_body);
    lemma_decimal_is_digits(width);
    lemma_decimal_is_digits(height);
    lemma_decimal_is_digits(other_width);
    lemma_decimal_is_digits(other_height);
    assert(text =~= magic + (decimal(width) + seq![' '] + tail));
    assert(other =~= magic + (decimal(other_width) + seq![' '] + other_tail));
    assert(decimal(width) + seq![' '] + tail =~= text.skip(3));
    assert(decimal(other_width) + seq![' '] + other_tail =~= other.skip(3));
    lemma_digits_then_stop(decimal(width), ' ', tail, decimal(other_width), ' ', other_tail);
    lemma_decimal_is_injective(width, other_width);
    lemma_digits_then_stop(
        decimal(height),
        '\n',
        depth + body,
        decimal(other_height),
        '\n',
        depth + other_body,
    );
    lemma_decimal_is_injective(height, other_height);
    assert(body =~= (depth + body).skip(4));
    assert(other_body =~= (depth + other_body).skip(4));
}

/// An image text tells the canvas it was made from: two grids of pixels,
/// each with as many pixels as its size asks for, that have the same image
/// text have the same size and the same pixels.
pub proof fn lemma_image_decides_canvas(
    pixels: Seq<TrueColor>,
    width: nat,
    height: nat,
    other_pixels: Seq<TrueColor>,
    other_width: nat,
    other_height: nat,
)
    requires
        pixels.len() == width * height,
        other_pixels.len() == other_width * other_height,
        image_text(pixels, width, height) == image_text(other_pixels, other_width, other_height),
    ensures
        width == other_width,
        height == other_height,
        pixels == other_pixels,
{
    let body = body_text(pixels, width, height);
    let other_body = body_text(other_pixels, other_width, other_height);
    lemma_header_is_injective(width, height, body, other_width, other_height, other_body);
    assert(height * width == width * height) by (nonlinear_arith);
    lemma_body_spells_pixels(pixels, width, height);
    lemma_body_spells_pixels(other_pixels, width, height);
    assert(pixels.take((height * width) as int) =~= pixels);
    assert(other_pixels.take((height * width) as int) =~= other_pixels);
    lemma_pixel_tokens_are_numbers(pixels);
    lemma_pixel_tokens_are_numbers(other_pixels);
    assert forall|k: int| 0 <= k < pixel_tokens(pixels).len() implies is_word(
        #[trigger] pixel_tokens(pixels)[k],
    ) by {
        assert(is_number(pixel_tokens(pixels)[k]));
    }
    assert forall|k: int| 0 <= k < pixel_tokens(other_pixels).len() implies is_word(
        #[trigger] pixel_tokens(other_pixels)[k],
    ) by {
        assert(is_number(pixel_tokens(other_pixels)[k]));
    }
    lemma_spelling_is_unique(body, pixel_tokens(pixels), pixel_tokens(other_pixels));
    lemma_pixel_tokens_are_injective(pixels, other_pixels);
}

/// The image text depends on nothing but the size and the pixels: two
/// canvases that agree in these have the same image text.
pub proof fn lemma_image_is_determined(a: Canvas<TrueColor>, b: Canvas<TrueColor>)
    requires
        a.width() == b.width(),
        a.height() == b.height(),
        a@ == b@,
    ensures
        image_text(a@, a.width() as nat, a.height() as nat) == image_text(
            b@,
            b.width() as nat,
            b.height() as nat,
        ),
{
}

} // verus!
