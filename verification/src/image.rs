//! The finished image and its text form.
//!
//! A pixel is three 8-bit channels. An image is written as plain text: the
//! line `P3`, a line with width and height, a line with the largest channel
//! value, then one line of three numbers for every pixel, rows from top to
//! bottom and columns from left to right.

use crate::text::{decimal, digit_char, push_decimal};
use vstd::prelude::*;

verus! {

/// The largest value of a colour channel, as the image's third line names it.
pub const MAX_COLOR: u32 = 255;

/// A displayable colour: red, green and blue, each from 0 to `MAX_COLOR`.
#[derive(Debug, Clone, Copy, PartialEq, Eq, Structural)]
pub struct RenderColor {
    pub r: u8,
    pub g: u8,
    pub b: u8,
}

impl RenderColor {
    pub fn new(r: u8, g: u8, b: u8) -> (color: Self)
        ensures
            color == (RenderColor { r, g, b }),
    {
        RenderColor { r, g, b }
    }

    /// The colour's line in the image text: the three channels in decimal,
    /// separated by single spaces and ended by a line feed.
    pub open spec fn line(self) -> Seq<char> {
        decimal(self.r as nat) + seq![' '] + decimal(self.g as nat) + seq![' '] + decimal(
            self.b as nat,
        ) + seq!['\n']
    }

    /// Appends the colour's line to `out`.
    pub fn push_line(&self, out: &mut String)
        ensures
            final(out)@ == old(out)@ + self.line(),
    {
        proof {
            reveal_strlit(" ");
            reveal_strlit("\n");
        }
        push_decimal(out, self.r as u128);
        out.append(" ");
        push_decimal(out, self.g as u128);
        out.append(" ");
        push_decimal(out, self.b as u128);
        out.append("\n");
        assert(out@ =~= old(out)@ + self.line());
    }

    /// The colour's line in the image text.
    pub fn to_line(&self) -> (s: String)
        ensures
            s@ == self.line(),
    {
        let mut s = String::new();
        self.push_line(&mut s);
        s
    }
}

/// The three lines that open the text of an image of the given size.
pub open spec fn header(width: nat, height: nat) -> Seq<char> {
    seq!['P', '3', '\n'] + decimal(width) + seq![' '] + decimal(height) + seq!['\n'] + decimal(
        MAX_COLOR as nat,
    ) + seq!['\n']
}

/// The lines of `pixels`, one after the other.
pub open spec fn body(pixels: Seq<RenderColor>) -> Seq<char>
    decreases pixels.len(),
{
    if pixels.len() == 0 {
        Seq::empty()
    } else {
        body(pixels.drop_last()) + pixels.last().line()
    }
}

/// The header of an image of the given size.
pub fn ppm_header(width: u32, height: u32) -> (s: String)
    ensures
        s@ == header(width as nat, height as nat),
{
    proof {
        reveal_strlit("P3\n");
        reveal_strlit(" ");
        reveal_strlit("\n");
    }
    let mut s = String::from_str("P3\n");
    push_decimal(&mut s, width as u128);
    s.append(" ");
    push_decimal(&mut s, height as u128);
    s.append("\n");
    push_decimal(&mut s, MAX_COLOR as u128);
    s.append("\n");
    assert(s@ =~= header(width as nat, height as nat));
    s
}

/// Appends the lines of `pixels` to `out`, in order.
pub fn push_body(out: &mut String, pixels: &Vec<RenderColor>)
    ensures
        final(out)@ == old(out)@ + body(pixels@),
{
    let mut i: usize = 0;
    assert(pixels@.take(0) =~= Seq::<RenderColor>::empty());
    assert(out@ =~= old(out)@ + body(pixels@.take(0)));
    while i < pixels.len()
        invariant
            i <= pixels.len(),
            out@ == old(out)@ + body(pixels@.take(i as int)),
        decreases pixels.len() - i,
    {
        pixels[i].push_line(out);
        proof {
            let next = pixels@.take(i + 1);
            assert(next.drop_last() =~= pixels@.take(i as int));
            assert(next.last() == pixels@[i as int]);
            assert(out@ =~= old(out)@ + body(next));
        }
        i = i + 1;
    }
    assert(pixels@.take(pixels.len() as int) =~= pixels@);
}

/// The number of line feeds in a text, which is the number of its lines
/// when it ends in one.
pub open spec fn line_feeds(text: Seq<char>) -> nat
    decreases text.len(),
{
    if text.len() == 0 {
        0
    } else {
        line_feeds(text.drop_last()) + if text.last() == '\n' {
            1nat
        } else {
            0nat
        }
    }
}

/// The line feeds of two texts add up when the texts are joined.
pub proof fn lemma_line_feeds_add(a: Seq<char>, b: Seq<char>)
    ensures
        line_feeds(a + b) == line_feeds(a) + line_feeds(b),
    decreases b.len(),
{
    if b.len() == 0 {
        assert(a + b =~= a);
    } else {
        lemma_line_feeds_add(a, b.drop_last());
        assert((a + b).drop_last() =~= a + b.drop_last());
        assert((a + b).last() == b.last());
    }
}

/// A numeral holds no line feed.
pub proof fn lemma_numeral_is_one_line(n: nat)
    ensures
        line_feeds(decimal(n)) == 0,
    decreases n,
{
    if n < 10 {
        assert(decimal(n).drop_last() =~= Seq::<char>::empty());
        assert(decimal(n).last() == digit_char(n));
        assert(line_feeds(Seq::<char>::empty()) == 0);
    } else {
        lemma_numeral_is_one_line(n / 10);
        assert(decimal(n).drop_last() =~= decimal(n / 10));
        assert(decimal(n).last() == digit_char(n % 10));
    }
}

/// A text of one character that is not a line feed holds none, and the line
/// feed alone holds one.
proof fn lemma_line_feeds_of_one(c: char)
    ensures
        line_feeds(seq![c]) == if c == '\n' {
            1nat
        } else {
            0nat
        },
{
    assert(seq![c].drop_last() =~= Seq::<char>::empty());
    assert(seq![c].last() == c);
    assert(line_feeds(Seq::<char>::empty()) == 0);
}

/// A pixel's line is one line.
pub proof fn lemma_pixel_is_one_line(color: RenderColor)
    ensures
        line_feeds(color.line()) == 1,
        color.line().last() == '\n',
{
    lemma_numeral_is_one_line(color.r as nat);
    lemma_numeral_is_one_line(color.g as nat);
    lemma_numeral_is_one_line(color.b as nat);
    lemma_line_feeds_of_one(' ');
    lemma_line_feeds_of_one('\n');
    let r = decimal(color.r as nat);
    let g = decimal(color.g as nat);
    let b = decimal(color.b as nat);
    lemma_line_feeds_add(r, seq![' ']);
    lemma_line_feeds_add(r + seq![' '], g);
    lemma_line_feeds_add(r + seq![' '] + g, seq![' ']);
    lemma_line_feeds_add(r + seq![' '] + g + seq![' '], b);
    lemma_line_feeds_add(r + seq![' '] + g + seq![' '] + b, seq!['\n']);
}

/// The text of an image is made of lines, three for the header and one for
/// every pixel: in all, three more than the image has pixels.
pub proof fn lemma_image_text_lines(width: nat, height: nat, pixels: Seq<RenderColor>)
    ensures
        line_feeds(header(width, height)) == 3,
        line_feeds(body(pixels)) == pixels.len(),
        line_feeds(header(width, height) + body(pixels)) == 3 + pixels.len(),
        (header(width, height) + body(pixels)).last() == '\n',
    decreases pixels.len(),
{
    lemma_numeral_is_one_line(width);
    lemma_numeral_is_one_line(height);
    lemma_numeral_is_one_line(MAX_COLOR as nat);
    lemma_line_feeds_of_one(' ');
    lemma_line_feeds_of_one('\n');
    lemma_line_feeds_of_one('P');
    lemma_line_feeds_of_one('3');
    let magic = seq!['P', '3', '\n'];
    assert(magic =~= seq!['P'] + seq!['3'] + seq!['\n']);
    lemma_line_feeds_add(seq!['P'], seq!['3']);
    lemma_line_feeds_add(seq!['P'] + seq!['3'], seq!['\n']);
    let w = decimal(width);
    let h = decimal(height);
    let m = decimal(MAX_COLOR as nat);
    lemma_line_feeds_add(magic, w);
    lemma_line_feeds_add(magic + w, seq![' ']);
    lemma_line_feeds_add(magic + w + seq![' '], h);
    lemma_line_feeds_add(magic + w + seq![' '] + h, seq!['\n']);
    lemma_line_feeds_add(magic + w + seq![' '] + h + seq!['\n'], m);
    lemma_line_feeds_add(magic + w + seq![' '] + h + seq!['\n'] + m, seq!['\n']);
    if pixels.len() > 0 {
        lemma_image_text_lines(width, height, pixels.drop_last());
        lemma_pixel_is_one_line(pixels.last());
        lemma_line_feeds_add(body(pixels.drop_last()), pixels.last().line());
    }
    lemma_line_feeds_add(header(width, height), body(pixels));
}

/// The product of two 32-bit numbers fits in 64 bits.
pub proof fn lemma_u32_product(a: u32, b: u32)
    ensures
        0 <= a * b <= 0xFFFF_FFFE_0000_0001,
{
    assert(0 <= a * b <= 0xFFFF_FFFE_0000_0001) by (nonlinear_arith)
        requires
            0 <= a <= 0xFFFF_FFFF,
            0 <= b <= 0xFFFF_FFFF,
    ;
}

/// A complete image: `height` rows of `width` pixels each, held row after
/// row from the top.
pub struct Image {
    width: u32,
    height: u32,
    pixels: Vec<RenderColor>,
}

impl Image {
    #[verifier::type_invariant]
    spec fn well_formed(self) -> bool {
        self.pixels@.len() == self.width * self.height
    }

    pub closed spec fn spec_width(&self) -> u32 {
        self.width
    }

    pub closed spec fn spec_height(&self) -> u32 {
        self.height
    }

    /// The image's pixels, row after row.
    pub closed spec fn view(self) -> Seq<RenderColor> {
        self.pixels@
    }

    /// An image of the given size from its pixels, if there are exactly
    /// `width * height` of them.
    pub fn new(width: u32, height: u32, pixels: Vec<RenderColor>) -> (image: Option<Self>)
        ensures
            image is Some <==> pixels@.len() == width * height,
            image matches Some(img) ==> img.spec_width() == width && img.spec_height() == height
                && img@ == pixels@,
    {
        proof {
            lemma_u32_product(width, height);
        }
        let expected: u64 = (width as u64) * (height as u64);
        if pixels.len() as u64 == expected {
            Some(Image { width, height, pixels })
        } else {
            None
        }
    }

    #[verifier::when_used_as_spec(spec_width)]
    pub fn width(&self) -> (w: u32)
        ensures
            w == self.spec_width(),
    {
        self.width
    }

    #[verifier::when_used_as_spec(spec_height)]
    pub fn height(&self) -> (h: u32)
        ensures
            h == self.spec_height(),
    {
        self.height
    }

    /// The image's pixels, row after row.
    pub fn pixels(&self) -> (pixels: &Vec<RenderColor>)
        ensures
            pixels@ == self@,
            pixels@.len() == self.spec_width() * self.spec_height(),
    {
        proof {
            use_type_invariant(self);
        }
        &self.pixels
    }

    /// The pixel in column `col` of row `row`.
    pub fn pixel(&self, row: u32, col: u32) -> (pixel: Option<RenderColor>)
        ensures
            pixel == if row < self.spec_height() && col < self.spec_width() {
                Some(self@[row * self.spec_width() + col])
            } else {
                None
            },
    {
        proof {
            use_type_invariant(self);
        }
        if row < self.height && col < self.width {
            proof {
                lemma_u32_product(row, self.width);
                assert(row * self.width + col < self.width * self.height) by (nonlinear_arith)
                    requires
                        row < self.height,
                        col < self.width,
                ;
            }
            let index: u64 = (row as u64) * (self.width as u64) + (col as u64);
            let len = self.pixels.len();
            assert(index < len);
            Some(self.pixels[index as usize])
        } else {
            None
        }
    }

    /// The whole text of the image: header, then every pixel's line; three
    /// lines and one for each of the `width * height` pixels.
    pub fn to_ppm(&self) -> (s: String)
        ensures
            s@ == header(self.spec_width() as nat, self.spec_height() as nat) + body(self@),
            line_feeds(s@) == 3 + self.spec_width() * self.spec_height(),
    {
        proof {
            use_type_invariant(self);
            lemma_image_text_lines(self.width as nat, self.height as nat, self.pixels@);
        }
        let mut s = ppm_header(self.width, self.height);
        push_body(&mut s, &self.pixels);
        s
    }
}

} // verus!
