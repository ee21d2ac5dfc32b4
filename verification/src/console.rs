//! The text console drawn on the boot framebuffer.
use vstd::prelude::*;

use crate::graphics::{
    in_pixel, layout_valid, lemma_offset_fits, painted, pixel_offset, visible, Color, FrameInfo, PixelFormat, lemma_pixel_written, lemma_pixels_apart, shows};
use vstd::string::StrSliceExecFns;

verus! {

/// The background colour of the console.
pub open spec fn background() -> Color {
    Color { r: 4, g: 12, b: 28 }
}

/// The text colour of the console.
pub open spec fn foreground() -> Color {
    Color { r: 40, g: 220, b: 230 }
}

/// The rows of the 5-by-7 glyph of `c`, top first, most significant of the five
/// bits leftmost; letters in either case share a glyph, and a character without
/// one shows a box with a question mark.
pub open spec fn spec_glyph(c: char) -> [u8; 7] {
    match c {
        'A' | 'a' => [0x0E, 0x11, 0x11, 0x1F, 0x11, 0x11, 0x11],
        'B' | 'b' => [0x1E, 0x11, 0x11, 0x1E, 0x11, 0x11, 0x1E],
        'C' | 'c' => [0x0F, 0x10, 0x10, 0x10, 0x10, 0x10, 0x0F],
        'D' | 'd' => [0x1E, 0x11, 0x11, 0x11, 0x11, 0x11, 0x1E],
        'E' | 'e' => [0x1F, 0x10, 0x10, 0x1E, 0x10, 0x10, 0x1F],
        'F' | 'f' => [0x1F, 0x10, 0x10, 0x1E, 0x10, 0x10, 0x10],
        'G' | 'g' => [0x0F, 0x10, 0x10, 0x17, 0x11, 0x11, 0x0F],
        'H' | 'h' => [0x11, 0x11, 0x11, 0x1F, 0x11, 0x11, 0x11],
        'I' | 'i' => [0x1F, 0x04, 0x04, 0x04, 0x04, 0x04, 0x1F],
        'J' | 'j' => [0x07, 0x02, 0x02, 0x02, 0x12, 0x12, 0x0C],
        'K' | 'k' => [0x11, 0x12, 0x14, 0x18, 0x14, 0x12, 0x11],
        'L' | 'l' => [0x10, 0x10, 0x10, 0x10, 0x10, 0x10, 0x1F],
        'M' | 'm' => [0x11, 0x1B, 0x15, 0x15, 0x11, 0x11, 0x11],
        'N' | 'n' => [0x11, 0x19, 0x15, 0x13, 0x11, 0x11, 0x11],
        'O' | 'o' => [0x0E, 0x11, 0x11, 0x11, 0x11, 0x11, 0x0E],
        'P' | 'p' => [0x1E, 0x11, 0x11, 0x1E, 0x10, 0x10, 0x10],
        'Q' | 'q' => [0x0E, 0x11, 0x11, 0x11, 0x15, 0x12, 0x0D],
        'R' | 'r' => [0x1E, 0x11, 0x11, 0x1E, 0x14, 0x12, 0x11],
        'S' | 's' => [0x0F, 0x10, 0x10, 0x0E, 0x01, 0x01, 0x1E],
        'T' | 't' => [0x1F, 0x04, 0x04, 0x04, 0x04, 0x04, 0x04],
        'U' | 'u' => [0x11, 0x11, 0x11, 0x11, 0x11, 0x11, 0x0E],
        'V' | 'v' => [0x11, 0x11, 0x11, 0x11, 0x11, 0x0A, 0x04],
        'W' | 'w' => [0x11, 0x11, 0x11, 0x15, 0x15, 0x15, 0x0A],
        'X' | 'x' => [0x11, 0x11, 0x0A, 0x04, 0x0A, 0x11, 0x11],
        'Y' | 'y' => [0x11, 0x11, 0x0A, 0x04, 0x04, 0x04, 0x04],
        'Z' | 'z' => [0x1F, 0x01, 0x02, 0x04, 0x08, 0x10, 0x1F],
        '0' => [0x0E, 0x11, 0x13, 0x15, 0x19, 0x11, 0x0E],
        '1' => [0x04, 0x0C, 0x04, 0x04, 0x04, 0x04, 0x0E],
        '2' => [0x0E, 0x11, 0x01, 0x02, 0x04, 0x08, 0x1F],
        '3' => [0x1E, 0x01, 0x01, 0x0E, 0x01, 0x01, 0x1E],
        '4' => [0x02, 0x06, 0x0A, 0x12, 0x1F, 0x02, 0x02],
        '5' => [0x1F, 0x10, 0x10, 0x1E, 0x01, 0x01, 0x1E],
        '6' => [0x0E, 0x10, 0x10, 0x1E, 0x11, 0x11, 0x0E],
        '7' => [0x1F, 0x01, 0x02, 0x04, 0x08, 0x08, 0x08],
        '8' => [0x0E, 0x11, 0x11, 0x0E, 0x11, 0x11, 0x0E],
        '9' => [0x0E, 0x11, 0x11, 0x0F, 0x01, 0x01, 0x0E],
        ':' => [0x00, 0x04, 0x04, 0x00, 0x04, 0x04, 0x00],
        '.' => [0x00, 0x00, 0x00, 0x00, 0x00, 0x0C, 0x0C],
        '>' => [0x10, 0x08, 0x04, 0x02, 0x04, 0x08, 0x10],
        '<' => [0x01, 0x02, 0x04, 0x08, 0x04, 0x02, 0x01],
        '-' => [0x00, 0x00, 0x00, 0x1F, 0x00, 0x00, 0x00],
        '_' => [0x00, 0x00, 0x00, 0x00, 0x00, 0x00, 0x1F],
        '!' => [0x04, 0x04, 0x04, 0x04, 0x04, 0x00, 0x04],
        '?' => [0x0E, 0x11, 0x01, 0x02, 0x04, 0x00, 0x04],
        '/' => [0x01, 0x02, 0x02, 0x04, 0x08, 0x08, 0x10],
        '=' => [0x00, 0x1F, 0x00, 0x1F, 0x00, 0x00, 0x00],
        '+' => [0x00, 0x04, 0x04, 0x1F, 0x04, 0x04, 0x00],
        ',' => [0x00, 0x00, 0x00, 0x00, 0x04, 0x04, 0x08],
        ' ' => [0, 0, 0, 0, 0, 0, 0],
        _ => [0x1F, 0x11, 0x02, 0x04, 0x04, 0x00, 0x04],
    }
}

/// The characters the font draws with a glyph of their own, upper case taken for both
/// cases: letters, digits, the space and the marks `: . > < - _ ! ? / = + ,`.
pub open spec fn font_char(c: char) -> bool {
    ('A' <= c && c <= 'Z') || ('0' <= c && c <= '9') || c == ' ' || c == ':' || c == '.' || c
        == '>' || c == '<' || c == '-' || c == '_' || c == '!' || c == '?' || c == '/' || c == '='
        || c == '+' || c == ','
}

/// The seven five-bit rows of a glyph read as one number, top row most significant.
spec fn glyph_number(rows: [u8; 7]) -> int {
    rows[0] * 0x4000_0000 + rows[1] * 0x200_0000 + rows[2] * 0x10_0000 + rows[3] * 0x8000
        + rows[4] * 0x400 + rows[5] * 0x20 + rows[6]
}

/// The font character whose glyph reads as `number`, if any.
spec fn glyph_owner(number: int) -> Option<char> {
    if number == 0x3a31fc631 {
        Some('A')
    } else if number == 0x7a31f463e {
        Some('B')
    } else if number == 0x3e108420f {
        Some('C')
    } else if number == 0x7a318c63e {
        Some('D')
    } else if number == 0x7e10f421f {
        Some('E')
    } else if number == 0x7e10f4210 {
        Some('F')
    } else if number == 0x3e10bc62f {
        Some('G')
    } else if number == 0x4631fc631 {
        Some('H')
    } else if number == 0x7c842109f {
        Some('I')
    } else if number == 0x1c4214a4c {
        Some('J')
    } else if number == 0x4654c5251 {
        Some('K')
    } else if number == 0x42108421f {
        Some('L')
    } else if number == 0x4775ac631 {
        Some('M')
    } else if number == 0x47359c631 {
        Some('N')
    } else if number == 0x3a318c62e {
        Some('O')
    } else if number == 0x7a31f4210 {
        Some('P')
    } else if number == 0x3a318d64d {
        Some('Q')
    } else if number == 0x7a31f5251 {
        Some('R')
    } else if number == 0x3e107043e {
        Some('S')
    } else if number == 0x7c8421084 {
        Some('T')
    } else if number == 0x46318c62e {
        Some('U')
    } else if number == 0x46318c544 {
        Some('V')
    } else if number == 0x4631ad6aa {
        Some('W')
    } else if number == 0x462a22a31 {
        Some('X')
    } else if number == 0x462a21084 {
        Some('Y')
    } else if number == 0x7c222221f {
        Some('Z')
    } else if number == 0x3a33ae62e {
        Some('0')
    } else if number == 0x11842108e {
        Some('1')
    } else if number == 0x3a211111f {
        Some('2')
    } else if number == 0x78217043e {
        Some('3')
    } else if number == 0x8ca97c42 {
        Some('4')
    } else if number == 0x7e10f043e {
        Some('5')
    } else if number == 0x3a10f462e {
        Some('6')
    } else if number == 0x7c2222108 {
        Some('7')
    } else if number == 0x3a317462e {
        Some('8')
    } else if number == 0x3a317842e {
        Some('9')
    } else if number == 0x8401080 {
        Some(':')
    } else if number == 0x18c {
        Some('.')
    } else if number == 0x410411110 {
        Some('>')
    } else if number == 0x44441041 {
        Some('<')
    } else if number == 0xf8000 {
        Some('-')
    } else if number == 0x1f {
        Some('_')
    } else if number == 0x108421004 {
        Some('!')
    } else if number == 0x3a2111004 {
        Some('?')
    } else if number == 0x44222110 {
        Some('/')
    } else if number == 0x3e0f8000 {
        Some('=')
    } else if number == 0x84f9080 {
        Some('+')
    } else if number == 0x1088 {
        Some(',')
    } else if number == 0x0 {
        Some(' ')
    } else {
        None
    }
}

/// A font character's glyph leads back to it; any other character that is not a
/// lower-case letter gets a glyph that belongs to no font character.
proof fn lemma_glyph_owner(c: char)
    ensures
        font_char(c) ==> glyph_owner(glyph_number(spec_glyph(c))) == Some(c),
        !font_char(c) && !('a' <= c && c <= 'z') ==> glyph_owner(glyph_number(spec_glyph(c))) is None,
{
}

/// Distinct font characters get distinct glyphs, and none of them looks like the box
/// that a character without a glyph of its own is drawn as.
pub proof fn law_glyphs_distinct(a: char, b: char)
    requires
        font_char(a),
        a != b,
        font_char(b) || !('a' <= b && b <= 'z'),
    ensures
        spec_glyph(a) != spec_glyph(b),
{
    lemma_glyph_owner(a);
    lemma_glyph_owner(b);
}

/// A lower-case letter is drawn with the glyph of its upper-case letter.
pub proof fn law_glyph_ignores_case(c: char)
    requires
        'a' <= c && c <= 'z',
    ensures
        spec_glyph(c) == spec_glyph(((c as u32) - 32) as char),
{
}

/// A five-dot glyph row seen in a mirror: its leftmost dot becomes its rightmost.
pub open spec fn mirrored_row(row: u8) -> int {
    (row % 2) * 16 + ((row / 2) % 2) * 8 + ((row / 4) % 2) * 4 + ((row / 8) % 2) * 2 + (row / 16)
        % 2
}

/// The letters with a vertical axis of symmetry, A H I M O T U V W X Y, are drawn
/// left-right symmetric, and `<` is drawn as `>` seen in a mirror.
pub proof fn law_mirror_symmetric_glyphs(c: char, row: int)
    requires
        c == 'A' || c == 'H' || c == 'I' || c == 'M' || c == 'O' || c == 'T' || c == 'U' || c
            == 'V' || c == 'W' || c == 'X' || c == 'Y',
        0 <= row < 7,
    ensures
        mirrored_row(spec_glyph(c)[row]) == spec_glyph(c)[row],
        mirrored_row(spec_glyph('>')[row]) == spec_glyph('<')[row],
{
}

pub fn glyph(c: char) -> (rows: [u8; 7])
    ensures
        rows == spec_glyph(c),
{
    match c {
        'A' | 'a' => [0x0E, 0x11, 0x11, 0x1F, 0x11, 0x11, 0x11],
        'B' | 'b' => [0x1E, 0x11, 0x11, 0x1E, 0x11, 0x11, 0x1E],
        'C' | 'c' => [0x0F, 0x10, 0x10, 0x10, 0x10, 0x10, 0x0F],
        'D' | 'd' => [0x1E, 0x11, 0x11, 0x11, 0x11, 0x11, 0x1E],
        'E' | 'e' => [0x1F, 0x10, 0x10, 0x1E, 0x10, 0x10, 0x1F],
        'F' | 'f' => [0x1F, 0x10, 0x10, 0x1E, 0x10, 0x10, 0x10],
        'G' | 'g' => [0x0F, 0x10, 0x10, 0x17, 0x11, 0x11, 0x0F],
        'H' | 'h' => [0x11, 0x11, 0x11, 0x1F, 0x11, 0x11, 0x11],
        'I' | 'i' => [0x1F, 0x04, 0x04, 0x04, 0x04, 0x04, 0x1F],
        'J' | 'j' => [0x07, 0x02, 0x02, 0x02, 0x12, 0x12, 0x0C],
        'K' | 'k' => [0x11, 0x12, 0x14, 0x18, 0x14, 0x12, 0x11],
        'L' | 'l' => [0x10, 0x10, 0x10, 0x10, 0x10, 0x10, 0x1F],
        'M' | 'm' => [0x11, 0x1B, 0x15, 0x15, 0x11, 0x11, 0x11],
        'N' | 'n' => [0x11, 0x19, 0x15, 0x13, 0x11, 0x11, 0x11],
        'O' | 'o' => [0x0E, 0x11, 0x11, 0x11, 0x11, 0x11, 0x0E],
        'P' | 'p' => [0x1E, 0x11, 0x11, 0x1E, 0x10, 0x10, 0x10],
        'Q' | 'q' => [0x0E, 0x11, 0x11, 0x11, 0x15, 0x12, 0x0D],
        'R' | 'r' => [0x1E, 0x11, 0x11, 0x1E, 0x14, 0x12, 0x11],
        'S' | 's' => [0x0F, 0x10, 0x10, 0x0E, 0x01, 0x01, 0x1E],
        'T' | 't' => [0x1F, 0x04, 0x04, 0x04, 0x04, 0x04, 0x04],
        'U' | 'u' => [0x11, 0x11, 0x11, 0x11, 0x11, 0x11, 0x0E],
        'V' | 'v' => [0x11, 0x11, 0x11, 0x11, 0x11, 0x0A, 0x04],
        'W' | 'w' => [0x11, 0x11, 0x11, 0x15, 0x15, 0x15, 0x0A],
        'X' | 'x' => [0x11, 0x11, 0x0A, 0x04, 0x0A, 0x11, 0x11],
        'Y' | 'y' => [0x11, 0x11, 0x0A, 0x04, 0x04, 0x04, 0x04],
        'Z' | 'z' => [0x1F, 0x01, 0x02, 0x04, 0x08, 0x10, 0x1F],
        '0' => [0x0E, 0x11, 0x13, 0x15, 0x19, 0x11, 0x0E],
        '1' => [0x04, 0x0C, 0x04, 0x04, 0x04, 0x04, 0x0E],
        '2' => [0x0E, 0x11, 0x01, 0x02, 0x04, 0x08, 0x1F],
        '3' => [0x1E, 0x01, 0x01, 0x0E, 0x01, 0x01, 0x1E],
        '4' => [0x02, 0x06, 0x0A, 0x12, 0x1F, 0x02, 0x02],
        '5' => [0x1F, 0x10, 0x10, 0x1E, 0x01, 0x01, 0x1E],
        '6' => [0x0E, 0x10, 0x10, 0x1E, 0x11, 0x11, 0x0E],
        '7' => [0x1F, 0x01, 0x02, 0x04, 0x08, 0x08, 0x08],
        '8' => [0x0E, 0x11, 0x11, 0x0E, 0x11, 0x11, 0x0E],
        '9' => [0x0E, 0x11, 0x11, 0x0F, 0x01, 0x01, 0x0E],
        ':' => [0x00, 0x04, 0x04, 0x00, 0x04, 0x04, 0x00],
        '.' => [0x00, 0x00, 0x00, 0x00, 0x00, 0x0C, 0x0C],
        '>' => [0x10, 0x08, 0x04, 0x02, 0x04, 0x08, 0x10],
        '<' => [0x01, 0x02, 0x04, 0x08, 0x04, 0x02, 0x01],
        '-' => [0x00, 0x00, 0x00, 0x1F, 0x00, 0x00, 0x00],
        '_' => [0x00, 0x00, 0x00, 0x00, 0x00, 0x00, 0x1F],
        '!' => [0x04, 0x04, 0x04, 0x04, 0x04, 0x00, 0x04],
        '?' => [0x0E, 0x11, 0x01, 0x02, 0x04, 0x00, 0x04],
        '/' => [0x01, 0x02, 0x02, 0x04, 0x08, 0x08, 0x10],
        '=' => [0x00, 0x1F, 0x00, 0x1F, 0x00, 0x00, 0x00],
        '+' => [0x00, 0x04, 0x04, 0x1F, 0x04, 0x04, 0x00],
        ',' => [0x00, 0x00, 0x00, 0x00, 0x04, 0x04, 0x08],
        ' ' => [0, 0, 0, 0, 0, 0, 0],
        _ => [0x1F, 0x11, 0x02, 0x04, 0x04, 0x00, 0x04],
    }
}

/// Text printed on a framebuffer from a cursor that advances one cell per character
/// and wraps at the right edge.
pub struct Console<'a> {
    buffer: &'a mut [u8],
    info: FrameInfo,
    cursor_x: usize,
    cursor_y: usize,
    start_x: usize,
    scale: usize,
}

impl<'a> Console<'a> {
    pub closed spec fn bytes(&self) -> Seq<u8> {
        self.buffer@
    }

    pub closed spec fn layout(&self) -> FrameInfo {
        self.info
    }

    pub closed spec fn cursor(&self) -> (usize, usize) {
        (self.cursor_x, self.cursor_y)
    }

    pub closed spec fn left_margin(&self) -> usize {
        self.start_x
    }

    pub closed spec fn spec_scale(&self) -> usize {
        self.scale
    }

    pub fn new(buffer: &'a mut [u8], info: FrameInfo, x: usize, y: usize, scale: usize) -> (console: Self)
        ensures
            console.bytes() == old(buffer)@,
            console.layout() == info,
            console.cursor() == (x, y),
            console.left_margin() == x,
            console.spec_scale() == scale,
    {
        Console { buffer, info, cursor_x: x, cursor_y: y, start_x: x, scale }
    }

    /// Colours the pixel at `(x, y)`; pixels off the screen or past the buffer are
    /// ignored.
    fn pixel(&mut self, x: usize, y: usize, color: Color)
        requires
            layout_valid(old(self).layout()),
        ensures
            final(self).layout() == old(self).layout(),
            final(self).cursor() == old(self).cursor(),
            final(self).left_margin() == old(self).left_margin(),
            final(self).spec_scale() == old(self).spec_scale(),
            final(self).bytes() == if visible(old(self).layout(), old(self).bytes().len() as int, x as int, y as int) {
                painted(old(self).bytes(), old(self).layout(), pixel_offset(old(self).layout(), x as int, y as int), color)
            } else {
                old(self).bytes()
            },
    {
        if x >= self.info.width || y >= self.info.height {
            return;
        }
        proof {
            lemma_offset_fits(self.info, x as int, y as int);
        }
        let offset = (y * self.info.stride + x) * self.info.bytes_per_pixel;
        if offset + self.info.bytes_per_pixel > self.buffer.len() {
            return;
        }
        let (first, last) = match self.info.pixel_format {
            PixelFormat::Rgb => (color.r, color.b),
            PixelFormat::Bgr => (color.b, color.r),
            PixelFormat::Other => return,
        };
        self.buffer[offset] = first;
        if self.info.bytes_per_pixel > 1 {
            self.buffer[offset + 1] = color.g;
        }
        if self.info.bytes_per_pixel > 2 {
            self.buffer[offset + 2] = last;
        }
    }

    /// Moves the cursor to the start of the next line.
    pub fn newline(&mut self)
        requires
            old(self).cursor().1 + 9 * old(self).spec_scale() <= usize::MAX,
        ensures
            final(self).cursor() == (old(self).left_margin(), (old(self).cursor().1 + 9 * old(self).spec_scale()) as usize),
            final(self).bytes() == old(self).bytes(),
            final(self).layout() == old(self).layout(),
            final(self).left_margin() == old(self).left_margin(),
            final(self).spec_scale() == old(self).spec_scale(),
    {
        self.cursor_x = self.start_x;
        self.cursor_y = self.cursor_y + 9 * self.scale;
    }
}


/// The cursor after one character at `(x, y)`: a line feed starts the next line;
/// any other character advances one cell and wraps when the next cell would reach
/// the right edge.
pub open spec fn cursor_step(x: int, y: int, c: char, start_x: int, scale: int, width: int) -> (int, int) {
    if c == '\n' {
        (start_x, y + 9 * scale)
    } else if x + 6 * scale + 6 * scale >= width {
        (start_x, y + 9 * scale)
    } else {
        (x + 6 * scale, y)
    }
}

/// The cursor after the characters `text` from `(x, y)`.
pub open spec fn cursor_after(x: int, y: int, text: Seq<char>, start_x: int, scale: int, width: int) -> (int, int)
    decreases text.len(),
{
    if text.len() == 0 {
        (x, y)
    } else {
        let prev = cursor_after(x, y, text.drop_last(), start_x, scale, width);
        cursor_step(prev.0, prev.1, text.last(), start_x, scale, width)
    }
}

/// Byte `k` belongs to a pixel of the `width` by `height` block at `(x, y)` that is
/// on the screen.
pub open spec fn in_block(info: FrameInfo, len: int, k: int, x: int, y: int, width: int, height: int) -> bool {
    exists|px: int, py: int|
        x <= px < x + width && y <= py < y + height && visible(info, len, px, py) && #[trigger] in_pixel(info, k, px, py)
}

/// Dot `col` of glyph row `r` is set in `rows`: the leftmost dot is the highest of
/// five bits.
pub open spec fn dot_set(rows: [u8; 7], r: int, col: int) -> bool {
    rows[r] & (1u8 << ((4 - col) as u8)) != 0
}

/// Every on-screen pixel of glyph cell `(r, col)` of a glyph drawn at `(x, y)` with
/// cells of `s` pixels shows `color`.
pub open spec fn cell_painted(buffer: Seq<u8>, info: FrameInfo, x: int, y: int, s: int, r: int, col: int, color: Color) -> bool {
    forall|px: int, py: int|
        x + col * s <= px < x + col * s + s && y + r * s <= py < y + r * s + s && visible(info, buffer.len() as int, px, py)
            ==> #[trigger] shows(buffer, info, px, py, color)
}

/// A pixel outside a filled block keeps what it showed when the fill left every
/// byte outside the block alone.
proof fn lemma_shows_kept(
    info: FrameInfo,
    before: Seq<u8>,
    after: Seq<u8>,
    qx: int,
    qy: int,
    color: Color,
    cx: int,
    cy: int,
    w: int,
    h: int,
)
    requires
        layout_valid(info),
        after.len() == before.len(),
        visible(info, before.len() as int, qx, qy),
        shows(before, info, qx, qy, color),
        !(cx <= qx < cx + w && cy <= qy < cy + h),
        forall|k: int|
            0 <= k < before.len() && !in_block(info, before.len() as int, k, cx, cy, w, h) ==> #[trigger] after[k]
                == before[k],
    ensures
        shows(after, info, qx, qy, color),
{
    let len = before.len() as int;
    let offset = pixel_offset(info, qx, qy);
    assert forall|k: int| offset <= k < offset + info.bytes_per_pixel implies after[k] == before[k] by {
        assert(in_pixel(info, k, qx, qy));
        if in_block(info, len, k, cx, cy, w, h) {
            let (px, py) = choose|px: int, py: int|
                cx <= px < cx + w && cy <= py < cy + h && visible(info, len, px, py) && #[trigger] in_pixel(info, k, px, py);
            lemma_pixels_apart(info, px, py, qx, qy);
        }
    }
    if info.pixel_format !is Other {
        assert(after[offset] == before[offset]);
        if info.bytes_per_pixel > 1 {
            assert(after[offset + 1] == before[offset + 1]);
        }
        if info.bytes_per_pixel > 2 {
            assert(after[offset + 2] == before[offset + 2]);
        }
    }
}

/// Cells of different columns (or rows) of a glyph do not meet.
proof fn lemma_cells_apart(a: int, b: int, s: int)
    requires
        a < b,
        s >= 0,
    ensures
        a * s + s <= b * s,
{
    assert(a * s + s <= b * s) by (nonlinear_arith)
        requires a < b, s >= 0;
}

proof fn lemma_cursor_after_bounds(x: int, y: int, text: Seq<char>, start_x: int, scale: int, width: int)
    requires
        0 <= scale,
    ensures
        y <= cursor_after(x, y, text, start_x, scale, width).1 <= y + 9 * scale * text.len(),
    decreases text.len(),
{
    if text.len() > 0 {
        lemma_cursor_after_bounds(x, y, text.drop_last(), start_x, scale, width);
        assert(9 * scale * (text.len() - 1) + 9 * scale == 9 * scale * text.len()) by (nonlinear_arith);
    }
}

impl<'a> Console<'a> {
    /// Colours the on-screen pixels of the block of `width` by `height` at `(x, y)`.
    fn fill_block(&mut self, x: usize, y: usize, width: usize, height: usize, color: Color)
        requires
            layout_valid(old(self).layout()),
            x + width <= usize::MAX,
            y + height <= usize::MAX,
        ensures
            final(self).layout() == old(self).layout(),
            final(self).cursor() == old(self).cursor(),
            final(self).left_margin() == old(self).left_margin(),
            final(self).spec_scale() == old(self).spec_scale(),
            final(self).bytes().len() == old(self).bytes().len(),
            forall|k: int|
                0 <= k < old(self).bytes().len() && !in_block(
                    old(self).layout(),
                    old(self).bytes().len() as int,
                    k,
                    x as int,
                    y as int,
                    width as int,
                    height as int,
                ) ==> #[trigger] final(self).bytes()[k] == old(self).bytes()[k],
            forall|px: int, py: int|
                x <= px < x + width && y <= py < y + height && visible(
                    old(self).layout(),
                    old(self).bytes().len() as int,
                    px,
                    py,
                ) ==> #[trigger] shows(final(self).bytes(), old(self).layout(), px, py, color),
    {
        let ghost info = self.info;
        let ghost len = self.buffer@.len() as int;
        let mut py = y;
        while py < y + height
            invariant
                self.info == info,
                self.buffer@.len() == len,
                layout_valid(info),
                y <= py <= y + height,
                x + width <= usize::MAX,
                y + height <= usize::MAX,
                self.cursor() == old(self).cursor(),
                self.left_margin() == old(self).left_margin(),
                self.spec_scale() == old(self).spec_scale(),
                forall|k: int|
                    0 <= k < len && !in_block(info, len, k, x as int, y as int, width as int, height as int)
                        ==> #[trigger] self.buffer@[k] == old(self).buffer@[k],
                forall|qx: int, qy: int|
                    x <= qx < x + width && y <= qy < py && visible(info, len, qx, qy) ==> #[trigger] shows(
                        self.buffer@,
                        info,
                        qx,
                        qy,
                        color,
                    ),
            decreases y + height - py,
        {
            let mut px = x;
            while px < x + width
                invariant
                    self.info == info,
                    self.buffer@.len() == len,
                    layout_valid(info),
                    y <= py < y + height,
                    x <= px <= x + width,
                    x + width <= usize::MAX,
                    y + height <= usize::MAX,
                    self.cursor() == old(self).cursor(),
                    self.left_margin() == old(self).left_margin(),
                    self.spec_scale() == old(self).spec_scale(),
                    forall|k: int|
                        0 <= k < len && !in_block(info, len, k, x as int, y as int, width as int, height as int)
                            ==> #[trigger] self.buffer@[k] == old(self).buffer@[k],
                forall|qx: int, qy: int|
                    x <= qx < x + width && ((y <= qy < py) || (qy == py && qx < px)) && visible(info, len, qx, qy)
                        ==> #[trigger] shows(self.buffer@, info, qx, qy, color),
                decreases x + width - px,
            {
                let ghost before = self.buffer@;
                self.pixel(px, py, color);
                proof {
                    lemma_pixel_written(info, self.buffer@, before, x as int, x + width, y as int, py as int, px as int, color);
                    assert forall|k: int|
                        0 <= k < len && !in_block(info, len, k, x as int, y as int, width as int, height as int)
                            implies #[trigger] self.buffer@[k] == old(self).buffer@[k] by {
                        if visible(info, len, px as int, py as int) {
                            assert(!in_pixel(info, k, px as int, py as int));
                            assert(self.buffer@[k] == before[k]);
                        }
                    }
                }
                px = px + 1;
            }
            py = py + 1;
        }
    }

    /// Draws the glyph of `character` in the text colour with its top left at
    /// `(x, y)`, each glyph dot a square of `scale` pixels.
    fn draw_char(&mut self, x: usize, y: usize, character: char)
        requires
            layout_valid(old(self).layout()),
            x + 5 * old(self).spec_scale() <= usize::MAX,
            y + 7 * old(self).spec_scale() <= usize::MAX,
        ensures
            final(self).layout() == old(self).layout(),
            final(self).cursor() == old(self).cursor(),
            final(self).left_margin() == old(self).left_margin(),
            final(self).spec_scale() == old(self).spec_scale(),
            final(self).bytes().len() == old(self).bytes().len(),
            forall|k: int|
                0 <= k < old(self).bytes().len() && !in_block(
                    old(self).layout(),
                    old(self).bytes().len() as int,
                    k,
                    x as int,
                    y as int,
                    5 * old(self).spec_scale(),
                    7 * old(self).spec_scale(),
                ) ==> #[trigger] final(self).bytes()[k] == old(self).bytes()[k],
            forall|r: int, col: int|
                0 <= r < 7 && 0 <= col < 5 && #[trigger] dot_set(spec_glyph(character), r, col) ==> cell_painted(
                    final(self).bytes(),
                    old(self).layout(),
                    x as int,
                    y as int,
                    old(self).spec_scale() as int,
                    r,
                    col,
                    foreground(),
                ),
    {
        let rows = glyph(character);
        let scale = self.scale;
        let ghost info = self.info;
        let ghost len = self.buffer@.len() as int;
        let mut row: usize = 0;
        while row < 7
            invariant
                self.info == info,
                self.buffer@.len() == len,
                layout_valid(info),
                self.scale == scale,
                row <= 7,
                x + 5 * scale <= usize::MAX,
                y + 7 * scale <= usize::MAX,
                self.cursor() == old(self).cursor(),
                self.left_margin() == old(self).left_margin(),
                forall|k: int|
                    0 <= k < len && !in_block(info, len, k, x as int, y as int, 5 * scale, 7 * scale)
                        ==> #[trigger] self.buffer@[k] == old(self).buffer@[k],
                rows == spec_glyph(character),
                forall|r: int, c: int|
                    0 <= r < row && 0 <= c < 5 && #[trigger] dot_set(rows, r, c) ==> cell_painted(
                        self.buffer@,
                        info,
                        x as int,
                        y as int,
                        scale as int,
                        r,
                        c,
                        foreground(),
                    ),
            decreases 7 - row,
        {
            let bits = rows[row];
            let mut col: usize = 0;
            while col < 5
                invariant
                    self.info == info,
                    self.buffer@.len() == len,
                    layout_valid(info),
                    self.scale == scale,
                    row < 7,
                    col <= 5,
                    x + 5 * scale <= usize::MAX,
                    y + 7 * scale <= usize::MAX,
                    self.cursor() == old(self).cursor(),
                    self.left_margin() == old(self).left_margin(),
                    forall|k: int|
                        0 <= k < len && !in_block(info, len, k, x as int, y as int, 5 * scale, 7 * scale)
                            ==> #[trigger] self.buffer@[k] == old(self).buffer@[k],
                    rows == spec_glyph(character),
                    bits == rows[row as int],
                    forall|r: int, c: int|
                        0 <= r < 7 && 0 <= c < 5 && (r < row || (r == row && c < col)) && #[trigger] dot_set(rows, r, c)
                            ==> cell_painted(self.buffer@, info, x as int, y as int, scale as int, r, c, foreground()),
                decreases 5 - col,
            {
                let shift: u8 = (4 - col) as u8;
                if bits & (1u8 << shift) != 0 {
                    proof {
                        assert(col * scale + scale <= 5 * scale) by (nonlinear_arith)
                            requires col < 5;
                        assert(row * scale + scale <= 7 * scale) by (nonlinear_arith)
                            requires row < 7;
                    }
                    let cell_x = x + col * scale;
                    let cell_y = y + row * scale;
                    let ghost before = self.buffer@;
                    self.fill_block(cell_x, cell_y, scale, scale, foreground_color());
                    proof {
                        assert forall|k: int|
                            0 <= k < len && !in_block(info, len, k, x as int, y as int, 5 * scale, 7 * scale)
                                implies #[trigger] self.buffer@[k] == old(self).buffer@[k] by {
                            if in_block(info, len, k, cell_x as int, cell_y as int, scale as int, scale as int) {
                                let (px, py) = choose|px: int, py: int|
                                    cell_x <= px < cell_x + scale && cell_y <= py < cell_y + scale && visible(info, len, px, py)
                                        && #[trigger] in_pixel(info, k, px, py);
                                assert(x <= px < x + 5 * scale && y <= py < y + 7 * scale);
                            }
                            assert(self.buffer@[k] == before[k]);
                        }
                        assert forall|r: int, c: int|
                            0 <= r < 7 && 0 <= c < 5 && (r < row || (r == row && c < col + 1)) && #[trigger] dot_set(
                                rows,
                                r,
                                c,
                            ) implies cell_painted(self.buffer@, info, x as int, y as int, scale as int, r, c, foreground()) by {
                            if r == row && c == col {
                                assert forall|px: int, py: int|
                                    x + c * scale <= px < x + c * scale + scale && y + r * scale <= py < y + r * scale
                                        + scale && visible(info, len, px, py) implies #[trigger] shows(
                                    self.buffer@,
                                    info,
                                    px,
                                    py,
                                    foreground(),
                                ) by {}
                            } else {
                                assert(cell_painted(before, info, x as int, y as int, scale as int, r, c, foreground()));
                                assert forall|px: int, py: int|
                                    x + c * scale <= px < x + c * scale + scale && y + r * scale <= py < y + r * scale
                                        + scale && visible(info, len, px, py) implies #[trigger] shows(
                                    self.buffer@,
                                    info,
                                    px,
                                    py,
                                    foreground(),
                                ) by {
                                    assert(shows(before, info, px, py, foreground()));
                                    if r < row {
                                        lemma_cells_apart(r, row as int, scale as int);
                                    } else {
                                        lemma_cells_apart(c, col as int, scale as int);
                                    }
                                    lemma_shows_kept(
                                        info,
                                        before,
                                        self.buffer@,
                                        px,
                                        py,
                                        foreground(),
                                        cell_x as int,
                                        cell_y as int,
                                        scale as int,
                                        scale as int,
                                    );
                                }
                            }
                        }
                    }
                }
                col = col + 1;
            }
            row = row + 1;
        }
    }

    /// Draws `character` at the cursor and advances it; a line feed only moves to
    /// the next line.
    pub fn put_char(&mut self, character: char)
        requires
            layout_valid(old(self).layout()),
            old(self).cursor().0 + 12 * old(self).spec_scale() <= usize::MAX,
            old(self).cursor().1 + 9 * old(self).spec_scale() <= usize::MAX,
        ensures
            final(self).layout() == old(self).layout(),
            final(self).left_margin() == old(self).left_margin(),
            final(self).spec_scale() == old(self).spec_scale(),
            final(self).bytes().len() == old(self).bytes().len(),
            final(self).cursor().0 as int == cursor_step(
                old(self).cursor().0 as int,
                old(self).cursor().1 as int,
                character,
                old(self).left_margin() as int,
                old(self).spec_scale() as int,
                old(self).layout().width as int,
            ).0,
            final(self).cursor().1 as int == cursor_step(
                old(self).cursor().0 as int,
                old(self).cursor().1 as int,
                character,
                old(self).left_margin() as int,
                old(self).spec_scale() as int,
                old(self).layout().width as int,
            ).1,
            forall|k: int|
                0 <= k < old(self).bytes().len() && !(character != '\n' && in_block(
                    old(self).layout(),
                    old(self).bytes().len() as int,
                    k,
                    old(self).cursor().0 as int,
                    old(self).cursor().1 as int,
                    5 * old(self).spec_scale(),
                    7 * old(self).spec_scale(),
                )) ==> #[trigger] final(self).bytes()[k] == old(self).bytes()[k],
    {
        if character == '\n' {
            self.newline();
            return;
        }
        self.draw_char(self.cursor_x, self.cursor_y, character);
        self.cursor_x = self.cursor_x + 6 * self.scale;
        if self.cursor_x + 6 * self.scale >= self.info.width {
            self.newline();
        }
    }

    /// Prints every character of `text`.
    pub fn print(&mut self, text: &str)
        requires
            layout_valid(old(self).layout()),
            old(self).cursor().0 + 12 * old(self).spec_scale() <= usize::MAX,
            old(self).left_margin() + 12 * old(self).spec_scale() <= usize::MAX,
            old(self).layout().width + 12 * old(self).spec_scale() <= usize::MAX,
            old(self).cursor().1 + 9 * old(self).spec_scale() * (text@.len() + 1) <= usize::MAX,
        ensures
            final(self).layout() == old(self).layout(),
            final(self).left_margin() == old(self).left_margin(),
            final(self).spec_scale() == old(self).spec_scale(),
            final(self).bytes().len() == old(self).bytes().len(),
            final(self).cursor().0 as int == cursor_after(
                old(self).cursor().0 as int,
                old(self).cursor().1 as int,
                text@,
                old(self).left_margin() as int,
                old(self).spec_scale() as int,
                old(self).layout().width as int,
            ).0,
            final(self).cursor().1 as int == cursor_after(
                old(self).cursor().0 as int,
                old(self).cursor().1 as int,
                text@,
                old(self).left_margin() as int,
                old(self).spec_scale() as int,
                old(self).layout().width as int,
            ).1,
    {
        let n = text.unicode_len();
        let scale = self.scale;
        let ghost x0 = self.cursor_x as int;
        let ghost y0 = self.cursor_y as int;
        let mut i: usize = 0;
        while i < n
            invariant
                n == text@.len(),
                i <= n,
                layout_valid(self.info),
                self.info == old(self).info,
                self.start_x == old(self).start_x,
                self.scale == scale,
                scale == old(self).scale,
                self.buffer@.len() == old(self).buffer@.len(),
                self.cursor_x + 12 * scale <= usize::MAX,
                self.start_x + 12 * scale <= usize::MAX,
                self.info.width + 12 * scale <= usize::MAX,
                y0 + 9 * scale * (n + 1) <= usize::MAX,
                (self.cursor_x as int, self.cursor_y as int) == cursor_after(
                    x0,
                    y0,
                    text@.subrange(0, i as int),
                    self.start_x as int,
                    scale as int,
                    self.info.width as int,
                ),
            decreases n - i,
        {
            proof {
                lemma_cursor_after_bounds(x0, y0, text@.subrange(0, i as int), self.start_x as int, scale as int, self.info.width as int);
                assert(9 * scale * i + 9 * scale <= 9 * scale * (n + 1)) by (nonlinear_arith)
                    requires i < n;
            }
            let c = text.get_char(i);
            self.put_char(c);
            proof {
                assert(text@.subrange(0, i + 1).drop_last() =~= text@.subrange(0, i as int));
            }
            i = i + 1;
        }
        proof {
            assert(text@.subrange(0, n as int) =~= text@);
        }
    }

    /// Prints `text` and moves to the next line.
    pub fn println(&mut self, text: &str)
        requires
            layout_valid(old(self).layout()),
            old(self).cursor().0 + 12 * old(self).spec_scale() <= usize::MAX,
            old(self).left_margin() + 12 * old(self).spec_scale() <= usize::MAX,
            old(self).layout().width + 12 * old(self).spec_scale() <= usize::MAX,
            old(self).cursor().1 + 9 * old(self).spec_scale() * (text@.len() + 2) <= usize::MAX,
        ensures
            final(self).layout() == old(self).layout(),
            final(self).bytes().len() == old(self).bytes().len(),
            final(self).cursor().0 == old(self).left_margin(),
            final(self).cursor().1 as int == cursor_after(
                old(self).cursor().0 as int,
                old(self).cursor().1 as int,
                text@,
                old(self).left_margin() as int,
                old(self).spec_scale() as int,
                old(self).layout().width as int,
            ).1 + 9 * old(self).spec_scale(),
    {
        let ghost scale = self.scale as int;
        let ghost count = text@.len() as int;
        proof {
            assert(9 * scale * (count + 1) <= 9 * scale * (count + 2)) by (nonlinear_arith)
                requires scale >= 0, count >= 0;
        }
        self.print(text);
        proof {
            lemma_cursor_after_bounds(
                old(self).cursor().0 as int,
                old(self).cursor().1 as int,
                text@,
                old(self).left_margin() as int,
                old(self).spec_scale() as int,
                old(self).layout().width as int,
            );
            assert(9 * scale * count + 9 * scale == 9 * scale * (count + 1)) by (nonlinear_arith);
            assert(9 * scale * (count + 1) + 9 * scale == 9 * scale * (count + 2)) by (nonlinear_arith);
        }
        self.newline();
    }

    /// Steps the cursor back one cell and blanks that cell; at the left margin it
    /// does nothing.
    pub fn backspace(&mut self)
        requires
            layout_valid(old(self).layout()),
            old(self).cursor().0 > old(self).left_margin() ==> old(self).cursor().0 >= 6 * old(self).spec_scale(),
            old(self).cursor().1 + 8 * old(self).spec_scale() <= usize::MAX,
        ensures
            final(self).layout() == old(self).layout(),
            final(self).bytes().len() == old(self).bytes().len(),
            final(self).cursor() == if old(self).cursor().0 <= old(self).left_margin() {
                old(self).cursor()
            } else {
                ((old(self).cursor().0 - 6 * old(self).spec_scale()) as usize, old(self).cursor().1)
            },
            forall|k: int|
                0 <= k < old(self).bytes().len() && !(old(self).cursor().0 > old(self).left_margin() && in_block(
                    old(self).layout(),
                    old(self).bytes().len() as int,
                    k,
                    old(self).cursor().0 - 6 * old(self).spec_scale(),
                    old(self).cursor().1 as int,
                    6 * old(self).spec_scale(),
                    8 * old(self).spec_scale(),
                )) ==> #[trigger] final(self).bytes()[k] == old(self).bytes()[k],
    {
        let char_width = 6 * self.scale;
        if self.cursor_x <= self.start_x {
            return;
        }
        self.cursor_x = self.cursor_x - char_width;
        let height = 8 * self.scale;
        self.fill_block(self.cursor_x, self.cursor_y, char_width, height, background_color());
    }

    /// Fills the screen with the background and puts the cursor at the left margin
    /// of the first text line.
    pub fn clear(&mut self)
        requires
            layout_valid(old(self).layout()),
        ensures
            final(self).layout() == old(self).layout(),
            final(self).bytes().len() == old(self).bytes().len(),
            final(self).cursor() == (old(self).left_margin(), 40usize),
            forall|k: int|
                0 <= k < old(self).bytes().len() && !in_block(
                    old(self).layout(),
                    old(self).bytes().len() as int,
                    k,
                    0,
                    0,
                    old(self).layout().width as int,
                    old(self).layout().height as int,
                ) ==> #[trigger] final(self).bytes()[k] == old(self).bytes()[k],
    {
        let width = self.info.width;
        let height = self.info.height;
        self.fill_block(0, 0, width, height, background_color());
        self.cursor_x = self.start_x;
        self.cursor_y = 40;
    }
}

fn background_color() -> (color: Color)
    ensures
        color == background(),
{
    Color { r: 4, g: 12, b: 28 }
}

fn foreground_color() -> (color: Color)
    ensures
        color == foreground(),
{
    Color { r: 40, g: 220, b: 230 }
}

} // verus!
