//! Colours of the framebuffer console and the desktop.
use vstd::prelude::*;

verus! {

/// A 24-bit colour.
#[derive(Clone, Copy, PartialEq, Eq, Structural, Debug)]
pub struct Color {
    pub r: u8,
    pub g: u8,
    pub b: u8,
}

impl Color {
    pub fn black() -> (color: Self)
        ensures
            color == (Color { r: 0, g: 0, b: 0 }),
    {
        Color { r: 0, g: 0, b: 0 }
    }

    pub fn white() -> (color: Self)
        ensures
            color == (Color { r: 255, g: 255, b: 255 }),
    {
        Color { r: 255, g: 255, b: 255 }
    }

    pub fn cyan() -> (color: Self)
        ensures
            color == (Color { r: 40, g: 220, b: 230 }),
    {
        Color { r: 40, g: 220, b: 230 }
    }

    pub fn dark_blue() -> (color: Self)
        ensures
            color == (Color { r: 4, g: 12, b: 28 }),
    {
        Color { r: 4, g: 12, b: 28 }
    }
}


/// How the framebuffer stores a pixel's channels.
#[derive(Clone, Copy, PartialEq, Eq, Structural, Debug)]
pub enum PixelFormat {
    Rgb,
    Bgr,
    Other,
}

/// The layout of a framebuffer.
#[derive(Clone, Copy, PartialEq, Eq, Structural, Debug)]
pub struct FrameInfo {
    pub width: usize,
    pub height: usize,
    pub stride: usize,
    pub bytes_per_pixel: usize,
    pub pixel_format: PixelFormat,
}

/// A framebuffer layout whose pixel offsets can be computed: at least one byte per
/// pixel, rows no narrower than the screen, and the whole screen addressable.
pub open spec fn layout_valid(info: FrameInfo) -> bool {
    &&& info.bytes_per_pixel >= 1
    &&& info.width <= info.stride
    &&& info.height * info.stride * info.bytes_per_pixel <= usize::MAX
}

/// The byte offset of the pixel at `(x, y)`.
pub open spec fn pixel_offset(info: FrameInfo, x: int, y: int) -> int {
    (y * info.stride + x) * info.bytes_per_pixel
}

/// `buffer` with the pixel at byte `offset` set to `color` as `info` lays it out.
pub open spec fn painted(buffer: Seq<u8>, info: FrameInfo, offset: int, color: Color) -> Seq<u8> {
    let (first, last) = match info.pixel_format {
        PixelFormat::Rgb => (color.r, color.b),
        _ => (color.b, color.r),
    };
    if info.pixel_format is Other {
        buffer
    } else {
        let b1 = buffer.update(offset, first);
        let b2 = if info.bytes_per_pixel > 1 { b1.update(offset + 1, color.g) } else { b1 };
        if info.bytes_per_pixel > 2 { b2.update(offset + 2, last) } else { b2 }
    }
}

/// The pixel at `(x, y)` is on the screen and inside the buffer.
pub open spec fn visible(info: FrameInfo, buffer_len: int, x: int, y: int) -> bool {
    &&& 0 <= x < info.width
    &&& 0 <= y < info.height
    &&& pixel_offset(info, x, y) + info.bytes_per_pixel <= buffer_len
}

pub proof fn lemma_offset_fits(info: FrameInfo, x: int, y: int)
    requires
        layout_valid(info),
        0 <= x < info.width,
        0 <= y < info.height,
    ensures
        0 <= pixel_offset(info, x, y),
        0 <= y * info.stride,
        y * info.stride + x <= pixel_offset(info, x, y),
        pixel_offset(info, x, y) + info.bytes_per_pixel <= info.height * info.stride * info.bytes_per_pixel,
{
    let s = info.stride as int;
    let b = info.bytes_per_pixel as int;
    let h = info.height as int;
    assert(0 <= y * s + x) by (nonlinear_arith)
        requires 0 <= y, 0 <= s, 0 <= x;
    assert(y * s + x + 1 <= h * s) by (nonlinear_arith)
        requires 0 <= x < s, 0 <= y < h;
    assert(0 <= (y * s + x) * b) by (nonlinear_arith)
        requires 0 <= y * s + x, 0 <= b;
    assert((y * s + x) * b + b <= h * s * b) by (nonlinear_arith)
        requires y * s + x + 1 <= h * s, 0 <= b;
    assert(y * s + x <= (y * s + x) * b) by (nonlinear_arith)
        requires 0 <= y * s + x, 1 <= b;
    assert(0 <= y * s) by (nonlinear_arith)
        requires 0 <= y, 0 <= s;
}

/// A framebuffer to draw into.
pub struct Graphics<'a> {
    buffer: &'a mut [u8],
    info: FrameInfo,
}

impl<'a> Graphics<'a> {
    pub closed spec fn bytes(&self) -> Seq<u8> {
        self.buffer@
    }

    pub closed spec fn layout(&self) -> FrameInfo {
        self.info
    }

    pub fn new(buffer: &'a mut [u8], info: FrameInfo) -> (graphics: Self)
        ensures
            graphics.bytes() == old(buffer)@,
            graphics.layout() == info,
    {
        Graphics { buffer, info }
    }

    pub fn width(&self) -> (width: usize)
        ensures
            width == self.layout().width,
    {
        self.info.width
    }

    pub fn height(&self) -> (height: usize)
        ensures
            height == self.layout().height,
    {
        self.info.height
    }

    /// Colours the pixel at `(x, y)`; pixels off the screen or past the buffer are
    /// ignored.
    pub fn set_pixel(&mut self, x: i32, y: i32, color: Color)
        requires
            layout_valid(old(self).layout()),
        ensures
            final(self).layout() == old(self).layout(),
            final(self).bytes() == if visible(old(self).layout(), old(self).bytes().len() as int, x as int, y as int) {
                painted(old(self).bytes(), old(self).layout(), pixel_offset(old(self).layout(), x as int, y as int), color)
            } else {
                old(self).bytes()
            },
    {
        if x < 0 || y < 0 {
            return;
        }
        let x = x as usize;
        let y = y as usize;
        if x >= self.info.width || y >= self.info.height {
            return;
        }
        proof {
            lemma_offset_fits(self.info, x as int, y as int);
        }
        let offset = (y * self.info.stride + x) * self.info.bytes_per_pixel;
        if offset + self.info.bytes_per_pixel > self.buffer.len() {
            return;
        }
        match self.info.pixel_format {
            PixelFormat::Rgb => self.write_channels(offset, color.r, color.g, color.b),
            PixelFormat::Bgr => self.write_channels(offset, color.b, color.g, color.r),
            PixelFormat::Other => {},
        }
    }

    fn write_channels(&mut self, offset: usize, first: u8, middle: u8, last: u8)
        requires
            offset + old(self).layout().bytes_per_pixel <= old(self).bytes().len(),
            old(self).layout().bytes_per_pixel >= 1,
        ensures
            final(self).layout() == old(self).layout(),
            final(self).bytes() == ({
                let b1 = old(self).bytes().update(offset as int, first);
                let b2 = if old(self).layout().bytes_per_pixel > 1 { b1.update(offset + 1, middle) } else { b1 };
                if old(self).layout().bytes_per_pixel > 2 { b2.update(offset + 2, last) } else { b2 }
            }),
    {
        self.buffer[offset] = first;
        if self.info.bytes_per_pixel > 1 {
            self.buffer[offset + 1] = middle;
        }
        if self.info.bytes_per_pixel > 2 {
            self.buffer[offset + 2] = last;
        }
    }
}


/// Byte `k` belongs to the pixel at `(x, y)`.
pub open spec fn in_pixel(info: FrameInfo, k: int, x: int, y: int) -> bool {
    pixel_offset(info, x, y) <= k < pixel_offset(info, x, y) + info.bytes_per_pixel
}

/// The pixel at `(x, y)` holds `color` as `info` lays it out.
pub open spec fn shows(buffer: Seq<u8>, info: FrameInfo, x: int, y: int, color: Color) -> bool {
    let offset = pixel_offset(info, x, y);
    let (first, last) = match info.pixel_format {
        PixelFormat::Rgb => (color.r, color.b),
        _ => (color.b, color.r),
    };
    info.pixel_format !is Other ==> {
        &&& buffer[offset] == first
        &&& info.bytes_per_pixel > 1 ==> buffer[offset + 1] == color.g
        &&& info.bytes_per_pixel > 2 ==> buffer[offset + 2] == last
    }
}

/// Distinct pixels of the screen occupy disjoint bytes.
/// Two different pixels on the screen own disjoint bytes.
pub proof fn lemma_pixels_apart(info: FrameInfo, x1: int, y1: int, x2: int, y2: int)
    requires
        layout_valid(info),
        0 <= x1 < info.width,
        0 <= x2 < info.width,
        0 <= y1,
        0 <= y2,
        x1 != x2 || y1 != y2,
    ensures
        pixel_offset(info, x1, y1) + info.bytes_per_pixel <= pixel_offset(info, x2, y2) || pixel_offset(info, x2, y2)
            + info.bytes_per_pixel <= pixel_offset(info, x1, y1),
{
    let s = info.stride as int;
    let b = info.bytes_per_pixel as int;
    let i1 = y1 * s + x1;
    let i2 = y2 * s + x2;
    if y1 < y2 {
        assert(i1 + 1 <= i2) by (nonlinear_arith)
            requires i1 == y1 * s + x1, i2 == y2 * s + x2, 0 <= x1 < s, 0 <= x2, y1 < y2;
    } else if y2 < y1 {
        assert(i2 + 1 <= i1) by (nonlinear_arith)
            requires i1 == y1 * s + x1, i2 == y2 * s + x2, 0 <= x2 < s, 0 <= x1, y2 < y1;
    }
    if i1 < i2 {
        assert(i1 * b + b <= i2 * b) by (nonlinear_arith)
            requires i1 + 1 <= i2, 0 <= b;
    } else {
        assert(i2 * b + b <= i1 * b) by (nonlinear_arith)
            requires i2 + 1 <= i1, 0 <= b;
    }
}

/// `i32::try_from(value)`, or the largest `i32` where it does not fit.
fn clamp_to_i32(value: usize) -> (clamped: i32)
    ensures
        clamped == if value <= i32::MAX { value as int } else { i32::MAX as int },
{
    if value <= 0x7fff_ffff { value as i32 } else { i32::MAX }
}

/// `a + b`, held to the range of `i32`.
fn saturating_sum(a: i32, b: i32) -> (sum: i32)
    ensures
        sum == saturated(a as int, b as int),
{
    let wide = a as i64 + b as i64;
    if wide > 0x7fff_ffff {
        i32::MAX
    } else if wide < -0x8000_0000 {
        i32::MIN
    } else {
        wide as i32
    }
}

/// `a + b`, held to the range of `i32`.
pub open spec fn saturated(a: int, b: int) -> int {
    if a + b > i32::MAX { i32::MAX as int } else if a + b < i32::MIN { i32::MIN as int } else { a + b }
}

/// Painting pixel `(px, py)` while filling a rectangle row by row keeps the pixels
/// painted before it and leaves every byte outside the pixel as it was.
pub proof fn lemma_pixel_written(info: FrameInfo, after: Seq<u8>, before: Seq<u8>, x: int, end_x: int, y: int, py: int, px: int, color: Color)
    requires
        layout_valid(info),
        after.len() == before.len(),
        x <= px < end_x,
        y <= py,
        after == if visible(info, before.len() as int, px, py) {
            painted(before, info, pixel_offset(info, px, py), color)
        } else {
            before
        },
        forall|qx: int, qy: int|
            x <= qx < end_x && ((y <= qy < py) || (qy == py && qx < px)) && visible(info, before.len() as int, qx, qy)
                ==> #[trigger] shows(before, info, qx, qy, color),
    ensures
        forall|qx: int, qy: int|
            x <= qx < end_x && ((y <= qy < py) || (qy == py && qx < px + 1)) && visible(info, before.len() as int, qx, qy)
                ==> #[trigger] shows(after, info, qx, qy, color),
        forall|k: int|
            0 <= k < before.len() && !(visible(info, before.len() as int, px, py) && in_pixel(info, k, px, py))
                ==> #[trigger] after[k] == before[k],
{
    let len = before.len() as int;
    if visible(info, len, px, py) {
        lemma_offset_fits(info, px, py);
        assert forall|qx: int, qy: int|
            x <= qx < end_x && ((y <= qy < py) || (qy == py && qx < px + 1)) && visible(info, len, qx, qy)
                implies #[trigger] shows(after, info, qx, qy, color) by {
            if qx != px || qy != py {
                lemma_pixels_apart(info, qx, qy, px, py);
                lemma_offset_fits(info, qx, qy);
                assert(shows(before, info, qx, qy, color));
            }
        }
    }
}


impl<'a> Graphics<'a> {
    /// Colours the visible pixels of the rectangle of `width` by `height` at `(x, y)`.
    pub fn fill_rect(&mut self, x: i32, y: i32, width: usize, height: usize, color: Color)
        requires
            layout_valid(old(self).layout()),
        ensures
            final(self).layout() == old(self).layout(),
            final(self).bytes().len() == old(self).bytes().len(),
            ({
                let end_x = saturated(x as int, if width <= i32::MAX { width as int } else { i32::MAX as int });
                let end_y = saturated(y as int, if height <= i32::MAX { height as int } else { i32::MAX as int });
                &&& forall|px: int, py: int|
                    x <= px < end_x && y <= py < end_y && visible(old(self).layout(), old(self).bytes().len() as int, px, py)
                        ==> #[trigger] shows(final(self).bytes(), old(self).layout(), px, py, color)
                &&& forall|k: int|
                    0 <= k < old(self).bytes().len() && !(exists|px: int, py: int|
                        x <= px < end_x && y <= py < end_y && visible(old(self).layout(), old(self).bytes().len() as int, px, py)
                            && #[trigger] in_pixel(old(self).layout(), k, px, py)) ==> #[trigger] final(self).bytes()[k] == old(self).bytes()[k]
            }),
    {
        let end_x = saturating_sum(x, clamp_to_i32(width));
        let end_y = saturating_sum(y, clamp_to_i32(height));
        let ghost info = self.info;
        let ghost len = self.buffer@.len() as int;
        let mut py = y;
        while py < end_y
            invariant
                self.info == info,
                self.buffer@.len() == len,
                layout_valid(info),
                py <= end_y || py == y,
                py >= y,
                forall|qx: int, qy: int|
                    x <= qx < end_x && y <= qy < py && visible(info, len, qx, qy) ==> #[trigger] shows(
                        self.buffer@,
                        info,
                        qx,
                        qy,
                        color,
                    ),
                forall|k: int|
                    0 <= k < len && !(exists|qx: int, qy: int|
                        x <= qx < end_x && y <= qy < py && visible(info, len, qx, qy) && #[trigger] in_pixel(info, k, qx, qy))
                        ==> #[trigger] self.buffer@[k] == old(self).buffer@[k],
            decreases end_y - py,
        {
            let mut px = x;
            while px < end_x
                invariant
                    self.info == info,
                    self.buffer@.len() == len,
                    layout_valid(info),
                    y <= py < end_y,
                    px >= x,
                    x <= px <= end_x || end_x <= x,
                    forall|qx: int, qy: int|
                        x <= qx < end_x && ((y <= qy < py) || (qy == py && qx < px)) && visible(info, len, qx, qy)
                            ==> #[trigger] shows(self.buffer@, info, qx, qy, color),
                    forall|k: int|
                        0 <= k < len && !(exists|qx: int, qy: int|
                            x <= qx < end_x && ((y <= qy < py) || (qy == py && qx < px)) && visible(info, len, qx, qy)
                                && #[trigger] in_pixel(info, k, qx, qy)) ==> #[trigger] self.buffer@[k] == old(self).buffer@[k],
                decreases end_x - px,
            {
                let ghost before = self.buffer@;
                self.set_pixel(px, py, color);
                proof {
                    lemma_pixel_written(self.info, self.buffer@, before, x as int, end_x as int, y as int, py as int, px as int, color);
                }
                px = px + 1;
            }
            py = py + 1;
        }
        proof {
            assert forall|k: int|
                0 <= k < len && !(exists|qx: int, qy: int|
                    x <= qx < end_x && y <= qy < end_y && visible(info, len, qx, qy) && #[trigger] in_pixel(info, k, qx, qy))
                    implies #[trigger] self.buffer@[k] == old(self).buffer@[k] by {
                if exists|qx: int, qy: int|
                    x <= qx < end_x && y <= qy < py && visible(info, len, qx, qy) && #[trigger] in_pixel(info, k, qx, qy) {
                    let (qx, qy) = choose|qx: int, qy: int|
                        x <= qx < end_x && y <= qy < py && visible(info, len, qx, qy) && #[trigger] in_pixel(info, k, qx, qy);
                    assert(x <= qx < end_x && y <= qy < end_y && visible(info, len, qx, qy) && in_pixel(info, k, qx, qy));
                }
            }
        }
    }

    /// Colours the whole screen.
    pub fn clear(&mut self, color: Color)
        requires
            layout_valid(old(self).layout()),
            old(self).layout().width <= i32::MAX,
            old(self).layout().height <= i32::MAX,
        ensures
            final(self).layout() == old(self).layout(),
            final(self).bytes().len() == old(self).bytes().len(),
            forall|px: int, py: int|
                visible(old(self).layout(), old(self).bytes().len() as int, px, py) ==> #[trigger] shows(
                    final(self).bytes(),
                    old(self).layout(),
                    px,
                    py,
                    color,
                ),
    {
        let width = self.width();
        let height = self.height();
        self.fill_rect(0, 0, width, height, color);
    }
}


/// `value` lies between `a` and `b`, whichever is smaller.
pub open spec fn between(value: int, a: int, b: int) -> bool {
    (a <= value <= b) || (b <= value <= a)
}

/// The magnitude of `value`.
pub open spec fn magnitude(value: int) -> int {
    if value < 0 { -value } else { value }
}

proof fn lemma_step(dx: int, d: int, nx: int, ny: int, f: int)
    requires
        0 <= nx <= dx,
        0 <= ny <= d,
        f == dx * ny - d * nx,
        -(dx + d) <= 2 * f <= dx + d,
        nx < dx || ny < d,
    ensures
        2 * f >= d - 2 * dx ==> nx < dx,
        2 * f <= 2 * d - dx ==> ny < d,
        (2 * f >= d - 2 * dx) || (2 * f <= 2 * d - dx),
        ({
            let x_step = 2 * f >= d - 2 * dx;
            let y_step = 2 * f <= 2 * d - dx;
            let nx2 = if x_step { nx + 1 } else { nx };
            let ny2 = if y_step { ny + 1 } else { ny };
            let f2 = dx * ny2 - d * nx2;
            -(dx + d) <= 2 * f2 <= dx + d
        }),
{
    if nx == dx {
        assert(f <= -dx) by (nonlinear_arith)
            requires f == dx * ny - d * nx, nx == dx, ny <= d - 1, 0 <= dx;
    }
    if ny == d {
        assert(f >= d) by (nonlinear_arith)
            requires f == dx * ny - d * nx, ny == d, nx <= dx - 1, 0 <= d;
    }
    let x_step = 2 * f >= d - 2 * dx;
    let y_step = 2 * f <= 2 * d - dx;
    let nx2 = if x_step { nx + 1 } else { nx };
    let ny2 = if y_step { ny + 1 } else { ny };
    assert(dx * ny2 - d * nx2 == f + (if y_step { dx } else { 0 }) - (if x_step { d } else { 0 })) by (nonlinear_arith)
        requires
            f == dx * ny - d * nx,
            nx2 == (if x_step { nx + 1 } else { nx }),
            ny2 == (if y_step { ny + 1 } else { ny }),
    ;
}

impl<'a> Graphics<'a> {
    /// Draws the line from `(start_x, start_y)` to `(end_x, end_y)`, one pixel per
    /// step along the longer axis, both ends included.
    pub fn draw_line(&mut self, start_x: i32, start_y: i32, end_x: i32, end_y: i32, color: Color)
        requires
            layout_valid(old(self).layout()),
            3 * (magnitude(end_x - start_x) + magnitude(end_y - start_y)) <= i32::MAX,
        ensures
            final(self).layout() == old(self).layout(),
            final(self).bytes().len() == old(self).bytes().len(),
            visible(old(self).layout(), old(self).bytes().len() as int, end_x as int, end_y as int) ==> shows(
                final(self).bytes(),
                old(self).layout(),
                end_x as int,
                end_y as int,
                color,
            ),
            forall|k: int|
                0 <= k < old(self).bytes().len() && !(exists|px: int, py: int|
                    between(px, start_x as int, end_x as int) && between(py, start_y as int, end_y as int) && visible(
                        old(self).layout(),
                        old(self).bytes().len() as int,
                        px,
                        py,
                    ) && #[trigger] in_pixel(old(self).layout(), k, px, py)) ==> #[trigger] final(self).bytes()[k] == old(self).bytes()[k],
    {
        let ghost info = self.info;
        let ghost len = self.buffer@.len() as int;
        let mut x = start_x;
        let mut y = start_y;
        let delta_x = if end_x >= start_x { end_x - start_x } else { start_x - end_x };
        let step_x: i32 = if start_x < end_x { 1 } else { -1 };
        let delta_y = -(if end_y >= start_y { end_y - start_y } else { start_y - end_y });
        let step_y: i32 = if start_y < end_y { 1 } else { -1 };
        let mut error = delta_x + delta_y;
        let ghost dx = delta_x as int;
        let ghost d = -delta_y as int;
        let ghost mut nx: int = 0;
        let ghost mut ny: int = 0;
        loop
            invariant_except_break
                self.info == info,
                self.buffer@.len() == len,
                layout_valid(info),
                dx == magnitude(end_x - start_x),
                d == magnitude(end_y - start_y),
                delta_x == dx,
                delta_y == -d,
                3 * (dx + d) <= i32::MAX,
                step_x == (if start_x < end_x { 1int } else { -1int }),
                step_y == (if start_y < end_y { 1int } else { -1int }),
                0 <= nx <= dx,
                0 <= ny <= d,
                x == start_x + step_x * nx,
                y == start_y + step_y * ny,
                error == dx - d + (dx * ny - d * nx),
                -(dx + d) <= 2 * (dx * ny - d * nx) <= dx + d,
                forall|k: int|
                    0 <= k < len && !(exists|px: int, py: int|
                        between(px, start_x as int, end_x as int) && between(py, start_y as int, end_y as int) && visible(
                            info,
                            len,
                            px,
                            py,
                        ) && #[trigger] in_pixel(info, k, px, py)) ==> #[trigger] self.buffer@[k] == old(self).buffer@[k],
            ensures
                self.info == info,
                self.buffer@.len() == len,
                visible(info, len, end_x as int, end_y as int) ==> shows(self.buffer@, info, end_x as int, end_y as int, color),
                forall|k: int|
                    0 <= k < len && !(exists|px: int, py: int|
                        between(px, start_x as int, end_x as int) && between(py, start_y as int, end_y as int) && visible(
                            info,
                            len,
                            px,
                            py,
                        ) && #[trigger] in_pixel(info, k, px, py)) ==> #[trigger] self.buffer@[k] == old(self).buffer@[k],
            decreases (dx - nx) + (d - ny),
        {
            let ghost before = self.buffer@;
            proof {
                assert(between(x as int, start_x as int, end_x as int)) by (nonlinear_arith)
                    requires
                        x == start_x + step_x * nx,
                        0 <= nx <= dx,
                        dx == magnitude(end_x - start_x),
                        step_x == (if start_x < end_x { 1int } else { -1int }),
                ;
                assert(between(y as int, start_y as int, end_y as int)) by (nonlinear_arith)
                    requires
                        y == start_y + step_y * ny,
                        0 <= ny <= d,
                        d == magnitude(end_y - start_y),
                        step_y == (if start_y < end_y { 1int } else { -1int }),
                ;
            }
            self.set_pixel(x, y, color);
            proof {
                assert forall|k: int|
                    0 <= k < len && !(exists|px: int, py: int|
                        between(px, start_x as int, end_x as int) && between(py, start_y as int, end_y as int) && visible(
                            info,
                            len,
                            px,
                            py,
                        ) && #[trigger] in_pixel(info, k, px, py)) implies #[trigger] self.buffer@[k] == old(self).buffer@[k] by {
                    if visible(info, len, x as int, y as int) {
                        assert(!in_pixel(info, k, x as int, y as int));
                    }
                }
            }
            if x == end_x && y == end_y {
                proof {
                    if visible(info, len, end_x as int, end_y as int) {
                        lemma_offset_fits(info, end_x as int, end_y as int);
                    }
                }
                break;
            }
            proof {
                assert(nx < dx || ny < d) by (nonlinear_arith)
                    requires
                        x == start_x + step_x * nx,
                        y == start_y + step_y * ny,
                        !(x == end_x && y == end_y),
                        0 <= nx <= dx,
                        0 <= ny <= d,
                        dx == magnitude(end_x - start_x),
                        d == magnitude(end_y - start_y),
                        step_x == (if start_x < end_x { 1int } else { -1int }),
                        step_y == (if start_y < end_y { 1int } else { -1int }),
                ;
                lemma_step(dx, d, nx, ny, dx * ny - d * nx);
            }
            let double_error = 2 * error;
            let x_step = double_error >= delta_y;
            let y_step = double_error <= delta_x;
            let ghost nx0 = nx;
            let ghost ny0 = ny;
            let ghost f0 = dx * ny - d * nx;
            proof {
                if x_step {
                    assert(between(start_x + step_x * (nx + 1), start_x as int, end_x as int)) by (nonlinear_arith)
                        requires
                            0 <= nx + 1 <= dx,
                            dx == magnitude(end_x - start_x),
                            step_x == (if start_x < end_x { 1int } else { -1int }),
                    ;
                    assert(start_x + step_x * (nx + 1) == x + step_x) by (nonlinear_arith)
                        requires x == start_x + step_x * nx;
                }
                if y_step {
                    assert(between(start_y + step_y * (ny + 1), start_y as int, end_y as int)) by (nonlinear_arith)
                        requires
                            0 <= ny + 1 <= d,
                            d == magnitude(end_y - start_y),
                            step_y == (if start_y < end_y { 1int } else { -1int }),
                    ;
                    assert(start_y + step_y * (ny + 1) == y + step_y) by (nonlinear_arith)
                        requires y == start_y + step_y * ny;
                }
            }
            if x_step {
                error = error + delta_y;
                x = x + step_x;
                proof {
                    nx = nx + 1;
                }
            }
            if y_step {
                error = error + delta_x;
                y = y + step_y;
                proof {
                    ny = ny + 1;
                }
            }
            proof {
                assert(dx * ny - d * nx == f0 + (if y_step { dx } else { 0 }) - (if x_step { d } else { 0 })) by (nonlinear_arith)
                    requires
                        f0 == dx * ny0 - d * nx0,
                        nx == (if x_step { nx0 + 1 } else { nx0 }),
                        ny == (if y_step { ny0 + 1 } else { ny0 }),
                ;
                assert(x == start_x + step_x * nx) by (nonlinear_arith)
                    requires
                        x == (if x_step { start_x + step_x * (nx - 1) + step_x } else { start_x + step_x * nx }),
                ;
                assert(y == start_y + step_y * ny) by (nonlinear_arith)
                    requires
                        y == (if y_step { start_y + step_y * (ny - 1) + step_y } else { start_y + step_y * ny }),
                ;
            }
        }
    }
}

} // verus!
