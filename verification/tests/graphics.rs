use wovenhat::console::{glyph, Console};
use wovenhat::graphics::{Color, FrameInfo, Graphics, PixelFormat};

fn info(width: usize, height: usize, format: PixelFormat) -> FrameInfo {
    FrameInfo { width, height, stride: width, bytes_per_pixel: 4, pixel_format: format }
}

#[test]
fn pixels_follow_the_format() {
    let mut buffer = vec![0u8; 4 * 4 * 4];
    {
        let mut graphics = Graphics::new(&mut buffer, info(4, 4, PixelFormat::Bgr));
        graphics.set_pixel(1, 2, Color { r: 1, g: 2, b: 3 });
        graphics.set_pixel(-1, 0, Color::white());
        graphics.set_pixel(4, 0, Color::white());
    }
    let offset = (2 * 4 + 1) * 4;
    assert_eq!(&buffer[offset..offset + 4], &[3, 2, 1, 0]);
    assert_eq!(buffer.iter().filter(|b| **b != 0).count(), 3);
}

#[test]
fn rectangles_are_clipped() {
    let mut buffer = vec![0u8; 4 * 4 * 4];
    {
        let mut graphics = Graphics::new(&mut buffer, info(4, 4, PixelFormat::Rgb));
        graphics.fill_rect(2, 2, 10, 10, Color::cyan());
    }
    for y in 0..4usize {
        for x in 0..4usize {
            let offset = (y * 4 + x) * 4;
            let expected: [u8; 3] = if x >= 2 && y >= 2 { [40, 220, 230] } else { [0, 0, 0] };
            assert_eq!(&buffer[offset..offset + 3], &expected);
        }
    }
}

#[test]
fn lines_cover_their_ends() {
    let mut buffer = vec![0u8; 8 * 8 * 4];
    {
        let mut graphics = Graphics::new(&mut buffer, info(8, 8, PixelFormat::Rgb));
        graphics.draw_line(0, 0, 7, 3, Color::white());
    }
    let lit = |x: usize, y: usize| buffer[(y * 8 + x) * 4] == 255;
    assert!(lit(0, 0));
    assert!(lit(7, 3));
    for x in 0..8 {
        assert_eq!((0..8).filter(|y| lit(x, *y)).count(), 1);
    }
}

#[test]
fn glyphs_ignore_case() {
    assert_eq!(glyph('a'), glyph('A'));
    assert_eq!(glyph('A'), [0x0E, 0x11, 0x11, 0x1F, 0x11, 0x11, 0x11]);
    assert_eq!(glyph(' '), [0; 7]);
    assert_eq!(glyph('~'), [0x1F, 0x11, 0x02, 0x04, 0x04, 0x00, 0x04]);
}

#[test]
fn console_cursor_wraps() {
    let mut buffer = vec![0u8; 40 * 40 * 4];
    let mut console = Console::new(&mut buffer, info(40, 40, PixelFormat::Rgb), 2, 2, 1);
    console.print("ab");
    console.println("c");
    console.backspace();
    console.clear();
}
