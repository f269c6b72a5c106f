use doryen_rs::console::Console;
use doryen_rs::img::{blit_2x_image, compute_pattern, Image, ImageData};

type Color = (u8, u8, u8, u8);

const RED: Color = (255, 0, 0, 255);
const BLUE: Color = (0, 0, 255, 255);
const WHITE: Color = (255, 255, 255, 255);
const BLACK: Color = (0, 0, 0, 255);

fn quant(block: [Color; 4]) -> (Color, Option<Color>, i32) {
    let mut back: Color = (0, 0, 0, 0);
    let mut front: Option<Color> = None;
    let mut ascii: i32 = 0;
    compute_pattern(&block, &mut back, &mut front, &mut ascii);
    (back, front, ascii)
}

#[test]
fn uniform_block_is_background_only() {
    let c = (12, 34, 56, 78);
    assert_eq!(quant([c, c, c, c]), (c, None, 32));
}

#[test]
fn uniform_rgb_ignores_alpha() {
    // the quantizer compares red, green and blue only
    let a = (5, 5, 5, 0);
    let b = (5, 5, 5, 255);
    let (back, front, ascii) = quant([a, b, b, a]);
    assert_eq!(back, a);
    assert_eq!(front, None);
    assert_eq!(ascii, 32);
}

#[test]
fn two_color_blocks_map_to_the_pattern_table() {
    let a = BLACK;
    let b = WHITE;
    // flag bits: north-east = 1, south-west = 2, south-east = 4
    assert_eq!(quant([a, b, a, a]), (a, Some(b), 227));
    assert_eq!(quant([a, a, b, a]), (a, Some(b), 232));
    assert_eq!(quant([a, b, b, a]), (a, Some(b), -230));
    assert_eq!(quant([a, a, a, b]), (a, Some(b), 229));
    assert_eq!(quant([a, b, a, b]), (a, Some(b), 231));
    assert_eq!(quant([a, a, b, b]), (a, Some(b), -228));
    assert_eq!(quant([a, b, b, b]), (a, Some(b), -226));
}

#[test]
fn third_color_merges_into_the_nearest_candidate() {
    let a = (0, 0, 0, 255);
    let b = (255, 255, 255, 255);
    let c = (10, 10, 10, 255);
    // c folds into the black anchor, then the last black pixel folds into
    // the merged background: two weighted averages
    let (back, front, ascii) = quant([a, b, c, a]);
    assert_eq!(back, (3, 3, 3, 255));
    assert_eq!(front, Some(b));
    assert_eq!(ascii, 227);
}

#[test]
fn new_empty_image_is_transparent_black() {
    let img = Image::new_empty(3, 2);
    assert_eq!(img.width(), 3);
    assert_eq!(img.height(), 2);
    assert_eq!(img.try_get_size(), Some((3, 2)));
    assert_eq!(img.pixel(2, 1), Some((0, 0, 0, 0)));
}

#[test]
fn unloaded_image_reports_no_size() {
    let img = Image::new();
    assert_eq!(img.width(), 0);
    assert_eq!(img.height(), 0);
    assert_eq!(img.try_get_size(), None);
    assert_eq!(img.pixel(0, 0), None);
}

#[test]
fn put_pixel_sets_one_pixel() {
    let mut img = Image::new_empty(2, 2);
    img.put_pixel(1, 0, RED);
    assert_eq!(img.pixel(1, 0), Some(RED));
    assert_eq!(img.pixel(0, 0), Some((0, 0, 0, 0)));
    assert_eq!(img.pixel(0, 1), Some((0, 0, 0, 0)));
}

#[test]
fn blit_writes_only_backgrounds() {
    let mut img = Image::new_empty(2, 2);
    img.put_pixel(0, 0, RED);
    img.put_pixel(1, 0, BLUE);
    img.put_pixel(0, 1, (1, 2, 3, 4));
    img.put_pixel(1, 1, (5, 6, 7, 8));
    let mut con = Console::new(4, 4);
    con.ascii(1, 1, 65);
    img.blit(&mut con, 1, 1, None);
    assert_eq!(con.get_back(1, 1), Some(RED));
    assert_eq!(con.get_back(2, 1), Some(BLUE));
    assert_eq!(con.get_back(1, 2), Some((1, 2, 3, 4)));
    assert_eq!(con.get_back(2, 2), Some((5, 6, 7, 8)));
    // glyphs and foregrounds untouched, outside cells untouched
    assert_eq!(con.get_ascii(1, 1), Some(65));
    assert_eq!(con.get_fore(1, 1), Some(WHITE));
    assert_eq!(con.get_back(0, 0), Some(BLACK));
    assert_eq!(con.get_back(3, 3), Some(BLACK));
}

#[test]
fn blit_skips_transparent_pixels_and_clips() {
    let mut img = Image::new_empty(2, 2);
    img.put_pixel(0, 0, RED);
    img.put_pixel(1, 0, BLUE);
    img.put_pixel(0, 1, RED);
    img.put_pixel(1, 1, RED);
    let mut con = Console::new(2, 2);
    // top-left image pixel sits off the grid; RED is the key color
    img.blit(&mut con, -1, 0, Some(RED));
    assert_eq!(con.get_back(0, 0), Some(BLUE));
    assert_eq!(con.get_back(1, 0), Some(BLACK));
    assert_eq!(con.get_back(0, 1), Some(BLACK));
}

#[test]
fn unloaded_blit_is_a_no_op() {
    let img = Image::new();
    let mut con = Console::new(2, 2);
    img.blit(&mut con, 0, 0, None);
    img.blit_2x(&mut con, 0, 0, 0, 0, None, None, None);
    for y in 0..2 {
        for x in 0..2 {
            assert_eq!(con.get_ascii(x, y), Some(32));
            assert_eq!(con.get_back(x, y), Some(BLACK));
        }
    }
}

#[test]
fn blit_2x_quantizes_blocks_to_subcell_glyphs() {
    let mut img = Image::new_empty(4, 2);
    // left block: uniform red; right block: red with blue north-east
    img.put_pixel(0, 0, RED);
    img.put_pixel(1, 0, RED);
    img.put_pixel(0, 1, RED);
    img.put_pixel(1, 1, RED);
    img.put_pixel(2, 0, RED);
    img.put_pixel(3, 0, BLUE);
    img.put_pixel(2, 1, RED);
    img.put_pixel(3, 1, RED);
    let mut con = Console::new(2, 1);
    img.blit_2x(&mut con, 0, 0, 0, 0, None, None, None);
    assert_eq!(con.get_back(0, 0), Some(RED));
    assert_eq!(con.get_ascii(0, 0), Some(32));
    assert_eq!(con.get_fore(0, 0), Some(WHITE));
    assert_eq!(con.get_back(1, 0), Some(RED));
    assert_eq!(con.get_fore(1, 0), Some(BLUE));
    assert_eq!(con.get_ascii(1, 0), Some(227));
}

#[test]
fn blit_2x_negative_glyph_swaps_stored_colors() {
    let mut img = Image::new_empty(2, 2);
    // north-east, south-west and south-east differ: flag 7, glyph -226
    img.put_pixel(0, 0, RED);
    img.put_pixel(1, 0, BLUE);
    img.put_pixel(0, 1, BLUE);
    img.put_pixel(1, 1, BLUE);
    let mut con = Console::new(1, 1);
    img.blit_2x(&mut con, 0, 0, 0, 0, None, None, None);
    assert_eq!(con.get_back(0, 0), Some(BLUE));
    assert_eq!(con.get_fore(0, 0), Some(RED));
    assert_eq!(con.get_ascii(0, 0), Some(226));
}

#[test]
fn blit_2x_transparent_key_uses_console_background() {
    let mut img = Image::new_empty(2, 2);
    img.put_pixel(0, 0, RED);
    img.put_pixel(1, 0, BLUE);
    img.put_pixel(0, 1, RED);
    img.put_pixel(1, 1, RED);
    let mut con = Console::new(1, 1);
    con.back(0, 0, RED);
    // BLUE is the key: the north-east pixel becomes the cell's current
    // background, so the whole block is red
    img.blit_2x(&mut con, 0, 0, 0, 0, None, None, Some(BLUE));
    assert_eq!(con.get_back(0, 0), Some(RED));
    assert_eq!(con.get_ascii(0, 0), Some(32));
}

#[test]
fn blit_2x_image_edge_uses_console_background() {
    // a 1 by 1 image: the other three block pixels fall off the image and
    // use the console's background
    let mut img = Image::new_empty(1, 1);
    img.put_pixel(0, 0, RED);
    let mut con = Console::new(1, 1);
    con.back(0, 0, RED);
    match &img.data {
        Some(d) => blit_2x_image(d, &mut con, 0, 0, 0, 0, None, None, None),
        None => panic!("image should be loaded"),
    }
    assert_eq!(con.get_back(0, 0), Some(RED));
    assert_eq!(con.get_ascii(0, 0), Some(32));
}

#[test]
fn load_bytes_decodes_a_png_payload() {
    let mut src = image::RgbaImage::new(2, 2);
    src.put_pixel(0, 0, image::Rgba([255, 0, 0, 255]));
    src.put_pixel(1, 0, image::Rgba([0, 255, 0, 255]));
    src.put_pixel(0, 1, image::Rgba([0, 0, 255, 255]));
    src.put_pixel(1, 1, image::Rgba([9, 8, 7, 6]));
    let mut buf: Vec<u8> = Vec::new();
    src.write_to(&mut std::io::Cursor::new(&mut buf), image::ImageFormat::Png)
        .unwrap();
    let mut img = Image::new();
    img.load_bytes(&buf).unwrap();
    assert_eq!(img.try_get_size(), Some((2, 2)));
    assert_eq!(img.pixel(0, 0), Some((255, 0, 0, 255)));
    assert_eq!(img.pixel(1, 0), Some((0, 255, 0, 255)));
    assert_eq!(img.pixel(0, 1), Some((0, 0, 255, 255)));
    assert_eq!(img.pixel(1, 1), Some((9, 8, 7, 6)));
}

#[test]
fn load_bytes_surfaces_decode_failure() {
    let mut img = Image::new();
    let r = img.load_bytes(&[1, 2, 3, 4, 5]);
    assert!(r.is_err());
    assert_eq!(img.try_get_size(), None);
}
