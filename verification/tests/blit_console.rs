use doryen_rs::console::Console;

type Color = (u8, u8, u8, u8);

/// Reference blend, mirroring the contract: the weight of `c2` is
/// `(num * c2.3) / (den * 255)`, rounded toward zero; output alpha 255.
fn blend_ref(c1: Color, c2: Color, num: u64, den: u64) -> Color {
    let wn = num * c2.3 as u64;
    let wd = den * 255;
    let ch = |a: u8, b: u8| (((wd - wn) * a as u64 + wn * b as u64) / wd) as u8;
    (ch(c1.0, c2.0), ch(c1.1, c2.1), ch(c1.2, c2.2), 255)
}

fn cell_of(con: &Console, x: i32, y: i32) -> (u16, Color, Color) {
    (
        con.get_ascii(x, y).unwrap(),
        con.get_fore(x, y).unwrap(),
        con.get_back(x, y).unwrap(),
    )
}

#[test]
fn opaque_blit_at_alpha_one_is_field_by_field_overwrite() {
    let mut src = Console::new(3, 3);
    for y in 0..3 {
        for x in 0..3 {
            let v = (x + 3 * y) as u8;
            src.cell(
                x,
                y,
                Some(65 + v as u16),
                Some((v, 2 * v, 3 * v, 7)),
                Some((10 + v, 20 + v, 30 + v, 255)),
            );
        }
    }
    let mut dst = Console::new(5, 5);
    dst.clear(Some((9, 9, 9, 9)), Some((8, 8, 8, 8)), Some(88));
    let before = cell_of(&dst, 0, 0);
    src.blit(1, 1, &mut dst, 1, 1, 1, 1, None);
    for y in 0..3 {
        for x in 0..3 {
            assert_eq!(cell_of(&dst, x + 1, y + 1), cell_of(&src, x, y));
        }
    }
    // cells outside the overlap are unchanged
    assert_eq!(cell_of(&dst, 0, 0), before);
    assert_eq!(cell_of(&dst, 4, 4), before);
}

#[test]
fn key_color_skips_whole_cells() {
    let key = (1, 2, 3, 255);
    let mut src = Console::new(2, 1);
    src.cell(0, 0, Some(65), Some((200, 0, 0, 255)), Some(key));
    src.cell(1, 0, Some(66), Some((0, 200, 0, 255)), Some((9, 9, 9, 255)));
    let mut dst = Console::new(2, 1);
    src.blit(0, 0, &mut dst, 1, 1, 1, 1, Some(key));
    // the keyed cell is skipped entirely
    assert_eq!(cell_of(&dst, 0, 0), (32, (255, 255, 255, 255), (0, 0, 0, 255)));
    // the other cell is overwritten
    assert_eq!(cell_of(&dst, 1, 0), (66, (0, 200, 0, 255), (9, 9, 9, 255)));
}

#[test]
fn zero_back_alpha_leaves_background_untouched() {
    let mut src = Console::new(1, 1);
    src.cell(0, 0, Some(65), Some((200, 0, 0, 255)), Some((50, 50, 50, 255)));
    let mut dst = Console::new(1, 1);
    src.blit(0, 0, &mut dst, 1, 1, 0, 1, None);
    let (g, f, b) = cell_of(&dst, 0, 0);
    assert_eq!(b, (0, 0, 0, 255));
    assert_eq!(g, 65);
    assert_eq!(f, (200, 0, 0, 255));
}

#[test]
fn partial_blit_blends_background() {
    let sb = (100, 60, 20, 255);
    let mut src = Console::new(1, 1);
    src.cell(0, 0, Some(32), Some((1, 1, 1, 255)), Some(sb));
    let mut dst = Console::new(1, 1);
    let db = (0, 0, 0, 255);
    src.blit(0, 0, &mut dst, 0, 1, 1, 2, None);
    assert_eq!(cell_of(&dst, 0, 0).2, blend_ref(db, sb, 1, 2));
}

#[test]
fn source_space_tints_existing_glyph_color() {
    // source glyph is a space: the destination keeps its glyph, and the
    // source background tints the destination foreground at back alpha
    let sb = (80, 90, 100, 255);
    let df = (200, 10, 0, 255);
    let mut src = Console::new(1, 1);
    src.cell(0, 0, Some(32), Some((1, 1, 1, 255)), Some(sb));
    let mut dst = Console::new(1, 1);
    dst.cell(0, 0, Some(70), Some(df), None);
    src.blit(0, 0, &mut dst, 1, 2, 1, 2, None);
    let (g, f, _) = cell_of(&dst, 0, 0);
    assert_eq!(g, 70);
    assert_eq!(f, blend_ref(df, sb, 1, 2));
}

#[test]
fn blank_destination_adopts_source_glyph() {
    let sf = (10, 220, 30, 255);
    let sb = (40, 40, 40, 255);
    let mut src = Console::new(1, 1);
    src.cell(0, 0, Some(90), Some(sf), Some(sb));
    let mut dst = Console::new(1, 1);
    let db = (0, 0, 0, 255);
    src.blit(0, 0, &mut dst, 1, 2, 1, 2, None);
    let (g, f, b) = cell_of(&dst, 0, 0);
    assert_eq!(g, 90);
    let b1 = blend_ref(db, sb, 1, 2);
    assert_eq!(b, b1);
    // the glyph's color fades in from the updated destination background
    assert_eq!(f, blend_ref(b1, sf, 1, 2));
}

#[test]
fn same_glyph_blends_foregrounds() {
    let sf = (200, 0, 0, 255);
    let df = (0, 0, 0, 255);
    let mut src = Console::new(1, 1);
    src.cell(0, 0, Some(65), Some(sf), Some((5, 5, 5, 255)));
    let mut dst = Console::new(1, 1);
    dst.cell(0, 0, Some(65), Some(df), None);
    src.blit(0, 0, &mut dst, 1, 2, 0, 1, None);
    let (g, f, _) = cell_of(&dst, 0, 0);
    assert_eq!(g, 65);
    assert_eq!(f, blend_ref(df, sf, 1, 2));
}

#[test]
fn crossfade_below_half_keeps_destination_glyph() {
    let df = (200, 200, 200, 255);
    let mut src = Console::new(1, 1);
    src.cell(0, 0, Some(66), Some((1, 2, 3, 255)), Some((5, 5, 5, 255)));
    let mut dst = Console::new(1, 1);
    dst.cell(0, 0, Some(65), Some(df), None);
    let db = (0, 0, 0, 255);
    src.blit(0, 0, &mut dst, 1, 4, 0, 1, None);
    let (g, f, _) = cell_of(&dst, 0, 0);
    // the old glyph dissolves toward the destination's own background
    assert_eq!(g, 65);
    assert_eq!(f, blend_ref(df, db, 2, 4));
}

#[test]
fn crossfade_above_half_switches_to_source_glyph() {
    let sf = (10, 200, 40, 255);
    let mut src = Console::new(1, 1);
    src.cell(0, 0, Some(66), Some(sf), Some((5, 5, 5, 255)));
    let mut dst = Console::new(1, 1);
    dst.cell(0, 0, Some(65), Some((200, 200, 200, 255)), None);
    let db = (0, 0, 0, 255);
    src.blit(0, 0, &mut dst, 3, 4, 0, 1, None);
    let (g, f, _) = cell_of(&dst, 0, 0);
    // the new glyph fades in from the destination background
    assert_eq!(g, 66);
    assert_eq!(f, blend_ref(db, sf, 2, 4));
}

#[test]
fn blit_ex_copies_a_sub_rectangle_with_clipping() {
    let mut src = Console::new(4, 4);
    for y in 0..4 {
        for x in 0..4 {
            src.cell(x, y, Some(100 + (x + 4 * y) as u16), None, Some((x as u8, y as u8, 0, 255)));
        }
    }
    let mut dst = Console::new(3, 3);
    // copy source region (1,1)..(3,3) to destination (-1,-1): only the
    // source cell (2,2) lands on the grid, at destination (0,0)
    src.blit_ex(1, 1, 3, 3, &mut dst, -1, -1, 1, 1, 1, 1, None);
    assert_eq!(cell_of(&dst, 0, 0), cell_of(&src, 2, 2));
    assert_eq!(cell_of(&dst, 1, 0).0, 32);
    assert_eq!(cell_of(&dst, 0, 1).0, 32);
}
