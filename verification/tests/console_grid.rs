use doryen_rs::console::{
    get_pot_value, Console, CHAR_CORNER_NE, CHAR_CORNER_NW, CHAR_CORNER_SE, CHAR_CORNER_SW,
    CHAR_LINE_H,
};

const WHITE: (u8, u8, u8, u8) = (255, 255, 255, 255);
const BLACK: (u8, u8, u8, u8) = (0, 0, 0, 255);

#[test]
fn pot_value_is_smallest_power_of_two() {
    assert_eq!(get_pot_value(0), 1);
    assert_eq!(get_pot_value(1), 1);
    assert_eq!(get_pot_value(2), 2);
    assert_eq!(get_pot_value(3), 4);
    assert_eq!(get_pot_value(16), 16);
    assert_eq!(get_pot_value(17), 32);
    assert_eq!(get_pot_value(1000), 1024);
}

#[test]
fn new_console_has_default_cells_and_pot_dims() {
    let con = Console::new(10, 6);
    assert_eq!(con.get_width(), 10);
    assert_eq!(con.get_height(), 6);
    assert_eq!(con.get_pot_width(), 16);
    assert_eq!(con.get_pot_height(), 8);
    assert_eq!(con.borrow_ascii().len(), 16 * 8);
    assert_eq!(con.borrow_foreground().len(), 16 * 8);
    assert_eq!(con.borrow_background().len(), 16 * 8);
    for y in 0..6 {
        for x in 0..10 {
            assert_eq!(con.get_ascii(x, y), Some(32));
            assert_eq!(con.get_fore(x, y), Some(WHITE));
            assert_eq!(con.get_back(x, y), Some(BLACK));
        }
    }
}

#[test]
fn resize_reinitializes_every_cell() {
    let mut con = Console::new(4, 4);
    con.ascii(1, 1, 65);
    con.fore(1, 1, (1, 2, 3, 4));
    con.back(1, 1, (5, 6, 7, 8));
    con.resize(7, 3);
    assert_eq!(con.get_width(), 7);
    assert_eq!(con.get_height(), 3);
    assert_eq!(con.get_pot_width(), 8);
    assert_eq!(con.get_pot_height(), 4);
    for y in 0..3 {
        for x in 0..7 {
            assert_eq!(con.get_ascii(x, y), Some(32));
            assert_eq!(con.get_fore(x, y), Some(WHITE));
            assert_eq!(con.get_back(x, y), Some(BLACK));
        }
    }
}

#[test]
fn checked_accessors_clip_to_the_grid() {
    let mut con = Console::new(3, 3);
    assert_eq!(con.get_ascii(3, 0), None);
    assert_eq!(con.get_ascii(0, 3), None);
    assert_eq!(con.get_fore(-1, 0), None);
    assert_eq!(con.get_back(0, -1), None);
    con.ascii(5, 5, 65);
    con.fore(-2, 1, (9, 9, 9, 9));
    con.back(1, -2, (9, 9, 9, 9));
    for y in 0..3 {
        for x in 0..3 {
            assert_eq!(con.get_ascii(x, y), Some(32));
            assert_eq!(con.get_fore(x, y), Some(WHITE));
            assert_eq!(con.get_back(x, y), Some(BLACK));
        }
    }
}

#[test]
fn unsafe_accessors_read_what_setters_wrote() {
    let mut con = Console::new(4, 4);
    con.unsafe_ascii(2, 3, 65);
    con.unsafe_fore(2, 3, (1, 2, 3, 4));
    con.unsafe_back(2, 3, (5, 6, 7, 8));
    assert_eq!(con.unsafe_get_ascii(2, 3), 65);
    assert_eq!(con.unsafe_get_fore(2, 3), (1, 2, 3, 4));
    assert_eq!(con.unsafe_get_back(2, 3), (5, 6, 7, 8));
}

#[test]
fn buffers_use_pot_width_stride() {
    let mut con = Console::new(5, 4);
    // pot width is 8: cell (3, 2) sits at index 3 + 2 * 8
    con.ascii(3, 2, 90);
    assert_eq!(con.borrow_ascii()[3 + 2 * 8], 90);
    con.back(4, 3, (7, 7, 7, 7));
    assert_eq!(con.borrow_background()[4 + 3 * 8], (7, 7, 7, 7));
}

#[test]
fn cell_writes_only_given_channels() {
    let mut con = Console::new(4, 4);
    con.cell(1, 2, Some(65), None, Some((9, 8, 7, 6)));
    assert_eq!(con.get_ascii(1, 2), Some(65));
    assert_eq!(con.get_fore(1, 2), Some(WHITE));
    assert_eq!(con.get_back(1, 2), Some((9, 8, 7, 6)));
}

#[test]
fn area_with_back_only_changes_only_backgrounds() {
    let mut con = Console::new(6, 6);
    con.ascii(2, 2, 65);
    con.fore(2, 2, (1, 1, 1, 1));
    con.area(1, 1, 3, 2, None, Some((10, 20, 30, 40)), None);
    for y in 0..6 {
        for x in 0..6 {
            let inside = (1..4).contains(&x) && (1..3).contains(&y);
            let expected_back = if inside { (10, 20, 30, 40) } else { BLACK };
            assert_eq!(con.get_back(x, y), Some(expected_back));
            // glyphs and foregrounds are untouched everywhere
            let expected_ascii = if x == 2 && y == 2 { 65 } else { 32 };
            let expected_fore = if x == 2 && y == 2 { (1, 1, 1, 1) } else { WHITE };
            assert_eq!(con.get_ascii(x, y), Some(expected_ascii));
            assert_eq!(con.get_fore(x, y), Some(expected_fore));
        }
    }
}

#[test]
fn area_clips_to_the_grid() {
    let mut con = Console::new(3, 3);
    con.area(-2, -2, 10, 10, None, Some((1, 2, 3, 4)), Some(88));
    for y in 0..3 {
        for x in 0..3 {
            assert_eq!(con.get_ascii(x, y), Some(88));
            assert_eq!(con.get_back(x, y), Some((1, 2, 3, 4)));
        }
    }
}

#[test]
fn clear_fills_the_whole_console() {
    let mut con = Console::new(4, 2);
    con.clear(Some((1, 1, 1, 1)), Some((2, 2, 2, 2)), Some(46));
    for y in 0..2 {
        for x in 0..4 {
            assert_eq!(con.get_ascii(x, y), Some(46));
            assert_eq!(con.get_fore(x, y), Some((1, 1, 1, 1)));
            assert_eq!(con.get_back(x, y), Some((2, 2, 2, 2)));
        }
    }
}

#[test]
fn two_by_two_rectangle_draws_exactly_four_corners() {
    let mut con = Console::new(5, 5);
    con.rectangle(1, 1, 2, 2, Some((1, 2, 3, 4)), None, Some(35));
    assert_eq!(con.get_ascii(1, 1), Some(CHAR_CORNER_NW));
    assert_eq!(con.get_ascii(2, 1), Some(CHAR_CORNER_NE));
    assert_eq!(con.get_ascii(1, 2), Some(CHAR_CORNER_SW));
    assert_eq!(con.get_ascii(2, 2), Some(CHAR_CORNER_SE));
    for y in 0..5 {
        for x in 0..5 {
            let corner = (1..3).contains(&x) && (1..3).contains(&y);
            if corner {
                assert_eq!(con.get_fore(x, y), Some((1, 2, 3, 4)));
            } else {
                // no edge, no interior fill, nothing else touched
                assert_eq!(con.get_ascii(x, y), Some(32));
                assert_eq!(con.get_fore(x, y), Some(WHITE));
            }
            assert_eq!(con.get_back(x, y), Some(BLACK));
        }
    }
}

#[test]
fn rectangle_draws_edges_and_optional_fill() {
    let mut con = Console::new(6, 6);
    con.rectangle(0, 0, 4, 4, None, None, Some(35));
    assert_eq!(con.get_ascii(0, 0), Some(CHAR_CORNER_NW));
    assert_eq!(con.get_ascii(3, 0), Some(CHAR_CORNER_NE));
    assert_eq!(con.get_ascii(0, 3), Some(CHAR_CORNER_SW));
    assert_eq!(con.get_ascii(3, 3), Some(CHAR_CORNER_SE));
    assert_eq!(con.get_ascii(1, 0), Some(CHAR_LINE_H));
    assert_eq!(con.get_ascii(2, 3), Some(CHAR_LINE_H));
    assert_eq!(con.get_ascii(0, 1), Some(179));
    assert_eq!(con.get_ascii(3, 2), Some(179));
    // interior fill
    assert_eq!(con.get_ascii(1, 1), Some(35));
    assert_eq!(con.get_ascii(2, 2), Some(35));
    // outside untouched
    assert_eq!(con.get_ascii(4, 0), Some(32));
    assert_eq!(con.get_ascii(0, 4), Some(32));
}

#[test]
fn borrow_mut_buffers_alias_the_grid() {
    let mut con = Console::new(4, 4);
    con.borrow_mut_ascii()[0] = 77;
    con.borrow_mut_foreground()[1] = (1, 2, 3, 4);
    con.borrow_mut_background()[2] = (5, 6, 7, 8);
    assert_eq!(con.get_ascii(0, 0), Some(77));
    assert_eq!(con.get_fore(1, 0), Some((1, 2, 3, 4)));
    assert_eq!(con.get_back(2, 0), Some((5, 6, 7, 8)));
}
