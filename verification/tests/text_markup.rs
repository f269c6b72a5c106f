use doryen_rs::console::{Console, TextAlign};

const WHITE: (u8, u8, u8, u8) = (255, 255, 255, 255);
const RED: (u8, u8, u8, u8) = (255, 0, 0, 255);
const BLUE: (u8, u8, u8, u8) = (0, 0, 255, 255);

fn row_text(con: &Console, y: i32, width: i32) -> String {
    let mut s = String::new();
    for x in 0..width {
        s.push(char::from_u32(u32::from(con.get_ascii(x, y).unwrap())).unwrap());
    }
    s
}

#[test]
fn visible_length_subtracts_tag_syntax() {
    assert_eq!(Console::text_color_len("#[red]red text with a #[blue]blue#[] word"), 25);
    assert_eq!(Console::text_color_len("normal string"), 13);
}

#[test]
fn visible_length_counts_newlines_as_characters() {
    assert_eq!(Console::text_color_len("#[red]a\nb"), 3);
}

#[test]
fn print_left_aligned() {
    let mut con = Console::new(10, 3);
    con.print(2, 1, "abc", TextAlign::Left, Some(RED), None);
    assert_eq!(row_text(&con, 1, 10), "  abc     ");
    assert_eq!(con.get_fore(2, 1), Some(RED));
    assert_eq!(con.get_fore(5, 1), Some(WHITE));
}

#[test]
fn print_right_aligned_ends_at_anchor() {
    let mut con = Console::new(10, 3);
    con.print(5, 0, "abc", TextAlign::Right, None, None);
    assert_eq!(row_text(&con, 0, 10), "   abc    ");
}

#[test]
fn print_center_aligned() {
    let mut con = Console::new(10, 3);
    con.print(5, 0, "abcd", TextAlign::Center, None, None);
    assert_eq!(row_text(&con, 0, 10), "   abcd   ");
}

#[test]
fn print_clips_on_both_edges() {
    let mut con = Console::new(5, 2);
    con.print(-2, 0, "abcdefgh", TextAlign::Left, None, None);
    assert_eq!(row_text(&con, 0, 5), "cdefg");
    let mut con2 = Console::new(5, 2);
    con2.print(3, 0, "xyz", TextAlign::Left, None, None);
    assert_eq!(row_text(&con2, 0, 5), "   xy");
}

#[test]
fn print_splits_lines_on_newline() {
    let mut con = Console::new(6, 3);
    con.print(0, 0, "ab\ncd", TextAlign::Left, None, None);
    assert_eq!(row_text(&con, 0, 6), "ab    ");
    assert_eq!(row_text(&con, 1, 6), "cd    ");
    assert_eq!(row_text(&con, 2, 6), "      ");
}

#[test]
fn print_outside_rows_is_a_no_op() {
    let mut con = Console::new(4, 2);
    con.print(0, -1, "aa", TextAlign::Left, None, None);
    con.print(0, 2, "bb", TextAlign::Left, None, None);
    assert_eq!(row_text(&con, 0, 4), "    ");
    assert_eq!(row_text(&con, 1, 4), "    ");
}

#[test]
fn print_color_renders_registered_span() {
    let mut con = Console::new(10, 10);
    con.register_color("red", RED);
    con.print_color(0, 0, "#[red]Hi", TextAlign::Left, None);
    assert_eq!(con.get_ascii(0, 0), Some(u16::from(b'H')));
    assert_eq!(con.get_fore(0, 0), Some(RED));
    assert_eq!(con.get_ascii(1, 0), Some(u16::from(b'i')));
    assert_eq!(con.get_fore(1, 0), Some(RED));
    for x in 2..10 {
        assert_eq!(con.get_ascii(x, 0), Some(32));
        assert_eq!(con.get_fore(x, 0), Some(WHITE));
        assert_eq!(con.get_back(x, 0), Some((0, 0, 0, 255)));
    }
    for y in 1..10 {
        for x in 0..10 {
            assert_eq!(con.get_ascii(x, y), Some(32));
        }
    }
}

#[test]
fn print_color_empty_name_pops_back_to_previous_color() {
    let mut con = Console::new(30, 2);
    con.register_color("red", RED);
    con.register_color("blue", BLUE);
    con.print_color(0, 0, "#[red]ab#[blue]cd#[]ef", TextAlign::Left, None);
    assert_eq!(row_text(&con, 0, 7), "abcdef ");
    assert_eq!(con.get_fore(0, 0), Some(RED));
    assert_eq!(con.get_fore(1, 0), Some(RED));
    assert_eq!(con.get_fore(2, 0), Some(BLUE));
    assert_eq!(con.get_fore(3, 0), Some(BLUE));
    assert_eq!(con.get_fore(4, 0), Some(RED));
    assert_eq!(con.get_fore(5, 0), Some(RED));
}

#[test]
fn print_color_unknown_name_pops_like_empty_name() {
    let mut con = Console::new(20, 2);
    con.register_color("red", RED);
    con.print_color(0, 0, "#[red]ab#[nosuch]cd", TextAlign::Left, None);
    assert_eq!(con.get_fore(0, 0), Some(RED));
    // unknown name pops the stack: back to default white
    assert_eq!(con.get_fore(2, 0), Some(WHITE));
    assert_eq!(con.get_fore(3, 0), Some(WHITE));
}

#[test]
fn print_color_alignment_uses_visible_length() {
    let mut con = Console::new(10, 2);
    con.register_color("red", RED);
    // visible text is "abc": right-aligned it ends at column 5
    con.print_color(5, 0, "#[red]abc", TextAlign::Right, None);
    assert_eq!(row_text(&con, 0, 10), "   abc    ");
}

#[test]
fn print_color_stack_does_not_persist_between_calls() {
    let mut con = Console::new(10, 3);
    con.register_color("red", RED);
    con.print_color(0, 0, "#[red]aa", TextAlign::Left, None);
    // a fresh call starts from default white again
    con.print_color(0, 1, "bb", TextAlign::Left, None);
    assert_eq!(con.get_fore(0, 1), Some(WHITE));
}

#[test]
fn register_color_replaces_an_existing_name() {
    let mut con = Console::new(8, 2);
    con.register_color("c", RED);
    con.register_color("c", BLUE);
    con.print_color(0, 0, "#[c]x", TextAlign::Left, None);
    assert_eq!(con.get_fore(0, 0), Some(BLUE));
}

#[test]
fn print_color_writes_optional_background() {
    let mut con = Console::new(6, 2);
    con.print_color(0, 0, "hi", TextAlign::Left, Some((3, 3, 3, 255)));
    assert_eq!(con.get_back(0, 0), Some((3, 3, 3, 255)));
    assert_eq!(con.get_back(1, 0), Some((3, 3, 3, 255)));
    assert_eq!(con.get_back(2, 0), Some((0, 0, 0, 255)));
}
