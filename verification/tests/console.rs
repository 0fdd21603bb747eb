use tinix::console::{Console, ScreenCharacter, DEFAULT_TEXT_COLOR, ERROR_TEXT_COLOR};
use tinix::graphics::Color;
use tinix::io::IoWriter;

fn row(console: &Console, y: usize) -> String {
    (0..80).map(|x| console.cell(x, y).character as char).collect::<String>().trim_end().to_string()
}

#[test]
fn a_new_console_is_blank() {
    let console = Console::new(DEFAULT_TEXT_COLOR);
    assert_eq!(console.position(), (0, 0));
    assert_eq!(console.color(), 0x1F);
    assert_eq!(console.cursor(), None);
    for y in 0..25 {
        for x in 0..80 {
            assert_eq!(console.cell(x, y), ScreenCharacter { character: b' ', color: 0x1F });
        }
    }
}

#[test]
fn printable_bytes_are_shown_and_move_the_cursor() {
    let mut console = Console::new(ERROR_TEXT_COLOR);
    console.write_byte(b'A');
    console.write_byte(b'~');
    console.write_byte(b' ');
    assert_eq!(console.position(), (3, 0));
    assert_eq!(console.cell(0, 0), ScreenCharacter { character: b'A', color: 0x40 });
    assert_eq!(console.cell(1, 0).character, b'~');
    assert_eq!(console.cell(2, 0).character, b' ');
    // a byte without a picture is shown as a question mark
    console.write_byte(0x01);
    console.write_byte(0x80);
    console.write_byte(b'\t');
    assert_eq!(row(&console, 0), "A~ ???");
    assert_eq!(console.position(), (6, 0));
}

#[test]
fn control_bytes_move_the_cursor() {
    let mut console = Console::new(DEFAULT_TEXT_COLOR);
    console.write("abc");
    console.write_byte(b'\r');
    assert_eq!(console.position(), (0, 0));
    console.write_byte(b'X');
    assert_eq!(row(&console, 0), "Xbc");
    console.write_byte(b'\n');
    assert_eq!(console.position(), (0, 1));
    console.write("de");
    console.write_byte(0x08);
    assert_eq!(console.position(), (1, 1));
    assert_eq!(row(&console, 1), "d");
    console.write_byte(0x7F);
    assert_eq!(console.position(), (0, 1));
    assert_eq!(row(&console, 1), "");
    // at the start of a row the cursor does not step back
    console.write_byte(b'q');
    console.write_byte(b'\r');
    console.write_byte(0x08);
    assert_eq!(console.position(), (0, 1));
    assert_eq!(row(&console, 1), "");
    assert_eq!(row(&console, 0), "Xbc");
}

#[test]
fn write_at_a_position() {
    let mut console = Console::new(DEFAULT_TEXT_COLOR);
    console.write_byte_at_pos(b'Z', 79, 24);
    assert_eq!(console.cell(79, 24).character, b'Z');
    assert_eq!(console.position(), (80, 24));
    console.write_byte_at_pos(b'\n', 80, 3);
    assert_eq!(console.position(), (0, 4));
    console.home();
    assert_eq!(console.position(), (0, 0));
}

#[test]
fn the_last_row_scrolls() {
    let mut console = Console::new(DEFAULT_TEXT_COLOR);
    for y in 0..25u8 {
        console.write_byte_at_pos(b'a' + y, 0, y as usize);
    }
    console.write_byte(b'\n');
    assert_eq!(console.position(), (0, 24));
    for y in 0..24usize {
        assert_eq!(row(&console, y), ((b'b' + y as u8) as char).to_string());
    }
    assert_eq!(row(&console, 24), "");
    console.write_byte(b'!');
    assert_eq!(row(&console, 24), "!");
}

#[test]
fn text_wraps_at_the_end_of_a_row_and_stops_at_a_zero() {
    let mut console = Console::new(DEFAULT_TEXT_COLOR);
    let long = "x".repeat(85);
    console.write(&long);
    assert_eq!(row(&console, 0), "x".repeat(80));
    assert_eq!(row(&console, 1), "xxxxx");
    assert_eq!(console.position(), (5, 1));
    console.write("ab\0cd");
    assert_eq!(row(&console, 1), "xxxxxab");
    console.write("");
    console.write("\0zzz");
    assert_eq!(console.position(), (7, 1));
    // a row that is filled exactly leaves the cursor behind its last cell
    let mut exact = Console::new(DEFAULT_TEXT_COLOR);
    exact.write(&"y".repeat(80));
    assert_eq!(exact.position(), (80, 0));
    exact.write("z");
    assert_eq!(exact.position(), (1, 1));
    assert_eq!(row(&exact, 1), "z");
}

#[test]
fn clearing() {
    let mut console = Console::new(DEFAULT_TEXT_COLOR);
    console.write("one\ntwo\nthree");
    console.write_byte_at_pos(b'L', 3, 24);
    console.write_byte_at_pos(b'm', 10, 1);
    console.clear_current_row();
    assert_eq!(row(&console, 1), "");
    assert_eq!(console.position(), (80, 1));
    assert_eq!(row(&console, 0), "one");
    assert_eq!(row(&console, 2), "three");
    console.clear_last_row();
    assert_eq!(row(&console, 24), "");
    assert_eq!(console.position(), (80, 24));
    console.clear();
    for y in 0..25 {
        assert_eq!(row(&console, y), "");
    }
    assert_eq!(console.position(), (80, 24));
}

#[test]
fn colours_and_cursor() {
    let mut console = Console::new(DEFAULT_TEXT_COLOR);
    console.set_foreground_color(Color::Red);
    assert_eq!(console.color(), 0x14);
    console.set_background_color(Color::Black);
    assert_eq!(console.color(), 0x04);
    console.write_byte(b'r');
    assert_eq!(console.cell(0, 0), ScreenCharacter { character: b'r', color: 0x04 });
    assert_eq!(console.cell(1, 0).color, 0x1F);
    console.enable_cursor();
    assert_eq!(console.cursor(), Some((0, 0)));
    console.position_cursor(5, 6);
    assert_eq!(console.cursor(), Some((5, 6)));
    console.enable_cursor();
    assert_eq!(console.cursor(), Some((5, 6)));
    console.disable_cursor();
    assert_eq!(console.cursor(), None);
    console.position_cursor(1, 2);
    assert_eq!(console.cursor(), Some((1, 2)));
}
