use min_rust_os::vga::{Colour, ColourCode, ScreenChar, Writer, BUFFER_HEIGHT, BUFFER_WIDTH};

fn writer() -> Writer {
    Writer::new(ColourCode::new(Colour::Pink, Colour::Black))
}

fn row_text(w: &Writer, row: usize) -> Vec<u8> {
    (0..BUFFER_WIDTH).map(|c| w.screen_char(row, c).ascii_character).collect()
}

#[test]
fn writer_starts_blank() {
    let w = writer();
    assert_eq!(w.column_position(), 0);
    for r in 0..BUFFER_HEIGHT {
        for c in 0..BUFFER_WIDTH {
            assert_eq!(w.screen_char(r, c), ScreenChar { ascii_character: b' ', colour_code: ColourCode(0x0d) });
        }
    }
}

#[test]
fn write_byte_fills_bottom_row() {
    let mut w = writer();
    w.write_byte(b'W');
    w.write_byte(b'e');
    assert_eq!(w.column_position(), 2);
    assert_eq!(w.screen_char(BUFFER_HEIGHT - 1, 0).ascii_character, b'W');
    assert_eq!(w.screen_char(BUFFER_HEIGHT - 1, 1).ascii_character, b'e');
    assert_eq!(w.screen_char(BUFFER_HEIGHT - 1, 1).colour_code, ColourCode(0x0d));
}

#[test]
fn newline_scrolls_up() {
    let mut w = writer();
    w.write_byte(b'a');
    w.write_byte(b'\n');
    assert_eq!(w.column_position(), 0);
    assert_eq!(w.screen_char(BUFFER_HEIGHT - 2, 0).ascii_character, b'a');
    assert_eq!(w.screen_char(BUFFER_HEIGHT - 1, 0).ascii_character, b' ');
}

#[test]
fn full_row_wraps() {
    let mut w = writer();
    for _ in 0..BUFFER_WIDTH {
        w.write_byte(b'x');
    }
    assert_eq!(w.column_position(), BUFFER_WIDTH);
    w.write_byte(b'y');
    assert_eq!(w.column_position(), 1);
    assert_eq!(row_text(&w, BUFFER_HEIGHT - 2), vec![b'x'; BUFFER_WIDTH]);
    assert_eq!(w.screen_char(BUFFER_HEIGHT - 1, 0).ascii_character, b'y');
}

#[test]
fn unprintable_bytes_show_as_block() {
    let mut w = writer();
    w.write_string("W\u{f6}rt!");
    let row = row_text(&w, BUFFER_HEIGHT - 1);
    assert_eq!(&row[..6], &[b'W', 0xfe, 0xfe, b'r', b't', b'!']);
    assert_eq!(w.column_position(), 6);
}

#[test]
fn test_println_output() {
    let mut w = writer();
    let s = "Some test string that fits on a single line";
    w.write_string("\n");
    w.write_string(s);
    w.write_string("\n");
    for (i, c) in s.chars().enumerate() {
        let screen_char = w.screen_char(BUFFER_HEIGHT - 2, i);
        assert_eq!(char::from(screen_char.ascii_character), c);
    }
}

#[test]
fn test_println_many() {
    let mut w = writer();
    for _ in 0..200 {
        w.write_string("test_println_many output\n");
    }
    assert_eq!(w.column_position(), 0);
    assert_eq!(&row_text(&w, BUFFER_HEIGHT - 2)[..24], b"test_println_many output");
}
