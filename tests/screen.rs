use oros::vga::{print_string, Color, ColorCode, ScreenChar, Writer, BUFFER_HEIGHT, BUFFER_WIDTH};

fn bottom_text(w: &Writer, len: usize) -> Vec<u8> {
    (0..len).map(|c| w.char_at(BUFFER_HEIGHT - 1, c).ascii_char).collect()
}

#[test]
fn color_code_packs_background_high() {
    assert_eq!(Color::Yellow.value(), 14);
    assert_eq!(Color::White.value(), 15);
    let code = ColorCode::new(Color::Yellow, Color::Black);
    assert_eq!(code, ColorCode::new(Color::Yellow, Color::Black));
    assert_ne!(code, ColorCode::new(Color::Black, Color::Yellow));
}

#[test]
fn write_string_goes_to_bottom_row() {
    let mut w = Writer::new();
    w.write_string("Hi!");
    assert_eq!(bottom_text(&w, 3), b"Hi!".to_vec());
    assert_eq!(w.column_position(), 3);
    let code = ColorCode::new(Color::Yellow, Color::Black);
    assert_eq!(w.char_at(BUFFER_HEIGHT - 1, 0), ScreenChar { ascii_char: b'H', color_code: code });
}

#[test]
fn newline_scrolls_up() {
    let mut w = Writer::new();
    w.write_string("Some test string that fits on a single line\n");
    let s = b"Some test string that fits on a single line";
    for (i, c) in s.iter().enumerate() {
        assert_eq!(w.char_at(BUFFER_HEIGHT - 2, i).ascii_char, *c);
    }
    assert_eq!(w.char_at(BUFFER_HEIGHT - 1, 0).ascii_char, b' ');
    assert_eq!(w.column_position(), 0);
}

#[test]
fn full_row_wraps_to_new_line() {
    let mut w = Writer::new();
    for _ in 0..BUFFER_WIDTH {
        w.write_byte(b'a');
    }
    assert_eq!(w.column_position(), BUFFER_WIDTH);
    w.write_byte(b'b');
    assert_eq!(w.char_at(BUFFER_HEIGHT - 2, BUFFER_WIDTH - 1).ascii_char, b'a');
    assert_eq!(w.char_at(BUFFER_HEIGHT - 1, 0).ascii_char, b'b');
    assert_eq!(w.column_position(), 1);
}

#[test]
fn non_ascii_shows_as_block() {
    let mut w = Writer::new();
    w.write_string("aé\t");
    // 'é' is two bytes, the tab one: each shows as a block
    assert_eq!(bottom_text(&w, 4), vec![b'a', 0xfe, 0xfe, 0xfe]);
}

#[test]
fn many_lines_keep_last_ones() {
    let mut w = Writer::new();
    for i in 0..100u32 {
        w.write_string(&format!("line {}\n", i));
    }
    assert_eq!(bottom_text(&w, 1), vec![b' ']);
    let row: Vec<u8> = (0..7).map(|c| w.char_at(BUFFER_HEIGHT - 2, c).ascii_char).collect();
    assert_eq!(row, b"line 99".to_vec());
}

#[test]
fn print_string_writes_greeting() {
    let w = print_string();
    assert_eq!(bottom_text(&w, 19), b"Hello,  WorlD!!!!!!".to_vec());
    assert_eq!(w.column_position(), 19);
}
