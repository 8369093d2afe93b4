use smash::vt100::{Todo, VTReader};

fn write_text(r: &mut VTReader, text: &[u8]) {
    r.read(text);
}

#[test]
fn utf8() {
    let mut r = VTReader::new();
    write_text(
        &mut r,
        &[0xE6, 0x97, 0xA5, 0xE6, 0x9C, 0xAC, 0xE8, 0xAA, 0x9E],
    );
    assert_eq!(r.state.vt.col, 3);
}

#[test]
fn trim() {
    let mut r = VTReader::new();
    write_text(&mut r, "hello, world\n".as_bytes());
    r.state.vt.trim();
    r.state.vt.dump();
    assert_eq!(r.state.vt.row, 0);
    assert_eq!(r.state.vt.col, 0);
    assert_eq!(r.state.vt.top, 0);
    assert_eq!(r.state.vt.lines.len(), 1);
}

#[test]
fn utf8_placeholder_cells() {
    let mut r = VTReader::new();
    write_text(
        &mut r,
        &[0xE6, 0x97, 0xA5, 0xE6, 0x9C, 0xAC, 0xE8, 0xAA, 0x9E],
    );
    assert_eq!(r.state.vt.row, 0);
    assert_eq!(r.state.vt.col, 3);
    for col in 0..3 {
        assert_eq!(r.state.vt.cell_at(0, col).ch, '?');
    }
}

#[test]
fn trim_keeps_line_content() {
    let mut r = VTReader::new();
    write_text(&mut r, b"hello, world\n");
    r.state.vt.trim();
    assert_eq!(r.state.vt.line_text(0), "hello, world");
}

#[test]
fn ascii_row_round_trip() {
    let mut r = VTReader::new();
    write_text(&mut r, b"hello");
    assert_eq!(r.state.vt.line_text(0), "hello");
    assert_eq!(r.state.vt.row, 0);
    assert_eq!(r.state.vt.col, 5);
}

#[test]
fn split_refill() {
    let mut r = VTReader::new();
    write_text(&mut r, &[0x1b, b'[', b'3']);
    // no partial attribute leaks out of an incomplete sequence
    assert_eq!(r.state.vt.attr.val, 0);
    assert_eq!(r.state.vt.lines.len(), 0);
    write_text(&mut r, b"1mX");
    let cell = r.state.vt.cell_at(0, 0);
    assert_eq!(cell.ch, 'X');
    // SGR 31 selects foreground color 31 - 30 = index 1
    assert_eq!(cell.attr.fg(), Some(1));
}

#[test]
fn cursor_hide() {
    let mut r = VTReader::new();
    write_text(&mut r, b"\x1b[?25l");
    assert_eq!(r.state.vt.hide_cursor, true);
    write_text(&mut r, b"\x1b[?25h");
    assert_eq!(r.state.vt.hide_cursor, false);
}

#[test]
fn inverse_toggle() {
    let mut r = VTReader::new();
    write_text(&mut r, b"\x1b[7mA\x1b[27mB");
    let a = r.state.vt.cell_at(0, 0);
    assert_eq!(a.ch, 'A');
    assert!(a.attr.inverse());
    let b = r.state.vt.cell_at(0, 1);
    assert_eq!(b.ch, 'B');
    assert!(!b.attr.inverse());
}

#[test]
fn secondary_da_reply() {
    let mut r = VTReader::new();
    write_text(&mut r, b"\x1b[>c");
    assert_eq!(r.state.outbound, b"\x1b[41;0;0c".to_vec());
}

#[test]
fn sgr_reset_restores_attr() {
    let mut r = VTReader::new();
    write_text(&mut r, b"\x1b[1;31m");
    assert_ne!(r.state.vt.attr.val, 0);
    write_text(&mut r, b"\x1b[0m");
    assert_eq!(r.state.vt.attr.val, 0);
    write_text(&mut r, b"\x1b[7m\x1b[m");
    assert_eq!(r.state.vt.attr.val, 0);
}

#[test]
fn unknown_sequence_logged_once() {
    let mut r = VTReader::new();
    write_text(&mut r, b"\x1b[q\x1b[q\x1b[q");
    assert_eq!(r.state.todos.len(), 1);
    assert_eq!(r.state.todos[0], Todo::UnhandledCsi(b'q'));
    write_text(&mut r, b"\x1b[w");
    assert_eq!(r.state.todos.len(), 2);
}

#[test]
fn osc_title_recorded_by_text() {
    let mut r = VTReader::new();
    write_text(&mut r, b"\x1b]0;one\x07\x1b]0;one\x07\x1b]0;two\x07");
    assert_eq!(r.state.todos.len(), 2);
    assert_eq!(r.state.todos[0], Todo::SetTitleIcon(b"one".to_vec()));
    assert_eq!(r.state.todos[1], Todo::SetTitleIcon(b"two".to_vec()));
}

#[test]
fn carriage_return_and_newline() {
    let mut r = VTReader::new();
    write_text(&mut r, b"ab\rc");
    assert_eq!(r.state.vt.line_text(0), "cb");
    write_text(&mut r, b"\nxy");
    assert_eq!(r.state.vt.row, 1);
    assert_eq!(r.state.vt.line_text(1), "xy");
}

#[test]
fn tab_and_backspace() {
    let mut r = VTReader::new();
    write_text(&mut r, b"a\tb");
    assert_eq!(r.state.vt.col, 9);
    write_text(&mut r, b"\x08");
    assert_eq!(r.state.vt.col, 8);
}

#[test]
fn cursor_moves() {
    let mut r = VTReader::new();
    write_text(&mut r, b"\x1b[2;3Hx");
    assert_eq!(r.state.vt.row, 1);
    assert_eq!(r.state.vt.col, 3);
    assert_eq!(r.state.vt.cell_at(1, 2).ch, 'x');
    write_text(&mut r, b"\x1b[A");
    assert_eq!(r.state.vt.row, 0);
    write_text(&mut r, b"\x1b[2B");
    assert_eq!(r.state.vt.row, 2);
    write_text(&mut r, b"\x1b[2D");
    assert_eq!(r.state.vt.col, 1);
    write_text(&mut r, b"\x1b[3C");
    assert_eq!(r.state.vt.col, 4);
    write_text(&mut r, b"\x1b[5d");
    assert_eq!(r.state.vt.row, 4);
}

#[test]
fn delete_chars_shifts_left() {
    let mut r = VTReader::new();
    write_text(&mut r, b"abcd\r\x1b[2P");
    assert_eq!(r.state.vt.line_text(0), "cd");
}

#[test]
fn insert_blanks_keeps_cursor() {
    let mut r = VTReader::new();
    write_text(&mut r, b"ab\r\x1b[2@");
    assert_eq!(r.state.vt.line_text(0), "  ab");
    assert_eq!(r.state.vt.col, 0);
}

#[test]
fn erase_line_right() {
    let mut r = VTReader::new();
    write_text(&mut r, b"abcd\r\x1b[C\x1b[K");
    assert_eq!(r.state.vt.line_text(0), "a");
}

#[test]
fn erase_display() {
    let mut r = VTReader::new();
    write_text(&mut r, b"one\r\ntwo\x1b[2J");
    assert_eq!(r.state.vt.line_text(0), "");
    assert_eq!(r.state.vt.line_text(1), "");
    assert_eq!(r.state.vt.lines.len(), 2);
}

#[test]
fn wrap_at_width() {
    let mut r = VTReader::new();
    let mut bytes = Vec::new();
    for _ in 0..81 {
        bytes.push(b'x');
    }
    write_text(&mut r, &bytes);
    assert_eq!(r.state.vt.row, 1);
    assert_eq!(r.state.vt.col, 1);
    assert_eq!(r.state.vt.lines[0].len(), 80);
}

#[test]
fn viewport_follows_cursor() {
    let mut r = VTReader::new();
    let mut bytes = Vec::new();
    for _ in 0..30 {
        bytes.extend_from_slice(b"line\n");
    }
    write_text(&mut r, b"x");
    write_text(&mut r, &bytes);
    write_text(&mut r, b"y");
    assert_eq!(r.state.vt.row, 30);
    assert_eq!(r.state.vt.top, 6);
    assert!(r.state.vt.row < r.state.vt.top + r.state.vt.height);
}

#[test]
fn refill_in_rounds() {
    // chunks larger than the 4 KiB scanner are absorbed in rounds,
    // losing no byte
    let mut r = VTReader::new();
    let bytes = vec![b'x'; 5000];
    let accepted = r.read(&bytes);
    assert_eq!(accepted, 5000);
    assert_eq!(r.state.vt.row, 62);
    assert_eq!(r.state.vt.col, 40);
}

#[test]
fn oversized_sequence_stalls() {
    // one incomplete sequence larger than the whole scanner cannot be
    // resumed: the reader reports how much it took and applies nothing
    let mut r = VTReader::new();
    let mut bytes = vec![0x1b, b']', b'0', b';'];
    bytes.extend(vec![b'x'; 5000]);
    bytes.push(0x07);
    let accepted = r.read(&bytes);
    assert_eq!(accepted, 4096);
    assert_eq!(r.state.vt.lines.len(), 0);
    assert_eq!(r.state.todos.len(), 0);
}

#[test]
fn malformed_osc_recorded_once() {
    let mut r = VTReader::new();
    write_text(&mut r, b"\x1b]2X\x1b]2X");
    assert_eq!(r.state.todos.len(), 1);
    assert_eq!(r.state.todos[0], Todo::MalformedOsc(2, b'X'));
}
