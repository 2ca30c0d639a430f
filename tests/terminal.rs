use sesh_term::{Bytes, CursorPos, Terminal, TerminalOutput, Transfer, write_progress};

fn feed(t: &mut Terminal, chunks: &[&[u8]]) {
    for chunk in chunks {
        t.read(chunk);
    }
    t.flush();
}

#[test]
fn text_moves_the_cursor_byte_by_byte() {
    let mut t = Terminal::new();
    feed(&mut t, &[b"ab\tc"]);
    assert_eq!(*t.cursor_pos(), CursorPos::new(7, 0));
    feed(&mut t, &[b"\r"]);
    assert_eq!(*t.cursor_pos(), CursorPos::new(0, 0));
    feed(&mut t, &[b"xy\nz"]);
    assert_eq!(*t.cursor_pos(), CursorPos::new(1, 1));
    assert_eq!(t.buffer(), b"ab\tc\rxy\nz");
}

#[test]
fn cursor_update_counts_bytes() {
    let mut c = CursorPos::new(3, 2);
    c.update(b"");
    assert_eq!(c, CursorPos::new(3, 2));
    c.update("é".as_bytes());
    assert_eq!(c, CursorPos::new(5, 2));
    c.update(b"\t\n\t");
    assert_eq!(c, CursorPos::new(4, 3));
    let mut far = CursorPos::new(usize::MAX - 1, usize::MAX);
    far.update(b"\t\n");
    assert_eq!(far, CursorPos::new(0, usize::MAX));
}

#[test]
fn set_cursor_pos_converts_to_zero_based() {
    let mut t = Terminal::new();
    t.read(b"abc\x1b[3;5H");
    assert_eq!(*t.cursor_pos(), CursorPos::new(4, 2));
    assert_eq!(t.buffer(), b"abc");
    t.read(b"\x1b[0;0H");
    assert_eq!(*t.cursor_pos(), CursorPos::new(0, 0));
}

#[test]
fn buffer_pos_counts_the_newlines_of_rows_above() {
    let buf: &[u8] = b"line1\nline2\nline3";
    assert_eq!(CursorPos::new(2, 1).to_buffer_pos(buf), 8);
    assert_eq!(CursorPos::new(0, 0).to_buffer_pos(buf), 0);
    assert_eq!(CursorPos::new(4, 2).to_buffer_pos(buf), 16);
    // Rows below the last one start at the end of the buffer.
    assert_eq!(CursorPos::new(3, 7).to_buffer_pos(buf), 20);
    assert_eq!(CursorPos::new(usize::MAX, 1).to_buffer_pos(buf), usize::MAX);
    assert_eq!(CursorPos::new(1, 1).to_buffer_pos(b""), 1);
}

#[test]
fn clear_forwards_truncates_at_the_cursor() {
    let mut t = Terminal::new();
    feed(&mut t, &[b"line1\nline2\nline3"]);
    t.apply(&TerminalOutput::SetCursorPos { x: 3, y: 2 });
    assert_eq!(*t.cursor_pos(), CursorPos::new(2, 1));
    t.apply(&TerminalOutput::ClearForwards);
    assert_eq!(t.buffer(), b"line1\nli");
    assert_eq!(*t.cursor_pos(), CursorPos::new(2, 1));
}

#[test]
fn clear_backwards_drops_up_to_the_cursor() {
    let mut t = Terminal::new();
    t.read(b"line1\nline2\nline3\x1b[2;3H\x1b[1J");
    assert_eq!(t.buffer(), b"ne2\nline3");
    assert_eq!(*t.cursor_pos(), CursorPos::new(2, 1));
}

#[test]
fn clear_beyond_the_buffer_and_clear_all() {
    let mut t = Terminal::new();
    t.read(b"abc\x1b[9;9H\x1b[J");
    assert_eq!(t.buffer(), b"abc");
    t.read(b"\x1b[1J");
    assert_eq!(t.buffer(), b"");
    t.read(b"xyz\x1b[2J");
    assert_eq!(t.buffer(), b"");
    assert_eq!(*t.cursor_pos(), CursorPos::new(0, 0));
}

#[test]
fn save_and_restore_cursor() {
    let mut t = Terminal::new();
    t.read(b"ab");
    t.read(b"\x1b[s");
    t.read(b"\x1b[5;7Hxyz\n");
    assert_eq!(*t.cursor_pos(), CursorPos::new(6, 4));
    t.read(b"\x1b[u");
    assert_eq!(t.buffer(), b"abxyz\n");
    assert_eq!(*t.cursor_pos(), CursorPos::new(2, 0));
    let before = t.buffer().to_vec();
    t.read(b"\x1b[u");
    assert_eq!(*t.cursor_pos(), CursorPos::new(2, 0));
    assert_eq!(t.buffer(), before.as_slice());
    // A second save overwrites the first.
    t.read(b"\x1b[s\x1b[3;3H\x1b[s\x1b[9;9H\x1b[u");
    assert_eq!(*t.cursor_pos(), CursorPos::new(2, 2));
}

#[test]
fn restore_without_save_is_a_no_op() {
    let mut t = Terminal::new();
    t.read(b"hi\x1b[u");
    assert_eq!(*t.cursor_pos(), CursorPos::new(2, 0));
    assert_eq!(t.buffer(), b"hi");
}

#[test]
fn escapes_never_reach_the_buffer() {
    let mut t = Terminal::new();
    feed(&mut t, &[b"a\x1b[1", b";xHb\x1b", b"7c\x1b[0md"]);
    assert_eq!(t.buffer(), b"abcd");
    t.apply(&TerminalOutput::Ansi(Bytes::Owned(b"\x1b[0m".to_vec())));
    assert_eq!(t.buffer(), b"abcd");
}

#[test]
fn same_screen_whatever_the_chunks() {
    let stream: &[u8] = b"one\ntwo\x1b[1;2Hthree\x1b[s\nfour\x1b[2;1H\x1b[J\x1b[ufive";
    let mut whole = Terminal::new();
    feed(&mut whole, &[stream]);
    for cut in 0..=stream.len() {
        let mut t = Terminal::new();
        feed(&mut t, &[&stream[..cut], &stream[cut..]]);
        assert_eq!(t.buffer(), whole.buffer(), "cut at {}", cut);
        assert_eq!(t.cursor_pos(), whole.cursor_pos(), "cut at {}", cut);
    }
}

#[test]
fn cursor_offset_for_the_renderer() {
    let mut t = Terminal::new();
    assert_eq!(t.char_to_cursor_offset(), (0, -1));
    feed(&mut t, &[b"ab\ncd\nef"]);
    assert_eq!(t.char_to_cursor_offset(), (2, -1));
    t.read(b"\x1b[1;4H");
    assert_eq!(t.char_to_cursor_offset(), (3, -3));
}

#[test]
fn write_progress_steps() {
    assert_eq!(write_progress(10, Transfer::Done(4)), Some(6));
    assert_eq!(write_progress(6, Transfer::Done(6)), Some(0));
    assert_eq!(write_progress(6, Transfer::WouldBlock), Some(6));
    assert_eq!(write_progress(6, Transfer::Failed), None);
}

#[test]
fn read_keeps_trailing_text_pending() {
    let mut t = Terminal::new();
    t.read(b"a");
    assert_eq!(t.buffer(), b"");
    assert_eq!(*t.cursor_pos(), CursorPos::new(0, 0));
    t.read(b"b\x1b[s");
    assert_eq!(t.buffer(), b"ab");
    assert_eq!(*t.cursor_pos(), CursorPos::new(2, 0));
    t.read(b"cd");
    assert_eq!(t.buffer(), b"ab");
    t.flush();
    assert_eq!(t.buffer(), b"abcd");
    assert_eq!(*t.cursor_pos(), CursorPos::new(4, 0));
    t.flush();
    assert_eq!(t.buffer(), b"abcd");
}
