use sesh_term::{AnsiBuilder, Bytes, CsiParser, CsiState, IsTerminator, OutputParser, Span, TerminalOutput};

fn owned(o: &TerminalOutput) -> TerminalOutput<'static> {
    match o {
        TerminalOutput::Ansi(b) => TerminalOutput::Ansi(Bytes::Owned(b.as_slice().to_vec())),
        TerminalOutput::Text(b) => TerminalOutput::Text(Bytes::Owned(b.as_slice().to_vec())),
        TerminalOutput::SetCursorPos { x, y } => TerminalOutput::SetCursorPos { x: *x, y: *y },
        TerminalOutput::ClearForwards => TerminalOutput::ClearForwards,
        TerminalOutput::ClearBackwards => TerminalOutput::ClearBackwards,
        TerminalOutput::ClearAll => TerminalOutput::ClearAll,
        TerminalOutput::RestoreCursorPos => TerminalOutput::RestoreCursorPos,
        TerminalOutput::SaveCursorPos => TerminalOutput::SaveCursorPos,
    }
}

fn text(b: &[u8]) -> TerminalOutput<'static> {
    TerminalOutput::Text(Bytes::Owned(b.to_vec()))
}

fn ansi(b: &[u8]) -> TerminalOutput<'static> {
    TerminalOutput::Ansi(Bytes::Owned(b.to_vec()))
}

/// Parses the chunks in order, then flushes, with every output owned.
fn parse_all(chunks: &[&[u8]]) -> Vec<TerminalOutput<'static>> {
    let mut parser = OutputParser::new();
    let mut all = Vec::new();
    for chunk in chunks {
        for o in parser.parse(chunk).iter() {
            all.push(owned(o));
        }
    }
    if let Some(o) = parser.flush() {
        all.push(o);
    }
    all
}

#[test]
fn test_parser() {
    let mut parser = OutputParser::new();
    let input = b"hello\x1B[1;12Hworld\x1b[0".to_vec();
    let output = parser.parse(&input);
    assert_eq!(output.len(), 3);
    assert_eq!(output[0], TerminalOutput::Text(Bytes::Borrowed(b"hello")));
    let TerminalOutput::Text(Bytes::Borrowed(slice)) = output[0] else {
        panic!("previous assertion should have caught this");
    };
    assert_eq!(slice.len(), 5);
    assert_eq!(output[1], TerminalOutput::SetCursorPos { x: 12, y: 1 });
    assert_eq!(output[2], TerminalOutput::Text(Bytes::Borrowed(b"world")));
    let TerminalOutput::Text(Bytes::Borrowed(slice)) = output[2] else {
        panic!("previous assertion should have caught this");
    };
    assert_eq!(slice.len(), 5);
    assert_eq!(parser.partial_len(), 0);
    match parser.state() {
        AnsiBuilder::Csi(csi_parser) => {
            // the \x1B[ are not included in the buffer
            assert_eq!(csi_parser.pending_digits(), b"0".to_vec());
        }
        _ => panic!("parser state should be AnsiBuilder::Csi"),
    }
    let input2 = b"m";
    let output2 = parser.parse(input2);
    assert_eq!(output2.len(), 1);
    assert_eq!(parser.partial_len(), 0);
    match parser.state() {
        AnsiBuilder::Empty => {}
        _ => panic!("parser state should be AnsiBuilder::Empty"),
    }
}

#[test]
fn split_at_every_boundary_gives_the_same_outputs() {
    let stream: &[u8] = b"ab\x1b[1;2Hcd\x1b[2Jxy\x1b[s\x1b[;7Hq\x1b[u\x1b[1;xHok\x1b7z\x1b[0mtail";
    let whole = parse_all(&[stream]);
    assert!(whole.len() > 5);
    for cut in 0..=stream.len() {
        let split = parse_all(&[&stream[..cut], &stream[cut..]]);
        assert_eq!(split, whole, "cut at {}", cut);
    }
}

#[test]
fn empty_chunk_emits_nothing() {
    let mut parser = OutputParser::new();
    assert!(parser.parse(b"").is_empty());
    assert!(parser.flush().is_none());
    assert!(parser.parse(b"abc").is_empty());
    assert!(parser.parse(b"").is_empty());
    assert_eq!(parser.partial_len(), 3);
    assert_eq!(parser.flush(), Some(text(b"abc")));
    assert!(parser.flush().is_none());
    assert!(parser.parse(b"").is_empty());
}

#[test]
fn text_accumulates_until_escape_or_flush() {
    let mut parser = OutputParser::new();
    assert!(parser.parse(b"hello").is_empty());
    assert_eq!(parser.partial_len(), 5);
    assert_eq!(parser.flush(), Some(text(b"hello")));

    let mut parser = OutputParser::new();
    assert!(parser.parse(b"hel").is_empty());
    assert!(parser.parse(b"lo").is_empty());
    let out = parser.parse(b"\x1b");
    assert_eq!(out.len(), 1);
    assert_eq!(owned(&out[0]), text(b"hello"));
    // The text crossed a chunk boundary, so it was copied.
    let TerminalOutput::Text(b) = &out[0] else { panic!("expected text") };
    assert!(!b.is_borrowed());
}

#[test]
fn csi_cursor_positioning() {
    let mut parser = OutputParser::new();
    let out = parser.parse(b"hello\x1B[1;12Hworld");
    assert_eq!(out.len(), 2);
    assert_eq!(out[0], TerminalOutput::Text(Bytes::Borrowed(b"hello")));
    assert_eq!(out[1], TerminalOutput::SetCursorPos { x: 12, y: 1 });
    assert_eq!(parser.partial_len(), 5);
    assert!(matches!(parser.state(), AnsiBuilder::Empty));
    assert_eq!(parser.flush(), Some(text(b"world")));
}

#[test]
fn split_csi_sequence() {
    let mut parser = OutputParser::new();
    assert!(parser.parse(b"\x1B[1;1").is_empty());
    let out = parser.parse(b"2H");
    assert_eq!(out, vec![TerminalOutput::SetCursorPos { x: 12, y: 1 }]);
}

#[test]
fn malformed_csi_is_dropped_and_parsing_goes_on() {
    let out = parse_all(&[b"\x1B[1;xHok\x1b[2;3H"]);
    assert_eq!(out, vec![ansi(b"\x1b[1;xH"), text(b"ok"), TerminalOutput::SetCursorPos { x: 3, y: 2 }]);
    // An escape inside a sequence is malformed too.
    let out = parse_all(&[b"a\x1b[1\x1bHb"]);
    assert_eq!(out, vec![text(b"a"), ansi(b"\x1b[1\x1bH"), text(b"b")]);
}

#[test]
fn cursor_position_arguments() {
    assert_eq!(parse_all(&[b"\x1b[H"]), vec![TerminalOutput::SetCursorPos { x: 1, y: 1 }]);
    assert_eq!(parse_all(&[b"\x1b[5H"]), vec![TerminalOutput::SetCursorPos { x: 1, y: 5 }]);
    assert_eq!(parse_all(&[b"\x1b[;5H"]), vec![TerminalOutput::SetCursorPos { x: 5, y: 1 }]);
    assert_eq!(parse_all(&[b"\x1b[3;4;9H"]), vec![TerminalOutput::SetCursorPos { x: 4, y: 3 }]);
    assert_eq!(parse_all(&[b"\x1b[0;0H"]), vec![TerminalOutput::SetCursorPos { x: 0, y: 0 }]);
    assert_eq!(
        parse_all(&[b"\x1b[99999999999999999999999999;7H"]),
        vec![TerminalOutput::SetCursorPos { x: 7, y: usize::MAX }]
    );
}

#[test]
fn clear_arguments() {
    assert_eq!(parse_all(&[b"\x1b[J"]), vec![TerminalOutput::ClearForwards]);
    assert_eq!(parse_all(&[b"\x1b[0J"]), vec![TerminalOutput::ClearForwards]);
    assert_eq!(parse_all(&[b"\x1b[1J"]), vec![TerminalOutput::ClearBackwards]);
    assert_eq!(parse_all(&[b"\x1b[2J"]), vec![TerminalOutput::ClearAll]);
    assert_eq!(parse_all(&[b"\x1b[2;1J"]), vec![TerminalOutput::ClearAll]);
    assert_eq!(parse_all(&[b"\x1b[3J"]), vec![ansi(b"\x1b[3J")]);
}

#[test]
fn save_restore_and_unhandled_sequences() {
    assert_eq!(parse_all(&[b"\x1b[s"]), vec![TerminalOutput::SaveCursorPos]);
    assert_eq!(parse_all(&[b"\x1b[u"]), vec![TerminalOutput::RestoreCursorPos]);
    assert_eq!(parse_all(&[b"\x1b[0m"]), vec![ansi(b"\x1b[0m")]);
    assert_eq!(parse_all(&[b"\x1b[", b"3", b"1;1", b"m"]), vec![ansi(b"\x1b[31;1m")]);
    assert_eq!(parse_all(&[b"\x1b[K"]), vec![ansi(b"\x1b[K")]);
}

#[test]
fn bare_escapes() {
    assert_eq!(parse_all(&[b"a\x1b7b"]), vec![text(b"a"), ansi(b"\x1b7"), text(b"b")]);
    assert_eq!(parse_all(&[b"\x1b\x1b[s"]), vec![ansi(b"\x1b"), TerminalOutput::SaveCursorPos]);
    let mut parser = OutputParser::new();
    assert!(parser.parse(b"x\x1b").len() == 1);
    assert!(matches!(parser.state(), AnsiBuilder::Esc));
    assert_eq!(parser.partial_len(), 0);
    assert!(parser.flush().is_none());
}

#[test]
fn terminator_bytes() {
    let expected: Vec<u8> = b"ABCDEFGHJKSTfmsu".to_vec();
    for b in 0..=255u8 {
        assert_eq!(b.is_csi_terminator(), expected.contains(&b), "byte {}", b);
    }
}

#[test]
fn csi_parser_keeps_digits_across_chunks() {
    let mut csi = CsiParser::new();
    assert!(!csi.has_incomplete_output());
    let chunk: &[u8] = b"12";
    csi.push(chunk, 0);
    csi.push(chunk, 1);
    assert!(csi.has_incomplete_output());
    assert!(matches!(csi.state(), CsiState::Argument(Span::View { start: 0, len: 2 })));
    csi.take_incomplete(chunk);
    assert!(matches!(csi.state(), CsiState::Argument(Span::Owned(_))));
    assert_eq!(csi.pending_digits(), b"12".to_vec());
    let next: &[u8] = b"3;4H";
    for i in 0..next.len() {
        csi.push(next, i);
    }
    assert!(csi.is_finished());
    assert!(!csi.has_incomplete_output());
    assert_eq!(*csi.state(), CsiState::Finished(b'H'));
    assert_eq!(csi.output(next), TerminalOutput::SetCursorPos { x: 4, y: 123 });
}

#[test]
fn csi_parser_copies_digits_after_invalid_byte() {
    let mut csi = CsiParser::new();
    let chunk: &[u8] = b"1x2H";
    csi.push(chunk, 0);
    csi.push(chunk, 1);
    assert!(matches!(csi.state(), CsiState::Argument(Span::Owned(_))));
    csi.push(chunk, 2);
    csi.push(chunk, 3);
    assert_eq!(csi.output(chunk), ansi(b"\x1b[1x2H"));
}

#[test]
fn span_grows_in_place_and_copies_across_gaps() {
    let chunk: &[u8] = b"abcdef";
    let mut s = Span::empty();
    s.push_byte(chunk, 1);
    s.push_byte(chunk, 2);
    assert_eq!(s, Span::View { start: 1, len: 2 });
    assert_eq!(s.len(), 2);
    s.push_byte(chunk, 4);
    assert_eq!(s, Span::Owned(b"bce".to_vec()));
    assert_eq!(s.to_vec(chunk), b"bce".to_vec());
    let mut v = Span::View { start: 3, len: 3 };
    v.detach(chunk);
    assert_eq!(v, Span::Owned(b"def".to_vec()));
    let b = Span::View { start: 0, len: 2 }.into_bytes(chunk);
    assert!(b.is_borrowed());
    assert_eq!(b.as_slice(), b"ab");
    assert_eq!(Span::View { start: 0, len: 2 }.byte_at(chunk, 1), b'b');
}

#[test]
fn text_in_one_piece_is_borrowed() {
    let mut parser = OutputParser::new();
    let out = parser.parse(b"ab\x1b[Hcd\x1b[sef");
    assert_eq!(out.len(), 4);
    for o in out.iter() {
        if let TerminalOutput::Text(b) = o {
            assert!(b.is_borrowed());
        }
    }
    // "ef" was carried over: it comes out owned, later text borrowed.
    let out = parser.parse(b"gh\x1bij\x1b");
    assert_eq!(out.len(), 3);
    assert_eq!(owned(&out[0]), text(b"efgh"));
    let TerminalOutput::Text(first) = &out[0] else { panic!("expected text") };
    assert!(!first.is_borrowed());
    assert_eq!(out[2], TerminalOutput::Text(Bytes::Borrowed(b"j")));
}
