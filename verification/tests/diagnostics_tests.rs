use compiler_lib::asciifile::{AsciiFile, MaybeSpanned, Position, Span, Spanned};
use compiler_lib::diagnostics::render::{lines, LineFormatter, LineNumberFormatter};
use compiler_lib::diagnostics::{
    decimal, pad_left, pad_left_with_char, u8_to_printable_representation, Color, Diagnostics,
    Message, MessageLevel, Printable, Segment,
};

#[test]
fn test_pad_left() {
    let tests = vec![("a", "    a"), ("", "          "), ("a", "a"), ("", "")];

    for (input, expected) in tests {
        println!("Testing: {:?} => {:?}", input, expected);
        assert_eq!(expected, pad_left(input, expected.len()));
    }

    // not enough padding does not truncate string
    assert_eq!("a", pad_left("a", 0));
}

#[test]
fn pad_left_with_another_character() {
    assert_eq!(pad_left_with_char("42", 5, '0'), "00042");
    assert_eq!(pad_left_with_char("12345678", 5, '0'), "12345678");
}

#[test]
fn bytes_are_escaped_as_the_standard_library_escapes_them() {
    for byte in 0u8..=255 {
        let expected: Vec<u8> = std::ascii::escape_default(byte).collect();
        assert_eq!(u8_to_printable_representation(byte), expected);
    }
    assert_eq!(u8_to_printable_representation(0x1b), b"\\x1b".to_vec());
}

#[test]
fn decimal_digits() {
    assert_eq!(decimal(0), b"0".to_vec());
    assert_eq!(decimal(7), b"7".to_vec());
    assert_eq!(decimal(10), b"10".to_vec());
    assert_eq!(decimal(65535), b"65535".to_vec());
}

fn text(segments: &[Segment]) -> String {
    let mut out = Vec::new();
    for s in segments {
        out.extend_from_slice(&s.text);
    }
    String::from_utf8(out).unwrap()
}

#[test]
fn statistics_name_the_number_of_errors_and_warnings() {
    let file = AsciiFile::new(b"x").unwrap();
    let mut d = Diagnostics::new();
    let mut out = Vec::new();
    d.write_statistics(&mut out);
    assert_eq!(text(&out), "Compilation finished successfully without warnings\n");
    assert_eq!(out[0].color, Some(Color::Green));
    assert!(out[0].bold);

    let mut sink = Vec::new();
    d.warning(&mut sink, &b"careful".to_vec(), &file);
    let mut out = Vec::new();
    d.write_statistics(&mut out);
    assert_eq!(text(&out), "Compilation finished successfully with a warning\n");
    d.warning(&mut sink, &b"careful".to_vec(), &file);
    d.info(&mut sink, &b"by the way".to_vec(), &file);
    let mut out = Vec::new();
    d.write_statistics(&mut out);
    assert_eq!(text(&out), "Compilation finished successfully with 2 warnings\n");
    assert!(!d.errored());
    assert_eq!(d.count(MessageLevel::Warning), 2);
    assert_eq!(d.count(MessageLevel::Info), 1);
    assert_eq!(d.count(MessageLevel::Error), 0);

    d.error(&mut sink, &b"no".to_vec(), &file);
    assert!(d.errored());
    let mut out = Vec::new();
    d.write_statistics(&mut out);
    assert_eq!(text(&out), "Compilation aborted due to an error\n");
    assert_eq!(out[0].color, Some(Color::Red));
    d.error(&mut sink, &b"no".to_vec(), &file);
    d.error(&mut sink, &b"no".to_vec(), &file);
    let mut out = Vec::new();
    d.write_statistics(&mut out);
    assert_eq!(text(&out), "Compilation aborted due to 3 errors\n");
}

#[test]
fn a_plain_message_is_its_level_and_its_text() {
    let file = AsciiFile::new(b"x").unwrap();
    let mut d = Diagnostics::new();
    let mut out = Vec::new();
    d.emit(
        &mut out,
        MessageLevel::Warning,
        MaybeSpanned::WithoutSpan(b"something is odd".to_vec()),
        &file,
    );
    assert_eq!(text(&out), "warning: something is odd\n\n");
    assert_eq!(out[0].text, b"warning: ".to_vec());
    assert_eq!(out[0].color, Some(Color::Yellow));
    assert_eq!(MessageLevel::Error.color(), Some(Color::Red));
    assert_eq!(MessageLevel::Info.color(), Some(Color::Cyan));
    assert_eq!(MessageLevel::Info.name(), b"info");
}

#[test]
fn a_spanned_message_underlines_the_faulty_columns() {
    let source = "class A {\n\tint x = y;\n}\n";
    let file = AsciiFile::new(source.as_bytes()).unwrap();
    let span = Span::new(
        Position { row: 1, col: 9, byte_offset: 19 },
        Position { row: 1, col: 9, byte_offset: 19 },
    );
    assert_eq!(span.as_str(&file), "y");
    let msg = Message {
        level: MessageLevel::Error,
        kind: MaybeSpanned::WithSpan(Spanned::new(span, b"unknown name".to_vec())),
    };
    let mut out = Vec::new();
    msg.write(&mut out, &file);
    let expected = "error: unknown name\n   | \n 2 |     int x = y;\n   |             ^\n\n";
    assert_eq!(text(&out), expected);
    let underline = out.iter().find(|s| s.text.contains(&b'^')).unwrap();
    assert_eq!(underline.color, Some(Color::Red));
    assert!(underline.bold);
}

#[test]
fn a_span_over_several_lines_shows_each_line() {
    let source = "ab\ncdef\ngh";
    let file = AsciiFile::new(source.as_bytes()).unwrap();
    let span = Span::new(
        Position { row: 0, col: 1, byte_offset: 1 },
        Position { row: 2, col: 0, byte_offset: 8 },
    );
    let all = lines(&span, &file);
    assert_eq!(all.len(), 3);
    assert_eq!(all[0].as_str(&file), "ab\n");
    assert_eq!(all[1].as_str(&file), "cdef\n");
    assert_eq!(all[2].as_str(&file), "gh");
    let mut d = Diagnostics::new();
    let mut out = Vec::new();
    d.error(&mut out, &Spanned::new(span, b"bad".to_vec()), &file);
    let expected =
        "error: bad\n   | \n 1 | ab\n   |  ^\n 2 | cdef\n   | ^^^^\n 3 | gh\n   | ^\n\n";
    assert_eq!(text(&out), expected);
}

#[test]
fn line_numbers_are_padded_to_the_widest() {
    let mut source = String::new();
    for _ in 0..9 {
        source.push_str("x\n");
    }
    source.push_str("y\n");
    let file = AsciiFile::new(source.as_bytes()).unwrap();
    let span = Span::new(
        Position { row: 8, col: 0, byte_offset: 16 },
        Position { row: 9, col: 0, byte_offset: 18 },
    );
    let fmt = LineNumberFormatter::new(&span);
    assert_eq!(fmt.width, 2);
    let mut out = Vec::new();
    fmt.number(&mut out, 9);
    fmt.number(&mut out, 10);
    fmt.spaces(&mut out);
    assert_eq!(text(&out), "  9 |  10 |     | ");
    assert_eq!(out[0].color, Some(Color::Cyan));
    let _ = file;
}

#[test]
fn control_characters_are_escaped_and_counted() {
    let source = "a\tb\x01c\r\n";
    let file = AsciiFile::new(source.as_bytes()).unwrap();
    let line = Span::new(
        Position { row: 0, col: 0, byte_offset: 0 },
        Position { row: 0, col: 6, byte_offset: 6 },
    );
    let fmt = LineFormatter::new(&line);
    let mut out = Vec::new();
    fmt.render(&file, &mut out);
    assert_eq!(text(&out), "a    b{\\x01}c\n");
    let escaped = out.iter().find(|s| s.text == b"{\\x01}".to_vec()).unwrap();
    assert_eq!(escaped.color, Some(Color::Cyan));
    assert_eq!(fmt.len_printed_before(&file, 0), Some(0));
    assert_eq!(fmt.len_printed_before(&file, 1), Some(1));
    assert_eq!(fmt.len_printed_before(&file, 2), Some(5));
    assert_eq!(fmt.len_printed_before(&file, 3), Some(6));
    assert_eq!(fmt.len_printed_before(&file, 4), Some(12));
    assert_eq!(fmt.len_printed_before(&file, 8), None);
    let c = Span::new(
        Position { row: 0, col: 3, byte_offset: 3 },
        Position { row: 0, col: 4, byte_offset: 4 },
    );
    assert_eq!(fmt.get_actual_columns(&file, &c), Some((6, 13)));
}

#[test]
fn messages_with_and_without_a_span_are_printable() {
    let span = Span::from_single_position(Position { row: 0, col: 0, byte_offset: 0 });
    let plain = b"plain".to_vec();
    assert!(matches!(plain.as_maybe_spanned(), MaybeSpanned::WithoutSpan(_)));
    let spanned = Spanned::new(span, b"spanned".to_vec());
    match spanned.as_maybe_spanned() {
        MaybeSpanned::WithSpan(s) => {
            assert_eq!(s.span, span);
            assert_eq!(s.data, b"spanned".to_vec());
        }
        MaybeSpanned::WithoutSpan(_) => panic!("the span is lost"),
    }
    let maybe = MaybeSpanned::WithSpan(Spanned::new(span, b"maybe".to_vec()));
    assert_eq!(maybe.as_maybe_spanned().span(), Some(span));
    assert_eq!(maybe.data(), &b"maybe".to_vec());
}
