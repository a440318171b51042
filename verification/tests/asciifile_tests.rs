use compiler_lib::asciifile::iter::{PositionIterator, ReversePositionIterator};
use compiler_lib::asciifile::{
    AsciiFile, EncodingError, Position, PositionedChar, Span, Spanned,
    ENCODING_ERROR_MAX_CONTEXT_LEN,
};

fn testfile(s: &str) -> &[u8] {
    s.as_bytes()
}

#[test]
fn works_with_ascii() {
    let instr = "ABCDEFG\n\t";
    let f = testfile(instr);
    let af = AsciiFile::new(f).unwrap();
    let s: &str = af.as_str();
    assert!(instr == s);
}

#[test]
fn returns_err_on_non_ascii() {
    let f = testfile("one💩two");
    let mm = AsciiFile::new(f);
    assert!(mm.is_err());
    let e = mm.err().unwrap();
    println!("{:?}", e);
    let EncodingError::NotAscii { position, prev } = e;
    assert_eq!(position, 3);
    assert_eq!(prev, "one");
}

#[test]
fn returns_err_on_non_ascii_non_utf8() {
    let units: Vec<u16> = "ä".encode_utf16().collect();
    let mut input: Vec<u8> = Vec::new();
    for unit in units.iter() {
        for byte in unit.to_ne_bytes().iter() {
            input.push(*byte);
        }
    }
    assert_eq!(input.len(), 2);
    match std::str::from_utf8(&input) {
        Ok(s) => panic!("test implementation error {:?}", s),
        Err(x) => println!("ä in utf16 is not valid utf8, but let's be sure {:?}", x),
    }
    let r = AsciiFile::new(&input);
    assert!(r.is_err());
    let EncodingError::NotAscii { position, prev } = r.err().unwrap();
    assert_eq!(position, 0);
    assert_eq!(prev, "");
}

#[test]
fn err_on_ascii_context_only_current_line() {
    let f = testfile("0\n12345💩");
    let mm = AsciiFile::new(f);
    assert!(mm.is_err());
    let e = mm.err().unwrap();
    println!("{:?}", e);
    let EncodingError::NotAscii { prev, .. } = e;
    assert_eq!(prev, "12345");
}

#[test]
fn err_on_ascii_context_bounded() {
    let prev_expected = "9876543210".repeat(ENCODING_ERROR_MAX_CONTEXT_LEN / 10);
    let instr = format!("abcd{}💩", prev_expected);
    let f = testfile(&instr);
    let mm = AsciiFile::new(f);

    assert!(mm.is_err());

    let e = mm.err().unwrap();
    let EncodingError::NotAscii { prev, .. } = e;

    assert_eq!(prev, prev_expected);
}

#[test]
fn test_indices() {
    let single_line = "|123456789";

    assert_eq!(
        single_line,
        &single_line[..AsciiFile::get_line_end_idx(single_line.as_bytes(), 5)]
    );
    assert_eq!(
        single_line,
        &single_line[AsciiFile::get_line_start_idx(single_line.as_bytes(), 5)..]
    );

    let multi_line = "|123456789\nabcdefghijklmno";

    assert_eq!(
        multi_line,
        &multi_line[..AsciiFile::get_line_end_idx(multi_line.as_bytes(), 15)]
    );
    assert_eq!(
        "|123456789",
        &multi_line[..AsciiFile::get_line_end_idx(multi_line.as_bytes(), 5)]
    );
    assert_eq!(
        "abcdefghijklmno",
        &multi_line[AsciiFile::get_line_start_idx(multi_line.as_bytes(), 15)..]
    );

    assert_eq!(
        multi_line,
        &multi_line[AsciiFile::get_line_start_idx(multi_line.as_bytes(), 5)..]
    );

    let long_line = "|123456789\n".repeat(ENCODING_ERROR_MAX_CONTEXT_LEN);

    assert_eq!(
        "|123456789",
        &long_line[AsciiFile::get_line_start_idx(long_line.as_bytes(), 20)
            ..AsciiFile::get_line_end_idx(long_line.as_bytes(), 20)]
    );

    let empty_line = "\n\n\n".repeat(ENCODING_ERROR_MAX_CONTEXT_LEN);

    assert_eq!(
        "",
        &empty_line[AsciiFile::get_line_start_idx(empty_line.as_bytes(), 1)
            ..AsciiFile::get_line_end_idx(empty_line.as_bytes(), 1)]
    );
}

fn expected_chars() -> Vec<PositionedChar> {
    vec![
        PositionedChar(Position { byte_offset: 0, row: 0, col: 0 }, 'o'),
        PositionedChar(Position { byte_offset: 1, row: 0, col: 1 }, 'n'),
        PositionedChar(Position { byte_offset: 2, row: 0, col: 2 }, 'e'),
        PositionedChar(Position { byte_offset: 3, row: 0, col: 3 }, '\n'),
        PositionedChar(Position { byte_offset: 4, row: 1, col: 0 }, 't'),
        PositionedChar(Position { byte_offset: 5, row: 1, col: 1 }, 'w'),
        PositionedChar(Position { byte_offset: 6, row: 1, col: 2 }, 'o'),
        PositionedChar(Position { byte_offset: 7, row: 1, col: 3 }, ' '),
        PositionedChar(Position { byte_offset: 8, row: 1, col: 4 }, 't'),
        PositionedChar(Position { byte_offset: 9, row: 1, col: 5 }, 'h'),
        PositionedChar(Position { byte_offset: 10, row: 1, col: 6 }, 'r'),
        PositionedChar(Position { byte_offset: 11, row: 1, col: 7 }, 'e'),
        PositionedChar(Position { byte_offset: 12, row: 1, col: 8 }, 'e'),
        PositionedChar(Position { byte_offset: 13, row: 1, col: 9 }, '\n'),
        PositionedChar(Position { byte_offset: 14, row: 2, col: 0 }, 'f'),
        PositionedChar(Position { byte_offset: 15, row: 2, col: 1 }, 'o'),
        PositionedChar(Position { byte_offset: 16, row: 2, col: 2 }, 'u'),
        PositionedChar(Position { byte_offset: 17, row: 2, col: 3 }, 'r'),
        PositionedChar(Position { byte_offset: 18, row: 2, col: 4 }, '\n'),
        PositionedChar(Position { byte_offset: 19, row: 3, col: 0 }, '\n'),
    ]
}

#[test]
fn iterator_works() {
    let f = testfile("one\ntwo three\nfour\n\n");
    let af = AsciiFile::new(f).unwrap();
    let res: Vec<PositionedChar> = af.iter().collect();
    let exp = expected_chars();
    assert_eq!(exp, res);
}

#[test]
fn peeking_works() {
    let f = testfile("one\ntwo three\nfour\n");
    let af = AsciiFile::new(f).unwrap();
    let mut i = af.iter();

    let mut peeked = i.peek();
    while let Some(PositionedChar(_, c)) = i.next() {
        assert_eq!(c, peeked.unwrap());
        peeked = i.peek();
    }
}

#[test]
fn multi_peeking_works() {
    let s = "one\ntwo three\nfour\n\n";
    let f = testfile(s);
    let af = AsciiFile::new(f).unwrap();
    let mut i = af.iter();

    let peeked = i.peek_multiple(s.len());

    assert_eq!(s, peeked);

    let exp = expected_chars();

    let res: Vec<PositionedChar> = i.collect();

    assert_eq!(exp, res);
}

#[test]
fn try_peek_multiple_needs_all_characters() {
    let af = AsciiFile::new(testfile("abc")).unwrap();
    let mut i = af.iter();
    assert_eq!(i.try_peek_multiple(3), Some("abc"));
    assert_eq!(i.try_peek_multiple(4), None);
    assert_eq!(i.peek_multiple(4), "abc");
    assert_eq!(i.current_position(), Position { row: 0, col: 0, byte_offset: 0 });
    assert!(!i.eof_reached());
    i.next();
    i.next();
    i.next();
    assert!(i.eof_reached());
    assert_eq!(i.peek(), None);
}

#[test]
fn line_start_is_behind_the_last_line_feed() {
    let text = "a\nb\ncd";
    assert_eq!(AsciiFile::get_line_start_idx(text.as_bytes(), 5), 4);
    assert_eq!(AsciiFile::get_line_end_idx(text.as_bytes(), 0), 1);
    let e = AsciiFile::new("a\nb\nc\u{e4}".as_bytes()).err().unwrap();
    let EncodingError::NotAscii { position, prev } = e;
    assert_eq!(position, 5);
    assert_eq!(prev, "c");
}

#[test]
fn non_ascii_byte_at_offset_seven_is_found() {
    let mut input = b"class A".to_vec();
    input.push(0xff);
    input.extend_from_slice(b" {}");
    let e = AsciiFile::new(&input).err().unwrap();
    let EncodingError::NotAscii { position, prev } = e;
    assert_eq!(position, 7);
    assert_eq!(prev, "class A");
}

#[test]
fn next_and_prev_are_inverse() {
    let af = AsciiFile::new(testfile("ab\n\ncd\ne")).unwrap();
    let mut p = af.first_position().unwrap();
    let mut seen = vec![p];
    while let Some(q) = af.next_position(p) {
        assert_eq!(af.prev_position(q), Some(p));
        seen.push(q);
        p = q;
    }
    assert_eq!(seen.len(), 8);
    assert_eq!(p, Position { row: 3, col: 0, byte_offset: 7 });
    assert_eq!(af.chr(p), 'e');
    let mut back = Vec::new();
    let mut it = ReversePositionIterator::new(&af, Some(p));
    while let Some(q) = it.next() {
        if let Some(before) = af.prev_position(q) {
            assert_eq!(af.next_position(before), Some(q));
        }
        back.push(q);
    }
    back.reverse();
    assert_eq!(back, seen);
    assert_eq!(af.prev_position(seen[0]), None);
    assert_eq!(seen[3], Position { row: 1, col: 0, byte_offset: 3 });
    assert_eq!(af.prev_position(seen[3]), Some(Position { row: 0, col: 2, byte_offset: 2 }));
}

#[test]
fn position_iterator_peeks_spans() {
    let af = AsciiFile::new(testfile("if (x)\ny")).unwrap();
    let mut it = PositionIterator::new(&af, af.first_position());
    assert!(it.matches("if"));
    assert!(it.matches(""));
    assert!(!it.matches("iff"));
    assert!(!it.matches("if (x)\nyz"));
    let two = it.peek_exactly(2).unwrap();
    assert_eq!(two.as_str(&af), "if");
    assert_eq!(two.len(), 2);
    assert!(it.peek_exactly(9).is_none());
    let all = it.peek_at_most(100).unwrap();
    assert_eq!(all.as_str(&af), "if (x)\ny");
    assert_eq!(all.end, Position { row: 1, col: 0, byte_offset: 7 });
    assert_eq!(it.peek(), Some(Position { row: 0, col: 0, byte_offset: 0 }));
    let mut count = 0;
    while let Some(_) = it.next() {
        count += 1;
    }
    assert_eq!(count, 8);
    assert!(it.eof_reached());
    assert!(it.matches(""));
    assert!(!it.matches("a"));
    assert!(it.peek_at_most(1).is_none());
}

#[test]
fn spans_intersect_and_combine() {
    let p = |o: usize| Position { row: 0, col: o, byte_offset: o };
    let a = Span::new(p(2), p(6));
    let b = Span::new(p(5), p(9));
    let c = Span::new(p(7), p(8));
    assert_eq!(Span::intersect(&a, &b), Some(Span::new(p(5), p(6))));
    assert_eq!(Span::intersect(&a, &c), None);
    assert_eq!(Span::combine(&a, &c), Span::new(p(2), p(8)));
    assert_eq!(Span::from_single_position(p(3)).len(), 1);
    assert_eq!(a.start_position(), p(2));
    assert_eq!(a.end_position(), p(6));
}

#[test]
fn spanned_values_are_compared_without_their_spans() {
    let p = |o: usize| Position { row: 0, col: o, byte_offset: o };
    let a = Spanned::new(Span::new(p(0), p(1)), 7u32);
    let b = Spanned::new(Span::new(p(4), p(9)), 7u32);
    let c = Spanned::new(Span::new(p(0), p(1)), 8u32);
    assert!(a == b);
    assert!(a != c);
}

#[test]
fn a_file_knows_its_spans() {
    let file = AsciiFile::new(b"ab\ncd").unwrap();
    let at = |row, col, byte_offset| Position { row, col, byte_offset };
    assert!(file.holds_position(at(0, 0, 0)));
    assert!(file.holds_position(at(1, 1, 4)));
    assert!(file.holds_position(at(0, 2, 2)));
    assert!(!file.holds_position(at(1, 0, 2)));
    assert!(!file.holds_position(at(1, 2, 5)));
    assert!(!file.holds_position(at(0, 4, 4)));
    assert!(file.holds_span(Span { start: at(0, 1, 1), end: at(1, 0, 3) }));
    assert!(!file.holds_span(Span { start: at(1, 0, 3), end: at(0, 1, 1) }));
    assert!(!file.holds_span(Span { start: at(0, 1, 1), end: at(1, 0, 4) }));
}
