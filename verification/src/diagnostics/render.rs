//! Rendering of source lines and of the underline below them.
use super::{
    decimal, digits, highlight_color, pad_left_bytes, pieces, push_segment, repeat, repeated,
    spec_decimal, spec_digits, spec_pad_left, spec_printable, u8_to_printable_representation,
    Color, MessageLevel, Piece, Segment, TAB_WIDTH,
};
use crate::asciifile::{
    count_newlines, lemma_line_start_bounds, line_start, position_of, AsciiFile, Position, Span,
    NEWLINE,
};
use vstd::prelude::*;

verus! {

/// The offset of the last character of the line that holds offset `off`:
/// its line feed, or the last character of the input if the line has
/// none.
pub open spec fn line_last(bytes: Seq<u8>, off: int) -> int
    decreases bytes.len() - off,
{
    if off < 0 || off + 1 >= bytes.len() {
        bytes.len() - 1
    } else if bytes[off] == NEWLINE {
        off
    } else {
        line_last(bytes, off + 1)
    }
}

pub proof fn lemma_line_last(bytes: Seq<u8>, off: int)
    requires
        0 <= off < bytes.len(),
    ensures
        off <= line_last(bytes, off) < bytes.len(),
        forall|k: int| off <= k < line_last(bytes, off) ==> bytes[k] != NEWLINE,
    decreases bytes.len() - off,
{
    if off + 1 < bytes.len() && bytes[off] != NEWLINE {
        lemma_line_last(bytes, off + 1);
    }
}

/// An offset that no line feed parts from the start of a line lies on
/// that line.
pub proof fn lemma_same_line(bytes: Seq<u8>, start: int, off: int)
    requires
        0 <= start <= off,
        forall|k: int| start <= k < off ==> bytes[k] != NEWLINE,
    ensures
        count_newlines(bytes, off) == count_newlines(bytes, start),
        line_start(bytes, off) == line_start(bytes, start),
    decreases off - start,
{
    if start < off {
        lemma_same_line(bytes, start, off - 1);
    }
}

/// The offset of the last character of the line that holds offset `off`.
pub fn find_line_last(bytes: &[u8], off: usize) -> (r: usize)
    requires
        off < bytes@.len(),
    ensures
        r == line_last(bytes@, off as int),
        off <= r < bytes@.len(),
        r + 1 < bytes@.len() ==> bytes@[r as int] == NEWLINE,
{
    let mut i: usize = off;
    let n = bytes.len();
    proof {
        lemma_line_last(bytes@, off as int);
    }
    while i + 1 < n && bytes[i] != NEWLINE
        invariant
            n == bytes@.len(),
            off <= i < bytes@.len(),
            line_last(bytes@, off as int) == line_last(bytes@, i as int),
        decreases bytes@.len() - i,
    {
        i += 1;
    }
    i
}

/// The lines from the one that starts at offset `from` to the one that
/// holds offset `to`, each as the offsets of its first and of its last
/// character.
pub open spec fn spec_lines(bytes: Seq<u8>, from: int, to: int) -> Seq<(int, int)>
    decreases bytes.len() - from,
{
    if from < 0 || from > to || from >= bytes.len() {
        Seq::empty()
    } else {
        let last = line_last(bytes, from);
        if last < from || last >= bytes.len() {
            Seq::empty()
        } else {
            seq![(from, last)] + spec_lines(bytes, last + 1, to)
        }
    }
}

/// The spans with the ends at the offsets `lines`.
pub open spec fn line_spans(bytes: Seq<u8>, lines: Seq<(int, int)>) -> Seq<Span> {
    Seq::new(
        lines.len(),
        |i: int| Span { start: position_of(bytes, lines[i].0), end: position_of(bytes, lines[i].1) },
    )
}

/// The lines that a span covers, each as the span of the whole line.
pub fn lines(span: &Span, file: &AsciiFile<'_>) -> (out: Vec<Span>)
    requires
        span.valid_in(file@),
    ensures
        out@ == line_spans(
            file@,
            spec_lines(
                file@,
                line_start(file@, span.start.byte_offset as int),
                span.end.byte_offset as int,
            ),
        ),
        forall|i: int| 0 <= i < out@.len() ==> (#[trigger] out@[i]).valid_in(file@),
{
    let bytes = file.as_bytes();
    let n = bytes.len();
    let to = span.end.byte_offset;
    proof {
        lemma_line_start_bounds(bytes@, span.start.byte_offset as int);
    }
    let mut start = Position {
        row: span.start.row,
        col: 0,
        byte_offset: span.start.byte_offset - span.start.col,
    };
    let ghost first = line_start(bytes@, span.start.byte_offset as int);
    let ghost all = spec_lines(bytes@, first, to as int);
    let mut out: Vec<Span> = Vec::new();
    proof {
        lemma_line_start_is_start(bytes@, span.start.byte_offset as int);
        assert(out@ =~= line_spans(bytes@, all.subrange(0, 0)));
    }
    while start.byte_offset <= to
        invariant
            n == bytes@.len(),
            bytes@ == file@,
            to < n,
            start.byte_offset <= n,
            start.byte_offset < n ==> start == position_of(bytes@, start.byte_offset as int)
                && start.col == 0 && start.valid_in(bytes@),
            out@.len() <= all.len(),
            all == spec_lines(bytes@, first, to as int),
            all == all.subrange(0, out@.len() as int) + spec_lines(
                bytes@,
                start.byte_offset as int,
                to as int,
            ),
            out@ == line_spans(bytes@, all.subrange(0, out@.len() as int)),
            forall|i: int| 0 <= i < out@.len() ==> (#[trigger] out@[i]).valid_in(bytes@),
        decreases n - start.byte_offset,
    {
        let last_off = find_line_last(bytes, start.byte_offset);
        proof {
            lemma_line_last(bytes@, start.byte_offset as int);
            lemma_same_line(bytes@, start.byte_offset as int, last_off as int);
            lemma_line_start_bounds(bytes@, start.byte_offset as int);
        }
        let last = Position {
            row: start.row,
            col: last_off - start.byte_offset,
            byte_offset: last_off,
        };
        let ghost done = out@;
        let ghost rest = spec_lines(bytes@, start.byte_offset as int, to as int);
        out.push(Span { start, end: last });
        proof {
            assert(rest[0] == (start.byte_offset as int, last_off as int));
            assert(all[done.len() as int] == rest[0]);
            assert(all.subrange(0, (done.len() + 1) as int) =~= all.subrange(0, done.len() as int)
                + seq![rest[0]]);
            assert(all =~= all.subrange(0, (done.len() + 1) as int) + spec_lines(
                bytes@,
                last_off + 1,
                to as int,
            ));
            assert(out@ =~= line_spans(bytes@, all.subrange(0, (done.len() + 1) as int)));
        }
        if last_off + 1 < n {
            proof {
                lemma_line_start_bounds(bytes@, last_off + 1);
                assert(line_start(bytes@, last_off + 1) == last_off + 1);
                assert(count_newlines(bytes@, last_off + 1) == count_newlines(
                    bytes@,
                    last_off as int,
                ) + 1);
            }
            start = Position { row: start.row + 1, col: 0, byte_offset: last_off + 1 };
        } else {
            start = Position { row: 0, col: 0, byte_offset: n };
        }
    }
    proof {
        assert(spec_lines(bytes@, start.byte_offset as int, to as int) =~= Seq::<(int, int)>::empty());
        assert(all.subrange(0, out@.len() as int) =~= all);
    }
    out
}

/// The start of a line is where the line of each of its offsets starts.
pub proof fn lemma_line_start_is_start(bytes: Seq<u8>, off: int)
    requires
        0 <= off,
    ensures
        line_start(bytes, line_start(bytes, off)) == line_start(bytes, off),
        count_newlines(bytes, line_start(bytes, off)) == count_newlines(bytes, off),
    decreases off,
{
    if off > 0 && bytes[off - 1] != NEWLINE {
        lemma_line_start_is_start(bytes, off - 1);
    }
}


/// How a character of the source is shown, and in which color: a tab as
/// four spaces, a line feed and a carriage return not at all, another
/// control character as its escape sequence in braces and highlighted,
/// and any other character as it is.
pub open spec fn spec_render_char(b: u8) -> (Seq<u8>, Option<Color>) {
    if b == 9 {
        (repeat(32, 4), None)
    } else if b == 13 || b == 10 {
        (Seq::empty(), None)
    } else if b < 32 || b == 127 {
        (seq![123u8] + spec_printable(b) + seq![125u8], highlight_color())
    } else {
        (seq![b], None)
    }
}

/// How many columns a character of the source takes when it is shown.
pub open spec fn char_width(b: u8) -> int {
    spec_render_char(b).0.len() as int
}

/// How many columns the characters from offset `from` up to offset `to`,
/// which is not included, take when they are shown.
pub open spec fn printed_width(bytes: Seq<u8>, from: int, to: int) -> int
    decreases to - from,
{
    if to <= from {
        0
    } else {
        printed_width(bytes, from, to - 1) + char_width(bytes[to - 1])
    }
}

pub proof fn lemma_printed_width_bounds(bytes: Seq<u8>, from: int, to: int)
    ensures
        0 <= printed_width(bytes, from, to),
    decreases to - from,
{
    if to > from {
        lemma_printed_width_bounds(bytes, from, to - 1);
    }
}

/// How a character of the source is shown, and in which color.
pub fn render_char(b: u8) -> (r: (Vec<u8>, Option<Color>))
    ensures
        r.0@ == spec_render_char(b).0,
        r.1 == spec_render_char(b).1,
        r.0@.len() <= 6,
{
    if b == 9 {
        (repeated(32, TAB_WIDTH), None)
    } else if b == 13 || b == 10 {
        (Vec::new(), None)
    } else if b < 32 || b == 127 {
        let mut text: Vec<u8> = Vec::new();
        text.push(123);
        let inner = u8_to_printable_representation(b);
        let mut i: usize = 0;
        while i < inner.len()
            invariant
                i <= inner@.len(),
                text@ == seq![123u8] + inner@.subrange(0, i as int),
            decreases inner@.len() - i,
        {
            text.push(inner[i]);
            assert(text@ =~= seq![123u8] + inner@.subrange(0, i + 1));
            i += 1;
        }
        assert(inner@.subrange(0, i as int) =~= inner@);
        text.push(125);
        assert(text@ =~= seq![123u8] + spec_printable(b) + seq![125u8]);
        (text, Some(Color::Cyan))
    } else {
        let mut text: Vec<u8> = Vec::new();
        text.push(b);
        (text, None)
    }
}

/// The text of the gutter without a number: a space, as many spaces as
/// the numbers are wide, and the bar.
pub open spec fn gutter_spaces(width: int) -> Piece {
    Piece {
        text: seq![32u8] + repeat(32, width) + seq![32u8, 124u8, 32u8],
        color: highlight_color(),
        bold: true,
    }
}

/// The text of the gutter with the number `n`.
pub open spec fn gutter_number(width: int, n: nat) -> Piece {
    Piece {
        text: seq![32u8] + spec_pad_left(spec_decimal(n), width, 32) + seq![32u8, 124u8, 32u8],
        color: highlight_color(),
        bold: true,
    }
}

/// A line feed in the color that the terminal has anyway.
pub open spec fn newline_piece() -> Piece {
    Piece { text: seq![10u8], color: None, bold: false }
}

/// The number of the line of a position, counted from one.
pub open spec fn spec_line_number(p: Position) -> nat {
    if p.row < usize::MAX {
        (p.row + 1) as nat
    } else {
        p.row as nat
    }
}

/// The number of the line of a position, counted from one.
pub fn line_number(p: &Position) -> (n: usize)
    ensures
        n == spec_line_number(*p),
{
    if p.row < usize::MAX {
        p.row + 1
    } else {
        p.row
    }
}

/// Writes the numbers of the lines of a span, all in the same width.
pub struct LineNumberFormatter {
    pub width: usize,
}

impl LineNumberFormatter {
    /// A formatter for the lines of `span`: as wide as the number of its
    /// last line.
    pub fn new(span: &Span) -> (f: Self)
        ensures
            f.width == spec_digits(spec_line_number(span.end)),
    {
        Self { width: digits(line_number(&span.end)) }
    }

    /// The gutter without a number.
    pub fn spaces(&self, out: &mut Vec<Segment>)
        ensures
            pieces(final(out)@) == pieces(old(out)@).push(gutter_spaces(self.width as int)),
    {
        let mut text: Vec<u8> = Vec::new();
        text.push(32);
        let mut i: usize = 0;
        while i < self.width
            invariant
                i <= self.width,
                text@ == seq![32u8] + repeat(32, i as int),
            decreases self.width - i,
        {
            text.push(32);
            assert(text@ =~= seq![32u8] + repeat(32, i + 1));
            i += 1;
        }
        text.push(32);
        text.push(124);
        text.push(32);
        assert(text@ =~= gutter_spaces(self.width as int).text);
        push_segment(out, text, Some(Color::Cyan), true);
    }

    /// The gutter with the number of a line.
    pub fn number(&self, out: &mut Vec<Segment>, line_number: usize)
        ensures
            pieces(final(out)@) == pieces(old(out)@).push(
                gutter_number(self.width as int, line_number as nat),
            ),
    {
        let mut text: Vec<u8> = Vec::new();
        text.push(32);
        let padded = pad_left_bytes(decimal(line_number).as_slice(), self.width, 32);
        let mut i: usize = 0;
        while i < padded.len()
            invariant
                i <= padded@.len(),
                text@ == seq![32u8] + padded@.subrange(0, i as int),
            decreases padded@.len() - i,
        {
            text.push(padded[i]);
            assert(text@ =~= seq![32u8] + padded@.subrange(0, i + 1));
            i += 1;
        }
        assert(padded@.subrange(0, i as int) =~= padded@);
        text.push(32);
        text.push(124);
        text.push(32);
        assert(text@ =~= gutter_number(self.width as int, line_number as nat).text);
        push_segment(out, text, Some(Color::Cyan), true);
    }
}

/// The pieces for the characters from offset `from` up to offset `to`,
/// which is not included: one for each character.
pub open spec fn char_pieces(bytes: Seq<u8>, from: int, to: int) -> Seq<Piece> {
    Seq::new(
        (to - from) as nat,
        |i: int|
            Piece {
                text: spec_render_char(bytes[from + i]).0,
                color: spec_render_char(bytes[from + i]).1,
                bold: false,
            },
    )
}

/// Writes a line of the source so that it can be read: control
/// characters are replaced by escape sequences.
pub struct LineFormatter {
    pub line: Span,
}

impl LineFormatter {
    pub fn new(line: &Span) -> (f: Self)
        ensures
            f.line == *line,
    {
        Self { line: *line }
    }

    /// The line, character by character, and a line feed behind it.
    pub fn render(&self, file: &AsciiFile<'_>, out: &mut Vec<Segment>)
        requires
            self.line.wf(),
            self.line.end.byte_offset < file@.len(),
        ensures
            pieces(final(out)@) == pieces(old(out)@) + char_pieces(
                file@,
                self.line.start.byte_offset as int,
                self.line.end.byte_offset + 1,
            ).push(newline_piece()),
    {
        let bytes = file.as_bytes();
        let from = self.line.start.byte_offset;
        let to = self.line.end.byte_offset;
        let n = bytes.len();
        let mut i: usize = from;
        assert(pieces(out@) =~= pieces(old(out)@) + char_pieces(bytes@, from as int, from as int));
        while i <= to
            invariant
                from <= i <= to + 1,
                to < n,
                n == bytes@.len(),
                pieces(out@) == pieces(old(out)@) + char_pieces(bytes@, from as int, i as int),
            decreases to + 1 - i,
        {
            let (text, color) = render_char(bytes[i]);
            push_segment(out, text, color, false);
            assert(pieces(out@) =~= pieces(old(out)@) + char_pieces(bytes@, from as int, i + 1));
            i += 1;
        }
        let mut nl: Vec<u8> = Vec::new();
        nl.push(10);
        push_segment(out, nl, None, false);
        assert(pieces(out@) =~= pieces(old(out)@) + char_pieces(
            bytes@,
            from as int,
            to + 1,
        ).push(newline_piece()));
    }

    /// How many columns the characters of the line before column `col`
    /// take when they are shown, if the line reaches that far.
    pub open spec fn spec_len_printed_before(&self, bytes: Seq<u8>, col: usize) -> Option<usize> {
        let start = self.line.start;
        let taken = if col <= start.col {
            0
        } else if col - start.col > self.line.spec_len() {
            self.line.spec_len()
        } else {
            col - start.col
        };
        let width = printed_width(bytes, start.byte_offset as int, start.byte_offset + taken);
        if self.line.spec_len() < col || width > usize::MAX {
            None
        } else {
            Some(width as usize)
        }
    }

    /// How many columns of the terminal the characters of the line before
    /// column `col` take: a character may take none or more than one when
    /// it is shown. `None` if the line is shorter than `col`.
    pub fn len_printed_before(&self, file: &AsciiFile<'_>, col: usize) -> (r: Option<usize>)
        requires
            self.line.wf(),
            self.line.end.byte_offset < file@.len(),
        ensures
            r == self.spec_len_printed_before(file@, col),
    {
        let bytes = file.as_bytes();
        let n = bytes.len();
        let start = self.line.start;
        let len = self.line.end.byte_offset - start.byte_offset + 1;
        if len < col {
            return None;
        }
        let taken = if col <= start.col {
            0
        } else if col - start.col > len {
            len
        } else {
            col - start.col
        };
        let mut width: usize = 0;
        let mut k: usize = 0;
        while k < taken
            invariant
                k <= taken <= len,
                start.byte_offset + len <= n,
                n == bytes@.len(),
                bytes@ == file@,
                start == self.line.start,
                len == self.line.spec_len(),
                len >= col,
                taken == (if col <= start.col {
                    0
                } else if col - start.col > len {
                    len as int
                } else {
                    col - start.col
                }),
                width == printed_width(bytes@, start.byte_offset as int, start.byte_offset + k),
            decreases taken - k,
        {
            let b = bytes[start.byte_offset + k];
            let (text, _) = render_char(b);
            let w = text.len();
            if width > usize::MAX - w {
                proof {
                    assert(printed_width(
                        bytes@,
                        start.byte_offset as int,
                        start.byte_offset + k + 1,
                    ) == width + char_width(bytes@[start.byte_offset + k]));
                    lemma_width_grows(
                        bytes@,
                        start.byte_offset as int,
                        start.byte_offset + k + 1,
                        start.byte_offset + taken,
                    );
                }
                return None;
            }
            width += w;
            k += 1;
        }
        Some(width)
    }

    /// The columns of the terminal that a span of the line takes: the
    /// first, and the one behind the last.
    pub open spec fn spec_actual_columns(&self, bytes: Seq<u8>, span: Span) -> Option<(usize, usize)> {
        match (
            self.spec_len_printed_before(bytes, span.start.col),
            self.spec_len_printed_before(bytes, span.end.col),
        ) {
            (Some(lower), Some(upper)) => {
                let last = char_width(bytes[span.end.byte_offset as int]);
                if upper + last > usize::MAX {
                    None
                } else {
                    Some((lower, (upper + last) as usize))
                }
            },
            _ => None,
        }
    }

    /// The columns of the terminal that a span of the line takes: the
    /// first, and the one behind the last. `None` if the span leaves the
    /// line.
    pub fn get_actual_columns(&self, file: &AsciiFile<'_>, span: &Span) -> (r: Option<(usize, usize)>)
        requires
            self.line.wf(),
            self.line.end.byte_offset < file@.len(),
            span.end.byte_offset < file@.len(),
        ensures
            r == self.spec_actual_columns(file@, *span),
    {
        let lower = self.len_printed_before(file, span.start.col);
        let upper = self.len_printed_before(file, span.end.col);
        match (lower, upper) {
            (Some(lower), Some(upper)) => {
                let (text, _) = render_char(file.byte(span.end));
                let last = text.len();
                if upper > usize::MAX - last {
                    None
                } else {
                    Some((lower, upper + last))
                }
            },
            _ => None,
        }
    }
}

/// The more characters are shown, the more columns they take.
pub proof fn lemma_width_grows(bytes: Seq<u8>, from: int, mid: int, to: int)
    requires
        from <= mid <= to,
    ensures
        printed_width(bytes, from, mid) <= printed_width(bytes, from, to),
    decreases to - mid,
{
    if mid < to {
        lemma_width_grows(bytes, from, mid, to - 1);
    }
}

/// The underline: `lower` spaces and carets up to column `upper`, in the
/// color of the level, and a line feed.
pub open spec fn underline_piece(lower: usize, upper: usize, level: MessageLevel) -> Piece {
    Piece {
        text: repeat(32, lower as int) + repeat(94, if upper > lower {
            upper - lower
        } else {
            0
        }) + seq![10u8],
        color: level.spec_color(),
        bold: true,
    }
}

/// What is shown for one line of a faulty span: the gutter with the
/// number of the line, the line, and, where the span meets the line and
/// its columns can be told, the gutter without a number and the
/// underline.
pub open spec fn line_block(bytes: Seq<u8>, span: Span, level: MessageLevel, width: int, line: Span) -> Seq<
    Piece,
> {
    let shown = seq![gutter_number(width, spec_line_number(line.start))] + char_pieces(
        bytes,
        line.start.byte_offset as int,
        line.end.byte_offset + 1,
    ).push(newline_piece());
    if span.start.byte_offset <= line.end.byte_offset && line.start.byte_offset
        <= span.end.byte_offset {
        let faulty = Span {
            start: if span.start.byte_offset >= line.start.byte_offset {
                span.start
            } else {
                line.start
            },
            end: if span.end.byte_offset <= line.end.byte_offset {
                span.end
            } else {
                line.end
            },
        };
        match (LineFormatter { line }).spec_actual_columns(bytes, faulty) {
            Some((lower, upper)) => shown + seq![
                gutter_spaces(width),
                underline_piece(lower, upper, level),
            ],
            None => shown,
        }
    } else {
        shown
    }
}

/// What is shown for the first `upto` of the lines `lines`.
pub open spec fn line_blocks(
    bytes: Seq<u8>,
    span: Span,
    level: MessageLevel,
    width: int,
    lines: Seq<Span>,
    upto: int,
) -> Seq<Piece>
    decreases upto,
{
    if upto <= 0 {
        Seq::empty()
    } else {
        line_blocks(bytes, span, level, width, lines, upto - 1) + line_block(
            bytes,
            span,
            level,
            width,
            lines[upto - 1],
        )
    }
}

/// The lines that a span covers.
pub open spec fn lines_of(bytes: Seq<u8>, span: Span) -> Seq<Span> {
    line_spans(
        bytes,
        spec_lines(bytes, line_start(bytes, span.start.byte_offset as int), span.end.byte_offset as int),
    )
}

/// What is shown of the source for a faulty span: an empty gutter line,
/// and then the lines that the span covers, each with its number and
/// with the faulty columns underlined.
pub open spec fn spec_code(bytes: Seq<u8>, span: Span, level: MessageLevel) -> Seq<Piece> {
    let width = spec_digits(spec_line_number(span.end)) as int;
    seq![gutter_spaces(width), newline_piece()] + line_blocks(
        bytes,
        span,
        level,
        width,
        lines_of(bytes, span),
        lines_of(bytes, span).len() as int,
    )
}

/// Shows the source for a faulty span.
pub fn write_code(out: &mut Vec<Segment>, file: &AsciiFile<'_>, span: &Span, level: MessageLevel)
    requires
        span.valid_in(file@),
    ensures
        pieces(final(out)@) == pieces(old(out)@) + spec_code(file@, *span, level),
{
    let num_fmt = LineNumberFormatter::new(span);
    let ghost width = num_fmt.width as int;
    let ghost bytes = file@;
    num_fmt.spaces(out);
    let mut nl: Vec<u8> = Vec::new();
    nl.push(10);
    push_segment(out, nl, None, false);
    let all = lines(span, file);
    let ghost head = pieces(old(out)@) + seq![gutter_spaces(width), newline_piece()];
    assert(pieces(out@) =~= head + line_blocks(bytes, *span, level, width, all@, 0));
    let mut i: usize = 0;
    while i < all.len()
        invariant
            i <= all@.len(),
            bytes == file@,
            span.valid_in(bytes),
            width == num_fmt.width,
            forall|k: int| 0 <= k < all@.len() ==> (#[trigger] all@[k]).valid_in(bytes),
            pieces(out@) == head + line_blocks(bytes, *span, level, width, all@, i as int),
        decreases all@.len() - i,
    {
        let line = all[i];
        assert(all@[i as int].valid_in(bytes));
        let ghost before = pieces(out@);
        let line_fmt = LineFormatter::new(&line);
        num_fmt.number(out, line_number(&line.start));
        line_fmt.render(file, out);
        match Span::intersect(span, &line) {
            Some(faulty) => {
                match line_fmt.get_actual_columns(file, &faulty) {
                    Some((lower, upper)) => {
                        num_fmt.spaces(out);
                        let mut text = repeated(32, lower);
                        let carets = if upper > lower {
                            upper - lower
                        } else {
                            0
                        };
                        let ghost t0 = text@;
                        let mut k: usize = 0;
                        while k < carets
                            invariant
                                k <= carets,
                                text@ == t0 + repeat(94, k as int),
                            decreases carets - k,
                        {
                            text.push(94);
                            assert(text@ =~= t0 + repeat(94, k + 1));
                            k += 1;
                        }
                        text.push(10);
                        assert(text@ =~= underline_piece(lower, upper, level).text);
                        push_segment(out, text, level.color(), true);
                    },
                    None => {},
                }
            },
            None => {},
        }
        assert(pieces(out@) =~= before + line_block(bytes, *span, level, width, line));
        assert(pieces(out@) =~= head + line_blocks(bytes, *span, level, width, all@, i + 1));
        i += 1;
    }
}

} // verus!
