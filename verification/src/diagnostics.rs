//! Errors, warnings and notes for the user. A message is rendered into
//! segments of text with a color; who writes the segments out decides
//! what a color looks like. A message that belongs to a stretch of source
//! shows the lines of that stretch with the faulty columns underlined.
use crate::asciifile::{AsciiFile, MaybeSpanned, Position, Span, Spanned, NEWLINE};
use vstd::prelude::*;
use vstd::string::StringExecFns;
use vstd::string::StringSliceAdditionalSpecFns;

pub mod render;

verus! {

/// The width of a tab in messages.
pub const TAB_WIDTH: usize = 4;

/// The colors that messages use.
#[derive(Debug, Copy, Clone, PartialEq, Eq, Structural)]
pub enum Color {
    Red,
    Yellow,
    Cyan,
    Green,
}

/// The color of line numbers, escape sequences and the like.
pub open spec fn highlight_color() -> Option<Color> {
    Some(Color::Cyan)
}

/// How grave a message is.
#[derive(Debug, Copy, Clone, PartialEq, Eq, Structural, Hash)]
pub enum MessageLevel {
    Error,
    Warning,
    Info,
}

impl MessageLevel {
    /// The color of messages of the level.
    pub fn color(self) -> (c: Option<Color>)
        ensures
            c == self.spec_color(),
    {
        match self {
            MessageLevel::Error => Some(Color::Red),
            MessageLevel::Warning => Some(Color::Yellow),
            MessageLevel::Info => Some(Color::Cyan),
        }
    }

    pub open spec fn spec_color(self) -> Option<Color> {
        match self {
            MessageLevel::Error => Some(Color::Red),
            MessageLevel::Warning => Some(Color::Yellow),
            MessageLevel::Info => Some(Color::Cyan),
        }
    }

    /// The word for the level: `error`, `warning` or `info`.
    pub open spec fn spec_name(self) -> Seq<u8> {
        match self {
            MessageLevel::Error => seq![101u8, 114u8, 114u8, 111u8, 114u8],
            MessageLevel::Warning => seq![119u8, 97u8, 114u8, 110u8, 105u8, 110u8, 103u8],
            MessageLevel::Info => seq![105u8, 110u8, 102u8, 111u8],
        }
    }

    /// The word for the level.
    pub fn name(&self) -> (s: &'static [u8])
        ensures
            s@ == self.spec_name(),
    {
        match self {
            MessageLevel::Error => {
                let s: &'static [u8; 5] = &[101, 114, 114, 111, 114];
                s.as_slice()
            },
            MessageLevel::Warning => {
                let s: &'static [u8; 7] = &[119, 97, 114, 110, 105, 110, 103];
                s.as_slice()
            },
            MessageLevel::Info => {
                let s: &'static [u8; 4] = &[105, 110, 102, 111];
                s.as_slice()
            },
        }
    }
}

/// A piece of text that is written in one color.
#[derive(Debug, Clone)]
pub struct Segment {
    pub text: Vec<u8>,
    /// The color, or `None` for the color that the terminal has anyway.
    pub color: Option<Color>,
    pub bold: bool,
}

/// A segment as plain values: its text, its color, and whether it is
/// bold.
pub struct Piece {
    pub text: Seq<u8>,
    pub color: Option<Color>,
    pub bold: bool,
}

impl View for Segment {
    type V = Piece;

    open spec fn view(&self) -> Piece {
        Piece { text: self.text@, color: self.color, bold: self.bold }
    }
}

/// The segments as plain values.
pub open spec fn pieces(segments: Seq<Segment>) -> Seq<Piece> {
    Seq::new(segments.len(), |i: int| segments[i]@)
}

/// Puts a segment behind `out`.
pub fn push_segment(out: &mut Vec<Segment>, text: Vec<u8>, color: Option<Color>, bold: bool)
    ensures
        pieces(final(out)@) == pieces(old(out)@).push(Piece { text: text@, color, bold }),
{
    out.push(Segment { text, color, bold });
    assert(pieces(out@) =~= pieces(old(out)@).push(Piece { text: text@, color, bold }));
}

/// `n` times the character `c`.
pub open spec fn repeat(c: u8, n: int) -> Seq<u8> {
    Seq::new(n as nat, |i: int| c)
}

/// `n` times the character `c`.
pub fn repeated(c: u8, n: usize) -> (r: Vec<u8>)
    ensures
        r@ == repeat(c, n as int),
{
    let mut r: Vec<u8> = Vec::new();
    let mut i: usize = 0;
    while i < n
        invariant
            i <= n,
            r@ == repeat(c, i as int),
        decreases n - i,
    {
        r.push(c);
        assert(r@ =~= repeat(c, i + 1));
        i += 1;
    }
    r
}

/// The digits of `n` in base ten.
pub open spec fn spec_decimal(n: nat) -> Seq<u8>
    decreases n,
{
    if n < 10 {
        seq![(48 + n) as u8]
    } else {
        spec_decimal(n / 10).push((48 + n % 10) as u8)
    }
}

/// The number of digits of `n` in base ten.
pub open spec fn spec_digits(n: nat) -> nat
    decreases n,
{
    if n < 10 {
        1
    } else {
        1 + spec_digits(n / 10)
    }
}

pub proof fn lemma_decimal_len(n: nat)
    ensures
        spec_decimal(n).len() == spec_digits(n),
    decreases n,
{
    if n >= 10 {
        lemma_decimal_len(n / 10);
    }
}

/// The number of digits of `n` in base ten.
pub fn digits(n: usize) -> (d: usize)
    ensures
        d == spec_digits(n as nat),
        1 <= d,
{
    let mut d: usize = 1;
    let mut rest = n;
    while rest >= 10
        invariant
            1 <= d,
            spec_digits(n as nat) == (d - 1) + spec_digits(rest as nat),
            d + rest <= n + 1,
        decreases rest,
    {
        rest = rest / 10;
        d += 1;
    }
    d
}

/// The digits of `n` in base ten.
pub fn decimal(n: usize) -> (r: Vec<u8>)
    ensures
        r@ == spec_decimal(n as nat),
    decreases n,
{
    if n < 10 {
        let mut r: Vec<u8> = Vec::new();
        r.push(48 + (n as u8));
        r
    } else {
        let mut r = decimal(n / 10);
        r.push(48 + ((n % 10) as u8));
        r
    }
}

/// `s` with as many characters `c` before it as it takes to make it `pad`
/// characters long. A text that is longer is not cut.
pub open spec fn spec_pad_left(s: Seq<u8>, pad: int, c: u8) -> Seq<u8> {
    repeat(c, if pad > s.len() {
        pad - s.len()
    } else {
        0
    }) + s
}

/// `s` with as many characters `c` before it as it takes to make it `pad`
/// characters long.
pub fn pad_left_bytes(s: &[u8], pad: usize, c: u8) -> (r: Vec<u8>)
    ensures
        r@ == spec_pad_left(s@, pad as int, c),
{
    let n = if pad > s.len() {
        pad - s.len()
    } else {
        0
    };
    let mut r = repeated(c, n);
    let ghost before = r@;
    let mut i: usize = 0;
    while i < s.len()
        invariant
            i <= s@.len(),
            r@ == before + s@.subrange(0, i as int),
        decreases s@.len() - i,
    {
        r.push(s[i]);
        assert(r@ =~= before + s@.subrange(0, i + 1));
        i += 1;
    }
    assert(s@.subrange(0, i as int) =~= s@);
    r
}

/// `String::push`: puts a character behind a text.
#[verifier::external_body]
fn string_push(s: &mut String, c: char)
    ensures
        final(s)@ == old(s)@.push(c),
{
    s.push(c);
}

/// How many characters `chr` stand before `s` when it is padded to `pad`:
/// the text counts with the number of its bytes.
pub open spec fn padding(s: &str, pad: int) -> int {
    if pad > s.spec_bytes().len() {
        pad - s.spec_bytes().len()
    } else {
        0
    }
}

/// `s` with as many spaces before it as it takes to make it `pad` bytes
/// long. A text that is longer is not cut.
pub fn pad_left(s: &str, pad: usize) -> (r: String)
    ensures
        r@ == Seq::new(padding(s, pad as int) as nat, |i: int| ' ') + s@,
{
    pad_left_with_char(s, pad, ' ')
}

/// `s` with as many characters `chr` before it as it takes to make it
/// `pad` bytes long. A text that is longer is not cut.
pub fn pad_left_with_char(s: &str, pad: usize, chr: char) -> (r: String)
    ensures
        r@ == Seq::new(padding(s, pad as int) as nat, |i: int| chr) + s@,
{
    let len = s.as_bytes().len();
    let n = if pad > len {
        pad - len
    } else {
        0
    };
    let mut r = String::new();
    let mut i: usize = 0;
    while i < n
        invariant
            i <= n,
            n == padding(s, pad as int),
            r@ == Seq::new(i as nat, |k: int| chr),
        decreases n - i,
    {
        string_push(&mut r, chr);
        assert(r@ =~= Seq::new((i + 1) as nat, |k: int| chr));
        i += 1;
    }
    assert(n == padding(s, pad as int));
    r.append(s);
    r
}

/// The two hexadecimal digits of a byte, in lower case.
pub open spec fn spec_hex_digit(d: u8) -> u8 {
    if d < 10 {
        (48 + d) as u8
    } else {
        (87 + d) as u8
    }
}

/// How a byte is written so that it can be read: a tab as `\t`, a
/// carriage return as `\r`, a line feed as `\n`, a quote and a backslash
/// with a backslash before them, a printable character as it is, and any
/// other byte as `\x` and its two hexadecimal digits.
pub open spec fn spec_printable(byte: u8) -> Seq<u8> {
    if byte == 9 {
        seq![92u8, 116u8]
    } else if byte == 13 {
        seq![92u8, 114u8]
    } else if byte == 10 {
        seq![92u8, 110u8]
    } else if byte == 39 || byte == 34 || byte == 92 {
        seq![92u8, byte]
    } else if 32 <= byte <= 126 {
        seq![byte]
    } else {
        seq![92u8, 120u8, spec_hex_digit(byte / 16), spec_hex_digit(byte % 16)]
    }
}

/// How a byte is written so that it can be read.
pub fn u8_to_printable_representation(byte: u8) -> (r: Vec<u8>)
    ensures
        r@ == spec_printable(byte),
{
    let mut r: Vec<u8> = Vec::new();
    if byte == 9 {
        r.push(92);
        r.push(116);
    } else if byte == 13 {
        r.push(92);
        r.push(114);
    } else if byte == 10 {
        r.push(92);
        r.push(110);
    } else if byte == 39 || byte == 34 || byte == 92 {
        r.push(92);
        r.push(byte);
    } else if 32 <= byte && byte <= 126 {
        r.push(byte);
    } else {
        let hi = byte / 16;
        let lo = byte % 16;
        r.push(92);
        r.push(120);
        r.push(if hi < 10 {
            48 + hi
        } else {
            87 + hi
        });
        r.push(if lo < 10 {
            48 + lo
        } else {
            87 + lo
        });
    }
    assert(r@ =~= spec_printable(byte));
    r
}

/// Counts the messages of each level.
pub struct Diagnostics {
    errors: usize,
    warnings: usize,
    infos: usize,
}

/// `n + 1` if it fits in a machine word, and else `n`.
pub open spec fn bumped(n: usize) -> usize {
    if n < usize::MAX {
        (n + 1) as usize
    } else {
        n
    }
}

impl Diagnostics {
    /// The number of messages of the level that were emitted.
    pub closed spec fn spec_count(&self, level: MessageLevel) -> usize {
        match level {
            MessageLevel::Error => self.errors,
            MessageLevel::Warning => self.warnings,
            MessageLevel::Info => self.infos,
        }
    }

    /// A sink to which nothing was emitted.
    pub fn new() -> (d: Self)
        ensures
            forall|level: MessageLevel| d.spec_count(level) == 0,
    {
        Self { errors: 0, warnings: 0, infos: 0 }
    }

    /// Whether an error was emitted.
    pub fn errored(&self) -> (r: bool)
        ensures
            r == (self.spec_count(MessageLevel::Error) > 0),
    {
        self.errors > 0
    }

    /// The number of messages of the level that were emitted.
    pub fn count(&self, level: MessageLevel) -> (n: usize)
        ensures
            n == self.spec_count(level),
    {
        match level {
            MessageLevel::Error => self.errors,
            MessageLevel::Warning => self.warnings,
            MessageLevel::Info => self.infos,
        }
    }

    /// Counts one more message of the level.
    fn increment_level_count(&mut self, level: MessageLevel)
        ensures
            final(self).spec_count(level) == bumped(old(self).spec_count(level)),
            forall|other: MessageLevel|
                other != level ==> final(self).spec_count(other) == old(self).spec_count(other),
    {
        match level {
            MessageLevel::Error => {
                if self.errors < usize::MAX {
                    self.errors += 1;
                }
            },
            MessageLevel::Warning => {
                if self.warnings < usize::MAX {
                    self.warnings += 1;
                }
            },
            MessageLevel::Info => {
                if self.infos < usize::MAX {
                    self.infos += 1;
                }
            },
        }
    }
}


/// The text `Compilation aborted due to ` with the space behind it.
pub open spec fn text_aborted() -> Seq<u8> {
    seq![67u8, 111u8, 109u8, 112u8, 105u8, 108u8, 97u8, 116u8, 105u8, 111u8, 110u8, 32u8, 97u8, 98u8, 111u8, 114u8, 116u8, 101u8, 100u8, 32u8, 100u8, 117u8, 101u8, 32u8, 116u8, 111u8, 32u8]
}

/// The text `Compilation aborted due to ` with the space behind it.
fn aborted_bytes() -> (s: &'static [u8])
    ensures
        s@ == text_aborted(),
{
    let s: &'static [u8; 27] = &[67, 111, 109, 112, 105, 108, 97, 116, 105, 111, 110, 32, 97, 98, 111, 114, 116, 101, 100, 32, 100, 117, 101, 32, 116, 111, 32];
    s.as_slice()
}

/// The text `an error`.
pub open spec fn text_an_error() -> Seq<u8> {
    seq![97u8, 110u8, 32u8, 101u8, 114u8, 114u8, 111u8, 114u8]
}

/// The text `an error`.
fn an_error_bytes() -> (s: &'static [u8])
    ensures
        s@ == text_an_error(),
{
    let s: &'static [u8; 8] = &[97, 110, 32, 101, 114, 114, 111, 114];
    s.as_slice()
}

/// The text ` errors` with the space before it.
pub open spec fn text_errors() -> Seq<u8> {
    seq![32u8, 101u8, 114u8, 114u8, 111u8, 114u8, 115u8]
}

/// The text ` errors` with the space before it.
fn errors_bytes() -> (s: &'static [u8])
    ensures
        s@ == text_errors(),
{
    let s: &'static [u8; 7] = &[32, 101, 114, 114, 111, 114, 115];
    s.as_slice()
}

/// The text `Compilation finished successfully ` with the space behind it.
pub open spec fn text_finished() -> Seq<u8> {
    seq![67u8, 111u8, 109u8, 112u8, 105u8, 108u8, 97u8, 116u8, 105u8, 111u8, 110u8, 32u8, 102u8, 105u8, 110u8, 105u8, 115u8, 104u8, 101u8, 100u8, 32u8, 115u8, 117u8, 99u8, 99u8, 101u8, 115u8, 115u8, 102u8, 117u8, 108u8, 108u8, 121u8, 32u8]
}

/// The text `Compilation finished successfully ` with the space behind it.
fn finished_bytes() -> (s: &'static [u8])
    ensures
        s@ == text_finished(),
{
    let s: &'static [u8; 34] = &[67, 111, 109, 112, 105, 108, 97, 116, 105, 111, 110, 32, 102, 105, 110, 105, 115, 104, 101, 100, 32, 115, 117, 99, 99, 101, 115, 115, 102, 117, 108, 108, 121, 32];
    s.as_slice()
}

/// The text `without warnings`.
pub open spec fn text_without_warnings() -> Seq<u8> {
    seq![119u8, 105u8, 116u8, 104u8, 111u8, 117u8, 116u8, 32u8, 119u8, 97u8, 114u8, 110u8, 105u8, 110u8, 103u8, 115u8]
}

/// The text `without warnings`.
fn without_warnings_bytes() -> (s: &'static [u8])
    ensures
        s@ == text_without_warnings(),
{
    let s: &'static [u8; 16] = &[119, 105, 116, 104, 111, 117, 116, 32, 119, 97, 114, 110, 105, 110, 103, 115];
    s.as_slice()
}

/// The text `with a warning`.
pub open spec fn text_with_a_warning() -> Seq<u8> {
    seq![119u8, 105u8, 116u8, 104u8, 32u8, 97u8, 32u8, 119u8, 97u8, 114u8, 110u8, 105u8, 110u8, 103u8]
}

/// The text `with a warning`.
fn with_a_warning_bytes() -> (s: &'static [u8])
    ensures
        s@ == text_with_a_warning(),
{
    let s: &'static [u8; 14] = &[119, 105, 116, 104, 32, 97, 32, 119, 97, 114, 110, 105, 110, 103];
    s.as_slice()
}

/// The text `with ` with the space behind it.
pub open spec fn text_with() -> Seq<u8> {
    seq![119u8, 105u8, 116u8, 104u8, 32u8]
}

/// The text `with ` with the space behind it.
fn with_bytes() -> (s: &'static [u8])
    ensures
        s@ == text_with(),
{
    let s: &'static [u8; 5] = &[119, 105, 116, 104, 32];
    s.as_slice()
}

/// The text ` warnings` with the space before it.
pub open spec fn text_warnings() -> Seq<u8> {
    seq![32u8, 119u8, 97u8, 114u8, 110u8, 105u8, 110u8, 103u8, 115u8]
}

/// The text ` warnings` with the space before it.
fn warnings_bytes() -> (s: &'static [u8])
    ensures
        s@ == text_warnings(),
{
    let s: &'static [u8; 9] = &[32, 119, 97, 114, 110, 105, 110, 103, 115];
    s.as_slice()
}

/// Puts the characters `text` behind `out`.
fn append(out: &mut Vec<u8>, text: &[u8])
    ensures
        final(out)@ == old(out)@ + text@,
{
    let mut i: usize = 0;
    while i < text.len()
        invariant
            i <= text@.len(),
            out@ == old(out)@ + text@.subrange(0, i as int),
        decreases text@.len() - i,
    {
        out.push(text[i]);
        assert(out@ =~= old(out)@ + text@.subrange(0, i + 1));
        i += 1;
    }
    assert(text@.subrange(0, i as int) =~= text@);
}

/// Something that can be emitted as a message: a text that may belong to
/// a stretch of source.
pub trait Printable {
    /// The stretch of source that the message belongs to, if it belongs
    /// to one.
    spec fn spec_span(&self) -> Option<Span>;

    /// The text of the message.
    spec fn spec_text(&self) -> Seq<u8>;

    /// The message as a text with or without a span.
    fn as_maybe_spanned(&self) -> (r: MaybeSpanned<Vec<u8>>)
        ensures
            message_span(&r) == self.spec_span(),
            message_text(&r) == self.spec_text(),
    ;
}

/// The span of a message, if it has one.
pub open spec fn message_span(m: &MaybeSpanned<Vec<u8>>) -> Option<Span> {
    match m {
        MaybeSpanned::WithSpan(s) => Some(s.span),
        MaybeSpanned::WithoutSpan(_) => None,
    }
}

/// The text of a message.
pub open spec fn message_text(m: &MaybeSpanned<Vec<u8>>) -> Seq<u8> {
    match m {
        MaybeSpanned::WithSpan(s) => s.data@,
        MaybeSpanned::WithoutSpan(d) => d@,
    }
}

impl Printable for Vec<u8> {
    open spec fn spec_span(&self) -> Option<Span> {
        None
    }

    open spec fn spec_text(&self) -> Seq<u8> {
        self@
    }

    fn as_maybe_spanned(&self) -> (r: MaybeSpanned<Vec<u8>>) {
        MaybeSpanned::WithoutSpan(vstd::slice::slice_to_vec(self.as_slice()))
    }
}

impl Printable for Spanned<Vec<u8>> {
    open spec fn spec_span(&self) -> Option<Span> {
        Some(self.span)
    }

    open spec fn spec_text(&self) -> Seq<u8> {
        self.data@
    }

    fn as_maybe_spanned(&self) -> (r: MaybeSpanned<Vec<u8>>) {
        MaybeSpanned::WithSpan(
            Spanned { span: self.span, data: vstd::slice::slice_to_vec(self.data.as_slice()) },
        )
    }
}

impl Printable for MaybeSpanned<Vec<u8>> {
    open spec fn spec_span(&self) -> Option<Span> {
        message_span(self)
    }

    open spec fn spec_text(&self) -> Seq<u8> {
        message_text(self)
    }

    fn as_maybe_spanned(&self) -> (r: MaybeSpanned<Vec<u8>>) {
        match self {
            MaybeSpanned::WithSpan(s) => MaybeSpanned::WithSpan(
                Spanned { span: s.span, data: vstd::slice::slice_to_vec(s.data.as_slice()) },
            ),
            MaybeSpanned::WithoutSpan(d) => MaybeSpanned::WithoutSpan(
                vstd::slice::slice_to_vec(d.as_slice()),
            ),
        }
    }
}

/// A message of a level.
pub struct Message {
    pub level: MessageLevel,
    pub kind: MaybeSpanned<Vec<u8>>,
}

/// The first line of a message: the level in its color, a colon, and the
/// text.
pub open spec fn spec_description(level: MessageLevel, text: Seq<u8>) -> Seq<Piece> {
    seq![
        Piece { text: level.spec_name() + seq![58u8, 32u8], color: level.spec_color(), bold: true },
        Piece { text: text + seq![10u8], color: None, bold: true },
    ]
}

/// A message as it is shown: its first line, the source that it belongs
/// to if it belongs to a stretch of source, and an empty line.
pub open spec fn spec_message(bytes: Seq<u8>, level: MessageLevel, kind: &MaybeSpanned<Vec<u8>>) -> Seq<
    Piece,
> {
    spec_shown(bytes, level, message_span(kind), message_text(kind))
}

/// A message with the text `text`, which belongs to the stretch `span` of
/// source if that is given, as it is shown.
pub open spec fn spec_shown(bytes: Seq<u8>, level: MessageLevel, span: Option<Span>, text: Seq<u8>) -> Seq<
    Piece,
> {
    spec_description(level, text) + (match span {
        Some(span) => render::spec_code(bytes, span, level),
        None => Seq::empty(),
    }) + seq![render::newline_piece()]
}

impl Message {
    /// The first line of the message.
    fn write_description(&self, out: &mut Vec<Segment>)
        ensures
            pieces(final(out)@) == pieces(old(out)@) + spec_description(
                self.level,
                message_text(&self.kind),
            ),
    {
        let mut head: Vec<u8> = Vec::new();
        append(&mut head, self.level.name());
        head.push(58);
        head.push(32);
        assert(head@ =~= self.level.spec_name() + seq![58u8, 32u8]);
        push_segment(out, head, self.level.color(), true);
        let mut text: Vec<u8> = Vec::new();
        append(&mut text, self.kind.data().as_slice());
        text.push(10);
        assert(text@ =~= message_text(&self.kind) + seq![10u8]);
        push_segment(out, text, None, true);
        assert(pieces(out@) =~= pieces(old(out)@) + spec_description(
            self.level,
            message_text(&self.kind),
        ));
    }

    /// The message as it is shown, behind `out`. The span of the message,
    /// if it has one, must be a span of `file`.
    pub fn write(&self, out: &mut Vec<Segment>, file: &AsciiFile<'_>)
        requires
            message_span(&self.kind) matches Some(span) ==> span.valid_in(file@),
        ensures
            pieces(final(out)@) == pieces(old(out)@) + spec_message(file@, self.level, &self.kind),
    {
        self.write_description(out);
        match self.kind.span() {
            Some(span) => {
                render::write_code(out, file, &span, self.level);
            },
            None => {},
        }
        let mut nl: Vec<u8> = Vec::new();
        nl.push(10);
        push_segment(out, nl, None, false);
        assert(pieces(out@) =~= pieces(old(out)@) + spec_message(file@, self.level, &self.kind));
    }
}

/// The summary behind a compilation in which `errors` errors and
/// `warnings` warnings were emitted.
pub open spec fn spec_statistics(errors: usize, warnings: usize) -> Piece {
    if errors > 0 {
        Piece {
            text: text_aborted() + (if errors == 1 {
                text_an_error()
            } else {
                spec_decimal(errors as nat) + text_errors()
            }) + seq![10u8],
            color: Some(Color::Red),
            bold: true,
        }
    } else {
        Piece {
            text: text_finished() + (if warnings == 0 {
                text_without_warnings()
            } else if warnings == 1 {
                text_with_a_warning()
            } else {
                text_with() + spec_decimal(warnings as nat) + text_warnings()
            }) + seq![10u8],
            color: Some(Color::Green),
            bold: true,
        }
    }
}

impl Diagnostics {
    /// The summary of the compilation: that it was aborted and due to how
    /// many errors, or that it finished and with how many warnings.
    pub fn write_statistics(&self, out: &mut Vec<Segment>)
        ensures
            pieces(final(out)@) == pieces(old(out)@).push(
                spec_statistics(
                    self.spec_count(MessageLevel::Error),
                    self.spec_count(MessageLevel::Warning),
                ),
            ),
    {
        let mut text: Vec<u8> = Vec::new();
        if self.errored() {
            append(&mut text, aborted_bytes());
            if self.errors == 1 {
                append(&mut text, an_error_bytes());
            } else {
                append(&mut text, decimal(self.errors).as_slice());
                append(&mut text, errors_bytes());
            }
            text.push(10);
            assert(text@ =~= spec_statistics(self.errors, self.warnings).text);
            push_segment(out, text, Some(Color::Red), true);
        } else {
            append(&mut text, finished_bytes());
            if self.warnings == 0 {
                append(&mut text, without_warnings_bytes());
            } else if self.warnings == 1 {
                append(&mut text, with_a_warning_bytes());
            } else {
                append(&mut text, with_bytes());
                append(&mut text, decimal(self.warnings).as_slice());
                append(&mut text, warnings_bytes());
            }
            text.push(10);
            assert(text@ =~= spec_statistics(self.errors, self.warnings).text);
            push_segment(out, text, Some(Color::Green), true);
        }
    }

    /// Emits a message: it is counted under its level and shown behind
    /// `out`.
    pub fn emit(
        &mut self,
        out: &mut Vec<Segment>,
        level: MessageLevel,
        kind: MaybeSpanned<Vec<u8>>,
        file: &AsciiFile<'_>,
    )
        requires
            message_span(&kind) matches Some(span) ==> span.valid_in(file@),
        ensures
            final(self).spec_count(level) == bumped(old(self).spec_count(level)),
            forall|other: MessageLevel|
                other != level ==> final(self).spec_count(other) == old(self).spec_count(other),
            pieces(final(out)@) == pieces(old(out)@) + spec_message(file@, level, &kind),
    {
        self.increment_level_count(level);
        let msg = Message { level, kind };
        msg.write(out, file);
    }

    /// Emits a warning.
    pub fn warning<T: Printable>(&mut self, out: &mut Vec<Segment>, kind: &T, file: &AsciiFile<'_>)
        requires
            kind.spec_span() matches Some(span) ==> span.valid_in(file@),
        ensures
            final(self).spec_count(MessageLevel::Warning) == bumped(
                old(self).spec_count(MessageLevel::Warning),
            ),
            final(self).spec_count(MessageLevel::Error) == old(self).spec_count(MessageLevel::Error),
            final(self).spec_count(MessageLevel::Info) == old(self).spec_count(MessageLevel::Info),
            pieces(final(out)@) == pieces(old(out)@) + spec_shown(
                file@,
                MessageLevel::Warning,
                kind.spec_span(),
                kind.spec_text(),
            ),
    {
        self.emit(out, MessageLevel::Warning, kind.as_maybe_spanned(), file);
    }

    /// Emits an error.
    pub fn error<T: Printable>(&mut self, out: &mut Vec<Segment>, kind: &T, file: &AsciiFile<'_>)
        requires
            kind.spec_span() matches Some(span) ==> span.valid_in(file@),
        ensures
            final(self).spec_count(MessageLevel::Error) == bumped(
                old(self).spec_count(MessageLevel::Error),
            ),
            final(self).spec_count(MessageLevel::Warning) == old(self).spec_count(
                MessageLevel::Warning,
            ),
            final(self).spec_count(MessageLevel::Info) == old(self).spec_count(MessageLevel::Info),
            final(self).spec_count(MessageLevel::Error) > 0,
            pieces(final(out)@) == pieces(old(out)@) + spec_shown(
                file@,
                MessageLevel::Error,
                kind.spec_span(),
                kind.spec_text(),
            ),
    {
        self.emit(out, MessageLevel::Error, kind.as_maybe_spanned(), file);
    }

    /// Emits a note.
    pub fn info<T: Printable>(&mut self, out: &mut Vec<Segment>, kind: &T, file: &AsciiFile<'_>)
        requires
            kind.spec_span() matches Some(span) ==> span.valid_in(file@),
        ensures
            final(self).spec_count(MessageLevel::Info) == bumped(
                old(self).spec_count(MessageLevel::Info),
            ),
            final(self).spec_count(MessageLevel::Error) == old(self).spec_count(MessageLevel::Error),
            final(self).spec_count(MessageLevel::Warning) == old(self).spec_count(
                MessageLevel::Warning,
            ),
            pieces(final(out)@) == pieces(old(out)@) + spec_shown(
                file@,
                MessageLevel::Info,
                kind.spec_span(),
                kind.spec_text(),
            ),
    {
        self.emit(out, MessageLevel::Info, kind.as_maybe_spanned(), file);
    }
}

} // verus!
