//! A validated 7-bit ASCII view of a source file, with row and column
//! positions, spans, and restartable character iterators.
use vstd::prelude::*;
use vstd::slice::slice_subrange;
use vstd::std_specs::cmp::{PartialEqSpec, PartialEqSpecImpl};

pub mod iter;

verus! {

/// How many bytes of context an encoding error shows at most.
pub const ENCODING_ERROR_MAX_CONTEXT_LEN: usize = 180;

/// The byte value of the line feed character.
pub const NEWLINE: u8 = 10;

/// Every byte of `bytes` is 7-bit ASCII.
pub open spec fn all_ascii(bytes: Seq<u8>) -> bool {
    forall|i: int| 0 <= i < bytes.len() ==> bytes[i] < 128
}

/// The characters that a sequence of ASCII bytes stands for.
pub open spec fn ascii_chars(bytes: Seq<u8>) -> Seq<char> {
    Seq::new(bytes.len(), |i: int| bytes[i] as char)
}

/// Where the context region after `off` ends: at most
/// `ENCODING_ERROR_MAX_CONTEXT_LEN` bytes further, and never past the input.
pub open spec fn region_end(bytes: Seq<u8>, off: int) -> int {
    if bytes.len() - off > 180 {
        off + 180
    } else {
        bytes.len() as int
    }
}

/// Where the context region before `off` starts.
pub open spec fn region_start(off: int) -> int {
    if off > 180 {
        off - 180
    } else {
        0
    }
}

/// `r` is the index of the first line feed at or after `off` inside the
/// context region, or the end of the region when it holds none.
pub open spec fn is_line_end_idx(bytes: Seq<u8>, off: int, r: int) -> bool {
    &&& off <= r <= region_end(bytes, off)
    &&& forall|i: int| off <= i < r ==> bytes[i] != NEWLINE
    &&& (r == region_end(bytes, off) || bytes[r] == NEWLINE)
}

/// `r` is the index just behind the last line feed before `off` inside the
/// context region, or the start of the region when it holds none.
pub open spec fn is_line_start_idx(bytes: Seq<u8>, off: int, r: int) -> bool {
    &&& region_start(off) <= r <= off
    &&& forall|i: int| r <= i < off ==> bytes[i] != NEWLINE
    &&& (r == region_start(off) || bytes[r - 1] == NEWLINE)
}

/// The number of line feeds among the first `upto` bytes.
pub open spec fn count_newlines(bytes: Seq<u8>, upto: int) -> int
    decreases upto,
{
    if upto <= 0 {
        0
    } else if bytes[upto - 1] == NEWLINE {
        count_newlines(bytes, upto - 1) + 1
    } else {
        count_newlines(bytes, upto - 1)
    }
}

/// The index at which the line that holds offset `off` starts.
pub open spec fn line_start(bytes: Seq<u8>, off: int) -> int
    decreases off,
{
    if off <= 0 {
        0
    } else if bytes[off - 1] == NEWLINE {
        off
    } else {
        line_start(bytes, off - 1)
    }
}

pub proof fn lemma_line_start_bounds(bytes: Seq<u8>, off: int)
    requires
        0 <= off,
    ensures
        0 <= line_start(bytes, off) <= off,
        0 <= count_newlines(bytes, off) <= off,
    decreases off,
{
    if off > 0 {
        lemma_line_start_bounds(bytes, off - 1);
    }
}

/// A place in a source file: zero-based row and column, and the offset in
/// bytes from the start of the file.
#[derive(Debug, Copy, Clone, PartialEq, Eq, Structural)]
pub struct Position {
    pub row: usize,
    pub col: usize,
    pub byte_offset: usize,
}

impl Position {
    /// The position is the one that offset `self.byte_offset` has in `bytes`.
    pub open spec fn matches_offset(self, bytes: Seq<u8>) -> bool {
        &&& self.row == count_newlines(bytes, self.byte_offset as int)
        &&& self.col == self.byte_offset - line_start(bytes, self.byte_offset as int)
    }

    /// The position names a character of `bytes`.
    pub open spec fn valid_in(self, bytes: Seq<u8>) -> bool {
        &&& self.byte_offset < bytes.len()
        &&& self.matches_offset(bytes)
    }

    /// The row, counted from one as editors do.
    pub fn line_number(&self) -> (n: usize)
        requires
            self.row < usize::MAX,
        ensures
            n == self.row + 1,
    {
        self.row + 1
    }

    /// The column, counted from zero.
    pub fn column(&self) -> (c: usize)
        ensures
            c == self.col,
    {
        self.col
    }
}

/// The input is not 7-bit ASCII.
#[derive(Debug)]
pub enum EncodingError {
    /// `position` is the offset of the first byte that is not ASCII, `prev`
    /// the text of its line before it, as far as the context region reaches.
    NotAscii { position: usize, prev: String },
}

/// A source file that is known to hold 7-bit ASCII only.
pub struct AsciiFile<'m> {
    mapping: &'m [u8],
}

/// `std::str::from_utf8` on ASCII input. ASCII is valid UTF-8 in which
/// every byte encodes the character with the same code, so the call
/// succeeds and the text holds one character per byte.
#[verifier::external_body]
pub(crate) fn ascii_str<'a>(bytes: &'a [u8]) -> (s: &'a str)
    requires
        all_ascii(bytes@),
    ensures
        s@ == ascii_chars(bytes@),
{
    match std::str::from_utf8(bytes) {
        Ok(s) => s,
        Err(_) => "",
    }
}

impl<'m> View for AsciiFile<'m> {
    type V = Seq<u8>;

    closed spec fn view(&self) -> Seq<u8> {
        self.mapping@
    }
}

impl<'m> AsciiFile<'m> {
    /// The file holds ASCII only. Every file that `new` returns does.
    pub open spec fn wf(&self) -> bool {
        all_ascii(self@)
    }

    /// The index of the line feed that ends the line of `byte_offset`, or
    /// the end of the context region. A slice that ends here leaves the
    /// line feed out.
    pub fn get_line_end_idx(mapping: &[u8], byte_offset: usize) -> (r: usize)
        requires
            byte_offset <= mapping@.len(),
        ensures
            is_line_end_idx(mapping@, byte_offset as int, r as int),
    {
        let end = if mapping.len() - byte_offset > ENCODING_ERROR_MAX_CONTEXT_LEN {
            byte_offset + ENCODING_ERROR_MAX_CONTEXT_LEN
        } else {
            mapping.len()
        };
        let mut i: usize = byte_offset;
        while i < end
            invariant
                byte_offset <= i <= end <= mapping@.len(),
                end == region_end(mapping@, byte_offset as int),
                forall|k: int| byte_offset <= k < i ==> mapping@[k] != NEWLINE,
            decreases end - i,
        {
            if mapping[i] == NEWLINE {
                return i;
            }
            i += 1;
        }
        end
    }

    /// The index at which the line of `byte_offset` starts, or the start of
    /// the context region. A slice that starts here leaves the line feed of
    /// the line before out.
    pub fn get_line_start_idx(mapping: &[u8], byte_offset: usize) -> (r: usize)
        requires
            byte_offset <= mapping@.len(),
        ensures
            is_line_start_idx(mapping@, byte_offset as int, r as int),
    {
        let start = if byte_offset > ENCODING_ERROR_MAX_CONTEXT_LEN {
            byte_offset - ENCODING_ERROR_MAX_CONTEXT_LEN
        } else {
            0
        };
        let mut i: usize = byte_offset;
        while i > start
            invariant
                start <= i <= byte_offset <= mapping@.len(),
                start == region_start(byte_offset as int),
                forall|k: int| i <= k < byte_offset ==> mapping@[k] != NEWLINE,
            decreases i,
        {
            if mapping[i - 1] == NEWLINE {
                return i;
            }
            i -= 1;
        }
        start
    }

    /// The offset of the first byte that is not ASCII, if there is one.
    pub fn first_non_ascii(mapping: &[u8]) -> (r: Option<usize>)
        ensures
            r is None <==> all_ascii(mapping@),
            r matches Some(p) ==> p < mapping@.len() && mapping@[p as int] >= 128 && all_ascii(
                mapping@.subrange(0, p as int),
            ),
    {
        let mut i: usize = 0;
        while i < mapping.len()
            invariant
                i <= mapping@.len(),
                forall|k: int| 0 <= k < i ==> mapping@[k] < 128,
            decreases mapping@.len() - i,
        {
            if mapping[i] >= 128 {
                return Some(i);
            }
            i += 1;
        }
        None
    }

    /// Validates that the whole input is ASCII. The cost is linear in the
    /// length of the input.
    pub fn new(mapping: &'m [u8]) -> (r: Result<AsciiFile<'m>, EncodingError>)
        ensures
            r is Ok <==> all_ascii(mapping@),
            r matches Ok(file) ==> file@ == mapping@ && file.wf(),
            r matches Err(EncodingError::NotAscii { position, prev }) ==> {
                &&& position < mapping@.len()
                &&& mapping@[position as int] >= 128
                &&& all_ascii(mapping@.subrange(0, position as int))
                &&& exists|start: int|
                    is_line_start_idx(mapping@, position as int, start) && prev@ == ascii_chars(
                        mapping@.subrange(start, position as int),
                    )
            },
    {
        match Self::first_non_ascii(mapping) {
            Some(position) => {
                let start_idx = Self::get_line_start_idx(mapping, position);
                let region = slice_subrange(mapping, start_idx, position);
                assert(all_ascii(region@)) by {
                    assert forall|i: int| 0 <= i < region@.len() implies region@[i] < 128 by {
                        assert(region@[i] == mapping@.subrange(0, position as int)[i + start_idx]);
                    }
                }
                let prev = ascii_str(region).to_owned();
                Err(EncodingError::NotAscii { position, prev })
            },
            None => Ok(AsciiFile { mapping }),
        }
    }

    /// The bytes of the file.
    pub fn as_bytes(&self) -> (b: &'m [u8])
        ensures
            b@ == self@,
    {
        self.mapping
    }

    /// The number of bytes, which is the number of characters.
    pub fn len(&self) -> (n: usize)
        ensures
            n == self@.len(),
    {
        self.mapping.len()
    }

    /// The text of the file.
    pub fn as_str(&self) -> (s: &'m str)
        requires
            self.wf(),
        ensures
            s@ == ascii_chars(self@),
    {
        ascii_str(self.mapping)
    }
}


/// The position of offset `off` in `bytes`.
pub open spec fn position_of(bytes: Seq<u8>, off: int) -> Position {
    Position {
        row: count_newlines(bytes, off) as usize,
        col: (off - line_start(bytes, off)) as usize,
        byte_offset: off as usize,
    }
}

/// The position after `p`, if `p` is not the last one.
pub open spec fn spec_next(bytes: Seq<u8>, p: Position) -> Option<Position> {
    if p.byte_offset + 1 < bytes.len() {
        Some(
            if bytes[p.byte_offset as int] == NEWLINE {
                Position { row: (p.row + 1) as usize, col: 0, byte_offset: (p.byte_offset + 1) as usize }
            } else {
                Position {
                    row: p.row,
                    col: (p.col + 1) as usize,
                    byte_offset: (p.byte_offset + 1) as usize,
                }
            },
        )
    } else {
        None
    }
}

/// The position before `p`, if `p` is not the first one.
pub open spec fn spec_prev(bytes: Seq<u8>, p: Position) -> Option<Position> {
    if p.byte_offset > 0 {
        Some(
            if bytes[p.byte_offset - 1] == NEWLINE {
                Position {
                    row: (p.row - 1) as usize,
                    col: (p.byte_offset - 1 - line_start(bytes, p.byte_offset - 1)) as usize,
                    byte_offset: (p.byte_offset - 1) as usize,
                }
            } else {
                Position {
                    row: p.row,
                    col: (p.col - 1) as usize,
                    byte_offset: (p.byte_offset - 1) as usize,
                }
            },
        )
    } else {
        None
    }
}

/// A valid position is the position of its offset.
pub proof fn lemma_valid_is_position_of(bytes: Seq<u8>, p: Position)
    requires
        p.matches_offset(bytes),
    ensures
        p == position_of(bytes, p.byte_offset as int),
{
    lemma_line_start_bounds(bytes, p.byte_offset as int);
}

/// The position of an offset inside a file of machine size matches it.
pub proof fn lemma_position_of_matches(bytes: Seq<u8>, off: int)
    requires
        0 <= off <= bytes.len() <= usize::MAX,
    ensures
        position_of(bytes, off).matches_offset(bytes),
        position_of(bytes, off).byte_offset == off,
{
    lemma_line_start_bounds(bytes, off);
}

/// Stepping forward from a valid position gives the position of the next
/// offset, and stepping back that of the offset before.
pub proof fn lemma_step(bytes: Seq<u8>, p: Position)
    requires
        p.valid_in(bytes),
        bytes.len() <= usize::MAX,
    ensures
        spec_next(bytes, p) matches Some(q) ==> q == position_of(bytes, p.byte_offset + 1)
            && q.valid_in(bytes),
        spec_prev(bytes, p) matches Some(q) ==> q == position_of(bytes, p.byte_offset - 1)
            && q.valid_in(bytes),
{
    let off = p.byte_offset as int;
    lemma_line_start_bounds(bytes, off);
    lemma_line_start_bounds(bytes, off + 1);
    if off > 0 {
        lemma_line_start_bounds(bytes, off - 1);
    }
}

/// Going forward and then back, or back and then forward, returns to the
/// position one started from.
pub proof fn lemma_next_prev_inverse(bytes: Seq<u8>, p: Position)
    requires
        p.valid_in(bytes),
        bytes.len() <= usize::MAX,
    ensures
        spec_prev(bytes, p) matches Some(q) ==> spec_next(bytes, q) == Some(p),
        spec_next(bytes, p) matches Some(q) ==> spec_prev(bytes, q) == Some(p),
{
    lemma_step(bytes, p);
    lemma_valid_is_position_of(bytes, p);
    if let Some(q) = spec_prev(bytes, p) {
        lemma_step(bytes, q);
    }
    if let Some(q) = spec_next(bytes, p) {
        lemma_step(bytes, q);
    }
}

impl<'m> AsciiFile<'m> {
    /// Whether the position names a character of the file, with the row
    /// and the column that belong to its offset.
    pub fn holds_position(&self, p: Position) -> (r: bool)
        ensures
            r == p.valid_in(self@),
    {
        let bytes = self.mapping;
        if p.byte_offset >= bytes.len() {
            return false;
        }
        let mut rows: usize = 0;
        let mut start: usize = 0;
        let mut i: usize = 0;
        while i < p.byte_offset
            invariant
                i <= p.byte_offset < bytes@.len(),
                rows == count_newlines(bytes@, i as int),
                start == line_start(bytes@, i as int),
                rows <= i,
                start <= i,
            decreases p.byte_offset - i,
        {
            if bytes[i] == NEWLINE {
                rows = rows + 1;
                start = i + 1;
            }
            i += 1;
        }
        p.row == rows && p.col == p.byte_offset - start
    }

    /// Whether the span is a span of the file: both ends name characters
    /// of the file, and it does not end before it starts.
    pub fn holds_span(&self, span: Span) -> (r: bool)
        ensures
            r == span.valid_in(self@),
    {
        span.start.byte_offset <= span.end.byte_offset && self.holds_position(span.start)
            && self.holds_position(span.end)
    }

    /// The position of the first character, if the file has one.
    pub fn first_position(&self) -> (r: Option<Position>)
        ensures
            r == (if self@.len() > 0 {
                Some(Position { row: 0, col: 0, byte_offset: 0 })
            } else {
                None
            }),
            r matches Some(p) ==> p.valid_in(self@),
    {
        if self.mapping.len() > 0 {
            Some(Position { row: 0, col: 0, byte_offset: 0 })
        } else {
            None
        }
    }

    /// The character at a position.
    pub fn chr(&self, p: Position) -> (c: char)
        requires
            p.byte_offset < self@.len(),
        ensures
            c == self@[p.byte_offset as int] as char,
    {
        self.mapping[p.byte_offset] as char
    }

    /// The byte at a position.
    pub fn byte(&self, p: Position) -> (b: u8)
        requires
            p.byte_offset < self@.len(),
        ensures
            b == self@[p.byte_offset as int],
    {
        self.mapping[p.byte_offset]
    }

    /// The position that follows `p`, or `None` at the end of the file.
    pub fn next_position(&self, p: Position) -> (r: Option<Position>)
        requires
            p.valid_in(self@),
        ensures
            r == spec_next(self@, p),
            r matches Some(q) ==> q.valid_in(self@),
    {
        let len = self.mapping.len();
        proof {
            lemma_step(self@, p);
            lemma_line_start_bounds(self@, p.byte_offset as int);
        }
        if p.byte_offset + 1 < len {
            if self.mapping[p.byte_offset] == NEWLINE {
                Some(Position { row: p.row + 1, col: 0, byte_offset: p.byte_offset + 1 })
            } else {
                Some(Position { row: p.row, col: p.col + 1, byte_offset: p.byte_offset + 1 })
            }
        } else {
            None
        }
    }

    /// The position that precedes `p`, or `None` at the start of the file.
    pub fn prev_position(&self, p: Position) -> (r: Option<Position>)
        requires
            p.valid_in(self@),
        ensures
            r == spec_prev(self@, p),
            r matches Some(q) ==> q.valid_in(self@),
    {
        let len = self.mapping.len();
        proof {
            lemma_step(self@, p);
            lemma_line_start_bounds(self@, p.byte_offset as int);
        }
        if p.byte_offset > 0 {
            let off = p.byte_offset - 1;
            if self.mapping[off] == NEWLINE {
                let mut start: usize = off;
                while start > 0 && self.mapping[start - 1] != NEWLINE
                    invariant
                        start <= off < self.mapping@.len(),
                        line_start(self.mapping@, off as int) == line_start(
                            self.mapping@,
                            start as int,
                        ),
                    decreases start,
                {
                    start -= 1;
                }
                Some(Position { row: p.row - 1, col: off - start, byte_offset: off })
            } else {
                Some(Position { row: p.row, col: p.col - 1, byte_offset: off })
            }
        } else {
            None
        }
    }

    /// An iterator over the characters of the file with their positions.
    pub fn iter(&self) -> (it: PositionedChars<'m>)
        requires
            self.wf(),
        ensures
            it.wf(),
            it.source() == self@,
            it.position() == (Position { row: 0, col: 0, byte_offset: 0 }),
    {
        PositionedChars { curpos: Position { row: 0, col: 0, byte_offset: 0 }, bytes: self.mapping }
    }
}

/// A character with the position at which it stands.
#[derive(Debug, PartialEq, Eq)]
pub struct PositionedChar(pub Position, pub char);

/// Walks the characters of a file from front to back and allows looking
/// ahead without moving.
pub struct PositionedChars<'t> {
    curpos: Position,
    bytes: &'t [u8],
}

impl<'t> PositionedChars<'t> {
    /// The bytes of the file that is walked.
    pub closed spec fn source(&self) -> Seq<u8> {
        self.bytes@
    }

    /// The position of the character that `next` returns next.
    pub closed spec fn position(&self) -> Position {
        self.curpos
    }

    /// The source is ASCII and the current position lies in it or just
    /// behind its end.
    pub open spec fn wf(&self) -> bool {
        &&& all_ascii(self.source())
        &&& self.position().byte_offset <= self.source().len()
        &&& self.position().matches_offset(self.source())
    }

    /// What is left to read.
    pub open spec fn remaining(&self) -> Seq<u8> {
        self.source().subrange(self.position().byte_offset as int, self.source().len() as int)
    }

    /// The next character with its position. Moves on by one character.
    pub fn next(&mut self) -> (r: Option<PositionedChar>)
        requires
            old(self).wf(),
        ensures
            final(self).wf(),
            final(self).source() == old(self).source(),
            old(self).remaining().len() == 0 ==> r is None && *final(self) == *old(self),
            old(self).remaining().len() > 0 ==> r == Some(
                PositionedChar(old(self).position(), old(self).remaining()[0] as char),
            ) && final(self).position().byte_offset == old(self).position().byte_offset + 1,
    {
        let off = self.curpos.byte_offset;
        if off >= self.bytes.len() {
            return None;
        }
        proof {
            lemma_line_start_bounds(self.bytes@, off as int);
            lemma_line_start_bounds(self.bytes@, off + 1);
        }
        let b = self.bytes[off];
        let retpos = self.curpos;
        let next = if b == NEWLINE {
            Position { row: retpos.row + 1, col: 0, byte_offset: off + 1 }
        } else {
            Position { row: retpos.row, col: retpos.col + 1, byte_offset: off + 1 }
        };
        self.curpos = next;
        Some(PositionedChar(retpos, b as char))
    }

    /// The next `n` characters, or `None` if fewer are left. Does not move.
    pub fn try_peek_multiple(&mut self, n: usize) -> (r: Option<&'t str>)
        requires
            old(self).wf(),
        ensures
            *final(self) == *old(self),
            r is Some <==> n <= old(self).remaining().len(),
            r matches Some(s) ==> s@ == ascii_chars(old(self).remaining().subrange(0, n as int)),
    {
        if self.bytes.len() - self.curpos.byte_offset < n {
            None
        } else {
            Some(self.peek_multiple(n))
        }
    }

    /// The next `n` characters, or all that are left if they are fewer.
    /// Does not move.
    pub fn peek_multiple(&mut self, n: usize) -> (s: &'t str)
        requires
            old(self).wf(),
        ensures
            *final(self) == *old(self),
            s@ == ascii_chars(
                old(self).remaining().subrange(
                    0,
                    if n <= old(self).remaining().len() {
                        n as int
                    } else {
                        old(self).remaining().len() as int
                    },
                ),
            ),
    {
        let off = self.curpos.byte_offset;
        let end = if self.bytes.len() - off < n {
            self.bytes.len()
        } else {
            off + n
        };
        let region = slice_subrange(self.bytes, off, end);
        assert(region@ =~= self.remaining().subrange(0, end - off));
        ascii_str(region)
    }

    /// The next character, if one is left. Does not move.
    pub fn peek(&mut self) -> (r: Option<char>)
        requires
            old(self).wf(),
        ensures
            *final(self) == *old(self),
            r == (if old(self).remaining().len() > 0 {
                Some(old(self).remaining()[0] as char)
            } else {
                None
            }),
    {
        if self.curpos.byte_offset < self.bytes.len() {
            Some(self.bytes[self.curpos.byte_offset] as char)
        } else {
            None
        }
    }

    /// Nothing is left to read.
    pub fn eof_reached(&mut self) -> (r: bool)
        requires
            old(self).wf(),
        ensures
            *final(self) == *old(self),
            r == (old(self).remaining().len() == 0),
    {
        self.peek().is_none()
    }

    /// The position of the character that `next` returns next.
    pub fn current_position(&mut self) -> (p: Position)
        ensures
            *final(self) == *old(self),
            p == old(self).position(),
    {
        self.curpos
    }

    /// All characters that are left, each with its position, in order.
    pub fn collect(self) -> (v: Vec<PositionedChar>)
        requires
            self.wf(),
        ensures
            v@.len() == self.remaining().len(),
            forall|i: int|
                0 <= i < v@.len() ==> v@[i] == PositionedChar(
                    position_of(self.source(), self.position().byte_offset + i),
                    #[trigger] self.remaining()[i] as char,
                ),
    {
        let mut it = self;
        let mut v: Vec<PositionedChar> = Vec::new();
        let ghost start = self.position().byte_offset as int;
        loop
            invariant
                it.wf(),
                it.source() == self.source(),
                start <= it.position().byte_offset,
                v@.len() == it.position().byte_offset - start,
                start == self.position().byte_offset,
                forall|i: int|
                    0 <= i < v@.len() ==> v@[i] == PositionedChar(
                        position_of(self.source(), start + i),
                        #[trigger] self.remaining()[i] as char,
                    ),
            ensures
                it.remaining().len() == 0,
            decreases it.remaining().len(),
        {
            proof {
                lemma_valid_is_position_of(it.source(), it.position());
            }
            match it.next() {
                Some(pc) => v.push(pc),
                None => break,
            }
        }
        v
    }
}


/// A stretch of a source file, from the character at `start` up to and
/// including the character at `end`. It holds at least one character.
#[derive(Debug, Copy, Clone, PartialEq, Eq, Structural)]
pub struct Span {
    pub start: Position,
    pub end: Position,
}

impl Span {
    /// The span does not end before it starts.
    pub open spec fn wf(self) -> bool {
        self.start.byte_offset <= self.end.byte_offset
    }

    /// Both ends name characters of `bytes`, and the span is well formed.
    pub open spec fn valid_in(self, bytes: Seq<u8>) -> bool {
        &&& self.wf()
        &&& self.start.valid_in(bytes)
        &&& self.end.valid_in(bytes)
    }

    /// The number of characters in the span.
    pub open spec fn spec_len(self) -> int {
        self.end.byte_offset - self.start.byte_offset + 1
    }

    /// The bytes of `bytes` that the span covers.
    pub open spec fn text(self, bytes: Seq<u8>) -> Seq<u8> {
        bytes.subrange(self.start.byte_offset as int, self.end.byte_offset + 1)
    }

    /// The span from `start` to `end`, both included.
    pub fn new(start: Position, end: Position) -> (s: Span)
        requires
            start.byte_offset <= end.byte_offset,
        ensures
            s == (Span { start, end }),
            s.wf(),
    {
        Span { start, end }
    }

    /// The span that holds the one character at `position`.
    pub fn from_single_position(position: Position) -> (s: Span)
        ensures
            s == (Span { start: position, end: position }),
            s.wf(),
            s.spec_len() == 1,
    {
        Span { start: position, end: position }
    }

    /// The position of the first character.
    pub fn start_position(&self) -> (p: Position)
        ensures
            p == self.start,
    {
        self.start
    }

    /// The position of the last character.
    pub fn end_position(&self) -> (p: Position)
        ensures
            p == self.end,
    {
        self.end
    }

    /// The number of characters in the span.
    pub fn len(&self) -> (n: usize)
        requires
            self.wf(),
            self.end.byte_offset < usize::MAX,
        ensures
            n == self.spec_len(),
    {
        self.end.byte_offset - self.start.byte_offset + 1
    }

    /// The text that the span covers.
    pub fn as_str<'m>(&self, file: &AsciiFile<'m>) -> (s: &'m str)
        requires
            file.wf(),
            self.wf(),
            self.end.byte_offset < file@.len(),
        ensures
            s@ == ascii_chars(self.text(file@)),
    {
        let bytes = file.as_bytes();
        let n = bytes.len();
        let region = slice_subrange(bytes, self.start.byte_offset, self.end.byte_offset + 1);
        assert(all_ascii(region@)) by {
            assert forall|i: int| 0 <= i < region@.len() implies region@[i] < 128 by {
                assert(region@[i] == bytes@[i + self.start.byte_offset]);
            }
        }
        ascii_str(region)
    }

    /// The part that two spans have in common, if they overlap.
    pub fn intersect(a: &Span, b: &Span) -> (r: Option<Span>)
        requires
            a.wf(),
            b.wf(),
        ensures
            r is Some <==> a.start.byte_offset <= b.end.byte_offset && b.start.byte_offset
                <= a.end.byte_offset,
            r matches Some(s) ==> {
                &&& s.wf()
                &&& s.start == (if a.start.byte_offset >= b.start.byte_offset {
                    a.start
                } else {
                    b.start
                })
                &&& s.end == (if a.end.byte_offset <= b.end.byte_offset {
                    a.end
                } else {
                    b.end
                })
            },
    {
        if a.start.byte_offset <= b.end.byte_offset && b.start.byte_offset <= a.end.byte_offset {
            let start = if a.start.byte_offset >= b.start.byte_offset {
                a.start
            } else {
                b.start
            };
            let end = if a.end.byte_offset <= b.end.byte_offset {
                a.end
            } else {
                b.end
            };
            Some(Span { start, end })
        } else {
            None
        }
    }

    /// The smallest span that covers both `a` and `b`.
    pub fn combine(a: &Span, b: &Span) -> (s: Span)
        requires
            a.wf(),
            b.wf(),
        ensures
            s.wf(),
            s.start == (if a.start.byte_offset <= b.start.byte_offset {
                a.start
            } else {
                b.start
            }),
            s.end == (if a.end.byte_offset >= b.end.byte_offset {
                a.end
            } else {
                b.end
            }),
    {
        let start = if a.start.byte_offset <= b.start.byte_offset {
            a.start
        } else {
            b.start
        };
        let end = if a.end.byte_offset >= b.end.byte_offset {
            a.end
        } else {
            b.end
        };
        Span { start, end }
    }
}

/// A value together with the stretch of source that it was read from.
/// Two such values are equal when their payloads are: the span is not
/// compared.
#[derive(Debug, Clone)]
pub struct Spanned<T> {
    pub span: Span,
    pub data: T,
}

impl<T> Spanned<T> {
    pub fn new(span: Span, data: T) -> (s: Self)
        ensures
            s.span == span,
            s.data == data,
    {
        Spanned { span, data }
    }
}

impl<T: PartialEq> PartialEq for Spanned<T> {
    fn eq(&self, other: &Self) -> (r: bool) {
        self.data == other.data
    }
}

impl<T: PartialEq> PartialEqSpecImpl for Spanned<T> {
    open spec fn obeys_eq_spec() -> bool {
        T::obeys_eq_spec()
    }

    open spec fn eq_spec(&self, other: &Self) -> bool {
        self.data.eq_spec(&other.data)
    }
}

impl<T: Eq> Eq for Spanned<T> {

}

/// A value that may or may not carry the stretch of source it belongs to.
#[derive(Debug, Clone)]
pub enum MaybeSpanned<T> {
    WithSpan(Spanned<T>),
    WithoutSpan(T),
}

impl<T> MaybeSpanned<T> {
    /// The payload, with or without a span around it.
    pub fn data(&self) -> (d: &T)
        ensures
            *d == (match *self {
                MaybeSpanned::WithSpan(s) => s.data,
                MaybeSpanned::WithoutSpan(d) => d,
            }),
    {
        match self {
            MaybeSpanned::WithSpan(s) => &s.data,
            MaybeSpanned::WithoutSpan(d) => d,
        }
    }

    /// The span, if there is one.
    pub fn span(&self) -> (r: Option<Span>)
        ensures
            r == (match *self {
                MaybeSpanned::WithSpan(s) => Some(s.span),
                MaybeSpanned::WithoutSpan(_) => None,
            }),
    {
        match self {
            MaybeSpanned::WithSpan(s) => Some(s.span),
            MaybeSpanned::WithoutSpan(_) => None,
        }
    }
}

} // verus!
