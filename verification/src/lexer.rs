//! The lexer: from the characters of a source file to tokens with spans.
//! Tokens come in source order, each with the span that covers exactly
//! its characters, and the spans follow each other without a gap.
use crate::asciifile::{
    lemma_position_of_matches, lemma_step, lemma_valid_is_position_of, position_of, AsciiFile,
    Position, Span, Spanned,
};
use crate::strtab::{StringTable, Symbol};
use vstd::prelude::*;
use vstd::slice::{slice_subrange, slice_to_vec};

pub mod scan;
pub mod tables;
pub mod tokens;

pub use self::tokens::{Keyword, Operator};

use self::scan::{scan, spec_next, Lexeme};

verus! {

#[derive(Debug, PartialEq, Eq)]
pub enum TokenKind {
    Keyword(Keyword),
    Operator(Operator),
    Identifier(Symbol),
    /// The digits of the literal. Whether they fit in an `int` is decided
    /// later.
    IntegerLiteral(Symbol),
    /// The text between `/*` and `*/`.
    Comment(Vec<u8>),
    Whitespace,
    /// The end of the input. The lexer does not produce it: the end of
    /// the input is the end of the tokens.
    EOF,
}

#[derive(Debug, Copy, Clone, PartialEq, Eq, Structural)]
pub enum LexError {
    /// A character with which no token starts.
    UnexpectedCharacter(u8),
    /// A comment that is not closed before the end of the input.
    UnterminatedComment,
}

/// The span of the `len` characters from position `p` on.
pub open spec fn span_from(bytes: Seq<u8>, p: Position, len: int) -> Span {
    Span { start: p, end: position_of(bytes, p.byte_offset + len - 1) }
}

/// `r` is the token that stands at position `p` of `bytes`, with the
/// span of its characters; an identifier or a literal is a handle of
/// `tab` for its characters.
pub open spec fn token_ok(
    bytes: Seq<u8>,
    tab: &StringTable,
    p: Position,
    r: Result<Spanned<TokenKind>, Spanned<LexError>>,
) -> bool {
    let off = p.byte_offset as int;
    let next = spec_next(bytes, off);
    let len = next.1;
    let span = span_from(bytes, p, len);
    let lexeme = bytes.subrange(off, off + len);
    match next.0 {
        Lexeme::Whitespace => r matches Ok(t) && t.span == span && t.data is Whitespace,
        Lexeme::Comment => r matches Ok(t) && t.span == span && t.data is Comment && t.data->Comment_0@
            == bytes.subrange(off + 2, off + len - 2),
        Lexeme::Keyword(k) => r matches Ok(t) && t.span == span && t.data is Keyword
            && t.data->Keyword_0 == k,
        Lexeme::Operator(op) => r matches Ok(t) && t.span == span && t.data is Operator
            && t.data->Operator_0 == op,
        Lexeme::Identifier => r matches Ok(t) && t.span == span && t.data is Identifier && tab.owns(
            t.data->Identifier_0,
        ) && tab.bytes(t.data->Identifier_0) == lexeme,
        Lexeme::IntegerLiteral => r matches Ok(t) && t.span == span && t.data is IntegerLiteral
            && tab.owns(t.data->IntegerLiteral_0) && tab.bytes(t.data->IntegerLiteral_0) == lexeme,
        Lexeme::UnterminatedComment => r matches Err(e) && e.span == span && e.data
            == LexError::UnterminatedComment,
        Lexeme::UnexpectedCharacter(c) => r matches Err(e) && e.span == span && e.data
            == LexError::UnexpectedCharacter(c),
    }
}

/// The table `new` holds what the table `old` held, under the same
/// handles.
pub open spec fn table_grew(old: &StringTable, new: &StringTable) -> bool {
    old@.len() <= new@.len() && new@.subrange(0, old@.len() as int) == old@
}

/// A token that was right for a table is right for a table that grew
/// from it.
pub proof fn lemma_token_kept(
    bytes: Seq<u8>,
    old: &StringTable,
    new: &StringTable,
    p: Position,
    r: Result<Spanned<TokenKind>, Spanned<LexError>>,
)
    requires
        token_ok(bytes, old, p, r),
        table_grew(old, new),
    ensures
        token_ok(bytes, new, p, r),
{
    assert forall|s: Symbol| old.owns(s) implies new.owns(s) && new.bytes(s) == old.bytes(s) by {
        assert(new@.subrange(0, old@.len() as int)[s.id as int] == new@[s.id as int]);
    }
}

/// The span of a token, or of the error that stands in its place.
pub open spec fn item_span(r: Result<Spanned<TokenKind>, Spanned<LexError>>) -> Span {
    match r {
        Ok(t) => t.span,
        Err(e) => e.span,
    }
}

/// Every span is a span of `bytes`, and each ends before the next
/// starts.
pub open spec fn spans_ordered(
    bytes: Seq<u8>,
    items: Seq<Result<Spanned<TokenKind>, Spanned<LexError>>>,
) -> bool {
    &&& forall|i: int| 0 <= i < items.len() ==> item_span(#[trigger] items[i]).valid_in(bytes)
    &&& forall|i: int, j: int|
        0 <= i < j < items.len() ==> item_span(#[trigger] items[i]).end.byte_offset < item_span(
            #[trigger] items[j],
        ).start.byte_offset
}

/// Every span ends before the offset `off`.
pub open spec fn all_before(
    items: Seq<Result<Spanned<TokenKind>, Spanned<LexError>>>,
    off: int,
) -> bool {
    forall|i: int| 0 <= i < items.len() ==> item_span(#[trigger] items[i]).end.byte_offset < off
}

/// The token at a position has the span of its characters.
pub proof fn lemma_token_span(
    bytes: Seq<u8>,
    tab: &StringTable,
    p: Position,
    r: Result<Spanned<TokenKind>, Spanned<LexError>>,
)
    requires
        token_ok(bytes, tab, p, r),
    ensures
        item_span(r) == span_from(bytes, p, spec_next(bytes, p.byte_offset as int).1),
{
}

/// Reads the tokens of a file one after the other.
pub struct Lexer<'f> {
    file: &'f AsciiFile<'f>,
    /// The position at which the next token starts.
    position: Option<Position>,
}

impl<'f> Lexer<'f> {
    /// The characters of the file that is read.
    pub closed spec fn source(&self) -> Seq<u8> {
        self.file@
    }

    /// The position at which the next token starts, if the input has not
    /// ended.
    pub closed spec fn upcoming(&self) -> Option<Position> {
        self.position
    }

    /// The file is ASCII and the position lies in it.
    pub open spec fn wf(&self) -> bool {
        &&& self.source().len() <= usize::MAX
        &&& self.upcoming() matches Some(p) ==> p.valid_in(self.source())
    }

    /// A lexer at the start of `file`.
    pub fn new(file: &'f AsciiFile<'f>) -> (l: Self)
        ensures
            l.wf(),
            l.source() == file@,
            l.upcoming() == (if file@.len() > 0 {
                Some(Position { row: 0, col: 0, byte_offset: 0 })
            } else {
                None
            }),
    {
        let n = file.len();
        Lexer { file, position: file.first_position() }
    }

    /// The position of the last of the `n` characters from `p` on, and
    /// the position behind them if there is one.
    fn advance(&self, p: Position, n: usize) -> (r: (Position, Option<Position>))
        requires
            self.wf(),
            p.valid_in(self.source()),
            n >= 1,
            p.byte_offset + n <= self.source().len(),
        ensures
            r.0 == position_of(self.source(), p.byte_offset + n - 1),
            r.0.valid_in(self.source()),
            r.1 == (if p.byte_offset + n < self.source().len() {
                Some(position_of(self.source(), p.byte_offset + n))
            } else {
                None
            }),
            r.1 matches Some(q) ==> q.valid_in(self.source()),
    {
        let mut last = p;
        let mut taken: usize = 1;
        proof {
            lemma_valid_is_position_of(self.file@, p);
        }
        while taken < n
            invariant
                self.wf(),
                1 <= taken <= n,
                p.byte_offset + n <= self.file@.len(),
                last.valid_in(self.file@),
                last.byte_offset == p.byte_offset + taken - 1,
                last == position_of(self.file@, last.byte_offset as int),
            decreases n - taken,
        {
            proof {
                lemma_step(self.file@, last);
            }
            match self.file.next_position(last) {
                Some(q) => {
                    last = q;
                },
                None => {},
            }
            taken += 1;
        }
        proof {
            lemma_step(self.file@, last);
        }
        (last, self.file.next_position(last))
    }

    /// The next token, or the error that stands in its place, and `None`
    /// at the end of the input. Behind an error the lexer goes on with
    /// the character behind it.
    pub fn next(&mut self, strtab: &mut StringTable) -> (r: Option<
        Result<Spanned<TokenKind>, Spanned<LexError>>,
    >)
        requires
            old(self).wf(),
            old(strtab).wf(),
        ensures
            final(self).wf(),
            final(self).source() == old(self).source(),
            final(strtab).wf(),
            table_grew(old(strtab), final(strtab)),
            match old(self).upcoming() {
                None => r is None && final(self).upcoming() is None && *final(strtab) == *old(
                    strtab,
                ),
                Some(p) => {
                    let len = spec_next(old(self).source(), p.byte_offset as int).1;
                    &&& r matches Some(t) && token_ok(old(self).source(), final(strtab), p, t)
                    &&& 1 <= len
                    &&& p.byte_offset + len <= old(self).source().len()
                    &&& final(self).upcoming() == (if p.byte_offset + len < old(self).source().len() {
                        Some(position_of(old(self).source(), p.byte_offset + len))
                    } else {
                        None
                    })
                },
            },
    {
        let p = match self.position {
            Some(p) => p,
            None => {
                assert(strtab@.subrange(0, strtab@.len() as int) =~= strtab@);
                return None;
            },
        };
        let bytes = self.file.as_bytes();
        let off = p.byte_offset;
        let (lexeme, len) = scan(bytes, off);
        let (end, next) = self.advance(p, len);
        let span = Span { start: p, end };
        self.position = next;
        let text = slice_subrange(bytes, off, off + len);
        assert(strtab@.subrange(0, strtab@.len() as int) =~= strtab@);
        let r = match lexeme {
            Lexeme::Whitespace => Ok(Spanned { span, data: TokenKind::Whitespace }),
            Lexeme::Comment => {
                proof {
                    scan::lemma_comment_end_bounds(bytes@, off + 2);
                }
                Ok(
                    Spanned {
                        span,
                        data: TokenKind::Comment(
                            slice_to_vec(slice_subrange(bytes, off + 2, off + len - 2)),
                        ),
                    },
                )
            },
            Lexeme::Keyword(k) => Ok(Spanned { span, data: TokenKind::Keyword(k) }),
            Lexeme::Operator(op) => Ok(Spanned { span, data: TokenKind::Operator(op) }),
            Lexeme::Identifier => Ok(
                Spanned { span, data: TokenKind::Identifier(strtab.intern(text)) },
            ),
            Lexeme::IntegerLiteral => Ok(
                Spanned { span, data: TokenKind::IntegerLiteral(strtab.intern(text)) },
            ),
            Lexeme::UnterminatedComment => Err(Spanned { span, data: LexError::UnterminatedComment }),
            Lexeme::UnexpectedCharacter(c) => Err(
                Spanned { span, data: LexError::UnexpectedCharacter(c) },
            ),
        };
        Some(r)
    }
}

/// The offsets at which the tokens from offset `pos` on start.
pub open spec fn spec_starts(bytes: Seq<u8>, pos: int) -> Seq<int>
    decreases bytes.len() - pos,
{
    if pos < 0 || pos >= bytes.len() {
        Seq::empty()
    } else {
        let len = spec_next(bytes, pos).1;
        if len <= 0 || pos + len > bytes.len() {
            seq![pos]
        } else {
            seq![pos] + spec_starts(bytes, pos + len)
        }
    }
}

/// `tokens` are the tokens of `bytes` from offset `pos` on.
pub open spec fn tokens_ok(
    bytes: Seq<u8>,
    tab: &StringTable,
    pos: int,
    tokens: Seq<Result<Spanned<TokenKind>, Spanned<LexError>>>,
) -> bool {
    &&& tokens.len() == spec_starts(bytes, pos).len()
    &&& forall|i: int|
        0 <= i < tokens.len() ==> token_ok(
            bytes,
            tab,
            position_of(bytes, spec_starts(bytes, pos)[i]),
            #[trigger] tokens[i],
        )
}

/// All tokens of a file, in source order, with the errors that stand in
/// the place of tokens.
pub fn lex_all(file: &AsciiFile<'_>, strtab: &mut StringTable) -> (tokens: Vec<
    Result<Spanned<TokenKind>, Spanned<LexError>>,
>)
    requires
        old(strtab).wf(),
    ensures
        final(strtab).wf(),
        table_grew(old(strtab), final(strtab)),
        tokens_ok(file@, final(strtab), 0, tokens@),
        spans_ordered(file@, tokens@),
{
    let mut lexer = Lexer::new(file);
    let mut tokens: Vec<Result<Spanned<TokenKind>, Spanned<LexError>>> = Vec::new();
    let ghost bytes = file@;
    let ghost all = spec_starts(bytes, 0);
    assert(strtab@.subrange(0, strtab@.len() as int) =~= strtab@);
    loop
        invariant
            lexer.wf(),
            lexer.source() == bytes,
            strtab.wf(),
            table_grew(old(strtab), strtab),
            all == spec_starts(bytes, 0),
            tokens@.len() <= all.len(),
            spans_ordered(bytes, tokens@),
            all_before(
                tokens@,
                match lexer.upcoming() {
                    Some(p) => p.byte_offset as int,
                    None => bytes.len() as int,
                },
            ),
            all == all.subrange(0, tokens@.len() as int) + spec_starts(
                bytes,
                match lexer.upcoming() {
                    Some(p) => p.byte_offset as int,
                    None => bytes.len() as int,
                },
            ),
            forall|i: int|
                0 <= i < tokens@.len() ==> token_ok(
                    bytes,
                    strtab,
                    position_of(bytes, all[i]),
                    #[trigger] tokens@[i],
                ),
        ensures
            lexer.upcoming() is None,
        decreases
                match lexer.upcoming() {
                    Some(p) => bytes.len() - p.byte_offset,
                    None => 0,
                },
    {
        let ghost before = *strtab;
        let ghost p = lexer.upcoming();
        let ghost done = tokens@;
        match lexer.next(strtab) {
            Some(t) => {
                tokens.push(t);
                proof {
                    let pos = p->0;
                    lemma_valid_is_position_of(bytes, pos);
                    let rest = spec_starts(bytes, pos.byte_offset as int);
                    assert(rest[0] == pos.byte_offset);
                    assert(all[done.len() as int] == pos.byte_offset);
                    let len = spec_next(bytes, pos.byte_offset as int).1;
                    assert(all.subrange(0, (done.len() + 1) as int) =~= all.subrange(0, done.len() as int)
                        + seq![pos.byte_offset as int]);
                    assert(all =~= all.subrange(0, (done.len() + 1) as int) + spec_starts(
                        bytes,
                        pos.byte_offset + len,
                    ));
                    if pos.byte_offset + len < bytes.len() {
                        lemma_position_of_matches(bytes, pos.byte_offset + len);
                    }
                    lemma_token_span(bytes, strtab, pos, tokens@[done.len() as int]);
                    lemma_position_of_matches(bytes, pos.byte_offset + len - 1);
                    assert(item_span(tokens@[done.len() as int]).valid_in(bytes));
                    assert forall|i: int| 0 <= i < tokens@.len() implies item_span(
                        #[trigger] tokens@[i],
                    ).valid_in(bytes) by {
                        if i < done.len() {
                            assert(tokens@[i] == done[i]);
                        }
                    }
                    assert forall|i: int, j: int| 0 <= i < j < tokens@.len() implies item_span(
                        #[trigger] tokens@[i],
                    ).end.byte_offset < item_span(#[trigger] tokens@[j]).start.byte_offset by {
                        assert(tokens@[i] == done[i]);
                        if j < done.len() {
                            assert(tokens@[j] == done[j]);
                        }
                    }
                    assert forall|i: int| 0 <= i < tokens@.len() implies item_span(
                        #[trigger] tokens@[i],
                    ).end.byte_offset < pos.byte_offset + len by {
                        if i < done.len() {
                            assert(tokens@[i] == done[i]);
                        }
                    }
                    assert forall|i: int| 0 <= i < tokens@.len() implies token_ok(
                        bytes,
                        strtab,
                        position_of(bytes, all[i]),
                        #[trigger] tokens@[i],
                    ) by {
                        if i < done.len() {
                            lemma_token_kept(bytes, &before, strtab, position_of(bytes, all[i]), done[i]);
                        }
                    }
                    assert(table_grew(old(strtab), strtab)) by {
                        assert(strtab@.subrange(0, old(strtab)@.len() as int) =~= old(strtab)@) by {
                            assert forall|i: int| 0 <= i < old(strtab)@.len() implies strtab@[i]
                                == old(strtab)@[i] by {
                                assert(before@.subrange(0, old(strtab)@.len() as int)[i] == before@[i]);
                                assert(strtab@.subrange(0, before@.len() as int)[i] == strtab@[i]);
                            }
                        }
                    }
                }
            },
            None => {
                break ;
            },
        }
    }
    proof {
        assert(all.subrange(0, tokens@.len() as int) + Seq::<int>::empty() =~= all.subrange(
            0,
            tokens@.len() as int,
        ));
        assert(all.subrange(0, tokens@.len() as int).len() == all.len());
    }
    tokens
}

} // verus!
