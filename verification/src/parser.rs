//! The parser: from the tokens of a source file to its syntax tree. It
//! reads the tokens that are left when white space and comments are
//! taken out, and stops at the first error.
use crate::asciifile::{AsciiFile, Position, Span, Spanned};
use crate::ast::AST;
use crate::lexer::{
    item_span, lex_all, spans_ordered, table_grew, tokens_ok, Keyword, LexError, Operator,
    TokenKind,
};
use crate::strtab::{StringTable, Symbol};
use vstd::prelude::*;

pub mod expressions;
pub mod grammar;
pub mod members;
pub mod names;
pub mod round_trip;
pub mod round_trip_program;
pub mod statements;
pub mod tree;

use self::grammar::{
    at, end_span, is_kw, is_op, name_at, span_of, spec_basic, spec_dims, spec_error, spec_parse,
    spec_type, Parsed, Tokens,
};
use self::names::basic_known;
use self::tree::{ast_tree, shaped, spans_ok};
use crate::print::pretty::ast_tokens;
use crate::print::round_trip::{
    all_writable, lemma_ast_known, lemma_items_writable, lemma_kept_writable,
    lemma_known_writable,
};
use crate::ast::{BasicType, Type};

verus! {

/// A token that the grammar speaks of.
#[derive(Debug, Copy, Clone, PartialEq, Eq, Structural)]
pub enum Token {
    Keyword(Keyword),
    Operator(Operator),
    Identifier(Symbol),
    IntegerLiteral(Symbol),
}

/// What may stand at a place of a program.
#[derive(Debug, Copy, Clone, PartialEq, Eq, Structural)]
pub enum Expected {
    Keyword(Keyword),
    Operator(Operator),
    Identifier,
    /// `int`, `boolean`, `void` or the name of a class.
    Type,
    /// The first token of an expression.
    Expression,
}

#[derive(Debug, Copy, Clone, PartialEq, Eq, Structural)]
pub enum SyntaxError {
    /// A token stands where the grammar asks for another.
    UnexpectedToken { expected: Expected, found: Token },
    /// The tokens end where the grammar asks for one.
    UnexpectedEOF,
    /// A member of a class that has a type and a name, and is followed
    /// neither by `;` as a field nor by `(` as a method.
    InvalidMemberDeclaration,
    /// A second `static` method: only the main method is static, and a
    /// program has one.
    DuplicateMainMethod,
}

/// The tokens are those of `bytes`, in the order of the source: every
/// span is a span of `bytes`, and each token ends before the next starts.
pub open spec fn ordered(t: Tokens, bytes: Seq<u8>) -> bool {
    &&& forall|i: int| 0 <= i < t.len() ==> (#[trigger] t[i]).span.valid_in(bytes)
    &&& forall|i: int, j: int|
        0 <= i < j < t.len() ==> (#[trigger] t[i]).span.end.byte_offset < (
        #[trigger] t[j]).span.start.byte_offset
}

/// The result `r` of a parsing function is what the grammar gives.
pub open spec fn same<T>(r: Result<(T, usize), Spanned<SyntaxError>>, s: Parsed<T>) -> bool {
    match r {
        Ok((x, j)) => s == Ok::<(T, int), Spanned<SyntaxError>>((x, j as int)),
        Err(e) => s == Err::<(T, int), Spanned<SyntaxError>>(e),
    }
}

/// A span from the start of one token to the end of the same or a later
/// one is a span of the source.
pub proof fn lemma_span_of(t: Tokens, bytes: Seq<u8>, lo: int, hi: int)
    requires
        ordered(t, bytes),
        0 <= lo < hi <= t.len(),
    ensures
        span_of(t, lo, hi).valid_in(bytes),
{
    assert(t[lo].span.valid_in(bytes));
    assert(t[hi - 1].span.valid_in(bytes));
}

/// A parser for the tokens of one source file.
pub struct Parser<'f> {
    pub file: &'f AsciiFile<'f>,
    /// The tokens of the file, without white space and comments.
    pub tokens: Vec<Spanned<Token>>,
}

impl<'f> Parser<'f> {
    pub fn new(file: &'f AsciiFile<'f>, tokens: Vec<Spanned<Token>>) -> (p: Parser<'f>)
        ensures
            p.file == file,
            p.tokens == tokens,
    {
        Parser { file, tokens }
    }

    /// The tokens are those of the file, in the order of the source.
    pub open spec fn in_order(&self) -> bool {
        ordered(self.tokens@, self.file@)
    }

    /// The token `ahead` places behind index `i`.
    pub fn peek(&self, i: usize, ahead: usize) -> (r: Option<Token>)
        requires
            i <= self.tokens@.len(),
        ensures
            r == at(self.tokens@, i + ahead),
            self.tokens@.len() <= usize::MAX,
            r matches Some(tok) ==> self::names::known(tok, self.tokens@),
    {
        if ahead < self.tokens.len() - i {
            Some(self.tokens[i + ahead].data)
        } else {
            None
        }
    }

    pub fn is_op(&self, i: usize, ahead: usize, op: Operator) -> (r: bool)
        requires
            i <= self.tokens@.len(),
        ensures
            r == is_op(self.tokens@, i + ahead, op),
            self.tokens@.len() <= usize::MAX,
    {
        match self.peek(i, ahead) {
            Some(Token::Operator(o)) => o == op,
            _ => false,
        }
    }

    pub fn is_kw(&self, i: usize, ahead: usize, kw: Keyword) -> (r: bool)
        requires
            i <= self.tokens@.len(),
        ensures
            r == is_kw(self.tokens@, i + ahead, kw),
            self.tokens@.len() <= usize::MAX,
    {
        match self.peek(i, ahead) {
            Some(Token::Keyword(k)) => k == kw,
            _ => false,
        }
    }

    pub fn name_at(&self, i: usize, ahead: usize) -> (r: Option<Symbol>)
        requires
            i <= self.tokens@.len(),
        ensures
            r == name_at(self.tokens@, i + ahead),
            self.tokens@.len() <= usize::MAX,
            r matches Some(s) ==> self::names::name_known(s, self.tokens@),
    {
        match self.peek(i, ahead) {
            Some(Token::Identifier(s)) => Some(s),
            _ => None,
        }
    }

    /// The error for the token `ahead` places behind index `i`, where one
    /// of `expected` should stand.
    pub fn error(&self, i: usize, ahead: usize, expected: Expected) -> (e: Spanned<SyntaxError>)
        requires
            i <= self.tokens@.len(),
        ensures
            e == spec_error(self.tokens@, i + ahead, expected),
    {
        let n = self.tokens.len();
        if ahead < n - i {
            let found = &self.tokens[i + ahead];
            Spanned {
                span: found.span,
                data: SyntaxError::UnexpectedToken { expected, found: found.data },
            }
        } else if n > 0 {
            Spanned { span: self.tokens[n - 1].span, data: SyntaxError::UnexpectedEOF }
        } else {
            let p = Position { row: 0, col: 0, byte_offset: 0 };
            Spanned { span: Span { start: p, end: p }, data: SyntaxError::UnexpectedEOF }
        }
    }

    /// The span of the tokens `lo` up to `hi`.
    pub fn span(&self, lo: usize, hi: usize) -> (s: Span)
        requires
            lo < hi <= self.tokens@.len(),
        ensures
            s == span_of(self.tokens@, lo as int, hi as int),
            self.in_order() ==> s.valid_in(self.file@),
    {
        proof {
            if self.in_order() {
                lemma_span_of(self.tokens@, self.file@, lo as int, hi as int);
            }
        }
        Span { start: self.tokens[lo].span.start, end: self.tokens[hi - 1].span.end }
    }

    pub fn basic(&self, i: usize, ahead: usize) -> (r: Option<BasicType>)
        requires
            i <= self.tokens@.len(),
        ensures
            r == spec_basic(self.tokens@, i + ahead),
            self.tokens@.len() <= usize::MAX,
            r matches Some(b) ==> basic_known(b, self.tokens@),
    {
        match self.peek(i, ahead) {
            Some(Token::Keyword(Keyword::Int)) => Some(BasicType::Int),
            Some(Token::Keyword(Keyword::Boolean)) => Some(BasicType::Boolean),
            Some(Token::Keyword(Keyword::Void)) => Some(BasicType::Void),
            Some(Token::Identifier(s)) => Some(BasicType::Custom(s)),
            _ => None,
        }
    }

    /// Counts the `[` `]` from index `i` on, and gives the index behind
    /// them.
    pub fn parse_dims(&self, i: usize) -> (r: (u64, usize))
        requires
            i <= self.tokens@.len(),
        ensures
            r.0 == spec_dims(self.tokens@, i as int),
            r.1 == i + 2 * r.0,
            r.1 <= self.tokens@.len(),
    {
        let mut n: u64 = 0;
        let mut j: usize = i;
        while self.is_op(j, 0, Operator::LeftBracket) && self.is_op(j, 1, Operator::RightBracket)
            invariant
                i <= j <= self.tokens@.len(),
                j == i + 2 * n,
                spec_dims(self.tokens@, i as int) == n + spec_dims(self.tokens@, j as int),
            decreases self.tokens@.len() - j,
        {
            j = j + 2;
            n = n + 1;
        }
        (n, j)
    }

    pub fn parse_type(&self, i: usize) -> (r: Result<(Spanned<Type>, usize), Spanned<SyntaxError>>)
        requires
            i <= self.tokens@.len(),
        ensures
            same(r, spec_type(self.tokens@, i as int)),
            r matches Ok((ty, j)) ==> i < j <= self.tokens@.len() && (self.in_order()
                ==> ty.span.valid_in(self.file@)),
            r matches Ok((ty, _)) ==> basic_known(ty.data.basic, self.tokens@),
    {
        match self.basic(i, 0) {
            None => Err(self.error(i, 0, Expected::Type)),
            Some(basic) => {
                let (n, j) = self.parse_dims(i + 1);
                Ok((Spanned { span: self.span(i, j), data: Type { basic, array_depth: n } }, j))
            },
        }
    }
}

/// What the lexer gives for one token.
pub type Lexed = Result<Spanned<TokenKind>, Spanned<LexError>>;

/// The token of the grammar that a token of the lexer is. White space,
/// comments and the mark of the end are none.
pub open spec fn spec_significant(k: TokenKind) -> Option<Token> {
    match k {
        TokenKind::Keyword(k) => Some(Token::Keyword(k)),
        TokenKind::Operator(op) => Some(Token::Operator(op)),
        TokenKind::Identifier(s) => Some(Token::Identifier(s)),
        TokenKind::IntegerLiteral(s) => Some(Token::IntegerLiteral(s)),
        _ => None,
    }
}

pub fn significant(k: &TokenKind) -> (r: Option<Token>)
    ensures
        r == spec_significant(*k),
{
    match k {
        TokenKind::Keyword(k) => Some(Token::Keyword(*k)),
        TokenKind::Operator(op) => Some(Token::Operator(*op)),
        TokenKind::Identifier(s) => Some(Token::Identifier(*s)),
        TokenKind::IntegerLiteral(s) => Some(Token::IntegerLiteral(*s)),
        _ => None,
    }
}

/// The first error among the first `n` of `items`.
pub open spec fn first_error(items: Seq<Lexed>, n: nat) -> Option<Spanned<LexError>>
    decreases n,
{
    if n == 0 {
        None
    } else {
        match first_error(items, (n - 1) as nat) {
            Some(e) => Some(e),
            None => match items[n - 1] {
                Err(e) => Some(e),
                Ok(_) => None,
            },
        }
    }
}

/// The tokens of the grammar among the first `n` of `items`, in their
/// order and with their spans.
pub open spec fn kept(items: Seq<Lexed>, n: nat) -> Tokens
    decreases n,
{
    if n == 0 {
        Seq::empty()
    } else {
        let before = kept(items, (n - 1) as nat);
        match items[n - 1] {
            Ok(t) => match spec_significant(t.data) {
                Some(token) => before.push(Spanned { span: t.span, data: token }),
                None => before,
            },
            Err(_) => before,
        }
    }
}

/// What the parser reads of what the lexer gave: the first error, or
/// where there is none the tokens without white space and comments.
pub open spec fn spec_filter(items: Seq<Lexed>) -> Result<Tokens, Spanned<LexError>> {
    match first_error(items, items.len()) {
        Some(e) => Err(e),
        None => Ok(kept(items, items.len())),
    }
}

/// Every token ends before each of the items from index `n` on starts.
pub open spec fn ends_before(t: Tokens, items: Seq<Lexed>, n: int) -> bool {
    forall|a: int, k: int|
        0 <= a < t.len() && n <= k < items.len() ==> (#[trigger] t[a]).span.end.byte_offset
            < item_span(#[trigger] items[k]).start.byte_offset
}

impl<'f> Parser<'f> {
    /// A parser for what the lexer gave for `file`, or the first lexical
    /// error.
    pub fn from_lexed(file: &'f AsciiFile<'f>, items: &Vec<Lexed>) -> (r: Result<
        Parser<'f>,
        Spanned<LexError>,
    >)
        ensures
            match r {
                Ok(p) => p.file == file && spec_filter(items@) == Ok::<Tokens, Spanned<LexError>>(
                    p.tokens@,
                ) && (spans_ordered(file@, items@) ==> p.in_order()),
                Err(e) => spec_filter(items@) == Err::<Tokens, Spanned<LexError>>(e),
            },
    {
        let mut tokens: Vec<Spanned<Token>> = Vec::new();
        let mut n: usize = 0;
        while n < items.len()
            invariant
                n <= items@.len(),
                first_error(items@, n as nat) is None,
                tokens@ == kept(items@, n as nat),
                spans_ordered(file@, items@) ==> ordered(tokens@, file@) && ends_before(
                    tokens@,
                    items@,
                    n as int,
                ),
            decreases items@.len() - n,
        {
            let ghost before = tokens@;
            match &items[n] {
                Err(e) => {
                    proof {
                        lemma_first_error_stays(items@, (n + 1) as nat, items@.len());
                    }
                    return Err(Spanned { span: e.span, data: e.data });
                },
                Ok(t) => match significant(&t.data) {
                    Some(token) => {
                        tokens.push(Spanned { span: t.span, data: token });
                        proof {
                            if spans_ordered(file@, items@) {
                                assert(item_span(items@[n as int]) == t.span);
                                assert forall|i: int| 0 <= i < tokens@.len() implies (
                                #[trigger] tokens@[i]).span.valid_in(file@) by {
                                    if i < before.len() {
                                        assert(tokens@[i] == before[i]);
                                    }
                                }
                                assert forall|i: int, j: int|
                                    0 <= i < j < tokens@.len() implies (
                                #[trigger] tokens@[i]).span.end.byte_offset < (
                                #[trigger] tokens@[j]).span.start.byte_offset by {
                                    assert(tokens@[i] == before[i]);
                                    if j < before.len() {
                                        assert(tokens@[j] == before[j]);
                                    }
                                }
                                assert forall|a: int, k: int|
                                    0 <= a < tokens@.len() && n + 1 <= k < items@.len() implies (
                                #[trigger] tokens@[a]).span.end.byte_offset < item_span(
                                    #[trigger] items@[k],
                                ).start.byte_offset by {
                                    if a < before.len() {
                                        assert(tokens@[a] == before[a]);
                                    }
                                }
                            }
                        }
                    },
                    None => {},
                },
            }
            n = n + 1;
        }
        Ok(Parser { file, tokens })
    }
}

/// An error among the first items is the first error of all.
pub proof fn lemma_first_error_stays(items: Seq<Lexed>, n: nat, m: nat)
    requires
        n <= m,
        first_error(items, n) is Some,
    ensures
        first_error(items, m) == first_error(items, n),
    decreases m - n,
{
    if n < m {
        lemma_first_error_stays(items, n, (m - 1) as nat);
    }
}

/// Why a source file has no syntax tree.
#[derive(Debug)]
pub enum FrontError {
    Lexical(Spanned<LexError>),
    Syntactic(Spanned<SyntaxError>),
}

/// `r` is what parsing gives for what the lexer gave: the first lexical
/// error, or the first syntax error, or the tree.
pub open spec fn front(items: Seq<Lexed>, r: Result<AST, FrontError>) -> bool {
    match spec_filter(items) {
        Err(e) => r matches Err(FrontError::Lexical(x)) && x == e,
        Ok(tokens) => match spec_parse(tokens) {
            Err(e) => r matches Err(FrontError::Syntactic(x)) && x == e,
            Ok(tree) => r matches Ok(a) && ast_tree(&a) == tree,
        },
    }
}

/// `r` is the result of lexing and parsing `file` with the table `tab`.
pub open spec fn parsed_from(file: &AsciiFile<'_>, tab: &StringTable, r: Result<AST, FrontError>) -> bool {
    exists|items: Seq<Lexed>| tokens_ok(file@, tab, 0, items) && front(items, r)
}

/// Lexes and parses a source file. Every span in the tree is a span of
/// the file, and its names and literals are such that the tree can be
/// printed and parsed again.
pub fn parse_source(file: &AsciiFile<'_>, strtab: &mut StringTable) -> (r: Result<AST, FrontError>)
    requires
        old(strtab).wf(),
    ensures
        final(strtab).wf(),
        table_grew(old(strtab), final(strtab)),
        parsed_from(file, final(strtab), r),
        r matches Ok(a) ==> spans_ok(ast_tree(&a), file@),
        r matches Ok(a) ==> shaped(ast_tree(&a)) && all_writable(
            ast_tokens(ast_tree(&a)),
            final(strtab),
        ),
{
    let items = lex_all(file, strtab);
    let size = file.len();
    let r = match Parser::from_lexed(file, &items) {
        Err(e) => Err(FrontError::Lexical(e)),
        Ok(parser) => match parser.parse() {
            Err(e) => Err(FrontError::Syntactic(e)),
            Ok(a) => {
                proof {
                    lemma_items_writable(file@, strtab, items@);
                    lemma_kept_writable(items@, items@.len(), strtab);
                    lemma_ast_known(ast_tree(&a), parser.tokens@);
                    lemma_known_writable(ast_tokens(ast_tree(&a)), parser.tokens@, strtab);
                }
                Ok(a)
            },
        },
    };
    assert(front(items@, r));
    r
}

} // verus!
