//! What the next token is, as a function of the characters: the rules of
//! the longest match.
use super::tokens::{operators, keywords, Keyword, Operator, KEYWORD_COUNT, OPERATOR_COUNT};
use crate::strtab::bytes_eq;
use vstd::prelude::*;
use vstd::slice::slice_subrange;

verus! {

/// A space, a tab, a carriage return or a line feed.
pub open spec fn is_whitespace(b: u8) -> bool {
    b == 32 || b == 9 || b == 13 || b == 10
}

pub open spec fn is_digit(b: u8) -> bool {
    48 <= b <= 57
}

/// A letter or an underscore.
pub open spec fn is_ident_start(b: u8) -> bool {
    (65 <= b <= 90) || (97 <= b <= 122) || b == 95
}

/// A letter, an underscore or a digit.
pub open spec fn is_ident_part(b: u8) -> bool {
    is_ident_start(b) || is_digit(b)
}

/// The classes of characters that tokens are runs of.
#[derive(Debug, Copy, Clone, PartialEq, Eq, Structural)]
pub enum CharClass {
    Whitespace,
    IdentPart,
    Digit,
}

/// Whether the character belongs to the class.
pub open spec fn in_class(c: CharClass, b: u8) -> bool {
    match c {
        CharClass::Whitespace => is_whitespace(b),
        CharClass::IdentPart => is_ident_part(b),
        CharClass::Digit => is_digit(b),
    }
}

/// Whether the character belongs to the class.
pub fn class_has(c: CharClass, b: u8) -> (r: bool)
    ensures
        r == in_class(c, b),
{
    match c {
        CharClass::Whitespace => b == 32 || b == 9 || b == 13 || b == 10,
        CharClass::IdentPart => (65 <= b && b <= 90) || (97 <= b && b <= 122) || b == 95 || (48 <= b
            && b <= 57),
        CharClass::Digit => 48 <= b && b <= 57,
    }
}

/// The length of the longest run of characters of class `c` that starts
/// at `pos`.
pub open spec fn run_len(bytes: Seq<u8>, pos: int, c: CharClass) -> int
    decreases bytes.len() - pos,
{
    if 0 <= pos < bytes.len() && in_class(c, bytes[pos]) {
        1 + run_len(bytes, pos + 1, c)
    } else {
        0
    }
}

pub proof fn lemma_run_len_bounds(bytes: Seq<u8>, pos: int, c: CharClass)
    requires
        0 <= pos <= bytes.len(),
    ensures
        0 <= run_len(bytes, pos, c) <= bytes.len() - pos,
    decreases bytes.len() - pos,
{
    if pos < bytes.len() && in_class(c, bytes[pos]) {
        lemma_run_len_bounds(bytes, pos + 1, c);
    }
}

/// The length of the longest run of characters of class `c` that starts
/// at `pos`.
pub fn scan_run(bytes: &[u8], pos: usize, c: CharClass) -> (n: usize)
    requires
        pos <= bytes@.len(),
    ensures
        n == run_len(bytes@, pos as int, c),
        pos + n <= bytes@.len(),
{
    let mut i: usize = pos;
    while i < bytes.len() && class_has(c, bytes[i])
        invariant
            pos <= i <= bytes@.len(),
            run_len(bytes@, pos as int, c) == (i - pos) + run_len(bytes@, i as int, c),
        decreases bytes@.len() - i,
    {
        i += 1;
    }
    i - pos
}

/// `text` has the characters `prefix` at `pos`.
pub open spec fn has_at(text: Seq<u8>, pos: int, prefix: Seq<u8>) -> bool {
    0 <= pos && pos + prefix.len() <= text.len() && text.subrange(pos, pos + prefix.len()) == prefix
}

/// Whether `text` has the characters `prefix` at `pos`.
pub fn starts_at(text: &[u8], pos: usize, prefix: &[u8]) -> (r: bool)
    requires
        pos <= text@.len(),
    ensures
        r == has_at(text@, pos as int, prefix@),
{
    if text.len() - pos < prefix.len() {
        return false;
    }
    let part = slice_subrange(text, pos, pos + prefix.len());
    bytes_eq(part, prefix)
}

/// The offset behind the comment that starts at `pos`, where `from` is
/// the offset from which its end is looked for: the offset behind the
/// first `*/` at or behind `from`, if there is one.
pub open spec fn comment_end(bytes: Seq<u8>, from: int) -> Option<int>
    decreases bytes.len() - from,
{
    if from < 0 || from + 2 > bytes.len() {
        None
    } else if bytes[from] == 42 && bytes[from + 1] == 47 {
        Some(from + 2)
    } else {
        comment_end(bytes, from + 1)
    }
}

pub proof fn lemma_comment_end_bounds(bytes: Seq<u8>, from: int)
    requires
        0 <= from,
    ensures
        comment_end(bytes, from) matches Some(e) ==> from + 2 <= e <= bytes.len(),
    decreases bytes.len() - from,
{
    if from + 2 <= bytes.len() && !(bytes[from] == 42 && bytes[from + 1] == 47) {
        lemma_comment_end_bounds(bytes, from + 1);
    }
}

/// The offset behind the first `*/` at or behind `from`, if there is one.
pub fn scan_comment_end(bytes: &[u8], from: usize) -> (r: Option<usize>)
    requires
        from <= bytes@.len(),
    ensures
        match r {
            Some(e) => comment_end(bytes@, from as int) == Some(e as int) && from + 2 <= e
                <= bytes@.len(),
            None => comment_end(bytes@, from as int) is None,
        },
{
    let mut i: usize = from;
    proof {
        lemma_comment_end_bounds(bytes@, from as int);
    }
    while bytes.len() - i >= 2
        invariant
            from <= i <= bytes@.len(),
            comment_end(bytes@, from as int) == comment_end(bytes@, i as int),
        decreases bytes@.len() - i,
    {
        if bytes[i] == 42 && bytes[i + 1] == 47 {
            return Some(i + 2);
        }
        i += 1;
    }
    None
}

/// The first of the keywords from number `i` on that is written
/// `lexeme`.
pub open spec fn keyword_from(lexeme: Seq<u8>, i: int) -> Option<Keyword>
    decreases KEYWORD_COUNT - i,
{
    if i < 0 || i >= KEYWORD_COUNT {
        None
    } else if keywords()[i].spec_spelling() == lexeme {
        Some(keywords()[i])
    } else {
        keyword_from(lexeme, i + 1)
    }
}

/// The keyword that is written `lexeme`, if there is one.
pub open spec fn spec_keyword(lexeme: Seq<u8>) -> Option<Keyword> {
    keyword_from(lexeme, 0)
}

/// The keyword that is written `lexeme`, if there is one.
pub fn find_keyword(lexeme: &[u8]) -> (r: Option<Keyword>)
    ensures
        r == spec_keyword(lexeme@),
{
    let mut i: usize = 0;
    while i < KEYWORD_COUNT
        invariant
            i <= KEYWORD_COUNT,
            spec_keyword(lexeme@) == keyword_from(lexeme@, i as int),
        decreases KEYWORD_COUNT - i,
    {
        let k = Keyword::nth(i);
        if bytes_eq(k.spelling(), lexeme) {
            return Some(k);
        }
        i += 1;
    }
    None
}

/// The operator among the first `upto` that has its spelling at `pos` and
/// the longest spelling of those that have.
pub open spec fn best_operator(bytes: Seq<u8>, pos: int, upto: int) -> Option<Operator>
    decreases upto,
{
    if upto <= 0 || upto > OPERATOR_COUNT {
        None
    } else {
        let prev = best_operator(bytes, pos, upto - 1);
        let op = operators()[upto - 1];
        if has_at(bytes, pos, op.spec_spelling()) && (prev is None || prev->0.spec_spelling().len()
            < op.spec_spelling().len()) {
            Some(op)
        } else {
            prev
        }
    }
}

/// The operator with the longest spelling that stands at `pos`, if one
/// does.
pub open spec fn spec_operator(bytes: Seq<u8>, pos: int) -> Option<Operator> {
    best_operator(bytes, pos, OPERATOR_COUNT as int)
}

/// The operator with the longest spelling that stands at `pos`, if one
/// does.
pub fn find_operator(bytes: &[u8], pos: usize) -> (r: Option<Operator>)
    requires
        pos <= bytes@.len(),
    ensures
        r == spec_operator(bytes@, pos as int),
        r matches Some(op) ==> has_at(bytes@, pos as int, op.spec_spelling()),
{
    let mut best: Option<Operator> = None;
    let mut i: usize = 0;
    while i < OPERATOR_COUNT
        invariant
            i <= OPERATOR_COUNT,
            pos <= bytes@.len(),
            best == best_operator(bytes@, pos as int, i as int),
            best matches Some(op) ==> has_at(bytes@, pos as int, op.spec_spelling()),
        decreases OPERATOR_COUNT - i,
    {
        let op = Operator::nth(i);
        let s = op.spelling();
        if starts_at(bytes, pos, s) {
            let better = match best {
                None => true,
                Some(b) => b.spelling().len() < s.len(),
            };
            if better {
                best = Some(op);
            }
        }
        i += 1;
    }
    best
}

/// What stands at a place in the source.
#[derive(Debug, Copy, Clone, PartialEq, Eq, Structural)]
pub enum Lexeme {
    Whitespace,
    Comment,
    Keyword(Keyword),
    Identifier,
    IntegerLiteral,
    Operator(Operator),
    /// A comment that is not closed before the end of the input.
    UnterminatedComment,
    /// A character with which no token starts.
    UnexpectedCharacter(u8),
}

/// What stands at `pos`, and how many characters it takes. The rules, in
/// this order: a run of whitespace; a comment from `/*` to the first
/// `*/`; a run of letters, digits and underscores that starts with no
/// digit, which is a keyword if a keyword is written so and an identifier
/// if not; a `0` alone or a run of digits; the operator with the longest
/// spelling; and else a character that is not expected.
pub open spec fn spec_next(bytes: Seq<u8>, pos: int) -> (Lexeme, int) {
    let b = bytes[pos];
    if is_whitespace(b) {
        (Lexeme::Whitespace, run_len(bytes, pos, CharClass::Whitespace))
    } else if has_at(bytes, pos, seq![47u8, 42u8]) {
        match comment_end(bytes, pos + 2) {
            Some(e) => (Lexeme::Comment, e - pos),
            None => (Lexeme::UnterminatedComment, bytes.len() - pos),
        }
    } else if is_ident_start(b) {
        let n = run_len(bytes, pos, CharClass::IdentPart);
        match spec_keyword(bytes.subrange(pos, pos + n)) {
            Some(k) => (Lexeme::Keyword(k), n),
            None => (Lexeme::Identifier, n),
        }
    } else if b == 48 {
        (Lexeme::IntegerLiteral, 1)
    } else if is_digit(b) {
        (Lexeme::IntegerLiteral, run_len(bytes, pos, CharClass::Digit))
    } else {
        match spec_operator(bytes, pos) {
            Some(op) => (Lexeme::Operator(op), op.spec_spelling().len() as int),
            None => (Lexeme::UnexpectedCharacter(b), 1),
        }
    }
}

/// What stands at `pos`, and how many characters it takes.
pub fn scan(bytes: &[u8], pos: usize) -> (r: (Lexeme, usize))
    requires
        pos < bytes@.len(),
    ensures
        r.0 == spec_next(bytes@, pos as int).0,
        r.1 == spec_next(bytes@, pos as int).1,
        1 <= r.1,
        pos + r.1 <= bytes@.len(),
{
    let b = bytes[pos];
    let open: [u8; 2] = [47, 42];
    assert(open@ =~= seq![47u8, 42u8]);
    proof {
        lemma_run_len_bounds(bytes@, pos + 1, CharClass::Whitespace);
        lemma_run_len_bounds(bytes@, pos + 1, CharClass::IdentPart);
        lemma_run_len_bounds(bytes@, pos + 1, CharClass::Digit);
    }
    if class_has(CharClass::Whitespace, b) {
        (Lexeme::Whitespace, scan_run(bytes, pos, CharClass::Whitespace))
    } else if starts_at(bytes, pos, open.as_slice()) {
        match scan_comment_end(bytes, pos + 2) {
            Some(e) => (Lexeme::Comment, e - pos),
            None => (Lexeme::UnterminatedComment, bytes.len() - pos),
        }
    } else if (65 <= b && b <= 90) || (97 <= b && b <= 122) || b == 95 {
        let n = scan_run(bytes, pos, CharClass::IdentPart);
        match find_keyword(slice_subrange(bytes, pos, pos + n)) {
            Some(k) => (Lexeme::Keyword(k), n),
            None => (Lexeme::Identifier, n),
        }
    } else if b == 48 {
        (Lexeme::IntegerLiteral, 1)
    } else if 48 <= b && b <= 57 {
        (Lexeme::IntegerLiteral, scan_run(bytes, pos, CharClass::Digit))
    } else {
        match find_operator(bytes, pos) {
            Some(op) => (Lexeme::Operator(op), op.spelling().len()),
            None => (Lexeme::UnexpectedCharacter(b), 1),
        }
    }
}

} // verus!
