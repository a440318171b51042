//! The canonical textual form of tokens: one token on each line, keywords
//! and operators as they are written in the source, identifiers and
//! integer literals with a word before them that says what they are.
//! Whitespace and comments have no textual form.
use crate::lexer::TokenKind;
use crate::strtab::StringTable;
use vstd::prelude::*;

verus! {

/// The text `identifier ` with the space behind it.
pub open spec fn identifier_prefix() -> Seq<u8> {
    seq![105u8, 100u8, 101u8, 110u8, 116u8, 105u8, 102u8, 105u8, 101u8, 114u8, 32u8]
}

/// The text `integer literal ` with the space behind it.
pub open spec fn integer_literal_prefix() -> Seq<u8> {
    seq![
        105u8,
        110u8,
        116u8,
        101u8,
        103u8,
        101u8,
        114u8,
        32u8,
        108u8,
        105u8,
        116u8,
        101u8,
        114u8,
        97u8,
        108u8,
        32u8,
    ]
}

/// The text `EOF`.
pub open spec fn eof_text() -> Seq<u8> {
    seq![69u8, 79u8, 70u8]
}

/// The canonical textual form of a token, if it has one.
pub open spec fn canonical(token: &TokenKind, strtab: &StringTable) -> Option<Seq<u8>> {
    match token {
        TokenKind::Keyword(k) => Some(k.spec_spelling()),
        TokenKind::Operator(op) => Some(op.spec_spelling()),
        TokenKind::Identifier(s) => Some(identifier_prefix() + strtab.bytes(*s)),
        TokenKind::IntegerLiteral(s) => Some(integer_literal_prefix() + strtab.bytes(*s)),
        TokenKind::EOF => Some(eof_text()),
        TokenKind::Comment(_) => None,
        TokenKind::Whitespace => None,
    }
}

/// The token is an identifier or a literal whose handle does not belong
/// to the string table.
pub open spec fn is_foreign(token: &TokenKind, strtab: &StringTable) -> bool {
    match token {
        TokenKind::Identifier(s) => !strtab.owns(*s),
        TokenKind::IntegerLiteral(s) => !strtab.owns(*s),
        _ => false,
    }
}

/// A token cannot be written because its handle does not belong to the
/// string table.
#[derive(Debug, Copy, Clone, PartialEq, Eq, Structural)]
pub struct UnknownSymbol;

/// Puts the characters `text` behind `out`.
pub fn append(out: &mut Vec<u8>, text: &[u8])
    ensures
        final(out)@ == old(out)@ + text@,
{
    let mut i: usize = 0;
    while i < text.len()
        invariant
            i <= text@.len(),
            out@ == old(out)@ + text@.subrange(0, i as int),
        decreases text@.len() - i,
    {
        out.push(text[i]);
        assert(out@ =~= old(out)@ + text@.subrange(0, i + 1));
        i += 1;
    }
    assert(text@.subrange(0, i as int) =~= text@);
}

/// Writes the canonical textual form of a token and a line feed behind
/// `out`. Nothing is written for whitespace and comments, nor for a
/// token that cannot be written.
pub fn write_token(out: &mut Vec<u8>, token: &TokenKind, strtab: &StringTable) -> (r: Result<
    (),
    UnknownSymbol,
>)
    ensures
        r is Err <==> is_foreign(token, strtab),
        final(out)@ == (if is_foreign(token, strtab) {
            old(out)@
        } else {
            match canonical(token, strtab) {
                Some(text) => old(out)@ + text + seq![10u8],
                None => old(out)@,
            }
        }),
{
    match token {
        TokenKind::Whitespace => {},
        TokenKind::Comment(_) => {},
        TokenKind::Keyword(k) => {
            append(out, k.spelling());
            out.push(10);
            assert(out@ =~= old(out)@ + k.spec_spelling() + seq![10u8]);
        },
        TokenKind::Operator(op) => {
            append(out, op.spelling());
            out.push(10);
            assert(out@ =~= old(out)@ + op.spec_spelling() + seq![10u8]);
        },
        TokenKind::Identifier(s) => {
            if s.id >= strtab.len() {
                return Err(UnknownSymbol);
            }
            let prefix: [u8; 11] = [105, 100, 101, 110, 116, 105, 102, 105, 101, 114, 32];
            assert(prefix@ =~= identifier_prefix());
            append(out, prefix.as_slice());
            append(out, strtab.get(*s));
            out.push(10);
            assert(out@ =~= old(out)@ + (identifier_prefix() + strtab.bytes(*s)) + seq![10u8]);
        },
        TokenKind::IntegerLiteral(s) => {
            if s.id >= strtab.len() {
                return Err(UnknownSymbol);
            }
            let prefix: [u8; 16] = [
                105,
                110,
                116,
                101,
                103,
                101,
                114,
                32,
                108,
                105,
                116,
                101,
                114,
                97,
                108,
                32,
            ];
            assert(prefix@ =~= integer_literal_prefix());
            append(out, prefix.as_slice());
            append(out, strtab.get(*s));
            out.push(10);
            assert(out@ =~= old(out)@ + (integer_literal_prefix() + strtab.bytes(*s)) + seq![10u8]);
        },
        TokenKind::EOF => {
            let text: [u8; 3] = [69, 79, 70];
            assert(text@ =~= eof_text());
            append(out, text.as_slice());
            out.push(10);
            assert(out@ =~= old(out)@ + eof_text() + seq![10u8]);
        },
    }
    Ok(())
}

/// Writes the line that marks the end of the tokens behind `out`.
pub fn write_eof_token(out: &mut Vec<u8>)
    ensures
        final(out)@ == old(out)@ + eof_text() + seq![10u8],
{
    let text: [u8; 3] = [69, 79, 70];
    assert(text@ =~= eof_text());
    append(out, text.as_slice());
    out.push(10);
    assert(out@ =~= old(out)@ + eof_text() + seq![10u8]);
}

} // verus!
