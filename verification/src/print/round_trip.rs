//! The text of a program in normal form is read again as the tokens that
//! were written, and so as the program that was printed.
use super::pretty::{
    args_tokens, ast_tokens, basic_token, block_tokens, class_tokens, classes_tokens,
    condition_tokens, dims_tokens, expr_tokens, foreign, member_tokens, members_tokens,
    operand_tokens, opt_expr_tokens, param_tokens, params_list, params_tokens, separator,
    spec_text, stmt_tokens, stmts_tokens, token_text, type_tokens, spaces, text_with,
};
use crate::ast::{Parameter, Type, AST};
use crate::lexer::scan::lemma_run_len_bounds;
use crate::lexer::table_grew;
use crate::parser::names::{
    ast_known, basic_known, class_known, classes_known, expr_known, exprs_known, known,
    member_known, members_known, name_known, opt_expr_known, param_known, params_known,
    stmt_known, stmts_known,
};
use crate::parser::tree::{
    ast_tree, BlockTree, ClassTree, ExprTree, MemberKindTree, MemberTree, ParamsTree, StmtTree,
};
use crate::parser::{front, parsed_from, FrontError};
use crate::asciifile::{all_ascii, AsciiFile, Position};
use crate::asciifile::{lemma_position_of_matches, position_of, Spanned};
use crate::lexer::scan::{
    best_operator, has_at, in_class, is_digit, is_ident_part, is_ident_start, is_whitespace,
    keyword_from, run_len, spec_keyword, spec_next, spec_operator, CharClass, Lexeme,
};
use crate::lexer::tables::{
    is_operator_char, keyword_index, lemma_keyword_index, lemma_keyword_letters,
    lemma_keywords_differ, lemma_operator_chars, lemma_operator_index, lemma_operators_differ,
    operator_index,
};
use crate::lexer::tokens::{keywords, operators, KEYWORD_COUNT, OPERATOR_COUNT};
use crate::lexer::{spec_starts, token_ok, tokens_ok, Keyword, LexError, Operator, TokenKind};
use crate::parser::grammar::{spec_parse, Tokens};
use crate::parser::round_trip::spells;
use crate::parser::round_trip_program::{ast_alike, lemma_round_trip};
use crate::parser::tree::{shaped, AstTree};
use crate::parser::{first_error, kept, spec_filter, spec_significant, Lexed, Token};
use crate::strtab::{StringTable, Symbol};
use vstd::prelude::*;

verus! {

/// The characters are a name: a letter or an underscore, then letters,
/// underscores and digits, and together no keyword.
pub open spec fn is_name(b: Seq<u8>) -> bool {
    &&& b.len() > 0
    &&& is_ident_start(b[0])
    &&& forall|i: int| 0 <= i < b.len() ==> is_ident_part(#[trigger] b[i])
    &&& spec_keyword(b) is None
}

/// The characters are a literal: `0`, or digits of which the first is
/// not `0`.
pub open spec fn is_number(b: Seq<u8>) -> bool {
    &&& b.len() > 0
    &&& forall|i: int| 0 <= i < b.len() ==> is_digit(#[trigger] b[i])
    &&& b[0] == 48 ==> b.len() == 1
}

/// The token can be written so that it is read again: a name is a
/// name of the table, and a literal a literal of the table.
pub open spec fn writable(t: Token, tab: &StringTable) -> bool {
    match t {
        Token::Identifier(s) => tab.owns(s) && is_name(tab.bytes(s)),
        Token::IntegerLiteral(s) => tab.owns(s) && is_number(tab.bytes(s)),
        _ => true,
    }
}

pub open spec fn all_writable(ts: Seq<Token>, tab: &StringTable) -> bool {
    forall|k: int| 0 <= k < ts.len() ==> writable(#[trigger] ts[k], tab)
}

/// What the lexer finds where the token was written.
pub open spec fn lexeme_of(t: Token) -> Lexeme {
    match t {
        Token::Keyword(k) => Lexeme::Keyword(k),
        Token::Operator(o) => Lexeme::Operator(o),
        Token::Identifier(_) => Lexeme::Identifier,
        Token::IntegerLiteral(_) => Lexeme::IntegerLiteral,
    }
}

/// A run of `m` characters of a class, with a character of no such
/// class or the end behind it, is the longest run.
pub proof fn lemma_run(bytes: Seq<u8>, pos: int, m: int, c: CharClass)
    requires
        0 <= pos,
        0 <= m,
        pos + m <= bytes.len(),
        forall|i: int| pos <= i < pos + m ==> in_class(c, #[trigger] bytes[i]),
        pos + m == bytes.len() || !in_class(c, bytes[pos + m]),
    ensures
        run_len(bytes, pos, c) == m,
    decreases m,
{
    if m > 0 {
        assert(in_class(c, bytes[pos]));
        lemma_run(bytes, pos + 1, m - 1, c);
    }
}

/// Where a keyword from place `i` of the table on is written as
/// `lexeme`, the search from `i` finds a keyword that is written so.
pub proof fn lemma_keyword_found(lexeme: Seq<u8>, i: int, j: int)
    requires
        0 <= i <= j < KEYWORD_COUNT,
        keywords()[j].spec_spelling() == lexeme,
    ensures
        keyword_from(lexeme, i) matches Some(k) && k.spec_spelling() == lexeme,
    decreases j - i,
{
    if keywords()[i].spec_spelling() != lexeme {
        lemma_keyword_found(lexeme, i + 1, j);
    }
}

/// The spelling of a keyword is read as the keyword.
pub proof fn lemma_keyword_read(k: Keyword)
    ensures
        spec_keyword(k.spec_spelling()) == Some(k),
{
    lemma_keyword_index(k);
    lemma_keyword_found(k.spec_spelling(), 0, keyword_index(k));
    lemma_keywords_differ(spec_keyword(k.spec_spelling())->0, k);
}

/// The operator that is found among the first `n` of the table is
/// written at `pos`, and none of these that is written there is longer.
pub proof fn lemma_best(bytes: Seq<u8>, pos: int, n: int)
    requires
        0 <= n <= OPERATOR_COUNT,
    ensures
        match best_operator(bytes, pos, n) {
            None => forall|i: int|
                0 <= i < n ==> !has_at(bytes, pos, (#[trigger] operators()[i]).spec_spelling()),
            Some(o) => has_at(bytes, pos, o.spec_spelling()) && forall|i: int|
                0 <= i < n && has_at(bytes, pos, (#[trigger] operators()[i]).spec_spelling())
                    ==> operators()[i].spec_spelling().len() <= o.spec_spelling().len(),
        },
    decreases n,
{
    if n > 0 {
        lemma_best(bytes, pos, n - 1);
    }
}

/// An operator that is written at `pos`, with white space behind it, is
/// read as that operator.
pub proof fn lemma_operator_read(bytes: Seq<u8>, pos: int, o: Operator)
    requires
        has_at(bytes, pos, o.spec_spelling()),
        pos + o.spec_spelling().len() < bytes.len(),
        is_whitespace(bytes[pos + o.spec_spelling().len()]),
    ensures
        spec_operator(bytes, pos) == Some(o),
{
    let m = o.spec_spelling().len() as int;
    lemma_best(bytes, pos, OPERATOR_COUNT as int);
    lemma_operator_index(o);
    assert(has_at(bytes, pos, operators()[operator_index(o)].spec_spelling()));
    let found = spec_operator(bytes, pos)->0;
    let s = found.spec_spelling();
    lemma_operator_chars(found);
    if s.len() > m {
        assert(bytes.subrange(pos, pos + s.len())[m] == bytes[pos + m]);
        assert(is_operator_char(s[m]));
    }
    assert(s =~= o.spec_spelling()) by {
        assert(bytes.subrange(pos, pos + m) == o.spec_spelling());
    }
    lemma_operators_differ(found, o);
}

/// The characters of a token that can be written: there is one, and the
/// first is no white space.
pub proof fn lemma_token_text(t: Token, tab: &StringTable)
    requires
        writable(t, tab),
    ensures
        token_text(t, tab).len() > 0,
        !is_whitespace(token_text(t, tab)[0]),
        is_whitespace(separator(t)),
{
    match t {
        Token::Keyword(k) => {
            lemma_keyword_letters(k);
        },
        Token::Operator(o) => {
            lemma_operator_chars(o);
        },
        Token::Identifier(s) => {},
        Token::IntegerLiteral(s) => {
            assert(is_digit(tab.bytes(s)[0]));
        },
    }
}

/// A token that was written at `pos`, with white space behind it, is
/// read as it is.
pub proof fn lemma_next_token(text: Seq<u8>, pos: int, t: Token, tab: &StringTable)
    requires
        writable(t, tab),
        has_at(text, pos, token_text(t, tab)),
        pos + token_text(t, tab).len() < text.len(),
        is_whitespace(text[pos + token_text(t, tab).len()]),
    ensures
        spec_next(text, pos) == (lexeme_of(t), token_text(t, tab).len() as int),
{
    let w = token_text(t, tab);
    let m = w.len() as int;
    lemma_token_text(t, tab);
    assert forall|i: int| pos <= i < pos + m implies text[i] == w[i - pos] by {
        assert(text.subrange(pos, pos + m)[i - pos] == text[i]);
    }
    assert(text[pos] == w[0]);
    match t {
        Token::Keyword(k) => {
            lemma_keyword_letters(k);
            assert forall|i: int| pos <= i < pos + m implies in_class(
                CharClass::IdentPart,
                #[trigger] text[i],
            ) by {
                assert(97 <= w[i - pos] <= 122);
            }
            lemma_run(text, pos, m, CharClass::IdentPart);
            lemma_keyword_read(k);
            assert(!has_at(text, pos, seq![47u8, 42u8])) by {
                if has_at(text, pos, seq![47u8, 42u8]) {
                    assert(text.subrange(pos, pos + 2)[0] == text[pos]);
                }
            }
        },
        Token::Identifier(s) => {
            assert forall|i: int| pos <= i < pos + m implies in_class(
                CharClass::IdentPart,
                #[trigger] text[i],
            ) by {
                assert(is_ident_part(w[i - pos]));
            }
            lemma_run(text, pos, m, CharClass::IdentPart);
            assert(!has_at(text, pos, seq![47u8, 42u8])) by {
                if has_at(text, pos, seq![47u8, 42u8]) {
                    assert(text.subrange(pos, pos + 2)[0] == text[pos]);
                }
            }
        },
        Token::IntegerLiteral(s) => {
            assert(is_digit(w[0]));
            assert forall|i: int| pos <= i < pos + m implies in_class(
                CharClass::Digit,
                #[trigger] text[i],
            ) by {
                assert(is_digit(w[i - pos]));
            }
            lemma_run(text, pos, m, CharClass::Digit);
            assert(!has_at(text, pos, seq![47u8, 42u8])) by {
                if has_at(text, pos, seq![47u8, 42u8]) {
                    assert(text.subrange(pos, pos + 2)[0] == text[pos]);
                }
            }
        },
        Token::Operator(o) => {
            lemma_operator_chars(o);
            assert(is_operator_char(w[0]));
            lemma_operator_read(text, pos, o);
            assert(!has_at(text, pos, seq![47u8, 42u8])) by {
                if has_at(text, pos, seq![47u8, 42u8]) {
                    assert(text.subrange(pos, pos + 2)[0] == text[pos]);
                    assert(text.subrange(pos, pos + 2)[1] == text[pos + 1]);
                    if m >= 2 {
                        assert(text[pos + 1] == w[1]);
                    }
                }
            }
        },
    }
}

/// One character of white space, with none behind it, is read as
/// white space.
pub proof fn lemma_next_space(text: Seq<u8>, pos: int)
    requires
        0 <= pos < text.len(),
        is_whitespace(text[pos]),
        pos + 1 == text.len() || !is_whitespace(text[pos + 1]),
    ensures
        spec_next(text, pos) == (Lexeme::Whitespace, 1int),
{
    lemma_run(text, pos, 1, CharClass::Whitespace);
}

/// `seps` holds one character of white space for each of the tokens.
pub open spec fn seps_ok(ts: Seq<Token>, seps: Seq<u8>) -> bool {
    seps.len() == ts.len() && forall|k: int| 0 <= k < seps.len() ==> is_whitespace(#[trigger] seps[k])
}

/// The characters that the printer writes behind the tokens.
pub open spec fn printed_seps(ts: Seq<Token>) -> Seq<u8> {
    Seq::new(ts.len(), |k: int| separator(ts[k]))
}

/// The text that the printer writes is the text of the tokens with the
/// printer's characters behind them.
pub proof fn lemma_text_printed(ts: Seq<Token>, n: nat, tab: &StringTable)
    ensures
        spec_text(ts, n, tab) == text_with(ts, n, tab, printed_seps(ts)),
    decreases n,
{
    if n > 0 && n <= ts.len() {
        lemma_text_printed(ts, (n - 1) as nat, tab);
    }
}

/// The offset at which token `k` of the text of `ts` starts.
pub open spec fn start(ts: Seq<Token>, k: nat, tab: &StringTable, seps: Seq<u8>) -> int {
    text_with(ts, k, tab, seps).len() as int
}

/// The text of the first tokens stands at the start of the text of
/// more of them.
pub proof fn lemma_text_prefix(ts: Seq<Token>, k: nat, n: nat, tab: &StringTable, seps: Seq<u8>)
    requires
        k <= n <= ts.len(),
    ensures
        start(ts, k, tab, seps) <= start(ts, n, tab, seps),
        text_with(ts, n, tab, seps).subrange(0, start(ts, k, tab, seps)) == text_with(ts, k, tab, seps),
    decreases n - k,
{
    if k < n {
        lemma_text_prefix(ts, k, (n - 1) as nat, tab, seps);
        let shorter = text_with(ts, (n - 1) as nat, tab, seps);
        let whole = text_with(ts, n, tab, seps);
        assert(whole == shorter + token_text(ts[n - 1], tab).push(seps[n - 1]));
        assert(whole.subrange(0, start(ts, k, tab, seps)) =~= shorter.subrange(0, start(ts, k, tab, seps)));
    } else {
        assert(text_with(ts, n, tab, seps).subrange(0, start(ts, n, tab, seps)) =~= text_with(ts, n, tab, seps));
    }
}

/// Token `k` stands at its place in the text, with its separator
/// behind it, and behind that the next token or the end.
pub proof fn lemma_token_place(ts: Seq<Token>, k: nat, tab: &StringTable, seps: Seq<u8>)
    requires
        k < ts.len(),
        all_writable(ts, tab),
        seps_ok(ts, seps),
    ensures
        ({
            let text = text_with(ts, ts.len(), tab, seps);
            let p = start(ts, k, tab, seps);
            let w = token_text(ts[k as int], tab);
            &&& has_at(text, p, w)
            &&& p + w.len() < text.len()
            &&& text[p + w.len()] == seps[k as int]
            &&& start(ts, k + 1, tab, seps) == p + w.len() + 1
            &&& start(ts, k + 1, tab, seps) <= text.len()
            &&& k + 1 == ts.len() ==> start(ts, k + 1, tab, seps) == text.len()
            &&& k + 1 < ts.len() ==> start(ts, k + 1, tab, seps) < text.len() && !is_whitespace(
                text[start(ts, k + 1, tab, seps)],
            )
        }),
{
    let n = ts.len();
    let text = text_with(ts, n, tab, seps);
    let p = start(ts, k, tab, seps);
    let w = token_text(ts[k as int], tab);
    let upto = text_with(ts, k + 1, tab, seps);
    lemma_text_prefix(ts, k + 1, n, tab, seps);
    assert(upto == text_with(ts, k, tab, seps) + w.push(seps[k as int]));
    assert(upto.subrange(p, p + w.len()) =~= w);
    assert(text.subrange(0, upto.len() as int).subrange(p, p + w.len()) =~= text.subrange(
        p,
        p + w.len(),
    ));
    assert(text.subrange(0, upto.len() as int)[p + w.len()] == text[p + w.len()]);
    assert(upto[p + w.len()] == seps[k as int]);
    if k + 1 < n {
        lemma_text_prefix(ts, k + 2, n, tab, seps);
        let next = token_text(ts[(k + 1) as int], tab);
        let more = text_with(ts, k + 2, tab, seps);
        assert(writable(ts[(k + 1) as int], tab));
        lemma_token_text(ts[(k + 1) as int], tab);
        assert(more == upto + next.push(seps[(k + 1) as int]));
        assert(text.subrange(0, more.len() as int)[upto.len() as int] == text[upto.len() as int]);
        assert(more[upto.len() as int] == next[0]);
    }
}

/// The offsets at which the lexer finds something in the text from
/// token `k` on: where a token starts, and where its separator stands.
pub open spec fn expected_starts(ts: Seq<Token>, k: nat, tab: &StringTable, seps: Seq<u8>) -> Seq<int>
    decreases ts.len() - k,
{
    if k >= ts.len() {
        Seq::empty()
    } else {
        seq![start(ts, k, tab, seps), start(ts, k, tab, seps) + token_text(ts[k as int], tab).len()]
            + expected_starts(ts, k + 1, tab, seps)
    }
}

/// The lexer finds a token where each token starts and white space where
/// each separator stands, and nothing else.
pub proof fn lemma_starts(ts: Seq<Token>, k: nat, tab: &StringTable, seps: Seq<u8>)
    requires
        k <= ts.len(),
        all_writable(ts, tab),
        seps_ok(ts, seps),
    ensures
        spec_starts(text_with(ts, ts.len(), tab, seps), start(ts, k, tab, seps)) == expected_starts(
            ts,
            k, tab, seps),
        k < ts.len() ==> spec_next(text_with(ts, ts.len(), tab, seps), start(ts, k, tab, seps)) == (
            lexeme_of(ts[k as int]),
            token_text(ts[k as int], tab).len() as int,
        ),
        k < ts.len() ==> spec_next(
            text_with(ts, ts.len(), tab, seps),
            start(ts, k, tab, seps) + token_text(ts[k as int], tab).len(),
        ) == (Lexeme::Whitespace, 1int),
    decreases ts.len() - k,
{
    let text = text_with(ts, ts.len(), tab, seps);
    let p = start(ts, k, tab, seps);
    if k < ts.len() {
        let t = ts[k as int];
        let m = token_text(t, tab).len() as int;
        assert(writable(t, tab));
        lemma_token_place(ts, k, tab, seps);
        lemma_token_text(t, tab);
        lemma_next_token(text, p, t, tab);
        lemma_next_space(text, p + m);
        lemma_starts(ts, k + 1, tab, seps);
        assert(spec_starts(text, p + m) =~= seq![p + m] + spec_starts(text, p + m + 1));
        assert(spec_starts(text, p) =~= seq![p] + spec_starts(text, p + m));
        assert(spec_starts(text, p) =~= expected_starts(ts, k, tab, seps));
    } else {
        assert(text_with(ts, k, tab, seps) == text);
    }
}

/// Where token `j` and its separator stand among the offsets.
pub proof fn lemma_expected(ts: Seq<Token>, k: nat, j: nat, tab: &StringTable, seps: Seq<u8>)
    requires
        k <= j < ts.len(),
    ensures
        expected_starts(ts, k, tab, seps).len() == 2 * (ts.len() - k),
        expected_starts(ts, k, tab, seps)[2 * (j - k)] == start(ts, j, tab, seps),
        expected_starts(ts, k, tab, seps)[2 * (j - k) + 1] == start(ts, j, tab, seps) + token_text(
            ts[j as int],
            tab,
        ).len(),
    decreases ts.len() - k,
{
    lemma_expected_len(ts, k + 1, tab, seps);
    if k < j {
        lemma_expected(ts, k + 1, j, tab, seps);
        assert(expected_starts(ts, k, tab, seps)[2 * (j - k)] == expected_starts(ts, k + 1, tab, seps)[2 * (j
            - k - 1)]);
        assert(expected_starts(ts, k, tab, seps)[2 * (j - k) + 1] == expected_starts(ts, k + 1, tab, seps)[2
            * (j - k - 1) + 1]);
    }
}

pub proof fn lemma_expected_len(ts: Seq<Token>, k: nat, tab: &StringTable, seps: Seq<u8>)
    requires
        k <= ts.len(),
    ensures
        expected_starts(ts, k, tab, seps).len() == 2 * (ts.len() - k),
    decreases ts.len() - k,
{
    if k < ts.len() {
        lemma_expected_len(ts, k + 1, tab, seps);
    }
}

/// What the lexer gives for the text of `ts`: for each token the token,
/// and white space behind it.
pub open spec fn lexed_as(items: Seq<Lexed>, ts: Seq<Token>) -> bool {
    &&& items.len() == 2 * ts.len()
    &&& forall|j: int|
        0 <= j < ts.len() ==> (#[trigger] items[2 * j] matches Ok(t) && spec_significant(t.data)
            == Some(ts[j]))
    &&& forall|j: int|
        0 <= j < ts.len() ==> (#[trigger] items[2 * j + 1] matches Ok(t) && spec_significant(
            t.data,
        ) is None)
}

/// The text of tokens is lexed as the tokens, with white space behind
/// each.
pub proof fn lemma_lexed(ts: Seq<Token>, tab: &StringTable, seps: Seq<u8>, items: Seq<Lexed>)
    requires
        tab.wf(),
        all_writable(ts, tab),
        seps_ok(ts, seps),
        text_with(ts, ts.len(), tab, seps).len() <= usize::MAX,
        tokens_ok(text_with(ts, ts.len(), tab, seps), tab, 0, items),
    ensures
        lexed_as(items, ts),
{
    let text = text_with(ts, ts.len(), tab, seps);
    assert(text_with(ts, 0, tab, seps) =~= Seq::<u8>::empty());
    lemma_starts(ts, 0, tab, seps);
    lemma_expected_len(ts, 0, tab, seps);
    let starts = spec_starts(text, 0);
    assert forall|j: int| 0 <= j < ts.len() implies (#[trigger] items[2 * j] matches Ok(t)
        && spec_significant(t.data) == Some(ts[j])) by {
        let t = ts[j];
        lemma_expected(ts, 0, j as nat, tab, seps);
        lemma_starts(ts, j as nat, tab, seps);
        lemma_token_place(ts, j as nat, tab, seps);
        let off = start(ts, j as nat, tab, seps);
        assert(starts[2 * j] == off);
        lemma_position_of_matches(text, off);
        assert(token_ok(text, tab, position_of(text, starts[2 * j]), items[2 * j]));
        assert(writable(t, tab));
        match t {
            Token::Identifier(s) => {
                let found = items[2 * j]->Ok_0.data->Identifier_0;
                assert(tab.bytes(found) == tab.bytes(s));
                assert(found.id == s.id);
            },
            Token::IntegerLiteral(s) => {
                let found = items[2 * j]->Ok_0.data->IntegerLiteral_0;
                assert(tab.bytes(found) == tab.bytes(s));
                assert(found.id == s.id);
            },
            _ => {},
        }
    }
    assert forall|j: int| 0 <= j < ts.len() implies (#[trigger] items[2 * j + 1] matches Ok(t)
        && spec_significant(t.data) is None) by {
        lemma_expected(ts, 0, j as nat, tab, seps);
        lemma_starts(ts, j as nat, tab, seps);
        lemma_token_place(ts, j as nat, tab, seps);
        let off = start(ts, j as nat, tab, seps) + token_text(ts[j], tab).len();
        assert(starts[2 * j + 1] == off);
        lemma_position_of_matches(text, off);
        assert(token_ok(text, tab, position_of(text, starts[2 * j + 1]), items[2 * j + 1]));
    }
}

/// Of what the lexer gave for the text of `ts`, the first `2 * k` items
/// hold no error, and the first `k` tokens.
pub proof fn lemma_kept(items: Seq<Lexed>, ts: Seq<Token>, k: nat)
    requires
        lexed_as(items, ts),
        k <= ts.len(),
    ensures
        first_error(items, 2 * k) is None,
        kept(items, 2 * k).len() == k,
        forall|j: int| 0 <= j < k ==> (#[trigger] kept(items, 2 * k)[j]).data == ts[j],
    decreases k,
{
    if k > 0 {
        let j = (k - 1) as int;
        lemma_kept(items, ts, (k - 1) as nat);
        let before = kept(items, (2 * (k - 1)) as nat);
        assert(items[2 * j] is Ok);
        assert(items[2 * j + 1] is Ok);
        assert(kept(items, (2 * j + 1) as nat) == before.push(
            Spanned { span: items[2 * j]->Ok_0.span, data: ts[j] },
        ));
        assert(kept(items, 2 * k) == kept(items, (2 * j + 1) as nat));
        assert(first_error(items, (2 * j + 1) as nat) is None);
    }
}

/// Where tokens that can be written are spelled out one behind the
/// other, each with one character of white space behind it, whichever,
/// the lexer and the filter of the parser give the same tokens again.
pub proof fn lemma_read_separated(
    ts: Seq<Token>,
    tab: &StringTable,
    seps: Seq<u8>,
    items: Seq<Lexed>,
)
    requires
        tab.wf(),
        all_writable(ts, tab),
        seps_ok(ts, seps),
        text_with(ts, ts.len(), tab, seps).len() <= usize::MAX,
        tokens_ok(text_with(ts, ts.len(), tab, seps), tab, 0, items),
    ensures
        spec_filter(items) matches Ok(t) && t.len() == ts.len() && spells(t, 0, ts),
{
    lemma_lexed(ts, tab, seps, items);
    lemma_kept(items, ts, ts.len());
}

/// The law of writing and reading: where tokens that can be written are
/// written, each with its separator, the lexer and the filter of the
/// parser give the same tokens again.
pub proof fn lemma_read_again(ts: Seq<Token>, tab: &StringTable, items: Seq<Lexed>)
    requires
        tab.wf(),
        all_writable(ts, tab),
        spec_text(ts, ts.len(), tab).len() <= usize::MAX,
        tokens_ok(spec_text(ts, ts.len(), tab), tab, 0, items),
    ensures
        spec_filter(items) matches Ok(t) && t.len() == ts.len() && spells(t, 0, ts),
{
    lemma_text_printed(ts, ts.len(), tab);
    lemma_read_separated(ts, tab, printed_seps(ts), items);
}

/// The law of spelling out and reading: where tokens that can be
/// written are spelled out one behind the other, each with one space
/// behind it, the lexer and the filter of the parser give the same
/// tokens again.
pub proof fn lemma_read_spaced(ts: Seq<Token>, tab: &StringTable, items: Seq<Lexed>)
    requires
        tab.wf(),
        all_writable(ts, tab),
        text_with(ts, ts.len(), tab, spaces(ts.len())).len() <= usize::MAX,
        tokens_ok(text_with(ts, ts.len(), tab, spaces(ts.len())), tab, 0, items),
    ensures
        spec_filter(items) matches Ok(t) && t.len() == ts.len() && spells(t, 0, ts),
{
    lemma_read_separated(ts, tab, spaces(ts.len()), items);
}

/// The law of printing and parsing: where a tree as the parser gives
/// it, with names and literals that can be written, is printed in
/// normal form, lexing and parsing the text gives the tree again but for
/// the spans.
pub proof fn lemma_print_parse(a: AstTree, tab: &StringTable, items: Seq<Lexed>)
    requires
        shaped(a),
        tab.wf(),
        all_writable(ast_tokens(a), tab),
        spec_text(ast_tokens(a), ast_tokens(a).len(), tab).len() <= usize::MAX,
        tokens_ok(spec_text(ast_tokens(a), ast_tokens(a).len(), tab), tab, 0, items),
    ensures
        spec_filter(items) matches Ok(t) && (spec_parse(t) matches Ok(b) && ast_alike(a, b)),
{
    lemma_read_again(ast_tokens(a), tab, items);
    lemma_round_trip(a, spec_filter(items)->Ok_0);
}

/// The token is a keyword or an operator, or it stands among the tokens
/// `t`.
pub open spec fn token_known(tok: Token, t: Tokens) -> bool {
    tok is Keyword || tok is Operator || known(tok, t)
}

pub open spec fn all_known(ts: Seq<Token>, t: Tokens) -> bool {
    forall|k: int| 0 <= k < ts.len() ==> token_known(#[trigger] ts[k], t)
}

pub proof fn lemma_known_add(a: Seq<Token>, b: Seq<Token>, t: Tokens)
    requires
        all_known(a, t),
        all_known(b, t),
    ensures
        all_known(a + b, t),
{
    assert forall|k: int| 0 <= k < (a + b).len() implies token_known(#[trigger] (a + b)[k], t) by {
        if k < a.len() {
            assert((a + b)[k] == a[k]);
        } else {
            assert((a + b)[k] == b[k - a.len()]);
        }
    }
}

pub proof fn lemma_dims_known(n: nat, t: Tokens)
    ensures
        all_known(dims_tokens(n), t),
    decreases n,
{
    if n > 0 {
        lemma_dims_known((n - 1) as nat, t);
    }
}

pub proof fn lemma_type_known(ty: Type, t: Tokens)
    requires
        basic_known(ty.basic, t),
    ensures
        all_known(type_tokens(ty), t),
{
    lemma_dims_known(ty.array_depth as nat, t);
    lemma_known_add(seq![basic_token(ty.basic)], dims_tokens(ty.array_depth as nat), t);
}

/// The tokens of an expression whose names and literals stand among the
/// tokens `t` are keywords, operators and tokens of `t`.
pub proof fn lemma_expr_known(e: Spanned<ExprTree>, t: Tokens)
    requires
        expr_known(e, t),
    ensures
        all_known(expr_tokens(e), t),
    decreases e, 0nat,
{
    match e.data {
        ExprTree::Binary(o, l, r) => {
            lemma_operand_known(*l, false, t);
            lemma_operand_known(*r, false, t);
        },
        ExprTree::Unary(o, x) => {
            lemma_operand_known(*x, o == crate::ast::UnaryOp::Neg, t);
        },
        ExprTree::MethodInvocation(x, n, args) => {
            lemma_operand_known(*x, false, t);
            lemma_args_known(args.data, args.data.len(), t);
        },
        ExprTree::FieldAccess(x, n) => {
            lemma_operand_known(*x, false, t);
        },
        ExprTree::ArrayAccess(x, i) => {
            lemma_operand_known(*x, false, t);
            lemma_expr_known(*i, t);
        },
        ExprTree::ThisMethodInvocation(n, args) => {
            lemma_args_known(args.data, args.data.len(), t);
        },
        ExprTree::NewArray(b, size, n) => {
            lemma_expr_known(*size, t);
            lemma_dims_known(n as nat, t);
        },
        _ => {},
    }
}

pub proof fn lemma_operand_known(e: Spanned<ExprTree>, negated: bool, t: Tokens)
    requires
        expr_known(e, t),
    ensures
        all_known(operand_tokens(e, negated), t),
    decreases e, 1nat,
{
    lemma_expr_known(e, t);
}

pub proof fn lemma_args_known(es: Seq<Spanned<ExprTree>>, n: nat, t: Tokens)
    requires
        n <= es.len(),
        forall|k: int| 0 <= k < es.len() ==> expr_known(es[k], t),
    ensures
        all_known(args_tokens(es, n), t),
    decreases es, n,
{
    if n > 0 {
        lemma_args_known(es, (n - 1) as nat, t);
        lemma_expr_known(es[n - 1], t);
    }
}

pub proof fn lemma_opt_known(before: Seq<Token>, e: Option<Spanned<ExprTree>>, t: Tokens)
    requires
        all_known(before, t),
        opt_expr_known(e, t),
    ensures
        all_known(opt_expr_tokens(before, e), t),
{
    if let Some(x) = e {
        lemma_expr_known(x, t);
        lemma_known_add(before, expr_tokens(x), t);
    }
}

/// The tokens of a statement whose names and literals stand among the
/// tokens `t` are keywords, operators and tokens of `t`.
pub proof fn lemma_stmt_known(s: Spanned<StmtTree>, t: Tokens)
    requires
        stmt_known(s, t),
    ensures
        all_known(stmt_tokens(s), t),
    decreases s, 0nat,
{
    match s.data {
        StmtTree::Block(b) => {
            lemma_stmts_known(b.data, b.data.len(), t);
        },
        StmtTree::Empty => {},
        StmtTree::If(c, a, b) => {
            lemma_expr_known(c, t);
            lemma_stmt_known(*a, t);
            if let Some(x) = b {
                lemma_stmt_known(*x, t);
            }
        },
        StmtTree::While(c, a) => {
            lemma_expr_known(c, t);
            lemma_stmt_known(*a, t);
        },
        StmtTree::Expression(e) => {
            lemma_expr_known(e, t);
        },
        StmtTree::Return(e) => {
            lemma_opt_known(Seq::empty(), e, t);
        },
        StmtTree::LocalVariableDeclaration(ty, n, e) => {
            lemma_type_known(ty.data, t);
            lemma_opt_known(seq![Token::Operator(Operator::Equal)], e, t);
        },
    }
}

pub proof fn lemma_stmts_known(ss: Seq<Spanned<StmtTree>>, n: nat, t: Tokens)
    requires
        n <= ss.len(),
        forall|k: int| 0 <= k < ss.len() ==> stmt_known(ss[k], t),
    ensures
        all_known(stmts_tokens(ss, n), t),
    decreases ss, n,
{
    if n > 0 {
        lemma_stmts_known(ss, (n - 1) as nat, t);
        lemma_stmt_known(ss[n - 1], t);
    }
}

pub proof fn lemma_block_known(b: BlockTree, t: Tokens)
    requires
        stmts_known(b.data, t),
    ensures
        all_known(block_tokens(b), t),
{
    lemma_stmts_known(b.data, b.data.len(), t);
}

pub proof fn lemma_params_known(ps: Seq<Spanned<Parameter>>, n: nat, t: Tokens)
    requires
        n <= ps.len(),
        params_known(ps, t),
    ensures
        all_known(params_list(ps, n), t),
    decreases n,
{
    if n > 0 {
        lemma_params_known(ps, (n - 1) as nat, t);
        assert(param_known(ps[n - 1], t));
        lemma_type_known(ps[n - 1].data.ty.data, t);
        lemma_known_add(
            type_tokens(ps[n - 1].data.ty.data),
            seq![Token::Identifier(ps[n - 1].data.name)],
            t,
        );
    }
}

pub proof fn lemma_method_known(ps: ParamsTree, body: BlockTree, t: Tokens)
    requires
        params_known(ps.data, t),
        stmts_known(body.data, t),
    ensures
        all_known(params_tokens(ps) + block_tokens(body), t),
{
    lemma_params_known(ps.data, ps.data.len(), t);
    lemma_block_known(body, t);
    lemma_known_add(params_tokens(ps), block_tokens(body), t);
}

pub proof fn lemma_member_known(m: Spanned<MemberTree>, t: Tokens)
    requires
        member_known(m, t),
    ensures
        all_known(member_tokens(m), t),
{
    let public = seq![Token::Keyword(Keyword::Public)];
    match m.data.kind {
        MemberKindTree::Field(ty) => {
            lemma_type_known(ty.data, t);
            let rest = type_tokens(ty.data) + seq![Token::Identifier(m.data.name)] + seq![
                Token::Operator(Operator::Semicolon),
            ];
            lemma_known_add(public, rest, t);
        },
        MemberKindTree::Method(ty, ps, body) => {
            lemma_type_known(ty.data, t);
            lemma_method_known(ps, body, t);
            let head = type_tokens(ty.data) + seq![Token::Identifier(m.data.name)];
            lemma_known_add(head, params_tokens(ps) + block_tokens(body), t);
            assert(head + (params_tokens(ps) + block_tokens(body)) =~= head + params_tokens(ps)
                + block_tokens(body));
            lemma_known_add(public, head + params_tokens(ps) + block_tokens(body), t);
        },
        MemberKindTree::MainMethod(ps, body) => {
            lemma_method_known(ps, body, t);
            let head = seq![Token::Keyword(Keyword::Static)] + seq![Token::Keyword(Keyword::Void)]
                + seq![Token::Identifier(m.data.name)];
            lemma_known_add(head, params_tokens(ps) + block_tokens(body), t);
            assert(head + (params_tokens(ps) + block_tokens(body)) =~= head + params_tokens(ps)
                + block_tokens(body));
            lemma_known_add(public, head + params_tokens(ps) + block_tokens(body), t);
        },
    }
}

pub proof fn lemma_members_known(ms: Seq<Spanned<MemberTree>>, n: nat, t: Tokens)
    requires
        n <= ms.len(),
        members_known(ms, t),
    ensures
        all_known(members_tokens(ms, n), t),
    decreases n,
{
    if n > 0 {
        lemma_members_known(ms, (n - 1) as nat, t);
        lemma_member_known(ms[n - 1], t);
        lemma_known_add(members_tokens(ms, (n - 1) as nat), member_tokens(ms[n - 1]), t);
    }
}

pub proof fn lemma_class_known(c: Spanned<ClassTree>, t: Tokens)
    requires
        class_known(c, t),
    ensures
        all_known(class_tokens(c), t),
{
    lemma_members_known(c.data.members, c.data.members.len(), t);
}

pub proof fn lemma_classes_known(cs: Seq<Spanned<ClassTree>>, n: nat, t: Tokens)
    requires
        n <= cs.len(),
        classes_known(cs, t),
    ensures
        all_known(classes_tokens(cs, n), t),
    decreases n,
{
    if n > 0 {
        lemma_classes_known(cs, (n - 1) as nat, t);
        lemma_class_known(cs[n - 1], t);
        lemma_known_add(classes_tokens(cs, (n - 1) as nat), class_tokens(cs[n - 1]), t);
    }
}

/// The tokens of a tree whose names and literals stand among the tokens
/// `t` are keywords, operators and tokens of `t`.
pub proof fn lemma_ast_known(a: AstTree, t: Tokens)
    requires
        ast_known(a, t),
    ensures
        all_known(ast_tokens(a), t),
{
    if let AstTree::Program(p) = a {
        lemma_classes_known(p.data, p.data.len(), t);
    }
}

/// The characters of a run belong to its class.
pub proof fn lemma_run_all(bytes: Seq<u8>, pos: int, c: CharClass)
    requires
        0 <= pos <= bytes.len(),
    ensures
        forall|i: int|
            pos <= i < pos + run_len(bytes, pos, c) ==> in_class(c, #[trigger] bytes[i]),
    decreases bytes.len() - pos,
{
    if pos < bytes.len() && in_class(c, bytes[pos]) {
        lemma_run_all(bytes, pos + 1, c);
    }
}

/// A name or a literal that the lexer gave can be written.
pub proof fn lemma_lexed_writable(bytes: Seq<u8>, tab: &StringTable, p: Position, r: Lexed)
    requires
        token_ok(bytes, tab, p, r),
        p.byte_offset < bytes.len(),
    ensures
        r matches Ok(x) ==> (spec_significant(x.data) matches Some(tok) ==> writable(tok, tab)),
{
    let off = p.byte_offset as int;
    let n = spec_next(bytes, off).1;
    lemma_run_len_bounds(bytes, off, CharClass::IdentPart);
    lemma_run_len_bounds(bytes, off, CharClass::Digit);
    lemma_run_all(bytes, off, CharClass::IdentPart);
    lemma_run_all(bytes, off, CharClass::Digit);
    if let Ok(x) = r {
        if let Some(tok) = spec_significant(x.data) {
            let lexeme = bytes.subrange(off, off + n);
            match tok {
                Token::Identifier(s) => {
                    assert(spec_next(bytes, off).0 == Lexeme::Identifier);
                    assert(is_ident_start(bytes[off]));
                    lemma_run_len_bounds(bytes, off + 1, CharClass::IdentPart);
                    assert(run_len(bytes, off, CharClass::IdentPart) == 1 + run_len(
                        bytes,
                        off + 1,
                        CharClass::IdentPart,
                    ));
                    assert(n == run_len(bytes, off, CharClass::IdentPart));
                    assert(tab.bytes(s) == lexeme);
                    assert(lexeme[0] == bytes[off]);
                    assert forall|i: int| 0 <= i < lexeme.len() implies is_ident_part(
                        #[trigger] lexeme[i],
                    ) by {
                        assert(in_class(CharClass::IdentPart, bytes[off + i]));
                    }
                },
                Token::IntegerLiteral(s) => {
                    assert(spec_next(bytes, off).0 == Lexeme::IntegerLiteral);
                    assert(is_digit(bytes[off]));
                    lemma_run_len_bounds(bytes, off + 1, CharClass::Digit);
                    assert(run_len(bytes, off, CharClass::Digit) == 1 + run_len(
                        bytes,
                        off + 1,
                        CharClass::Digit,
                    ));
                    assert(tab.bytes(s) == lexeme);
                    assert(lexeme[0] == bytes[off]);
                    if bytes[off] != 48 {
                        assert(n == run_len(bytes, off, CharClass::Digit));
                        assert forall|i: int| 0 <= i < lexeme.len() implies is_digit(
                            #[trigger] lexeme[i],
                        ) by {
                            assert(in_class(CharClass::Digit, bytes[off + i]));
                        }
                    }
                },
                _ => {},
            }
        }
    }
}

/// The offsets at which tokens start lie in the text.
pub proof fn lemma_starts_in_text(bytes: Seq<u8>, pos: int, i: int)
    requires
        0 <= i < spec_starts(bytes, pos).len(),
    ensures
        0 <= spec_starts(bytes, pos)[i] < bytes.len(),
    decreases bytes.len() - pos,
{
    if 0 <= pos < bytes.len() {
        let n = spec_next(bytes, pos).1;
        if !(n <= 0 || pos + n > bytes.len()) && i > 0 {
            lemma_starts_in_text(bytes, pos + n, i - 1);
        }
    }
}

/// Every name and literal among the items can be written.
pub open spec fn items_writable(items: Seq<Lexed>, tab: &StringTable) -> bool {
    forall|i: int|
        0 <= i < items.len() ==> (#[trigger] items[i] matches Ok(x) ==> (spec_significant(x.data)
            matches Some(tok) ==> writable(tok, tab)))
}

/// What the lexer gives for a text holds names and literals that can be
/// written.
pub proof fn lemma_items_writable(bytes: Seq<u8>, tab: &StringTable, items: Seq<Lexed>)
    requires
        bytes.len() <= usize::MAX,
        tokens_ok(bytes, tab, 0, items),
    ensures
        items_writable(items, tab),
{
    assert forall|i: int| 0 <= i < items.len() implies (#[trigger] items[i] matches Ok(x) ==> (
    spec_significant(x.data) matches Some(tok) ==> writable(tok, tab))) by {
        lemma_starts_in_text(bytes, 0, i);
        let off = spec_starts(bytes, 0)[i];
        lemma_position_of_matches(bytes, off);
        lemma_lexed_writable(bytes, tab, position_of(bytes, off), items[i]);
    }
}

/// The tokens that the parser reads of such items can be written.
pub proof fn lemma_kept_writable(items: Seq<Lexed>, n: nat, tab: &StringTable)
    requires
        items_writable(items, tab),
        n <= items.len(),
    ensures
        forall|j: int|
            0 <= j < kept(items, n).len() ==> writable((#[trigger] kept(items, n)[j]).data, tab),
    decreases n,
{
    if n > 0 {
        lemma_kept_writable(items, (n - 1) as nat, tab);
        let before = kept(items, (n - 1) as nat);
        let item = items[n - 1];
        assert forall|j: int| 0 <= j < kept(items, n).len() implies writable(
            (#[trigger] kept(items, n)[j]).data,
            tab,
        ) by {
            if j < before.len() {
                assert(kept(items, n)[j] == before[j]);
            } else {
                assert(item matches Ok(x) && spec_significant(x.data) == Some(kept(items, n)[j].data));
            }
        }
    }
}

/// Tokens that are keywords, operators and tokens of `t` can be written
/// where the tokens of `t` can.
pub proof fn lemma_known_writable(ts: Seq<Token>, t: Tokens, tab: &StringTable)
    requires
        all_known(ts, t),
        forall|j: int| 0 <= j < t.len() ==> writable((#[trigger] t[j]).data, tab),
    ensures
        all_writable(ts, tab),
{
    assert forall|k: int| 0 <= k < ts.len() implies writable(#[trigger] ts[k], tab) by {
        assert(token_known(ts[k], t));
        if known(ts[k], t) {
            let i = choose|i: int| 0 <= i < t.len() && (#[trigger] t[i]).data == ts[k];
            assert(writable(t[i].data, tab));
        }
    }
}

/// What can be written with a table can be written with a table that
/// grew from it.
pub proof fn lemma_writable_kept(ts: Seq<Token>, old: &StringTable, new: &StringTable)
    requires
        all_writable(ts, old),
        table_grew(old, new),
    ensures
        all_writable(ts, new),
        spec_text(ts, ts.len(), new) == spec_text(ts, ts.len(), old),
{
    assert forall|s: Symbol| old.owns(s) implies new.owns(s) && new.bytes(s) == old.bytes(s) by {
        assert(new@.subrange(0, old@.len() as int)[s.id as int] == new@[s.id as int]);
    }
    assert forall|k: int| 0 <= k < ts.len() implies writable(#[trigger] ts[k], new) && token_text(
        ts[k],
        new,
    ) == token_text(ts[k], old) by {
        assert(writable(ts[k], old));
    }
    lemma_text_same(ts, ts.len(), old, new);
}

proof fn lemma_text_same(ts: Seq<Token>, n: nat, old: &StringTable, new: &StringTable)
    requires
        n <= ts.len(),
        forall|k: int| 0 <= k < ts.len() ==> token_text(#[trigger] ts[k], new) == token_text(ts[k], old),
    ensures
        spec_text(ts, n, new) == spec_text(ts, n, old),
    decreases n,
{
    if n > 0 {
        lemma_text_same(ts, (n - 1) as nat, old, new);
    }
}

/// The text of tokens, each with a character behind it, is the same with
/// a table that holds the same strings for them.
proof fn lemma_text_with_same(
    ts: Seq<Token>,
    n: nat,
    old: &StringTable,
    new: &StringTable,
    seps: Seq<u8>,
)
    requires
        n <= ts.len(),
        forall|k: int| 0 <= k < ts.len() ==> token_text(#[trigger] ts[k], new) == token_text(ts[k], old),
    ensures
        text_with(ts, n, new, seps) == text_with(ts, n, old, seps),
    decreases n,
{
    if n > 0 {
        lemma_text_with_same(ts, (n - 1) as nat, old, new, seps);
    }
}

/// The tokens of `t`, without their spans.
pub open spec fn bare(t: Tokens) -> Seq<Token> {
    Seq::new(t.len(), |k: int| t[k].data)
}

/// The law of lexing twice: where a text is lexed without an error and
/// its tokens, white space and comments left out, are spelled out one
/// behind the other, each with one space behind it, that text is ASCII,
/// and lexing it, with the table of the first time or one that grew from
/// it, gives the same tokens again.
pub proof fn lemma_lexed_again(
    bytes: Seq<u8>,
    tab: &StringTable,
    items: Seq<Lexed>,
    later: &StringTable,
    again: Seq<Lexed>,
)
    requires
        tab.wf(),
        later.wf(),
        table_grew(tab, later),
        bytes.len() <= usize::MAX,
        tokens_ok(bytes, tab, 0, items),
        spec_filter(items) is Ok,
        ({
            let ts = bare(spec_filter(items)->Ok_0);
            let text = text_with(ts, ts.len(), tab, spaces(ts.len()));
            text.len() <= usize::MAX && tokens_ok(text, later, 0, again)
        }),
    ensures
        ({
            let ts = bare(spec_filter(items)->Ok_0);
            &&& all_writable(ts, tab)
            &&& all_ascii(text_with(ts, ts.len(), tab, spaces(ts.len())))
            &&& spec_filter(again) matches Ok(t) && t.len() == ts.len() && spells(t, 0, ts)
        }),
{
    let ts = bare(spec_filter(items)->Ok_0);
    lemma_items_writable(bytes, tab, items);
    lemma_kept_writable(items, items.len(), tab);
    assert forall|k: int| 0 <= k < ts.len() implies writable(#[trigger] ts[k], tab) by {
        assert(writable(kept(items, items.len())[k].data, tab));
    }
    lemma_spaced_ascii(ts, ts.len(), tab);
    lemma_writable_kept(ts, tab, later);
    assert forall|s: Symbol| tab.owns(s) implies later.owns(s) && later.bytes(s) == tab.bytes(s) by {
        assert(later@.subrange(0, tab@.len() as int)[s.id as int] == later@[s.id as int]);
    }
    assert forall|k: int| 0 <= k < ts.len() implies token_text(#[trigger] ts[k], later)
        == token_text(ts[k], tab) by {
        assert(writable(ts[k], tab));
    }
    lemma_text_with_same(ts, ts.len(), tab, later, spaces(ts.len()));
    lemma_read_spaced(ts, later, again);
}

/// The characters of a token that can be written are ASCII.
pub proof fn lemma_token_ascii(t: Token, tab: &StringTable)
    requires
        writable(t, tab),
    ensures
        all_ascii(token_text(t, tab).push(separator(t))),
{
    let w = token_text(t, tab);
    match t {
        Token::Keyword(k) => {
            lemma_keyword_letters(k);
        },
        Token::Operator(o) => {
            lemma_operator_chars(o);
            assert forall|i: int| 0 <= i < w.len() implies w[i] < 128 by {
                assert(is_operator_char(w[i]));
            }
        },
        Token::Identifier(s) => {
            assert forall|i: int| 0 <= i < w.len() implies w[i] < 128 by {
                assert(is_ident_part(w[i]));
            }
        },
        Token::IntegerLiteral(s) => {
            assert forall|i: int| 0 <= i < w.len() implies w[i] < 128 by {
                assert(is_digit(w[i]));
            }
        },
    }
}

/// The text of tokens that can be written is ASCII, so that it can be
/// read as a source file.
pub proof fn lemma_text_ascii(ts: Seq<Token>, n: nat, tab: &StringTable)
    requires
        all_writable(ts, tab),
        n <= ts.len(),
    ensures
        all_ascii(spec_text(ts, n, tab)),
    decreases n,
{
    if n > 0 {
        lemma_text_ascii(ts, (n - 1) as nat, tab);
        assert(writable(ts[n - 1], tab));
        lemma_token_ascii(ts[n - 1], tab);
        let a = spec_text(ts, (n - 1) as nat, tab);
        let b = token_text(ts[n - 1], tab).push(separator(ts[n - 1]));
        assert forall|i: int| 0 <= i < (a + b).len() implies (a + b)[i] < 128 by {
            if i < a.len() {
                assert((a + b)[i] == a[i]);
            } else {
                assert((a + b)[i] == b[i - a.len()]);
            }
        }
    }
}

/// The text of tokens that can be written, each with one space behind
/// it, is ASCII.
pub proof fn lemma_spaced_ascii(ts: Seq<Token>, n: nat, tab: &StringTable)
    requires
        all_writable(ts, tab),
        n <= ts.len(),
    ensures
        all_ascii(text_with(ts, n, tab, spaces(ts.len()))),
    decreases n,
{
    if n > 0 {
        lemma_spaced_ascii(ts, (n - 1) as nat, tab);
        assert(writable(ts[n - 1], tab));
        lemma_token_ascii(ts[n - 1], tab);
        let a = text_with(ts, (n - 1) as nat, tab, spaces(ts.len()));
        let w = token_text(ts[n - 1], tab);
        let b = w.push(32u8);
        assert(spaces(ts.len())[n - 1] == 32u8);
        assert forall|i: int| 0 <= i < (a + b).len() implies (a + b)[i] < 128 by {
            if i < a.len() {
                assert((a + b)[i] == a[i]);
            } else if i < a.len() + w.len() {
                assert((a + b)[i] == w[i - a.len()]);
                assert(w.push(separator(ts[n - 1]))[i - a.len()] == w[i - a.len()]);
            } else {
                assert((a + b)[i] == 32u8);
            }
        }
    }
}

/// Tokens that can be written are written: none has a name or a literal
/// that the table does not hold.
pub proof fn lemma_writable_written(ts: Seq<Token>, tab: &StringTable)
    requires
        all_writable(ts, tab),
    ensures
        !super::pretty::any_foreign(ts, tab),
{
    assert forall|k: int| 0 <= k < ts.len() implies !foreign(#[trigger] ts[k], tab) by {
        assert(writable(ts[k], tab));
    }
}

/// The law of parsing, printing and parsing: a tree that was parsed is
/// printed, and where its text is parsed again, with the table of the
/// tree or one that grew from it, the result is the tree again but for
/// the spans.
pub proof fn lemma_parse_print_parse(
    a: &AST,
    tab: &StringTable,
    file: &AsciiFile<'_>,
    later: &StringTable,
    r: Result<AST, FrontError>,
)
    requires
        shaped(ast_tree(a)),
        tab.wf(),
        all_writable(ast_tokens(ast_tree(a)), tab),
        file@ == spec_text(ast_tokens(ast_tree(a)), ast_tokens(ast_tree(a)).len(), tab),
        file@.len() <= usize::MAX,
        later.wf(),
        table_grew(tab, later),
        parsed_from(file, later, r),
    ensures
        !super::pretty::any_foreign(ast_tokens(ast_tree(a)), tab),
        all_ascii(spec_text(ast_tokens(ast_tree(a)), ast_tokens(ast_tree(a)).len(), tab)),
        r matches Ok(b) && ast_alike(ast_tree(a), ast_tree(&b)),
{
    let ts = ast_tokens(ast_tree(a));
    lemma_writable_written(ts, tab);
    lemma_text_ascii(ts, ts.len(), tab);
    lemma_writable_kept(ts, tab, later);
    let items = choose|items: Seq<Lexed>| tokens_ok(file@, later, 0, items) && front(items, r);
    lemma_print_parse(ast_tree(a), later, items);
}

} // verus!
