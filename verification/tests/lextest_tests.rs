use compiler_lib::asciifile::AsciiFile;
use compiler_lib::lexer::{lex_all, Keyword, LexError, Operator, TokenKind};
use compiler_lib::print::lextest::{write_eof_token, write_token};
use compiler_lib::strtab::StringTable;

fn lexer_test_with_tokens(st: &StringTable, tokens: Vec<TokenKind>) -> String {
    let mut o = Vec::new();
    for token in tokens.into_iter() {
        let res = write_token(&mut o, &token, st);
        assert!(res.is_ok());
    }

    String::from_utf8(o).expect("output must be utf8")
}

#[test]
fn newline_per_token() {
    let st = StringTable::new();
    let tokens = vec![
        TokenKind::Operator(Operator::Ampersand),
        TokenKind::Keyword(Keyword::Int),
    ];
    let tokens_len = tokens.len();
    let o = lexer_test_with_tokens(&st, tokens);
    assert_eq!(o.lines().count(), tokens_len);
}

#[test]
fn no_whitespace_and_comments() {
    let mut st = StringTable::new();
    let foo = st.intern("foo".as_bytes());
    let tokens = vec![
        TokenKind::Operator(Operator::Ampersand),
        TokenKind::Whitespace,
        TokenKind::IntegerLiteral(foo),
        TokenKind::Comment("comment".as_bytes().to_vec()),
        TokenKind::Keyword(Keyword::If),
    ];
    let o = lexer_test_with_tokens(&st, tokens);
    assert_eq!(o.lines().count(), 3);
    assert!(!o.contains("comment"));
    assert_eq!(&o, "&\ninteger literal foo\nif\n")
}

#[test]
fn keywords_as_is() {
    let st = StringTable::new();
    let tokens = vec![TokenKind::Keyword(Keyword::Float)];
    let o = lexer_test_with_tokens(&st, tokens);
    assert_eq!(&o, "float\n");
}

#[test]
fn operators_as_is() {
    let st = StringTable::new();
    let o = lexer_test_with_tokens(&st, vec![TokenKind::Operator(Operator::Caret)]);
    assert_eq!(&o, "^\n");
}

#[test]
fn ident_prefix() {
    let mut st = StringTable::new();
    let name = st.intern("an_identifier".as_bytes());
    let o = lexer_test_with_tokens(&st, vec![TokenKind::Identifier(name)]);
    assert_eq!(&o, "identifier an_identifier\n");
}

#[test]
fn integer_literal_prefix() {
    let mut st = StringTable::new();
    let digits = st.intern("2342".as_bytes());
    let o = lexer_test_with_tokens(&st, vec![TokenKind::IntegerLiteral(digits)]);
    assert_eq!(&o, "integer literal 2342\n");
}

#[test]
fn a_handle_of_another_table_is_not_written() {
    let mut other = StringTable::new();
    let name = other.intern("x".as_bytes());
    let st = StringTable::new();
    let mut o = Vec::new();
    assert!(write_token(&mut o, &TokenKind::Identifier(name), &st).is_err());
    assert!(o.is_empty());
}

fn lextest(source: &str) -> Result<String, LexError> {
    let file = AsciiFile::new(source.as_bytes()).unwrap();
    let mut st = StringTable::new();
    let mut out = Vec::new();
    for token in lex_all(&file, &mut st) {
        match token {
            Ok(t) => write_token(&mut out, &t.data, &st).unwrap(),
            Err(e) => return Err(e.data),
        }
    }
    write_eof_token(&mut out);
    Ok(String::from_utf8(out).unwrap())
}

#[test]
fn smallest_program_lexes_to_its_tokens() {
    let out = lextest("class A { public static void main(String[] a) {} }").unwrap();
    let expected = vec![
        "class",
        "identifier A",
        "{",
        "public",
        "static",
        "void",
        "identifier main",
        "(",
        "identifier String",
        "[",
        "]",
        "identifier a",
        ")",
        "{",
        "}",
        "}",
        "EOF",
    ];
    assert_eq!(out.lines().collect::<Vec<_>>(), expected);
}

#[test]
fn longest_operator_wins() {
    assert_eq!(lextest(">>>=>>>>>>=>").unwrap(), ">>>=\n>>>\n>>>=\n>\nEOF\n");
    assert_eq!(lextest("a+++b").unwrap(), "identifier a\n++\n+\nidentifier b\nEOF\n");
    assert_eq!(lextest("x/=2/*c*//y").unwrap(), "identifier x\n/=\ninteger literal 2\n/\nidentifier y\nEOF\n");
}

#[test]
fn zero_is_a_literal_of_its_own() {
    assert_eq!(
        lextest("0123 100").unwrap(),
        "integer literal 0\ninteger literal 123\ninteger literal 100\nEOF\n"
    );
}

#[test]
fn keywords_need_the_whole_word() {
    assert_eq!(
        lextest("int inte whiles while _if").unwrap(),
        "int\nidentifier inte\nidentifier whiles\nwhile\nidentifier _if\nEOF\n"
    );
}

#[test]
fn lexical_errors() {
    assert_eq!(lextest("a # b"), Err(LexError::UnexpectedCharacter(b'#')));
    assert_eq!(lextest("a /* b"), Err(LexError::UnterminatedComment));
    assert_eq!(lextest("a /* b */").unwrap(), "identifier a\nEOF\n");
    assert_eq!(lextest("/*/ x").unwrap_err(), LexError::UnterminatedComment);
}

#[test]
fn spans_cover_the_lexemes_without_gaps() {
    let source = "while (x1 >= 10)\n  /* hi */ y = y+1;\n";
    let file = AsciiFile::new(source.as_bytes()).unwrap();
    let mut st = StringTable::new();
    let tokens = lex_all(&file, &mut st);
    let mut next = 0;
    let mut text = String::new();
    for token in tokens.iter() {
        let span = match token {
            Ok(t) => t.span,
            Err(e) => e.span,
        };
        assert_eq!(span.start.byte_offset, next);
        text.push_str(span.as_str(&file));
        next = span.end.byte_offset + 1;
    }
    assert_eq!(next, source.len());
    assert_eq!(text, source);
    let comment = tokens.iter().find_map(|t| match t {
        Ok(t) => match &t.data {
            TokenKind::Comment(c) => Some((c.clone(), t.span)),
            _ => None,
        },
        Err(_) => None,
    });
    let (c, span) = comment.unwrap();
    assert_eq!(c, b" hi ".to_vec());
    assert_eq!((span.start.row, span.start.col), (1, 2));
    assert_eq!((span.end.row, span.end.col), (1, 9));
}

#[test]
fn recovery_goes_on_behind_one_character() {
    let file = AsciiFile::new("a#b".as_bytes()).unwrap();
    let mut st = StringTable::new();
    let tokens = lex_all(&file, &mut st);
    assert_eq!(tokens.len(), 3);
    assert!(tokens[0].is_ok());
    assert_eq!(tokens[1].as_ref().unwrap_err().data, LexError::UnexpectedCharacter(35));
    assert_eq!(tokens[1].as_ref().unwrap_err().span.len(), 1);
    assert!(matches!(tokens[2].as_ref().unwrap().data, TokenKind::Identifier(_)));
}

#[test]
fn equal_strings_get_equal_handles() {
    let mut st = StringTable::new();
    let a = st.intern(b"foo");
    let b = st.intern(b"bar");
    let c = st.intern(b"foo");
    assert_eq!(a, c);
    assert_ne!(a, b);
    assert_eq!(st.get(a), b"foo");
    assert_eq!(st.get(b), b"bar");
    assert_eq!(st.len(), 2);
    assert_eq!(st.lookup(b"bar"), Some(b));
    assert_eq!(st.lookup(b"baz"), None);
    assert!(a < b);
}
