use compiler_lib::asciifile::{AsciiFile, Position, Span, Spanned};
use compiler_lib::ast::{
    BasicType, BinaryOp, Block, ClassMemberKind, Expr, Stmt, Type, UnaryOp, AST,
};
use compiler_lib::lexer::{lex_all, Keyword, LexError, Operator, TokenKind};
use compiler_lib::parser::{
    parse_source, significant, Expected, FrontError, Parser, SyntaxError, Token,
};
use compiler_lib::print::lextest::UnknownSymbol;
use compiler_lib::print::pretty::{print, spell_out, tokens, write_tokens};
use compiler_lib::strtab::{StringTable, Symbol};

fn parse_with(src: &str, strtab: &mut StringTable) -> Result<AST, FrontError> {
    let file = AsciiFile::new(src.as_bytes()).unwrap();
    parse_source(&file, strtab)
}

fn parse(src: &str) -> (AST, StringTable) {
    let mut strtab = StringTable::new();
    let ast = parse_with(src, &mut strtab).unwrap();
    (ast, strtab)
}

fn syntax_error(src: &str) -> Spanned<SyntaxError> {
    let mut strtab = StringTable::new();
    match parse_with(src, &mut strtab) {
        Err(FrontError::Syntactic(e)) => e,
        other => panic!("no syntax error: {:?}", other),
    }
}

/// The statements of the first method of the first class.
fn body(ast: &AST) -> &Vec<Spanned<Stmt>> {
    match ast {
        AST::Program(p) => match &p.data.classes[0].data.members[0].data.kind {
            ClassMemberKind::Method(_, _, b) => &b.data.statements,
            ClassMemberKind::MainMethod(_, b) => &b.data.statements,
            other => panic!("no method: {:?}", other),
        },
        AST::Empty => panic!("empty"),
    }
}

/// The expression of the one statement of a method with the body `src`.
fn expr(src: &str) -> (Expr, StringTable) {
    let (ast, strtab) = parse(&format!("class A {{ public void f() {{ {}; }} }}", src));
    let stmts = body(&ast);
    assert_eq!(stmts.len(), 1);
    match &stmts[0].data {
        Stmt::Expression(e) => (strip(&e.data), strtab),
        other => panic!("no expression: {:?}", other),
    }
}

fn at0<T>(data: T) -> Spanned<T> {
    let p = Position { row: 0, col: 0, byte_offset: 0 };
    Spanned::new(Span::new(p, p), data)
}

fn boxed(e: Expr) -> Box<Spanned<Expr>> {
    Box::new(at0(e))
}

/// A copy of the expression.
fn strip(e: &Expr) -> Expr {
    let list = |args: &Spanned<Vec<Spanned<Expr>>>| {
        at0(args.data.iter().map(|a| at0(strip(&a.data))).collect::<Vec<_>>())
    };
    match e {
        Expr::Binary(op, l, r) => Expr::Binary(*op, boxed(strip(&l.data)), boxed(strip(&r.data))),
        Expr::Unary(op, x) => Expr::Unary(*op, boxed(strip(&x.data))),
        Expr::MethodInvocation(x, n, args) => {
            Expr::MethodInvocation(boxed(strip(&x.data)), *n, list(args))
        }
        Expr::FieldAccess(x, n) => Expr::FieldAccess(boxed(strip(&x.data)), *n),
        Expr::ArrayAccess(x, i) => Expr::ArrayAccess(boxed(strip(&x.data)), boxed(strip(&i.data))),
        Expr::Null => Expr::Null,
        Expr::Boolean(b) => Expr::Boolean(*b),
        Expr::Int(s) => Expr::Int(*s),
        Expr::NegInt(s) => Expr::NegInt(*s),
        Expr::Var(s) => Expr::Var(*s),
        Expr::ThisMethodInvocation(n, args) => Expr::ThisMethodInvocation(*n, list(args)),
        Expr::This => Expr::This,
        Expr::NewObject(s) => Expr::NewObject(*s),
        Expr::NewArray(b, size, n) => Expr::NewArray(*b, boxed(strip(&size.data)), *n),
    }
}

fn sym(strtab: &StringTable, text: &str) -> Symbol {
    strtab.lookup(text.as_bytes()).unwrap()
}

fn var(strtab: &StringTable, text: &str) -> Box<Spanned<Expr>> {
    boxed(Expr::Var(sym(strtab, text)))
}

fn bin(op: BinaryOp, l: Box<Spanned<Expr>>, r: Box<Spanned<Expr>>) -> Box<Spanned<Expr>> {
    boxed(Expr::Binary(op, l, r))
}

#[test]
fn no_tokens_are_the_empty_tree() {
    assert_eq!(parse("").0, AST::Empty);
    assert_eq!(parse("  /* nothing */\n").0, AST::Empty);
}

#[test]
fn the_smallest_program_is_parsed() {
    let src = "class A { public static void main(String[] a) {} }";
    let (ast, strtab) = parse(src);
    let p = match &ast {
        AST::Program(p) => p,
        AST::Empty => panic!("empty"),
    };
    assert_eq!((p.span.start.byte_offset, p.span.end.byte_offset), (0, src.len() - 1));
    assert_eq!(p.data.classes.len(), 1);
    let class = &p.data.classes[0];
    assert_eq!(class.data.name, sym(&strtab, "A"));
    assert_eq!(class.data.members.len(), 1);
    let main = &class.data.members[0];
    assert_eq!(main.data.name, sym(&strtab, "main"));
    assert_eq!((main.span.start.byte_offset, main.span.end.byte_offset), (10, 47));
    match &main.data.kind {
        ClassMemberKind::MainMethod(params, body) => {
            assert_eq!(params.data.len(), 1);
            assert_eq!(params.data[0].data.name, sym(&strtab, "a"));
            assert_eq!(
                params.data[0].data.ty.data,
                Type { basic: BasicType::Custom(sym(&strtab, "String")), array_depth: 1 }
            );
            assert_eq!((params.span.start.byte_offset, params.span.end.byte_offset), (33, 44));
            assert_eq!(body.data, Block { statements: vec![] });
            assert_eq!((body.span.start.byte_offset, body.span.end.byte_offset), (46, 47));
        }
        other => panic!("no main method: {:?}", other),
    }
}

#[test]
fn fields_and_methods_are_told_apart() {
    let (ast, strtab) =
        parse("class A { public int[][] x; public A f(int a, boolean b) throws E { return; } }");
    let p = match &ast {
        AST::Program(p) => p,
        AST::Empty => panic!("empty"),
    };
    let members = &p.data.classes[0].data.members;
    assert_eq!(members.len(), 2);
    match &members[0].data.kind {
        ClassMemberKind::Field(ty) => {
            assert_eq!(ty.data, Type { basic: BasicType::Int, array_depth: 2 })
        }
        other => panic!("no field: {:?}", other),
    }
    match &members[1].data.kind {
        ClassMemberKind::Method(ty, params, body) => {
            assert_eq!(
                ty.data,
                Type { basic: BasicType::Custom(sym(&strtab, "A")), array_depth: 0 }
            );
            assert_eq!(params.data.len(), 2);
            assert_eq!(params.data[1].data.ty.data.basic, BasicType::Boolean);
            assert_eq!(body.data.statements, vec![at0(Stmt::Return(None))]);
        }
        other => panic!("no method: {:?}", other),
    }
}

#[test]
fn operators_bind_by_their_precedence() {
    let (e, t) = expr("a = b || c && d == e < f + g * h");
    let mul = bin(BinaryOp::Mul, var(&t, "g"), var(&t, "h"));
    let add = bin(BinaryOp::Add, var(&t, "f"), mul);
    let less = bin(BinaryOp::LessThan, var(&t, "e"), add);
    let eq = bin(BinaryOp::Equals, var(&t, "d"), less);
    let and = bin(BinaryOp::LogicalAnd, var(&t, "c"), eq);
    let or = bin(BinaryOp::LogicalOr, var(&t, "b"), and);
    assert_eq!(e, Expr::Binary(BinaryOp::Assign, var(&t, "a"), or));

    let (e, t) = expr("a * b + c");
    let mul = bin(BinaryOp::Mul, var(&t, "a"), var(&t, "b"));
    assert_eq!(e, Expr::Binary(BinaryOp::Add, mul, var(&t, "c")));

    let (e, t) = expr("a * (b + c)");
    let add = bin(BinaryOp::Add, var(&t, "b"), var(&t, "c"));
    assert_eq!(e, Expr::Binary(BinaryOp::Mul, var(&t, "a"), add));
}

#[test]
fn operators_group_to_the_left_and_assignments_to_the_right() {
    let (e, t) = expr("a - b - c");
    let first = bin(BinaryOp::Sub, var(&t, "a"), var(&t, "b"));
    assert_eq!(e, Expr::Binary(BinaryOp::Sub, first, var(&t, "c")));

    let (e, t) = expr("a = b = c");
    let second = bin(BinaryOp::Assign, var(&t, "b"), var(&t, "c"));
    assert_eq!(e, Expr::Binary(BinaryOp::Assign, var(&t, "a"), second));

    let (e, t) = expr("a % b / c != d >= e");
    let rem = bin(BinaryOp::Mod, var(&t, "a"), var(&t, "b"));
    let div = bin(BinaryOp::Div, rem, var(&t, "c"));
    let ge = bin(BinaryOp::GreaterEquals, var(&t, "d"), var(&t, "e"));
    assert_eq!(e, Expr::Binary(BinaryOp::NotEquals, div, ge));
}

#[test]
fn a_minus_binds_tighter_than_a_product() {
    let (e, t) = expr("-a * b");
    let neg = boxed(Expr::Unary(UnaryOp::Neg, var(&t, "a")));
    assert_eq!(e, Expr::Binary(BinaryOp::Mul, neg, var(&t, "b")));

    let (e, t) = expr("!!a");
    let inner = boxed(Expr::Unary(UnaryOp::Not, var(&t, "a")));
    assert_eq!(e, Expr::Unary(UnaryOp::Not, inner));
}

#[test]
fn a_minus_before_a_literal_belongs_to_it() {
    let (e, t) = expr("-2147483648");
    assert_eq!(e, Expr::NegInt(sym(&t, "2147483648")));

    let (e, t) = expr("a - 1");
    assert_eq!(e, Expr::Binary(BinaryOp::Sub, var(&t, "a"), boxed(Expr::Int(sym(&t, "1")))));

    let (e, t) = expr("a - -1");
    assert_eq!(e, Expr::Binary(BinaryOp::Sub, var(&t, "a"), boxed(Expr::NegInt(sym(&t, "1")))));

    let (e, t) = expr("-(1)");
    assert_eq!(e, Expr::Unary(UnaryOp::Neg, boxed(Expr::Int(sym(&t, "1")))));

    let (e, t) = expr("- -1");
    assert_eq!(e, Expr::Unary(UnaryOp::Neg, boxed(Expr::NegInt(sym(&t, "1")))));
}

#[test]
fn accesses_and_calls_group_to_the_left() {
    let (e, t) = expr("a.b.c(1, x)[2]");
    let field = boxed(Expr::FieldAccess(var(&t, "a"), sym(&t, "b")));
    let args = at0(vec![at0(Expr::Int(sym(&t, "1"))), at0(Expr::Var(sym(&t, "x")))]);
    let call = boxed(Expr::MethodInvocation(field, sym(&t, "c"), args));
    assert_eq!(e, Expr::ArrayAccess(call, boxed(Expr::Int(sym(&t, "2")))));

    let (e, t) = expr("f()");
    assert_eq!(e, Expr::ThisMethodInvocation(sym(&t, "f"), at0(vec![])));

    let (e, t) = expr("this.f(null, true, false)");
    let args = at0(vec![at0(Expr::Null), at0(Expr::Boolean(true)), at0(Expr::Boolean(false))]);
    assert_eq!(e, Expr::MethodInvocation(boxed(Expr::This), sym(&t, "f"), args));
}

#[test]
fn new_objects_and_arrays() {
    let (e, t) = expr("new A()");
    assert_eq!(e, Expr::NewObject(sym(&t, "A")));

    let (e, t) = expr("new int[5][][]");
    assert_eq!(e, Expr::NewArray(BasicType::Int, boxed(Expr::Int(sym(&t, "5"))), 2));

    let (e, t) = expr("new A[n][1]");
    let array = boxed(Expr::NewArray(BasicType::Custom(sym(&t, "A")), var(&t, "n"), 0));
    assert_eq!(e, Expr::ArrayAccess(array, boxed(Expr::Int(sym(&t, "1")))));
}

#[test]
fn statements_of_every_kind() {
    let (ast, t) = parse(
        "class A { public void f() { int[] x = new int[3]; A a; a[1] = 2; ; { } \
         if (b) if (c) return 1; else x = 1; while (true) { return; } } }",
    );
    let stmts = body(&ast);
    assert_eq!(stmts.len(), 7);
    let int = |text: &str| boxed(Expr::Int(sym(&t, text)));
    assert_eq!(
        stmts[0].data,
        Stmt::LocalVariableDeclaration(
            at0(Type { basic: BasicType::Int, array_depth: 1 }),
            sym(&t, "x"),
            Some(boxed(Expr::NewArray(BasicType::Int, int("3"), 0))),
        )
    );
    assert_eq!(
        stmts[1].data,
        Stmt::LocalVariableDeclaration(
            at0(Type { basic: BasicType::Custom(sym(&t, "A")), array_depth: 0 }),
            sym(&t, "a"),
            None,
        )
    );
    let access = boxed(Expr::ArrayAccess(var(&t, "a"), int("1")));
    assert_eq!(stmts[2].data, Stmt::Expression(bin(BinaryOp::Assign, access, int("2"))));
    assert_eq!(stmts[3].data, Stmt::Empty);
    assert_eq!(stmts[4].data, Stmt::Block(at0(Block { statements: vec![] })));
    // an `else` belongs to the nearest `if`
    let assign = Stmt::Expression(bin(BinaryOp::Assign, var(&t, "x"), int("1")));
    let inner = Stmt::If(
        var(&t, "c"),
        Box::new(at0(Stmt::Return(Some(int("1"))))),
        Some(Box::new(at0(assign))),
    );
    assert_eq!(stmts[5].data, Stmt::If(var(&t, "b"), Box::new(at0(inner)), None));
    let block = Stmt::Block(at0(Block { statements: vec![at0(Stmt::Return(None))] }));
    assert_eq!(stmts[6].data, Stmt::While(boxed(Expr::Boolean(true)), Box::new(at0(block))));
}

#[test]
fn spans_cover_what_was_read() {
    let src = "class A { public void f() { x = (a + 1) * 2; } }";
    let (ast, _) = parse(src);
    let stmt = &body(&ast)[0];
    let text = |s: Span| &src[s.start.byte_offset..=s.end.byte_offset];
    assert_eq!(text(stmt.span), "x = (a + 1) * 2;");
    match &stmt.data {
        Stmt::Expression(e) => {
            assert_eq!(text(e.span), "x = (a + 1) * 2");
            match &e.data {
                Expr::Binary(_, l, r) => {
                    assert_eq!(text(l.span), "x");
                    assert_eq!(text(r.span), "(a + 1) * 2");
                    match &r.data {
                        Expr::Binary(_, sum, two) => {
                            assert_eq!(text(sum.span), "(a + 1)");
                            assert_eq!(text(two.span), "2");
                            assert_eq!(two.span.start.col, 42);
                        }
                        other => panic!("no product: {:?}", other),
                    }
                }
                other => panic!("no assignment: {:?}", other),
            }
        }
        other => panic!("no expression: {:?}", other),
    }
}

#[test]
fn the_first_syntax_error_is_returned() {
    let e = syntax_error("class A { public int x } class 5");
    assert_eq!(e.data, SyntaxError::InvalidMemberDeclaration);
    assert_eq!((e.span.start.byte_offset, e.span.end.byte_offset), (23, 23));

    let e = syntax_error("class { }");
    assert_eq!(
        e.data,
        SyntaxError::UnexpectedToken {
            expected: Expected::Identifier,
            found: Token::Operator(Operator::LeftBrace),
        }
    );
    assert_eq!(e.span.start.byte_offset, 6);

    let e = syntax_error("class A { public void f() { x = ; } }");
    assert_eq!(
        e.data,
        SyntaxError::UnexpectedToken {
            expected: Expected::Expression,
            found: Token::Operator(Operator::Semicolon),
        }
    );
    assert_eq!(e.span.start.byte_offset, 32);

    let e = syntax_error("class A { public void f() { f(1 2); } }");
    assert_eq!(
        e.data,
        SyntaxError::UnexpectedToken {
            expected: Expected::Operator(Operator::RightParen),
            found: Token::IntegerLiteral(Symbol { id: 3 }),
        }
    );

    let e = syntax_error("int x;");
    assert_eq!(
        e.data,
        SyntaxError::UnexpectedToken {
            expected: Expected::Keyword(Keyword::Class),
            found: Token::Keyword(Keyword::Int),
        }
    );

    let e = syntax_error("class A { int x; }");
    assert_eq!(
        e.data,
        SyntaxError::UnexpectedToken {
            expected: Expected::Keyword(Keyword::Public),
            found: Token::Keyword(Keyword::Int),
        }
    );

    let e = syntax_error("class A { public void f() { new 5; } }");
    assert_eq!(
        e.data,
        SyntaxError::UnexpectedToken {
            expected: Expected::Type,
            found: Token::IntegerLiteral(Symbol { id: 2 }),
        }
    );
}

#[test]
fn the_end_of_the_tokens_is_an_error_where_one_is_needed() {
    let e = syntax_error("class A { public void f() { ");
    assert_eq!(e.data, SyntaxError::UnexpectedEOF);
    // the error points at the last token
    assert_eq!((e.span.start.byte_offset, e.span.end.byte_offset), (26, 26));
    assert_eq!(syntax_error("class").data, SyntaxError::UnexpectedEOF);
    assert_eq!(syntax_error("class A { public int x").data, SyntaxError::UnexpectedEOF);
}

#[test]
fn a_second_static_method_is_an_error() {
    let e = syntax_error(
        "class A { public static void main(String[] a) {} } \
         class B { public static void main(String[] a) {} }",
    );
    assert_eq!(e.data, SyntaxError::DuplicateMainMethod);
    assert_eq!((e.span.start.byte_offset, e.span.end.byte_offset), (68, 73));
    let e = syntax_error("class A { public static int f() {} }");
    assert_eq!(
        e.data,
        SyntaxError::UnexpectedToken {
            expected: Expected::Keyword(Keyword::Void),
            found: Token::Keyword(Keyword::Int),
        }
    );
}

#[test]
fn a_lexical_error_comes_before_every_syntax_error() {
    let mut strtab = StringTable::new();
    match parse_with("class { # }", &mut strtab) {
        Err(FrontError::Lexical(e)) => {
            assert_eq!(e.data, LexError::UnexpectedCharacter(b'#'));
            assert_eq!(e.span.start.byte_offset, 8);
        }
        other => panic!("no lexical error: {:?}", other),
    }
    match parse_with("class A { } /* open", &mut strtab) {
        Err(FrontError::Lexical(e)) => assert_eq!(e.data, LexError::UnterminatedComment),
        other => panic!("no lexical error: {:?}", other),
    }
}

#[test]
fn white_space_and_comments_are_no_tokens_of_the_grammar() {
    assert_eq!(significant(&TokenKind::Whitespace), None);
    assert_eq!(significant(&TokenKind::Comment(b"x".to_vec())), None);
    assert_eq!(significant(&TokenKind::EOF), None);
    assert_eq!(
        significant(&TokenKind::Keyword(Keyword::While)),
        Some(Token::Keyword(Keyword::While))
    );
    let src = "a /* b */ + 1";
    let file = AsciiFile::new(src.as_bytes()).unwrap();
    let mut strtab = StringTable::new();
    let items = lex_all(&file, &mut strtab);
    let parser = Parser::from_lexed(&file, &items).unwrap();
    let kinds: Vec<Token> = parser.tokens.iter().map(|t| t.data).collect();
    assert_eq!(
        kinds,
        vec![
            Token::Identifier(Symbol { id: 0 }),
            Token::Operator(Operator::Plus),
            Token::IntegerLiteral(Symbol { id: 1 }),
        ]
    );
    let offsets: Vec<usize> = parser.tokens.iter().map(|t| t.span.start.byte_offset).collect();
    assert_eq!(offsets, vec![0, 10, 12]);
    let (e, j) = parser.parse_expr(0).unwrap();
    assert_eq!(j, 3);
    assert_eq!((e.span.start.byte_offset, e.span.end.byte_offset), (0, 12));
    assert_eq!(parser.parse_dims(3), (0, 3));
    assert_eq!(parser.peek(1, 1), Some(Token::IntegerLiteral(Symbol { id: 1 })));
    assert_eq!(parser.peek(1, 2), None);
}

const SAMPLE: &str = "class Fib {
    public int n;
    public int[] memo;
    public int fib(int k, Fib other) throws Oops {
        if (k < 2) return k;
        else if (memo[k] != 0) { return memo[k]; }
        int r = fib(k - 1, this) + other.fib(k - 2, null);
        memo[k] = r = -r * -1 - (-(2)) % 3;
        while (!(r >= 0) || false && k == n) r = r / 2;
        ;
        return new Fib().memo[new int[4][][0].length];
    }
    public static void main(String[] args) { Fib f = new Fib(); f.fib(-5, f); }
}
class Empty { }";

#[test]
fn printing_and_parsing_again_gives_the_same_tree() {
    let mut strtab = StringTable::new();
    let first = parse_with(SAMPLE, &mut strtab).unwrap();
    let mut text = Vec::new();
    assert_eq!(print(&first, &strtab, &mut text), Ok(()));
    let printed = String::from_utf8(text.clone()).unwrap();
    let second = parse_with(&printed, &mut strtab).unwrap();
    assert_eq!(first, second);
    // the normal form is printed as it is
    let mut again = Vec::new();
    assert_eq!(print(&second, &strtab, &mut again), Ok(()));
    assert_eq!(text, again);
}

#[test]
fn the_normal_form_of_a_program() {
    let mut strtab = StringTable::new();
    let ast = parse_with(
        "class A{public int x;public void f(int a,A b){x=a+1*-2;if(a<0)return;else{b.f(-a,this);}}}",
        &mut strtab,
    )
    .unwrap();
    let mut text = Vec::new();
    assert_eq!(print(&ast, &strtab, &mut text), Ok(()));
    assert_eq!(
        String::from_utf8(text).unwrap(),
        "class A {\npublic int x ;\npublic void f ( int a , A b ) {\n\
         x = ( a + ( 1 * ( - 2 ) ) ) ;\nif ( a < 0 ) return ;\nelse {\n\
         b . f ( - a , this ) ;\n}\n}\n}\n"
    );
    let mut nothing = Vec::new();
    assert_eq!(print(&AST::Empty, &strtab, &mut nothing), Ok(()));
    assert!(nothing.is_empty());
    assert!(tokens(&AST::Empty).is_empty());
}

#[test]
fn a_name_that_the_table_does_not_hold_is_not_printed() {
    let (ast, _) = parse("class A { }");
    let empty = StringTable::new();
    let mut text = b"before".to_vec();
    assert_eq!(print(&ast, &empty, &mut text), Err(UnknownSymbol));
    assert_eq!(text, b"before".to_vec());
    let ts = vec![Token::Keyword(Keyword::Class), Token::IntegerLiteral(Symbol { id: 0 })];
    assert_eq!(write_tokens(&mut text, &ts, &empty), Err(UnknownSymbol));
    let ts = vec![Token::Keyword(Keyword::Class), Token::Operator(Operator::Semicolon)];
    assert_eq!(write_tokens(&mut text, &ts, &empty), Ok(()));
    assert_eq!(text, b"beforeclass ;\n".to_vec());
}

#[test]
fn the_tokens_of_the_normal_form_are_the_tokens_of_the_tree() {
    let src = "class A { public void f() { a.b = c[1] <= (d); } }";
    let mut strtab = StringTable::new();
    let ast = parse_with(src, &mut strtab).unwrap();
    let ts = tokens(&ast);
    let mut text = Vec::new();
    assert_eq!(write_tokens(&mut text, &ts, &strtab), Ok(()));
    let file = AsciiFile::new(&text).unwrap();
    let items = lex_all(&file, &mut strtab);
    let parser = Parser::from_lexed(&file, &items).unwrap();
    let again: Vec<Token> = parser.tokens.iter().map(|t| t.data).collect();
    assert_eq!(ts, again);
}

/// The semantic errors of a source text, each with the text that its span
/// covers.
fn semantic_errors(src: &str) -> Vec<(compiler_lib::type_checking::type_system::SemanticError, String)> {
    let (ast, _) = parse(src);
    let program = match ast {
        AST::Program(p) => p,
        AST::Empty => panic!("empty"),
    };
    let (_, errors) = compiler_lib::type_checking::semantics::check(&program.data);
    errors
        .into_iter()
        .map(|e| {
            let text = src[e.span.start.byte_offset..=e.span.end.byte_offset].to_string();
            (e.data, text)
        })
        .collect()
}

#[test]
fn the_smallest_program_is_checked_from_its_text() {
    assert!(semantic_errors("class A { public static void main(String[] a) {} }").is_empty());
}

#[test]
fn a_condition_that_is_a_number_is_found_in_the_text() {
    let errors =
        semantic_errors("class A { public static void main(String[] a) { if (1) {} } }");
    assert_eq!(errors.len(), 1);
    assert_eq!(
        errors[0],
        (
            compiler_lib::type_checking::type_system::SemanticError::ConditionMustBeBoolean,
            "1".to_string()
        )
    );
}

#[test]
fn a_second_class_of_one_name_is_found_in_the_text() {
    let src = "class A { } class B { } class A { public int x; }";
    let errors = semantic_errors(src);
    assert_eq!(errors.len(), 1);
    match &errors[0].0 {
        compiler_lib::type_checking::type_system::SemanticError::RedefinitionError { kind, .. } => {
            assert_eq!(kind.name(), "class")
        }
        other => panic!("no redefinition: {:?}", other),
    }
    assert_eq!(errors[0].1, "class A { public int x; }");
}

#[test]
fn a_number_that_is_returned_as_a_boolean_is_found_in_the_text() {
    let errors = semantic_errors("class A { public boolean f() { return 1; } }");
    assert_eq!(errors.len(), 1);
    match &errors[0].0 {
        compiler_lib::type_checking::type_system::SemanticError::InvalidReturnType {
            ty_expr,
            ty_return,
        } => {
            assert_eq!(*ty_expr, compiler_lib::type_checking::type_system::CheckedType::Int);
            assert_eq!(*ty_return, compiler_lib::type_checking::type_system::CheckedType::Boolean);
        }
        other => panic!("no invalid return type: {:?}", other),
    }
    assert_eq!(errors[0].1, "return 1;");
}

#[test]
fn tokens_spelled_out_with_single_spaces_are_read_again() {
    let src = "class A{/* a field */public int[]x;\n\tpublic int f(){return-x[0]<=1&&!y;}}";
    let mut strtab = StringTable::new();
    let file = AsciiFile::new(src.as_bytes()).unwrap();
    let items = lex_all(&file, &mut strtab);
    let first: Vec<Token> =
        Parser::from_lexed(&file, &items).unwrap().tokens.iter().map(|t| t.data).collect();
    assert_eq!(first.len(), 29);
    let mut text: Vec<u8> = Vec::new();
    assert_eq!(spell_out(&mut text, &first, &strtab), Ok(()));
    assert_eq!(
        String::from_utf8(text.clone()).unwrap(),
        "class A { public int [ ] x ; public int f ( ) { return - x [ 0 ] <= 1 && ! y ; } } "
    );
    let spelled = AsciiFile::new(&text).unwrap();
    let again_items = lex_all(&spelled, &mut strtab);
    let again: Vec<Token> =
        Parser::from_lexed(&spelled, &again_items).unwrap().tokens.iter().map(|t| t.data).collect();
    assert_eq!(first, again);
    // a name of another table is not spelled out
    let mut nothing: Vec<u8> = Vec::new();
    let foreign = vec![Token::Identifier(Symbol { id: 1000 })];
    assert_eq!(spell_out(&mut nothing, &foreign, &strtab), Err(UnknownSymbol));
    assert!(nothing.is_empty());
}
