use calclang::ast::{Expr, Expr_, Program};
use calclang::lexer::{tokenize, LexError};
use calclang::parser::{parse, UNEXPECTED_END, UNEXPECTED_TOKEN};
use calclang::token::{Span, Token};

fn show(e: &Expr) -> String {
    match &e.node {
        Expr_::Print(a) => format!("Print({})", show(a)),
        Expr_::Assign(x, a) => format!("Assign({},{})", x, show(a)),
        Expr_::Add(a, b) => format!("Add({},{})", show(a), show(b)),
        Expr_::Sub(a, b) => format!("Sub({},{})", show(a), show(b)),
        Expr_::Mul(a, b) => format!("Mul({},{})", show(a), show(b)),
        Expr_::Div(a, b) => format!("Div({},{})", show(a), show(b)),
        Expr_::Var(x) => format!("Var({})", x),
        Expr_::Literal(v) => format!("Lit({})", v),
    }
}

fn parse_src(src: &str) -> Result<Program, (Option<(Token, Span)>, &'static str)> {
    parse(tokenize(src).unwrap())
}

fn shown(src: &str) -> Vec<String> {
    parse_src(src).unwrap().stmts.iter().map(show).collect()
}

#[test]
fn multiplication_binds_tighter() {
    assert_eq!(shown("1 + 2 * 3;"), vec!["Add(Lit(1),Mul(Lit(2),Lit(3)))"]);
    assert_eq!(shown("1 * 2 + 3;"), vec!["Add(Mul(Lit(1),Lit(2)),Lit(3))"]);
    assert_eq!(shown("(1 + 2) * 3;"), vec!["Mul(Add(Lit(1),Lit(2)),Lit(3))"]);
}

#[test]
fn operators_group_to_the_left() {
    assert_eq!(shown("1 - 2 - 3;"), vec!["Sub(Sub(Lit(1),Lit(2)),Lit(3))"]);
    assert_eq!(shown("8 / 4 / 2;"), vec!["Div(Div(Lit(8),Lit(4)),Lit(2))"]);
}

#[test]
fn assignment_groups_to_the_right() {
    assert_eq!(shown("x = y = 1;"), vec!["Assign(x,Assign(y,Lit(1)))"]);
    assert_eq!(shown("print x = 2;"), vec!["Print(Assign(x,Lit(2)))"]);
}

#[test]
fn assignment_needs_an_identifier() {
    let err = parse_src("1 = y;").unwrap_err();
    assert_eq!(err.0, Some((Token::Integer(1), Span(0, 1))));
    assert_eq!(err.1, UNEXPECTED_TOKEN);
    let err = parse_src("(x) = 1;").unwrap_err();
    assert_eq!(err.0, Some((Token::LeftParen, Span(0, 1))));
    let err = parse_src("a = x + 1 = 2;").unwrap_err();
    assert_eq!(err.0, Some((Token::Ident("x".to_string()), Span(4, 5))));
}

#[test]
fn print_statement_end_to_end() {
    let program = parse_src("print 1 + 2;").unwrap();
    assert_eq!(program.stmts.len(), 1);
    assert_eq!(show(&program.stmts[0]), "Print(Add(Lit(1),Lit(2)))");
    assert_eq!(program.stmts[0].span, Span(0, 11));
    match &program.stmts[0].node {
        Expr_::Print(inner) => assert_eq!(inner.span, Span(6, 11)),
        _ => panic!("not a print"),
    }
}

#[test]
fn statements_keep_their_order() {
    assert_eq!(
        shown("a = 1; b = a * 2;\nprint b;"),
        vec!["Assign(a,Lit(1))", "Assign(b,Mul(Var(a),Lit(2)))", "Print(Var(b))"]
    );
    assert_eq!(shown(""), Vec::<String>::new());
    assert_eq!(shown("// nothing\n"), Vec::<String>::new());
}

#[test]
fn lexical_and_syntax_errors_differ() {
    assert_eq!(tokenize("#"), Err(LexError::UnexpectedCharacter('#', Span(0, 1))));
    assert_eq!(tokenize("/* abc"), Err(LexError::UnterminatedComment(Span(0, 6))));
    let toks = tokenize("+ + ;").unwrap();
    assert_eq!(toks.len(), 3);
    let err = parse(toks).unwrap_err();
    assert_eq!(err.0, Some((Token::Plus, Span(0, 1))));
    assert_eq!(err.1, UNEXPECTED_TOKEN);
}

#[test]
fn premature_end_of_input() {
    let err = parse_src("print 1").unwrap_err();
    assert_eq!(err.0, None);
    assert_eq!(err.1, UNEXPECTED_END);
    assert_eq!(err.1, "syntax error: unexpected end of input");
    let err = parse_src("x = (1 + 2;").unwrap_err();
    assert_eq!(err.0, Some((Token::Semi, Span(10, 11))));
    let err = parse_src("x = ;").unwrap_err();
    assert_eq!(err.0, Some((Token::Semi, Span(4, 5))));
}

#[test]
fn grammarless_tokens_are_syntax_errors() {
    let err = parse_src("1 < 2;").unwrap_err();
    assert_eq!(err.0, Some((Token::Lt, Span(2, 3))));
    let err = parse_src("print true;").unwrap_err();
    assert_eq!(err.0, Some((Token::True, Span(6, 10))));
}

#[test]
fn node_spans_include_parentheses() {
    let program = parse_src("(1) * 2;").unwrap();
    assert_eq!(program.stmts[0].span, Span(0, 7));
    match &program.stmts[0].node {
        Expr_::Mul(a, b) => {
            assert_eq!(a.span, Span(1, 2));
            assert_eq!(b.span, Span(6, 7));
        }
        _ => panic!("not a product"),
    }
    let program = parse_src("print (1);").unwrap();
    assert_eq!(program.stmts[0].span, Span(0, 9));
    let program = parse_src("x = 1 + (2 - 3);").unwrap();
    assert_eq!(program.stmts[0].span, Span(0, 15));
    match &program.stmts[0].node {
        Expr_::Assign(_, sum) => {
            assert_eq!(sum.span, Span(4, 15));
            match &sum.node {
                Expr_::Add(_, diff) => assert_eq!(diff.span, Span(9, 14)),
                _ => panic!("not a sum"),
            }
        }
        _ => panic!("not an assignment"),
    }
}
