use calclang::lexer::{tokenize, LexError, Lexer};
use calclang::token::{Span, Token};

fn kinds(src: &str) -> Vec<Token> {
    tokenize(src).unwrap().into_iter().map(|(t, _)| t).collect()
}

#[test]
fn whitespace_and_comments_yield_nothing() {
    assert_eq!(tokenize("").unwrap(), vec![]);
    assert_eq!(tokenize("  \t\r\n").unwrap(), vec![]);
    assert_eq!(tokenize("// a line comment").unwrap(), vec![]);
    assert_eq!(tokenize("/* a * b / c */\n// x\n  /**/").unwrap(), vec![]);
    assert_eq!(tokenize("/* spans\nlines */").unwrap(), vec![]);
    let mut lexer = Lexer::new(" // only a comment\n\t/* and another */ ");
    assert_eq!(lexer.next(), Ok(None));
    assert_eq!(lexer.next(), Ok(None));
}

#[test]
fn largest_integer_is_one_token() {
    assert_eq!(
        tokenize("2147483647").unwrap(),
        vec![(Token::Integer(2147483647), Span(0, 10))]
    );
    assert_eq!(tokenize("0").unwrap(), vec![(Token::Integer(0), Span(0, 1))]);
    assert_eq!(tokenize("007").unwrap(), vec![(Token::Integer(7), Span(0, 3))]);
    for n in [1i32, 9, 10, 42, 65535, 1000000000] {
        let text = n.to_string();
        assert_eq!(
            tokenize(&text).unwrap(),
            vec![(Token::Integer(n), Span(0, text.len()))]
        );
    }
}

#[test]
fn integer_past_i32_is_fatal() {
    assert_eq!(
        tokenize("2147483648"),
        Err(LexError::IntegerOverflow(Span(0, 10)))
    );
    assert_eq!(
        tokenize("x = 99999999999;"),
        Err(LexError::IntegerOverflow(Span(4, 15)))
    );
}

#[test]
fn two_char_operators_are_not_split() {
    assert_eq!(tokenize(">=").unwrap(), vec![(Token::Ge, Span(0, 2))]);
    assert_eq!(kinds("<="), vec![Token::Le]);
    assert_eq!(kinds("=="), vec![Token::Eq]);
    assert_eq!(kinds("!="), vec![Token::Ne]);
    assert_eq!(kinds("> = < ! ="), vec![Token::Gt, Token::Equals, Token::Lt, Token::Bang, Token::Equals]);
    assert_eq!(kinds("==="), vec![Token::Eq, Token::Equals]);
}

#[test]
fn spans_cover_the_source_without_trivia() {
    let src = "x = (1+ 2) ;// note\n/* c */ print  x;";
    let toks = tokenize(src).unwrap();
    let mut joined = String::new();
    let mut last = 0;
    for (_, Span(lo, hi)) in &toks {
        assert!(last <= *lo && lo < hi);
        joined.push_str(&src[*lo..*hi]);
        last = *hi;
    }
    assert_eq!(joined, "x=(1+2);printx;");
}

#[test]
fn keywords_and_identifiers() {
    assert_eq!(
        kinds("print typeof env true false printx _a1 Env"),
        vec![
            Token::Print,
            Token::Typeof,
            Token::Env,
            Token::True,
            Token::False,
            Token::Ident("printx".to_string()),
            Token::Ident("_a1".to_string()),
            Token::Ident("Env".to_string()),
        ]
    );
    assert_eq!(kinds("12ab"), vec![Token::Integer(12), Token::Ident("ab".to_string())]);
}

#[test]
fn punctuation() {
    assert_eq!(
        kinds("[]{},+-*/();!<>."),
        vec![
            Token::LeftBracket,
            Token::RightBracket,
            Token::LeftBrace,
            Token::RightBrace,
            Token::Comma,
            Token::Plus,
            Token::Minus,
            Token::Star,
            Token::Slash,
            Token::LeftParen,
            Token::RightParen,
            Token::Semi,
            Token::Bang,
            Token::Lt,
            Token::Gt,
            Token::Dot,
        ]
    );
}

#[test]
fn string_literal_runs_to_the_last_quote() {
    assert_eq!(
        tokenize("\"hi\"").unwrap(),
        vec![(Token::String("hi".to_string()), Span(0, 4))]
    );
    assert_eq!(kinds("\"a\" + \"b\""), vec![Token::String("a\" + \"b".to_string())]);
    assert_eq!(kinds("\"h\u{e9}\u{6c34}\""), vec![Token::String("h\u{e9}\u{6c34}".to_string())]);
    assert_eq!(kinds("\"\""), vec![Token::String(String::new())]);
}

#[test]
fn unexpected_character_is_fatal() {
    assert_eq!(tokenize("#"), Err(LexError::UnexpectedCharacter('#', Span(0, 1))));
    assert_eq!(tokenize("1 \"x"), Err(LexError::UnexpectedCharacter('"', Span(2, 3))));
    assert_eq!(
        tokenize("a \u{e9}"),
        Err(LexError::UnexpectedCharacter('\u{e9}', Span(2, 4)))
    );
}

#[test]
fn unterminated_block_comment_is_fatal() {
    assert_eq!(tokenize("/* abc"), Err(LexError::UnterminatedComment(Span(0, 6))));
    assert_eq!(tokenize("x = 1; /*"), Err(LexError::UnterminatedComment(Span(7, 9))));
    assert_eq!(tokenize("/*/"), Err(LexError::UnterminatedComment(Span(0, 3))));
    let mut lexer = Lexer::new("1 /* open");
    assert_eq!(lexer.next(), Ok(Some((Token::Integer(1), Span(0, 1)))));
    assert_eq!(lexer.next(), Err(LexError::UnterminatedComment(Span(2, 9))));
}

#[test]
fn lexer_hands_out_tokens_one_at_a_time() {
    let mut lexer = Lexer::new("  print 1;");
    assert_eq!(lexer.next(), Ok(Some((Token::Print, Span(2, 7)))));
    assert_eq!(lexer.next(), Ok(Some((Token::Integer(1), Span(8, 9)))));
    assert_eq!(lexer.next(), Ok(Some((Token::Semi, Span(9, 10)))));
    assert_eq!(lexer.next(), Ok(None));
    assert_eq!(lexer.next(), Ok(None));
}
