use jon_lisp::parser::{Atom, Expr, ParseError, Parser};
use jon_lisp::scanner::{Scanner, TokItem, Token};

fn parser_for(text: &str) -> Parser {
    let mut scanner = Scanner::new(text);
    Parser::new(&mut scanner)
}

fn sym(x: &str) -> Expr {
    Expr::Atom(Atom::Symbol(x.to_string()))
}

#[test]
fn test_parser_atomic() {
    let mut parser = parser_for("1 sdf \"sadf\" ");
    assert_eq!(parser.parse_atom(), Ok(Atom::Number("1".to_string())));
    assert_eq!(parser.parse_atom(), Ok(Atom::Symbol("sdf".into())));
    assert_eq!(parser.parse_atom(), Ok(Atom::String("sadf".into())));
    assert_eq!(parser.parse_atom(), Err(ParseError::EOF))
}

#[test]
fn test_parser_simple_list() {
    let mut parser = parser_for("(1 sdf \"sadf\" )");
    assert_eq!(
        parser.parse_list(),
        Ok(Expr::List(vec![
            Expr::Atom(Atom::Number("1".to_string())),
            Expr::Atom(Atom::Symbol("sdf".to_string())),
            Expr::Atom(Atom::String("sadf".to_string()))
        ]))
    );
}

#[test]
fn test_parser_complicated_list() {
    let mut parser = parser_for("(def (add x y) (+ x y))");
    assert_eq!(
        parser.parse_list(),
        Ok(Expr::List(vec![
            sym("def"),
            Expr::List(vec![sym("add"), sym("x"), sym("y")]),
            Expr::List(vec![sym("+"), sym("x"), sym("y")]),
        ]))
    );
}

#[test]
fn empty_parens_parse_to_empty_list() {
    assert_eq!(parser_for("(  )").parse_expr(), Ok(Expr::List(vec![])));
    assert_eq!(parser_for("()").parse_expr(), Ok(Expr::List(vec![])));
    assert_eq!(parser_for(" (\t) ").parse_expr(), Ok(Expr::List(vec![])));
}

#[test]
fn expression_parses_atom_or_list() {
    assert_eq!(
        parser_for("1234.5").parse_expr(),
        Ok(Expr::Atom(Atom::Number("1234.5".to_string())))
    );
    assert_eq!(
        parser_for("((a))").parse_expr(),
        Ok(Expr::List(vec![Expr::List(vec![sym("a")])]))
    );
}

#[test]
fn missing_close_paren() {
    assert_eq!(parser_for("(a b").parse_expr(), Err(ParseError::EOF));
    assert_eq!(
        parser_for("(a ' b)").parse_expr(),
        Err(ParseError::UnexpectedToken(TokItem {
            token: Token::Quote,
            position: 3
        }))
    );
}

#[test]
fn stray_close_paren() {
    assert_eq!(
        parser_for(")").parse_expr(),
        Err(ParseError::UnexpectedToken(TokItem {
            token: Token::RParen,
            position: 0
        }))
    );
    assert_eq!(parser_for("").parse_expr(), Err(ParseError::EOF));
}

#[test]
fn numeral_with_two_points_is_rejected() {
    let bad = TokItem {
        token: Token::Number("1.2.3".to_string()),
        position: 0,
    };
    let mut parser = parser_for("1.2.3");
    assert_eq!(parser.parse_atom(), Err(ParseError::UnexpectedToken(bad.clone())));
    assert_eq!(parser_for("1.2.3").parse_expr(), Err(ParseError::UnexpectedToken(bad)));
}

#[test]
fn parser_cursor_helpers() {
    let mut parser = parser_for("( a )");
    assert!(!parser.at_eof());
    assert_eq!(
        parser.get_token(),
        Ok(&TokItem {
            token: Token::LParen,
            position: 0
        })
    );
    assert_eq!(parser.match_token(&Token::LParen), Ok(()));
    assert_eq!(
        parser.match_token(&Token::RParen),
        Err(ParseError::UnexpectedToken(TokItem {
            token: Token::Symbol("a".to_string()),
            position: 2
        }))
    );
    parser.advance();
    parser.advance();
    assert!(parser.at_eof());
    assert_eq!(parser.get_token(), Err(ParseError::EOF));
}

#[test]
fn reparsing_a_list_span_gives_the_same_tree() {
    let line = "x (def (add x y) (+ x \"y z\")) y";
    let mut parser = parser_for(line);
    assert_eq!(parser.parse_atom(), Ok(Atom::Symbol("x".to_string())));
    let tree = parser.parse_list().unwrap();
    let span = &line[2..29];
    let again = parser_for(span).parse_list().unwrap();
    assert_eq!(tree, again);
}

#[test]
fn parser_takes_the_tokens_before_a_lexing_error() {
    let mut scanner = Scanner::new("(a \"b");
    let mut parser = Parser::new(&mut scanner);
    assert_eq!(parser.parse_expr(), Err(ParseError::EOF));
    let mut scanner = Scanner::new("x ~");
    let mut parser = Parser::new(&mut scanner);
    assert_eq!(parser.parse_expr(), Ok(sym("x")));
}

#[test]
fn parser_positions_are_byte_offsets() {
    assert_eq!(
        parser_for("(λ ')").parse_expr(),
        Err(ParseError::UnexpectedToken(TokItem {
            token: Token::Quote,
            position: 4
        }))
    );
}

#[test]
fn advance_may_pass_the_end() {
    let mut parser = parser_for("a");
    parser.advance();
    assert!(parser.at_eof());
    parser.advance();
    assert!(parser.at_eof());
    assert_eq!(parser.get_token(), Err(ParseError::EOF));
    assert_eq!(parser.parse_atom(), Err(ParseError::EOF));
    assert_eq!(parser.parse_expr(), Err(ParseError::EOF));
}

#[test]
fn whitespace_only_parens_with_unicode_spaces() {
    let mut parser = parser_for("(\u{a0}\u{3000} \t)");
    assert_eq!(parser.parse_list(), Ok(Expr::List(vec![])));
    assert!(parser.at_eof());
}
