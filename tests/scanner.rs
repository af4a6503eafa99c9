use jon_lisp::scanner::{is_identifier, ScanError, Scanner, TokItem, Token};

fn item(token: Token, position: usize) -> TokItem {
    TokItem { token, position }
}

fn s(text: &str) -> String {
    text.to_string()
}

#[test]
fn test_scanner_initialization() {
    let scanner = Scanner::new("Hello World");
    assert_eq!(scanner.text(), "Hello World");
}

#[test]
#[should_panic]
fn empty_text_gives_eof() {
    let mut scanner = Scanner::new("");
    let _result = scanner.next().unwrap();
}

#[test]
fn test_scanner_accepts_whitespace() {
    let mut scanner = Scanner::new("     ");
    let result = scanner.next().unwrap();
    assert_eq!(result, item(Token::WhiteSpace(s("     ")), 0));
}

#[test]
#[should_panic]
fn test_scanner_eof() {
    let mut scanner = Scanner::new("     ");
    scanner.next().unwrap();
    scanner.next().unwrap();
}

#[test]
fn test_scanner_accepts_symbol() {
    let mut scanner = Scanner::new("abcde");
    let result = scanner.next().unwrap();
    assert_eq!(result, item(Token::Symbol(s("abcde")), 0));
}

#[test]
fn test_scanner_accepts_symbol_and_space() {
    let mut scanner = Scanner::new("abcde  ");
    let result = scanner.scan_all();
    assert_eq!(result, vec![
            item(Token::Symbol(s("abcde")), 0),
            item(Token::WhiteSpace(s("  ")), 5)
        ]);
}

#[test]
fn test_scanner_accepts_parenthesis() {
    let mut scanner = Scanner::new("()");
    let result = scanner.scan_all();
    assert_eq!(result, vec![item(Token::LParen, 0), item(Token::RParen, 1)]);
}

#[test]
fn test_scanner_accepts_integer() {
    let mut scanner = Scanner::new("1234");
    let result = scanner.scan_all();
    assert_eq!(result, vec![item(Token::Number(s("1234")), 0)]);
}

#[test]
fn test_scanner_accepts_float() {
    let mut scanner = Scanner::new("1234.567");
    let result = scanner.scan_all();
    assert_eq!(result, vec![item(Token::Number(s("1234.567")), 0)]);
}

#[test]
fn test_scanner_accepts_quote() {
    let mut scanner = Scanner::new("'");
    let result = scanner.scan_all();
    assert_eq!(result, vec![item(Token::Quote, 0)]);
}

#[test]
fn test_scanner_accepts_string() {
    let mut scanner = Scanner::new("\"abcde\" \"a\"");
    let result = scanner.scan_all();
    assert_eq!(result, vec![
            item(Token::String(s("abcde")), 0),
            item(Token::WhiteSpace(s(" ")), 7),
            item(Token::String(s("a")), 8)
        ]);
}

#[test]
fn unterminated_string_fails_every_time() {
    let mut scanner = Scanner::new("\"abc");
    assert_eq!(
        scanner.next(),
        Err(ScanError::UnterminatedString { position: 0 })
    );
    assert_eq!(
        scanner.next(),
        Err(ScanError::UnterminatedString { position: 0 })
    );
    let mut whole = Scanner::new("\"abc");
    assert_eq!(whole.scan_all(), vec![]);
    let mut again = Scanner::new("(a \"abc");
    assert_eq!(
        again.scan_all(),
        vec![
            item(Token::LParen, 0),
            item(Token::Symbol(s("a")), 1),
            item(Token::WhiteSpace(s(" ")), 2)
        ]
    );
    assert_eq!(
        again.next(),
        Err(ScanError::UnterminatedString { position: 3 })
    );
}

#[test]
fn unexpected_character_stops_the_scan() {
    let mut scanner = Scanner::new("(a ~)");
    assert_eq!(
        scanner.scan_all(),
        vec![
            item(Token::LParen, 0),
            item(Token::Symbol(s("a")), 1),
            item(Token::WhiteSpace(s(" ")), 2)
        ]
    );
    assert_eq!(
        scanner.next(),
        Err(ScanError::UnexpectedChar { ch: '~', position: 3 })
    );
}

#[test]
fn empty_line_scans_to_nothing() {
    let mut scanner = Scanner::new("");
    assert_eq!(scanner.scan_all(), vec![]);
    assert_eq!(scanner.next(), Err(ScanError::EndOfInput));
}

#[test]
fn scan_all_leaves_the_scanner_exhausted() {
    let mut scanner = Scanner::new("(a b)");
    assert_eq!(scanner.scan_all().len(), 5);
    assert_eq!(scanner.next(), Err(ScanError::EndOfInput));
}

#[test]
fn positions_are_byte_offsets() {
    let mut scanner = Scanner::new("λ x");
    assert_eq!(
        scanner.scan_all(),
        vec![
            item(Token::Symbol(s("λ")), 0),
            item(Token::WhiteSpace(s(" ")), 2),
            item(Token::Symbol(s("x")), 3)
        ]
    );
    let mut scanner = Scanner::new("\u{a0}(");
    assert_eq!(
        scanner.scan_all(),
        vec![
            item(Token::WhiteSpace(s("\u{a0}")), 0),
            item(Token::LParen, 2)
        ]
    );
    let mut scanner = Scanner::new("\"日本\" €");
    assert_eq!(
        scanner.scan_all(),
        vec![
            item(Token::String(s("日本")), 0),
            item(Token::WhiteSpace(s(" ")), 8)
        ]
    );
    assert_eq!(
        scanner.next(),
        Err(ScanError::UnexpectedChar { ch: '€', position: 9 })
    );
}

#[test]
fn tokens_spell_the_line() {
    let line = "(déf (add x y)  '(+ x 1.5) \"s ť\")\t";
    let mut scanner = Scanner::new(line);
    let tokens = scanner.scan_all();
    let mut joined = String::new();
    for t in &tokens {
        assert_eq!(joined.len(), t.position);
        match &t.token {
            Token::LParen => joined.push('('),
            Token::RParen => joined.push(')'),
            Token::Quote => joined.push('\''),
            Token::String(x) => {
                joined.push('"');
                joined.push_str(x);
                joined.push('"');
            }
            Token::Symbol(x) | Token::Number(x) | Token::WhiteSpace(x) => joined.push_str(x),
        }
    }
    assert_eq!(joined, line);
}

#[test]
fn runs_are_maximal() {
    let mut scanner = Scanner::new("1.2.3ab-c!  x");
    assert_eq!(
        scanner.scan_all(),
        vec![
            item(Token::Number(s("1.2.3")), 0),
            item(Token::Symbol(s("ab-c!")), 5),
            item(Token::WhiteSpace(s("  ")), 10),
            item(Token::Symbol(s("x")), 12)
        ]
    );
}

#[test]
fn identifier_characters() {
    assert!(is_identifier('a'));
    assert!(is_identifier('λ'));
    for c in "-_@#$+=*&^%!".chars() {
        assert!(is_identifier(c));
    }
    assert!(!is_identifier('('));
    assert!(!is_identifier('1'));
    assert!(!is_identifier('/'));
}
