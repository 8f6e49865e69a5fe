use std::rc::Rc;

use lib::lexer::{starts_identifier, LexError, Token, Tokenizer};
use lib::parser::{Delimiter, ParseError, Parser};
use lib::value::Value;

type V = Value<f64, (), ()>;

fn numbers(tokens: Vec<Token<String>>) -> Vec<Token<f64>> {
    tokens
        .into_iter()
        .map(|t| match t {
            Token::LParen => Token::LParen,
            Token::RParen => Token::RParen,
            Token::Quote => Token::Quote,
            Token::Dot => Token::Dot,
            Token::Nil => Token::Nil,
            Token::String(s) => Token::String(s),
            Token::Symbol(s) => Token::Symbol(s),
            Token::Number(text) => Token::Number(text.parse::<f64>().unwrap()),
            Token::Boolean(b) => Token::Boolean(b),
        })
        .collect()
}

fn tokenize(input: &str) -> Result<Vec<Token<f64>>, LexError> {
    let mut tokenizer = Tokenizer::new(input);
    tokenizer.tokenize().map(numbers)
}

fn read_str(input: &str) -> Result<Vec<Rc<V>>, String> {
    let tokens = tokenize(input).map_err(|e| format!("{:?}", e))?;
    let mut parser = Parser::new(tokens);
    parser.parse().map_err(|e| format!("{:?}", e))
}

fn parse_tokens(tokens: Vec<Token<f64>>) -> Result<Vec<Rc<V>>, ParseError> {
    let mut parser = Parser::new(tokens);
    parser.parse()
}

#[test]
fn test_tokenizer_basic() {
    let input = "(define x (+ 1 2))";
    let tokens = tokenize(input).unwrap();

    assert_eq!(
        tokens,
        vec![
            Token::LParen,
            Token::Symbol("define".to_string()),
            Token::Symbol("x".to_string()),
            Token::LParen,
            Token::Symbol("+".to_string()),
            Token::Number(1.0),
            Token::Number(2.0),
            Token::RParen,
            Token::RParen,
        ]
    );
}

#[test]
fn test_tokenizer_with_strings() {
    let input = r#"(print "Hello, world!")"#;
    let tokens = tokenize(input).unwrap();

    assert_eq!(
        tokens,
        vec![
            Token::LParen,
            Token::Symbol("print".to_string()),
            Token::String("Hello, world!".to_string()),
            Token::RParen,
        ]
    );
}

#[test]
fn test_tokenizer_with_quotes() {
    let input = "'(1 2 3) 'symbol";
    let tokens = tokenize(input).unwrap();

    assert_eq!(
        tokens,
        vec![
            Token::Quote,
            Token::LParen,
            Token::Number(1.0),
            Token::Number(2.0),
            Token::Number(3.0),
            Token::RParen,
            Token::Quote,
            Token::Symbol("symbol".to_string()),
        ]
    );
}

#[test]
fn test_tokenizer_booleans() {
    let input = "#t #f";
    let tokens = tokenize(input).unwrap();

    assert_eq!(tokens, vec![Token::Boolean(true), Token::Boolean(false),]);
}

#[test]
fn test_tokenizer_comments() {
    let input = "; This is a comment\n(define x 42) ; another comment";
    let tokens = tokenize(input).unwrap();

    assert_eq!(
        tokens,
        vec![
            Token::LParen,
            Token::Symbol("define".to_string()),
            Token::Symbol("x".to_string()),
            Token::Number(42.0),
            Token::RParen,
        ]
    );
}

#[test]
fn test_tokenizer_escaped_strings() {
    let input = r#""Line 1\nLine 2""#;
    let tokens = tokenize(input).unwrap();

    assert_eq!(tokens, vec![Token::String("Line 1\nLine 2".to_string()),]);
}

#[test]
fn test_parser_simple() {
    let input = "(+ 1 2)";
    let ast = read_str(input).unwrap();

    assert_eq!(ast.len(), 1);

    let expr = &ast[0];
    assert!(expr.is_pair());

    if let Value::Pair(cons) = &**expr {
        let items = cons.to_vec().expect("Expected proper list");
        assert_eq!(items.len(), 3);
        assert_eq!(items[0], V::symbol("+"));
        assert_eq!(items[1], V::number(1.0));
        assert_eq!(items[2], V::number(2.0));
    } else {
        panic!("Expected pair");
    }
}

#[test]
fn test_parser_nested() {
    let input = "(define square (lambda (x) (* x x)))";
    let ast = read_str(input).unwrap();

    assert_eq!(ast.len(), 1);

    let expr = &ast[0];

    if let Value::Pair(outer_cons) = &**expr {
        let outer_items = outer_cons.to_vec().expect("Expected proper list");
        assert_eq!(outer_items.len(), 3);
        assert_eq!(outer_items[0], V::symbol("define"));
        assert_eq!(outer_items[1], V::symbol("square"));

        if let Value::Pair(lambda_cons) = &*outer_items[2] {
            let lambda_items = lambda_cons.to_vec().expect("Expected proper list");
            assert_eq!(lambda_items.len(), 3);
            assert_eq!(lambda_items[0], V::symbol("lambda"));

            if let Value::Pair(params_cons) = &*lambda_items[1] {
                let params = params_cons.to_vec().expect("Expected proper list");
                assert_eq!(params.len(), 1);
                assert_eq!(params[0], V::symbol("x"));
            } else {
                panic!("Expected params to be a pair");
            }

            if let Value::Pair(body_cons) = &*lambda_items[2] {
                let body = body_cons.to_vec().expect("Expected proper list");
                assert_eq!(body.len(), 3);
                assert_eq!(body[0], V::symbol("*"));
                assert_eq!(body[1], V::symbol("x"));
                assert_eq!(body[2], V::symbol("x"));
            } else {
                panic!("Expected body to be a pair");
            }
        } else {
            panic!("Expected lambda to be a pair");
        }
    } else {
        panic!("Expected outer expression to be a pair");
    }
}

#[test]
fn test_parser_quote() {
    let input = "'(1 2 3)";
    let ast = read_str(input).unwrap();

    assert_eq!(ast.len(), 1);

    let expr = &ast[0];

    if let Value::Pair(cons) = &**expr {
        let items = cons.to_vec().expect("Expected proper list");
        assert_eq!(items.len(), 2);
        assert_eq!(items[0], V::symbol("quote"));

        if let Value::Pair(quoted_cons) = &*items[1] {
            let quoted_items = quoted_cons.to_vec().expect("Expected proper list");
            assert_eq!(quoted_items.len(), 3);
            assert_eq!(quoted_items[0], V::number(1.0));
            assert_eq!(quoted_items[1], V::number(2.0));
            assert_eq!(quoted_items[2], V::number(3.0));
        } else {
            panic!("Expected quoted expression to be a pair");
        }
    } else {
        panic!("Expected quote expression to be a pair");
    }
}

#[test]
fn test_parser_multiple_expressions() {
    let input = "(define x 1) (define y 2) (+ x y)";
    let ast = read_str(input).unwrap();

    assert_eq!(ast.len(), 3);

    if let Value::Pair(cons1) = &*ast[0] {
        let items1 = cons1.to_vec().expect("Expected proper list");
        assert_eq!(items1.len(), 3);
        assert_eq!(items1[0], V::symbol("define"));
        assert_eq!(items1[1], V::symbol("x"));
        assert_eq!(items1[2], V::number(1.0));
    }

    if let Value::Pair(cons2) = &*ast[1] {
        let items2 = cons2.to_vec().expect("Expected proper list");
        assert_eq!(items2.len(), 3);
        assert_eq!(items2[0], V::symbol("define"));
        assert_eq!(items2[1], V::symbol("y"));
        assert_eq!(items2[2], V::number(2.0));
    }

    if let Value::Pair(cons3) = &*ast[2] {
        let items3 = cons3.to_vec().expect("Expected proper list");
        assert_eq!(items3.len(), 3);
        assert_eq!(items3[0], V::symbol("+"));
        assert_eq!(items3[1], V::symbol("x"));
        assert_eq!(items3[2], V::symbol("y"));
    }
}

#[test]
fn test_parser_strings() {
    let input = r#"(concat "Hello, " "world!")"#;
    let ast = read_str(input).unwrap();

    let expr = &ast[0];

    if let Value::Pair(cons) = &**expr {
        let items = cons.to_vec().expect("Expected proper list");
        assert_eq!(items.len(), 3);
        assert_eq!(items[0], V::symbol("concat"));
        assert_eq!(items[1], V::string("Hello, "));
        assert_eq!(items[2], V::string("world!"));
    } else {
        panic!("Expected pair");
    }
}

#[test]
fn test_parser_negative_numbers() {
    let input = "(- 10 -5)";
    let ast = read_str(input).unwrap();

    let expr = &ast[0];

    if let Value::Pair(cons) = &**expr {
        let items = cons.to_vec().expect("Expected proper list");
        assert_eq!(items.len(), 3);
        assert_eq!(items[0], V::symbol("-"));
        assert_eq!(items[1], V::number(10.0));
        assert_eq!(items[2], V::number(-5.0));
    } else {
        panic!("Expected pair");
    }
}

#[test]
fn test_parser_floats() {
    let input = "(+ 3.1 2.71)";
    let ast = read_str(input).unwrap();

    let expr = &ast[0];

    if let Value::Pair(cons) = &**expr {
        let items = cons.to_vec().expect("Expected proper list");
        assert_eq!(items.len(), 3);
        assert_eq!(items[0], V::symbol("+"));

        if let Value::Number(n1) = &*items[1] {
            assert!((*n1 - 3.1).abs() < 0.0001, "Expected ~3.1, got {}", n1);
        } else {
            panic!("Expected number");
        }

        if let Value::Number(n2) = &*items[2] {
            assert!((*n2 - 2.71).abs() < 0.0001, "Expected ~2.71, got {}", n2);
        } else {
            panic!("Expected number");
        }
    } else {
        panic!("Expected pair");
    }
}

#[test]
fn test_parser_empty_list() {
    let input = "()";
    let ast = read_str(input).unwrap();

    assert_eq!(ast.len(), 1);
    assert!(ast[0].is_nil());
}

#[test]
fn test_parser_dotted_pair() {
    let input = "(1 . 2)";
    let ast = read_str(input).unwrap();

    assert_eq!(ast.len(), 1);

    let expr = &ast[0];
    assert!(expr.is_pair());
    assert!(!expr.is_list());

    if let Value::Pair(cons) = &**expr {
        assert!(cons.to_vec().is_none());

        assert_eq!(cons.car, V::number(1.0));
        assert_eq!(cons.cdr, V::number(2.0));
    }
}

#[test]
fn test_parser_improper_list() {
    let input = "(1 2 . 3)";
    let ast = read_str(input).unwrap();

    assert_eq!(ast.len(), 1);

    let expr = &ast[0];
    assert!(expr.is_pair());
    assert!(!expr.is_list());

    if let Value::Pair(outer) = &**expr {
        assert_eq!(outer.car, V::number(1.0));

        if let Value::Pair(inner) = &*outer.cdr {
            assert_eq!(inner.car, V::number(2.0));
            assert_eq!(inner.cdr, V::number(3.0));
        } else {
            panic!("Expected inner pair");
        }
    }
}

#[test]
fn test_parser_nill() {
    let input = "nil";
    let ast = read_str(input).unwrap();
    println!("{:?}", ast);
    assert_eq!(ast.len(), 1);
    assert!(ast[0].is_nil());
}

#[test]
fn tokenizer_keeps_numeral_text() {
    let mut tokenizer = Tokenizer::new("-12.50 7.");
    let tokens = tokenizer.tokenize().unwrap();
    assert_eq!(
        tokens,
        vec![Token::Number("-12.50".to_string()), Token::Number("7.".to_string())]
    );
}

#[test]
fn tokenizer_reads_minus_alone_as_symbol() {
    let tokens = tokenize("(- x)").unwrap();
    assert_eq!(
        tokens,
        vec![
            Token::LParen,
            Token::Symbol("-".to_string()),
            Token::Symbol("x".to_string()),
            Token::RParen,
        ]
    );
}

#[test]
fn tokenizer_reads_dot_and_nil() {
    let tokens = tokenize("(a . nil)").unwrap();
    assert_eq!(
        tokens,
        vec![
            Token::LParen,
            Token::Symbol("a".to_string()),
            Token::Dot,
            Token::Nil,
            Token::RParen,
        ]
    );
}

#[test]
fn tokenizer_reports_unexpected_character() {
    let result = tokenize("(a\n  @)");
    assert_eq!(
        result,
        Err(LexError::UnexpectedCharacter { ch: '@', line: 2, column: 3 })
    );
}

#[test]
fn tokenizer_reports_unterminated_string() {
    assert_eq!(tokenize("\"abc"), Err(LexError::UnterminatedString));
}

#[test]
fn tokenizer_reports_unterminated_escape() {
    assert_eq!(tokenize("\"abc\\"), Err(LexError::UnterminatedEscape));
}

#[test]
fn tokenizer_handles_escapes() {
    let tokens = tokenize(r#""a\tb\\c\"d\q""#).unwrap();
    assert_eq!(tokens, vec![Token::String("a\tb\\c\"d\\q".to_string())]);
}

#[test]
fn parser_reports_unclosed_parenthesis() {
    assert_eq!(
        parse_tokens(tokenize("(1 2").unwrap()),
        Err(ParseError::UnclosedParenthesis)
    );
}

#[test]
fn parser_reports_unexpected_closing() {
    assert_eq!(
        parse_tokens(tokenize(")").unwrap()),
        Err(ParseError::UnexpectedToken { position: 0 })
    );
}

#[test]
fn parser_reports_end_after_quote() {
    assert_eq!(
        parse_tokens(tokenize("'").unwrap()),
        Err(ParseError::UnexpectedEndOfInput)
    );
}

#[test]
fn parser_reports_missing_close_after_dot() {
    assert_eq!(
        parse_tokens(tokenize("(1 . 2 3)").unwrap()),
        Err(ParseError::ExpectedToken { expected: Delimiter::RParen, found: Some(4) })
    );
}

#[test]
fn parser_reads_booleans_and_nil_tokens() {
    let ast = read_str("#t #f nil").unwrap();
    assert_eq!(ast, vec![V::bool(true), V::bool(false), V::nil()]);
}

#[test]
fn parser_reads_nested_quote() {
    let ast = read_str("''a").unwrap();
    let inner = V::list(&[V::symbol("quote"), V::symbol("a")]);
    assert_eq!(ast, vec![V::list(&[V::symbol("quote"), inner])]);
}

#[test]
fn identifier_start_rules() {
    assert!(starts_identifier(true, 'x'));
    assert!(starts_identifier(false, '+'));
    assert!(starts_identifier(false, '#'));
    assert!(!starts_identifier(false, '1'));
    assert!(!starts_identifier(false, '@'));
}

#[test]
fn tokenizer_reads_unicode_identifiers() {
    let tokens = tokenize("(привет λ2)").unwrap();
    assert_eq!(
        tokens,
        vec![
            Token::LParen,
            Token::Symbol("привет".to_string()),
            Token::Symbol("λ2".to_string()),
            Token::RParen,
        ]
    );
}
