use regex_nfa::token::{parse_expressions, update_last_with_multiplicity, Expression, Multiplicity, Token};

#[test]
fn parses_single_literal() {
    assert_eq!(
        vec![Expression::Token(Token::Literal('a'), Multiplicity::one())],
        parse_expressions("a").unwrap()
    )
}

#[test]
fn parses_many_literals() {
    assert_eq!(6, parse_expressions("abcxyz").unwrap().len());
}

#[test]
fn handles_optional_multiplicity() {
    assert_eq!(
        vec![Expression::Token(
            Token::Literal('a'),
            Multiplicity::optional()
        )],
        parse_expressions("a?").unwrap()
    );

    assert!(parse_expressions("?").is_err());
    assert!(parse_expressions("??").is_err());
}

#[test]
fn handles_one_or_more_multiplicity() {
    assert_eq!(
        vec![Expression::Token(
            Token::Literal('a'),
            Multiplicity::one_or_more()
        )],
        parse_expressions("a+").unwrap()
    );

    assert!(parse_expressions("+").is_err());
    assert!(parse_expressions("++").is_err());
}

#[test]
fn handles_zero_or_more_multiplicity() {
    assert_eq!(
        vec![Expression::Token(
            Token::Literal('a'),
            Multiplicity::zero_or_more()
        )],
        parse_expressions("a*").unwrap()
    );
}

#[test]
fn handles_character_class() {
    assert_eq!(
        vec![Expression::Token(
            Token::Class(vec!['x', 'y', 'z']),
            Multiplicity::one()
        )],
        parse_expressions("[xyz]").unwrap()
    );

    assert!(parse_expressions("]").is_err());
    assert!(parse_expressions("[").is_err());
    assert!(parse_expressions("[]").is_ok());
}

#[test]
fn handles_dot() {
    assert_eq!(
        vec![Expression::Token(Token::Any, Multiplicity::one())],
        parse_expressions(".").unwrap()
    );
}

#[test]
fn reports_each_scan_error() {
    assert_eq!(Err("no token before metacharacter"), parse_expressions("*"));
    assert_eq!(
        Err("missing char class start `[`"),
        parse_expressions("ab]")
    );
    assert_eq!(
        Err("incomplete char class, expected `]`"),
        parse_expressions("a[bc")
    );
    let mut exprs = vec![Expression::BeginPosition];
    assert_eq!(
        Err("invalid token before metacharacter"),
        update_last_with_multiplicity(&mut exprs, Multiplicity::optional())
    );
    // the offending expression was popped and not restored
    assert_eq!(0, exprs.len());

    let mut empty: Vec<Expression> = Vec::new();
    assert_eq!(
        Err("no token before metacharacter"),
        update_last_with_multiplicity(&mut empty, Multiplicity::one_or_more())
    );
    assert_eq!(0, empty.len());
}

#[test]
fn rebinding_keeps_earlier_expressions() {
    let mut exprs = vec![
        Expression::Token(Token::Literal('a'), Multiplicity::one()),
        Expression::Token(Token::Literal('b'), Multiplicity::one()),
    ];
    assert_eq!(
        Ok(()),
        update_last_with_multiplicity(&mut exprs, Multiplicity::zero_or_more())
    );
    assert_eq!(
        vec![
            Expression::Token(Token::Literal('a'), Multiplicity::one()),
            Expression::Token(Token::Literal('b'), Multiplicity::zero_or_more()),
        ],
        exprs
    );
}

#[test]
fn multiplicity_constructors() {
    assert_eq!(Multiplicity::new(1, Some(1)), Multiplicity::one());
    assert_eq!(Multiplicity::new(0, Some(1)), Multiplicity::optional());
    assert_eq!(Multiplicity::new(1, None), Multiplicity::one_or_more());
    assert_eq!(Multiplicity::new(0, None), Multiplicity::zero_or_more());
    let m = Multiplicity::new(2, Some(5));
    assert_eq!(2, m.minimum);
    assert_eq!(Some(5), m.maximum);
}

#[test]
fn offsets_for_literal_repetition() {
    let e = Expression::Token(Token::Literal('a'), Multiplicity::one_or_more());
    assert_eq!(vec![1, 2, 3], e.valid_offsets("aaab"));

    let e = Expression::Token(Token::Literal('a'), Multiplicity::one());
    assert_eq!(vec![1], e.valid_offsets("aaab"));

    let e = Expression::Token(Token::Literal('a'), Multiplicity::optional());
    assert_eq!(vec![0, 1], e.valid_offsets("aaab"));

    let e = Expression::Token(Token::Literal('a'), Multiplicity::zero_or_more());
    assert_eq!(vec![0, 1, 2, 3], e.valid_offsets("aaab"));

    let e = Expression::Token(Token::Literal('a'), Multiplicity::new(2, Some(3)));
    assert_eq!(vec![2, 3], e.valid_offsets("aaaaa"));
}

#[test]
fn offsets_for_class_dot_and_anchors() {
    let e = Expression::Token(Token::Class(vec!['x', 'y']), Multiplicity::one_or_more());
    assert_eq!(vec![1, 2], e.valid_offsets("xyz"));

    // the dot consumes anything but a newline
    let e = Expression::Token(Token::Any, Multiplicity::zero_or_more());
    assert_eq!(vec![0, 1, 2], e.valid_offsets("ab\ncd"));

    let e = Expression::BeginPosition;
    let empty: Vec<usize> = Vec::new();
    assert_eq!(empty, e.valid_offsets("abc"));

    let e = Expression::Token(Token::Literal('q'), Multiplicity::one());
    assert_eq!(empty, e.valid_offsets("abc"));
}
