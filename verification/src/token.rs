//! Token-level view of a regular expression: a token with a multiplicity
//! bound, the scanner that turns text into such tokens, and the greedy offset
//! enumeration for one token against a text.

use vstd::prelude::*;
use vstd::string::StrSliceExecFns;

verus! {

/// A single-character pattern: a literal, a character class, or `.`.
#[derive(PartialEq, Debug)]
pub enum Token {
    Literal(char),
    Class(Vec<char>),
    Any,
}

/// Mathematical image of a `Token`.
pub enum TokenV {
    Literal(char),
    Class(Seq<char>),
    Any,
}

impl View for Token {
    type V = TokenV;

    open spec fn view(&self) -> TokenV {
        match self {
            Token::Literal(c) => TokenV::Literal(*c),
            Token::Class(cs) => TokenV::Class(cs@),
            Token::Any => TokenV::Any,
        }
    }
}

/// Lower and upper bound on how often a token may repeat; `maximum == None`
/// means unbounded.
#[derive(PartialEq, Debug, Clone, Copy)]
pub struct Multiplicity {
    pub minimum: usize,
    pub maximum: Option<usize>,
}

/// Exactly once.
pub open spec fn mult_one() -> Multiplicity {
    Multiplicity { minimum: 1, maximum: Some(1) }
}

/// `?`: zero or one time.
pub open spec fn mult_optional() -> Multiplicity {
    Multiplicity { minimum: 0, maximum: Some(1) }
}

/// `+`: at least once.
pub open spec fn mult_one_or_more() -> Multiplicity {
    Multiplicity { minimum: 1, maximum: None }
}

/// `*`: any number of times.
pub open spec fn mult_zero_or_more() -> Multiplicity {
    Multiplicity { minimum: 0, maximum: None }
}

impl Multiplicity {
    pub fn one() -> (m: Multiplicity)
        ensures
            m == mult_one(),
    {
        Self::new(1, Some(1))
    }

    pub fn optional() -> (m: Multiplicity)
        ensures
            m == mult_optional(),
    {
        Self::new(0, Some(1))
    }

    pub fn one_or_more() -> (m: Multiplicity)
        ensures
            m == mult_one_or_more(),
    {
        Self::new(1, None)
    }

    pub fn zero_or_more() -> (m: Multiplicity)
        ensures
            m == mult_zero_or_more(),
    {
        Self::new(0, None)
    }

    pub fn new(min: usize, max: Option<usize>) -> (m: Multiplicity)
        ensures
            m == (Multiplicity { minimum: min, maximum: max }),
    {
        Multiplicity { minimum: min, maximum: max }
    }
}

/// A token with its multiplicity, or an anchoring position.
#[derive(PartialEq, Debug)]
pub enum Expression {
    BeginPosition,
    EndPosition,
    Token(Token, Multiplicity),
}

/// Mathematical image of an `Expression`.
pub enum ExpressionV {
    BeginPosition,
    EndPosition,
    Token(TokenV, Multiplicity),
}

impl View for Expression {
    type V = ExpressionV;

    open spec fn view(&self) -> ExpressionV {
        match self {
            Expression::BeginPosition => ExpressionV::BeginPosition,
            Expression::EndPosition => ExpressionV::EndPosition,
            Expression::Token(t, m) => ExpressionV::Token(t@, *m),
        }
    }
}

/// The characters one occurrence of the expression can consume: the literal
/// itself, the class members, or none for anchors and `.`.
pub open spec fn chars_of_expr(e: ExpressionV) -> Seq<char> {
    match e {
        ExpressionV::Token(t, _) => match t {
            TokenV::Literal(c) => seq![c],
            TokenV::Class(cs) => cs,
            TokenV::Any => Seq::empty(),
        },
        _ => Seq::empty(),
    }
}

/// Whether the expression is the `.` metacharacter.
pub open spec fn is_dot_expr(e: ExpressionV) -> bool {
    e matches ExpressionV::Token(TokenV::Any, _)
}

/// The expression's multiplicity; anchors count as exactly-once.
pub open spec fn mult_of_expr(e: ExpressionV) -> Multiplicity {
    match e {
        ExpressionV::Token(_, m) => m,
        _ => mult_one(),
    }
}

/// Whether the expression consumes this character: `.` takes everything but a
/// newline, otherwise the character must be among the valid ones.
pub open spec fn consumes_char(e: ExpressionV, c: char) -> bool {
    if is_dot_expr(e) {
        c != '\n'
    } else {
        chars_of_expr(e).contains(c)
    }
}

/// An offset the multiplicity bounds admit.
pub open spec fn offset_allowed(m: Multiplicity, k: usize) -> bool {
    k >= m.minimum && (match m.maximum {
        Some(mx) => k <= mx,
        None => true,
    })
}

/// Offset 0 is valid exactly when doing nothing with the expression is.
pub open spec fn base_offsets(m: Multiplicity) -> Seq<usize> {
    if m.minimum == 0 {
        seq![0usize]
    } else {
        Seq::empty()
    }
}

/// The admissible offsets among `1..=n`, in increasing order.
pub open spec fn allowed_upto(m: Multiplicity, n: usize) -> Seq<usize>
    decreases n,
{
    if n == 0 {
        Seq::empty()
    } else {
        let rest = allowed_upto(m, (n - 1) as usize);
        if offset_allowed(m, n) {
            rest.push(n)
        } else {
            rest
        }
    }
}

/// What `valid_offsets` returns, witnessed by the match length `ml`: the
/// longest prefix of `t` whose characters the expression can consume. The
/// result is offset 0 when the multiplicity admits consuming nothing,
/// followed by every admissible offset up to `ml`, in increasing order.
pub open spec fn offsets_ok(e: ExpressionV, t: Seq<char>, r: Seq<usize>, ml: int) -> bool {
    &&& 0 <= ml <= t.len()
    &&& (forall|j: int| 0 <= j < ml ==> consumes_char(e, #[trigger] t[j]))
    &&& (ml == t.len() || !consumes_char(e, t[ml]))
    &&& r == base_offsets(mult_of_expr(e)) + allowed_upto(mult_of_expr(e), ml as usize)
}

/// Whether the character occurs in the vector.
fn contains_char(v: &Vec<char>, c: char) -> (b: bool)
    ensures
        b == v@.contains(c),
{
    let mut i: usize = 0;
    while i < v.len()
        invariant
            i <= v@.len(),
            forall|m: int| 0 <= m < i ==> v@[m] != c,
        decreases v@.len() - i,
    {
        if v[i] == c {
            return true;
        }
        i = i + 1;
    }
    false
}

impl Expression {
    /// The stack of valid offsets for this expression against `text`: 0 when
    /// the multiplicity admits consuming nothing, then every admissible
    /// prefix length up to the longest prefix of consumable characters. The
    /// largest valid offsets end up on top, which is how greedy preference is
    /// encoded.
    pub fn valid_offsets(&self, text: &str) -> (r: Vec<usize>)
        ensures
            exists|ml: int| #[trigger] offsets_ok(self@, text@, r@, ml),
    {
        let mut valid_offsets: Vec<usize> = Vec::new();
        let mut valid_chars: Vec<char> = Vec::new();
        let mut expr_is_dot = false;
        let mut valid_multiplicity = Multiplicity::one();

        match self {
            Expression::Token(token, multiplicity) => {
                valid_multiplicity = *multiplicity;
                match token {
                    Token::Literal(value) => {
                        valid_chars.push(*value);
                        proof {
                            assert(valid_chars@ =~= chars_of_expr(self@));
                        }
                    },
                    Token::Class(values) => {
                        let mut i: usize = 0;
                        while i < values.len()
                            invariant
                                i <= values@.len(),
                                valid_chars@ == values@.take(i as int),
                            decreases values@.len() - i,
                        {
                            valid_chars.push(values[i]);
                            i = i + 1;
                            proof {
                                assert(values@.take(i as int) =~= values@.take(
                                    i as int - 1,
                                ).push(values@[i as int - 1]));
                            }
                        }
                        proof {
                            assert(values@.take(values@.len() as int) =~= values@);
                        }
                    },
                    Token::Any => {
                        expr_is_dot = true;
                    },
                }
            },
            _ => {},
        }
        let ghost m = mult_of_expr(self@);
        proof {
            assert(valid_chars@ == chars_of_expr(self@));
            assert(expr_is_dot == is_dot_expr(self@));
            assert(valid_multiplicity == m);
        }

        if valid_multiplicity.minimum == 0 {
            valid_offsets.push(0);
        }
        proof {
            assert(valid_offsets@ =~= base_offsets(m) + allowed_upto(m, 0));
        }

        let n = text.unicode_len();
        let mut offset: usize = 0;
        let mut i: usize = 0;
        let mut broke = false;
        while i < n && !broke
            invariant
                n == text@.len(),
                i <= n,
                offset == i,
                valid_chars@ == chars_of_expr(self@),
                expr_is_dot == is_dot_expr(self@),
                valid_multiplicity == m,
                forall|j: int| 0 <= j < i ==> consumes_char(self@, #[trigger] text@[j]),
                broke ==> i < n && !consumes_char(self@, text@[i as int]),
                valid_offsets@ == base_offsets(m) + allowed_upto(m, i),
            decreases n - i + (if broke { 0int } else { 1int }),
        {
            let c = text.get_char(i);
            let is_match = if expr_is_dot {
                c != '\n'
            } else {
                contains_char(&valid_chars, c)
            };
            if !is_match {
                broke = true;
            } else {
                offset = offset + 1;
                let mut push_it = offset >= valid_multiplicity.minimum;
                match valid_multiplicity.maximum {
                    Some(max) => {
                        if offset > max {
                            push_it = false;
                        }
                    },
                    None => {},
                }
                if push_it {
                    valid_offsets.push(offset);
                }
                i = i + 1;
                proof {
                    assert(push_it == offset_allowed(m, i));
                    if push_it {
                        assert(valid_offsets@ =~= base_offsets(m) + allowed_upto(m, i));
                    } else {
                        assert(valid_offsets@ =~= base_offsets(m) + allowed_upto(m, i));
                    }
                }
            }
        }
        proof {
            let ml: int = if broke {
                i as int
            } else {
                n as int
            };
            assert(offsets_ok(self@, text@, valid_offsets@, ml));
        }
        valid_offsets
    }
}

/// Why scanning failed.
pub enum ParseError {
    MissingClassStart,
    IncompleteClass,
    NoTokenBefore,
    InvalidTokenBefore,
}

/// The message each failure carries.
pub open spec fn error_text(e: ParseError) -> Seq<char> {
    match e {
        ParseError::MissingClassStart => "missing char class start `[`"@,
        ParseError::IncompleteClass => "incomplete char class, expected `]`"@,
        ParseError::NoTokenBefore => "no token before metacharacter"@,
        ParseError::InvalidTokenBefore => "invalid token before metacharacter"@,
    }
}

/// Re-bind the last scanned token to the multiplicity a metacharacter asks
/// for; fails when there is no last expression or it is not a token.
pub open spec fn apply_mult(acc: Seq<ExpressionV>, m: Multiplicity) -> Result<
    Seq<ExpressionV>,
    ParseError,
> {
    if acc.len() == 0 {
        Err(ParseError::NoTokenBefore)
    } else {
        match acc.last() {
            ExpressionV::Token(t, _) => Ok(acc.update(acc.len() - 1, ExpressionV::Token(t, m))),
            _ => Err(ParseError::InvalidTokenBefore),
        }
    }
}

/// The scanner, one character at a time: `acc` is what has been recognized,
/// `in_class` whether a `[` is open, `cacc` the characters gathered inside
/// it. Metacharacters re-bind the previous token's multiplicity, `.` and
/// plain characters append a token, `[`/`]` delimit a class.
pub open spec fn parse_from(
    cs: Seq<char>,
    i: int,
    acc: Seq<ExpressionV>,
    in_class: bool,
    cacc: Seq<char>,
) -> Result<Seq<ExpressionV>, ParseError>
    decreases cs.len() - i,
{
    if i < 0 || i >= cs.len() {
        if in_class {
            Err(ParseError::IncompleteClass)
        } else {
            Ok(acc)
        }
    } else {
        let c = cs[i];
        if in_class && c != ']' {
            parse_from(cs, i + 1, acc, true, cacc.push(c))
        } else if c == '?' {
            match apply_mult(acc, mult_optional()) {
                Ok(a2) => parse_from(cs, i + 1, a2, in_class, cacc),
                Err(e) => Err(e),
            }
        } else if c == '+' {
            match apply_mult(acc, mult_one_or_more()) {
                Ok(a2) => parse_from(cs, i + 1, a2, in_class, cacc),
                Err(e) => Err(e),
            }
        } else if c == '*' {
            match apply_mult(acc, mult_zero_or_more()) {
                Ok(a2) => parse_from(cs, i + 1, a2, in_class, cacc),
                Err(e) => Err(e),
            }
        } else if c == '.' {
            parse_from(cs, i + 1, acc.push(ExpressionV::Token(TokenV::Any, mult_one())), in_class, cacc)
        } else if c == '[' {
            parse_from(cs, i + 1, acc, true, Seq::empty())
        } else if c == ']' {
            if !in_class {
                Err(ParseError::MissingClassStart)
            } else {
                parse_from(
                    cs,
                    i + 1,
                    acc.push(ExpressionV::Token(TokenV::Class(cacc), mult_one())),
                    false,
                    cacc,
                )
            }
        } else {
            parse_from(
                cs,
                i + 1,
                acc.push(ExpressionV::Token(TokenV::Literal(c), mult_one())),
                in_class,
                cacc,
            )
        }
    }
}

/// The view of a scanned expression list.
pub open spec fn views_of(v: Seq<Expression>) -> Seq<ExpressionV> {
    v.map_values(|e: Expression| e@)
}

/// Give the most recently scanned token the multiplicity a metacharacter
/// asks for, exactly as `apply_mult` describes. On failure the popped
/// expression is not put back.
pub fn update_last_with_multiplicity<'a>(
    expressions: &mut Vec<Expression>,
    multiplicity: Multiplicity,
) -> (r: Result<(), &'a str>)
    ensures
        match r {
            Ok(_) => apply_mult(views_of(old(expressions)@), multiplicity) == Ok::<
                _,
                ParseError,
            >(views_of(final(expressions)@)),
            Err(m) => {
                &&& apply_mult(views_of(old(expressions)@), multiplicity) matches Err(pe) && m@
                    == error_text(pe)
                &&& final(expressions)@ == if old(expressions)@.len() == 0 {
                    old(expressions)@
                } else {
                    old(expressions)@.drop_last()
                }
            },
        },
{
    let ghost pre = views_of(expressions@);
    match expressions.pop() {
        Some(value) => {
            match value {
                Expression::Token(token, _) => {
                    expressions.push(Expression::Token(token, multiplicity));
                    proof {
                        assert(views_of(expressions@) =~= pre.update(
                            pre.len() - 1,
                            ExpressionV::Token(pre.last()->Token_0, multiplicity),
                        ));
                    }
                    Ok(())
                },
                _ => {
                    proof {
                        assert(pre.last() is BeginPosition || pre.last() is EndPosition);
                    }
                    Err("invalid token before metacharacter")
                },
            }
        },
        None => Err("no token before metacharacter"),
    }
}

/// Scan a textual regular expression into a list of expressions, as
/// `parse_from` describes, or fail with the first error it meets.
pub fn parse_expressions<'a>(text: &str) -> (r: Result<Vec<Expression>, &'a str>)
    ensures
        ({
            let sr = parse_from(text@, 0, Seq::empty(), false, Seq::empty());
            match r {
                Ok(v) => sr == Ok::<_, ParseError>(views_of(v@)),
                Err(m) => sr matches Err(pe) && m@ == error_text(pe),
            }
        }),
{
    let mut result: Vec<Expression> = Vec::new();
    let mut in_char_class = false;
    let mut chars_in_class: Vec<char> = Vec::new();
    let n = text.unicode_len();
    let mut i: usize = 0;
    proof {
        assert(views_of(result@) =~= Seq::<ExpressionV>::empty());
        assert(chars_in_class@ =~= Seq::<char>::empty());
    }
    while i < n
        invariant
            n == text@.len(),
            i <= n,
            parse_from(text@, 0, Seq::empty(), false, Seq::empty()) == parse_from(
                text@,
                i as int,
                views_of(result@),
                in_char_class,
                chars_in_class@,
            ),
        decreases n - i,
    {
        let ghost pre_acc = views_of(result@);
        let c = text.get_char(i);
        if in_char_class && c != ']' {
            chars_in_class.push(c);
        } else if c == '?' {
            match update_last_with_multiplicity(&mut result, Multiplicity::optional()) {
                Ok(_) => (),
                Err(e) => {
                    return Err(e);
                },
            }
        } else if c == '+' {
            match update_last_with_multiplicity(&mut result, Multiplicity::one_or_more()) {
                Ok(_) => (),
                Err(e) => {
                    return Err(e);
                },
            }
        } else if c == '*' {
            match update_last_with_multiplicity(&mut result, Multiplicity::zero_or_more()) {
                Ok(_) => (),
                Err(e) => {
                    return Err(e);
                },
            }
        } else if c == '.' {
            result.push(Expression::Token(Token::Any, Multiplicity::one()));
            proof {
                assert(views_of(result@) =~= pre_acc.push(
                    ExpressionV::Token(TokenV::Any, mult_one()),
                ));
            }
        } else if c == '[' {
            in_char_class = true;
            chars_in_class.clear();
        } else if c == ']' {
            if !in_char_class {
                return Err("missing char class start `[`");
            }
            in_char_class = false;
            result.push(Expression::Token(Token::Class(clone_class_chars(&chars_in_class)), Multiplicity::one()));
            proof {
                assert(views_of(result@) =~= pre_acc.push(
                    ExpressionV::Token(TokenV::Class(chars_in_class@), mult_one()),
                ));
            }
        } else {
            result.push(Expression::Token(Token::Literal(c), Multiplicity::one()));
            proof {
                assert(views_of(result@) =~= pre_acc.push(
                    ExpressionV::Token(TokenV::Literal(c), mult_one()),
                ));
            }
        }
        i = i + 1;
    }
    if in_char_class {
        return Err("incomplete char class, expected `]`");
    }
    Ok(result)
}

/// A fresh character vector with the same contents.
fn clone_class_chars(v: &Vec<char>) -> (r: Vec<char>)
    ensures
        r@ == v@,
{
    let mut r: Vec<char> = Vec::new();
    let mut i: usize = 0;
    while i < v.len()
        invariant
            i <= v@.len(),
            r@ == v@.take(i as int),
        decreases v@.len() - i,
    {
        r.push(v[i]);
        i = i + 1;
        proof {
            assert(v@.take(i as int) =~= v@.take(i as int - 1).push(v@[i as int - 1]));
        }
    }
    proof {
        assert(v@.take(v@.len() as int) =~= v@);
    }
    r
}

} // verus!
