//! The regular-expression syntax tree that the automaton builder lowers.
//! The lexer that produces such trees lives outside this crate; tests and
//! callers assemble trees directly through the constructors below.

use vstd::prelude::*;

verus! {

/// One node of a parsed regular expression.
#[derive(PartialEq, Debug)]
pub enum Expr {
    /// `.`: matches any single byte.
    Any,
    /// A literal character; must be representable as a single byte.
    Single(char),
    /// `[...]`: any character out of the listed ones.
    Class(Vec<char>),
    /// Two expressions one after the other.
    Sequence(Box<Expr>, Box<Expr>),
    /// `e?`: zero or one occurrence.
    Optional(Box<Expr>),
    /// `e+`: one or more occurrences.
    OneOrMore(Box<Expr>),
    /// `e*`: zero or more occurrences.
    ZeroOrMore(Box<Expr>),
    /// `a|b`: either alternative.
    Or(Box<Expr>, Box<Expr>),
}

/// A character the builder accepts: one that encodes as a single byte.
pub open spec fn single_byte(c: char) -> bool {
    (c as int) < 128
}

impl Expr {
    /// Every literal and class character in the tree is single-byte
    /// representable; the upstream lexer is trusted to guarantee this.
    pub open spec fn single_byte_chars(&self) -> bool
        decreases self,
    {
        match self {
            Expr::Any => true,
            Expr::Single(c) => single_byte(*c),
            Expr::Class(cs) => forall|j: int| 0 <= j < cs@.len() ==> single_byte(#[trigger] cs@[j]),
            Expr::Sequence(a, b) => a.single_byte_chars() && b.single_byte_chars(),
            Expr::Optional(e) => e.single_byte_chars(),
            Expr::OneOrMore(e) => e.single_byte_chars(),
            Expr::ZeroOrMore(e) => e.single_byte_chars(),
            Expr::Or(a, b) => a.single_byte_chars() && b.single_byte_chars(),
        }
    }

    /// A leaf pattern: a literal, a class, or the wildcard.
    pub open spec fn is_atom(&self) -> bool {
        match self {
            Expr::Any => true,
            Expr::Single(_) => true,
            Expr::Class(_) => true,
            _ => false,
        }
    }

    /// The shape the token scanner produces: atoms and sequencing, with
    /// repetition and option applied to single atoms only. Every loop body
    /// then consumes a byte, which keeps priority resolution terminating.
    pub open spec fn is_token_tree(&self) -> bool
        decreases self,
    {
        match self {
            Expr::Any => true,
            Expr::Single(_) => true,
            Expr::Class(_) => true,
            Expr::Sequence(a, b) => a.is_token_tree() && b.is_token_tree(),
            Expr::Optional(e) => e.is_atom(),
            Expr::OneOrMore(e) => e.is_atom(),
            Expr::ZeroOrMore(e) => e.is_atom(),
            Expr::Or(_, _) => false,
        }
    }

    /// A tree of literals, classes and wildcards joined by sequencing alone:
    /// no alternation and no repetition, so the builder emits no split state
    /// for it.
    pub open spec fn is_literal_chain(&self) -> bool
        decreases self,
    {
        match self {
            Expr::Any => true,
            Expr::Single(_) => true,
            Expr::Class(_) => true,
            Expr::Sequence(a, b) => a.is_literal_chain() && b.is_literal_chain(),
            _ => false,
        }
    }

    /// Number of automaton states the builder appends for this tree.
    pub open spec fn size(&self) -> nat
        decreases self,
    {
        match self {
            Expr::Any => 1,
            Expr::Single(_) => 1,
            Expr::Class(_) => 1,
            Expr::Sequence(a, b) => a.size() + b.size(),
            Expr::Optional(e) => e.size() + 1,
            Expr::OneOrMore(e) => e.size() + 1,
            Expr::ZeroOrMore(e) => e.size() + 1,
            Expr::Or(a, b) => a.size() + b.size() + 1,
        }
    }

    /// A sequence node, boxing both sides.
    pub fn sequence(a: Expr, b: Expr) -> (r: Expr)
        ensures
            r == Expr::Sequence(Box::new(a), Box::new(b)),
    {
        Expr::Sequence(Box::new(a), Box::new(b))
    }

    /// An optional node.
    pub fn optional(e: Expr) -> (r: Expr)
        ensures
            r == Expr::Optional(Box::new(e)),
    {
        Expr::Optional(Box::new(e))
    }

    /// A one-or-more repetition node.
    pub fn one_or_more(e: Expr) -> (r: Expr)
        ensures
            r == Expr::OneOrMore(Box::new(e)),
    {
        Expr::OneOrMore(Box::new(e))
    }

    /// A zero-or-more repetition node.
    pub fn zero_or_more(e: Expr) -> (r: Expr)
        ensures
            r == Expr::ZeroOrMore(Box::new(e)),
    {
        Expr::ZeroOrMore(Box::new(e))
    }

    /// An alternation node.
    pub fn or(a: Expr, b: Expr) -> (r: Expr)
        ensures
            r == Expr::Or(Box::new(a), Box::new(b)),
    {
        Expr::Or(Box::new(a), Box::new(b))
    }
}

} // verus!
