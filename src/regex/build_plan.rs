//! An owned expression tree, used to describe a pattern before it is compiled into an arena.
//! The same tree is the mathematical model of every compiled expression.
use vstd::prelude::*;
use vstd::string::*;

verus! {

/// An expression with ordinary owned edges.
#[derive(Debug)]
pub enum Re {
    /// The language holding only the empty string.
    Unit,
    /// The empty language.
    Empty,
    Literal(char),
    Alt(Box<Re>, Box<Re>),
    Concat(Box<Re>, Box<Re>),
    Repeat(Box<Re>),
}

/// The tree that a string literal stands for: one `Literal` per character, sequenced to the
/// right; `Unit` for the empty string.
pub open spec fn str_plan(s: Seq<char>) -> Re
    decreases s.len(),
{
    if s.len() == 0 {
        Re::Unit
    } else if s.len() == 1 {
        Re::Literal(s[0])
    } else {
        Re::Concat(Box::new(Re::Literal(s[0])), Box::new(str_plan(s.drop_first())))
    }
}

impl Re {
    pub fn char(c: char) -> (r: Self)
        ensures
            r == Re::Literal(c),
    {
        Re::Literal(c)
    }
}

/// A single-character pattern.
pub fn literal(c: char) -> (r: Re)
    ensures
        r == Re::Literal(c),
{
    Re::Literal(c)
}

/// The pattern that matches exactly the string `s`.
pub fn literal_str(s: &str) -> (r: Re)
    ensures
        r == str_plan(s@),
{
    let n = s.unicode_len();
    if n == 0 {
        return Re::Unit;
    }
    let mut r = Re::Literal(s.get_char(n - 1));
    let mut i: usize = n - 1;
    assert(s@.subrange(i as int, n as int).drop_first().len() == 0);
    while i > 0
        invariant
            n == s@.len(),
            i < n,
            r == str_plan(s@.subrange(i as int, n as int)),
        decreases i,
    {
        i = i - 1;
        let c = s.get_char(i);
        assert(s@.subrange(i as int, n as int).drop_first() =~= s@.subrange(i + 1, n as int));
        r = Re::Concat(Box::new(Re::Literal(c)), Box::new(r));
    }
    assert(s@.subrange(0, n as int) =~= s@);
    r
}

/// Either `a` or `b`.
pub fn alt(a: Re, b: Re) -> (r: Re)
    ensures
        r == Re::Alt(Box::new(a), Box::new(b)),
{
    Re::Alt(Box::new(a), Box::new(b))
}

/// `a` followed by `b`.
pub fn seq(a: Re, b: Re) -> (r: Re)
    ensures
        r == Re::Concat(Box::new(a), Box::new(b)),
{
    Re::Concat(Box::new(a), Box::new(b))
}

/// Any number of repetitions of `a`, none included.
pub fn star(a: Re) -> (r: Re)
    ensures
        r == Re::Repeat(Box::new(a)),
{
    Re::Repeat(Box::new(a))
}

/// Values that stand for a pattern, with combinators that build on them.
pub trait ImplicitRe: Sized {
    /// The pattern this value stands for.
    spec fn plan_of(self) -> Re;

    fn re(self) -> (r: Re)
        ensures
            r == self.plan_of(),
    ;

    /// The pattern, boxed.
    fn into_boxed(self) -> (r: Box<Re>)
        ensures
            *r == self.plan_of(),
    ;

    /// Either this pattern or `rhs` (any `ImplicitRe` value turns into one by `re`).
    fn alt(self, rhs: Re) -> (r: Re)
        ensures
            r == Re::Alt(Box::new(self.plan_of()), Box::new(rhs)),
    ;

    /// This pattern followed by `rhs`.
    fn seq(self, rhs: Re) -> (r: Re)
        ensures
            r == Re::Concat(Box::new(self.plan_of()), Box::new(rhs)),
    ;

    /// Any number of repetitions of this pattern.
    fn star(self) -> (r: Re)
        ensures
            r == Re::Repeat(Box::new(self.plan_of())),
    ;
}

impl ImplicitRe for Re {
    open spec fn plan_of(self) -> Re {
        self
    }

    fn re(self) -> (r: Re) {
        self
    }

    fn into_boxed(self) -> (r: Box<Re>) {
        Box::new(self)
    }

    fn alt(self, rhs: Re) -> (r: Re) {
        let a = self;
        Re::Alt(Box::new(a), Box::new(rhs))
    }

    fn seq(self, rhs: Re) -> (r: Re) {
        let a = self;
        Re::Concat(Box::new(a), Box::new(rhs))
    }

    fn star(self) -> (r: Re) {
        Re::Repeat(Box::new(self))
    }
}

impl ImplicitRe for char {
    open spec fn plan_of(self) -> Re {
        Re::Literal(self)
    }

    fn re(self) -> (r: Re) {
        Re::Literal(self)
    }

    fn into_boxed(self) -> (r: Box<Re>) {
        Box::new(Re::Literal(self))
    }

    fn alt(self, rhs: Re) -> (r: Re) {
        let a = Re::Literal(self);
        Re::Alt(Box::new(a), Box::new(rhs))
    }

    fn seq(self, rhs: Re) -> (r: Re) {
        let a = Re::Literal(self);
        Re::Concat(Box::new(a), Box::new(rhs))
    }

    fn star(self) -> (r: Re) {
        Re::Repeat(Box::new(Re::Literal(self)))
    }
}

impl<'a> ImplicitRe for &'a str {
    open spec fn plan_of(self) -> Re {
        str_plan(self@)
    }

    fn re(self) -> (r: Re) {
        literal_str(self)
    }

    fn into_boxed(self) -> (r: Box<Re>) {
        Box::new(literal_str(self))
    }

    fn alt(self, rhs: Re) -> (r: Re) {
        let a = literal_str(self);
        Re::Alt(Box::new(a), Box::new(rhs))
    }

    fn seq(self, rhs: Re) -> (r: Re) {
        let a = literal_str(self);
        Re::Concat(Box::new(a), Box::new(rhs))
    }

    fn star(self) -> (r: Re) {
        Re::Repeat(Box::new(literal_str(self)))
    }
}

} // verus!
