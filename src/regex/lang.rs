//! What an expression means: its language, its derivative, its simplification, and the laws
//! that tie them together.
use crate::regex::build_plan::Re;
use vstd::prelude::*;

verus! {

/// Whether the language of `r` holds the empty string.
pub open spec fn nullable(r: Re) -> bool
    decreases r,
{
    match r {
        Re::Empty => false,
        Re::Unit => true,
        Re::Literal(_) => false,
        Re::Alt(a, b) => nullable(*a) || nullable(*b),
        Re::Concat(a, b) => nullable(*a) && nullable(*b),
        Re::Repeat(_) => true,
    }
}

/// Whether the string `s` belongs to the language of `r`.
pub open spec fn in_lang(r: Re, s: Seq<char>) -> bool
    decreases s.len(), r,
{
    match r {
        Re::Empty => false,
        Re::Unit => s.len() == 0,
        Re::Literal(c) => s == seq![c],
        Re::Alt(a, b) => in_lang(*a, s) || in_lang(*b, s),
        Re::Concat(a, b) => exists|i: int|
            0 <= i <= s.len() && in_lang(*a, #[trigger] s.subrange(0, i)) && in_lang(
                *b,
                s.subrange(i, s.len() as int),
            ),
        Re::Repeat(a) => s.len() == 0 || exists|i: int|
            1 <= i <= s.len() && in_lang(*a, #[trigger] s.subrange(0, i)) && in_lang(
                Re::Repeat(a),
                s.subrange(i, s.len() as int),
            ),
    }
}

/// The Brzozowski derivative of `r` by `c`.
pub open spec fn deriv(r: Re, c: char) -> Re
    decreases r,
{
    match r {
        Re::Empty => Re::Empty,
        Re::Unit => Re::Empty,
        Re::Literal(d) => if c == d {
            Re::Unit
        } else {
            Re::Empty
        },
        Re::Alt(a, b) => Re::Alt(Box::new(deriv(*a, c)), Box::new(deriv(*b, c))),
        Re::Concat(a, b) => if nullable(*a) {
            Re::Alt(
                Box::new(Re::Concat(Box::new(deriv(*a, c)), b)),
                Box::new(deriv(*b, c)),
            )
        } else {
            Re::Concat(Box::new(deriv(*a, c)), b)
        },
        Re::Repeat(a) => Re::Concat(Box::new(deriv(*a, c)), Box::new(Re::Repeat(a))),
    }
}

/// Whether `simp` rebuilds `Alt(x, y)` rather than returning one of its simplified children.
pub open spec fn alt_is_new(x: Re, y: Re) -> bool {
    !(x is Empty) && !(y is Empty) && x != y
}

/// Whether `simp` rebuilds `Concat(x, y)` rather than returning one of its simplified children.
pub open spec fn concat_is_new(x: Re, y: Re) -> bool {
    !(x is Empty) && !(y is Empty) && !(x is Unit) && !(y is Unit)
}

/// The bottom-up simplification: `Empty` is dropped from alternations and absorbs sequences,
/// `Unit` is dropped from sequences, and an alternation of two equal sides is one side.
pub open spec fn simp(r: Re) -> Re
    decreases r,
{
    match r {
        Re::Alt(a, b) => {
            let x = simp(*a);
            let y = simp(*b);
            if x is Empty {
                y
            } else if y is Empty {
                x
            } else if x == y {
                x
            } else {
                Re::Alt(Box::new(x), Box::new(y))
            }
        },
        Re::Concat(a, b) => {
            let x = simp(*a);
            let y = simp(*b);
            if x is Empty {
                x
            } else if y is Empty {
                y
            } else if x is Unit {
                y
            } else if y is Unit {
                x
            } else {
                Re::Concat(Box::new(x), Box::new(y))
            }
        },
        _ => r,
    }
}

/// The number of nodes of `r`.
pub open spec fn size(r: Re) -> nat
    decreases r,
{
    match r {
        Re::Alt(a, b) => 1 + size(*a) + size(*b),
        Re::Concat(a, b) => 1 + size(*a) + size(*b),
        Re::Repeat(a) => 1 + size(*a),
        _ => 1,
    }
}

/// The number of nodes that simplifying `r` allocates, those later dropped included.
pub open spec fn simp_cost(r: Re) -> nat
    decreases r,
{
    match r {
        Re::Alt(a, b) => simp_cost(*a) + simp_cost(*b) + if alt_is_new(simp(*a), simp(*b)) {
            1nat
        } else {
            0nat
        },
        Re::Concat(a, b) => simp_cost(*a) + simp_cost(*b) + if concat_is_new(
            simp(*a),
            simp(*b),
        ) {
            1nat
        } else {
            0nat
        },
        _ => size(r),
    }
}

/// One matching step: the simplified derivative.
pub open spec fn step(r: Re, c: char) -> Re {
    simp(deriv(r, c))
}

/// The expression left after matching every character of `s` in turn.
pub open spec fn ders(r: Re, s: Seq<char>) -> Re
    decreases s.len(),
{
    if s.len() == 0 {
        r
    } else {
        ders(step(r, s[0]), s.drop_first())
    }
}

/// Whether every derivative taken while matching `s` against `r` fits in the address space.
pub open spec fn ders_fit(r: Re, s: Seq<char>) -> bool
    decreases s.len(),
{
    s.len() == 0 || (size(deriv(r, s[0])) <= usize::MAX && ders_fit(step(r, s[0]), s.drop_first()))
}

/// An expression is nullable exactly when its language holds the empty string.
pub proof fn lemma_nullable(r: Re)
    ensures
        nullable(r) == in_lang(r, Seq::<char>::empty()),
    decreases r,
{
    let e = Seq::<char>::empty();
    match r {
        Re::Alt(a, b) => {
            lemma_nullable(*a);
            lemma_nullable(*b);
        },
        Re::Literal(c) => {
            assert(seq![c].len() == 1);
        },
        Re::Concat(a, b) => {
            lemma_nullable(*a);
            lemma_nullable(*b);
            assert(e.subrange(0, 0) =~= e);
            if nullable(r) {
                lemma_concat_intro(*a, *b, e, 0);
            }
        },
        _ => {},
    }
}

/// A split of `s` into a word of `a` and a word of `b` puts `s` in the language of `a b`.
proof fn lemma_concat_intro(a: Re, b: Re, s: Seq<char>, i: int)
    requires
        0 <= i <= s.len(),
        in_lang(a, s.subrange(0, i)),
        in_lang(b, s.subrange(i, s.len() as int)),
    ensures
        in_lang(Re::Concat(Box::new(a), Box::new(b)), s),
{
    assert(exists|k: int|
        0 <= k <= s.len() && in_lang(a, s.subrange(0, k)) && in_lang(
            b,
            s.subrange(k, s.len() as int),
        ));
}

/// A non-empty word of `a` followed by a word of `a*` is a word of `a*`.
proof fn lemma_repeat_intro(a: Re, s: Seq<char>, i: int)
    requires
        1 <= i <= s.len(),
        in_lang(a, s.subrange(0, i)),
        in_lang(Re::Repeat(Box::new(a)), s.subrange(i, s.len() as int)),
    ensures
        in_lang(Re::Repeat(Box::new(a)), s),
{
    assert(exists|k: int|
        1 <= k <= s.len() && in_lang(a, s.subrange(0, k)) && in_lang(
            Re::Repeat(Box::new(a)),
            s.subrange(k, s.len() as int),
        ));
}

/// The derivative law: `s` is in the language of `deriv(r, c)` exactly when `c` followed by
/// `s` is in the language of `r`.
pub proof fn lemma_deriv(r: Re, c: char, s: Seq<char>)
    ensures
        in_lang(deriv(r, c), s) == in_lang(r, seq![c] + s),
    decreases r,
{
    let cs = seq![c] + s;
    match r {
        Re::Empty => {},
        Re::Unit => {},
        Re::Literal(d) => {
            if s.len() == 0 {
                assert(cs =~= seq![c]);
            } else {
                assert(cs.len() != 1);
            }
            if cs == seq![d] {
                assert(cs[0] == d);
            }
        },
        Re::Alt(a, b) => {
            lemma_deriv(*a, c, s);
            lemma_deriv(*b, c, s);
        },
        Re::Concat(a, b) => {
            let da = deriv(*a, c);
            let left = Re::Concat(Box::new(da), b);
            lemma_nullable(*a);
            lemma_deriv(*b, c, s);
            if in_lang(left, s) {
                let i = lemma_concat_elim(da, *b, s);
                lemma_deriv(*a, c, s.subrange(0, i));
                assert(seq![c] + s.subrange(0, i) =~= cs.subrange(0, i + 1));
                assert(s.subrange(i, s.len() as int) =~= cs.subrange(i + 1, cs.len() as int));
                lemma_concat_intro(*a, *b, cs, i + 1);
            }
            assert(cs.subrange(0, 0) =~= Seq::<char>::empty());
            assert(cs.subrange(0, cs.len() as int) =~= cs);
            if nullable(*a) && in_lang(deriv(*b, c), s) {
                lemma_concat_intro(*a, *b, cs, 0);
            }
            if in_lang(r, cs) {
                let j = lemma_concat_elim(*a, *b, cs);
                if j == 0 {
                    assert(nullable(*a));
                    assert(in_lang(deriv(r, c), s));
                } else {
                    lemma_deriv(*a, c, s.subrange(0, j - 1));
                    assert(seq![c] + s.subrange(0, j - 1) =~= cs.subrange(0, j));
                    assert(s.subrange(j - 1, s.len() as int) =~= cs.subrange(j, cs.len() as int));
                    lemma_concat_intro(da, *b, s, j - 1);
                }
            }
        },
        Re::Repeat(a) => {
            let da = deriv(*a, c);
            if in_lang(deriv(r, c), s) {
                let i = lemma_concat_elim(da, r, s);
                lemma_deriv(*a, c, s.subrange(0, i));
                assert(seq![c] + s.subrange(0, i) =~= cs.subrange(0, i + 1));
                assert(s.subrange(i, s.len() as int) =~= cs.subrange(i + 1, cs.len() as int));
                lemma_repeat_intro(*a, cs, i + 1);
            }
            if in_lang(r, cs) {
                let j = lemma_repeat_elim(*a, cs);
                lemma_deriv(*a, c, s.subrange(0, j - 1));
                assert(seq![c] + s.subrange(0, j - 1) =~= cs.subrange(0, j));
                assert(s.subrange(j - 1, s.len() as int) =~= cs.subrange(j, cs.len() as int));
                lemma_concat_intro(da, r, s, j - 1);
            }
        },
    }
}

/// A word of `a b` splits into a word of `a` and a word of `b`.
proof fn lemma_concat_elim(a: Re, b: Re, s: Seq<char>) -> (i: int)
    requires
        in_lang(Re::Concat(Box::new(a), Box::new(b)), s),
    ensures
        0 <= i <= s.len(),
        in_lang(a, s.subrange(0, i)),
        in_lang(b, s.subrange(i, s.len() as int)),
{
    assert(exists|k: int|
        0 <= k <= s.len() && in_lang(a, s.subrange(0, k)) && in_lang(
            b,
            s.subrange(k, s.len() as int),
        ));
    choose|k: int|
        0 <= k <= s.len() && in_lang(a, s.subrange(0, k)) && in_lang(
            b,
            s.subrange(k, s.len() as int),
        )
}

/// A non-empty word of `a*` starts with a non-empty word of `a`.
proof fn lemma_repeat_elim(a: Re, s: Seq<char>) -> (i: int)
    requires
        in_lang(Re::Repeat(Box::new(a)), s),
        s.len() > 0,
    ensures
        1 <= i <= s.len(),
        in_lang(a, s.subrange(0, i)),
        in_lang(Re::Repeat(Box::new(a)), s.subrange(i, s.len() as int)),
{
    assert(exists|k: int|
        1 <= k <= s.len() && in_lang(a, s.subrange(0, k)) && in_lang(
            Re::Repeat(Box::new(a)),
            s.subrange(k, s.len() as int),
        ));
    choose|k: int|
        1 <= k <= s.len() && in_lang(a, s.subrange(0, k)) && in_lang(
            Re::Repeat(Box::new(a)),
            s.subrange(k, s.len() as int),
        )
}

/// Simplification keeps the language: `s` is in the language of `simp(r)` exactly when it is
/// in the language of `r`.
pub proof fn lemma_simp(r: Re, s: Seq<char>)
    ensures
        in_lang(simp(r), s) == in_lang(r, s),
    decreases r,
{
    match r {
        Re::Alt(a, b) => {
            lemma_simp(*a, s);
            lemma_simp(*b, s);
        },
        Re::Concat(a, b) => {
            let x = simp(*a);
            let y = simp(*b);
            let n = s.len() as int;
            assert(s.subrange(0, 0) =~= Seq::<char>::empty());
            assert(s.subrange(0, n) =~= s);
            assert(s.subrange(n, n) =~= Seq::<char>::empty());
            if in_lang(r, s) {
                let i = lemma_concat_elim(*a, *b, s);
                lemma_simp(*a, s.subrange(0, i));
                lemma_simp(*b, s.subrange(i, n));
                if x is Unit {
                    assert(s.subrange(i, n) =~= s);
                } else if y is Unit {
                    assert(s.subrange(0, i) =~= s);
                } else if !(x is Empty) && !(y is Empty) {
                    lemma_concat_intro(x, y, s, i);
                }
            }
            if in_lang(simp(r), s) {
                if x is Empty {
                } else if y is Empty {
                } else if x is Unit {
                    lemma_simp(*a, s.subrange(0, 0));
                    lemma_simp(*b, s);
                    lemma_concat_intro(*a, *b, s, 0);
                } else if y is Unit {
                    lemma_simp(*a, s);
                    lemma_simp(*b, s.subrange(n, n));
                    lemma_concat_intro(*a, *b, s, n);
                } else {
                    let i = lemma_concat_elim(x, y, s);
                    lemma_simp(*a, s.subrange(0, i));
                    lemma_simp(*b, s.subrange(i, n));
                    lemma_concat_intro(*a, *b, s, i);
                }
            }
        },
        _ => {},
    }
}

/// Simplifying allocates no more nodes than the expression has, and the simplified
/// expression has no more nodes than were allocated for it.
pub proof fn lemma_simp_cost(r: Re)
    ensures
        simp_cost(r) <= size(r),
        size(simp(r)) <= simp_cost(r),
    decreases r,
{
    match r {
        Re::Alt(a, b) => {
            lemma_simp_cost(*a);
            lemma_simp_cost(*b);
        },
        Re::Concat(a, b) => {
            lemma_simp_cost(*a);
            lemma_simp_cost(*b);
        },
        _ => {},
    }
}

/// The expression left after matching `s` is nullable exactly when `s` is in the language.
pub proof fn lemma_ders(r: Re, s: Seq<char>)
    ensures
        nullable(ders(r, s)) == in_lang(r, s),
    decreases s.len(),
{
    if s.len() == 0 {
        lemma_nullable(r);
        assert(s =~= Seq::<char>::empty());
    } else {
        let c = s[0];
        let t = s.drop_first();
        lemma_ders(step(r, c), t);
        lemma_simp(deriv(r, c), t);
        lemma_deriv(r, c, t);
        assert(seq![c] + t =~= s);
    }
}

/// Matching `s` then `t` leaves what matching `s + t` leaves.
pub proof fn lemma_ders_append(r: Re, s: Seq<char>, t: Seq<char>)
    ensures
        ders(r, s + t) == ders(ders(r, s), t),
    decreases s.len(),
{
    if s.len() == 0 {
        assert(s + t =~= t);
    } else {
        lemma_ders_append(step(r, s[0]), s.drop_first(), t);
        assert((s + t).drop_first() =~= s.drop_first() + t);
    }
}

/// Matching anything against the empty language leaves the empty language.
pub proof fn lemma_ders_empty(s: Seq<char>)
    ensures
        ders(Re::Empty, s) == Re::Empty,
    decreases s.len(),
{
    if s.len() > 0 {
        lemma_ders_empty(s.drop_first());
    }
}

/// Every derivative taken while matching against the empty language fits.
pub proof fn lemma_ders_fit_empty(s: Seq<char>)
    ensures
        ders_fit(Re::Empty, s),
    decreases s.len(),
{
    if s.len() > 0 {
        lemma_ders_fit_empty(s.drop_first());
    }
}

/// Nullability of the three expressions whose answer does not depend on their parts.
pub proof fn lemma_nullable_basics(x: Re)
    ensures
        !nullable(Re::Empty),
        nullable(Re::Unit),
        nullable(Re::Repeat(Box::new(x))),
{
}

/// Absorption: once matching `s` has left the empty language, matching any extension `s + t`
/// leaves it too, and no extension is in the language.
pub proof fn lemma_absorption(r: Re, s: Seq<char>, t: Seq<char>)
    requires
        ders(r, s) == Re::Empty,
    ensures
        ders(r, s + t) == Re::Empty,
        !in_lang(r, s + t),
{
    lemma_ders_append(r, s, t);
    lemma_ders_empty(t);
    lemma_ders(r, s + t);
}

/// Simplification is idempotent: simplifying a simplified expression changes nothing.
pub proof fn lemma_simp_idempotent(r: Re)
    ensures
        simp(simp(r)) == simp(r),
    decreases r,
{
    match r {
        Re::Alt(a, b) => {
            lemma_simp_idempotent(*a);
            lemma_simp_idempotent(*b);
        },
        Re::Concat(a, b) => {
            lemma_simp_idempotent(*a);
            lemma_simp_idempotent(*b);
        },
        _ => {},
    }
}

/// Simplifying twice gives an expression with the same language as simplifying once.
pub proof fn lemma_simp_twice(r: Re, s: Seq<char>)
    ensures
        in_lang(simp(simp(r)), s) == in_lang(simp(r), s),
{
    lemma_simp_idempotent(r);
}

/// Two words of `a*` in a row make a word of `a*`.
pub proof fn lemma_repeat_append(a: Re, u: Seq<char>, v: Seq<char>)
    requires
        in_lang(Re::Repeat(Box::new(a)), u),
        in_lang(Re::Repeat(Box::new(a)), v),
    ensures
        in_lang(Re::Repeat(Box::new(a)), u + v),
    decreases u.len(),
{
    if u.len() == 0 {
        assert(u + v =~= v);
    } else {
        let i = lemma_repeat_elim(a, u);
        let rest = u.subrange(i, u.len() as int);
        lemma_repeat_append(a, rest, v);
        let w = u + v;
        assert(w.subrange(0, i) =~= u.subrange(0, i));
        assert(w.subrange(i, w.len() as int) =~= rest + v);
        lemma_repeat_intro(a, w, i);
    }
}

/// Repeating a repetition adds nothing: `(a*)*` and `a*` have the same language.
pub proof fn lemma_repeat_repeat(a: Re, s: Seq<char>)
    ensures
        in_lang(Re::Repeat(Box::new(Re::Repeat(Box::new(a)))), s) == in_lang(
            Re::Repeat(Box::new(a)),
            s,
        ),
    decreases s.len(),
{
    let r = Re::Repeat(Box::new(a));
    let rr = Re::Repeat(Box::new(r));
    let n = s.len() as int;
    if n > 0 {
        if in_lang(r, s) {
            assert(s.subrange(0, n) =~= s);
            assert(s.subrange(n, n).len() == 0);
            lemma_repeat_intro(r, s, n);
        }
        if in_lang(rr, s) {
            let i = lemma_repeat_elim(r, s);
            lemma_repeat_repeat(a, s.subrange(i, n));
            lemma_repeat_append(a, s.subrange(0, i), s.subrange(i, n));
            assert(s.subrange(0, i) + s.subrange(i, n) =~= s);
        }
    }
}

/// `(a*)* b` and `a* b` have the same language.
pub proof fn lemma_repeat_repeat_concat(a: Re, b: Re, s: Seq<char>)
    ensures
        in_lang(
            Re::Concat(
                Box::new(Re::Repeat(Box::new(Re::Repeat(Box::new(a))))),
                Box::new(b),
            ),
            s,
        ) == in_lang(Re::Concat(Box::new(Re::Repeat(Box::new(a))), Box::new(b)), s),
{
    let r = Re::Repeat(Box::new(a));
    let rr = Re::Repeat(Box::new(r));
    let n = s.len() as int;
    if in_lang(Re::Concat(Box::new(rr), Box::new(b)), s) {
        let i = lemma_concat_elim(rr, b, s);
        lemma_repeat_repeat(a, s.subrange(0, i));
        lemma_concat_intro(r, b, s, i);
    }
    if in_lang(Re::Concat(Box::new(r), Box::new(b)), s) {
        let i = lemma_concat_elim(r, b, s);
        lemma_repeat_repeat(a, s.subrange(0, i));
        lemma_concat_intro(rr, b, s, i);
    }
}

} // verus!
