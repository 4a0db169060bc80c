//! Expressions compiled into an arena, and the derivative engine that matches them.
pub mod build_plan;
pub mod const_ptr;
pub mod lang;

use crate::regex::build_plan::Re as Plan;
use crate::regex::const_ptr::Const;
use crate::regex::lang::{
    deriv, ders, ders_fit, in_lang, lemma_ders, lemma_ders_empty, lemma_ders_fit_empty,
    lemma_simp_cost, nullable, simp, simp_cost, size,
};
use crate::vec_alloc::{fitting_capacity, VecAlloc};
use vstd::prelude::*;
use vstd::string::*;

verus! {

/// One arena node. Composite nodes name their parts by handles into the same arena.
#[derive(Clone, Copy, Debug)]
pub enum Re {
    Empty,
    Unit,
    Literal(char),
    Alt(Const, Const),
    Concat(Const, Const),
    Repeat(Const),
}

/// Every composite node names only slots below its own.
pub open spec fn wf_nodes(nodes: Seq<Re>) -> bool {
    forall|i: int|
        #![trigger nodes[i]]
        0 <= i < nodes.len() ==> match nodes[i] {
            Re::Alt(a, b) => a.index < i && b.index < i,
            Re::Concat(a, b) => a.index < i && b.index < i,
            Re::Repeat(a) => a.index < i,
            _ => true,
        }
}

/// The expression rooted at slot `i`.
pub open spec fn tree_of(nodes: Seq<Re>, i: int) -> Plan
    decreases i,
{
    if 0 <= i < nodes.len() {
        match nodes[i] {
            Re::Empty => Plan::Empty,
            Re::Unit => Plan::Unit,
            Re::Literal(c) => Plan::Literal(c),
            Re::Alt(a, b) => if a.index < i && b.index < i {
                Plan::Alt(
                    Box::new(tree_of(nodes, a.index as int)),
                    Box::new(tree_of(nodes, b.index as int)),
                )
            } else {
                Plan::Empty
            },
            Re::Concat(a, b) => if a.index < i && b.index < i {
                Plan::Concat(
                    Box::new(tree_of(nodes, a.index as int)),
                    Box::new(tree_of(nodes, b.index as int)),
                )
            } else {
                Plan::Empty
            },
            Re::Repeat(a) => if a.index < i {
                Plan::Repeat(Box::new(tree_of(nodes, a.index as int)))
            } else {
                Plan::Empty
            },
        }
    } else {
        Plan::Empty
    }
}

/// `new` holds every node of `old`, in the same slots.
pub open spec fn extends(old: Seq<Re>, new: Seq<Re>) -> bool {
    old.len() <= new.len() && new.subrange(0, old.len() as int) == old
}

/// Extension is transitive.
proof fn lemma_extends(a: Seq<Re>, b: Seq<Re>, c: Seq<Re>)
    requires
        extends(a, b),
        extends(b, c),
    ensures
        extends(a, c),
{
    assert(c.subrange(0, a.len() as int) =~= c.subrange(0, b.len() as int).subrange(
        0,
        a.len() as int,
    ));
}

/// Appending nodes leaves the expressions rooted at existing slots as they were.
proof fn lemma_stays(nodes: Seq<Re>, more: Seq<Re>, i: int)
    requires
        extends(nodes, more),
        0 <= i < nodes.len(),
    ensures
        tree_of(more, i) == tree_of(nodes, i),
    decreases i,
{
    assert(more[i] == nodes[i]);
    match nodes[i] {
        Re::Alt(a, b) => {
            if a.index < i && b.index < i {
                lemma_stays(nodes, more, a.index as int);
                lemma_stays(nodes, more, b.index as int);
            }
        },
        Re::Concat(a, b) => {
            if a.index < i && b.index < i {
                lemma_stays(nodes, more, a.index as int);
                lemma_stays(nodes, more, b.index as int);
            }
        },
        Re::Repeat(a) => {
            if a.index < i {
                lemma_stays(nodes, more, a.index as int);
            }
        },
        _ => {},
    }
}

/// What a construction into `new` (which was `old` before it) promises when it builds `t`
/// with `cost` allocations: it succeeds exactly when those fit, fails only with the arena
/// full, keeps every slot that was there, and on success `r` is the root of `t`.
pub open spec fn built(
    old: VecAlloc<Re>,
    new: VecAlloc<Re>,
    r: Result<Const, ()>,
    t: Plan,
    cost: nat,
) -> bool {
    &&& new.wf()
    &&& wf_nodes(new@)
    &&& new.spec_capacity() == old.spec_capacity()
    &&& extends(old@, new@)
    &&& (r is Ok <==> old@.len() + cost <= old.spec_capacity())
    &&& (r is Err ==> new@.len() == new.spec_capacity())
    &&& (r is Ok ==> new@.len() == old@.len() + cost && r->Ok_0.index < new@.len() && tree_of(
        new@,
        r->Ok_0.index as int,
    ) == t)
}

/// Allocates one node, keeping the arena well formed.
fn push_node(alloc: &mut VecAlloc<Re>, node: Re) -> (r: Result<Const, ()>)
    requires
        old(alloc).wf(),
        wf_nodes(old(alloc)@),
        match node {
            Re::Alt(a, b) => a.index < old(alloc)@.len() && b.index < old(alloc)@.len(),
            Re::Concat(a, b) => a.index < old(alloc)@.len() && b.index < old(alloc)@.len(),
            Re::Repeat(a) => a.index < old(alloc)@.len(),
            _ => true,
        },
    ensures
        final(alloc).wf(),
        wf_nodes(final(alloc)@),
        final(alloc).spec_capacity() == old(alloc).spec_capacity(),
        r is Ok <==> old(alloc)@.len() < old(alloc).spec_capacity(),
        r is Ok ==> final(alloc)@ == old(alloc)@.push(node) && r->Ok_0.index == old(alloc)@.len(),
        r is Err ==> final(alloc)@ == old(alloc)@,
        r is Err ==> final(alloc)@.len() == old(alloc).spec_capacity(),
        extends(old(alloc)@, final(alloc)@),
{
    match alloc.allocate(node) {
        Ok(index) => {
            proof {
                let s = alloc@;
                assert forall|i: int| 0 <= i < s.len() implies #[trigger] s[i] == if i
                    < old(alloc)@.len() {
                    old(alloc)@[i]
                } else {
                    node
                } by {}
                assert(s.subrange(0, old(alloc)@.len() as int) =~= old(alloc)@);
            }
            Ok(Const::new(index))
        },
        Err(_) => {
            assert(alloc@.subrange(0, alloc@.len() as int) =~= alloc@);
            Err(())
        },
    }
}

/// Builds `plan` into `alloc`, children before parents.
fn build_inner(alloc: &mut VecAlloc<Re>, plan: &Plan) -> (r: Result<Const, ()>)
    requires
        old(alloc).wf(),
        wf_nodes(old(alloc)@),
    ensures
        built(*old(alloc), *final(alloc), r, *plan, size(*plan)),
    decreases plan,
{
    let ghost n0 = alloc@;
    match plan {
        Plan::Empty => push_node(alloc, Re::Empty),
        Plan::Unit => push_node(alloc, Re::Unit),
        Plan::Literal(c) => push_node(alloc, Re::Literal(*c)),
        Plan::Alt(a, b) => {
            let x = match build_inner(alloc, a) {
                Ok(x) => x,
                Err(e) => return Err(e),
            };
            let ghost n1 = alloc@;
            let y = match build_inner(alloc, b) {
                Ok(y) => y,
                Err(e) => {
                    proof { lemma_extends(n0, n1, alloc@) };
                    return Err(e);
                },
            };
            let ghost n2 = alloc@;
            let r = push_node(alloc, Re::Alt(x, y));
            proof {
                lemma_extends(n1, n2, alloc@);
                lemma_extends(n0, n1, alloc@);
                if r is Ok {
                    lemma_stays(n1, alloc@, x.index as int);
                    lemma_stays(n2, alloc@, y.index as int);
                }
            }
            r
        },
        Plan::Concat(a, b) => {
            let x = match build_inner(alloc, a) {
                Ok(x) => x,
                Err(e) => return Err(e),
            };
            let ghost n1 = alloc@;
            let y = match build_inner(alloc, b) {
                Ok(y) => y,
                Err(e) => {
                    proof { lemma_extends(n0, n1, alloc@) };
                    return Err(e);
                },
            };
            let ghost n2 = alloc@;
            let r = push_node(alloc, Re::Concat(x, y));
            proof {
                lemma_extends(n1, n2, alloc@);
                lemma_extends(n0, n1, alloc@);
                if r is Ok {
                    lemma_stays(n1, alloc@, x.index as int);
                    lemma_stays(n2, alloc@, y.index as int);
                }
            }
            r
        },
        Plan::Repeat(a) => {
            let x = match build_inner(alloc, a) {
                Ok(x) => x,
                Err(e) => return Err(e),
            };
            let ghost n1 = alloc@;
            let r = push_node(alloc, Re::Repeat(x));
            proof {
                lemma_extends(n0, n1, alloc@);
                if r is Ok {
                    lemma_stays(n1, alloc@, x.index as int);
                }
            }
            r
        },
    }
}

/// Copies the expression rooted at slot `i` of `src` into `alloc`.
fn copy_rec(src: &VecAlloc<Re>, alloc: &mut VecAlloc<Re>, i: Const) -> (r: Result<Const, ()>)
    requires
        wf_nodes(src@),
        i.index < src@.len(),
        old(alloc).wf(),
        wf_nodes(old(alloc)@),
    ensures
        built(
            *old(alloc),
            *final(alloc),
            r,
            tree_of(src@, i.index as int),
            size(tree_of(src@, i.index as int)),
        ),
    decreases i.index,
{
    let ghost n0 = alloc@;
    let node = *src.get(i.index);
    assert(src@[i.index as int] == node);
    match node {
        Re::Alt(a, b) | Re::Concat(a, b) => {
            let x = match copy_rec(src, alloc, a) {
                Ok(x) => x,
                Err(e) => return Err(e),
            };
            let ghost n1 = alloc@;
            let y = match copy_rec(src, alloc, b) {
                Ok(y) => y,
                Err(e) => {
                    proof { lemma_extends(n0, n1, alloc@) };
                    return Err(e);
                },
            };
            let ghost n2 = alloc@;
            let r = match node {
                Re::Alt(_, _) => push_node(alloc, Re::Alt(x, y)),
                _ => push_node(alloc, Re::Concat(x, y)),
            };
            proof {
                lemma_extends(n1, n2, alloc@);
                lemma_extends(n0, n1, alloc@);
                if r is Ok {
                    lemma_stays(n1, alloc@, x.index as int);
                    lemma_stays(n2, alloc@, y.index as int);
                }
            }
            r
        },
        Re::Repeat(a) => {
            let x = match copy_rec(src, alloc, a) {
                Ok(x) => x,
                Err(e) => return Err(e),
            };
            let ghost n1 = alloc@;
            let r = push_node(alloc, Re::Repeat(x));
            proof {
                lemma_extends(n0, n1, alloc@);
                if r is Ok {
                    lemma_stays(n1, alloc@, x.index as int);
                }
            }
            r
        },
        _ => push_node(alloc, node),
    }
}

/// Whether the expression rooted at slot `i` accepts the empty string.
fn nullable_at(nodes: &VecAlloc<Re>, i: Const) -> (r: bool)
    requires
        wf_nodes(nodes@),
        i.index < nodes@.len(),
    ensures
        r == nullable(tree_of(nodes@, i.index as int)),
    decreases i.index,
{
    let node = *nodes.get(i.index);
    assert(nodes@[i.index as int] == node);
    match node {
        Re::Empty => false,
        Re::Unit => true,
        Re::Literal(_) => false,
        Re::Alt(a, b) => nullable_at(nodes, a) || nullable_at(nodes, b),
        Re::Concat(a, b) => nullable_at(nodes, a) && nullable_at(nodes, b),
        Re::Repeat(_) => true,
    }
}

/// Structural equality of the expressions rooted at slots `i` and `j`; a slot is equal to
/// itself without a look at its parts.
fn node_eq(nodes: &VecAlloc<Re>, i: Const, j: Const) -> (r: bool)
    requires
        wf_nodes(nodes@),
        i.index < nodes@.len(),
        j.index < nodes@.len(),
    ensures
        r == (tree_of(nodes@, i.index as int) == tree_of(nodes@, j.index as int)),
    decreases i.index,
{
    if i.ptr_eq(j) {
        return true;
    }
    let p = *nodes.get(i.index);
    let q = *nodes.get(j.index);
    assert(nodes@[i.index as int] == p && nodes@[j.index as int] == q);
    match (p, q) {
        (Re::Empty, Re::Empty) => true,
        (Re::Unit, Re::Unit) => true,
        (Re::Literal(c), Re::Literal(d)) => c == d,
        (Re::Alt(a1, b1), Re::Alt(a2, b2)) => node_eq(nodes, a1, a2) && node_eq(nodes, b1, b2),
        (Re::Concat(a1, b1), Re::Concat(a2, b2)) => node_eq(nodes, a1, a2) && node_eq(
            nodes,
            b1,
            b2,
        ),
        (Re::Repeat(a1), Re::Repeat(a2)) => node_eq(nodes, a1, a2),
        _ => false,
    }
}

/// Builds the derivative by `c` of the expression rooted at slot `i` of `src` into `alloc`.
/// Every node of the result is allocated anew, so the result shares nothing with `src`.
fn der_rec(src: &VecAlloc<Re>, alloc: &mut VecAlloc<Re>, i: Const, c: char) -> (r: Result<
    Const,
    (),
>)
    requires
        wf_nodes(src@),
        i.index < src@.len(),
        old(alloc).wf(),
        wf_nodes(old(alloc)@),
    ensures
        built(
            *old(alloc),
            *final(alloc),
            r,
            deriv(tree_of(src@, i.index as int), c),
            size(deriv(tree_of(src@, i.index as int), c)),
        ),
    decreases i.index,
{
    let ghost n0 = alloc@;
    let node = *src.get(i.index);
    assert(src@[i.index as int] == node);
    match node {
        Re::Empty | Re::Unit => push_node(alloc, Re::Empty),
        Re::Literal(d) => push_node(alloc, if c == d { Re::Unit } else { Re::Empty }),
        Re::Alt(a, b) => {
            let x = match der_rec(src, alloc, a, c) {
                Ok(x) => x,
                Err(e) => return Err(e),
            };
            let ghost n1 = alloc@;
            let y = match der_rec(src, alloc, b, c) {
                Ok(y) => y,
                Err(e) => {
                    proof { lemma_extends(n0, n1, alloc@) };
                    return Err(e);
                },
            };
            let ghost n2 = alloc@;
            let r = push_node(alloc, Re::Alt(x, y));
            proof {
                lemma_extends(n1, n2, alloc@);
                lemma_extends(n0, n1, alloc@);
                if r is Ok {
                    lemma_stays(n1, alloc@, x.index as int);
                    lemma_stays(n2, alloc@, y.index as int);
                }
            }
            r
        },
        Re::Concat(a, b) => {
            let ghost ta = tree_of(src@, a.index as int);
            let ghost tb = tree_of(src@, b.index as int);
            assert(tree_of(src@, i.index as int) == Plan::Concat(Box::new(ta), Box::new(tb)));
            assert(size(Plan::Concat(Box::new(deriv(ta, c)), Box::new(tb))) == size(deriv(ta, c))
                + size(tb) + 1);
            let x = match der_rec(src, alloc, a, c) {
                Ok(x) => x,
                Err(e) => return Err(e),
            };
            let ghost n1 = alloc@;
            let cb = match copy_rec(src, alloc, b) {
                Ok(cb) => cb,
                Err(e) => {
                    proof { lemma_extends(n0, n1, alloc@) };
                    return Err(e);
                },
            };
            let ghost n2 = alloc@;
            let head = match push_node(alloc, Re::Concat(x, cb)) {
                Ok(head) => head,
                Err(e) => {
                    proof {
                        lemma_extends(n1, n2, alloc@);
                        lemma_extends(n0, n1, alloc@);
                    }
                    return Err(e);
                },
            };
            let ghost n3 = alloc@;
            proof {
                lemma_extends(n1, n2, n3);
                lemma_extends(n0, n1, n3);
                lemma_stays(n1, n3, x.index as int);
                lemma_stays(n2, n3, cb.index as int);
            }
            if !nullable_at(src, a) {
                return Ok(head);
            }
            let y = match der_rec(src, alloc, b, c) {
                Ok(y) => y,
                Err(e) => {
                    proof { lemma_extends(n0, n3, alloc@) };
                    return Err(e);
                },
            };
            let ghost n4 = alloc@;
            let r = push_node(alloc, Re::Alt(head, y));
            proof {
                lemma_extends(n3, n4, alloc@);
                lemma_extends(n0, n3, alloc@);
                if r is Ok {
                    lemma_stays(n3, alloc@, head.index as int);
                    lemma_stays(n4, alloc@, y.index as int);
                }
            }
            r
        },
        Re::Repeat(a) => {
            let ghost ta = tree_of(src@, a.index as int);
            assert(tree_of(src@, i.index as int) == Plan::Repeat(Box::new(ta)));
            assert(size(Plan::Repeat(Box::new(ta))) == size(ta) + 1);
            assert(deriv(tree_of(src@, i.index as int), c) == Plan::Concat(
                Box::new(deriv(ta, c)),
                Box::new(Plan::Repeat(Box::new(ta))),
            ));
            let x = match der_rec(src, alloc, a, c) {
                Ok(x) => x,
                Err(e) => return Err(e),
            };
            let ghost n1 = alloc@;
            let ca = match copy_rec(src, alloc, a) {
                Ok(ca) => ca,
                Err(e) => {
                    proof { lemma_extends(n0, n1, alloc@) };
                    return Err(e);
                },
            };
            let ghost n2 = alloc@;
            let rep = match push_node(alloc, Re::Repeat(ca)) {
                Ok(rep) => rep,
                Err(e) => {
                    proof {
                        lemma_extends(n1, n2, alloc@);
                        lemma_extends(n0, n1, alloc@);
                    }
                    return Err(e);
                },
            };
            let ghost n3 = alloc@;
            let r = push_node(alloc, Re::Concat(x, rep));
            proof {
                lemma_extends(n1, n2, n3);
                lemma_extends(n2, n3, alloc@);
                lemma_extends(n1, n3, alloc@);
                lemma_extends(n0, n1, alloc@);
                if r is Ok {
                    lemma_stays(n1, alloc@, x.index as int);
                    lemma_stays(n2, n3, ca.index as int);
                    lemma_stays(n3, alloc@, rep.index as int);
                }
            }
            r
        },
    }
}

/// Whether the expression rooted at slot `i` is the bare empty language.
fn is_empty_at(nodes: &VecAlloc<Re>, i: Const) -> (r: bool)
    requires
        wf_nodes(nodes@),
        i.index < nodes@.len(),
    ensures
        r == (tree_of(nodes@, i.index as int) is Empty),
{
    let node = nodes.get(i.index);
    assert(nodes@[i.index as int] == *node);
    matches!(node, Re::Empty)
}

/// Whether the expression rooted at slot `i` is the bare empty string.
fn is_unit_at(nodes: &VecAlloc<Re>, i: Const) -> (r: bool)
    requires
        wf_nodes(nodes@),
        i.index < nodes@.len(),
    ensures
        r == (tree_of(nodes@, i.index as int) is Unit),
{
    let node = nodes.get(i.index);
    assert(nodes@[i.index as int] == *node);
    matches!(node, Re::Unit)
}

/// Builds the simplification of the expression rooted at slot `i` of `src` into `alloc`.
/// Parts are simplified first; a part that the rules drop stays behind in `alloc` unused.
fn simp_rec(src: &VecAlloc<Re>, alloc: &mut VecAlloc<Re>, i: Const) -> (r: Result<Const, ()>)
    requires
        wf_nodes(src@),
        i.index < src@.len(),
        old(alloc).wf(),
        wf_nodes(old(alloc)@),
    ensures
        built(
            *old(alloc),
            *final(alloc),
            r,
            simp(tree_of(src@, i.index as int)),
            simp_cost(tree_of(src@, i.index as int)),
        ),
    decreases i.index,
{
    let ghost n0 = alloc@;
    let node = *src.get(i.index);
    assert(src@[i.index as int] == node);
    match node {
        Re::Alt(a, b) | Re::Concat(a, b) => {
            let ghost ta = tree_of(src@, a.index as int);
            let ghost tb = tree_of(src@, b.index as int);
            let x = match simp_rec(src, alloc, a) {
                Ok(x) => x,
                Err(e) => return Err(e),
            };
            let ghost n1 = alloc@;
            let y = match simp_rec(src, alloc, b) {
                Ok(y) => y,
                Err(e) => {
                    proof { lemma_extends(n0, n1, alloc@) };
                    return Err(e);
                },
            };
            let ghost n2 = alloc@;
            proof {
                lemma_extends(n0, n1, n2);
                lemma_stays(n1, n2, x.index as int);
            }
            let x_empty = is_empty_at(alloc, x);
            let y_empty = is_empty_at(alloc, y);
            let r = match node {
                Re::Alt(_, _) => {
                    if x_empty {
                        Ok(y)
                    } else if y_empty {
                        Ok(x)
                    } else if node_eq(alloc, x, y) {
                        Ok(x)
                    } else {
                        push_node(alloc, Re::Alt(x, y))
                    }
                },
                _ => {
                    if x_empty {
                        Ok(x)
                    } else if y_empty {
                        Ok(y)
                    } else if is_unit_at(alloc, x) {
                        Ok(y)
                    } else if is_unit_at(alloc, y) {
                        Ok(x)
                    } else {
                        push_node(alloc, Re::Concat(x, y))
                    }
                },
            };
            proof {
                if alloc@ != n2 {
                    lemma_extends(n0, n2, alloc@);
                    if r is Ok {
                        lemma_stays(n2, alloc@, x.index as int);
                        lemma_stays(n2, alloc@, y.index as int);
                    }
                } else {
                    assert(n2.subrange(0, n2.len() as int) =~= n2);
                }
            }
            r
        },
        _ => copy_rec(src, alloc, i),
    }
}

/// `o` is the node count `n`, with `None` standing for a count past `usize::MAX`.
pub open spec fn counts(o: Option<usize>, n: nat) -> bool {
    match o {
        Some(k) => k == n,
        None => n > usize::MAX,
    }
}

/// Adds two node counts.
fn plus(x: Option<usize>, y: Option<usize>, Ghost(m): Ghost<nat>, Ghost(n): Ghost<nat>) -> (r:
    Option<usize>)
    requires
        counts(x, m),
        counts(y, n),
    ensures
        counts(r, m + n),
{
    match (x, y) {
        (Some(a), Some(b)) => a.checked_add(b),
        _ => None,
    }
}

/// The number of nodes of `plan`, or `None` when it does not fit in `usize`.
pub fn plan_size(plan: &Plan) -> (r: Option<usize>)
    ensures
        counts(r, size(*plan)),
    decreases plan,
{
    match plan {
        Plan::Alt(a, b) | Plan::Concat(a, b) => {
            let x = plus(Some(1), plan_size(a), Ghost(1), Ghost(size(**a)));
            plus(x, plan_size(b), Ghost(1 + size(**a)), Ghost(size(**b)))
        },
        Plan::Repeat(a) => plus(Some(1), plan_size(a), Ghost(1), Ghost(size(**a))),
        _ => Some(1),
    }
}

/// The number of nodes of the expression rooted at slot `i`.
fn size_at(nodes: &VecAlloc<Re>, i: Const) -> (r: Option<usize>)
    requires
        wf_nodes(nodes@),
        i.index < nodes@.len(),
    ensures
        counts(r, size(tree_of(nodes@, i.index as int))),
    decreases i.index,
{
    let node = *nodes.get(i.index);
    assert(nodes@[i.index as int] == node);
    match node {
        Re::Alt(a, b) | Re::Concat(a, b) => {
            let ghost sa = size(tree_of(nodes@, a.index as int));
            let ghost sb = size(tree_of(nodes@, b.index as int));
            let x = plus(Some(1), size_at(nodes, a), Ghost(1), Ghost(sa));
            plus(x, size_at(nodes, b), Ghost(1 + sa), Ghost(sb))
        },
        Re::Repeat(a) => plus(
            Some(1),
            size_at(nodes, a),
            Ghost(1),
            Ghost(size(tree_of(nodes@, a.index as int))),
        ),
        _ => Some(1),
    }
}

/// The number of nodes of the derivative by `c` of the expression rooted at slot `i`.
fn deriv_size_at(nodes: &VecAlloc<Re>, i: Const, c: char) -> (r: Option<usize>)
    requires
        wf_nodes(nodes@),
        i.index < nodes@.len(),
    ensures
        counts(r, size(deriv(tree_of(nodes@, i.index as int), c))),
    decreases i.index,
{
    let node = *nodes.get(i.index);
    assert(nodes@[i.index as int] == node);
    match node {
        Re::Alt(a, b) => {
            let ghost da = size(deriv(tree_of(nodes@, a.index as int), c));
            let ghost db = size(deriv(tree_of(nodes@, b.index as int), c));
            let x = plus(Some(1), deriv_size_at(nodes, a, c), Ghost(1), Ghost(da));
            plus(x, deriv_size_at(nodes, b, c), Ghost(1 + da), Ghost(db))
        },
        Re::Concat(a, b) => {
            let ghost ta = tree_of(nodes@, a.index as int);
            let ghost tb = tree_of(nodes@, b.index as int);
            let ghost da = size(deriv(ta, c));
            let ghost db = size(deriv(tb, c));
            assert(size(Plan::Concat(Box::new(deriv(ta, c)), Box::new(tb))) == da + size(tb) + 1);
            let x = plus(Some(1), deriv_size_at(nodes, a, c), Ghost(1), Ghost(da));
            let head = plus(x, size_at(nodes, b), Ghost(1 + da), Ghost(size(tb)));
            if nullable_at(nodes, a) {
                let y = plus(Some(1), head, Ghost(1), Ghost(1 + da + size(tb)));
                plus(y, deriv_size_at(nodes, b, c), Ghost(2 + da + size(tb)), Ghost(db))
            } else {
                head
            }
        },
        Re::Repeat(a) => {
            let ghost ta = tree_of(nodes@, a.index as int);
            let ghost da = size(deriv(ta, c));
            assert(size(Plan::Repeat(Box::new(ta))) == size(ta) + 1);
            assert(deriv(tree_of(nodes@, i.index as int), c) == Plan::Concat(
                Box::new(deriv(ta, c)),
                Box::new(Plan::Repeat(Box::new(ta))),
            ));
            let x = plus(Some(2), deriv_size_at(nodes, a, c), Ghost(2), Ghost(da));
            plus(x, size_at(nodes, a), Ghost(2 + da), Ghost(size(ta)))
        },
        _ => Some(1),
    }
}

/// The capacity that a fresh arena starts with unless a caller asks for another.
pub const DEFAULT_CAPACITY: usize = 32;

/// An expression together with the arena that exclusively holds all of its nodes.
pub struct Regex {
    tree: Const,
    alloc: VecAlloc<Re>,
}

impl View for Regex {
    type V = Plan;

    /// The expression rooted at the root handle.
    closed spec fn view(&self) -> Plan {
        tree_of(self.alloc@, self.tree.index as int)
    }
}

/// Builds `plan` into a fresh arena of the given initial capacity, growing it and starting
/// over whenever it fills up.
pub fn compile_with_capacity(plan: &Plan, capacity: usize) -> (r: Regex)
    requires
        size(*plan) <= usize::MAX,
    ensures
        r@ == *plan,
        r.arena_len() == size(*plan),
        r.arena_capacity() == fitting_capacity(capacity as nat, size(*plan)),
{
    let mut alloc = VecAlloc::new(capacity);
    loop
        invariant
            alloc.wf(),
            alloc@.len() == 0,
            size(*plan) <= usize::MAX,
            fitting_capacity(alloc.spec_capacity(), size(*plan)) == fitting_capacity(
                capacity as nat,
                size(*plan),
            ),
        decreases usize::MAX - alloc.spec_capacity(),
    {
        match build_inner(&mut alloc, plan) {
            Ok(tree) => {
                return Regex { tree, alloc };
            },
            Err(_) => {
                alloc.resize();
            },
        }
    }
}

/// Builds `plan` into a fresh arena of the default capacity.
pub fn compile(plan: &Plan) -> (r: Regex)
    requires
        size(*plan) <= usize::MAX,
    ensures
        r@ == *plan,
        r.arena_len() == size(*plan),
        r.arena_capacity() == fitting_capacity(DEFAULT_CAPACITY as nat, size(*plan)),
{
    compile_with_capacity(plan, DEFAULT_CAPACITY)
}

impl Regex {
    /// The root is a slot of the arena, every node names only slots below its own, and the
    /// expression has no more nodes than the arena holds.
    #[verifier::type_invariant]
    spec fn well_formed(self) -> bool {
        &&& self.alloc.wf()
        &&& wf_nodes(self.alloc@)
        &&& self.tree.index < self.alloc@.len()
        &&& size(self@) <= self.alloc@.len()
    }

    /// How many nodes the arena holds.
    pub closed spec fn arena_len(&self) -> nat {
        self.alloc@.len()
    }

    /// How many nodes the arena can hold.
    pub closed spec fn arena_capacity(&self) -> nat {
        self.alloc.spec_capacity()
    }

    /// The slot of the root in `arena()`.
    pub closed spec fn root_index(&self) -> int {
        self.tree.index as int
    }

    /// The empty language.
    pub fn new() -> (r: Self)
        ensures
            r@ == Plan::Empty,
    {
        compile(&Plan::Empty)
    }

    /// The arena that holds this expression's nodes.
    pub fn arena(&self) -> (r: &VecAlloc<Re>)
        ensures
            r.wf(),
            wf_nodes(r@),
            0 <= self.root_index() < r@.len(),
            tree_of(r@, self.root_index()) == self@,
    {
        proof {
            use_type_invariant(self);
        }
        &self.alloc
    }

    /// Whether the language holds the empty string.
    pub fn nullable(&self) -> (r: bool)
        ensures
            r == nullable(self@),
    {
        proof {
            use_type_invariant(self);
        }
        nullable_at(&self.alloc, self.tree)
    }

    /// Whether the root is the bare empty language.
    fn is_empty_language(&self) -> (r: bool)
        ensures
            r == (self@ is Empty),
    {
        proof {
            use_type_invariant(self);
        }
        is_empty_at(&self.alloc, self.tree)
    }

    /// A deep copy into a fresh arena.
    pub fn clone(&self) -> (r: Regex)
        ensures
            r@ == self@,
            r.arena_len() == size(self@),
            r.arena_capacity() == fitting_capacity(self.arena_capacity(), size(self@)),
    {
        proof {
            use_type_invariant(self);
        }
        let mut alloc = VecAlloc::new(self.alloc.capacity());
        loop
            invariant
                alloc.wf(),
                alloc@.len() == 0,
                self.alloc.wf(),
                wf_nodes(self.alloc@),
                self.tree.index < self.alloc@.len(),
                size(self@) <= self.alloc@.len(),
                fitting_capacity(alloc.spec_capacity(), size(self@)) == fitting_capacity(
                    self.alloc.spec_capacity(),
                    size(self@),
                ),
            decreases usize::MAX - alloc.spec_capacity(),
        {
            match copy_rec(&self.alloc, &mut alloc, self.tree) {
                Ok(tree) => {
                    return Regex { tree, alloc };
                },
                Err(_) => {
                    alloc.resize();
                },
            }
        }
    }

    /// A copy that duplicates the arena slot by slot instead of walking the expression.
    pub fn clone_static(&self) -> (r: Regex)
        ensures
            r@ == self@,
            r.arena_len() == self.arena_len(),
            r.arena_capacity() == self.arena_capacity(),
    {
        proof {
            use_type_invariant(self);
        }
        Regex { tree: self.tree, alloc: self.alloc.copied() }
    }

    /// The derivative by `c`, built into a fresh arena of the given initial capacity.
    fn der_in(&self, c: char, capacity: usize) -> (r: Regex)
        requires
            size(deriv(self@, c)) <= usize::MAX,
        ensures
            r@ == deriv(self@, c),
            r.arena_len() == size(deriv(self@, c)),
            r.arena_capacity() == fitting_capacity(capacity as nat, size(deriv(self@, c))),
    {
        proof {
            use_type_invariant(self);
        }
        let mut alloc = VecAlloc::new(capacity);
        loop
            invariant
                alloc.wf(),
                alloc@.len() == 0,
                wf_nodes(self.alloc@),
                self.tree.index < self.alloc@.len(),
                size(deriv(self@, c)) <= usize::MAX,
                fitting_capacity(alloc.spec_capacity(), size(deriv(self@, c))) == fitting_capacity(
                    capacity as nat,
                    size(deriv(self@, c)),
                ),
            decreases usize::MAX - alloc.spec_capacity(),
        {
            match der_rec(&self.alloc, &mut alloc, self.tree, c) {
                Ok(tree) => {
                    return Regex { tree, alloc };
                },
                Err(_) => {
                    alloc.resize();
                },
            }
        }
    }

    /// The derivative by `c`: the expression whose language is every `s` such that `c s` is
    /// in this one's.
    pub fn der(&self, c: char) -> (r: Regex)
        requires
            size(deriv(self@, c)) <= usize::MAX,
        ensures
            r@ == deriv(self@, c),
            r.arena_len() == size(deriv(self@, c)),
            r.arena_capacity() == fitting_capacity(
                DEFAULT_CAPACITY as nat,
                size(deriv(self@, c)),
            ),
    {
        self.der_in(c, DEFAULT_CAPACITY)
    }

    /// The simplification, built into a fresh arena of the given initial capacity.
    fn simp_in(&self, capacity: usize) -> (r: Regex)
        ensures
            r@ == simp(self@),
            r.arena_len() == simp_cost(self@),
            r.arena_capacity() == fitting_capacity(capacity as nat, simp_cost(self@)),
    {
        proof {
            use_type_invariant(self);
            lemma_simp_cost(self@);
            assert(self.alloc.wf());
        }
        let mut alloc = VecAlloc::new(capacity);
        loop
            invariant
                alloc.wf(),
                alloc@.len() == 0,
                wf_nodes(self.alloc@),
                self.tree.index < self.alloc@.len(),
                simp_cost(self@) <= usize::MAX,
                size(simp(self@)) <= simp_cost(self@),
                fitting_capacity(alloc.spec_capacity(), simp_cost(self@)) == fitting_capacity(
                    capacity as nat,
                    simp_cost(self@),
                ),
            decreases usize::MAX - alloc.spec_capacity(),
        {
            match simp_rec(&self.alloc, &mut alloc, self.tree) {
                Ok(tree) => {
                    return Regex { tree, alloc };
                },
                Err(_) => {
                    alloc.resize();
                },
            }
        }
    }

    /// The simplification: an expression with the same language and no more nodes.
    pub fn simp(&self) -> (r: Regex)
        ensures
            r@ == simp(self@),
            r.arena_len() == simp_cost(self@),
            r.arena_capacity() == fitting_capacity(DEFAULT_CAPACITY as nat, simp_cost(self@)),
    {
        self.simp_in(DEFAULT_CAPACITY)
    }

    /// Matches `cs` one character at a time, replacing the current expression by its
    /// simplified derivative; stops early once the current expression is the empty language.
    /// Gives `None` when some derivative would have more nodes than fit in `usize`.
    fn ders(r: Regex, cs: &[char], capacity: usize) -> (d: Option<Regex>)
        ensures
            d is Some <==> ders_fit(r@, cs@),
            d is Some ==> d->Some_0@ == ders(r@, cs@),
    {
        let mut cur = r;
        let mut i: usize = 0;
        let n = cs.len();
        assert(cs@.subrange(0, n as int) =~= cs@);
        while i < n
            invariant
                n == cs@.len(),
                i <= n,
                ders(cur@, cs@.subrange(i as int, n as int)) == ders(r@, cs@),
                ders_fit(cur@, cs@.subrange(i as int, n as int)) == ders_fit(r@, cs@),
            decreases n - i,
        {
            if cur.is_empty_language() {
                proof {
                    lemma_ders_empty(cs@.subrange(i as int, n as int));
                    lemma_ders_fit_empty(cs@.subrange(i as int, n as int));
                }
                return Some(cur);
            }
            let c = cs[i];
            proof {
                let rest = cs@.subrange(i as int, n as int);
                assert(rest[0] == c);
                assert(rest.drop_first() =~= cs@.subrange(i + 1, n as int));
            }
            if cur.der_size(c).is_none() {
                return None;
            }
            let d = cur.der_in(c, capacity);
            cur = d.simp_in(capacity);
            i = i + 1;
        }
        assert(cs@.subrange(n as int, n as int).len() == 0);
        Some(cur)
    }

    /// Whether `s` is in the language, with every intermediate arena starting at the given
    /// capacity. The answer does not depend on that capacity.
    pub fn is_match_with_capacity(&self, s: &str, capacity: usize) -> (r: bool)
        requires
            ders_fit(self@, s@),
        ensures
            r == in_lang(self@, s@),
    {
        match self.try_is_match_with_capacity(s, capacity) {
            Some(m) => m,
            None => false,
        }
    }

    /// Whether `s` is in the language.
    pub fn is_match(&self, s: &str) -> (r: bool)
        requires
            ders_fit(self@, s@),
        ensures
            r == in_lang(self@, s@),
    {
        self.is_match_with_capacity(s, DEFAULT_CAPACITY)
    }

    /// The number of nodes of the derivative by `c`, or `None` when it does not fit in
    /// `usize` (so that `der` cannot be asked for it).
    pub fn der_size(&self, c: char) -> (r: Option<usize>)
        ensures
            counts(r, size(deriv(self@, c))),
    {
        proof {
            use_type_invariant(self);
        }
        deriv_size_at(&self.alloc, self.tree, c)
    }

    /// Whether `s` is in the language, with every intermediate arena starting at the given
    /// capacity, or `None` when some matching step would need a derivative with more nodes
    /// than fit in `usize`.
    pub fn try_is_match_with_capacity(&self, s: &str, capacity: usize) -> (r: Option<bool>)
        ensures
            r is Some <==> ders_fit(self@, s@),
            r is Some ==> r->Some_0 == in_lang(self@, s@),
    {
        let cs = chars_of(s);
        proof {
            lemma_ders(self@, s@);
        }
        match Regex::ders(self.clone(), cs.as_slice(), capacity) {
            Some(d) => Some(d.nullable()),
            None => None,
        }
    }

    /// Whether `s` is in the language, or `None` when some matching step would need a
    /// derivative with more nodes than fit in `usize`.
    pub fn try_is_match(&self, s: &str) -> (r: Option<bool>)
        ensures
            r is Some <==> ders_fit(self@, s@),
            r is Some ==> r->Some_0 == in_lang(self@, s@),
    {
        self.try_is_match_with_capacity(s, DEFAULT_CAPACITY)
    }

    /// The diagnostic text of the expression.
    pub fn render(&self) -> (r: String)
        ensures
            r@ == rendered(self@, false),
    {
        proof {
            use_type_invariant(self);
        }
        let mut out = String::new();
        render_at(&self.alloc, self.tree, false, &mut out);
        out
    }
}

/// Relies on `str::chars`: the characters of `s`, in order.
#[verifier::external_body]
fn chars_of(s: &str) -> (r: Vec<char>)
    ensures
        r@ == s@,
{
    s.chars().collect()
}

/// The text that `char`'s `Debug` formatting gives for `c`.
pub uninterp spec fn char_debug(c: char) -> Seq<char>;

/// Relies on `char`'s `Debug` formatting: `c` quoted, escaped where needed.
#[verifier::external_body]
fn char_literal(c: char) -> (r: String)
    ensures
        r@ == char_debug(c),
{
    format!("{:?}", c)
}

/// The diagnostic text of `r`. `0` is the empty language, `1` the empty string, `a.b` a
/// sequence and `a*` a repetition, with parentheses round a repeated part that is not a
/// literal, `0` or `1`.
/// An alternation stands in parentheses, and an alternation directly inside another
/// (`in_alt`) is flattened into it.
pub open spec fn rendered(r: Plan, in_alt: bool) -> Seq<char>
    decreases r,
{
    match r {
        Plan::Empty => seq!['0'],
        Plan::Unit => seq!['1'],
        Plan::Literal(c) => char_debug(c),
        Plan::Concat(a, b) => rendered(*a, false) + seq!['.'] + rendered(*b, false),
        Plan::Alt(a, b) => {
            let inner = rendered(*a, true) + seq!['|'] + rendered(*b, true);
            if in_alt {
                inner
            } else {
                seq!['('] + inner + seq![')']
            }
        },
        Plan::Repeat(a) => if (*a is Literal) || (*a is Unit) || (*a is Empty) {
            rendered(*a, false) + seq!['*']
        } else {
            seq!['('] + rendered(*a, false) + seq![')', '*']
        },
    }
}

/// Appends the diagnostic text of the expression rooted at slot `i` to `out`.
fn render_at(nodes: &VecAlloc<Re>, i: Const, in_alt: bool, out: &mut String)
    requires
        wf_nodes(nodes@),
        i.index < nodes@.len(),
    ensures
        final(out)@ == old(out)@ + rendered(tree_of(nodes@, i.index as int), in_alt),
    decreases i.index,
{
    let node = *nodes.get(i.index);
    assert(nodes@[i.index as int] == node);
    let ghost o = out@;
    let ghost t = tree_of(nodes@, i.index as int);
    proof {
        reveal_strlit("0");
        reveal_strlit("1");
        reveal_strlit(".");
        reveal_strlit("|");
        reveal_strlit("(");
        reveal_strlit(")");
        reveal_strlit("*");
        reveal_strlit(")*");
    }
    match node {
        Re::Empty => {
            out.append("0");
        },
        Re::Unit => {
            out.append("1");
        },
        Re::Literal(c) => {
            let lit = char_literal(c);
            out.append(lit.as_str());
        },
        Re::Concat(a, b) => {
            render_at(nodes, a, false, out);
            out.append(".");
            render_at(nodes, b, false, out);
            assert(out@ =~= o + rendered(t, in_alt));
        },
        Re::Alt(a, b) => {
            if !in_alt {
                out.append("(");
            }
            render_at(nodes, a, true, out);
            out.append("|");
            render_at(nodes, b, true, out);
            if !in_alt {
                out.append(")");
            }
            assert(out@ =~= o + rendered(t, in_alt));
        },
        Re::Repeat(a) => {
            let inner = *nodes.get(a.index);
            assert(nodes@[a.index as int] == inner);
            let grouped = !matches!(inner, Re::Literal(_) | Re::Unit | Re::Empty);
            if grouped {
                out.append("(");
                render_at(nodes, a, false, out);
                out.append(")*");
            } else {
                render_at(nodes, a, false, out);
                out.append("*");
            }
            assert(out@ =~= o + rendered(t, in_alt));
        },
    }
}

} // verus!
