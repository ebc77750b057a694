//! First-order unification over a worklist of pending term equations, with
//! the occurs-check that keeps bindings acyclic. The algorithm is stated as
//! a recursive specification whose termination is proved from a measure
//! that pairs the number of distinct variable identifiers still at stake
//! with the total size of the worklist; the executable unifier returns
//! exactly what the specification denotes.

use vstd::prelude::*;

use crate::ast::{AtomExpr, Expr, VarExpr, VarID};
use crate::env::VarSubstitution;
use crate::model::{
    apply_term, apply_terms, compose, term_ground, term_ids, term_size, terms_ground, terms_ids,
    terms_size, Term,
};

verus! {

/// The variable identifiers at stake in a worklist of pending pairs.
pub open spec fn pairs_ids(w: Seq<(Term, Term)>) -> Set<u32>
    decreases w.len(),
{
    if w.len() == 0 {
        Set::empty()
    } else {
        term_ids(w[0].0).union(term_ids(w[0].1)).union(pairs_ids(w.drop_first()))
    }
}

/// The total number of term nodes in a worklist of pending pairs.
pub open spec fn pairs_size(w: Seq<(Term, Term)>) -> nat
    decreases w.len(),
{
    if w.len() == 0 {
        0
    } else {
        term_size(w[0].0) + term_size(w[0].1) + pairs_size(w.drop_first())
    }
}

/// The identifier set of a term is finite.
pub proof fn lemma_term_ids_finite(t: Term)
    ensures
        term_ids(t).finite(),
    decreases t,
{
    match t {
        Term::Atom { name, args } => {
            lemma_terms_ids_finite(args);
        },
        Term::Var { .. } => {},
    }
}

/// The identifier set of a term sequence is finite.
pub proof fn lemma_terms_ids_finite(ts: Seq<Term>)
    ensures
        terms_ids(ts).finite(),
    decreases ts,
{
    if ts.len() > 0 {
        lemma_term_ids_finite(ts[0]);
        lemma_terms_ids_finite(ts.drop_first());
    }
}

/// The identifier set of a worklist is finite.
pub proof fn lemma_pairs_ids_finite(w: Seq<(Term, Term)>)
    ensures
        pairs_ids(w).finite(),
    decreases w.len(),
{
    if w.len() > 0 {
        lemma_term_ids_finite(w[0].0);
        lemma_term_ids_finite(w[0].1);
        lemma_pairs_ids_finite(w.drop_first());
    }
}

/// Worklist size adds up over concatenation.
pub proof fn lemma_pairs_size_concat(w1: Seq<(Term, Term)>, w2: Seq<(Term, Term)>)
    ensures
        pairs_size(w1 + w2) == pairs_size(w1) + pairs_size(w2),
    decreases w1.len(),
{
    if w1.len() == 0 {
        assert(w1 + w2 =~= w2);
    } else {
        lemma_pairs_size_concat(w1.drop_first(), w2);
        assert((w1 + w2).drop_first() =~= w1.drop_first() + w2);
        assert((w1 + w2)[0] == w1[0]);
    }
}

/// Worklist identifiers add up over concatenation.
pub proof fn lemma_pairs_ids_concat(w1: Seq<(Term, Term)>, w2: Seq<(Term, Term)>)
    ensures
        pairs_ids(w1 + w2) == pairs_ids(w1).union(pairs_ids(w2)),
    decreases w1.len(),
{
    if w1.len() == 0 {
        assert(w1 + w2 =~= w2);
        assert(pairs_ids(w1 + w2) =~= pairs_ids(w1).union(pairs_ids(w2)));
    } else {
        lemma_pairs_ids_concat(w1.drop_first(), w2);
        assert((w1 + w2).drop_first() =~= w1.drop_first() + w2);
        assert((w1 + w2)[0] == w1[0]);
        assert(pairs_ids(w1 + w2) =~= pairs_ids(w1).union(pairs_ids(w2)));
    }
}

/// Two argument lists of equal length, paired position by position.
pub open spec fn zip_pairs(a: Seq<Term>, b: Seq<Term>) -> Seq<(Term, Term)> {
    Seq::new(a.len(), |i: int| (a[i], b[i]))
}

/// Size and identifiers of a zipped worklist come from the two lists.
pub proof fn lemma_zip_pairs(a: Seq<Term>, b: Seq<Term>)
    requires
        a.len() == b.len(),
    ensures
        pairs_size(zip_pairs(a, b)) == terms_size(a) + terms_size(b),
        pairs_ids(zip_pairs(a, b)) == terms_ids(a).union(terms_ids(b)),
    decreases a.len(),
{
    if a.len() == 0 {
        assert(pairs_ids(zip_pairs(a, b)) =~= terms_ids(a).union(terms_ids(b)));
    } else {
        lemma_zip_pairs(a.drop_first(), b.drop_first());
        assert(zip_pairs(a, b).drop_first() =~= zip_pairs(a.drop_first(), b.drop_first()));
        assert(zip_pairs(a, b)[0] == (a[0], b[0]));
        assert(pairs_ids(zip_pairs(a, b)) =~= terms_ids(a).union(terms_ids(b)));
    }
}

/// The substitution that binds one identifier to one term.
pub open spec fn single_binding(v: u32, t: Term) -> Map<u32, Term> {
    Map::empty().insert(v, t)
}

/// Applying a single binding can only trade occurrences of the bound
/// identifier for the binding's own identifiers.
pub proof fn lemma_apply_term_single_ids(v: u32, t: Term, u: Term)
    ensures
        term_ids(apply_term(single_binding(v, t), u)).subset_of(
            term_ids(u).remove(v).union(term_ids(t)),
        ),
    decreases u,
{
    match u {
        Term::Atom { name, args } => {
            lemma_apply_terms_single_ids(v, t, args);
        },
        Term::Var { .. } => {},
    }
}

/// Applying a single binding to a sequence, likewise.
pub proof fn lemma_apply_terms_single_ids(v: u32, t: Term, us: Seq<Term>)
    ensures
        terms_ids(apply_terms(single_binding(v, t), us)).subset_of(
            terms_ids(us).remove(v).union(term_ids(t)),
        ),
    decreases us,
{
    if us.len() > 0 {
        lemma_apply_term_single_ids(v, t, us[0]);
        lemma_apply_terms_single_ids(v, t, us.drop_first());
        let app = apply_terms(single_binding(v, t), us);
        assert(app[0] == apply_term(single_binding(v, t), us[0]));
        assert(app.drop_first() =~= apply_terms(single_binding(v, t), us.drop_first()));
    }
}

/// Applies a substitution to both sides of every pending pair.
pub open spec fn apply_pairs(m: Map<u32, Term>, w: Seq<(Term, Term)>) -> Seq<(Term, Term)>
    decreases w.len(),
{
    if w.len() == 0 {
        Seq::empty()
    } else {
        seq![(apply_term(m, w[0].0), apply_term(m, w[0].1))] + apply_pairs(m, w.drop_first())
    }
}

/// Applying a substitution to a worklist acts pair by pair.
pub proof fn lemma_apply_pairs(m: Map<u32, Term>, w: Seq<(Term, Term)>)
    ensures
        apply_pairs(m, w).len() == w.len(),
        forall|i: int|
            0 <= i < w.len() ==> apply_pairs(m, w)[i] == (
                apply_term(m, w[i].0),
                apply_term(m, w[i].1),
            ),
    decreases w.len(),
{
    if w.len() > 0 {
        lemma_apply_pairs(m, w.drop_first());
    }
}

/// Propagating a single binding through a worklist can only trade the
/// bound identifier for the binding's own identifiers.
pub proof fn lemma_apply_pairs_single_ids(v: u32, t: Term, w: Seq<(Term, Term)>)
    ensures
        pairs_ids(apply_pairs(single_binding(v, t), w)).subset_of(
            pairs_ids(w).remove(v).union(term_ids(t)),
        ),
    decreases w.len(),
{
    if w.len() > 0 {
        lemma_apply_term_single_ids(v, t, w[0].0);
        lemma_apply_term_single_ids(v, t, w[0].1);
        lemma_apply_pairs_single_ids(v, t, w.drop_first());
        assert(apply_pairs(single_binding(v, t), w).drop_first() =~= apply_pairs(
            single_binding(v, t),
            w.drop_first(),
        ));
    }
}

/// Dropping the front pair cannot grow the measure.
pub proof fn lemma_drop_measure(w: Seq<(Term, Term)>)
    requires
        w.len() > 0,
    ensures
        pairs_ids(w.drop_first()).len() <= pairs_ids(w).len(),
        pairs_ids(w.drop_first()).subset_of(pairs_ids(w)),
        pairs_size(w.drop_first()) <= pairs_size(w),
        pairs_ids(w).finite(),
{
    lemma_pairs_ids_finite(w);
    vstd::set_lib::lemma_len_subset(pairs_ids(w.drop_first()), pairs_ids(w));
}

/// Binding an identifier that the front pair puts at stake, to a term
/// that does not contain it, and propagating the binding through the rest
/// of the worklist, strictly shrinks the set of identifiers at stake.
pub proof fn lemma_bind_measure(v: u32, t: Term, w: Seq<(Term, Term)>)
    requires
        w.len() > 0,
        pairs_ids(w).contains(v),
        term_ids(t).subset_of(pairs_ids(w)),
        !term_ids(t).contains(v),
    ensures
        pairs_ids(apply_pairs(single_binding(v, t), w.drop_first())).len() < pairs_ids(w).len(),
        pairs_ids(w).finite(),
{
    let rest = w.drop_first();
    let w2 = apply_pairs(single_binding(v, t), rest);
    lemma_apply_pairs_single_ids(v, t, rest);
    lemma_pairs_ids_finite(w);
    assert(pairs_ids(rest).subset_of(pairs_ids(w)));
    assert(pairs_ids(w2).subset_of(pairs_ids(w).remove(v)));
    vstd::set_lib::lemma_len_subset(pairs_ids(w2), pairs_ids(w).remove(v));
    assert(pairs_ids(w).remove(v).len() < pairs_ids(w).len());
}

/// Decomposing two atoms with equal names and arities keeps the set of
/// identifiers at stake and strictly shrinks the worklist's size.
pub proof fn lemma_decompose_measure(a1: Seq<Term>, a2: Seq<Term>, w: Seq<(Term, Term)>)
    requires
        w.len() > 0,
        a1.len() == a2.len(),
        w[0].0 matches Term::Atom { name: n1, args: b1 } && b1 == a1,
        w[0].1 matches Term::Atom { name: n2, args: b2 } && b2 == a2,
    ensures
        pairs_ids(zip_pairs(a1, a2) + w.drop_first()) == pairs_ids(w),
        pairs_ids(zip_pairs(a1, a2) + w.drop_first()).len() == pairs_ids(w).len(),
        pairs_size(zip_pairs(a1, a2) + w.drop_first()) + 2 == pairs_size(w),
        pairs_ids(w).finite(),
{
    lemma_zip_pairs(a1, a2);
    lemma_pairs_size_concat(zip_pairs(a1, a2), w.drop_first());
    lemma_pairs_ids_concat(zip_pairs(a1, a2), w.drop_first());
    lemma_pairs_ids_finite(w);
    assert(term_ids(w[0].0) == terms_ids(a1));
    assert(term_ids(w[0].1) == terms_ids(a2));
    assert(term_size(w[0].0) == 1 + terms_size(a1));
    assert(term_size(w[0].1) == 1 + terms_size(a2));
    assert(pairs_ids(zip_pairs(a1, a2) + w.drop_first()) =~= pairs_ids(w));
}

/// The unification algorithm, processing the worklist front to back: equal
/// atoms are decomposed argument by argument onto the front; a variable is
/// bound to the opposite side unless the occurs-check finds the variable
/// inside it, and the binding is at once applied to every remaining pair
/// and composed with the substitution of the rest; a pair of one variable
/// with itself is dropped. A variable without an identifier fails. The
/// result is the most general substitution equating every pending pair, or
/// nothing when there is none.
pub open spec fn spec_unify(w: Seq<(Term, Term)>) -> Option<Map<u32, Term>>
    decreases pairs_ids(w).len(), pairs_size(w),
    via spec_unify_decreases
{
    if w.len() == 0 {
        Some(Map::empty())
    } else {
        let a = w[0].0;
        let b = w[0].1;
        let rest = w.drop_first();
        match a {
            Term::Atom { name: n1, args: a1 } => match b {
                Term::Atom { name: n2, args: a2 } => {
                    if n1 == n2 && a1.len() == a2.len() {
                        spec_unify(zip_pairs(a1, a2) + rest)
                    } else {
                        None
                    }
                },
                Term::Var { name: _, id } => match id {
                    Some(v) => if term_ids(a).contains(v) {
                        None
                    } else {
                        match spec_unify(apply_pairs(single_binding(v, a), rest)) {
                            Some(s) => Some(compose(single_binding(v, a), s)),
                            None => None,
                        }
                    },
                    None => None,
                },
            },
            Term::Var { name: _, id } => match id {
                Some(v) => match b {
                    Term::Atom { .. } => if term_ids(b).contains(v) {
                        None
                    } else {
                        match spec_unify(apply_pairs(single_binding(v, b), rest)) {
                            Some(s) => Some(compose(single_binding(v, b), s)),
                            None => None,
                        }
                    },
                    Term::Var { name: _, id: id2 } => match id2 {
                        Some(v2) => if v == v2 {
                            spec_unify(rest)
                        } else {
                            match spec_unify(apply_pairs(single_binding(v, b), rest)) {
                                Some(s) => Some(compose(single_binding(v, b), s)),
                                None => None,
                            }
                        },
                        None => None,
                    },
                },
                None => None,
            },
        }
    }
}

/// An identifier occurs in a sequence exactly when it occurs in one of
/// its terms.
pub proof fn lemma_terms_ids_contains(ts: Seq<Term>)
    ensures
        forall|x: u32|
            #[trigger] terms_ids(ts).contains(x) <==> exists|i: int|
                0 <= i < ts.len() && term_ids(#[trigger] ts[i]).contains(x),
    decreases ts.len(),
{
    if ts.len() > 0 {
        lemma_terms_ids_contains(ts.drop_first());
        assert forall|x: u32| #[trigger] terms_ids(ts).contains(x) implies exists|i: int|
            0 <= i < ts.len() && term_ids(ts[i]).contains(x) by {
            if term_ids(ts[0]).contains(x) {
            } else {
                assert(terms_ids(ts.drop_first()).contains(x));
                let i = choose|i: int|
                    0 <= i < ts.drop_first().len() && term_ids(ts.drop_first()[i]).contains(x);
                assert(ts[i + 1] == ts.drop_first()[i]);
                assert(term_ids(ts[i + 1]).contains(x));
            }
        }
        assert forall|x: u32|
            exists|i: int|
                0 <= i < ts.len() && term_ids(#[trigger] ts[i]).contains(
                    x,
                ) implies #[trigger] terms_ids(ts).contains(x) by {
            let i = choose|i: int| 0 <= i < ts.len() && term_ids(ts[i]).contains(x);
            if i > 0 {
                assert(ts.drop_first()[i - 1] == ts[i]);
                assert(term_ids(ts.drop_first()[i - 1]).contains(x));
                assert(terms_ids(ts.drop_first()).contains(x));
            }
        }
    }
}

/// Whether the identifier occurs anywhere inside the expression's term.
pub fn occur_check(expr: &Expr, id: VarID) -> (r: bool)
    ensures
        r == term_ids(expr@).contains(id),
    decreases *expr,
{
    match expr {
        Expr::Var(v) => {
            match v.id {
                Some(x) => x == id,
                None => false,
            }
        },
        Expr::Atom(a) => {
            proof {
                crate::ast::lemma_exprs_view_rec(a.arguments@);
                lemma_terms_ids_contains(crate::ast::exprs_view_rec(a.arguments@));
            }
            let n = a.arguments.len();
            for i in 0..n
                invariant
                    n == a.arguments@.len(),
                    *expr == Expr::Atom(*a),
                    forall|j: int| 0 <= j < i ==> !term_ids(a.arguments@[j]@).contains(id),
                    forall|j: int|
                        0 <= j < n ==> crate::ast::exprs_view_rec(a.arguments@)[j]
                            == a.arguments@[j]@,
                    forall|x: u32|
                        #[trigger] terms_ids(crate::ast::exprs_view_rec(a.arguments@)).contains(x)
                            <==> exists|k: int|
                            0 <= k < n && term_ids(
                                #[trigger] crate::ast::exprs_view_rec(a.arguments@)[k],
                            ).contains(x),
            {
                proof {
                    assert(decreases_to!(*expr => expr->Atom_0));
                    assert(expr->Atom_0 == *a);
                    assert(decreases_to!(*a => a.arguments));
                    assert(decreases_to!(a.arguments => a.arguments@[i as int]));
                    assert(decreases_to!(*expr => a.arguments@[i as int]));
                }
                if occur_check(&a.arguments[i], id) {
                    proof {
                        let vw = crate::ast::exprs_view_rec(a.arguments@);
                        assert(term_ids(vw[i as int]).contains(id));
                        assert(terms_ids(vw).contains(id));
                        assert(expr@ == (Term::Atom { name: a.name@, args: vw }));
                        assert(term_ids(expr@) == terms_ids(vw));
                    }
                    return true;
                }
            }
            proof {
                let vw = crate::ast::exprs_view_rec(a.arguments@);
                assert forall|k: int| 0 <= k < n implies !term_ids(vw[k]).contains(id) by {
                    assert(vw[k] == a.arguments@[k]@);
                }
                assert(!terms_ids(vw).contains(id));
                assert(expr@ == (Term::Atom { name: a.name@, args: vw }));
                assert(term_ids(expr@) == terms_ids(vw));
            }
            false
        },
    }
}

#[via_fn]
proof fn spec_unify_decreases(w: Seq<(Term, Term)>) {
    if w.len() > 0 {
        let a = w[0].0;
        let b = w[0].1;
        let rest = w.drop_first();
        lemma_pairs_ids_finite(w);
        match a {
            Term::Atom { name: n1, args: a1 } => match b {
                Term::Atom { name: n2, args: a2 } => {
                    if n1 == n2 && a1.len() == a2.len() {
                        lemma_decompose_measure(a1, a2, w);
                    }
                },
                Term::Var { name: _, id } => match id {
                    Some(v) => if !term_ids(a).contains(v) {
                        assert(pairs_ids(w).contains(v));
                        lemma_bind_measure(v, a, w);
                    },
                    None => {},
                },
            },
            Term::Var { name: _, id } => match id {
                Some(v) => match b {
                    Term::Atom { .. } => if !term_ids(b).contains(v) {
                        assert(pairs_ids(w).contains(v));
                        lemma_bind_measure(v, b, w);
                    },
                    Term::Var { name: _, id: id2 } => match id2 {
                        Some(v2) => if v == v2 {
                            lemma_drop_measure(w);
                            assert(pairs_size(rest) < pairs_size(w));
                        } else {
                            assert(pairs_ids(w).contains(v));
                            assert(!term_ids(b).contains(v));
                            lemma_bind_measure(v, b, w);
                        },
                        None => {},
                    },
                },
                None => {},
            },
        }
    }
}

/// Applying a binding for an identifier that does not occur in a term
/// leaves the term as it is.
pub proof fn lemma_apply_term_absent(v: u32, t: Term, u: Term)
    requires
        !term_ids(u).contains(v),
    ensures
        apply_term(single_binding(v, t), u) == u,
    decreases u,
{
    match u {
        Term::Atom { name, args } => {
            lemma_apply_terms_absent(v, t, args);
        },
        Term::Var { .. } => {},
    }
}

/// Applying such a binding to a sequence of terms, likewise.
pub proof fn lemma_apply_terms_absent(v: u32, t: Term, us: Seq<Term>)
    requires
        !terms_ids(us).contains(v),
    ensures
        apply_terms(single_binding(v, t), us) == us,
    decreases us,
{
    if us.len() > 0 {
        lemma_apply_term_absent(v, t, us[0]);
        lemma_apply_terms_absent(v, t, us.drop_first());
        assert(apply_terms(single_binding(v, t), us) =~= us);
    } else {
        assert(apply_terms(single_binding(v, t), us) =~= us);
    }
}

/// The unifier binds only identifiers at stake in the worklist, and binds
/// them only to terms whose identifiers were at stake.
pub proof fn lemma_unify_ids(w: Seq<(Term, Term)>)
    requires
        spec_unify(w) is Some,
    ensures
        spec_unify(w)->0.dom().subset_of(pairs_ids(w)),
        forall|k: u32|
            #[trigger] spec_unify(w)->0.contains_key(k) ==> term_ids(
                spec_unify(w)->0[k],
            ).subset_of(pairs_ids(w)),
    decreases pairs_ids(w).len(), pairs_size(w), 1int,
{
    if w.len() > 0 {
        let a = w[0].0;
        let b = w[0].1;
        let rest = w.drop_first();
        lemma_pairs_ids_finite(w);
        match a {
            Term::Atom { name: n1, args: a1 } => match b {
                Term::Atom { name: n2, args: a2 } => {
                    lemma_decompose_measure(a1, a2, w);
                    lemma_unify_ids(zip_pairs(a1, a2) + rest);
                },
                Term::Var { name: _, id } => {
                    let v = id->0;
                    lemma_bind_measure(v, a, w);
                    lemma_unify_bind_ids(v, a, w);
                },
            },
            Term::Var { name: _, id } => {
                let v = id->0;
                match b {
                    Term::Atom { .. } => {
                        lemma_bind_measure(v, b, w);
                        lemma_unify_bind_ids(v, b, w);
                    },
                    Term::Var { name: _, id: id2 } => {
                        if (id2 is Some) && v == id2->0 {
                            lemma_drop_measure(w);
                            lemma_unify_ids(rest);
                        } else {
                            lemma_bind_measure(v, b, w);
                            lemma_unify_bind_ids(v, b, w);
                        }
                    },
                }
            },
        }
    }
}

/// The identifier bookkeeping of one binding step of the unifier.
proof fn lemma_unify_bind_ids(v: u32, t: Term, w: Seq<(Term, Term)>)
    requires
        w.len() > 0,
        pairs_ids(w).contains(v),
        term_ids(t).subset_of(pairs_ids(w)),
        !term_ids(t).contains(v),
        spec_unify(apply_pairs(single_binding(v, t), w.drop_first())) is Some,
        pairs_ids(apply_pairs(single_binding(v, t), w.drop_first())).len() < pairs_ids(w).len(),
    ensures
        ({
            let s = compose(
                single_binding(v, t),
                spec_unify(apply_pairs(single_binding(v, t), w.drop_first()))->0,
            );
            &&& s.dom().subset_of(pairs_ids(w))
            &&& forall|k: u32|
                #[trigger] s.contains_key(k) ==> term_ids(s[k]).subset_of(pairs_ids(w))
        }),
    decreases pairs_ids(w).len(), pairs_size(w), 0int,
{
    let rest = w.drop_first();
    let w2 = apply_pairs(single_binding(v, t), rest);
    let sigma = spec_unify(w2)->0;
    let s = compose(single_binding(v, t), sigma);
    lemma_unify_ids(w2);
    lemma_apply_pairs_single_ids(v, t, rest);
    assert(pairs_ids(rest).subset_of(pairs_ids(w)));
    assert(pairs_ids(w2).subset_of(pairs_ids(w)));
    assert forall|k: u32| #[trigger] s.contains_key(k) implies term_ids(s[k]).subset_of(
        pairs_ids(w),
    ) by {
        if sigma.contains_key(k) {
            assert(s[k] == apply_term(single_binding(v, t), sigma[k]));
            lemma_apply_term_single_ids(v, t, sigma[k]);
            assert(term_ids(sigma[k]).subset_of(pairs_ids(w2)));
        } else {
            assert(k == v && s[k] == t);
        }
    }
}

/// The acyclicity of a substitution: some ranking of the identifiers
/// strictly increases from every bound identifier to each bound
/// identifier occurring in its term, so that resolving a binding
/// transitively through the whole substitution never reaches back its
/// own key.
pub open spec fn ranked_by(s: Map<u32, Term>, rank: spec_fn(u32) -> nat) -> bool {
    forall|k: u32, j: u32|
        s.contains_key(k) && s.contains_key(j) && #[trigger] term_ids(s[k]).contains(j) ==> rank(
            j,
        ) > rank(k)
}

pub open spec fn acyclic(s: Map<u32, Term>) -> bool {
    exists|rank: spec_fn(u32) -> nat| #[trigger] ranked_by(s, rank)
}

/// What the unifier returns is free of cycles: the occurs-check at each
/// binding step keeps every substitution it ever produces acyclic.
pub proof fn lemma_unify_acyclic(w: Seq<(Term, Term)>)
    requires
        spec_unify(w) is Some,
    ensures
        acyclic(spec_unify(w)->0),
    decreases pairs_ids(w).len(), pairs_size(w), 1int,
{
    if w.len() == 0 {
        let rank = |x: u32| 0nat;
        assert(ranked_by(spec_unify(w)->0, rank));
    } else {
        let a = w[0].0;
        let b = w[0].1;
        let rest = w.drop_first();
        lemma_pairs_ids_finite(w);
        match a {
            Term::Atom { name: n1, args: a1 } => match b {
                Term::Atom { name: n2, args: a2 } => {
                    lemma_decompose_measure(a1, a2, w);
                    lemma_unify_acyclic(zip_pairs(a1, a2) + rest);
                },
                Term::Var { name: _, id } => {
                    let v = id->0;
                    lemma_bind_measure(v, a, w);
                    lemma_bind_acyclic(v, a, w);
                },
            },
            Term::Var { name: _, id } => {
                let v = id->0;
                match b {
                    Term::Atom { .. } => {
                        lemma_bind_measure(v, b, w);
                        lemma_bind_acyclic(v, b, w);
                    },
                    Term::Var { name: _, id: id2 } => {
                        if (id2 is Some) && v == id2->0 {
                            lemma_drop_measure(w);
                            lemma_unify_acyclic(rest);
                        } else {
                            lemma_bind_measure(v, b, w);
                            lemma_bind_acyclic(v, b, w);
                        }
                    },
                }
            },
        }
    }
}

/// One binding step keeps the substitution acyclic: the new identifier is
/// ranked below the rest, its term avoids it by the occurs-check, and the
/// bindings of the rest are untouched because the propagation already
/// removed the identifier from the remaining worklist.
proof fn lemma_bind_acyclic(v: u32, t: Term, w: Seq<(Term, Term)>)
    requires
        w.len() > 0,
        pairs_ids(w).contains(v),
        term_ids(t).subset_of(pairs_ids(w)),
        !term_ids(t).contains(v),
        spec_unify(apply_pairs(single_binding(v, t), w.drop_first())) is Some,
        pairs_ids(apply_pairs(single_binding(v, t), w.drop_first())).len() < pairs_ids(w).len(),
    ensures
        acyclic(
            compose(
                single_binding(v, t),
                spec_unify(apply_pairs(single_binding(v, t), w.drop_first()))->0,
            ),
        ),
    decreases pairs_ids(w).len(), pairs_size(w), 0int,
{
    let rest = w.drop_first();
    let w2 = apply_pairs(single_binding(v, t), rest);
    let sigma = spec_unify(w2)->0;
    let s = compose(single_binding(v, t), sigma);
    lemma_unify_acyclic(w2);
    lemma_unify_ids(w2);
    let rank = choose|rank: spec_fn(u32) -> nat| ranked_by(sigma, rank);
    let rank2 = |x: u32| if x == v { 0nat } else { (rank(x) + 1) as nat };
    assert forall|k: u32| #[trigger] sigma.contains_key(k) implies s[k] == sigma[k] && !term_ids(
        sigma[k],
    ).contains(v) by {
        assert(term_ids(sigma[k]).subset_of(pairs_ids(w2)));
        lemma_apply_pairs_single_ids(v, t, rest);
        assert(!pairs_ids(w2).contains(v));
        lemma_apply_term_absent(v, t, sigma[k]);
        assert(s[k] == apply_term(single_binding(v, t), sigma[k]));
    }
    assert forall|k: u32, j: u32|
        s.contains_key(k) && s.contains_key(j) && #[trigger] term_ids(s[k]).contains(
            j,
        ) implies rank2(j) > rank2(k) by {
        lemma_apply_pairs_single_ids(v, t, rest);
        if k == v {
            assert(s[k] == t);
            assert(j != v);
        } else {
            assert(sigma.contains_key(k));
            assert(s[k] == sigma[k]);
            assert(!term_ids(sigma[k]).contains(v));
            assert(j != v);
            assert(sigma.contains_key(j));
        }
    }
    assert(ranked_by(s, rank2));
    assert(acyclic(s));
}

/// Unifying any worklist that equates each ground term with itself
/// succeeds with the empty substitution; in particular, a ground atom
/// unifies with itself without binding anything.
pub proof fn lemma_unify_identical_ground(w: Seq<(Term, Term)>)
    requires
        forall|i: int| 0 <= i < w.len() ==> (#[trigger] w[i]).0 == w[i].1,
        forall|i: int| 0 <= i < w.len() ==> term_ground((#[trigger] w[i]).0),
    ensures
        spec_unify(w) == Some(Map::<u32, Term>::empty()),
    decreases pairs_ids(w).len(), pairs_size(w),
{
    if w.len() > 0 {
        let a = w[0].0;
        let rest = w.drop_first();
        match a {
            Term::Atom { name, args } => {
                let w2 = zip_pairs(args, args) + rest;
                lemma_decompose_measure(args, args, w);
                assert(spec_unify(w) == spec_unify(w2));
                crate::model::lemma_terms_ground(args);
                lemma_pairs_size_concat(zip_pairs(args, args), rest);
                assert forall|i: int| 0 <= i < w2.len() implies (#[trigger] w2[i]).0 == w2[i].1
                    && term_ground(w2[i].0) by {
                    if i < args.len() {
                        assert(w2[i] == (args[i], args[i]));
                    } else {
                        assert(w2[i] == rest[i - args.len()]);
                        assert(rest[i - args.len()] == w[i - args.len() + 1]);
                    }
                }
                lemma_unify_identical_ground(w2);
            },
            Term::Var { .. } => {
                assert(!term_ground(w[0].0));
            },
        }
    }
}

/// Unifying a variable against an atom in which that same variable
/// occurs fails: the occurs-check rejects the cyclic binding.
pub proof fn lemma_unify_occurs_fails(w: Seq<(Term, Term)>, v: u32)
    requires
        w.len() >= 1,
        w[0].0 matches Term::Var { name: _, id } && id == Some(v),
        w[0].1 is Atom,
        term_ids(w[0].1).contains(v),
    ensures
        spec_unify(w) is None,
{
}

/// Pairs of expressions, viewed as pairs of terms.
pub open spec fn expr_pairs_view(ps: Seq<(Expr, Expr)>) -> Seq<(Term, Term)> {
    Seq::new(ps.len(), |i: int| (ps[i].0@, ps[i].1@))
}

/// Binds `v` to `t`, applies the binding to every remaining pair, unifies
/// the rest, and composes the binding with the resulting substitution.
fn bind_and_continue(
    v: VarID,
    t: Expr,
    rest: Vec<(Expr, Expr)>,
    Ghost(w): Ghost<Seq<(Term, Term)>>,
) -> (r: Option<VarSubstitution>)
    requires
        w.len() > 0,
        expr_pairs_view(rest@) == w.drop_first(),
        pairs_ids(w).contains(v),
        term_ids(t@).subset_of(pairs_ids(w)),
        !term_ids(t@).contains(v),
    ensures
        match r {
            Some(s) => s.wf() && (spec_unify(
                apply_pairs(single_binding(v, t@), w.drop_first()),
            ) matches Some(s0) && s@ == compose(single_binding(v, t@), s0)),
            None => spec_unify(apply_pairs(single_binding(v, t@), w.drop_first())) is None,
        },
    decreases pairs_ids(w).len(), pairs_size(w), 0int,
{
    let mut single = VarSubstitution::new();
    let td = t.duplicate();
    single.insert(v, td);
    let mut rest = rest;
    let n = rest.len();
    let ghost rv = rest@;
    for i in 0..n
        invariant
            n == rest@.len(),
            rv.len() == n,
            single.wf(),
            single@ == single_binding(v, t@),
            forall|j: int| i <= j < n ==> rest@[j] == rv[j],
            forall|j: int|
                0 <= j < i ==> (#[trigger] rest@[j]).0@ == apply_term(
                    single_binding(v, t@),
                    rv[j].0@,
                ) && rest@[j].1@ == apply_term(single_binding(v, t@), rv[j].1@),
    {
        let e0 = single.apply_expr(&rest[i].0);
        let e1 = single.apply_expr(&rest[i].1);
        rest.set(i, (e0, e1));
    }
    proof {
        lemma_apply_pairs(single_binding(v, t@), w.drop_first());
        assert forall|j: int| 0 <= j < n implies (rv[j].0@, rv[j].1@) == w.drop_first()[j] by {
            assert(expr_pairs_view(rv)[j] == (rv[j].0@, rv[j].1@));
        }
        assert(expr_pairs_view(rest@) =~= apply_pairs(single_binding(v, t@), w.drop_first()));
        lemma_bind_measure(v, t@, w);
    }
    match unify_exprs(rest) {
        None => None,
        Some(s) => {
            let mut s = s;
            s.merge(&single);
            Some(s)
        },
    }
}

/// Unifies every pending pair of the worklist, returning the substitution
/// that the unification algorithm denotes for it, or nothing when the
/// pairs cannot be made equal.
pub fn unify_exprs(pairs: Vec<(Expr, Expr)>) -> (r: Option<VarSubstitution>)
    ensures
        match r {
            Some(s) => s.wf() && spec_unify(expr_pairs_view(pairs@)) == Some(s@),
            None => spec_unify(expr_pairs_view(pairs@)) is None,
        },
    decreases pairs_ids(expr_pairs_view(pairs@)).len(), pairs_size(expr_pairs_view(pairs@)), 1int,
{
    let ghost w = expr_pairs_view(pairs@);
    if pairs.len() == 0 {
        return Some(VarSubstitution::new());
    }
    let mut rest = pairs;
    let first = rest.remove(0);
    let ghost rv = rest@;
    proof {
        assert(expr_pairs_view(rest@) =~= w.drop_first());
        assert(w[0] == (first.0@, first.1@));
    }
    match first {
        (Expr::Atom(a1), Expr::Atom(a2)) => {
            let ghost ta1 = crate::ast::exprs_view_rec(a1.arguments@);
            let ghost ta2 = crate::ast::exprs_view_rec(a2.arguments@);
            proof {
                crate::ast::lemma_exprs_view_rec(a1.arguments@);
                crate::ast::lemma_exprs_view_rec(a2.arguments@);
                assert(w[0].0 == (Term::Atom { name: a1.name@, args: ta1 }));
                assert(w[0].1 == (Term::Atom { name: a2.name@, args: ta2 }));
            }
            if !(a1.name == a2.name) {
                return None;
            }
            if a1.arguments.len() != a2.arguments.len() {
                return None;
            }
            let n = a1.arguments.len();
            let mut work: Vec<(Expr, Expr)> = Vec::new();
            for i in 0..n
                invariant
                    n == a1.arguments@.len(),
                    n == a2.arguments@.len(),
                    work@.len() == i,
                    forall|j: int|
                        0 <= j < i ==> (#[trigger] work@[j]).0@ == a1.arguments@[j]@
                            && work@[j].1@ == a2.arguments@[j]@,
            {
                let x = a1.arguments[i].duplicate();
                let y = a2.arguments[i].duplicate();
                work.push((x, y));
            }
            let mut tail = rest;
            work.append(&mut tail);
            proof {
                assert(ta1.len() == n && ta2.len() == n);
                let ghost target = zip_pairs(ta1, ta2) + w.drop_first();
                assert forall|j: int|
                    0 <= j < work@.len() implies expr_pairs_view(work@)[j] == target[j] by {
                    if j < n {
                        assert(work@[j].0@ == ta1[j] && work@[j].1@ == ta2[j]);
                    } else {
                        assert(work@[j] == rv[j - n]);
                        assert(expr_pairs_view(rv)[j - n] == (rv[j - n].0@, rv[j - n].1@));
                    }
                }
                assert(expr_pairs_view(work@) =~= zip_pairs(ta1, ta2) + w.drop_first());
                lemma_decompose_measure(ta1, ta2, w);
            }
            let res = unify_exprs(work);
            proof {
                assert(a1.name@ == a2.name@);
                assert(spec_unify(w) == spec_unify(zip_pairs(ta1, ta2) + w.drop_first()));
            }
            res
        },
        (Expr::Var(v1), Expr::Atom(a2)) => {
            match v1.id {
                None => None,
                Some(v) => {
                    let b = Expr::Atom(a2);
                    proof {
                        assert(w[0].0 == (Term::Var { name: v1.name@, id: Some(v) }));
                        assert(b@ == w[0].1);
                    }
                    if occur_check(&b, v) {
                        return None;
                    }
                    proof {
                        assert(term_ids(w[0].0).contains(v));
                        assert(pairs_ids(w).contains(v));
                        assert(term_ids(b@).subset_of(pairs_ids(w)));
                    }
                    let res = bind_and_continue(v, b, rest, Ghost(w));
                    res
                },
            }
        },
        (Expr::Atom(a1), Expr::Var(v2)) => {
            match v2.id {
                None => None,
                Some(v) => {
                    let t = Expr::Atom(a1);
                    proof {
                        assert(w[0].1 == (Term::Var { name: v2.name@, id: Some(v) }));
                        assert(t@ == w[0].0);
                    }
                    if occur_check(&t, v) {
                        return None;
                    }
                    proof {
                        assert(term_ids(w[0].1).contains(v));
                        assert(pairs_ids(w).contains(v));
                        assert(term_ids(t@).subset_of(pairs_ids(w)));
                    }
                    let res = bind_and_continue(v, t, rest, Ghost(w));
                    res
                },
            }
        },
        (Expr::Var(v1), Expr::Var(v2)) => {
            match v1.id {
                None => None,
                Some(v) => {
                    match v2.id {
                        None => None,
                        Some(x2) => {
                            if v == x2 {
                                proof {
                                    lemma_drop_measure(w);
                                    assert(term_size(w[0].0) == 1 && term_size(w[0].1) == 1);
                                    assert(pairs_size(w.drop_first()) < pairs_size(w));
                                }
                                let res = unify_exprs(rest);
                                res
                            } else {
                                let t = Expr::Var(v2);
                                proof {
                                    assert(w[0].0 == (Term::Var { name: v1.name@, id: Some(v) }));
                                    assert(t@ == w[0].1);
                                    assert(term_ids(w[0].0).contains(v));
                                    assert(pairs_ids(w).contains(v));
                                    assert(term_ids(t@).subset_of(pairs_ids(w)));
                                    assert(!term_ids(t@).contains(v));
                                }
                                let res = bind_and_continue(v, t, rest, Ghost(w));
                                res
                            }
                        },
                    }
                },
            }
        },
    }
}

} // verus!
