//! The mathematical model of terms: the ghost counterpart of the executable
//! expression type, together with the size, identifier-set and substitution
//! functions that the contracts of the engine are stated over.

use vstd::prelude::*;

verus! {

/// A term: an atom with a name and an ordered argument list, or a variable
/// with a name and an optional identifier.
pub enum Term {
    Atom { name: Seq<char>, args: Seq<Term> },
    Var { name: Seq<char>, id: Option<u32> },
}

/// Number of nodes of a term; every term has at least one.
pub open spec fn term_size(t: Term) -> nat
    decreases t,
{
    match t {
        Term::Atom { name, args } => 1 + terms_size(args),
        Term::Var { .. } => 1,
    }
}

/// Total number of nodes of a sequence of terms.
pub open spec fn terms_size(ts: Seq<Term>) -> nat
    decreases ts,
{
    if ts.len() == 0 {
        0
    } else {
        term_size(ts[0]) + terms_size(ts.drop_first())
    }
}

/// The set of variable identifiers occurring in a term.
pub open spec fn term_ids(t: Term) -> Set<u32>
    decreases t,
{
    match t {
        Term::Atom { name, args } => terms_ids(args),
        Term::Var { name, id } => match id {
            Some(v) => set![v],
            None => Set::empty(),
        },
    }
}

/// The set of variable identifiers occurring in a sequence of terms.
pub open spec fn terms_ids(ts: Seq<Term>) -> Set<u32>
    decreases ts,
{
    if ts.len() == 0 {
        Set::empty()
    } else {
        term_ids(ts[0]).union(terms_ids(ts.drop_first()))
    }
}

/// A term is ground when no variable occurs in it.
pub open spec fn term_ground(t: Term) -> bool
    decreases t,
{
    match t {
        Term::Atom { name, args } => terms_ground(args),
        Term::Var { .. } => false,
    }
}

/// All terms of the sequence are ground.
pub open spec fn terms_ground(ts: Seq<Term>) -> bool
    decreases ts,
{
    if ts.len() == 0 {
        true
    } else {
        term_ground(ts[0]) && terms_ground(ts.drop_first())
    }
}

/// No variable of the term carries an identifier yet: the shape statements
/// have when they reach the engine, before a renaming scope assigns ids.
pub open spec fn term_ids_unassigned(t: Term) -> bool
    decreases t,
{
    match t {
        Term::Atom { name, args } => terms_ids_unassigned(args),
        Term::Var { name, id } => id is None,
    }
}

/// No variable of any term of the sequence carries an identifier yet.
pub open spec fn terms_ids_unassigned(ts: Seq<Term>) -> bool
    decreases ts,
{
    if ts.len() == 0 {
        true
    } else {
        term_ids_unassigned(ts[0]) && terms_ids_unassigned(ts.drop_first())
    }
}

/// A sequence of terms is identifier-free exactly when each element is.
pub proof fn lemma_terms_ids_unassigned(ts: Seq<Term>)
    ensures
        terms_ids_unassigned(ts) <==> forall|i: int|
            0 <= i < ts.len() ==> term_ids_unassigned(ts[i]),
    decreases ts.len(),
{
    if ts.len() > 0 {
        lemma_terms_ids_unassigned(ts.drop_first());
        assert(forall|i: int|
            1 <= i < ts.len() ==> ts[i] == ts.drop_first()[i - 1]);
    }
}

/// A sequence of terms is ground exactly when each element is.
pub proof fn lemma_terms_ground(ts: Seq<Term>)
    ensures
        terms_ground(ts) <==> forall|i: int| 0 <= i < ts.len() ==> term_ground(ts[i]),
    decreases ts.len(),
{
    if ts.len() > 0 {
        lemma_terms_ground(ts.drop_first());
        assert(forall|i: int|
            1 <= i < ts.len() ==> ts[i] == ts.drop_first()[i - 1]);
    }
}

/// The source rendering of a term: a variable is its name after `$`; an
/// atom is its name, followed, when it has arguments, by their renderings
/// between parentheses, separated by comma and space.
pub open spec fn render_term(t: Term) -> Seq<char>
    decreases t,
{
    match t {
        Term::Var { name, id } => seq!['$'] + name,
        Term::Atom { name, args } => if args.len() == 0 {
            name
        } else {
            name + seq!['('] + render_args(args) + seq![')']
        },
    }
}

/// The renderings of a non-empty argument list, separated by comma and
/// space.
pub open spec fn render_args(ts: Seq<Term>) -> Seq<char>
    decreases ts,
{
    if ts.len() == 0 {
        Seq::empty()
    } else if ts.len() == 1 {
        render_term(ts[0])
    } else {
        render_term(ts[0]) + seq![',', ' '] + render_args(ts.drop_first())
    }
}

/// Rendering one more argument appends a separator and its rendering.
pub proof fn lemma_render_args_push(ts: Seq<Term>, t: Term)
    requires
        ts.len() >= 1,
    ensures
        render_args(ts.push(t)) == render_args(ts) + seq![',', ' '] + render_term(t),
    decreases ts.len(),
{
    if ts.len() == 1 {
        assert(ts.push(t)[0] == ts[0]);
        assert(ts.push(t).drop_first() =~= seq![t]);
        assert(render_args(seq![t]) == render_term(t));
        assert(render_args(ts.push(t)) =~= render_args(ts) + seq![',', ' '] + render_term(t));
    } else {
        lemma_render_args_push(ts.drop_first(), t);
        assert(ts.push(t)[0] == ts[0]);
        assert(ts.push(t).drop_first() =~= ts.drop_first().push(t));
        assert(render_args(ts.push(t)) =~= render_args(ts) + seq![',', ' '] + render_term(t));
    }
}

/// Applies a substitution to a term: a bound variable is replaced by the
/// term it is bound to (the replacement itself is not walked again).
pub open spec fn apply_term(m: Map<u32, Term>, t: Term) -> Term
    decreases t,
{
    match t {
        Term::Atom { name, args } => Term::Atom { name, args: apply_terms(m, args) },
        Term::Var { name, id } => match id {
            Some(v) => if m.contains_key(v) {
                m[v]
            } else {
                t
            },
            None => t,
        },
    }
}

/// Applies a substitution to every term of a sequence.
pub open spec fn apply_terms(m: Map<u32, Term>, ts: Seq<Term>) -> Seq<Term>
    decreases ts,
{
    if ts.len() == 0 {
        Seq::empty()
    } else {
        seq![apply_term(m, ts[0])] + apply_terms(m, ts.drop_first())
    }
}

/// Applying a substitution to a sequence acts element by element.
pub proof fn lemma_apply_terms(m: Map<u32, Term>, ts: Seq<Term>)
    ensures
        apply_terms(m, ts).len() == ts.len(),
        forall|i: int| 0 <= i < ts.len() ==> apply_terms(m, ts)[i] == apply_term(m, ts[i]),
    decreases ts.len(),
{
    if ts.len() > 0 {
        lemma_apply_terms(m, ts.drop_first());
    }
}

/// Composition of two substitutions: `earlier`'s bindings are applied to
/// every right-hand side of `later`, and the bindings of `earlier` whose key
/// `later` does not bind are added unchanged.
pub open spec fn compose(earlier: Map<u32, Term>, later: Map<u32, Term>) -> Map<u32, Term> {
    Map::new(
        |k: u32| earlier.contains_key(k) || later.contains_key(k),
        |k: u32| if later.contains_key(k) {
            apply_term(earlier, later[k])
        } else {
            earlier[k]
        },
    )
}

} // verus!
