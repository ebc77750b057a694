//! Variable substitutions, the variable allocator with its renaming scopes,
//! and the knowledge base that stores each predicate's arity and rules.

use vstd::prelude::*;

use crate::ast::{DefStatement, Expr, PredicateObj, VarID};
use crate::error::ErrorKind;
use crate::model::{apply_term, compose, Term};

verus! {

/// The keys of a name-indexed association list are pairwise distinct.
pub open spec fn unique_name_keys(s: Seq<(String, u32)>) -> bool {
    forall|i: int, j: int| 0 <= i < j < s.len() ==> s[i].0@ != s[j].0@
}

/// The mapping denoted by an association list from names to identifiers.
pub open spec fn scope_map(s: Seq<(String, u32)>) -> Map<Seq<char>, u32>
    decreases s.len(),
{
    if s.len() == 0 {
        Map::empty()
    } else {
        scope_map(s.drop_last()).insert(s.last().0@, s.last().1)
    }
}

/// The domain of the denoted mapping is exactly the set of names.
pub proof fn lemma_scope_map_dom(s: Seq<(String, u32)>)
    ensures
        forall|k: Seq<char>|
            #[trigger] scope_map(s).contains_key(k) <==> exists|i: int|
                0 <= i < s.len() && s[i].0@ == k,
    decreases s.len(),
{
    if s.len() > 0 {
        lemma_scope_map_dom(s.drop_last());
        assert forall|k: Seq<char>| #[trigger] scope_map(s).contains_key(k) implies exists|i: int|
            0 <= i < s.len() && s[i].0@ == k by {
            if k == s.last().0@ {
                assert(s[s.len() - 1].0@ == k);
            } else {
                assert(scope_map(s.drop_last()).contains_key(k));
                let i = choose|i: int| 0 <= i < s.drop_last().len() && s.drop_last()[i].0@ == k;
                assert(s[i] == s.drop_last()[i]);
                assert(s[i].0@ == k);
            }
        }
        assert forall|k: Seq<char>|
            exists|i: int| 0 <= i < s.len() && s[i].0@ == k implies #[trigger] scope_map(
            s,
        ).contains_key(k) by {
            let i = choose|i: int| 0 <= i < s.len() && s[i].0@ == k;
            if i < s.len() - 1 {
                assert(s.drop_last()[i].0@ == k);
                assert(exists|j: int| 0 <= j < s.drop_last().len() && s.drop_last()[j].0@ == k);
                assert(scope_map(s.drop_last()).contains_key(k));
            } else {
                assert(s.last().0@ == k);
            }
        }
    }
}

/// With distinct names, each entry is reflected in the denoted mapping.
pub proof fn lemma_scope_map_at(s: Seq<(String, u32)>, i: int)
    requires
        unique_name_keys(s),
        0 <= i < s.len(),
    ensures
        scope_map(s).contains_key(s[i].0@),
        scope_map(s)[s[i].0@] == s[i].1,
    decreases s.len(),
{
    if i < s.len() - 1 {
        lemma_scope_map_at(s.drop_last(), i);
        assert(s.drop_last()[i] == s[i]);
    }
}

/// One renaming scope: the variable names seen so far in the scope, each
/// with the identifier recorded for it.
pub struct ScopeMap {
    pub entries: Vec<(String, u32)>,
}

impl View for ScopeMap {
    type V = Map<Seq<char>, u32>;

    open spec fn view(&self) -> Map<Seq<char>, u32> {
        scope_map(self.entries@)
    }
}

impl ScopeMap {
    /// The internal invariant: no name is recorded twice.
    pub open spec fn wf(&self) -> bool {
        unique_name_keys(self.entries@)
    }

    /// Builds an empty scope.
    pub fn new() -> (r: Self)
        ensures
            r@ == Map::<Seq<char>, u32>::empty(),
            r.wf(),
            r.entries@.len() == 0,
    {
        ScopeMap { entries: Vec::new() }
    }

    /// The identifier recorded for a name, if any.
    pub fn get(&self, name: &String) -> (r: Option<u32>)
        requires
            self.wf(),
        ensures
            match r {
                Some(id) => self@.contains_key(name@) && id == self@[name@],
                None => !self@.contains_key(name@),
            },
    {
        proof {
            lemma_scope_map_dom(self.entries@);
        }
        let n = self.entries.len();
        for i in 0..n
            invariant
                n == self.entries.len(),
                self.wf(),
                forall|j: int| 0 <= j < i ==> self.entries@[j].0@ != name@,
        {
            if self.entries[i].0 == *name {
                proof {
                    lemma_scope_map_at(self.entries@, i as int);
                }
                return Some(self.entries[i].1);
            }
        }
        None
    }

    /// Records an identifier for a name not seen before in the scope.
    pub fn insert(&mut self, name: String, id: u32)
        requires
            old(self).wf(),
            !old(self)@.contains_key(name@),
        ensures
            final(self).wf(),
            final(self)@ == old(self)@.insert(name@, id),
    {
        proof {
            lemma_scope_map_dom(self.entries@);
            lemma_scope_map_push_name(self.entries@, name, id);
        }
        self.entries.push((name, id));
    }
}

/// Appending an entry denotes inserting into the mapping.
pub proof fn lemma_scope_map_push_name(s: Seq<(String, u32)>, name: String, id: u32)
    ensures
        scope_map(s.push((name, id))) == scope_map(s).insert(name@, id),
{
    assert(s.push((name, id)).drop_last() =~= s);
}

/// Issues globally unique, monotonically increasing variable identifiers,
/// and maps source variable names to identifiers within renaming scopes.
pub struct VarAllocator {
    pub num_vars: u32,
}

impl VarAllocator {
    /// Builds an allocator whose counter starts at zero.
    pub fn new() -> (r: Self)
        ensures
            r.num_vars == 0,
    {
        VarAllocator { num_vars: 0 }
    }

    /// Issues the next identifier and advances the counter.
    fn gen_new_id(&mut self) -> (r: VarID)
        requires
            old(self).num_vars < u32::MAX,
        ensures
            r == old(self).num_vars,
            final(self).num_vars == old(self).num_vars + 1,
    {
        let id = self.num_vars;
        self.num_vars = self.num_vars + 1;
        id
    }

    /// Assigns identifiers within one expression, depth first: a variable
    /// without one reuses the scope's identifier for its name or takes a
    /// fresh one; a variable that already carries one is an invariant
    /// violation.
    fn assign_expr(&mut self, e: &Expr, assigned: &mut ScopeMap) -> (r: Result<Expr, ErrorKind>)
        requires
            old(self).num_vars as int + crate::model::term_size(e@) <= u32::MAX as int,
            old(assigned).wf(),
        ensures
            final(assigned).wf(),
            old(self).num_vars <= final(self).num_vars,
            final(self).num_vars as int <= old(self).num_vars as int + crate::model::term_size(
                e@,
            ),
            r is Ok <==> crate::model::term_ids_unassigned(e@),
            r matches Ok(e2) ==> ({
                let res = spec_assign_term(old(self).num_vars as int, old(assigned)@, e@);
                &&& e2@ == res.0
                &&& final(self).num_vars as int == res.1
                &&& final(assigned)@ == res.2
            }),
            r matches Err(err) ==> err is VariableIDAlreadyAssigned,
        decreases *e,
    {
        match e {
            Expr::Var(v) => {
                match v.id {
                    Some(_) => Err(ErrorKind::VariableIDAlreadyAssigned(v.name.clone())),
                    None => {
                        match assigned.get(&v.name) {
                            Some(id) => Ok(
                                Expr::Var(
                                    crate::ast::VarExpr { name: v.name.clone(), id: Some(id) },
                                ),
                            ),
                            None => {
                                let id = self.gen_new_id();
                                assigned.insert(v.name.clone(), id);
                                Ok(
                                    Expr::Var(
                                        crate::ast::VarExpr { name: v.name.clone(), id: Some(id) },
                                    ),
                                )
                            },
                        }
                    },
                }
            },
            Expr::Atom(a) => {
                let mut args: Vec<Expr> = Vec::new();
                let n = a.arguments.len();
                let ghost full = crate::ast::exprs_view_rec(a.arguments@);
                let ghost c0 = self.num_vars as int;
                let ghost s0 = assigned@;
                let ghost fin = spec_assign_terms(c0, s0, full);
                proof {
                    crate::ast::lemma_exprs_view_rec(a.arguments@);
                    lemma_spec_assign_terms_len(c0, s0, full);
                    assert(full.skip(0) =~= full);
                    assert(fin.0.skip(0) =~= fin.0);
                }
                for i in 0..n
                    invariant
                        n == a.arguments@.len(),
                        *e == Expr::Atom(*a),
                        full == crate::ast::exprs_view_rec(a.arguments@),
                        full.len() == n,
                        fin.0.len() == n,
                        c0 == old(self).num_vars as int,
                        s0 == old(assigned)@,
                        crate::model::term_size(e@) == 1 + crate::model::terms_size(full),
                        forall|j: int| 0 <= j < n ==> full[j] == a.arguments@[j]@,
                        fin == spec_assign_terms(c0, s0, full),
                        c0 + crate::model::terms_size(full) + 1 <= u32::MAX as int,
                        args@.len() == i,
                        assigned.wf(),
                        forall|j: int| 0 <= j < i ==> args@[j]@ == fin.0[j],
                        forall|j: int| 0 <= j < i ==> crate::model::term_ids_unassigned(full[j]),
                        spec_assign_terms(
                            self.num_vars as int,
                            assigned@,
                            full.skip(i as int),
                        ) == (fin.0.skip(i as int), fin.1, fin.2),
                        c0 <= self.num_vars as int,
                        self.num_vars as int + crate::model::terms_size(full.skip(i as int)) <= c0
                            + crate::model::terms_size(full),
                {
                    let ghost suffix = full.skip(i as int);
                    let ghost cur = self.num_vars as int;
                    let ghost sc = assigned@;
                    proof {
                        assert(decreases_to!(*e => e->Atom_0));
                        assert(e->Atom_0 == *a);
                        assert(decreases_to!(*a => a.arguments));
                        assert(decreases_to!(a.arguments => a.arguments@[i as int]));
                        assert(decreases_to!(*e => a.arguments@[i as int]));
                        assert(suffix[0] == full[i as int]);
                        assert(suffix.drop_first() =~= full.skip(i as int + 1));
                        assert(crate::model::terms_size(suffix) == crate::model::term_size(
                            suffix[0],
                        ) + crate::model::terms_size(suffix.drop_first()));
                    }
                    let r1 = self.assign_expr(&a.arguments[i], assigned);
                    match r1 {
                        Ok(e2) => {
                            args.push(e2);
                            proof {
                                let step = spec_assign_term(cur, sc, suffix[0]);
                                let rest = spec_assign_terms(step.1, step.2, suffix.drop_first());
                                assert(spec_assign_terms(cur, sc, suffix) == (
                                    seq![step.0] + rest.0,
                                    rest.1,
                                    rest.2,
                                ));
                                assert(fin.0.skip(i as int) == seq![step.0] + rest.0);
                                assert(fin.0.skip(i as int)[0] == step.0);
                                assert((seq![step.0] + rest.0).drop_first() =~= rest.0);
                                assert(fin.0.skip(i as int).drop_first() =~= fin.0.skip(
                                    i as int + 1,
                                ));
                                assert(rest.0 == fin.0.skip(i as int + 1));
                                assert(fin.0[i as int] == fin.0.skip(i as int)[0]);
                            }
                        },
                        Err(err) => {
                            proof {
                                crate::model::lemma_terms_ids_unassigned(full);
                            }
                            return Err(err);
                        },
                    }
                }
                proof {
                    crate::model::lemma_terms_ids_unassigned(full);
                    crate::ast::lemma_exprs_view_rec(args@);
                    assert(full.skip(n as int) =~= Seq::<Term>::empty());
                    assert(fin.0.skip(n as int) =~= Seq::<Term>::empty());
                    assert(fin.0.len() == n);
                    assert(crate::ast::exprs_view_rec(args@) =~= fin.0);
                }
                Ok(Expr::Atom(crate::ast::AtomExpr { name: a.name.clone(), arguments: args }))
            },
        }
    }

    /// Assigns identifiers to every expression of the list, left to right,
    /// within the given scope.
    pub fn assign_new_ids(&mut self, exprs: &mut Vec<Expr>, assigned: &mut ScopeMap) -> (r: Result<
        (),
        ErrorKind,
    >)
        requires
            old(self).num_vars as int + crate::model::terms_size(
                crate::ast::exprs_view_rec(old(exprs)@),
            ) <= u32::MAX as int,
            old(assigned).wf(),
        ensures
            final(assigned).wf(),
            old(self).num_vars <= final(self).num_vars,
            final(self).num_vars as int <= old(self).num_vars as int
                + crate::model::terms_size(crate::ast::exprs_view_rec(old(exprs)@)),
            final(exprs)@.len() == old(exprs)@.len(),
            r is Ok <==> crate::model::terms_ids_unassigned(crate::ast::exprs_view_rec(old(exprs)@)),
            r is Ok ==> ({
                let res = spec_assign_terms(
                    old(self).num_vars as int,
                    old(assigned)@,
                    crate::ast::exprs_view_rec(old(exprs)@),
                );
                &&& crate::ast::exprs_view_rec(final(exprs)@) == res.0
                &&& final(self).num_vars as int == res.1
                &&& final(assigned)@ == res.2
            }),
            r matches Err(err) ==> err is VariableIDAlreadyAssigned,
    {
        let n = exprs.len();
        let ghost full = crate::ast::exprs_view_rec(old(exprs)@);
        let ghost c0 = self.num_vars as int;
        let ghost s0 = assigned@;
        let ghost fin = spec_assign_terms(c0, s0, full);
        proof {
            crate::ast::lemma_exprs_view_rec(old(exprs)@);
            lemma_spec_assign_terms_len(c0, s0, full);
            assert(full.skip(0) =~= full);
            assert(fin.0.skip(0) =~= fin.0);
        }
        for i in 0..n
            invariant
                n == exprs@.len(),
                exprs@.len() == old(exprs)@.len(),
                full == crate::ast::exprs_view_rec(old(exprs)@),
                full.len() == n,
                fin.0.len() == n,
                c0 == old(self).num_vars as int,
                s0 == old(assigned)@,
                forall|j: int| 0 <= j < n ==> full[j] == old(exprs)@[j]@,
                fin == spec_assign_terms(c0, s0, full),
                c0 + crate::model::terms_size(full) <= u32::MAX as int,
                assigned.wf(),
                forall|j: int| i <= j < n ==> exprs@[j] == old(exprs)@[j],
                forall|j: int| 0 <= j < i ==> exprs@[j]@ == fin.0[j],
                forall|j: int| 0 <= j < i ==> crate::model::term_ids_unassigned(full[j]),
                spec_assign_terms(self.num_vars as int, assigned@, full.skip(i as int)) == (
                    fin.0.skip(i as int),
                    fin.1,
                    fin.2,
                ),
                c0 <= self.num_vars as int,
                self.num_vars as int + crate::model::terms_size(full.skip(i as int)) <= c0
                    + crate::model::terms_size(full),
        {
            let ghost suffix = full.skip(i as int);
            let ghost cur = self.num_vars as int;
            let ghost sc = assigned@;
            proof {
                assert(suffix[0] == full[i as int]);
                assert(suffix.drop_first() =~= full.skip(i as int + 1));
                assert(crate::model::terms_size(suffix) == crate::model::term_size(suffix[0])
                    + crate::model::terms_size(suffix.drop_first()));
            }
            let r1 = self.assign_expr(&exprs[i], assigned);
            match r1 {
                Ok(e2) => {
                    exprs.set(i, e2);
                    proof {
                        let step = spec_assign_term(cur, sc, suffix[0]);
                        let rest = spec_assign_terms(step.1, step.2, suffix.drop_first());
                        assert(spec_assign_terms(cur, sc, suffix) == (
                            seq![step.0] + rest.0,
                            rest.1,
                            rest.2,
                        ));
                        assert(fin.0.skip(i as int) == seq![step.0] + rest.0);
                        assert(fin.0.skip(i as int)[0] == step.0);
                        assert((seq![step.0] + rest.0).drop_first() =~= rest.0);
                        assert(fin.0.skip(i as int).drop_first() =~= fin.0.skip(i as int + 1));
                        assert(rest.0 == fin.0.skip(i as int + 1));
                        assert(fin.0[i as int] == fin.0.skip(i as int)[0]);
                    }
                },
                Err(err) => {
                    proof {
                        crate::model::lemma_terms_ids_unassigned(full);
                    }
                    return Err(err);
                },
            }
        }
        proof {
            crate::model::lemma_terms_ids_unassigned(full);
            crate::ast::lemma_exprs_view_rec(exprs@);
            assert(full.skip(n as int) =~= Seq::<Term>::empty());
            assert(fin.0.skip(n as int) =~= Seq::<Term>::empty());
            assert(fin.0.len() == n);
            assert(crate::ast::exprs_view_rec(exprs@) =~= fin.0);
        }
        Ok(())
    }
}

/// What assigning identifiers to one term does: a variable whose name the
/// scope already records reuses the recorded identifier; an unseen name
/// takes the counter's value, which is recorded and advanced. The result
/// is the renamed term, the advanced counter and the extended scope.
pub open spec fn spec_assign_term(counter: int, scope: Map<Seq<char>, u32>, t: Term) -> (
    Term,
    int,
    Map<Seq<char>, u32>,
)
    decreases t,
{
    match t {
        Term::Var { name, id } => if scope.contains_key(name) {
            (Term::Var { name, id: Some(scope[name]) }, counter, scope)
        } else {
            (Term::Var { name, id: Some(counter as u32) }, counter + 1, scope.insert(
                name,
                counter as u32,
            ))
        },
        Term::Atom { name, args } => {
            let (args2, c2, s2) = spec_assign_terms(counter, scope, args);
            (Term::Atom { name, args: args2 }, c2, s2)
        },
    }
}

/// Assigns identifiers to a sequence of terms, left to right, threading
/// the counter and the scope through.
pub open spec fn spec_assign_terms(counter: int, scope: Map<Seq<char>, u32>, ts: Seq<Term>) -> (
    Seq<Term>,
    int,
    Map<Seq<char>, u32>,
)
    decreases ts,
{
    if ts.len() == 0 {
        (Seq::empty(), counter, scope)
    } else {
        let (t2, c2, s2) = spec_assign_term(counter, scope, ts[0]);
        let (rest2, c3, s3) = spec_assign_terms(c2, s2, ts.drop_first());
        (seq![t2] + rest2, c3, s3)
    }
}

/// Assigning identifiers preserves the number of terms.
pub proof fn lemma_spec_assign_terms_len(counter: int, scope: Map<Seq<char>, u32>, ts: Seq<Term>)
    ensures
        spec_assign_terms(counter, scope, ts).0.len() == ts.len(),
    decreases ts.len(),
{
    if ts.len() > 0 {
        let step = spec_assign_term(counter, scope, ts[0]);
        lemma_spec_assign_terms_len(step.1, step.2, ts.drop_first());
    }
}

/// The keys of an association list are pairwise distinct.
pub open spec fn unique_var_keys(s: Seq<(VarID, Expr)>) -> bool {
    forall|i: int, j: int| 0 <= i < j < s.len() ==> s[i].0 != s[j].0
}

/// The mapping denoted by an association list from identifiers to
/// expressions; a later entry for the same key would win.
pub open spec fn subst_map(s: Seq<(VarID, Expr)>) -> Map<u32, Term>
    decreases s.len(),
{
    if s.len() == 0 {
        Map::empty()
    } else {
        subst_map(s.drop_last()).insert(s.last().0, s.last().1@)
    }
}

/// The domain of the denoted mapping is exactly the set of keys.
pub proof fn lemma_subst_map_dom(s: Seq<(VarID, Expr)>)
    ensures
        forall|k: u32|
            #[trigger] subst_map(s).contains_key(k) <==> exists|i: int|
                0 <= i < s.len() && s[i].0 == k,
    decreases s.len(),
{
    if s.len() > 0 {
        lemma_subst_map_dom(s.drop_last());
        assert forall|k: u32| #[trigger] subst_map(s).contains_key(k) implies exists|i: int|
            0 <= i < s.len() && s[i].0 == k by {
            if k == s.last().0 {
                assert(s[s.len() - 1].0 == k);
            } else {
                assert(subst_map(s.drop_last()).contains_key(k));
                let i = choose|i: int| 0 <= i < s.drop_last().len() && s.drop_last()[i].0 == k;
                assert(s[i] == s.drop_last()[i]);
                assert(s[i].0 == k);
            }
        }
        assert forall|k: u32|
            exists|i: int| 0 <= i < s.len() && s[i].0 == k implies #[trigger] subst_map(
            s,
        ).contains_key(k) by {
            let i = choose|i: int| 0 <= i < s.len() && s[i].0 == k;
            if i < s.len() - 1 {
                assert(s.drop_last()[i].0 == k);
                assert(exists|j: int| 0 <= j < s.drop_last().len() && s.drop_last()[j].0 == k);
                assert(subst_map(s.drop_last()).contains_key(k));
            } else {
                assert(s.last().0 == k);
            }
        }
    }
}

/// With distinct keys, each entry is reflected in the denoted mapping.
pub proof fn lemma_subst_map_at(s: Seq<(VarID, Expr)>, i: int)
    requires
        unique_var_keys(s),
        0 <= i < s.len(),
    ensures
        subst_map(s).contains_key(s[i].0),
        subst_map(s)[s[i].0] == s[i].1@,
    decreases s.len(),
{
    if i < s.len() - 1 {
        lemma_subst_map_at(s.drop_last(), i);
        assert(s.drop_last()[i] == s[i]);
    }
}

/// Updating the entry of a key denotes inserting into the mapping.
pub proof fn lemma_subst_map_update(s: Seq<(VarID, Expr)>, i: int, e: Expr)
    requires
        unique_var_keys(s),
        0 <= i < s.len(),
    ensures
        subst_map(s.update(i, (s[i].0, e))) == subst_map(s).insert(s[i].0, e@),
    decreases s.len(),
{
    let t = s.update(i, (s[i].0, e));
    if i == s.len() - 1 {
        assert(t.drop_last() =~= s.drop_last());
        assert(subst_map(t) =~= subst_map(s).insert(s[i].0, e@));
    } else {
        lemma_subst_map_update(s.drop_last(), i, e);
        assert(t.drop_last() =~= s.drop_last().update(i, (s[i].0, e)));
        assert(s.drop_last()[i] == s[i]);
        assert(subst_map(t) =~= subst_map(s).insert(s[i].0, e@));
    }
}

/// Appending an entry denotes inserting into the mapping.
pub proof fn lemma_subst_map_push(s: Seq<(VarID, Expr)>, k: VarID, e: Expr)
    ensures
        subst_map(s.push((k, e))) == subst_map(s).insert(k, e@),
{
    assert(s.push((k, e)).drop_last() =~= s);
}

/// Two association lists with the same keys and term-equal values denote
/// the same mapping.
pub proof fn lemma_subst_map_congruence(s1: Seq<(VarID, Expr)>, s2: Seq<(VarID, Expr)>)
    requires
        s1.len() == s2.len(),
        forall|i: int| 0 <= i < s1.len() ==> s1[i].0 == s2[i].0,
        forall|i: int| 0 <= i < s1.len() ==> s1[i].1@ == s2[i].1@,
    ensures
        subst_map(s1) == subst_map(s2),
    decreases s1.len(),
{
    if s1.len() > 0 {
        lemma_subst_map_congruence(s1.drop_last(), s2.drop_last());
        assert(s1[s1.len() - 1].0 == s2[s2.len() - 1].0);
        assert(s1[s1.len() - 1].1@ == s2[s2.len() - 1].1@);
        assert(subst_map(s1) =~= subst_map(s2));
    } else {
        assert(subst_map(s1) =~= subst_map(s2));
    }
}

/// The substitution of variables: a finite mapping from variable
/// identifiers to the terms they are bound to.
pub struct VarSubstitution {
    pub entries: Vec<(VarID, Expr)>,
}

impl View for VarSubstitution {
    type V = Map<u32, Term>;

    open spec fn view(&self) -> Map<u32, Term> {
        subst_map(self.entries@)
    }
}

impl VarSubstitution {
    /// The internal invariant: no identifier is bound twice.
    pub open spec fn wf(&self) -> bool {
        unique_var_keys(self.entries@)
    }

    /// Builds the empty substitution.
    pub fn new() -> (r: Self)
        ensures
            r@ == Map::<u32, Term>::empty(),
            r.wf(),
    {
        VarSubstitution { entries: Vec::new() }
    }

    /// Binds an identifier to an expression, replacing any earlier binding.
    pub fn insert(&mut self, id: VarID, expr: Expr)
        requires
            old(self).wf(),
        ensures
            final(self).wf(),
            final(self)@ == old(self)@.insert(id, expr@),
    {
        let n = self.entries.len();
        for i in 0..n
            invariant
                n == self.entries.len(),
                self == old(self),
                old(self).wf(),
                forall|j: int| 0 <= j < i ==> self.entries@[j].0 != id,
        {
            if self.entries[i].0 == id {
                proof {
                    lemma_subst_map_update(self.entries@, i as int, expr);
                    let t = self.entries@.update(i as int, (id, expr));
                    assert(forall|j: int| 0 <= j < t.len() ==> t[j].0 == self.entries@[j].0);
                }
                self.entries.set(i, (id, expr));
                return ;
            }
        }
        proof {
            let s = self.entries@;
            assert(s.push((id, expr)).drop_last() =~= s);
            lemma_subst_map_dom(s);
        }
        self.entries.push((id, expr));
    }

    /// Looks an identifier up.
    pub fn get(&self, id: VarID) -> (r: Option<&Expr>)
        requires
            self.wf(),
        ensures
            match r {
                Some(e) => self@.contains_key(id) && e@ == self@[id],
                None => !self@.contains_key(id),
            },
    {
        proof {
            lemma_subst_map_dom(self.entries@);
        }
        let n = self.entries.len();
        for i in 0..n
            invariant
                n == self.entries.len(),
                self.wf(),
                forall|j: int| 0 <= j < i ==> self.entries@[j].0 != id,
        {
            if self.entries[i].0 == id {
                proof {
                    lemma_subst_map_at(self.entries@, i as int);
                }
                return Some(&self.entries[i].1);
            }
        }
        None
    }

    /// Applies the substitution to an expression, returning the result.
    pub fn apply_expr(&self, e: &Expr) -> (r: Expr)
        requires
            self.wf(),
        ensures
            r@ == apply_term(self@, e@),
        decreases *e,
    {
        match e {
            Expr::Var(v) => {
                match v.id {
                    Some(id) => {
                        match self.get(id) {
                            Some(repl) => repl.duplicate(),
                            None => Expr::Var(crate::ast::VarExpr { name: v.name.clone(), id: v.id }),
                        }
                    },
                    None => Expr::Var(crate::ast::VarExpr { name: v.name.clone(), id: v.id }),
                }
            },
            Expr::Atom(a) => {
                let mut args: Vec<Expr> = Vec::new();
                let n = a.arguments.len();
                for i in 0..n
                    invariant
                        n == a.arguments@.len(),
                        self.wf(),
                        args@.len() == i,
                        forall|j: int| 0 <= j < i ==> args@[j]@ == apply_term(
                            self@,
                            a.arguments@[j]@,
                        ),
                        *e == Expr::Atom(*a),
                {
                    proof {
                        assert(decreases_to!(*e => e->Atom_0));
                        assert(e->Atom_0 == *a);
                        assert(decreases_to!(*a => a.arguments));
                        assert(decreases_to!(a.arguments => a.arguments@[i as int]));
                        assert(decreases_to!(*e => a.arguments@[i as int]));
                    }
                    let arg = self.apply_expr(&a.arguments[i]);
                    args.push(arg);
                }
                proof {
                    crate::ast::lemma_exprs_view_rec(a.arguments@);
                    crate::ast::lemma_exprs_view_rec(args@);
                    crate::model::lemma_apply_terms(
                        self@,
                        crate::ast::exprs_view_rec(a.arguments@),
                    );
                    assert(crate::ast::exprs_view_rec(args@) =~= crate::model::apply_terms(
                        self@,
                        crate::ast::exprs_view_rec(a.arguments@),
                    ));
                }
                Expr::Atom(crate::ast::AtomExpr { name: a.name.clone(), arguments: args })
            },
        }
    }

    /// A deep copy denoting the same mapping.
    pub fn duplicate(&self) -> (r: Self)
        requires
            self.wf(),
        ensures
            r.wf(),
            r@ == self@,
    {
        let mut entries: Vec<(VarID, Expr)> = Vec::new();
        let n = self.entries.len();
        for i in 0..n
            invariant
                n == self.entries@.len(),
                entries@.len() == i,
                forall|j: int| 0 <= j < i ==> entries@[j].0 == self.entries@[j].0,
                forall|j: int| 0 <= j < i ==> entries@[j].1@ == self.entries@[j].1@,
                self.wf(),
        {
            let k = self.entries[i].0;
            let e = self.entries[i].1.duplicate();
            entries.push((k, e));
        }
        proof {
            lemma_subst_map_congruence(entries@, self.entries@);
        }
        VarSubstitution { entries }
    }

    /// Merges `other` into `self`: `other`'s bindings are applied to every
    /// right-hand side of `self`, and the bindings of `other` whose key
    /// `self` does not bind are added unchanged, so that earlier bindings
    /// propagate into later ones.
    pub fn merge(&mut self, other: &Self)
        requires
            old(self).wf(),
            other.wf(),
        ensures
            final(self).wf(),
            final(self)@ == compose(other@, old(self)@),
    {
        let n = self.entries.len();
        for i in 0..n
            invariant
                n == self.entries@.len(),
                other.wf(),
                old(self).wf(),
                forall|j: int| 0 <= j < n ==> self.entries@[j].0 == old(self).entries@[j].0,
                forall|j: int| 0 <= j < i ==> self.entries@[j].1@ == apply_term(
                    other@,
                    old(self).entries@[j].1@,
                ),
                forall|j: int| i <= j < n ==> self.entries@[j].1 == old(self).entries@[j].1,
        {
            let e = other.apply_expr(&self.entries[i].1);
            let k = self.entries[i].0;
            self.entries.set(i, (k, e));
        }
        let ghost mid = self.entries@;
        proof {
            assert(unique_var_keys(mid));
            lemma_subst_map_dom(mid);
            lemma_subst_map_dom(old(self).entries@);
            assert forall|k: u32| #[trigger] subst_map(mid).contains_key(k) <==> old(
                self,
            )@.contains_key(k) by {}
            assert forall|k: u32| #[trigger] subst_map(mid).contains_key(k) implies subst_map(
                mid,
            )[k] == apply_term(other@, old(self)@[k]) by {
                let i = choose|i: int| 0 <= i < mid.len() && mid[i].0 == k;
                lemma_subst_map_at(mid, i);
                lemma_subst_map_at(old(self).entries@, i);
            }
        }
        let m = other.entries.len();
        for j in 0..m
            invariant
                m == other.entries@.len(),
                other.wf(),
                self.wf(),
                forall|k: u32|
                    #[trigger] self@.contains_key(k) <==> subst_map(mid).contains_key(k) || (
                    exists|j2: int| 0 <= j2 < j && other.entries@[j2].0 == k),
                forall|k: u32|
                    subst_map(mid).contains_key(k) ==> #[trigger] self@[k] == subst_map(mid)[k],
                forall|k: u32|
                    !subst_map(mid).contains_key(k) && #[trigger] self@.contains_key(k)
                        ==> self@[k] == other@[k],
        {
            let k = other.entries[j].0;
            let absent = match self.get(k) {
                Some(_) => false,
                None => true,
            };
            if absent {
                let e = other.entries[j].1.duplicate();
                proof {
                    lemma_subst_map_dom(self.entries@);
                    lemma_subst_map_push(self.entries@, k, e);
                    lemma_subst_map_at(other.entries@, j as int);
                }
                self.entries.push((k, e));
            } else {
                proof {
                    assert(other.entries@[j as int].0 == k);
                }
            }
        }
        proof {
            lemma_subst_map_dom(other.entries@);
            assert forall|k: u32| #[trigger] self@.contains_key(k) <==> compose(
                other@,
                old(self)@,
            ).contains_key(k) by {}
            assert(self@ =~= compose(other@, old(self)@));
        }
    }

    /// Applies the substitution to an expression in place: a bound variable
    /// is replaced by the term it is bound to.
    pub fn substitute(&self, expr: &mut Expr)
        requires
            self.wf(),
        ensures
            final(expr)@ == apply_term(self@, old(expr)@),
    {
        let r = self.apply_expr(expr);
        *expr = r;
    }
}

/// A rule: a conclusion and the ordered premises that entail it; an empty
/// premise list makes it a fact.
pub type Rule = (PredicateObj, Vec<PredicateObj>);

/// The mathematical rendering of a rule.
pub open spec fn rule_view(r: Rule) -> (Term, Seq<Term>) {
    (r.0@, crate::ast::preds_view(r.1@))
}

/// The mathematical rendering of an ordered rule list.
pub open spec fn rules_view(rs: Seq<Rule>) -> Seq<(Term, Seq<Term>)> {
    Seq::new(rs.len(), |i: int| rule_view(rs[i]))
}

/// What the knowledge base records for one predicate: its fixed arity and
/// its rules in definition order.
#[verifier::ext_equal]
pub struct PredView {
    pub arity: nat,
    pub rules: Seq<(Term, Seq<Term>)>,
}

/// A predicate's record: the arity fixed at registration and the ordered
/// rule list.
pub struct Predicate {
    pub length: usize,
    pub rules: Vec<Rule>,
}

impl View for Predicate {
    type V = PredView;

    open spec fn view(&self) -> PredView {
        PredView { arity: self.length as nat, rules: rules_view(self.rules@) }
    }
}

impl Predicate {
    /// Registers a predicate of the given arity, with no rules yet.
    pub fn new(length: usize) -> (r: Self)
        ensures
            r@ == (PredView { arity: length as nat, rules: Seq::<(Term, Seq<Term>)>::empty() }),
    {
        let r = Predicate { length, rules: Vec::new() };
        proof {
            assert(r@.rules =~= Seq::<(Term, Seq<Term>)>::empty());
        }
        r
    }
}

impl Predicate {
    /// A deep copy recording the same arity and rules.
    pub fn duplicate(&self) -> (r: Self)
        ensures
            r@ == self@,
    {
        let mut rules: Vec<Rule> = Vec::new();
        let n = self.rules.len();
        for i in 0..n
            invariant
                n == self.rules@.len(),
                rules@.len() == i,
                forall|j: int| 0 <= j < i ==> rule_view(rules@[j]) == rule_view(self.rules@[j]),
        {
            let c = self.rules[i].0.duplicate();
            let ps = crate::ast::duplicate_preds(&self.rules[i].1);
            rules.push((c, ps));
        }
        let r = Predicate { length: self.length, rules };
        proof {
            assert(rules_view(r.rules@) =~= rules_view(self.rules@));
            assert(r@ =~= self@);
        }
        r
    }
}

/// The keys of a predicate association list are pairwise distinct.
pub open spec fn unique_pred_keys(s: Seq<(String, Predicate)>) -> bool {
    forall|i: int, j: int| 0 <= i < j < s.len() ==> s[i].0@ != s[j].0@
}

/// The mapping denoted by the predicate association list.
pub open spec fn env_map(s: Seq<(String, Predicate)>) -> Map<Seq<char>, PredView>
    decreases s.len(),
{
    if s.len() == 0 {
        Map::empty()
    } else {
        env_map(s.drop_last()).insert(s.last().0@, s.last().1@)
    }
}

/// The domain of the denoted mapping is exactly the set of names.
pub proof fn lemma_env_map_dom(s: Seq<(String, Predicate)>)
    ensures
        forall|k: Seq<char>|
            #[trigger] env_map(s).contains_key(k) <==> exists|i: int|
                0 <= i < s.len() && s[i].0@ == k,
    decreases s.len(),
{
    if s.len() > 0 {
        lemma_env_map_dom(s.drop_last());
        assert forall|k: Seq<char>| #[trigger] env_map(s).contains_key(k) implies exists|i: int|
            0 <= i < s.len() && s[i].0@ == k by {
            if k == s.last().0@ {
                assert(s[s.len() - 1].0@ == k);
            } else {
                assert(env_map(s.drop_last()).contains_key(k));
                let i = choose|i: int| 0 <= i < s.drop_last().len() && s.drop_last()[i].0@ == k;
                assert(s[i] == s.drop_last()[i]);
                assert(s[i].0@ == k);
            }
        }
        assert forall|k: Seq<char>|
            exists|i: int| 0 <= i < s.len() && s[i].0@ == k implies #[trigger] env_map(
            s,
        ).contains_key(k) by {
            let i = choose|i: int| 0 <= i < s.len() && s[i].0@ == k;
            if i < s.len() - 1 {
                assert(s.drop_last()[i].0@ == k);
                assert(exists|j: int| 0 <= j < s.drop_last().len() && s.drop_last()[j].0@ == k);
                assert(env_map(s.drop_last()).contains_key(k));
            } else {
                assert(s.last().0@ == k);
            }
        }
    }
}

/// With distinct names, each entry is reflected in the denoted mapping.
pub proof fn lemma_env_map_at(s: Seq<(String, Predicate)>, i: int)
    requires
        unique_pred_keys(s),
        0 <= i < s.len(),
    ensures
        env_map(s).contains_key(s[i].0@),
        env_map(s)[s[i].0@] == s[i].1@,
    decreases s.len(),
{
    if i < s.len() - 1 {
        lemma_env_map_at(s.drop_last(), i);
        assert(s.drop_last()[i] == s[i]);
    }
}

/// Appending an entry denotes inserting into the mapping.
pub proof fn lemma_env_map_push(s: Seq<(String, Predicate)>, name: String, p: Predicate)
    ensures
        env_map(s.push((name, p))) == env_map(s).insert(name@, p@),
{
    assert(s.push((name, p)).drop_last() =~= s);
}

/// Updating the entry of a name denotes inserting into the mapping.
pub proof fn lemma_env_map_update(s: Seq<(String, Predicate)>, i: int, p: Predicate)
    requires
        unique_pred_keys(s),
        0 <= i < s.len(),
    ensures
        env_map(s.update(i, (s[i].0, p))) == env_map(s).insert(s[i].0@, p@),
    decreases s.len(),
{
    let t = s.update(i, (s[i].0, p));
    if i == s.len() - 1 {
        assert(t.drop_last() =~= s.drop_last());
        assert(env_map(t) =~= env_map(s).insert(s[i].0@, p@));
    } else {
        lemma_env_map_update(s.drop_last(), i, p);
        assert(t.drop_last() =~= s.drop_last().update(i, (s[i].0, p)));
        assert(s.drop_last()[i] == s[i]);
        assert(env_map(t) =~= env_map(s).insert(s[i].0@, p@));
    }
}

/// A stored rule is well formed for its predicate: the conclusion is an
/// atom carrying the predicate's name with exactly its arity, and no
/// variable of the rule carries an identifier yet (rules are renamed
/// afresh at every instantiation).
pub open spec fn wf_rule(name: Seq<char>, arity: nat, rl: (Term, Seq<Term>)) -> bool {
    &&& rl.0 matches Term::Atom { name: n2, args } && n2 == name && args.len() == arity
    &&& crate::model::term_ids_unassigned(rl.0)
    &&& crate::model::terms_ids_unassigned(rl.1)
}

/// Every rule recorded for a predicate is well formed.
pub open spec fn wf_pred(name: Seq<char>, pv: PredView) -> bool {
    forall|i: int| 0 <= i < pv.rules.len() ==> wf_rule(name, pv.arity, #[trigger] pv.rules[i])
}

/// Every predicate of the knowledge base has only well-formed rules.
pub open spec fn env_wf_view(m: Map<Seq<char>, PredView>) -> bool {
    forall|k: Seq<char>| #[trigger] m.contains_key(k) ==> wf_pred(k, m[k])
}

/// Registers a name with the given arity if it is unseen; a seen name is
/// left untouched.
pub open spec fn reg_one(m: Map<Seq<char>, PredView>, name: Seq<char>, ar: nat) -> Map<
    Seq<char>,
    PredView,
> {
    if m.contains_key(name) {
        m
    } else {
        m.insert(name, PredView { arity: ar, rules: Seq::empty() })
    }
}

/// Walks premises in order, registering each unseen predicate, and stops
/// at the first premise whose arity contradicts the recorded one; returns
/// the knowledge base as far as it got, and the conflict if one was found
/// (the name, the recorded arity and the offending arity).
pub open spec fn reg_premises(m: Map<Seq<char>, PredView>, ps: Seq<Term>) -> (
    Map<Seq<char>, PredView>,
    Option<(Seq<char>, nat, nat)>,
)
    decreases ps.len(),
{
    if ps.len() == 0 {
        (m, None)
    } else {
        match ps[0] {
            Term::Atom { name, args } => if m.contains_key(name) && m[name].arity != args.len() {
                (m, Some((name, m[name].arity, args.len() as nat)))
            } else {
                reg_premises(reg_one(m, name, args.len() as nat), ps.drop_first())
            },
            Term::Var { .. } => reg_premises(m, ps.drop_first()),
        }
    }
}

/// The knowledge base: for each predicate name, a fixed arity and the
/// rules recorded for it, in definition order.
pub struct Environment {
    pub predicates: Vec<(String, Predicate)>,
}

impl View for Environment {
    type V = Map<Seq<char>, PredView>;

    open spec fn view(&self) -> Map<Seq<char>, PredView> {
        env_map(self.predicates@)
    }
}

impl Environment {
    /// The internal invariant: names are recorded once, and every stored
    /// rule is well formed for its predicate.
    pub open spec fn wf(&self) -> bool {
        &&& unique_pred_keys(self.predicates@)
        &&& env_wf_view(self@)
    }

    /// Builds an empty knowledge base.
    pub fn new() -> (r: Self)
        ensures
            r@ == Map::<Seq<char>, PredView>::empty(),
            r.wf(),
    {
        Environment { predicates: Vec::new() }
    }

    /// The index of a name's entry, if the name is recorded.
    fn find(&self, name: &String) -> (r: Option<usize>)
        requires
            self.wf(),
        ensures
            match r {
                Some(i) => {
                    &&& i < self.predicates@.len()
                    &&& self.predicates@[i as int].0@ == name@
                    &&& self@.contains_key(name@)
                    &&& self@[name@] == self.predicates@[i as int].1@
                },
                None => !self@.contains_key(name@),
            },
    {
        proof {
            lemma_env_map_dom(self.predicates@);
        }
        let n = self.predicates.len();
        for i in 0..n
            invariant
                n == self.predicates.len(),
                self.wf(),
                forall|j: int| 0 <= j < i ==> self.predicates@[j].0@ != name@,
        {
            if self.predicates[i].0 == *name {
                proof {
                    lemma_env_map_at(self.predicates@, i as int);
                }
                return Some(i);
            }
        }
        None
    }

    /// Read-only access to the ordered rule list of a predicate; an
    /// undefined predicate is no error and simply has no rules.
    pub fn get_rules(&self, name: &String) -> (r: Option<&Vec<Rule>>)
        requires
            self.wf(),
        ensures
            match r {
                Some(rules) => {
                    &&& self@.contains_key(name@)
                    &&& rules_view(rules@) == self@[name@].rules
                },
                None => !self@.contains_key(name@),
            },
    {
        match self.find(name) {
            Some(i) => Some(&self.predicates[i].1.rules),
            None => None,
        }
    }

    /// Checks one use of a predicate: an unseen name is registered with
    /// the given arity; a seen name must be used with exactly the arity
    /// recorded for it, else the mismatch is reported (the name, the
    /// recorded arity and the offending arity) and nothing changes.
    pub fn validate(&mut self, pred_obj: &PredicateObj) -> (r: Result<(), ErrorKind>)
        requires
            old(self).wf(),
        ensures
            final(self).wf(),
            match r {
                Ok(()) => {
                    &&& final(self)@ == reg_one(
                        old(self)@,
                        pred_obj.name@,
                        pred_obj.arguments@.len() as nat,
                    )
                    &&& (old(self)@.contains_key(pred_obj.name@) ==> old(
                        self,
                    )@[pred_obj.name@].arity == pred_obj.arguments@.len())
                },
                Err(e) => {
                    &&& old(self)@.contains_key(pred_obj.name@)
                    &&& old(self)@[pred_obj.name@].arity != pred_obj.arguments@.len()
                    &&& e matches ErrorKind::ArityMismatch(n, exp, got) && n@ == pred_obj.name@
                        && exp as nat == old(self)@[pred_obj.name@].arity && got
                        == pred_obj.arguments@.len()
                    &&& final(self)@ == old(self)@
                },
            },
    {
        let arg_len = pred_obj.arguments.len();
        match self.find(&pred_obj.name) {
            Some(i) => {
                if self.predicates[i].1.length != arg_len {
                    Err(
                        ErrorKind::ArityMismatch(
                            pred_obj.name.clone(),
                            self.predicates[i].1.length,
                            arg_len,
                        ),
                    )
                } else {
                    proof {
                        assert(final(self)@ =~= reg_one(
                            old(self)@,
                            pred_obj.name@,
                            pred_obj.arguments@.len() as nat,
                        ));
                    }
                    Ok(())
                }
            },
            None => {
                let p = Predicate::new(arg_len);
                let nm = pred_obj.name.clone();
                proof {
                    lemma_env_map_push(self.predicates@, nm, p);
                }
                self.predicates.push((nm, p));
                proof {
                    lemma_env_map_dom(old(self).predicates@);
                    assert(final(self).wf());
                }
                Ok(())
            },
        }
    }

    /// Registers a definition: every premise is checked first, registering
    /// any newly seen premise predicate along the way; then the conclusion
    /// is checked against its predicate's arity, and on success the rule is
    /// appended to that predicate's list. A conclusion mismatch after the
    /// premises were checked does not roll the premise registrations back.
    pub fn update(&mut self, stmt: DefStatement) -> (r: Result<(), ErrorKind>)
        requires
            old(self).wf(),
            crate::model::term_ids_unassigned(stmt.conclusion@),
            crate::model::terms_ids_unassigned(crate::ast::preds_view(stmt.premises@)),
        ensures
            final(self).wf(),
            ({
                let reg = reg_premises(old(self)@, crate::ast::preds_view(stmt.premises@));
                let cname = stmt.conclusion.name@;
                let clen = stmt.conclusion.arguments@.len() as nat;
                let rl = (stmt.conclusion@, crate::ast::preds_view(stmt.premises@));
                match reg.1 {
                    Some(conflict) => {
                        &&& r matches Err(ErrorKind::ArityMismatch(n2, exp, got)) && n2@
                            == conflict.0 && exp as nat == conflict.1 && got as nat == conflict.2
                        &&& final(self)@ == reg.0
                    },
                    None => if reg.0.contains_key(cname) {
                        if reg.0[cname].arity == clen {
                            &&& r is Ok
                            &&& final(self)@ == reg.0.insert(
                                cname,
                                PredView { arity: clen, rules: reg.0[cname].rules.push(rl) },
                            )
                        } else {
                            &&& r matches Err(ErrorKind::ArityMismatch(n2, exp, got)) && n2@
                                == cname && exp as nat == reg.0[cname].arity && got as nat == clen
                            &&& final(self)@ == reg.0
                        }
                    } else {
                        &&& r is Ok
                        &&& final(self)@ == reg.0.insert(
                            cname,
                            PredView { arity: clen, rules: seq![rl] },
                        )
                    },
                }
            }),
    {
        let ghost p_full = crate::ast::preds_view(stmt.premises@);
        let ghost reg = reg_premises(old(self)@, p_full);
        let n = stmt.premises.len();
        proof {
            assert(p_full.skip(0) =~= p_full);
        }
        for i in 0..n
            invariant
                n == stmt.premises@.len(),
                self.wf(),
                p_full == crate::ast::preds_view(stmt.premises@),
                p_full.len() == n,
                forall|j: int| 0 <= j < n ==> p_full[j] == stmt.premises@[j]@,
                reg == reg_premises(old(self)@, p_full),
                reg_premises(self@, p_full.skip(i as int)) == reg,
        {
            let ghost pre = self@;
            let ghost suffix = p_full.skip(i as int);
            proof {
                assert(suffix[0] == p_full[i as int]);
                assert(suffix.drop_first() =~= p_full.skip(i as int + 1));
            }
            match self.validate(&stmt.premises[i]) {
                Ok(()) => {
                    proof {
                        let nm = stmt.premises@[i as int].name@;
                        let ln = stmt.premises@[i as int].arguments@.len() as nat;
                        assert(suffix[0] == (Term::Atom {
                            name: nm,
                            args: crate::ast::exprs_view(stmt.premises@[i as int].arguments@),
                        }));
                        assert(!(pre.contains_key(nm) && pre[nm].arity != ln));
                        assert(reg_premises(pre, suffix) == reg_premises(
                            reg_one(pre, nm, ln),
                            suffix.drop_first(),
                        ));
                        assert(self@ == reg_one(pre, nm, ln));
                    }
                },
                Err(e) => {
                    proof {
                        let nm = stmt.premises@[i as int].name@;
                        let ln = stmt.premises@[i as int].arguments@.len() as nat;
                        assert(reg_premises(pre, suffix) == (pre, Some((nm, pre[nm].arity, ln))));
                        assert(reg == (pre, Some((nm, pre[nm].arity, ln))));
                    }
                    return Err(e);
                },
            }
        }
        proof {
            assert(p_full.skip(n as int) =~= Seq::<Term>::empty());
            assert(reg == (self@, Option::<(Seq<char>, nat, nat)>::None));
        }
        let conclusion_len = stmt.conclusion.arguments.len();
        match self.find(&stmt.conclusion.name) {
            Some(i) => {
                if self.predicates[i].1.length != conclusion_len {
                    Err(
                        ErrorKind::ArityMismatch(
                            stmt.conclusion.name.clone(),
                            self.predicates[i].1.length,
                            conclusion_len,
                        ),
                    )
                } else {
                    let mut p = self.predicates[i].1.duplicate();
                    let nm = self.predicates[i].0.clone();
                    let ghost rl = (stmt.conclusion@, crate::ast::preds_view(stmt.premises@));
                    p.rules.push((stmt.conclusion, stmt.premises));
                    proof {
                        assert(nm == self.predicates@[i as int].0);
                        assert(rules_view(p.rules@) =~= self@[nm@].rules.push(rl));
                        assert(p@ =~= (PredView {
                            arity: conclusion_len as nat,
                            rules: self@[nm@].rules.push(rl),
                        }));
                        lemma_env_map_update(self.predicates@, i as int, p);
                    }
                    self.predicates.set(i, (nm, p));
                    proof {
                        assert(final(self).wf());
                    }
                    Ok(())
                }
            },
            None => {
                let mut p = Predicate::new(conclusion_len);
                let nm = stmt.conclusion.name.clone();
                let ghost rl = (stmt.conclusion@, crate::ast::preds_view(stmt.premises@));
                p.rules.push((stmt.conclusion, stmt.premises));
                proof {
                    assert(rules_view(p.rules@) =~= seq![rl]);
                    assert(p@ =~= (PredView { arity: conclusion_len as nat, rules: seq![rl] }));
                    lemma_env_map_push(self.predicates@, nm, p);
                    lemma_env_map_dom(self.predicates@);
                }
                self.predicates.push((nm, p));
                proof {
                    assert(final(self).wf());
                }
                Ok(())
            },
        }
    }

    /// A deep copy denoting the same knowledge base.
    pub fn duplicate(&self) -> (r: Self)
        requires
            self.wf(),
        ensures
            r.wf(),
            r@ == self@,
    {
        let mut predicates: Vec<(String, Predicate)> = Vec::new();
        let n = self.predicates.len();
        for i in 0..n
            invariant
                n == self.predicates@.len(),
                predicates@.len() == i,
                forall|j: int| 0 <= j < i ==> predicates@[j].0 == self.predicates@[j].0,
                forall|j: int| 0 <= j < i ==> predicates@[j].1@ == self.predicates@[j].1@,
                self.wf(),
        {
            let nm = self.predicates[i].0.clone();
            let p = self.predicates[i].1.duplicate();
            predicates.push((nm, p));
        }
        let r = Environment { predicates };
        proof {
            lemma_env_map_congruence(r.predicates@, self.predicates@);
        }
        r
    }
}

/// Two predicate association lists with the same names and equal records
/// denote the same knowledge base.
pub proof fn lemma_env_map_congruence(s1: Seq<(String, Predicate)>, s2: Seq<(String, Predicate)>)
    requires
        s1.len() == s2.len(),
        forall|i: int| 0 <= i < s1.len() ==> s1[i].0@ == s2[i].0@,
        forall|i: int| 0 <= i < s1.len() ==> s1[i].1@ == s2[i].1@,
    ensures
        env_map(s1) == env_map(s2),
    decreases s1.len(),
{
    if s1.len() > 0 {
        lemma_env_map_congruence(s1.drop_last(), s2.drop_last());
        assert(s1[s1.len() - 1].0@ == s2[s2.len() - 1].0@);
        assert(s1[s1.len() - 1].1@ == s2[s2.len() - 1].1@);
        assert(env_map(s1) =~= env_map(s2));
    } else {
        assert(env_map(s1) =~= env_map(s2));
    }
}

} // verus!
