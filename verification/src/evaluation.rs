//! The resolution engine: goal frames, rule application, and the
//! breadth-oriented backtracking search that produces solutions one at a
//! time as a resumable sequence of steps.

use vstd::prelude::*;

use std::collections::VecDeque;

use crate::ast::{
    exprs_view, exprs_view_rec, lemma_exprs_view_rec, preds_view, Expr, PredicateObj, VarID,
};
use crate::env::{
    spec_assign_term, spec_assign_terms, Environment, Rule, ScopeMap, VarAllocator,
    VarSubstitution,
};
use crate::error::ErrorKind;
use crate::model::{
    apply_term, compose, term_ids_unassigned, term_size, terms_ids_unassigned, terms_size, Term,
};
use crate::unifier::{expr_pairs_view, spec_unify, unify_exprs, zip_pairs};

verus! {

/// One branch of the search: the ordered queue of goals still to prove,
/// and the substitution accumulated along this branch.
pub struct Goals {
    pub goals: VecDeque<PredicateObj>,
    pub resolved_vars: VarSubstitution,
}

impl Goals {
    /// The internal invariant of a goal frame.
    pub open spec fn wf(&self) -> bool {
        self.resolved_vars.wf()
    }

    /// Builds the initial frame of a query: the goal's variables receive
    /// fresh identifiers in a query-local scope, whose name table is
    /// returned for reporting the solutions.
    pub fn new(goal: &mut PredicateObj, var_alloc: &mut VarAllocator) -> (r: Result<
        (Goals, ScopeMap),
        ErrorKind,
    >)
        requires
            old(var_alloc).num_vars as int + terms_size(exprs_view_rec(old(goal).arguments@))
                <= u32::MAX as int,
        ensures
            old(var_alloc).num_vars <= final(var_alloc).num_vars,
            r is Ok <==> terms_ids_unassigned(exprs_view_rec(old(goal).arguments@)),
            r matches Ok(pair) ==> ({
                let res = spec_assign_terms(
                    old(var_alloc).num_vars as int,
                    Map::<Seq<char>, u32>::empty(),
                    exprs_view(old(goal).arguments@),
                );
                &&& pair.0.wf()
                &&& pair.0.goals@.len() == 1
                &&& pair.0.goals@[0]@ == (Term::Atom { name: old(goal).name@, args: res.0 })
                &&& pair.0.resolved_vars@ == Map::<u32, Term>::empty()
                &&& pair.1.wf()
                &&& pair.1@ == res.2
                &&& final(var_alloc).num_vars as int == res.1
                &&& final(goal)@ == (Term::Atom { name: old(goal).name@, args: res.0 })
            }),
            r matches Err(e) ==> e is VariableIDAlreadyAssigned,
    {
        let mut id_assignments = ScopeMap::new();
        proof {
            lemma_exprs_view_rec(old(goal).arguments@);
        }
        match var_alloc.assign_new_ids(&mut goal.arguments, &mut id_assignments) {
            Err(e) => Err(e),
            Ok(()) => {
                let g = goal.duplicate();
                let mut goals: VecDeque<PredicateObj> = VecDeque::new();
                goals.push_back(g);
                proof {
                    lemma_exprs_view_rec(goal.arguments@);
                }
                Ok((Goals { goals, resolved_vars: VarSubstitution::new() }, id_assignments))
            },
        }
    }

    /// Tries one candidate rule against the frame's first goal: the rule
    /// is copied and renamed with entirely fresh identifiers, the goal's
    /// arguments are unified against the renamed conclusion's, and on
    /// success a new frame is built whose queue holds the substituted
    /// renamed premises followed by the frame's remaining goals, under the
    /// accumulated substitution composed with the unifier's. A frame
    /// without goals, an argument-count difference or a unification
    /// failure yield no frame.
    pub fn apply_rule(
        &self,
        var_alloc: &mut VarAllocator,
        conclusion: &PredicateObj,
        premises: &Vec<PredicateObj>,
    ) -> (r: Result<Option<Goals>, ErrorKind>)
        requires
            self.wf(),
            term_ids_unassigned(conclusion@),
            terms_ids_unassigned(preds_view(premises@)),
            old(var_alloc).num_vars as int + term_size(conclusion@) + terms_size(
                preds_view(premises@),
            ) <= u32::MAX as int,
        ensures
            old(var_alloc).num_vars <= final(var_alloc).num_vars,
            final(var_alloc).num_vars as int <= old(var_alloc).num_vars as int + term_size(
                conclusion@,
            ) + terms_size(preds_view(premises@)),
            r is Ok,
            self.goals@.len() == 0 ==> (r matches Ok(o) && o is None) && final(var_alloc).num_vars
                == old(var_alloc).num_vars,
            self.goals@.len() > 0 ==> ({
                let res_c = spec_assign_terms(
                    old(var_alloc).num_vars as int,
                    Map::<Seq<char>, u32>::empty(),
                    exprs_view(conclusion.arguments@),
                );
                let res_p = spec_assign_terms(res_c.1, res_c.2, preds_view(premises@));
                let gargs = exprs_view(self.goals@[0].arguments@);
                &&& final(var_alloc).num_vars as int == res_p.1
                &&& ({
                    if gargs.len() != res_c.0.len() {
                        r matches Ok(o) && o is None
                    } else {
                        match spec_unify(zip_pairs(gargs, res_c.0)) {
                            Option::None => (r matches Ok(o) && o is None),
                            Option::Some(sigma) => r matches Ok(o) && o matches Some(g) && ({
                                &&& g.wf()
                                &&& g.resolved_vars@ == compose(sigma, self.resolved_vars@)
                                &&& g.goals@.len() == premises@.len() + self.goals@.len() - 1
                                &&& forall|i: int|
                                    0 <= i < premises@.len() ==> (#[trigger] g.goals@[i])@
                                        == apply_term(
                                        compose(sigma, self.resolved_vars@),
                                        res_p.0[i],
                                    )
                                &&& forall|i: int|
                                    premises@.len() <= i < g.goals@.len() ==> (
                                    #[trigger] g.goals@[i])@ == self.goals@[i - premises@.len()
                                        + 1]@
                            }),
                        }
                    }
                })
            }),
    {
        let ghost c0 = var_alloc.num_vars as int;
        let ghost cv = exprs_view(conclusion.arguments@);
        let ghost res_c = spec_assign_terms(c0, Map::<Seq<char>, u32>::empty(), cv);
        let ghost pfull = preds_view(premises@);
        let ghost res_p = spec_assign_terms(res_c.1, res_c.2, pfull);

        if self.goals.len() == 0 {
            return Ok(None);
        }

        let mut id_assignments = ScopeMap::new();
        let mut conclusion2 = conclusion.duplicate();
        proof {
            lemma_exprs_view_rec(conclusion.arguments@);
            lemma_exprs_view_rec(conclusion2.arguments@);
            assert(exprs_view_rec(conclusion2.arguments@) =~= cv);
            assert(term_size(conclusion@) == 1 + terms_size(cv));
        }
        match var_alloc.assign_new_ids(&mut conclusion2.arguments, &mut id_assignments) {
            Err(e) => {
                return Err(e);
            },
            Ok(()) => {},
        }
        proof {
            lemma_exprs_view_rec(conclusion2.arguments@);
            assert(exprs_view_rec(conclusion2.arguments@) == res_c.0);
            assert(var_alloc.num_vars as int == res_c.1);
            assert(id_assignments@ == res_c.2);
            crate::env::lemma_spec_assign_terms_len(c0, Map::<Seq<char>, u32>::empty(), cv);
            crate::env::lemma_spec_assign_terms_len(res_c.1, res_c.2, pfull);
            assert(pfull.skip(0) =~= pfull);
            assert(res_p.0.skip(0) =~= res_p.0);
            crate::model::lemma_terms_ids_unassigned(pfull);
        }

        let n = premises.len();
        let mut premises2: Vec<PredicateObj> = Vec::new();
        for i in 0..n
            invariant
                n == premises@.len(),
                pfull == preds_view(premises@),
                pfull.len() == n,
                res_p == spec_assign_terms(res_c.1, res_c.2, pfull),
                res_p.0.len() == n,
                premises2@.len() == i,
                id_assignments.wf(),
                forall|j: int| 0 <= j < n ==> pfull[j] == premises@[j]@,
                forall|j: int| 0 <= j < n ==> term_ids_unassigned(pfull[j]),
                forall|j: int| 0 <= j < i ==> (#[trigger] premises2@[j])@ == res_p.0[j],
                spec_assign_terms(var_alloc.num_vars as int, id_assignments@, pfull.skip(i as int))
                    == (res_p.0.skip(i as int), res_p.1, res_p.2),
                c0 == old(var_alloc).num_vars as int,
                c0 <= res_c.1 <= var_alloc.num_vars as int,
                res_c.1 <= c0 + terms_size(cv),
                var_alloc.num_vars as int + terms_size(pfull.skip(i as int)) <= res_c.1
                    + terms_size(pfull),
                c0 + 1 + terms_size(cv) + terms_size(pfull) <= u32::MAX as int,
        {
            let ghost suffix = pfull.skip(i as int);
            let ghost cur = var_alloc.num_vars as int;
            let ghost sc = id_assignments@;
            proof {
                assert(suffix[0] == pfull[i as int]);
                assert(suffix.drop_first() =~= pfull.skip(i as int + 1));
                assert(terms_size(suffix) == term_size(suffix[0]) + terms_size(
                    suffix.drop_first(),
                ));
            }
            let mut p = premises[i].duplicate();
            proof {
                lemma_exprs_view_rec(premises@[i as int].arguments@);
                lemma_exprs_view_rec(p.arguments@);
                assert(p@ == pfull[i as int]);
                assert(exprs_view_rec(p.arguments@) =~= exprs_view(
                    premises@[i as int].arguments@,
                ));
                assert(term_size(pfull[i as int]) == 1 + terms_size(exprs_view_rec(p.arguments@)));
            }
            match var_alloc.assign_new_ids(&mut p.arguments, &mut id_assignments) {
                Err(e) => {
                    return Err(e);
                },
                Ok(()) => {},
            }
            proof {
                let step = spec_assign_term(cur, sc, suffix[0]);
                let rest = spec_assign_terms(step.1, step.2, suffix.drop_first());
                assert(spec_assign_terms(cur, sc, suffix) == (
                    seq![step.0] + rest.0,
                    rest.1,
                    rest.2,
                ));
                assert(res_p.0.skip(i as int) == seq![step.0] + rest.0);
                assert(res_p.0.skip(i as int)[0] == step.0);
                assert((seq![step.0] + rest.0).drop_first() =~= rest.0);
                assert(res_p.0.skip(i as int).drop_first() =~= res_p.0.skip(i as int + 1));
                assert(res_p.0[i as int] == res_p.0.skip(i as int)[0]);
                lemma_exprs_view_rec(p.arguments@);
                assert(p@ == step.0);
            }
            premises2.push(p);
        }
        proof {
            assert(pfull.skip(n as int) =~= Seq::<Term>::empty());
            assert(res_p.0.skip(n as int) =~= Seq::<Term>::empty());
        }

        let ghost gargs = exprs_view(self.goals@[0].arguments@);
        let goal = &self.goals[0];
        proof {
            assert(*goal == self.goals@[0]);
        }
        if goal.arguments.len() != conclusion2.arguments.len() {
            proof {
                assert(gargs.len() != res_c.0.len());
            }
            return Ok(None);
        }

        let m = goal.arguments.len();
        let mut pairs: Vec<(Expr, Expr)> = Vec::new();
        for idx in 0..m
            invariant
                m == self.goals@[0].arguments@.len(),
                *goal == self.goals@[0],
                m == conclusion2.arguments@.len(),
                pairs@.len() == idx,
                forall|j: int|
                    0 <= j < idx ==> (#[trigger] pairs@[j]).0@ == self.goals@[0].arguments@[j]@
                        && pairs@[j].1@ == conclusion2.arguments@[j]@,
        {
            let x = goal.arguments[idx].duplicate();
            let y = conclusion2.arguments[idx].duplicate();
            pairs.push((x, y));
        }
        proof {
            lemma_exprs_view_rec(conclusion2.arguments@);
            assert forall|j: int|
                0 <= j < m implies expr_pairs_view(pairs@)[j] == zip_pairs(gargs, res_c.0)[j] by {
                assert(pairs@[j].0@ == gargs[j]);
                assert(pairs@[j].1@ == exprs_view(conclusion2.arguments@)[j]);
                assert(exprs_view(conclusion2.arguments@)[j] == res_c.0[j]);
            }
            assert(expr_pairs_view(pairs@) =~= zip_pairs(gargs, res_c.0));
        }
        match unify_exprs(pairs) {
            None => Ok(None),
            Some(new_subst) => {
                let mut subst = self.resolved_vars.duplicate();
                subst.merge(&new_subst);
                let ghost sigma = new_subst@;
                let ghost merged = compose(sigma, self.resolved_vars@);
                proof {
                    assert(subst@ == merged);
                }
                let mut new_goals: VecDeque<PredicateObj> = VecDeque::new();
                let k = premises2.len();
                for i in 0..k
                    invariant
                        k == premises2@.len(),
                        k == n,
                        subst.wf(),
                        subst@ == merged,
                        res_p.0.len() == n,
                        new_goals@.len() == i,
                        forall|j: int| 0 <= j < n ==> (#[trigger] premises2@[j])@ == res_p.0[j],
                        forall|j: int|
                            0 <= j < i ==> (#[trigger] new_goals@[j])@ == apply_term(
                                merged,
                                res_p.0[j],
                            ),
                {
                    let p = &premises2[i];
                    let mut args: Vec<Expr> = Vec::new();
                    let t = p.arguments.len();
                    for j in 0..t
                        invariant
                            t == p.arguments@.len(),
                            *p == premises2@[i as int],
                            0 <= i < premises2@.len(),
                            subst.wf(),
                            subst@ == merged,
                            args@.len() == j,
                            forall|x: int|
                                0 <= x < j ==> (#[trigger] args@[x])@ == apply_term(
                                    merged,
                                    p.arguments@[x]@,
                                ),
                    {
                        let a = subst.apply_expr(&p.arguments[j]);
                        args.push(a);
                    }
                    let name2 = p.name.clone();
                    let np = PredicateObj { name: name2, arguments: args };
                    proof {
                        lemma_exprs_view_rec(p.arguments@);
                        crate::model::lemma_apply_terms(merged, exprs_view_rec(p.arguments@));
                        assert(exprs_view(np.arguments@) =~= crate::model::apply_terms(
                            merged,
                            exprs_view_rec(p.arguments@),
                        ));
                        assert(p@ == res_p.0[i as int]);
                        assert(np@ == apply_term(merged, res_p.0[i as int]));
                    }
                    new_goals.push_back(np);
                }
                let g_len = self.goals.len();
                for i in 1..g_len
                    invariant
                        g_len == self.goals@.len(),
                        1 <= i,
                        new_goals@.len() == n + i - 1,
                        forall|j: int|
                            0 <= j < n ==> (#[trigger] new_goals@[j])@ == apply_term(
                                merged,
                                res_p.0[j],
                            ),
                        forall|j: int|
                            n <= j < new_goals@.len() ==> (#[trigger] new_goals@[j])@
                                == self.goals@[j - n + 1]@,
                        subst.wf(),
                        subst@ == merged,
                {
                    let g2 = self.goals[i].duplicate();
                    new_goals.push_back(g2);
                }
                Ok(Some(Goals { goals: new_goals, resolved_vars: subst }))
            },
        }
    }
}

/// The outcome of one pull on the search: one solution, the exhaustion of
/// the frontier, or a step that only advanced the search.
pub enum StepResult {
    Solution(VarSubstitution),
    Exhausted,
    Pending,
}

/// The total size of a rule list: a bound on what renaming every rule of
/// the list can consume from the identifier counter.
pub open spec fn rules_total_size(rs: Seq<(Term, Seq<Term>)>) -> nat
    decreases rs.len(),
{
    if rs.len() == 0 {
        0
    } else {
        term_size(rs[0].0) + terms_size(rs[0].1) + rules_total_size(rs.drop_first())
    }
}

/// What one candidate rule yields against a frame whose first goal has
/// the given arguments, under the accumulated substitution and with the
/// given remaining goals: the renamed rule either fails, or spawns a new
/// frame whose goal terms and substitution are returned; the identifier
/// counter advances by the renaming either way.
pub open spec fn rule_outcome(
    gargs: Seq<Term>,
    acc: Map<u32, Term>,
    rest: Seq<Term>,
    counter: int,
    rl: (Term, Seq<Term>),
) -> (Option<(Seq<Term>, Map<u32, Term>)>, int) {
    let res_c = spec_assign_term(counter, Map::<Seq<char>, u32>::empty(), rl.0);
    let res_p = spec_assign_terms(res_c.1, res_c.2, rl.1);
    let out = match res_c.0 {
        Term::Atom { name: _, args: rcargs } => if gargs.len() != rcargs.len() {
            Option::<(Seq<Term>, Map<u32, Term>)>::None
        } else {
            match spec_unify(zip_pairs(gargs, rcargs)) {
                Option::None => None,
                Option::Some(sigma) => {
                    let merged = compose(sigma, acc);
                    Some(
                        (
                            Seq::new(res_p.0.len(), |i: int| apply_term(merged, res_p.0[i]))
                                + rest,
                            merged,
                        ),
                    )
                },
            }
        },
        Term::Var { .. } => None,
    };
    (out, res_p.1)
}

/// Folds the candidate rules of a predicate, in definition order, over a
/// frame: the views of the frames that the matching rules spawn, in that
/// order, with the identifier counter threaded through every renaming.
pub open spec fn spawn_fold(
    gargs: Seq<Term>,
    acc: Map<u32, Term>,
    rest: Seq<Term>,
    counter: int,
    rules: Seq<(Term, Seq<Term>)>,
) -> (Seq<(Seq<Term>, Map<u32, Term>)>, int)
    decreases rules.len(),
{
    if rules.len() == 0 {
        (Seq::empty(), counter)
    } else {
        let step = rule_outcome(gargs, acc, rest, counter, rules[0]);
        let restf = spawn_fold(gargs, acc, rest, step.1, rules.drop_first());
        match step.0 {
            Some(fv) => (seq![fv] + restf.0, restf.1),
            None => restf,
        }
    }
}

/// The search for the solutions of one query: the frontier of goal frames
/// still to explore, the knowledge base the query runs against, and the
/// query's own identifier allocator.
pub struct SolutionGenerator {
    pub status: VecDeque<Goals>,
    pub env: Environment,
    pub var_alloc: VarAllocator,
}

impl SolutionGenerator {
    /// The internal invariant of a search.
    pub open spec fn wf(&self) -> bool {
        &&& self.env.wf()
        &&& forall|i: int| 0 <= i < self.status@.len() ==> (#[trigger] self.status@[i]).wf()
    }

    /// Builds the search for one query: its variables receive fresh
    /// identifiers from a query-scoped allocator, the frontier holds the
    /// single initial frame, and the query's name-to-identifier table is
    /// returned for reporting the solutions.
    pub fn new(query: &mut PredicateObj, env: &Environment) -> (r: Result<
        (SolutionGenerator, Vec<(String, VarID)>),
        ErrorKind,
    >)
        requires
            env.wf(),
            terms_size(exprs_view_rec(old(query).arguments@)) <= u32::MAX as int,
        ensures
            r is Ok <==> terms_ids_unassigned(exprs_view_rec(old(query).arguments@)),
            r matches Ok(pair) ==> ({
                let res = spec_assign_terms(
                    0,
                    Map::<Seq<char>, u32>::empty(),
                    exprs_view(old(query).arguments@),
                );
                &&& pair.0.wf()
                &&& pair.0.env@ == env@
                &&& pair.0.status@.len() == 1
                &&& pair.0.status@[0].goals@.len() == 1
                &&& pair.0.status@[0].goals@[0]@ == (Term::Atom {
                    name: old(query).name@,
                    args: res.0,
                })
                &&& pair.0.status@[0].resolved_vars@ == Map::<u32, Term>::empty()
                &&& crate::env::scope_map(pair.1@) == res.2
                &&& crate::env::unique_name_keys(pair.1@)
                &&& pair.0.var_alloc.num_vars as int == res.1
            }),
            r matches Err(e) ==> e is VariableIDAlreadyAssigned,
    {
        let mut var_alloc = VarAllocator::new();
        match Goals::new(query, &mut var_alloc) {
            Err(e) => Err(e),
            Ok(pair) => {
                let (goal, name_table) = pair;
                let mut queue: VecDeque<Goals> = VecDeque::new();
                queue.push_back(goal);
                let env2 = env.duplicate();
                Ok((SolutionGenerator { status: queue, env: env2, var_alloc }, name_table.entries))
            },
        }
    }

    /// Pulls one step of the search. The frontier's front frame is taken
    /// off: a frame without pending goals is a success and its accumulated
    /// substitution is one solution; otherwise every rule of the first
    /// goal's predicate is tried in definition order, each match putting
    /// one new frame at the back of the frontier, and the search has only
    /// advanced. An empty frontier signals that no solution remains; a
    /// goal on an undefined predicate spawns nothing and its branch is
    /// silently abandoned.
    pub fn next(&mut self) -> (r: Result<StepResult, ErrorKind>)
        requires
            old(self).wf(),
            ({
                let st = old(self).status@;
                st.len() > 0 && st[0].goals@.len() > 0 && old(self).env@.contains_key(
                    st[0].goals@[0].name@,
                ) ==> old(self).var_alloc.num_vars as int + rules_total_size(
                    old(self).env@[st[0].goals@[0].name@].rules,
                ) <= u32::MAX as int
            }),
        ensures
            final(self).wf(),
            final(self).env@ == old(self).env@,
            old(self).var_alloc.num_vars <= final(self).var_alloc.num_vars,
            r is Ok,
            old(self).status@.len() == 0 ==> (r matches Ok(sr) && sr is Exhausted) && final(self).status@ == old(self).status@,
            old(self).status@.len() > 0 && old(self).status@[0].goals@.len() == 0 ==> (
            r matches Ok(sr) && sr matches StepResult::Solution(s) && s@
                == old(self).status@[0].resolved_vars@) && final(self).status@ == old(self).status@.drop_first(),
            old(self).status@.len() > 0 && old(self).status@[0].goals@.len() > 0 ==> ({
                let name = old(self).status@[0].goals@[0].name@;
                &&& (r matches Ok(sr) && sr is Pending)
                &&& final(self).status@.len() >= old(self).status@.len() - 1
                &&& forall|i: int|
                    0 <= i < old(self).status@.len() - 1 ==> final(self).status@[i] == old(self).status@[i + 1]
                &&& (!old(self).env@.contains_key(name) ==> final(self).status@.len() == old(self).status@.len() - 1)
                &&& (old(self).env@.contains_key(name) ==> ({
                    let frame = old(self).status@[0];
                    let gargs = exprs_view(frame.goals@[0].arguments@);
                    let rest = preds_view(frame.goals@.drop_first());
                    let sf = spawn_fold(
                        gargs,
                        frame.resolved_vars@,
                        rest,
                        old(self).var_alloc.num_vars as int,
                        old(self).env@[name].rules,
                    );
                    &&& final(self).status@.len() == old(self).status@.len() - 1 + sf.0.len()
                    &&& forall|j: int|
                        0 <= j < sf.0.len() ==> preds_view(
                            (#[trigger] final(self).status@[old(self).status@.len() - 1 + j]).goals@,
                        ) == sf.0[j].0 && final(self).status@[old(self).status@.len() - 1
                            + j].resolved_vars@ == sf.0[j].1
                    &&& final(self).var_alloc.num_vars as int == sf.1
                }))
            }),
    {
        match self.status.pop_front() {
            None => Ok(StepResult::Exhausted),
            Some(state) => {
                if state.goals.len() == 0 {
                    Ok(StepResult::Solution(state.resolved_vars))
                } else {
                    let found = self.env.get_rules(&state.goals[0].name);
                    match found {
                        None => {
                            proof {
                                let tail = old(self).status@.drop_first();
                                assert forall|i: int|
                                    0 <= i < old(self).status@.len() - 1 implies self.status@[i]
                                    == old(self).status@[i + 1] by {
                                    assert(self.status@[i] == tail[i]);
                                }
                            }
                            Ok(StepResult::Pending)
                        },
                        Some(rules) => {
                            let nrules = rules.len();
                            let ghost name = state.goals@[0].name@;
                            let ghost rv = crate::env::rules_view(rules@);
                            let ghost tail0 = old(self).status@.drop_first();
                            let ghost gargs = exprs_view(state.goals@[0].arguments@);
                            let ghost acc = state.resolved_vars@;
                            let ghost rest = preds_view(state.goals@.drop_first());
                            let ghost sf = spawn_fold(
                                gargs,
                                acc,
                                rest,
                                old(self).var_alloc.num_vars as int,
                                rv,
                            );
                            proof {
                                assert(rv == old(self).env@[name].rules);
                                assert(rv.skip(0) =~= rv);
                                assert(sf.0.skip(0) =~= sf.0);
                            }
                            for i in 0..nrules
                                invariant
                                    nrules == rules@.len(),
                                    rv == crate::env::rules_view(rules@),
                                    rv.len() == nrules,
                                    self.env == old(self).env,
                                    self.env.wf(),
                                    old(self).env@.contains_key(name),
                                    rv == old(self).env@[name].rules,
                                    state == old(self).status@[0],
                                    state.wf(),
                                    state.goals@.len() > 0,
                                    gargs == exprs_view(state.goals@[0].arguments@),
                                    acc == state.resolved_vars@,
                                    rest == preds_view(state.goals@.drop_first()),
                                    sf == spawn_fold(
                                        gargs,
                                        acc,
                                        rest,
                                        old(self).var_alloc.num_vars as int,
                                        rv,
                                    ),
                                    self.var_alloc.num_vars as int + rules_total_size(
                                        rv.skip(i as int),
                                    ) <= u32::MAX as int,
                                    old(self).var_alloc.num_vars <= self.var_alloc.num_vars,
                                    self.status@.len() >= tail0.len(),
                                    self.status@.len() - tail0.len() <= sf.0.len(),
                                    self.status@.len() <= tail0.len() + i,
                                    spawn_fold(gargs, acc, rest, self.var_alloc.num_vars as int, rv.skip(i as int))
                                        == (sf.0.skip(self.status@.len() - tail0.len()), sf.1),
                                    forall|j: int|
                                        0 <= j < tail0.len() ==> self.status@[j] == tail0[j],
                                    forall|j: int|
                                        0 <= j < self.status@.len() - tail0.len() ==> preds_view(
                                            (#[trigger] self.status@[tail0.len() + j]).goals@,
                                        ) == sf.0[j].0 && self.status@[tail0.len()
                                            + j].resolved_vars@ == sf.0[j].1,
                                    forall|j: int|
                                        0 <= j < self.status@.len() ==> (#[trigger] self.status@[j]).wf(),
                            {
                                let ghost suffix = rv.skip(i as int);
                                let ghost cur = self.var_alloc.num_vars as int;
                                let ghost spawned = self.status@.len() - tail0.len();
                                proof {
                                    assert(suffix[0] == rv[i as int]);
                                    assert(rv[i as int] == crate::env::rule_view(
                                        rules@[i as int],
                                    ));
                                    assert(suffix.drop_first() =~= rv.skip(i as int + 1));
                                    assert(rules_total_size(suffix) == term_size(suffix[0].0)
                                        + terms_size(suffix[0].1) + rules_total_size(
                                        suffix.drop_first(),
                                    ));
                                    assert(crate::env::wf_pred(name, old(self).env@[name]));
                                    assert(crate::env::wf_rule(
                                        name,
                                        old(self).env@[name].arity,
                                        rv[i as int],
                                    ));
                                }
                                let res = state.apply_rule(
                                    &mut self.var_alloc,
                                    &rules[i].0,
                                    &rules[i].1,
                                );
                                proof {
                                    let rl = rv[i as int];
                                    let step = rule_outcome(gargs, acc, rest, cur, rl);
                                    let res_ca = spec_assign_terms(
                                        cur,
                                        Map::<Seq<char>, u32>::empty(),
                                        exprs_view(rules@[i as int].0.arguments@),
                                    );
                                    let res_pa = spec_assign_terms(
                                        res_ca.1,
                                        res_ca.2,
                                        preds_view(rules@[i as int].1@),
                                    );
                                    assert(rl.0 == (Term::Atom {
                                        name: rules@[i as int].0.name@,
                                        args: exprs_view(rules@[i as int].0.arguments@),
                                    }));
                                    assert(spec_assign_term(
                                        cur,
                                        Map::<Seq<char>, u32>::empty(),
                                        rl.0,
                                    ) == (Term::Atom {
                                        name: rules@[i as int].0.name@,
                                        args: res_ca.0,
                                    }, res_ca.1, res_ca.2));
                                    assert(step.1 == res_pa.1);
                                    let restf = spawn_fold(
                                        gargs,
                                        acc,
                                        rest,
                                        step.1,
                                        suffix.drop_first(),
                                    );
                                    assert(spawn_fold(gargs, acc, rest, cur, suffix) == (match step.0 {
                                        Some(fv) => (seq![fv] + restf.0, restf.1),
                                        None => restf,
                                    }));
                                }
                                match res {
                                    Err(e) => {
                                        return Err(e);
                                    },
                                    Ok(None) => {
                                        proof {
                                            let rl = rv[i as int];
                                            let step = rule_outcome(gargs, acc, rest, cur, rl);
                                            assert(step.0 is None);
                                            assert(spawn_fold(
                                                gargs,
                                                acc,
                                                rest,
                                                self.var_alloc.num_vars as int,
                                                rv.skip(i as int + 1),
                                            ) == (sf.0.skip(spawned), sf.1));
                                        }
                                    },
                                    Ok(Some(g)) => {
                                        proof {
                                            let rl = rv[i as int];
                                            let step = rule_outcome(gargs, acc, rest, cur, rl);
                                            let fv = step.0->0;
                                            let res_ca = spec_assign_terms(
                                                cur,
                                                Map::<Seq<char>, u32>::empty(),
                                                exprs_view(rules@[i as int].0.arguments@),
                                            );
                                            let res_pa = spec_assign_terms(
                                                res_ca.1,
                                                res_ca.2,
                                                preds_view(rules@[i as int].1@),
                                            );
                                            let np = rules@[i as int].1@.len() as int;
                                            crate::env::lemma_spec_assign_terms_len(
                                                res_ca.1,
                                                res_ca.2,
                                                preds_view(rules@[i as int].1@),
                                            );
                                            let mapped = Seq::new(
                                                res_pa.0.len(),
                                                |k: int| apply_term(fv.1, res_pa.0[k]),
                                            );
                                            assert(fv.0 == mapped + rest);
                                            assert(g.goals@.len() == np + state.goals@.len() - 1);
                                            assert forall|k: int|
                                                0 <= k < g.goals@.len() implies preds_view(
                                                g.goals@,
                                            )[k] == fv.0[k] by {
                                                if k < np {
                                                    assert(g.goals@[k]@ == apply_term(
                                                        fv.1,
                                                        res_pa.0[k],
                                                    ));
                                                    assert(fv.0[k] == mapped[k]);
                                                } else {
                                                    assert(g.goals@[k]@ == state.goals@[k - np
                                                        + 1]@);
                                                    assert(fv.0[k] == rest[k - np]);
                                                    assert(rest[k - np] == state.goals@.drop_first()[
                                                        k - np]@);
                                                    assert(state.goals@.drop_first()[k - np]
                                                        == state.goals@[k - np + 1]);
                                                }
                                            }
                                            assert(preds_view(g.goals@) =~= fv.0);
                                            assert(g.resolved_vars@ == fv.1);
                                            assert(sf.0.skip(spawned) == seq![fv] + spawn_fold(
                                                gargs,
                                                acc,
                                                rest,
                                                self.var_alloc.num_vars as int,
                                                rv.skip(i as int + 1),
                                            ).0);
                                            assert(sf.0.skip(spawned)[0] == fv);
                                            assert(sf.0[spawned] == fv);
                                            assert(sf.0.skip(spawned).drop_first() =~= sf.0.skip(
                                                spawned + 1,
                                            ));
                                        }
                                        self.status.push_back(g);
                                    },
                                }
                            }
                            proof {
                                assert(rv.skip(nrules as int) =~= Seq::<(Term, Seq<Term>)>::empty());
                                let spawned = self.status@.len() - tail0.len();
                                assert(sf.0.skip(spawned) =~= Seq::<(Seq<Term>, Map<u32, Term>)>::empty());
                                assert(spawned == sf.0.len());
                                assert forall|i: int|
                                    0 <= i < old(self).status@.len() - 1 implies self.status@[i]
                                    == old(self).status@[i + 1] by {
                                    assert(self.status@[i] == tail0[i]);
                                    assert(tail0[i] == old(self).status@[i + 1]);
                                }
                            }
                            Ok(StepResult::Pending)
                        },
                    }
                }
            },
        }
    }
}


} // verus!
