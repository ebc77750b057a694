//! The executable expression types: atoms, variables, predicate objects and
//! the two kinds of statement. Each is viewed as a ghost `Term` of the model.

use vstd::prelude::*;

use crate::model::Term;

verus! {

/// A variable identifier, unique within the lifetime of one allocator.
pub type VarID = u32;

/// An expression: an atom or a variable.
#[derive(Debug, PartialEq)]
pub enum Expr {
    Atom(AtomExpr),
    Var(VarExpr),
}

/// A named atom with an ordered argument list; a zero-argument atom acts as
/// a constant.
#[derive(Debug, PartialEq)]
pub struct AtomExpr {
    pub name: String,
    pub arguments: Vec<Expr>,
}

/// A named variable, carrying an identifier once a renaming scope has
/// assigned one.
#[derive(Debug, PartialEq)]
pub struct VarExpr {
    pub name: String,
    pub id: Option<VarID>,
}

/// The term denoted by an expression.
pub open spec fn expr_view(e: Expr) -> Term
    decreases e,
{
    match e {
        Expr::Atom(a) => Term::Atom { name: a.name@, args: exprs_view_rec(a.arguments@) },
        Expr::Var(v) => Term::Var { name: v.name@, id: v.id },
    }
}

/// The terms denoted by a sequence of expressions.
pub open spec fn exprs_view_rec(es: Seq<Expr>) -> Seq<Term>
    decreases es,
{
    if es.len() == 0 {
        Seq::empty()
    } else {
        seq![expr_view(es[0])] + exprs_view_rec(es.drop_first())
    }
}

/// The terms denoted by a sequence of expressions, element by element.
pub open spec fn exprs_view(es: Seq<Expr>) -> Seq<Term> {
    Seq::new(es.len(), |i: int| expr_view(es[i]))
}

/// The two renderings of a sequence of expressions agree.
pub proof fn lemma_exprs_view_rec(es: Seq<Expr>)
    ensures
        exprs_view_rec(es) == exprs_view(es),
    decreases es.len(),
{
    if es.len() == 0 {
        assert(exprs_view_rec(es) =~= exprs_view(es));
    } else {
        lemma_exprs_view_rec(es.drop_first());
        assert(exprs_view_rec(es) =~= exprs_view(es));
    }
}

impl View for Expr {
    type V = Term;

    open spec fn view(&self) -> Term {
        expr_view(*self)
    }
}

impl Expr {
    /// Renders the expression in source syntax: a variable as `$name`, an
    /// atom as its name with its rendered arguments between parentheses,
    /// separated by comma and space; a zero-argument atom as its bare name.
    pub fn to_string(&self) -> (r: String)
        ensures
            r@ == crate::model::render_term(self@),
        decreases *self,
    {
        match self {
            Expr::Var(v) => {
                proof {
                    reveal_strlit("$");
                }
                let mut out = <String as vstd::string::StringExecFns>::from_str("$");
                vstd::string::StringExecFns::append(&mut out, v.name.as_str());
                out
            },
            Expr::Atom(a) => {
                let mut out = a.name.clone();
                let n = a.arguments.len();
                if n == 0 {
                    out
                } else {
                    proof {
                        reveal_strlit("(");
                    }
                    vstd::string::StringExecFns::append(&mut out, "(");
                    let ghost ts = exprs_view_rec(a.arguments@);
                    proof {
                        lemma_exprs_view_rec(a.arguments@);
                    }
                    for i in 0..n
                        invariant
                            n == a.arguments@.len(),
                            n >= 1,
                            *self == Expr::Atom(*a),
                            ts == exprs_view_rec(a.arguments@),
                            ts.len() == n,
                            forall|j: int| 0 <= j < n ==> ts[j] == a.arguments@[j]@,
                            i == 0 ==> out@ == a.name@ + seq!['('],
                            i > 0 ==> out@ == a.name@ + seq!['('] + crate::model::render_args(
                                ts.take(i as int),
                            ),
                    {
                        proof {
                            reveal_strlit(", ");
                            assert(decreases_to!(*self => self->Atom_0));
                            assert(self->Atom_0 == *a);
                            assert(decreases_to!(*a => a.arguments));
                            assert(decreases_to!(a.arguments => a.arguments@[i as int]));
                            assert(decreases_to!(*self => a.arguments@[i as int]));
                        }
                        if i > 0 {
                            vstd::string::StringExecFns::append(&mut out, ", ");
                        }
                        let t = a.arguments[i].to_string();
                        vstd::string::StringExecFns::append(&mut out, t.as_str());
                        proof {
                            assert(ts.take(i as int + 1) =~= ts.take(i as int).push(
                                ts[i as int],
                            ));
                            if i == 0 {
                                assert(ts.take(1)[0] == ts[0]);
                                assert(crate::model::render_args(ts.take(1)) ==
                                    crate::model::render_term(ts[0]));
                            } else {
                                crate::model::lemma_render_args_push(
                                    ts.take(i as int),
                                    ts[i as int],
                                );
                            }
                        }
                    }
                    proof {
                        reveal_strlit(")");
                        assert(ts.take(n as int) =~= ts);
                    }
                    vstd::string::StringExecFns::append(&mut out, ")");
                    out
                }
            },
        }
    }

    /// A deep copy denoting the same term.
    pub fn duplicate(&self) -> (r: Expr)
        ensures
            r@ == self@,
        decreases *self,
    {
        match self {
            Expr::Var(v) => Expr::Var(VarExpr { name: v.name.clone(), id: v.id }),
            Expr::Atom(a) => {
                let mut args: Vec<Expr> = Vec::new();
                let ghost all = a.arguments@;
                let n = a.arguments.len();
                for i in 0..n
                    invariant
                        n == all.len(),
                        a.arguments@ == all,
                        args@.len() == i,
                        forall|j: int| 0 <= j < i ==> args@[j]@ == all[j]@,
                        *self == Expr::Atom(*a),
                {
                    proof {
                        assert(decreases_to!(*self => self->Atom_0));
                        assert(self->Atom_0 == *a);
                        assert(decreases_to!(*a => a.arguments));
                        assert(decreases_to!(a.arguments => a.arguments@[i as int]));
                        assert(decreases_to!(*self => a.arguments@[i as int]));
                    }
                    let arg = a.arguments[i].duplicate();
                    args.push(arg);
                }
                proof {
                    lemma_exprs_view_rec(a.arguments@);
                    lemma_exprs_view_rec(args@);
                    assert(exprs_view(args@) =~= exprs_view(a.arguments@));
                }
                Expr::Atom(AtomExpr { name: a.name.clone(), arguments: args })
            },
        }
    }
}

impl AtomExpr {
    /// Builds an atom expression.
    pub fn new(name: String, arguments: Vec<Expr>) -> (r: Expr)
        ensures
            r@ == (Term::Atom { name: name@, args: exprs_view(arguments@) }),
    {
        proof {
            lemma_exprs_view_rec(arguments@);
        }
        Expr::Atom(AtomExpr { name, arguments })
    }
}

impl VarExpr {
    /// Builds a variable expression with no identifier yet.
    pub fn new(name: String) -> (r: Expr)
        ensures
            r@ == (Term::Var { name: name@, id: None }),
    {
        Expr::Var(VarExpr { name, id: None })
    }
}

/// A predicate applied to an ordered argument list, as it occurs in a fact,
/// a rule or a query. It denotes the corresponding atom term.
#[derive(Debug, PartialEq)]
pub struct PredicateObj {
    pub name: String,
    pub arguments: Vec<Expr>,
}

impl View for PredicateObj {
    type V = Term;

    open spec fn view(&self) -> Term {
        Term::Atom { name: self.name@, args: exprs_view(self.arguments@) }
    }
}

/// The terms denoted by a sequence of predicate objects.
pub open spec fn preds_view(ps: Seq<PredicateObj>) -> Seq<Term> {
    Seq::new(ps.len(), |i: int| ps[i]@)
}

impl PredicateObj {
    /// Builds a predicate object.
    pub fn new(name: String, arguments: Vec<Expr>) -> (r: Self)
        ensures
            r@ == (Term::Atom { name: name@, args: exprs_view(arguments@) }),
            r.name@ == name@,
            r.arguments@ == arguments@,
    {
        PredicateObj { name, arguments }
    }

    /// A deep copy denoting the same term.
    pub fn duplicate(&self) -> (r: Self)
        ensures
            r@ == self@,
            r.name@ == self.name@,
            r.arguments@.len() == self.arguments@.len(),
    {
        let mut args: Vec<Expr> = Vec::new();
        let n = self.arguments.len();
        for i in 0..n
            invariant
                n == self.arguments@.len(),
                args@.len() == i,
                forall|j: int| 0 <= j < i ==> args@[j]@ == self.arguments@[j]@,
        {
            let arg = self.arguments[i].duplicate();
            args.push(arg);
        }
        proof {
            assert(exprs_view(args@) =~= exprs_view(self.arguments@));
        }
        PredicateObj { name: self.name.clone(), arguments: args }
    }
}

/// A deep copy of a predicate list, denoting the same terms.
pub fn duplicate_preds(ps: &Vec<PredicateObj>) -> (r: Vec<PredicateObj>)
    ensures
        r@.len() == ps@.len(),
        forall|i: int| 0 <= i < ps@.len() ==> r@[i]@ == ps@[i]@,
        preds_view(r@) == preds_view(ps@),
{
    let mut out: Vec<PredicateObj> = Vec::new();
    let n = ps.len();
    for i in 0..n
        invariant
            n == ps@.len(),
            out@.len() == i,
            forall|j: int| 0 <= j < i ==> out@[j]@ == ps@[j]@,
    {
        let p = ps[i].duplicate();
        out.push(p);
    }
    proof {
        assert(preds_view(out@) =~= preds_view(ps@));
    }
    out
}

/// A definition: a conclusion and the premises that entail it; an empty
/// premise list makes the conclusion a fact.
#[derive(Debug, PartialEq)]
pub struct DefStatement {
    pub conclusion: PredicateObj,
    pub premises: Vec<PredicateObj>,
}

impl DefStatement {
    /// Builds a definition statement.
    pub fn new(conclusion: PredicateObj, premises: Vec<PredicateObj>) -> (r: Statement)
        ensures
            r matches Statement::Def(d) && d.conclusion == conclusion && d.premises ==
                premises,
    {
        Statement::Def(DefStatement { conclusion, premises })
    }
}

/// A query: a single goal to prove.
#[derive(Debug, PartialEq)]
pub struct QueryStatement {
    pub query: PredicateObj,
}

impl QueryStatement {
    /// Builds a query statement.
    pub fn new(query: PredicateObj) -> (r: Statement)
        ensures
            r matches Statement::Query(q) && q.query == query,
    {
        Statement::Query(QueryStatement { query })
    }
}

/// A top-level statement: a definition or a query.
#[derive(Debug, PartialEq)]
pub enum Statement {
    Def(DefStatement),
    Query(QueryStatement),
}

} // verus!
