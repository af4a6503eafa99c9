use vstd::prelude::*;
use vstd::string::StrSliceExecFns;
use crate::parser::{exprs_view, expr_view, lemma_list_view, Atom, AtomView, Expr, Sexp};

verus! {

/// The evaluator. It keeps no state between expressions.
pub struct Evaluator;

#[derive(Clone, Copy, Debug, PartialEq, Eq, Structural)]
pub enum Operator {
    Add,
    Sub,
    Mul,
    Div,
}

#[derive(Clone, Copy, Debug, PartialEq, Eq, Structural)]
pub enum EvalError {
    /// A list with fewer than two elements.
    Arity,
    /// A list whose head is itself a list.
    NestedHead,
    /// An operator that has no evaluation rule.
    NotImplemented(Operator),
    /// A list whose head is an atom other than an operator.
    UnsupportedHead,
}

/// The operator that a one-character symbol names.
pub open spec fn operator_spec(e: Sexp) -> Option<Operator> {
    match e {
        Sexp::Atom(AtomView::Symbol(s)) => if s == seq!['+'] {
            Some(Operator::Add)
        } else if s == seq!['-'] {
            Some(Operator::Sub)
        } else if s == seq!['*'] {
            Some(Operator::Mul)
        } else if s == seq!['/'] {
            Some(Operator::Div)
        } else {
            None
        },
        _ => None,
    }
}

/// How a list form is evaluated: the operator whose fold reduces the
/// elements after the head, or why the form is not evaluated.
pub open spec fn form_spec(items: Seq<Sexp>) -> Result<Operator, EvalError> {
    if items.len() <= 1 {
        Err(EvalError::Arity)
    } else if items[0] is List {
        Err(EvalError::NestedHead)
    } else {
        match operator_spec(items[0]) {
            Some(Operator::Add) => Ok(Operator::Add),
            Some(Operator::Sub) => Ok(Operator::Sub),
            Some(op) => Err(EvalError::NotImplemented(op)),
            None => Err(EvalError::UnsupportedHead),
        }
    }
}

/// An expression with every form checked: an atom, which stands for itself,
/// or a fold of an operator over reduced arguments, seeded with zero and
/// applied from left to right. Arguments that reduce to an atom other than a
/// number leave the accumulator as it is.
#[derive(Debug, PartialEq, Eq)]
pub enum Reduced {
    Atom(Atom),
    Fold(Operator, Vec<Reduced>),
}

pub enum ReducedView {
    Atom(AtomView),
    Fold(Operator, Seq<ReducedView>),
}

pub open spec fn reduced_view(r: Reduced) -> ReducedView
    decreases r,
{
    match r {
        Reduced::Atom(a) => ReducedView::Atom(a@),
        Reduced::Fold(op, v) => ReducedView::Fold(
            op,
            Seq::new(
                v.len() as nat,
                |k: int|
                    if 0 <= k < v.len() {
                        reduced_view(v[k])
                    } else {
                        ReducedView::Fold(op, Seq::empty())
                    },
            ),
        ),
    }
}

impl View for Reduced {
    type V = ReducedView;

    open spec fn view(&self) -> ReducedView {
        reduced_view(*self)
    }
}

pub open spec fn reduced_seq_view(v: Seq<Reduced>) -> Seq<ReducedView> {
    v.map_values(|r: Reduced| r@)
}

proof fn lemma_fold_view(r: Reduced)
    requires
        r is Fold,
    ensures
        r@ == ReducedView::Fold(r->Fold_0, reduced_seq_view(r->Fold_1@)),
{
    let v = r->Fold_1;
    let a = reduced_seq_view(v@);
    let w = r@->Fold_1;
    assert(r@ is Fold);
    assert(w.len() == v.len());
    assert forall|k: int| 0 <= k < a.len() implies w[k] == a[k] by {
        assert(a[k] == v@[k]@);
        assert(w[k] == reduced_view(v[k]));
    }
    assert(w =~= a);
}

/// The results in order, or the first error among them.
pub open spec fn gather(rs: Seq<Result<ReducedView, EvalError>>) -> Result<
    Seq<ReducedView>,
    EvalError,
>
    decreases rs.len(),
{
    if rs.len() == 0 {
        Ok(Seq::empty())
    } else {
        match gather(rs.drop_last()) {
            Err(x) => Err(x),
            Ok(vs) => match rs.last() {
                Ok(v) => Ok(vs.push(v)),
                Err(x) => Err(x),
            },
        }
    }
}

/// What an expression reduces to: atoms stand for themselves; a list form
/// with `+` or `-` at its head folds over its reduced arguments; the first
/// error met, in order, ends the reduction.
pub open spec fn reduce_spec(e: Sexp) -> Result<ReducedView, EvalError>
    decreases e, 1int,
{
    match e {
        Sexp::Atom(a) => Ok(ReducedView::Atom(a)),
        Sexp::List(items) => match form_spec(items) {
            Err(x) => Err(x),
            Ok(op) => match gather(reduce_args(items)) {
                Ok(vs) => Ok(ReducedView::Fold(op, vs)),
                Err(x) => Err(x),
            },
        },
    }
}

/// The reductions of the elements after the head of a list.
pub open spec fn reduce_args(items: Seq<Sexp>) -> Seq<Result<ReducedView, EvalError>>
    decreases items, 0int,
{
    Seq::new(
        (items.len() - 1) as nat,
        |k: int|
            if 0 <= k && k + 1 < items.len() {
                reduce_spec(items[k + 1])
            } else {
                Err(EvalError::Arity)
            },
    )
}

pub open spec fn reduce_result(r: Result<Reduced, EvalError>) -> Result<ReducedView, EvalError> {
    match r {
        Ok(v) => Ok(v@),
        Err(x) => Err(x),
    }
}

fn single_char(s: &str) -> (r: Option<char>)
    ensures
        r == (if s@.len() == 1 {
            Some(s@[0])
        } else {
            None::<char>
        }),
{
    if s.unicode_len() == 1 {
        Some(s.get_char(0))
    } else {
        None
    }
}

/// The operator that the expression names, if it is one.
pub fn operator_of(expr: &Expr) -> (r: Option<Operator>)
    ensures
        r == operator_spec(expr@),
{
    match expr {
        Expr::Atom(Atom::Symbol(y)) => {
            let c = single_char(y.as_str());
            proof {
                if y@.len() == 1 {
                    assert(y@ =~= seq![y@[0]]);
                }
            }
            match c {
                Some('+') => Some(Operator::Add),
                Some('-') => Some(Operator::Sub),
                Some('*') => Some(Operator::Mul),
                Some('/') => Some(Operator::Div),
                _ => None,
            }
        },
        _ => None,
    }
}

pub fn is_operator(expr: &Expr) -> (r: bool)
    ensures
        r == operator_spec(expr@) is Some,
{
    operator_of(expr).is_some()
}

impl Evaluator {
    /// Decides how a list form is evaluated.
    pub fn form(&self, list: &Vec<Expr>) -> (r: Result<Operator, EvalError>)
        ensures
            r == form_spec(exprs_view(list@)),
    {
        if list.len() <= 1 {
            return Err(EvalError::Arity);
        }
        match &list[0] {
            Expr::List(_) => Err(EvalError::NestedHead),
            head => match operator_of(head) {
                Some(Operator::Add) => Ok(Operator::Add),
                Some(Operator::Sub) => Ok(Operator::Sub),
                Some(op) => Err(EvalError::NotImplemented(op)),
                None => Err(EvalError::UnsupportedHead),
            },
        }
    }

    /// Checks every form of the expression and gives the folds that
    /// evaluating it performs.
    pub fn reduce(&self, expr: &Expr) -> (r: Result<Reduced, EvalError>)
        ensures
            reduce_result(r) == reduce_spec(expr@),
        decreases expr,
    {
        match expr {
            Expr::Atom(a) => Ok(Reduced::Atom(a.duplicate())),
            Expr::List(list) => {
                proof {
                    lemma_list_view(*expr);
                }
                let op = match self.form(list) {
                    Ok(op) => op,
                    Err(x) => {
                        return Err(x);
                    },
                };
                let ghost items = exprs_view(list@);
                let ghost rs = reduce_args(items);
                let mut args: Vec<Reduced> = Vec::new();
                let mut i: usize = 1;
                proof {
                    assert(rs.subrange(0, 0) =~= Seq::<Result<ReducedView, EvalError>>::empty());
                    assert(reduced_seq_view(args@) =~= Seq::<ReducedView>::empty());
                }
                while i < list.len()
                    invariant
                        1 <= i <= list.len(),
                        items == exprs_view(list@),
                        items.len() >= 2,
                        expr@ == Sexp::List(items),
                        form_spec(items) == Ok::<Operator, EvalError>(op),
                        rs == reduce_args(items),
                        *expr == Expr::List(*list),
                        rs.len() == items.len() - 1,
                        forall|k: int|
                            0 <= k < rs.len() ==> #[trigger] rs[k] == reduce_spec(items[k + 1]),
                        gather(rs.subrange(0, i - 1)) == Ok::<Seq<ReducedView>, EvalError>(
                            reduced_seq_view(args@),
                        ),
                    decreases list.len() - i,
                {
                    proof {
                        assert(rs.subrange(0, i as int).drop_last() =~= rs.subrange(
                            0,
                            i - 1,
                        ));
                        assert(rs[i - 1] == reduce_spec(items[i as int]));
                        assert(items[i as int] == list@[i as int]@);
                        assert(decreases_to!(*list => list[i as int]));
                        assert(*expr == Expr::List(*list));
                        assert(decreases_to!(*expr => *list));
                    }
                    match self.reduce(&list[i]) {
                        Ok(v) => {
                            let ghost before = args@;
                            args.push(v);
                            proof {
                                assert(reduced_seq_view(args@) =~= reduced_seq_view(before).push(
                                    v@,
                                ));
                            }
                        },
                        Err(x) => {
                            proof {
                                assert(rs.subrange(0, i as int).last() == Err::<ReducedView, EvalError>(x));
                                assert(gather(rs.subrange(0, i as int)) == Err::<
                                    Seq<ReducedView>,
                                    EvalError,
                                >(x));
                                lemma_gather_err(rs, i as int);
                                assert(gather(rs) == Err::<Seq<ReducedView>, EvalError>(x));
                                assert(reduce_spec(expr@) == Err::<ReducedView, EvalError>(x));
                            }
                            return Err(x);
                        },
                    }
                    i = i + 1;
                }
                proof {
                    assert(rs.subrange(0, i - 1) =~= rs);
                }
                let r = Reduced::Fold(op, args);
                proof {
                    lemma_fold_view(r);
                }
                Ok(r)
            },
        }
    }
}

/// An error among the first results is the error of the whole sequence.
proof fn lemma_gather_err(rs: Seq<Result<ReducedView, EvalError>>, n: int)
    requires
        0 <= n <= rs.len(),
        gather(rs.subrange(0, n)) is Err,
    ensures
        gather(rs) == gather(rs.subrange(0, n)),
    decreases rs.len() - n,
{
    if n < rs.len() {
        assert(rs.subrange(0, n + 1).drop_last() =~= rs.subrange(0, n));
        lemma_gather_err(rs, n + 1);
    } else {
        assert(rs.subrange(0, n) =~= rs);
    }
}

} // verus!
