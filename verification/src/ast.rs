//! The parse tree: expressions and whole programs.

use crate::integer::Integer;
use vstd::prelude::*;

verus! {

/// A node of the parse tree.
#[derive(Debug, PartialEq)]
pub enum Expr {
    /// A parenthesized form; the empty list is the "nil" form.
    List(Vec<Expr>),
    /// An expression marked as data rather than code.
    Quoted(Box<Expr>),
    /// A name that is looked up when the expression is evaluated.
    Ident(String),
    Int(Integer),
    Str(String),
    Bool(bool),
}

/// A program: the top-level expressions of a source text, in order.
#[derive(Debug, PartialEq)]
pub struct TopLevel(pub Vec<Expr>);

/// The mathematical value of an [`Expr`].
pub enum ExprView {
    List(Seq<ExprView>),
    Quoted(Box<ExprView>),
    Ident(Seq<char>),
    Int(int),
    Str(Seq<char>),
    Bool(bool),
}

/// The mathematical values of a run of expressions.
pub open spec fn exprs_view(exprs: Seq<Expr>) -> Seq<ExprView> {
    Seq::new(exprs.len(), |i: int| exprs[i]@)
}

impl Expr {
    /// The mathematical value of the expression; `@` stands for it.
    pub open spec fn model(self) -> ExprView
        decreases self,
    {
        match self {
            Expr::List(items) => ExprView::List(
                Seq::new(
                    items.len() as nat,
                    |i: int|
                        if 0 <= i < items.len() {
                            items[i].model()
                        } else {
                            ExprView::List(Seq::empty())
                        },
                ),
            ),
            Expr::Quoted(inner) => ExprView::Quoted(Box::new((*inner).model())),
            Expr::Ident(name) => ExprView::Ident(name@),
            Expr::Int(value) => ExprView::Int(value@),
            Expr::Str(text) => ExprView::Str(text@),
            Expr::Bool(value) => ExprView::Bool(value),
        }
    }

    /// Whether the expression quotes nothing but identifiers, here and in
    /// every list below.
    pub fn is_well_formed(&self) -> (ok: bool)
        ensures
            ok == well_formed(self@),
        decreases self,
    {
        match self {
            Expr::List(items) => {
                proof {
                    lemma_list_view(*items);
                    lemma_well_formed_list(exprs_view(items@));
                }
                let mut i: usize = 0;
                while i < items.len()
                    invariant
                        i <= items.len(),
                        forall|j: int| 0 <= j < i ==> well_formed(#[trigger] items[j]@),
                        forall|j: int| 0 <= j < items.len() ==> decreases_to!(self => items[j]),
                        self@ == ExprView::List(exprs_view(items@)),
                        well_formed(self@) <==> all_well_formed(exprs_view(items@)),
                    decreases items.len() - i,
                {
                    if !items[i].is_well_formed() {
                        assert(!well_formed(exprs_view(items@)[i as int]));
                        return false;
                    }
                    i += 1;
                }
                assert forall|j: int| 0 <= j < items.len() implies well_formed(
                    #[trigger] exprs_view(items@)[j],
                ) by {
                    assert(well_formed(items[j]@));
                }
                true
            },
            Expr::Quoted(inner) => {
                proof {
                    reveal_with_fuel(Expr::model, 2);
                }
                match &**inner {
                    Expr::Ident(_) => true,
                    _ => false,
                }
            },
            _ => true,
        }
    }
}

impl View for Expr {
    type V = ExprView;

    open spec fn view(&self) -> ExprView {
        self.model()
    }
}

impl View for TopLevel {
    type V = Seq<ExprView>;

    open spec fn view(&self) -> Seq<ExprView> {
        exprs_view(self.0@)
    }
}

/// Whether `expr` quotes nothing but identifiers, here and in every list
/// below. Only such expressions can be evaluated.
pub open spec fn well_formed(expr: ExprView) -> bool
    decreases expr,
{
    match expr {
        ExprView::List(items) => forall|i: int|
            0 <= i < items.len() ==> well_formed(#[trigger] items[i]),
        ExprView::Quoted(inner) => *inner is Ident,
        _ => true,
    }
}

/// Whether every expression of `program` is well formed.
pub open spec fn all_well_formed(program: Seq<ExprView>) -> bool {
    forall|i: int| 0 <= i < program.len() ==> well_formed(#[trigger] program[i])
}

/// The value of a list is the list of its items' values.
pub proof fn lemma_list_view(items: Vec<Expr>)
    ensures
        Expr::List(items)@ == ExprView::List(exprs_view(items@)),
{
    assert(Expr::List(items)@->List_0 =~= exprs_view(items@));
}

/// A list is well formed where each of its items is.
pub proof fn lemma_well_formed_list(items: Seq<ExprView>)
    ensures
        well_formed(ExprView::List(items)) <==> all_well_formed(items),
{
    if well_formed(ExprView::List(items)) {
        assert forall|i: int| 0 <= i < items.len() implies well_formed(#[trigger] items[i]) by {
            let e = ExprView::List(items);
            assert(decreases_to!(e => e->List_0));
            assert(decreases_to!(e->List_0 => e->List_0[i]));
        }
    }
}

/// Appending an expression appends its value.
pub proof fn lemma_exprs_view_push(exprs: Seq<Expr>, expr: Expr)
    ensures
        exprs_view(exprs.push(expr)) == exprs_view(exprs).push(expr@),
{
    assert(exprs_view(exprs.push(expr)) =~= exprs_view(exprs).push(expr@));
}

impl TopLevel {
    /// Whether the program quotes nothing but identifiers.
    pub fn is_well_formed(&self) -> (ok: bool)
        ensures
            ok == all_well_formed(self@),
    {
        let mut i: usize = 0;
        while i < self.0.len()
            invariant
                i <= self.0.len(),
                forall|j: int| 0 <= j < i ==> well_formed(#[trigger] self@[j]),
            decreases self.0.len() - i,
        {
            if !self.0[i].is_well_formed() {
                assert(!well_formed(self@[i as int]));
                return false;
            }
            i += 1;
        }
        true
    }
}

} // verus!
