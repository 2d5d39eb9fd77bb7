//! The expressions and queries that planning and execution look at.
//!
//! An expression is a node with its operands in the order in which they are gone
//! through: the two sides of a binary operator; the subject of `IN`, then its list;
//! the operand of `CASE`, then each condition with its value, then the `ELSE`. A
//! subquery is known by a number only.

use vstd::prelude::*;

use crate::types::{Value, ValueView};

verus! {

#[derive(Clone, Copy, Debug, PartialEq, Eq, Structural)]
pub enum BinOp {
    Add,
    Sub,
    Mul,
    Div,
    Eq,
    Ne,
    Lt,
    Le,
    Gt,
    Ge,
    And,
    Or,
}

#[derive(Clone, Copy, Debug, PartialEq, Eq, Structural)]
pub enum UnOp {
    Neg,
    Not,
}

#[derive(Clone, Copy, Debug, PartialEq, Eq, Structural)]
pub enum AggFunc {
    Count,
    Sum,
    Avg,
    Min,
    Max,
}

#[derive(Debug)]
pub enum Node {
    Literal(Value),
    Column { table: Option<String>, name: String },
    Binary(BinOp),
    Unary(UnOp),
    IsNull { negated: bool },
    InList { negated: bool },
    Case { operand: bool, els: bool },
    Aggregate { func: AggFunc, distinct: bool },
    Subquery(u32),
}

#[derive(Debug)]
pub struct Expr {
    pub node: Node,
    pub kids: Vec<Expr>,
}

/// What a node is.
pub ghost enum NodeView {
    Literal(ValueView),
    Column { table: Option<Seq<char>>, name: Seq<char> },
    Binary(BinOp),
    Unary(UnOp),
    IsNull { negated: bool },
    InList { negated: bool },
    Case { operand: bool, els: bool },
    Aggregate { func: AggFunc, distinct: bool },
    Subquery(u32),
}

/// What an expression is.
pub ghost struct ExprView {
    pub node: NodeView,
    pub kids: Seq<ExprView>,
}

pub open spec fn text_view(t: Option<String>) -> Option<Seq<char>> {
    match t {
        Some(s) => Some(s@),
        None => None,
    }
}

impl View for Node {
    type V = NodeView;

    open spec fn view(&self) -> NodeView {
        match *self {
            Node::Literal(v) => NodeView::Literal(v@),
            Node::Column { table, name } => NodeView::Column {
                table: text_view(table),
                name: name@,
            },
            Node::Binary(op) => NodeView::Binary(op),
            Node::Unary(op) => NodeView::Unary(op),
            Node::IsNull { negated } => NodeView::IsNull { negated },
            Node::InList { negated } => NodeView::InList { negated },
            Node::Case { operand, els } => NodeView::Case { operand, els },
            Node::Aggregate { func, distinct } => NodeView::Aggregate { func, distinct },
            Node::Subquery(n) => NodeView::Subquery(n),
        }
    }
}

pub open spec fn tree(e: Expr) -> ExprView
    decreases e, 1int,
{
    ExprView { node: e.node@, kids: trees(e.kids@) }
}

pub open spec fn trees(es: Seq<Expr>) -> Seq<ExprView>
    decreases es, 0int,
{
    if es.len() == 0 {
        Seq::empty()
    } else {
        trees(es.drop_last()).push(tree(es.last()))
    }
}

impl View for Expr {
    type V = ExprView;

    open spec fn view(&self) -> ExprView {
        tree(*self)
    }
}

pub proof fn lemma_trees(es: Seq<Expr>)
    ensures
        trees(es).len() == es.len(),
        forall|i: int| 0 <= i < es.len() ==> #[trigger] trees(es)[i] == es[i]@,
    decreases es.len(),
{
    if es.len() > 0 {
        let init = es.drop_last();
        lemma_trees(init);
        assert forall|i: int| 0 <= i < es.len() implies #[trigger] trees(es)[i] == es[i]@ by {
            if i < init.len() {
                assert(init[i] == es[i]);
                assert(trees(init)[i] == init[i]@);
            }
        }
    }
}

pub fn copy_text(t: &Option<String>) -> (r: Option<String>)
    ensures
        text_view(r) == text_view(*t),
{
    match t {
        Some(s) => Some(s.clone()),
        None => None,
    }
}

impl Node {
    pub fn copy(&self) -> (n: Node)
        ensures
            n@ == self@,
    {
        match self {
            Node::Literal(v) => Node::Literal(v.clone()),
            Node::Column { table, name } => Node::Column {
                table: copy_text(table),
                name: name.clone(),
            },
            Node::Binary(op) => Node::Binary(*op),
            Node::Unary(op) => Node::Unary(*op),
            Node::IsNull { negated } => Node::IsNull { negated: *negated },
            Node::InList { negated } => Node::InList { negated: *negated },
            Node::Case { operand, els } => Node::Case { operand: *operand, els: *els },
            Node::Aggregate { func, distinct } => Node::Aggregate {
                func: *func,
                distinct: *distinct,
            },
            Node::Subquery(n) => Node::Subquery(*n),
        }
    }
}

impl Expr {
    pub fn copy(&self) -> (e: Expr)
        ensures
            e@ == self@,
        decreases self,
    {
        let mut kids: Vec<Expr> = Vec::new();
        let mut i: usize = 0;
        let n: usize = self.kids.len();
        while i < n
            invariant
                i <= n == self.kids@.len(),
                trees(kids@) == trees(self.kids@.take(i as int)),
            decreases n - i,
        {
            proof {
                assert(decreases_to!(self => self.kids@[i as int]));
                let t = self.kids@.take(i + 1);
                assert(t.drop_last() =~= self.kids@.take(i as int));
            }
            let ghost was = kids@;
            let k: Expr = self.kids[i].copy();
            kids.push(k);
            assert(kids@.drop_last() =~= was);
            i = i + 1;
        }
        assert(self.kids@.take(i as int) =~= self.kids@);
        Expr { node: self.node.copy(), kids }
    }

    /// A literal.
    pub fn lit(v: Value) -> (e: Expr)
        ensures
            e@ == leaf(NodeView::Literal(v@)),
    {
        let e: Expr = Expr { node: Node::Literal(v), kids: Vec::new() };
        assert(trees(e.kids@) =~= Seq::empty());
        e
    }

    /// A column of a named table.
    pub fn qcol(table: &String, name: &String) -> (e: Expr)
        ensures
            e@ == leaf(NodeView::Column { table: Some(table@), name: name@ }),
    {
        let e: Expr = Expr {
            node: Node::Column { table: Some(table.clone()), name: name.clone() },
            kids: Vec::new(),
        };
        assert(trees(e.kids@) =~= Seq::empty());
        e
    }

    /// `left op right`.
    pub fn bin(op: BinOp, left: Expr, right: Expr) -> (e: Expr)
        ensures
            e@ == binary(op, left@, right@),
    {
        let mut kids: Vec<Expr> = Vec::new();
        kids.push(left);
        kids.push(right);
        let e: Expr = Expr { node: Node::Binary(op), kids };
        proof {
            lemma_trees(e.kids@);
            assert(trees(e.kids@) =~= seq![left@, right@]);
        }
        e
    }
}

pub open spec fn leaf(n: NodeView) -> ExprView {
    ExprView { node: n, kids: Seq::empty() }
}

pub open spec fn binary(op: BinOp, l: ExprView, r: ExprView) -> ExprView {
    ExprView { node: NodeView::Binary(op), kids: seq![l, r] }
}

} // verus!
