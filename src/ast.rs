use vstd::prelude::*;

verus! {

/// A placeholder for an expression: the right-hand side of a statement is
/// recognised but not yet decomposed.
pub struct ExpressionNode;

/// `let <name> = <expression>;`
pub struct LetStatement {
    pub name: String,
    pub value: ExpressionNode,
}

/// `return <expression>;`
pub struct ReturnStatement {
    pub return_value: ExpressionNode,
}

pub enum StatementNode {
    Let(LetStatement),
    Return(ReturnStatement),
}

/// The abstract shape of a statement: a `let` with its bound name, or a `return`.
pub enum StatementView {
    Let(Seq<char>),
    Return,
}

impl View for StatementNode {
    type V = StatementView;

    open spec fn view(&self) -> StatementView {
        match self {
            StatementNode::Let(s) => StatementView::Let(s.name@),
            StatementNode::Return(_) => StatementView::Return,
        }
    }
}

/// The program tree: statements in source order.
pub struct RootNode {
    pub statements: Vec<StatementNode>,
}

impl View for RootNode {
    type V = Seq<StatementView>;

    open spec fn view(&self) -> Seq<StatementView> {
        self.statements@.map_values(|s: StatementNode| s@)
    }
}

} // verus!
