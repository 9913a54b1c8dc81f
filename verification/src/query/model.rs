//! What a parsed query is.
use vstd::prelude::*;
use crate::number::{Number, NumberView};
use crate::regex_support::RegexPattern;

verus! {

pub struct Query {
    pub anchor: NodePattern,
    pub condition: Option<Expression>,
}

pub enum Expression {
    Relation(Relationship, NodePattern),
    DescendantChain(Vec<NodePattern>),
    And(Box<Expression>, Box<Expression>),
    Or(Box<Expression>, Box<Expression>),
    Not(Box<Expression>),
}

#[derive(Clone, Copy, Debug, PartialEq, Eq, Structural)]
pub enum Relationship {
    Child,
    Descendant,
    Ancestor,
}

pub struct NodePattern {
    pub kind: PatternKind,
    pub value: ValuePattern,
}

pub enum PatternKind {
    Call,
    Class,
    Function,
    Import,
    Argument(ArgumentKey),
}

pub enum ArgumentKey {
    Any,
    Position(usize),
    Keyword(String),
}

pub enum ValuePattern {
    Any,
    Exact(String),
    Contains(String),
    StartsWith(String),
    EndsWith(String),
    Regex(RegexPattern),
    Numeric(Comparison, Number),
    Capture(String),
}

#[derive(Clone, Copy, Debug, PartialEq, Eq, Structural)]
pub enum Comparison {
    Greater,
    GreaterOrEqual,
    Less,
    LessOrEqual,
}

pub struct QueryView {
    pub anchor: NodePatternView,
    pub condition: Option<ExpressionView>,
}

pub enum ExpressionView {
    Relation(Relationship, NodePatternView),
    DescendantChain(Seq<NodePatternView>),
    And(Box<ExpressionView>, Box<ExpressionView>),
    Or(Box<ExpressionView>, Box<ExpressionView>),
    Not(Box<ExpressionView>),
}

pub struct NodePatternView {
    pub kind: PatternKindView,
    pub value: ValuePatternView,
}

pub enum PatternKindView {
    Call,
    Class,
    Function,
    Import,
    Argument(ArgumentKeyView),
}

pub enum ArgumentKeyView {
    Any,
    Position(nat),
    Keyword(Seq<char>),
}

/// A value predicate; a regex is seen as its source text.
pub enum ValuePatternView {
    Any,
    Exact(Seq<char>),
    Contains(Seq<char>),
    StartsWith(Seq<char>),
    EndsWith(Seq<char>),
    Regex(Seq<char>),
    Numeric(Comparison, NumberView),
    Capture(Seq<char>),
}

impl View for ArgumentKey {
    type V = ArgumentKeyView;

    open spec fn view(&self) -> ArgumentKeyView {
        match self {
            ArgumentKey::Any => ArgumentKeyView::Any,
            ArgumentKey::Position(p) => ArgumentKeyView::Position(*p as nat),
            ArgumentKey::Keyword(k) => ArgumentKeyView::Keyword(k@),
        }
    }
}

impl View for PatternKind {
    type V = PatternKindView;

    open spec fn view(&self) -> PatternKindView {
        match self {
            PatternKind::Call => PatternKindView::Call,
            PatternKind::Class => PatternKindView::Class,
            PatternKind::Function => PatternKindView::Function,
            PatternKind::Import => PatternKindView::Import,
            PatternKind::Argument(k) => PatternKindView::Argument(k@),
        }
    }
}

impl View for ValuePattern {
    type V = ValuePatternView;

    open spec fn view(&self) -> ValuePatternView {
        match self {
            ValuePattern::Any => ValuePatternView::Any,
            ValuePattern::Exact(s) => ValuePatternView::Exact(s@),
            ValuePattern::Contains(s) => ValuePatternView::Contains(s@),
            ValuePattern::StartsWith(s) => ValuePatternView::StartsWith(s@),
            ValuePattern::EndsWith(s) => ValuePatternView::EndsWith(s@),
            ValuePattern::Regex(r) => ValuePatternView::Regex(r@),
            ValuePattern::Numeric(c, n) => ValuePatternView::Numeric(*c, n@),
            ValuePattern::Capture(s) => ValuePatternView::Capture(s@),
        }
    }
}

impl View for NodePattern {
    type V = NodePatternView;

    open spec fn view(&self) -> NodePatternView {
        NodePatternView { kind: self.kind@, value: self.value@ }
    }
}

pub open spec fn patterns_view(p: Seq<NodePattern>) -> Seq<NodePatternView> {
    p.map_values(|x: NodePattern| x@)
}

pub open spec fn expression_view(e: &Expression) -> ExpressionView
    decreases e,
{
    match e {
        Expression::Relation(r, p) => ExpressionView::Relation(*r, p@),
        Expression::DescendantChain(ps) => ExpressionView::DescendantChain(patterns_view(ps@)),
        Expression::And(l, r) => ExpressionView::And(
            Box::new(expression_view(l)),
            Box::new(expression_view(r)),
        ),
        Expression::Or(l, r) => ExpressionView::Or(
            Box::new(expression_view(l)),
            Box::new(expression_view(r)),
        ),
        Expression::Not(x) => ExpressionView::Not(Box::new(expression_view(x))),
    }
}

impl View for Expression {
    type V = ExpressionView;

    open spec fn view(&self) -> ExpressionView {
        expression_view(self)
    }
}

impl View for Query {
    type V = QueryView;

    open spec fn view(&self) -> QueryView {
        QueryView {
            anchor: self.anchor@,
            condition: match &self.condition {
                Some(c) => Some(c@),
                None => None,
            },
        }
    }
}

} // verus!
