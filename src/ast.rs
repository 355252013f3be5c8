//! The syntax tree, and its mathematical model.
use vstd::prelude::*;

verus! {

/// Where a node starts in the source: the line and column of its first character.
#[derive(Clone, Copy, Debug, PartialEq, Eq, Structural)]
pub struct ASTLocation {
    pub line: u32,
    pub column: u32,
}

#[derive(Debug, PartialEq)]
pub enum ASTExpression {
    ASTVariableRef(String),
    ASTInteger(i64),
    ASTString(String),
    ASTAssignment(String, Box<ASTNode>),
    ASTInitialization(String, Box<ASTNode>),
    ASTScope(Vec<Box<ASTNode>>),
    ASTParentheses(Vec<Box<ASTNode>>),
    ASTFunction(Box<ASTNode>, Box<ASTNode>),
    ASTUnit,
}

#[derive(Debug, PartialEq)]
pub struct ASTNode {
    pub expression: ASTExpression,
    pub location: ASTLocation,
}

/// The mathematical form of an expression: names and text as character sequences,
/// integers unbounded, children as sequences.
pub enum Expr {
    VariableRef(Seq<char>),
    Integer(int),
    Str(Seq<char>),
    Assignment(Seq<char>, Box<Tree>),
    Initialization(Seq<char>, Box<Tree>),
    Scope(Seq<Tree>),
    Parentheses(Seq<Tree>),
    Function(Box<Tree>, Box<Tree>),
    Unit,
}

/// The mathematical form of a node: its expression and where it starts.
pub struct Tree {
    pub expr: Expr,
    pub line: u32,
    pub column: u32,
}

impl ASTNode {
    pub open spec fn model(self) -> Tree
        decreases self,
    {
        Tree {
            expr: match self.expression {
                ASTExpression::ASTVariableRef(name) => Expr::VariableRef(name@),
                ASTExpression::ASTInteger(v) => Expr::Integer(v as int),
                ASTExpression::ASTString(text) => Expr::Str(text@),
                ASTExpression::ASTAssignment(name, value) => Expr::Assignment(
                    name@,
                    Box::new(value.model()),
                ),
                ASTExpression::ASTInitialization(name, value) => Expr::Initialization(
                    name@,
                    Box::new(value.model()),
                ),
                ASTExpression::ASTScope(children) => Expr::Scope(models(children@)),
                ASTExpression::ASTParentheses(children) => Expr::Parentheses(models(children@)),
                ASTExpression::ASTFunction(parameter, body) => Expr::Function(
                    Box::new(parameter.model()),
                    Box::new(body.model()),
                ),
                ASTExpression::ASTUnit => Expr::Unit,
            },
            line: self.location.line,
            column: self.location.column,
        }
    }

    pub fn new(expression: ASTExpression, line: u32, column: u32) -> (r: Self)
        ensures
            r.expression == expression,
            r.location == (ASTLocation { line, column }),
    {
        ASTNode { expression, location: ASTLocation { line, column } }
    }
}

/// The models of a sequence of nodes.
pub open spec fn models(s: Seq<Box<ASTNode>>) -> Seq<Tree>
    decreases s,
{
    if s.len() == 0 {
        Seq::empty()
    } else {
        models(s.drop_last()).push(s.last().model())
    }
}

pub proof fn lemma_models_push(s: Seq<Box<ASTNode>>, n: Box<ASTNode>)
    ensures
        models(s.push(n)) == models(s).push(n.model()),
{
    assert(s.push(n).drop_last() =~= s);
}

pub proof fn lemma_models_len(s: Seq<Box<ASTNode>>)
    ensures
        models(s).len() == s.len(),
    decreases s.len(),
{
    if s.len() > 0 {
        lemma_models_len(s.drop_last());
    }
}

} // verus!
