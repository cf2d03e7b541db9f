//! The syntax tree of the first, typed dialect of the language: modules of
//! definitions whose stack effects are written as pop and push counts.
use vstd::prelude::*;

verus! {

/// A stack effect written in the source: how many values a definition pops and
/// how many it pushes.
#[derive(PartialEq, Eq, Debug, Clone, Copy, Structural)]
pub struct Ty {
    pub pops: i64,
    pub pushes: i64,
}

/// A node of the syntax tree.
#[derive(Debug)]
pub enum AstNode {
    /// A module: its name, its private definitions and its public definitions.
    Compound(String, Vec<AstNode>, Vec<AstNode>),
    /// A call.
    Atomic(String),
    /// A byte.
    Byte(u8),
    /// `[condition] [then] [else] ifte`
    If { co: Vec<AstNode>, th: Vec<AstNode>, el: Vec<AstNode> },
    /// `[condition] [body] while`
    While { co: Vec<AstNode>, body: Vec<AstNode> },
    /// A simple definition: `name pops : pushes == term`.
    Definition(String, Ty, Vec<AstNode>),
}

/// The node has a name: it is a module, a call or a definition.
pub open spec fn is_named(n: AstNode) -> bool {
    n is Compound || n is Atomic || n is Definition
}

/// The name of a named node.
pub open spec fn node_name(n: AstNode) -> Seq<char> {
    match n {
        AstNode::Compound(name, _, _) => name@,
        AstNode::Atomic(name) => name@,
        AstNode::Definition(name, _, _) => name@,
        _ => Seq::empty(),
    }
}

impl AstNode {
    /// The name of a module, a call or a definition.
    pub fn get_name(&self) -> (r: String)
        requires
            is_named(*self),
        ensures
            r@ == node_name(*self),
    {
        match self {
            AstNode::Compound(name, _, _) => name.clone(),
            AstNode::Atomic(name) => name.clone(),
            AstNode::Definition(name, _, _) => name.clone(),
            _ => {
                proof {
                    assert(false);
                }
                String::new()
            },
        }
    }
}

} // verus!
