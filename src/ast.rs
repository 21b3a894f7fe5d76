use vstd::prelude::*;
use vstd::utf8::encode_utf8;

verus! {

/// A node of the syntax tree that a parse produces.
#[derive(Debug, PartialEq, Eq)]
pub enum Node {
    /// A run of literal text.
    Text(String),
    /// The content of one `{{ ... }}` tag, itself parsed into nodes.
    Variable {
        /// The nodes between the opening and the closing delimiters.
        parts: Vec<Node>,
    },
}

/// Resource ceilings applied to one parse.
#[derive(Debug, Clone, Copy, PartialEq, Eq, Structural)]
pub struct Limits {
    /// Maximum nesting depth of variable tags.
    pub max_depth: usize,
    /// Maximum number of nodes in the whole tree.
    pub max_nodes: usize,
}

impl Default for Limits {
    fn default() -> (r: Self)
        ensures
            r.max_depth == 5,
            r.max_nodes == 50,
    {
        Limits { max_depth: 5, max_nodes: 50 }
    }
}

/// Byte of `{`.
pub const OPEN_BRACE: u8 = 0x7b;

/// Byte of `}`.
pub const CLOSE_BRACE: u8 = 0x7d;

/// Mathematical model of a `Node`: text is kept as the bytes it covers in the input.
pub enum Tree {
    /// Literal text, as UTF-8 bytes.
    Text(Seq<u8>),
    /// A variable and the trees of its content.
    Var(Seq<Tree>),
}

/// The model of one node.
pub open spec fn node_tree(n: Node) -> Tree
    decreases n,
{
    match n {
        Node::Text(t) => Tree::Text(encode_utf8(t@)),
        Node::Variable { parts } => Tree::Var(nodes_trees(parts@)),
    }
}

/// The model of a sequence of nodes.
pub open spec fn nodes_trees(s: Seq<Node>) -> Seq<Tree>
    decreases s,
{
    if s.len() == 0 {
        seq![]
    } else {
        nodes_trees(s.subrange(0, s.len() - 1)).push(node_tree(s[s.len() - 1]))
    }
}


/// The bytes that a tree stands for: text as it is, a variable between `{{` and `}}`.
pub open spec fn render_tree(t: Tree) -> Seq<u8>
    decreases t,
{
    match t {
        Tree::Text(bytes) => bytes,
        Tree::Var(parts) => seq![OPEN_BRACE, OPEN_BRACE] + render(parts) + seq![CLOSE_BRACE, CLOSE_BRACE],
    }
}

/// The bytes that a sequence of trees stands for, in order.
pub open spec fn render(ts: Seq<Tree>) -> Seq<u8>
    decreases ts,
{
    if ts.len() == 0 {
        seq![]
    } else {
        render(ts.subrange(0, ts.len() - 1)) + render_tree(ts[ts.len() - 1])
    }
}

/// Every variable in the tree, nested ones included, has at least one child.
pub open spec fn tree_vars_nonempty(t: Tree) -> bool
    decreases t,
{
    match t {
        Tree::Text(_) => true,
        Tree::Var(parts) => parts.len() > 0 && vars_nonempty(parts),
    }
}

/// Every variable in the sequence, nested ones included, has at least one child.
pub open spec fn vars_nonempty(ts: Seq<Tree>) -> bool
    decreases ts,
{
    if ts.len() == 0 {
        true
    } else {
        vars_nonempty(ts.subrange(0, ts.len() - 1)) && tree_vars_nonempty(ts[ts.len() - 1])
    }
}

/// Number of nodes in the tree, itself included.
pub open spec fn tree_count(t: Tree) -> nat
    decreases t,
{
    match t {
        Tree::Text(_) => 1,
        Tree::Var(parts) => 1 + count(parts),
    }
}

/// Number of nodes in the sequence, nested ones included.
pub open spec fn count(ts: Seq<Tree>) -> nat
    decreases ts,
{
    if ts.len() == 0 {
        0
    } else {
        count(ts.subrange(0, ts.len() - 1)) + tree_count(ts[ts.len() - 1])
    }
}

/// How many variables deep the tree nests: zero for text.
pub open spec fn tree_depth(t: Tree) -> nat
    decreases t,
{
    match t {
        Tree::Text(_) => 0,
        Tree::Var(parts) => 1 + depth(parts),
    }
}

/// The deepest nesting among the trees of the sequence.
pub open spec fn depth(ts: Seq<Tree>) -> nat
    decreases ts,
{
    if ts.len() == 0 {
        0
    } else {
        let rest = depth(ts.subrange(0, ts.len() - 1));
        let last = tree_depth(ts[ts.len() - 1]);
        if rest >= last {
            rest
        } else {
            last
        }
    }
}

/// What the sequence measures become when one tree is appended.
pub(crate) proof fn lemma_push(ts: Seq<Tree>, t: Tree)
    ensures
        render(ts.push(t)) == render(ts) + render_tree(t),
        vars_nonempty(ts.push(t)) == (vars_nonempty(ts) && tree_vars_nonempty(t)),
        count(ts.push(t)) == count(ts) + tree_count(t),
        depth(ts.push(t)) == (if depth(ts) >= tree_depth(t) { depth(ts) } else { tree_depth(t) }),
{
    assert(ts.push(t).subrange(0, ts.len() as int) =~= ts);
}

} // verus!
