//! The syntax tree of an expression.
use crate::text::{int_text, push_i32, str_eq};
use vstd::prelude::*;
use vstd::string::*;

verus! {

/// A syntax tree as a mathematical value. Every node carries the byte
/// position of the token it was built from.
pub enum Ast {
    Str(nat, Seq<char>),
    Identity(nat, Seq<char>),
    Number(nat, int),
    EqFilter(nat, Box<Ast>, Box<Ast>, Box<Ast>),
    Replace(nat, Box<Ast>, Box<Ast>, Box<Ast>),
    Path(nat, Seq<Ast>),
}

impl Ast {
    pub open spec fn pos(self) -> nat {
        match self {
            Ast::Str(pos, _) => pos,
            Ast::Identity(pos, _) => pos,
            Ast::Number(pos, _) => pos,
            Ast::EqFilter(pos, _, _, _) => pos,
            Ast::Replace(pos, _, _, _) => pos,
            Ast::Path(pos, _) => pos,
        }
    }

    /// The identifier that stands for the current state as the input of an
    /// operation.
    pub open spec fn current_state(pos: nat) -> Ast {
        Ast::Identity(pos, "currentState"@)
    }

    pub open spec fn is_current_state(self) -> bool {
        self matches Ast::Identity(_, name) && name == "currentState"@
    }

    pub open spec fn is_path(self) -> bool {
        self is Path
    }
}

/// Every node of the tree has a position below `limit`.
pub open spec fn positions_below(a: Ast, limit: nat) -> bool
    decreases a,
{
    &&& a.pos() < limit
    &&& match a {
        Ast::EqFilter(_, l, m, r) => positions_below(*l, limit) && positions_below(*m, limit)
            && positions_below(*r, limit),
        Ast::Replace(_, l, m, r) => positions_below(*l, limit) && positions_below(*m, limit)
            && positions_below(*r, limit),
        Ast::Path(_, items) => forall|i: int|
            0 <= i < items.len() ==> positions_below(#[trigger] items[i], limit),
        _ => true,
    }
}

/// The parts, with `sep` between each two neighbours.
pub open spec fn join(parts: Seq<Seq<char>>, sep: Seq<char>) -> Seq<char>
    decreases parts.len(),
{
    if parts.len() == 0 {
        Seq::empty()
    } else if parts.len() == 1 {
        parts[0]
    } else {
        join(parts.drop_last(), sep) + sep + parts.last()
    }
}

/// The text of each tree of a sequence.
pub open spec fn ast_texts(items: Seq<Ast>) -> Seq<Seq<char>>
    decreases items,
{
    Seq::new(
        items.len(),
        |i: int|
            if 0 <= i < items.len() {
                ast_text(items[i])
            } else {
                Seq::empty()
            },
    )
}

/// The one-line text of a tree, as it is shown in messages.
pub open spec fn ast_text(a: Ast) -> Seq<char>
    decreases a,
{
    match a {
        Ast::Str(_, v) => "String="@ + v,
        Ast::Identity(_, v) => "Identity="@ + v,
        Ast::Number(_, n) => "Number="@ + int_text(n),
        Ast::EqFilter(_, l, m, r) => "EqFilter(["@ + ast_text(*l) + " "@ + ast_text(*m) + " "@
            + ast_text(*r) + "])"@,
        Ast::Replace(_, l, m, r) => "Replace(["@ + ast_text(*l) + " "@ + ast_text(*m) + " "@
            + ast_text(*r) + "])"@,
        Ast::Path(_, items) => "Path=["@ + join(ast_texts(items), " "@) + "]"@,
    }
}

#[derive(Debug, PartialEq, Eq)]
pub struct Node {
    pub pos: usize,
    pub kind: NodeKind,
}

#[derive(Debug, PartialEq, Eq)]
pub enum NodeKind {
    Str(String),
    Identity(String),
    Number(i32),
    EqFilter(Box<Node>, Box<Node>, Box<Node>),
    Replace(Box<Node>, Box<Node>, Box<Node>),
    Path(Vec<Node>),
}

/// The trees that a vector of nodes stands for.
pub open spec fn nodes_view(nodes: Seq<Node>) -> Seq<Ast>
    decreases nodes,
{
    Seq::new(
        nodes.len(),
        |i: int|
            if 0 <= i < nodes.len() {
                nodes[i].ast()
            } else {
                Ast::Number(0, 0)
            },
    )
}

impl Node {
    /// The tree that the node stands for.
    pub open spec fn ast(&self) -> Ast
        decreases self,
    {
        let pos = self.pos as nat;
        match self.kind {
            NodeKind::Str(v) => Ast::Str(pos, v@),
            NodeKind::Identity(v) => Ast::Identity(pos, v@),
            NodeKind::Number(n) => Ast::Number(pos, n as int),
            NodeKind::EqFilter(l, m, r) => Ast::EqFilter(
                pos,
                Box::new((*l).ast()),
                Box::new((*m).ast()),
                Box::new((*r).ast()),
            ),
            NodeKind::Replace(l, m, r) => Ast::Replace(
                pos,
                Box::new((*l).ast()),
                Box::new((*m).ast()),
                Box::new((*r).ast()),
            ),
            NodeKind::Path(nodes) => Ast::Path(pos, nodes_view(nodes@)),
        }
    }
}

impl View for Node {
    type V = Ast;

    open spec fn view(&self) -> Ast {
        self.ast()
    }
}

impl Clone for Node {
    #[verifier::loop_isolation(false)]
    fn clone(&self) -> (r: Self)
        ensures
            r@ == self@,
        decreases self,
    {
        let kind = match &self.kind {
            NodeKind::Str(v) => NodeKind::Str(v.clone()),
            NodeKind::Identity(v) => NodeKind::Identity(v.clone()),
            NodeKind::Number(n) => NodeKind::Number(*n),
            NodeKind::EqFilter(l, m, r) => NodeKind::EqFilter(
                Box::new((**l).clone()),
                Box::new((**m).clone()),
                Box::new((**r).clone()),
            ),
            NodeKind::Replace(l, m, r) => NodeKind::Replace(
                Box::new((**l).clone()),
                Box::new((**m).clone()),
                Box::new((**r).clone()),
            ),
            NodeKind::Path(nodes) => {
                let mut out: Vec<Node> = Vec::new();
                let mut i: usize = 0;
                while i < nodes.len()
                    invariant
                        i <= nodes.len(),
                        out.len() == i,
                        forall|j: int| 0 <= j < i ==> out@[j]@ == nodes@[j]@,
                    decreases nodes.len() - i,
                {
                    out.push(nodes[i].clone());
                    i += 1;
                }
                proof {
                    assert(nodes_view(out@) =~= nodes_view(nodes@));
                }
                NodeKind::Path(out)
            },
        };
        Node { pos: self.pos, kind }
    }
}

impl Default for NodeKind {
    fn default() -> (r: Self)
        ensures
            r matches NodeKind::Identity(name) && name@ == "nil"@,
    {
        NodeKind::Identity(String::from_str("nil"))
    }
}

impl Default for Node {
    fn default() -> (r: Self)
        ensures
            r@ == Ast::Identity(0, "nil"@),
    {
        Node { pos: 0, kind: NodeKind::default() }
    }
}

pub fn string(pos: usize, literal: String) -> (r: Box<Node>)
    ensures
        r@ == Ast::Str(pos as nat, literal@),
{
    Box::new(Node { pos, kind: NodeKind::Str(literal) })
}

pub fn identity(pos: usize, literal: String) -> (r: Box<Node>)
    ensures
        r@ == Ast::Identity(pos as nat, literal@),
{
    Box::new(Node { pos, kind: NodeKind::Identity(literal) })
}

pub fn number(pos: usize, literal: i32) -> (r: Box<Node>)
    ensures
        r@ == Ast::Number(pos as nat, literal as int),
{
    Box::new(Node { pos, kind: NodeKind::Number(literal) })
}

pub fn eqfilter(pos: usize, value1: Box<Node>, value2: Box<Node>, value3: Box<Node>) -> (r: Box<
    Node,
>)
    ensures
        r@ == Ast::EqFilter(pos as nat, Box::new(value1@), Box::new(value2@), Box::new(value3@)),
{
    Box::new(Node { pos, kind: NodeKind::EqFilter(value1, value2, value3) })
}

pub fn replace(pos: usize, value1: Box<Node>, value2: Box<Node>, value3: Box<Node>) -> (r: Box<
    Node,
>)
    ensures
        r@ == Ast::Replace(pos as nat, Box::new(value1@), Box::new(value2@), Box::new(value3@)),
{
    Box::new(Node { pos, kind: NodeKind::Replace(value1, value2, value3) })
}

pub fn path(pos: usize, nodes: Vec<Node>) -> (r: Box<Node>)
    ensures
        r@ == Ast::Path(pos as nat, nodes_view(nodes@)),
{
    Box::new(Node { pos, kind: NodeKind::Path(nodes) })
}

pub fn current_state_identity() -> (r: NodeKind)
    ensures
        r matches NodeKind::Identity(name) && name@ == "currentState"@,
{
    NodeKind::Identity(String::from_str("currentState"))
}

pub fn current_state(pos: usize) -> (r: Box<Node>)
    ensures
        r@ == Ast::current_state(pos as nat),
{
    Box::new(Node { pos, kind: current_state_identity() })
}

/// Joining one part more: the separator comes first unless the part is the
/// first one.
pub proof fn lemma_join_push(parts: Seq<Seq<char>>, part: Seq<char>, sep: Seq<char>)
    ensures
        join(parts.push(part), sep) == if parts.len() == 0 {
            part
        } else {
            join(parts, sep) + sep + part
        },
{
    assert(parts.push(part).drop_last() == parts);
}

impl Node {
    /// Whether the node is the identifier that stands for the current state.
    pub fn is_current_state(&self) -> (r: bool)
        ensures
            r == self@.is_current_state(),
    {
        match &self.kind {
            NodeKind::Identity(name) => str_eq(name.as_str(), "currentState"),
            _ => false,
        }
    }

    /// The one-line text of the tree.
    #[verifier::loop_isolation(false)]
    pub fn to_string(&self) -> (r: String)
        ensures
            r@ == ast_text(self@),
        decreases self,
    {
        match &self.kind {
            NodeKind::Str(v) => {
                let mut out = String::from_str("String=");
                out.append(v.as_str());
                out
            },
            NodeKind::Identity(v) => {
                let mut out = String::from_str("Identity=");
                out.append(v.as_str());
                out
            },
            NodeKind::Number(n) => {
                let mut out = String::from_str("Number=");
                push_i32(&mut out, *n);
                out
            },
            NodeKind::EqFilter(l, m, r) => {
                let mut out = String::from_str("EqFilter([");
                out.append(l.to_string().as_str());
                out.append(" ");
                out.append(m.to_string().as_str());
                out.append(" ");
                out.append(r.to_string().as_str());
                out.append("])");
                out
            },
            NodeKind::Replace(l, m, r) => {
                let mut out = String::from_str("Replace([");
                out.append(l.to_string().as_str());
                out.append(" ");
                out.append(m.to_string().as_str());
                out.append(" ");
                out.append(r.to_string().as_str());
                out.append("])");
                out
            },
            NodeKind::Path(nodes) => {
                let mut out = String::from_str("Path=[");
                let ghost texts = ast_texts(nodes_view(nodes@));
                let mut i: usize = 0;
                while i < nodes.len()
                    invariant
                        i <= nodes.len(),
                        out@ == "Path=["@ + join(texts.take(i as int), " "@),
                    decreases nodes.len() - i,
                {
                    if i > 0 {
                        out.append(" ");
                    }
                    let item = nodes[i].to_string();
                    out.append(item.as_str());
                    proof {
                        assert(texts.take(i + 1) == texts.take(i as int).push(texts[i as int]));
                        lemma_join_push(texts.take(i as int), texts[i as int], " "@);
                        assert(item@ == texts[i as int]);
                    }
                    i += 1;
                }
                out.append("]");
                proof {
                    assert(texts.take(nodes.len() as int) == texts);
                }
                out
            },
        }
    }
}

} // verus!
