//! The inputs of the reachability pass: the item tree, the export table,
//! the name-resolution bindings and the method resolution table.
use std::collections::HashMap;
use vstd::prelude::*;

verus! {

/// Identifier of a syntactic entity: an index into the item tree.
pub type NodeId = usize;

/// The crate number of the compilation unit under analysis.
pub const LOCAL_CRATE: u64 = 0;

/// The identifier of the crate's top-level module.
pub const CRATE_NODE_ID: NodeId = 0;

/// A definition reference: the owning compilation unit and the item in it.
#[derive(Clone, Copy, Debug, PartialEq, Eq, Structural)]
pub struct DefId {
    pub krate: u64,
    pub node: NodeId,
}

/// What name resolution bound a path to.
#[derive(Clone, Copy, Debug, PartialEq, Eq, Structural)]
pub enum Def {
    /// A built-in type, which has no definition of its own.
    PrimTy,
    /// Any other definition.
    Named(DefId),
}

/// How type checking resolved a method call.
#[derive(Clone, Copy, Debug, PartialEq, Eq, Structural)]
pub enum MethodOrigin {
    /// Bound to one concrete implementation.
    Static(DefId),
    /// Dispatched at run time.
    Dynamic,
}

/// The expressions and nested items of an executable body that matter
/// here, in the order a walk of the body meets them.
#[derive(Clone, Copy, Debug, PartialEq, Eq, Structural)]
pub enum BodyNode {
    /// A symbol-reference expression, with its identifier.
    Path(NodeId),
    /// A field-access or method-call expression, with its identifier.
    Field(NodeId),
    /// An item declared inside the body.
    Item(NodeId),
}

/// A method of an implementation or of a record type.
#[derive(Clone, Debug)]
pub struct Method {
    pub id: NodeId,
    pub tps: usize,
    pub inline: bool,
    pub body: Vec<BodyNode>,
}

/// The destructor of a record type.
#[derive(Clone, Debug)]
pub struct Dtor {
    pub id: NodeId,
    pub inline: bool,
    pub body: Vec<BodyNode>,
}

/// The kinds of item.
#[derive(Clone, Debug)]
#[allow(inconsistent_fields)]
pub enum ItemKind {
    Mod { items: Vec<NodeId> },
    ForeignMod { items: Vec<NodeId> },
    Fn { tps: usize, inline: bool, body: Vec<BodyNode> },
    Impl { tps: usize, methods: Option<Vec<Method>> },
    Class { tps: usize, dtor: Option<Dtor>, methods: Vec<Method> },
    TyAlias { ty: NodeId },
    Const,
    Enum,
    Trait,
    Mac,
}

/// The shapes of type expression.
#[derive(Clone, Debug)]
pub enum TyKind {
    /// A named type, with the identifier its binding is recorded under
    /// and its type arguments.
    Path { path_id: NodeId, args: Vec<NodeId> },
    /// Any other shape, with the type expressions directly inside it.
    Other { children: Vec<NodeId> },
}

/// A node of the item tree.
#[derive(Clone, Debug)]
pub enum Node {
    Item(ItemKind),
    /// A method, which stands for the item that holds it.
    Method { owner: NodeId },
    ForeignItem,
    Variant,
    Ty(TyKind),
    /// Anything else (expressions, locals, destructors).
    Other,
}

/// The read-only context of the pass.
pub struct Ctxt {
    /// The item tree: node `i` has identifier `i`.
    pub nodes: Vec<Node>,
    /// The export table, by module identifier.
    pub exports: HashMap<NodeId, Vec<DefId>>,
    /// Name-resolution bindings, by path identifier.
    pub def_map: HashMap<NodeId, Def>,
    /// Method resolution, by call-expression identifier.
    pub method_map: HashMap<NodeId, MethodOrigin>,
}

/// Why the pass gave up: an upstream phase left the tree inconsistent.
#[derive(Clone, Copy, Debug, PartialEq, Eq, Structural)]
pub enum Fault {
    /// A walked body holds this symbol reference, which has no binding.
    UnboundPath(NodeId),
    /// This item is an unexpanded macro invocation.
    MacroItem(NodeId),
}

impl Ctxt {
    /// The node with identifier `id`, if the tree has one.
    pub open spec fn node(&self, id: NodeId) -> Option<Node> {
        if id < self.nodes@.len() {
            Some(self.nodes@[id as int])
        } else {
            None
        }
    }

    pub open spec fn is_item(&self, id: NodeId) -> bool {
        self.node(id) matches Some(Node::Item(_))
    }
}

} // verus!
