//! Properties of the reachability pass, stated over its specification.
use crate::edges::{
    binding_edges, body_edges, body_node_edges, class_edges, edges, fault_of, impl_edges, items_of,
    mod_edges, targets, ty_edges,
};
use crate::reachable::{
    consistent, is_chain, is_root, lemma_fault_is_faulty, lemma_root, lemma_step, pass_outcome, reachable,
    reachable_set, retained,
};
use crate::tree::{
    BodyNode, Ctxt, Def, DefId, Fault, ItemKind, Method, Node, NodeId, TyKind, CRATE_NODE_ID, LOCAL_CRATE,
};
use vstd::prelude::*;

verus! {

/// The pass is deterministic: two successful runs over the same inputs
/// yield the same set.
pub proof fn lemma_pass_deterministic(
    cx: &Ctxt,
    crate_mod: Seq<NodeId>,
    a: Set<NodeId>,
    b: Set<NodeId>,
)
    requires
        pass_outcome(cx, crate_mod, Ok(a)),
        pass_outcome(cx, crate_mod, Ok(b)),
    ensures
        a == b,
{
}

/// What a reachable node makes reachable is reachable: in particular every
/// definition that the walked body of a reachable generic or inline
/// function refers to.
pub proof fn lemma_reachable_closed(cx: &Ctxt, crate_mod: Seq<NodeId>, x: NodeId, y: NodeId)
    requires
        reachable(cx, crate_mod, x),
        edges(cx, x).contains(y),
        y < cx.nodes@.len(),
    ensures
        reachable(cx, crate_mod, y),
{
    let j = choose|j: int| 0 <= j < edges(cx, x).len() && edges(cx, x)[j] == y;
    lemma_step(cx, crate_mod, x, j);
}

/// A node that is no root and that no node makes reachable stays
/// unreached (such as a non-generic, non-inline function that nothing
/// exports and nothing walked calls).
pub proof fn lemma_unreferenced_unreached(cx: &Ctxt, crate_mod: Seq<NodeId>, h: NodeId)
    requires
        !is_root(cx, crate_mod, h),
        forall|x: NodeId| !(#[trigger] edges(cx, x)).contains(h),
    ensures
        !reachable(cx, crate_mod, h),
{
    if reachable(cx, crate_mod, h) {
        let p = choose|p: Seq<NodeId>| #[trigger] is_chain(cx, crate_mod, p) && p.last() == h;
        if p.len() == 1 {
            assert(p[0] == h);
        } else {
            let i = p.len() - 1;
            assert(edges(cx, p[i - 1]).contains(p[i]));
        }
    }
}

/// Every implementation and every record type with a destructor is
/// reachable, whatever the exports say.
pub proof fn lemma_retained_reachable(cx: &Ctxt, crate_mod: Seq<NodeId>, y: NodeId)
    requires
        retained(cx, y),
    ensures
        reachable(cx, crate_mod, y),
{
    lemma_root(cx, crate_mod, y);
}

/// A reachable node whose walked body holds an unbound symbol reference
/// makes the pass fail.
pub proof fn lemma_unbound_path_fails(cx: &Ctxt, crate_mod: Seq<NodeId>, x: NodeId, e: NodeId)
    requires
        reachable(cx, crate_mod, x),
        fault_of(cx, x, Fault::UnboundPath(e)),
    ensures
        !consistent(cx, crate_mod),
{
    lemma_fault_is_faulty(cx, x, Fault::UnboundPath(e));
}

/// A named type bound to a primitive type, with no type arguments, makes
/// nothing reachable: a type alias of it reaches its type expression only.
pub proof fn lemma_primitive_alias(cx: &Ctxt, alias: NodeId, ty: NodeId)
    requires
        cx.node(alias) == Some(Node::Item(ItemKind::TyAlias { ty })),
        cx.node(ty) matches Some(Node::Ty(TyKind::Path { path_id, args })) && args@.len() == 0
            && cx.def_map@.contains_key(path_id) && cx.def_map@[path_id] == Def::PrimTy,
    ensures
        edges(cx, alias) == seq![ty],
        edges(cx, ty).len() == 0,
{
    if let Some(Node::Ty(t)) = cx.node(ty) {
        if let TyKind::Path { path_id, args } = t {
            assert(binding_edges(cx, path_id).len() == 0);
            assert(ty_edges(cx, t) =~= Seq::<NodeId>::empty());
        }
    }
}

/// Two contexts with the same tree and tables, whose export tables may
/// differ at the crate root only.
pub open spec fn same_but_crate_exports(cx1: &Ctxt, cx2: &Ctxt) -> bool {
    &&& cx1.nodes@ == cx2.nodes@
    &&& cx1.def_map@ == cx2.def_map@
    &&& cx1.method_map@ == cx2.method_map@
    &&& forall|k: NodeId|
        k != CRATE_NODE_ID ==> (#[trigger] cx1.exports@.contains_key(k)
            == cx2.exports@.contains_key(k) && (cx1.exports@.contains_key(k)
            ==> cx1.exports@[k] == cx2.exports@[k]))
}

proof fn lemma_same_targets(cx1: &Ctxt, cx2: &Ctxt, refs: Seq<DefId>)
    requires
        same_but_crate_exports(cx1, cx2),
    ensures
        targets(cx1, refs) == targets(cx2, refs),
    decreases refs.len(),
{
    if refs.len() > 0 {
        lemma_same_targets(cx1, cx2, refs.drop_last());
    }
}

proof fn lemma_same_items_of(cx1: &Ctxt, cx2: &Ctxt, ids: Seq<NodeId>)
    requires
        same_but_crate_exports(cx1, cx2),
    ensures
        items_of(cx1, ids) == items_of(cx2, ids),
    decreases ids.len(),
{
    if ids.len() > 0 {
        lemma_same_items_of(cx1, cx2, ids.drop_last());
    }
}

proof fn lemma_same_body(cx1: &Ctxt, cx2: &Ctxt, body: Seq<BodyNode>)
    requires
        same_but_crate_exports(cx1, cx2),
    ensures
        body_edges(cx1, body) == body_edges(cx2, body),
    decreases body.len(),
{
    if body.len() > 0 {
        lemma_same_body(cx1, cx2, body.drop_last());
        assert(body_node_edges(cx1, body.last()) == body_node_edges(cx2, body.last()));
    }
}

proof fn lemma_same_impl(cx1: &Ctxt, cx2: &Ctxt, tps: usize, ms: Seq<Method>)
    requires
        same_but_crate_exports(cx1, cx2),
    ensures
        impl_edges(cx1, tps, ms) == impl_edges(cx2, tps, ms),
    decreases ms.len(),
{
    if ms.len() > 0 {
        lemma_same_impl(cx1, cx2, tps, ms.drop_last());
        lemma_same_body(cx1, cx2, ms.last().body@);
    }
}

proof fn lemma_same_class(cx1: &Ctxt, cx2: &Ctxt, tps: usize, ms: Seq<Method>)
    requires
        same_but_crate_exports(cx1, cx2),
    ensures
        class_edges(cx1, tps, ms) == class_edges(cx2, tps, ms),
    decreases ms.len(),
{
    if ms.len() > 0 {
        lemma_same_class(cx1, cx2, tps, ms.drop_last());
        lemma_same_body(cx1, cx2, ms.last().body@);
    }
}

proof fn lemma_items_of_items(cx: &Ctxt, ids: Seq<NodeId>)
    requires
        forall|j: int| 0 <= j < ids.len() ==> cx.is_item(#[trigger] ids[j]),
    ensures
        items_of(cx, ids) == ids,
    decreases ids.len(),
{
    if ids.len() > 0 {
        lemma_items_of_items(cx, ids.drop_last());
        assert(cx.is_item(ids[ids.len() - 1]));
        assert(items_of(cx, ids) =~= ids);
    }
}

proof fn lemma_targets_of_items(cx: &Ctxt, refs: Seq<DefId>, ids: Seq<NodeId>)
    requires
        refs.len() == ids.len(),
        forall|j: int| 0 <= j < ids.len() ==> cx.is_item(#[trigger] ids[j]),
        forall|j: int|
            0 <= j < refs.len() ==> #[trigger] refs[j] == (DefId { krate: LOCAL_CRATE, node: ids[j] }),
    ensures
        targets(cx, refs) == ids,
    decreases ids.len(),
{
    if ids.len() > 0 {
        let n = ids.len() - 1;
        assert(refs[n] == (DefId { krate: LOCAL_CRATE, node: ids[n] }));
        assert(cx.is_item(ids[n]));
        lemma_targets_of_items(cx, refs.drop_last(), ids.drop_last());
        assert(targets(cx, refs) =~= ids);
    }
}

/// An export entry that lists exactly the items of the crate's top-level
/// module, as definitions of this unit, reaches the same set as no entry
/// at all.
pub proof fn lemma_explicit_exports_match_implicit(
    cx1: &Ctxt,
    cx2: &Ctxt,
    crate_mod: Seq<NodeId>,
)
    requires
        same_but_crate_exports(cx1, cx2),
        !cx1.exports@.contains_key(CRATE_NODE_ID),
        cx2.exports@.contains_key(CRATE_NODE_ID),
        cx2.exports@[CRATE_NODE_ID]@.len() == crate_mod.len(),
        forall|j: int|
            0 <= j < crate_mod.len() ==> #[trigger] cx2.exports@[CRATE_NODE_ID]@[j] == (DefId {
                krate: LOCAL_CRATE,
                node: crate_mod[j],
            }),
        forall|j: int| 0 <= j < crate_mod.len() ==> cx1.is_item(#[trigger] crate_mod[j]),
        cx1.is_item(CRATE_NODE_ID) ==> (cx1.node(CRATE_NODE_ID) matches Some(
            Node::Item(ItemKind::Mod { items }),
        ) && items@ == crate_mod),
    ensures
        reachable_set(cx1, crate_mod) == reachable_set(cx2, crate_mod),
{
    let refs = cx2.exports@[CRATE_NODE_ID]@;
    lemma_items_of_items(cx1, crate_mod);
    assert forall|j: int| 0 <= j < crate_mod.len() implies cx2.is_item(#[trigger] crate_mod[j]) by {
        assert(cx1.is_item(crate_mod[j]));
    }
    assert forall|j: int| 0 <= j < refs.len() implies #[trigger] refs[j] == (DefId {
        krate: LOCAL_CRATE,
        node: crate_mod[j],
    }) by {
        assert(cx2.exports@[CRATE_NODE_ID]@[j] == refs[j]);
    }
    lemma_targets_of_items(cx2, refs, crate_mod);
    assert(mod_edges(cx1, CRATE_NODE_ID, crate_mod) == mod_edges(cx2, CRATE_NODE_ID, crate_mod));
    assert forall|x: NodeId| #[trigger] edges(cx1, x) == edges(cx2, x) by {
        lemma_same_edges(cx1, cx2, crate_mod, x);
    }
    assert forall|y: NodeId| #[trigger] is_root(cx1, crate_mod, y) == is_root(cx2, crate_mod, y) by {}
    assert forall|p: Seq<NodeId>| #[trigger] is_chain(cx1, crate_mod, p) == is_chain(cx2, crate_mod, p) by {
        if p.len() > 0 {
            assert(is_root(cx1, crate_mod, p[0]) == is_root(cx2, crate_mod, p[0]));
        }
    }
    assert forall|y: NodeId| #[trigger] reachable(cx1, crate_mod, y) == reachable(cx2, crate_mod, y) by {
        if reachable(cx1, crate_mod, y) {
            let p = choose|p: Seq<NodeId>| #[trigger] is_chain(cx1, crate_mod, p) && p.last() == y;
            assert(is_chain(cx2, crate_mod, p));
        }
        if reachable(cx2, crate_mod, y) {
            let p = choose|p: Seq<NodeId>| #[trigger] is_chain(cx2, crate_mod, p) && p.last() == y;
            assert(is_chain(cx1, crate_mod, p));
        }
    }
    assert(reachable_set(cx1, crate_mod) =~= reachable_set(cx2, crate_mod));
}

proof fn lemma_same_edges(cx1: &Ctxt, cx2: &Ctxt, crate_mod: Seq<NodeId>, x: NodeId)
    requires
        same_but_crate_exports(cx1, cx2),
        mod_edges(cx1, CRATE_NODE_ID, crate_mod) == mod_edges(cx2, CRATE_NODE_ID, crate_mod),
        cx1.is_item(CRATE_NODE_ID) ==> (cx1.node(CRATE_NODE_ID) matches Some(
            Node::Item(ItemKind::Mod { items }),
        ) && items@ == crate_mod),
    ensures
        edges(cx1, x) == edges(cx2, x),
{
    assert(cx1.node(x) == cx2.node(x));
    match cx1.node(x) {
        Some(Node::Item(k)) => {
            match k {
                ItemKind::Mod { items } => {
                    if x != CRATE_NODE_ID {
                        assert(cx1.exports@.contains_key(x) == cx2.exports@.contains_key(x));
                        lemma_same_targets(cx1, cx2, cx1.exports@[x]@);
                        lemma_same_items_of(cx1, cx2, items@);
                    }
                },
                ItemKind::ForeignMod { items } => {
                    assert(x != CRATE_NODE_ID);
                    assert(cx1.exports@.contains_key(x) == cx2.exports@.contains_key(x));
                    lemma_same_targets(cx1, cx2, cx1.exports@[x]@);
                },
                ItemKind::Fn { body, .. } => {
                    lemma_same_body(cx1, cx2, body@);
                },
                ItemKind::Impl { tps, methods } => {
                    if let Some(ms) = methods {
                        lemma_same_impl(cx1, cx2, tps, ms@);
                    }
                },
                ItemKind::Class { tps, dtor, methods } => {
                    if let Some(d) = dtor {
                        lemma_same_body(cx1, cx2, d.body@);
                    }
                    lemma_same_class(cx1, cx2, tps, methods@);
                },
                _ => {},
            }
        },
        _ => {},
    }
}

} // verus!
