//! What marking one node makes reachable in turn: the item dispatcher and
//! the export, type-expression and body walkers, each one level deep.
use crate::tree::{
    BodyNode, Ctxt, Def, DefId, Dtor, Fault, ItemKind, Method, MethodOrigin, Node, NodeId, TyKind,
    LOCAL_CRATE,
};
use vstd::prelude::*;

verus! {

broadcast use vstd::std_specs::hash::group_hash_axioms;

pub open spec fn opt_seq(o: Option<NodeId>) -> Seq<NodeId> {
    match o {
        Some(x) => seq![x],
        None => seq![],
    }
}

/// The node that a definition reference makes reachable: none for another
/// unit or a missing node; a method stands for the item that holds it.
pub open spec fn target(cx: &Ctxt, d: DefId) -> Option<NodeId> {
    if d.krate != LOCAL_CRATE {
        None
    } else {
        match cx.node(d.node) {
            Some(Node::Item(_)) | Some(Node::ForeignItem) | Some(Node::Variant) => Some(d.node),
            Some(Node::Method { owner }) => if cx.is_item(owner) {
                Some(owner)
            } else {
                None
            },
            _ => None,
        }
    }
}

pub open spec fn targets(cx: &Ctxt, refs: Seq<DefId>) -> Seq<NodeId>
    decreases refs.len(),
{
    if refs.len() == 0 {
        seq![]
    } else {
        targets(cx, refs.drop_last()) + opt_seq(target(cx, refs.last()))
    }
}

/// The identifiers among `ids` that name items.
pub open spec fn items_of(cx: &Ctxt, ids: Seq<NodeId>) -> Seq<NodeId>
    decreases ids.len(),
{
    if ids.len() == 0 {
        seq![]
    } else {
        items_of(cx, ids.drop_last()) + if cx.is_item(ids.last()) {
            seq![ids.last()]
        } else {
            seq![]
        }
    }
}

/// A module: its exports if it has an entry, else every item in it.
pub open spec fn mod_edges(cx: &Ctxt, id: NodeId, items: Seq<NodeId>) -> Seq<NodeId> {
    if cx.exports@.contains_key(id) {
        targets(cx, cx.exports@[id]@)
    } else {
        items_of(cx, items)
    }
}

/// A foreign module: its exports if it has an entry, else every foreign item.
pub open spec fn foreign_mod_edges(cx: &Ctxt, id: NodeId, items: Seq<NodeId>) -> Seq<NodeId> {
    if cx.exports@.contains_key(id) {
        targets(cx, cx.exports@[id]@)
    } else {
        items
    }
}

/// What a path bound to `id` refers to: nothing for a primitive type or a
/// missing binding.
pub open spec fn binding_edges(cx: &Ctxt, id: NodeId) -> Seq<NodeId> {
    if cx.def_map@.contains_key(id) {
        match cx.def_map@[id] {
            Def::PrimTy => seq![],
            Def::Named(d) => opt_seq(target(cx, d)),
        }
    } else {
        seq![]
    }
}

pub open spec fn body_node_edges(cx: &Ctxt, n: BodyNode) -> Seq<NodeId> {
    match n {
        BodyNode::Path(e) => binding_edges(cx, e),
        BodyNode::Field(e) => if cx.method_map@.contains_key(e) {
            match cx.method_map@[e] {
                MethodOrigin::Static(d) => opt_seq(target(cx, d)),
                MethodOrigin::Dynamic => seq![],
            }
        } else {
            seq![]
        },
        BodyNode::Item(i) => if cx.is_item(i) {
            seq![i]
        } else {
            seq![]
        },
    }
}

pub open spec fn body_edges(cx: &Ctxt, body: Seq<BodyNode>) -> Seq<NodeId>
    decreases body.len(),
{
    if body.len() == 0 {
        seq![]
    } else {
        body_edges(cx, body.drop_last()) + body_node_edges(cx, body.last())
    }
}

pub open spec fn unbound(cx: &Ctxt, n: BodyNode) -> bool {
    n matches BodyNode::Path(e) && !cx.def_map@.contains_key(e)
}

/// Every symbol reference in the body has a binding.
pub open spec fn body_bound(cx: &Ctxt, body: Seq<BodyNode>) -> bool {
    forall|i: int| 0 <= i < body.len() ==> !unbound(cx, #[trigger] body[i])
}

/// The body holds the symbol reference `e`, which has no binding.
pub open spec fn has_unbound(cx: &Ctxt, body: Seq<BodyNode>, e: NodeId) -> bool {
    exists|i: int| 0 <= i < body.len() && #[trigger] body[i] == BodyNode::Path(e) && unbound(cx, body[i])
}

/// An implementation's method is walked when the implementation or the
/// method is generic, or the method asks to be inlined.
pub open spec fn impl_walks(tps: usize, m: Method) -> bool {
    tps > 0 || m.tps > 0 || m.inline
}

pub open spec fn impl_edges(cx: &Ctxt, tps: usize, ms: Seq<Method>) -> Seq<NodeId>
    decreases ms.len(),
{
    if ms.len() == 0 {
        seq![]
    } else {
        impl_edges(cx, tps, ms.drop_last()) + if impl_walks(tps, ms.last()) {
            seq![ms.last().id] + body_edges(cx, ms.last().body@)
        } else {
            seq![]
        }
    }
}

/// Every method of a record type is marked; its body is walked when the
/// type is generic or the method asks to be inlined.
pub open spec fn class_edges(cx: &Ctxt, tps: usize, ms: Seq<Method>) -> Seq<NodeId>
    decreases ms.len(),
{
    if ms.len() == 0 {
        seq![]
    } else {
        class_edges(cx, tps, ms.drop_last()) + seq![ms.last().id] + if tps > 0
            || ms.last().inline {
            body_edges(cx, ms.last().body@)
        } else {
            seq![]
        }
    }
}

pub open spec fn dtor_edges(cx: &Ctxt, tps: usize, dtor: Option<Dtor>) -> Seq<NodeId> {
    match dtor {
        None => seq![],
        Some(d) => seq![d.id] + if tps > 0 || d.inline {
            body_edges(cx, d.body@)
        } else {
            seq![]
        },
    }
}

/// What marking item `id` of kind `k` makes reachable.
pub open spec fn item_edges(cx: &Ctxt, id: NodeId, k: ItemKind) -> Seq<NodeId> {
    match k {
        ItemKind::Mod { items } => mod_edges(cx, id, items@),
        ItemKind::ForeignMod { items } => foreign_mod_edges(cx, id, items@),
        ItemKind::Fn { tps, inline, body } => if tps > 0 || inline {
            body_edges(cx, body@)
        } else {
            seq![]
        },
        ItemKind::Impl { tps, methods } => match methods {
            Some(ms) => impl_edges(cx, tps, ms@),
            None => seq![],
        },
        ItemKind::Class { tps, dtor, methods } => dtor_edges(cx, tps, dtor) + class_edges(
            cx,
            tps,
            methods@,
        ),
        ItemKind::TyAlias { ty } => seq![ty],
        _ => seq![],
    }
}

/// What marking a type expression makes reachable: the definition a named
/// type refers to (unless it is primitive) and every type inside it.
pub open spec fn ty_edges(cx: &Ctxt, t: TyKind) -> Seq<NodeId> {
    match t {
        TyKind::Path { path_id, args } => binding_edges(cx, path_id) + args@,
        TyKind::Other { children } => children@,
    }
}

/// What marking node `id` makes reachable.
pub open spec fn edges(cx: &Ctxt, id: NodeId) -> Seq<NodeId> {
    match cx.node(id) {
        Some(Node::Item(k)) => item_edges(cx, id, k),
        Some(Node::Ty(t)) => ty_edges(cx, t),
        _ => seq![],
    }
}

/// The bodies walked when item `id` of kind `k` is marked hold the
/// unbound symbol reference `e`.
pub open spec fn item_has_unbound(cx: &Ctxt, k: ItemKind, e: NodeId) -> bool {
    match k {
        ItemKind::Fn { tps, inline, body } => (tps > 0 || inline) && has_unbound(cx, body@, e),
        ItemKind::Impl { tps, methods } => match methods {
            Some(ms) => exists|j: int|
                0 <= j < ms@.len() && impl_walks(tps, #[trigger] ms@[j]) && has_unbound(
                    cx,
                    ms@[j].body@,
                    e,
                ),
            None => false,
        },
        ItemKind::Class { tps, dtor, methods } => {
            ||| (dtor matches Some(d) && (tps > 0 || d.inline) && has_unbound(cx, d.body@, e))
            ||| exists|j: int|
                0 <= j < methods@.len() && (tps > 0 || (#[trigger] methods@[j]).inline)
                    && has_unbound(cx, methods@[j].body@, e)
        },
        _ => false,
    }
}

/// The bodies walked when item `k` is marked are free of unbound
/// symbol references.
pub open spec fn item_bound(cx: &Ctxt, k: ItemKind) -> bool {
    match k {
        ItemKind::Fn { tps, inline, body } => (tps > 0 || inline) ==> body_bound(cx, body@),
        ItemKind::Impl { tps, methods } => match methods {
            Some(ms) => forall|j: int|
                0 <= j < ms@.len() && impl_walks(tps, #[trigger] ms@[j]) ==> body_bound(
                    cx,
                    ms@[j].body@,
                ),
            None => true,
        },
        ItemKind::Class { tps, dtor, methods } => {
            &&& (dtor matches Some(d) ==> (tps > 0 || d.inline ==> body_bound(cx, d.body@)))
            &&& forall|j: int|
                0 <= j < methods@.len() && (tps > 0 || (#[trigger] methods@[j]).inline)
                    ==> body_bound(cx, methods@[j].body@)
        },
        _ => true,
    }
}

/// Marking node `id` reveals an inconsistency left by an upstream phase.
pub open spec fn faulty(cx: &Ctxt, id: NodeId) -> bool {
    match cx.node(id) {
        Some(Node::Item(k)) => k is Mac || !item_bound(cx, k),
        _ => false,
    }
}

/// `f` describes an inconsistency that marking node `id` reveals.
pub open spec fn fault_of(cx: &Ctxt, id: NodeId, f: Fault) -> bool {
    match cx.node(id) {
        Some(Node::Item(k)) => match f {
            Fault::MacroItem(i) => i == id && k is Mac,
            Fault::UnboundPath(e) => item_has_unbound(cx, k, e),
        },
        _ => false,
    }
}

/// Definition Resolver: the node that `d` makes reachable, if any.
pub fn resolve_def(cx: &Ctxt, d: DefId) -> (r: Option<NodeId>)
    ensures
        r == target(cx, d),
{
    if d.krate != LOCAL_CRATE || d.node >= cx.nodes.len() {
        return None;
    }
    match &cx.nodes[d.node] {
        Node::Item(_) | Node::ForeignItem | Node::Variant => Some(d.node),
        Node::Method { owner } => {
            let owner = *owner;
            if owner < cx.nodes.len() {
                match &cx.nodes[owner] {
                    Node::Item(_) => Some(owner),
                    _ => None,
                }
            } else {
                None
            }
        },
        _ => None,
    }
}

fn push_opt(out: &mut Vec<NodeId>, o: Option<NodeId>)
    ensures
        final(out)@ == old(out)@ + opt_seq(o),
{
    match o {
        Some(x) => out.push(x),
        None => {},
    }
    assert(final(out)@ =~= old(out)@ + opt_seq(o));
}

/// Appends every identifier of `ids`.
fn push_all(ids: &Vec<NodeId>, out: &mut Vec<NodeId>)
    ensures
        final(out)@ == old(out)@ + ids@,
{
    let ghost start = out@;
    let mut i: usize = 0;
    while i < ids.len()
        invariant
            i <= ids@.len(),
            out@ == start + ids@.subrange(0, i as int),
        decreases ids@.len() - i,
    {
        out.push(ids[i]);
        i = i + 1;
        assert(out@ =~= start + ids@.subrange(0, i as int));
    }
    assert(ids@.subrange(0, ids@.len() as int) =~= ids@);
}

/// Appends what each definition reference of `refs` makes reachable.
fn push_targets(cx: &Ctxt, refs: &Vec<DefId>, out: &mut Vec<NodeId>)
    ensures
        final(out)@ == old(out)@ + targets(cx, refs@),
{
    let ghost start = out@;
    let mut i: usize = 0;
    while i < refs.len()
        invariant
            i <= refs@.len(),
            out@ == start + targets(cx, refs@.subrange(0, i as int)),
        decreases refs@.len() - i,
    {
        let t = resolve_def(cx, refs[i]);
        push_opt(out, t);
        proof {
            let pre = refs@.subrange(0, i as int + 1);
            assert(pre.drop_last() =~= refs@.subrange(0, i as int));
        }
        i = i + 1;
        assert(out@ =~= start + targets(cx, refs@.subrange(0, i as int)));
    }
    assert(refs@.subrange(0, refs@.len() as int) =~= refs@);
}

/// Appends the identifiers of `ids` that name items.
fn push_items(cx: &Ctxt, ids: &Vec<NodeId>, out: &mut Vec<NodeId>)
    ensures
        final(out)@ == old(out)@ + items_of(cx, ids@),
{
    let ghost start = out@;
    let mut i: usize = 0;
    while i < ids.len()
        invariant
            i <= ids@.len(),
            out@ == start + items_of(cx, ids@.subrange(0, i as int)),
        decreases ids@.len() - i,
    {
        let c = ids[i];
        let is_item = c < cx.nodes.len() && match &cx.nodes[c] {
            Node::Item(_) => true,
            _ => false,
        };
        if is_item {
            out.push(c);
        }
        proof {
            let pre = ids@.subrange(0, i as int + 1);
            assert(pre.drop_last() =~= ids@.subrange(0, i as int));
        }
        i = i + 1;
        assert(out@ =~= start + items_of(cx, ids@.subrange(0, i as int)));
    }
    assert(ids@.subrange(0, ids@.len() as int) =~= ids@);
}

/// Export Table Walker: when module `mod_id` has an export entry, appends
/// what each listed definition makes reachable. Tells whether it had one.
pub fn traverse_exports(cx: &Ctxt, mod_id: NodeId, out: &mut Vec<NodeId>) -> (found: bool)
    ensures
        found == cx.exports@.contains_key(mod_id),
        found ==> final(out)@ == old(out)@ + targets(cx, cx.exports@[mod_id]@),
        !found ==> final(out)@ == old(out)@,
{
    match cx.exports.get(&mod_id) {
        Some(refs) => {
            push_targets(cx, refs, out);
            true
        },
        None => false,
    }
}

/// Appends what module `mod_id`, holding `items`, makes reachable.
pub fn traverse_public_mod(cx: &Ctxt, mod_id: NodeId, items: &Vec<NodeId>, out: &mut Vec<NodeId>)
    ensures
        final(out)@ == old(out)@ + mod_edges(cx, mod_id, items@),
{
    if !traverse_exports(cx, mod_id, out) {
        push_items(cx, items, out);
    }
}

/// Appends what a path bound under `id` refers to.
fn push_binding(cx: &Ctxt, id: NodeId, out: &mut Vec<NodeId>)
    ensures
        final(out)@ == old(out)@ + binding_edges(cx, id),
{
    match cx.def_map.get(&id) {
        Some(Def::Named(d)) => {
            let t = resolve_def(cx, *d);
            push_opt(out, t);
        },
        _ => {
            assert(final(out)@ =~= old(out)@ + binding_edges(cx, id));
        },
    }
}

/// Type-Expression Walker, one level: appends what a type expression of
/// shape `t` makes reachable.
pub fn traverse_ty(cx: &Ctxt, t: &TyKind, out: &mut Vec<NodeId>)
    ensures
        final(out)@ == old(out)@ + ty_edges(cx, *t),
{
    match t {
        TyKind::Path { path_id, args } => {
            push_binding(cx, *path_id, out);
            push_all(args, out);
            assert(final(out)@ =~= old(out)@ + ty_edges(cx, *t));
        },
        TyKind::Other { children } => {
            push_all(children, out);
        },
    }
}

/// Inline-Body Walker: appends what the symbol references, statically
/// bound method calls and nested items of `body` make reachable, or
/// returns an unbound symbol reference.
pub fn traverse_inline_body(cx: &Ctxt, body: &Vec<BodyNode>, out: &mut Vec<NodeId>) -> (r: Result<
    (),
    NodeId,
>)
    ensures
        r is Ok <==> body_bound(cx, body@),
        r is Ok ==> final(out)@ == old(out)@ + body_edges(cx, body@),
        r matches Err(e) ==> has_unbound(cx, body@, e),
{
    let ghost start = out@;
    let mut i: usize = 0;
    while i < body.len()
        invariant
            i <= body@.len(),
            out@ == start + body_edges(cx, body@.subrange(0, i as int)),
            forall|k: int| 0 <= k < i ==> !unbound(cx, #[trigger] body@[k]),
        decreases body@.len() - i,
    {
        let n = body[i];
        match n {
            BodyNode::Path(e) => {
                if !cx.def_map.contains_key(&e) {
                    assert(body@[i as int] == BodyNode::Path(e));
                    return Err(e);
                }
                push_binding(cx, e, out);
            },
            BodyNode::Field(e) => {
                match cx.method_map.get(&e) {
                    Some(MethodOrigin::Static(d)) => {
                        let t = resolve_def(cx, *d);
                        push_opt(out, t);
                    },
                    _ => {},
                }
            },
            BodyNode::Item(c) => {
                let is_item = c < cx.nodes.len() && match &cx.nodes[c] {
                    Node::Item(_) => true,
                    _ => false,
                };
                if is_item {
                    out.push(c);
                }
            },
        }
        proof {
            let pre = body@.subrange(0, i as int + 1);
            assert(pre.drop_last() =~= body@.subrange(0, i as int));
        }
        i = i + 1;
        assert(out@ =~= start + body_edges(cx, body@.subrange(0, i as int)));
    }
    assert(body@.subrange(0, body@.len() as int) =~= body@);
    Ok(())
}

/// The methods of an implementation with `tps` type parameters: marks and
/// walks each method that is generic or inline.
fn traverse_impl_methods(cx: &Ctxt, tps: usize, ms: &Vec<Method>, out: &mut Vec<NodeId>) -> (r:
    Result<(), NodeId>)
    ensures
        r is Ok <==> forall|j: int|
            0 <= j < ms@.len() && impl_walks(tps, #[trigger] ms@[j]) ==> body_bound(
                cx,
                ms@[j].body@,
            ),
        r is Ok ==> final(out)@ == old(out)@ + impl_edges(cx, tps, ms@),
        r matches Err(e) ==> exists|j: int|
            0 <= j < ms@.len() && impl_walks(tps, #[trigger] ms@[j]) && has_unbound(
                cx,
                ms@[j].body@,
                e,
            ),
{
    let ghost start = out@;
    let mut i: usize = 0;
    while i < ms.len()
        invariant
            i <= ms@.len(),
            out@ == start + impl_edges(cx, tps, ms@.subrange(0, i as int)),
            forall|j: int|
                0 <= j < i && impl_walks(tps, #[trigger] ms@[j]) ==> body_bound(
                    cx,
                    ms@[j].body@,
                ),
        decreases ms@.len() - i,
    {
        let m = &ms[i];
        let ghost mid = out@;
        if tps > 0 || m.tps > 0 || m.inline {
            out.push(m.id);
            match traverse_inline_body(cx, &m.body, out) {
                Ok(()) => {},
                Err(e) => {
                    assert(impl_walks(tps, ms@[i as int]));
                    return Err(e);
                },
            }
            assert(out@ =~= mid + (seq![m.id] + body_edges(cx, m.body@)));
        }
        proof {
            let pre = ms@.subrange(0, i as int + 1);
            assert(pre.drop_last() =~= ms@.subrange(0, i as int));
        }
        i = i + 1;
        assert(out@ =~= start + impl_edges(cx, tps, ms@.subrange(0, i as int)));
    }
    assert(ms@.subrange(0, ms@.len() as int) =~= ms@);
    Ok(())
}

/// The methods of a record type with `tps` type parameters: marks each
/// and walks those that are generic or inline.
fn traverse_class_methods(cx: &Ctxt, tps: usize, ms: &Vec<Method>, out: &mut Vec<NodeId>) -> (r:
    Result<(), NodeId>)
    ensures
        r is Ok <==> forall|j: int|
            0 <= j < ms@.len() && (tps > 0 || (#[trigger] ms@[j]).inline) ==> body_bound(
                cx,
                ms@[j].body@,
            ),
        r is Ok ==> final(out)@ == old(out)@ + class_edges(cx, tps, ms@),
        r matches Err(e) ==> exists|j: int|
            0 <= j < ms@.len() && (tps > 0 || (#[trigger] ms@[j]).inline) && has_unbound(
                cx,
                ms@[j].body@,
                e,
            ),
{
    let ghost start = out@;
    let mut i: usize = 0;
    while i < ms.len()
        invariant
            i <= ms@.len(),
            out@ == start + class_edges(cx, tps, ms@.subrange(0, i as int)),
            forall|j: int|
                0 <= j < i && (tps > 0 || (#[trigger] ms@[j]).inline) ==> body_bound(
                    cx,
                    ms@[j].body@,
                ),
        decreases ms@.len() - i,
    {
        let m = &ms[i];
        let ghost mid = out@;
        out.push(m.id);
        if tps > 0 || m.inline {
            match traverse_inline_body(cx, &m.body, out) {
                Ok(()) => {},
                Err(e) => {
                    assert(tps > 0 || ms@[i as int].inline);
                    return Err(e);
                },
            }
            assert(out@ =~= mid + seq![m.id] + body_edges(cx, m.body@));
        } else {
            assert(out@ =~= mid + seq![m.id] + Seq::<NodeId>::empty());
        }
        proof {
            let pre = ms@.subrange(0, i as int + 1);
            assert(pre.drop_last() =~= ms@.subrange(0, i as int));
        }
        i = i + 1;
        assert(out@ =~= start + class_edges(cx, tps, ms@.subrange(0, i as int)));
    }
    assert(ms@.subrange(0, ms@.len() as int) =~= ms@);
    Ok(())
}

/// The destructor of a record type with `tps` type parameters, if any:
/// marks it and walks it when generic or inline.
fn traverse_dtor(cx: &Ctxt, tps: usize, dtor: &Option<Dtor>, out: &mut Vec<NodeId>) -> (r: Result<
    (),
    NodeId,
>)
    ensures
        r is Ok <==> (*dtor matches Some(d) ==> (tps > 0 || d.inline ==> body_bound(cx, d.body@))),
        r is Ok ==> final(out)@ == old(out)@ + dtor_edges(cx, tps, *dtor),
        r matches Err(e) ==> (*dtor matches Some(d) && (tps > 0 || d.inline) && has_unbound(
            cx,
            d.body@,
            e,
        )),
{
    match dtor {
        None => {
            assert(final(out)@ =~= old(out)@ + dtor_edges(cx, tps, *dtor));
            Ok(())
        },
        Some(d) => {
            out.push(d.id);
            if tps > 0 || d.inline {
                let r = traverse_inline_body(cx, &d.body, out);
                if r.is_ok() {
                    assert(final(out)@ =~= old(out)@ + dtor_edges(cx, tps, *dtor));
                }
                r
            } else {
                assert(final(out)@ =~= old(out)@ + dtor_edges(cx, tps, *dtor));
                Ok(())
            }
        },
    }
}

/// Item Traversal Engine, one level: appends what marking item `id` of
/// kind `k` makes reachable, or reports why the item cannot be handled.
pub fn traverse_public_item(cx: &Ctxt, id: NodeId, k: &ItemKind, out: &mut Vec<NodeId>) -> (r:
    Result<(), Fault>)
    ensures
        r is Ok <==> !(*k is Mac) && item_bound(cx, *k),
        r is Ok ==> final(out)@ == old(out)@ + item_edges(cx, id, *k),
        r matches Err(Fault::MacroItem(i)) ==> i == id && *k is Mac,
        r matches Err(Fault::UnboundPath(e)) ==> item_has_unbound(cx, *k, e),
{
    match k {
        ItemKind::Mod { items } => {
            traverse_public_mod(cx, id, items, out);
            Ok(())
        },
        ItemKind::ForeignMod { items } => {
            if !traverse_exports(cx, id, out) {
                push_all(items, out);
            }
            Ok(())
        },
        ItemKind::Fn { tps, inline, body } => {
            if *tps > 0 || *inline {
                match traverse_inline_body(cx, body, out) {
                    Ok(()) => Ok(()),
                    Err(e) => Err(Fault::UnboundPath(e)),
                }
            } else {
                assert(final(out)@ =~= old(out)@ + item_edges(cx, id, *k));
                Ok(())
            }
        },
        ItemKind::Impl { tps, methods } => {
            match methods {
                Some(ms) => match traverse_impl_methods(cx, *tps, ms, out) {
                    Ok(()) => Ok(()),
                    Err(e) => Err(Fault::UnboundPath(e)),
                },
                None => {
                    assert(final(out)@ =~= old(out)@ + item_edges(cx, id, *k));
                    Ok(())
                },
            }
        },
        ItemKind::Class { tps, dtor, methods } => {
            match traverse_dtor(cx, *tps, dtor, out) {
                Ok(()) => {},
                Err(e) => {
                    return Err(Fault::UnboundPath(e));
                },
            }
            match traverse_class_methods(cx, *tps, methods, out) {
                Ok(()) => {
                    assert(final(out)@ =~= old(out)@ + item_edges(cx, id, *k));
                    Ok(())
                },
                Err(e) => Err(Fault::UnboundPath(e)),
            }
        },
        ItemKind::TyAlias { ty } => {
            out.push(*ty);
            assert(final(out)@ =~= old(out)@ + item_edges(cx, id, *k));
            Ok(())
        },
        ItemKind::Mac => Err(Fault::MacroItem(id)),
        _ => {
            assert(final(out)@ =~= old(out)@ + item_edges(cx, id, *k));
            Ok(())
        },
    }
}

/// Everything that marking node `id` makes reachable, or why it cannot
/// be handled.
pub fn edges_of(cx: &Ctxt, id: NodeId) -> (r: Result<Vec<NodeId>, Fault>)
    ensures
        r is Ok <==> !faulty(cx, id),
        r matches Ok(v) ==> v@ == edges(cx, id),
        r matches Err(f) ==> fault_of(cx, id, f),
{
    let mut out: Vec<NodeId> = Vec::new();
    if id >= cx.nodes.len() {
        assert(out@ =~= edges(cx, id));
        return Ok(out);
    }
    match &cx.nodes[id] {
        Node::Item(k) => {
            match traverse_public_item(cx, id, k, &mut out) {
                Ok(()) => {
                    assert(out@ =~= edges(cx, id));
                    Ok(out)
                },
                Err(f) => Err(f),
            }
        },
        Node::Ty(t) => {
            traverse_ty(cx, t, &mut out);
            assert(out@ =~= edges(cx, id));
            Ok(out)
        },
        _ => {
            assert(out@ =~= edges(cx, id));
            Ok(out)
        },
    }
}

} // verus!
