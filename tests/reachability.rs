use reachability::reach_set::ReachableSet;
use reachability::reachable::find_reachable;
use reachability::tree::{
    BodyNode, Ctxt, Def, DefId, Dtor, Fault, ItemKind, Method, MethodOrigin, Node, NodeId, TyKind,
    LOCAL_CRATE,
};
use std::collections::HashMap;

fn local(node: NodeId) -> DefId {
    DefId { krate: LOCAL_CRATE, node }
}

fn ctxt(
    nodes: Vec<Node>,
    exports: Vec<(NodeId, Vec<DefId>)>,
    defs: Vec<(NodeId, Def)>,
    methods: Vec<(NodeId, MethodOrigin)>,
) -> Ctxt {
    Ctxt {
        nodes,
        exports: exports.into_iter().collect::<HashMap<_, _>>(),
        def_map: defs.into_iter().collect::<HashMap<_, _>>(),
        method_map: methods.into_iter().collect::<HashMap<_, _>>(),
    }
}

fn item(k: ItemKind) -> Node {
    Node::Item(k)
}

fn func(tps: usize, inline: bool, body: Vec<BodyNode>) -> Node {
    item(ItemKind::Fn { tps, inline, body })
}

fn others(n: usize) -> Vec<Node> {
    (0..n).map(|_| Node::Other).collect()
}

fn members(s: &ReachableSet, n: usize) -> Vec<NodeId> {
    (0..n).filter(|i| s.contains(*i)).collect()
}

/// f<T> calls g; h has no callers; only f is exported.
fn generic_caller() -> (Vec<NodeId>, Ctxt) {
    let mut nodes = vec![
        item(ItemKind::Mod { items: vec![1, 2, 3] }),
        func(1, false, vec![BodyNode::Path(10)]),
        func(0, false, vec![BodyNode::Path(11)]),
        func(0, false, vec![]),
    ];
    nodes.extend(others(8));
    let cx = ctxt(
        nodes,
        vec![(0, vec![local(1)])],
        vec![(10, Def::Named(local(2)))],
        vec![],
    );
    (vec![1, 2, 3], cx)
}

#[test]
fn generic_function_reaches_its_callee_but_not_an_uncalled_sibling() {
    let (m, cx) = generic_caller();
    let s = find_reachable(&m, &cx).unwrap();
    assert!(s.contains(1));
    assert!(s.contains(2));
    assert!(!s.contains(3));
    assert_eq!(s.len(), 2);
}

#[test]
fn non_generic_body_is_not_walked() {
    // g's body holds an unbound reference, but g is neither generic nor inline.
    let (m, cx) = generic_caller();
    assert!(find_reachable(&m, &cx).is_ok());
}

#[test]
fn inline_function_body_is_walked() {
    let mut nodes = vec![
        item(ItemKind::Mod { items: vec![1, 2] }),
        func(0, true, vec![BodyNode::Path(5)]),
        func(0, false, vec![]),
    ];
    nodes.extend(others(3));
    let cx = ctxt(nodes, vec![(0, vec![local(1)])], vec![(5, Def::Named(local(2)))], vec![]);
    let s = find_reachable(&vec![1, 2], &cx).unwrap();
    assert_eq!(members(&s, 6), vec![1, 2]);
}

#[test]
fn destructor_type_is_retained_with_empty_export_table() {
    let mut nodes = vec![
        item(ItemKind::Mod { items: vec![1] }),
        item(ItemKind::Class {
            tps: 0,
            dtor: Some(Dtor { id: 2, inline: false, body: vec![] }),
            methods: vec![],
        }),
    ];
    nodes.extend(others(1));
    let cx = ctxt(nodes, vec![(0, vec![])], vec![], vec![]);
    let s = find_reachable(&vec![1], &cx).unwrap();
    assert_eq!(members(&s, 3), vec![1, 2]);
}

#[test]
fn implementation_is_retained_but_plain_methods_are_not_marked() {
    let nodes = vec![
        item(ItemKind::Mod { items: vec![1] }),
        item(ItemKind::Impl {
            tps: 0,
            methods: Some(vec![
                Method { id: 2, tps: 0, inline: false, body: vec![] },
                Method { id: 3, tps: 1, inline: false, body: vec![] },
            ]),
        }),
        Node::Method { owner: 1 },
        Node::Method { owner: 1 },
    ];
    let cx = ctxt(nodes, vec![(0, vec![])], vec![], vec![]);
    let s = find_reachable(&vec![1], &cx).unwrap();
    assert_eq!(members(&s, 4), vec![1, 3]);
}

#[test]
fn unbound_reference_in_walked_body_fails() {
    let nodes = vec![
        item(ItemKind::Mod { items: vec![1] }),
        func(1, false, vec![BodyNode::Path(2)]),
        Node::Other,
    ];
    let cx = ctxt(nodes, vec![], vec![], vec![]);
    assert_eq!(find_reachable(&vec![1], &cx).err(), Some(Fault::UnboundPath(2)));
}

#[test]
fn macro_item_fails() {
    let nodes = vec![item(ItemKind::Mod { items: vec![1] }), item(ItemKind::Mac)];
    let cx = ctxt(nodes, vec![], vec![], vec![]);
    assert_eq!(find_reachable(&vec![1], &cx).err(), Some(Fault::MacroItem(1)));
}

#[test]
fn primitive_type_alias_reaches_nothing_else() {
    let nodes = vec![
        item(ItemKind::Mod { items: vec![1] }),
        item(ItemKind::TyAlias { ty: 2 }),
        Node::Ty(TyKind::Path { path_id: 3, args: vec![] }),
        Node::Other,
        item(ItemKind::Enum),
    ];
    let cx = ctxt(nodes, vec![], vec![(3, Def::PrimTy)], vec![]);
    let s = find_reachable(&vec![1], &cx).unwrap();
    assert_eq!(members(&s, 5), vec![1, 2]);
}

#[test]
fn named_type_alias_reaches_type_and_arguments() {
    // alias = Wrapper<Elem>, with Wrapper and Elem enums not exported.
    let nodes = vec![
        item(ItemKind::Mod { items: vec![1, 4, 6] }),
        item(ItemKind::TyAlias { ty: 2 }),
        Node::Ty(TyKind::Path { path_id: 3, args: vec![5] }),
        Node::Other,
        item(ItemKind::Enum),
        Node::Ty(TyKind::Path { path_id: 7, args: vec![] }),
        item(ItemKind::Enum),
        Node::Other,
    ];
    let cx = ctxt(
        nodes,
        vec![(0, vec![local(1)])],
        vec![(3, Def::Named(local(4))), (7, Def::Named(local(6)))],
        vec![],
    );
    let s = find_reachable(&vec![1, 4, 6], &cx).unwrap();
    assert_eq!(members(&s, 8), vec![1, 2, 4, 5, 6]);
}

#[test]
fn explicit_exports_of_every_item_match_no_entry() {
    let build = |exports: Vec<(NodeId, Vec<DefId>)>| {
        let mut nodes = vec![
            item(ItemKind::Mod { items: vec![1, 2] }),
            func(1, false, vec![BodyNode::Path(5)]),
            func(0, false, vec![]),
            func(0, false, vec![]),
        ];
        nodes.extend(others(2));
        ctxt(nodes, exports, vec![(5, Def::Named(local(3)))], vec![])
    };
    let implicit = find_reachable(&vec![1, 2], &build(vec![])).unwrap();
    let explicit = find_reachable(&vec![1, 2], &build(vec![(0, vec![local(1), local(2)])])).unwrap();
    assert_eq!(members(&implicit, 6), members(&explicit, 6));
    assert_eq!(members(&implicit, 6), vec![1, 2, 3]);
}

#[test]
fn running_twice_gives_the_same_set() {
    let (m, cx) = generic_caller();
    let a = find_reachable(&m, &cx).unwrap();
    let b = find_reachable(&m, &cx).unwrap();
    assert_eq!(members(&a, 12), members(&b, 12));
    assert_eq!(a.len(), b.len());
}

#[test]
fn inserting_a_present_identifier_changes_nothing() {
    let mut s = ReachableSet::new();
    assert!(s.insert(4));
    assert!(!s.insert(4));
    assert_eq!(s.len(), 1);
    assert!(s.contains(4));
    assert!(!s.contains(5));
}

#[test]
fn set_only_grows() {
    let mut s = ReachableSet::new();
    s.insert(1);
    s.insert(2);
    s.insert(1);
    assert!(s.contains(1) && s.contains(2));
    assert_eq!(s.len(), 2);
}

#[test]
fn other_crate_references_are_ignored() {
    let nodes = vec![item(ItemKind::Mod { items: vec![1] }), func(0, false, vec![])];
    let cx = ctxt(nodes, vec![(0, vec![DefId { krate: 1, node: 1 }, local(9)])], vec![], vec![]);
    let s = find_reachable(&vec![1], &cx).unwrap();
    assert_eq!(s.len(), 0);
}

#[test]
fn static_method_call_reaches_owner_and_dynamic_does_not() {
    let nodes = vec![
        item(ItemKind::Mod { items: vec![1, 4, 6] }),
        func(1, false, vec![BodyNode::Field(7), BodyNode::Field(8)]),
        Node::Other,
        Node::Method { owner: 4 },
        item(ItemKind::Class {
            tps: 0,
            dtor: None,
            methods: vec![Method { id: 3, tps: 0, inline: false, body: vec![] }],
        }),
        Node::Method { owner: 6 },
        item(ItemKind::Class {
            tps: 0,
            dtor: None,
            methods: vec![Method { id: 5, tps: 0, inline: false, body: vec![] }],
        }),
        Node::Other,
        Node::Other,
    ];
    let cx = ctxt(
        nodes,
        vec![(0, vec![local(1)])],
        vec![],
        vec![(7, MethodOrigin::Static(local(3))), (8, MethodOrigin::Dynamic)],
    );
    let s = find_reachable(&vec![1, 4, 6], &cx).unwrap();
    assert_eq!(members(&s, 9), vec![1, 3, 4]);
}

#[test]
fn foreign_module_without_entry_marks_every_foreign_item() {
    let nodes = vec![
        item(ItemKind::Mod { items: vec![1] }),
        item(ItemKind::ForeignMod { items: vec![2, 3] }),
        Node::ForeignItem,
        Node::ForeignItem,
    ];
    let cx = ctxt(nodes, vec![], vec![], vec![]);
    let s = find_reachable(&vec![1], &cx).unwrap();
    assert_eq!(members(&s, 4), vec![1, 2, 3]);
}

#[test]
fn foreign_module_with_entry_marks_listed_items_only() {
    let nodes = vec![
        item(ItemKind::Mod { items: vec![1] }),
        item(ItemKind::ForeignMod { items: vec![2, 3] }),
        Node::ForeignItem,
        Node::ForeignItem,
    ];
    let cx = ctxt(nodes, vec![(1, vec![local(3)])], vec![], vec![]);
    let s = find_reachable(&vec![1], &cx).unwrap();
    assert_eq!(members(&s, 4), vec![1, 3]);
}

#[test]
fn nested_generic_item_in_walked_body_is_traversed() {
    let nodes = vec![
        item(ItemKind::Mod { items: vec![1, 3] }),
        func(1, false, vec![BodyNode::Item(2)]),
        func(1, false, vec![BodyNode::Path(4)]),
        func(0, false, vec![]),
        Node::Other,
    ];
    let cx = ctxt(nodes, vec![(0, vec![local(1)])], vec![(4, Def::Named(local(3)))], vec![]);
    let s = find_reachable(&vec![1, 3], &cx).unwrap();
    assert_eq!(members(&s, 5), vec![1, 2, 3]);
}

#[test]
fn mutually_recursive_generic_functions_terminate() {
    let nodes = vec![
        item(ItemKind::Mod { items: vec![1, 2] }),
        func(1, false, vec![BodyNode::Path(3)]),
        func(1, false, vec![BodyNode::Path(4)]),
        Node::Other,
        Node::Other,
    ];
    let cx = ctxt(
        nodes,
        vec![(0, vec![local(1)])],
        vec![(3, Def::Named(local(2))), (4, Def::Named(local(1)))],
        vec![],
    );
    let s = find_reachable(&vec![1, 2], &cx).unwrap();
    assert_eq!(members(&s, 5), vec![1, 2]);
}

#[test]
fn nested_module_without_entry_exports_everything() {
    let nodes = vec![
        item(ItemKind::Mod { items: vec![1] }),
        item(ItemKind::Mod { items: vec![2, 3] }),
        item(ItemKind::Const),
        item(ItemKind::Trait),
    ];
    let cx = ctxt(nodes, vec![], vec![], vec![]);
    let s = find_reachable(&vec![1], &cx).unwrap();
    assert_eq!(members(&s, 4), vec![1, 2, 3]);
}

#[test]
fn variant_reference_marks_the_variant() {
    let nodes = vec![
        item(ItemKind::Mod { items: vec![1] }),
        func(0, true, vec![BodyNode::Path(3)]),
        Node::Variant,
        Node::Other,
    ];
    let cx = ctxt(nodes, vec![], vec![(3, Def::Named(local(2)))], vec![]);
    let s = find_reachable(&vec![1], &cx).unwrap();
    assert_eq!(members(&s, 4), vec![1, 2]);
}

#[test]
fn generic_class_walks_destructor_and_method_bodies() {
    let nodes = vec![
        item(ItemKind::Mod { items: vec![1, 5, 6] }),
        item(ItemKind::Class {
            tps: 1,
            dtor: Some(Dtor { id: 2, inline: false, body: vec![BodyNode::Path(7)] }),
            methods: vec![Method { id: 3, tps: 0, inline: false, body: vec![BodyNode::Path(8)] }],
        }),
        Node::Other,
        Node::Method { owner: 1 },
        Node::Other,
        func(0, false, vec![]),
        func(0, false, vec![]),
        Node::Other,
        Node::Other,
    ];
    let cx = ctxt(
        nodes,
        vec![(0, vec![])],
        vec![(7, Def::Named(local(5))), (8, Def::Named(local(6)))],
        vec![],
    );
    let s = find_reachable(&vec![1, 5, 6], &cx).unwrap();
    assert_eq!(members(&s, 9), vec![1, 2, 3, 5, 6]);
}
