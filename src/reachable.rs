//! The reachability pass: the export-driven closure from the crate's
//! top-level module, then the conservative retention of every
//! implementation and every record type with a destructor.
use crate::edges::{
    body_bound, edges, edges_of, fault_of, faulty, has_unbound, impl_walks, mod_edges,
    traverse_public_mod, unbound,
};
use crate::reach_set::ReachableSet;
use crate::tree::{BodyNode, Ctxt, Fault, ItemKind, Node, NodeId, CRATE_NODE_ID};
use vstd::prelude::*;

verus! {

broadcast use vstd::std_specs::hash::group_hash_axioms;

/// Kept unconditionally: an implementation, or a record type with a
/// destructor.
pub open spec fn retained(cx: &Ctxt, y: NodeId) -> bool {
    match cx.node(y) {
        Some(Node::Item(ItemKind::Impl { .. })) => true,
        Some(Node::Item(ItemKind::Class { dtor, .. })) => dtor is Some,
        _ => false,
    }
}

/// Where the pass starts: what the crate's top-level module exports (each
/// of its items when it has no export entry), and every retained item.
pub open spec fn is_root(cx: &Ctxt, crate_mod: Seq<NodeId>, y: NodeId) -> bool {
    mod_edges(cx, CRATE_NODE_ID, crate_mod).contains(y) || retained(cx, y)
}

/// `p` is a chain of nodes of the tree that starts at a root, each node
/// made reachable by the one before it.
pub open spec fn is_chain(cx: &Ctxt, crate_mod: Seq<NodeId>, p: Seq<NodeId>) -> bool {
    &&& p.len() > 0
    &&& is_root(cx, crate_mod, p[0])
    &&& forall|i: int| 0 <= i < p.len() ==> #[trigger] p[i] < cx.nodes@.len()
    &&& forall|i: int| 0 < i < p.len() ==> edges(cx, p[i - 1]).contains(#[trigger] p[i])
}

/// Some chain from a root ends at `y`.
pub open spec fn reachable(cx: &Ctxt, crate_mod: Seq<NodeId>, y: NodeId) -> bool {
    exists|p: Seq<NodeId>| #[trigger] is_chain(cx, crate_mod, p) && p.last() == y
}

/// The least set of nodes of the tree that holds the roots and is closed
/// under `edges`.
pub open spec fn reachable_set(cx: &Ctxt, crate_mod: Seq<NodeId>) -> Set<NodeId> {
    Set::new(|y: NodeId| reachable(cx, crate_mod, y))
}

/// No reachable node reveals an inconsistency.
pub open spec fn consistent(cx: &Ctxt, crate_mod: Seq<NodeId>) -> bool {
    forall|y: NodeId| reachable(cx, crate_mod, y) ==> !faulty(cx, y)
}

/// What the pass returns: the reachable set when no reachable node is
/// faulty, else a fault of some reachable node.
pub open spec fn pass_outcome(cx: &Ctxt, crate_mod: Seq<NodeId>, r: Result<Set<NodeId>, Fault>) -> bool {
    match r {
        Ok(s) => consistent(cx, crate_mod) && s == reachable_set(cx, crate_mod),
        Err(f) => exists|x: NodeId| reachable(cx, crate_mod, x) && fault_of(cx, x, f),
    }
}

/// The number of unmarked entries.
pub open spec fn unmarked(marks: Seq<bool>) -> nat
    decreases marks.len(),
{
    if marks.len() == 0 {
        0
    } else {
        unmarked(marks.drop_last()) + if marks.last() {
            0nat
        } else {
            1nat
        }
    }
}

proof fn lemma_unmarked_update(marks: Seq<bool>, i: int)
    requires
        0 <= i < marks.len(),
        !marks[i],
    ensures
        unmarked(marks.update(i, true)) + 1 == unmarked(marks),
    decreases marks.len(),
{
    let m2 = marks.update(i, true);
    if i == marks.len() - 1 {
        assert(m2.drop_last() =~= marks.drop_last());
    } else {
        assert(m2.drop_last() =~= marks.drop_last().update(i, true));
        lemma_unmarked_update(marks.drop_last(), i);
    }
}

/// Every mark of `a` is kept in `b`.
pub open spec fn grows(a: Seq<bool>, b: Seq<bool>) -> bool {
    a.len() == b.len() && forall|i: int| 0 <= i < a.len() && #[trigger] a[i] ==> b[i]
}

/// Node `x` has been handled: it is consistent and all it makes reachable
/// is marked.
pub open spec fn done(cx: &Ctxt, marks: Seq<bool>, x: NodeId) -> bool {
    &&& !faulty(cx, x)
    &&& forall|j: int|
        0 <= j < edges(cx, x).len() && #[trigger] edges(cx, x)[j] < marks.len() ==> marks[edges(
            cx,
            x,
        )[j] as int]
}

/// The traversal's invariant: the stack holds marked nodes, every mark is
/// reachable, and every marked node off the stack is handled (but those
/// in `busy`, which are being handled).
pub open spec fn good(
    cx: &Ctxt,
    crate_mod: Seq<NodeId>,
    marks: Seq<bool>,
    stack: Seq<NodeId>,
    busy: Set<NodeId>,
) -> bool {
    &&& marks.len() == cx.nodes@.len()
    &&& forall|i: int|
        0 <= i < stack.len() ==> #[trigger] stack[i] < marks.len() && marks[stack[i] as int]
    &&& forall|y: NodeId|
        y < marks.len() && #[trigger] marks[y as int] ==> reachable(cx, crate_mod, y)
    &&& forall|y: NodeId|
        y < marks.len() && #[trigger] marks[y as int] && !stack.contains(y) && !busy.contains(y)
            ==> done(cx, marks, y)
}

pub(crate) proof fn lemma_step(cx: &Ctxt, crate_mod: Seq<NodeId>, x: NodeId, j: int)
    requires
        reachable(cx, crate_mod, x),
        0 <= j < edges(cx, x).len(),
        edges(cx, x)[j] < cx.nodes@.len(),
    ensures
        reachable(cx, crate_mod, edges(cx, x)[j]),
{
    let y = edges(cx, x)[j];
    let p = choose|p: Seq<NodeId>| #[trigger] is_chain(cx, crate_mod, p) && p.last() == x;
    let q = p.push(y);
    assert forall|i: int| 0 <= i < q.len() implies #[trigger] q[i] < cx.nodes@.len() by {
        if i < p.len() {
            assert(q[i] == p[i]);
        }
    }
    assert forall|i: int| 0 < i < q.len() implies edges(cx, q[i - 1]).contains(#[trigger] q[i]) by {
        if i < p.len() {
            assert(q[i] == p[i]);
            assert(q[i - 1] == p[i - 1]);
        } else {
            assert(q[i - 1] == x);
            assert(edges(cx, x)[j] == y);
        }
    }
    assert(q[0] == p[0]);
    assert(is_chain(cx, crate_mod, q));
}

pub(crate) proof fn lemma_root(cx: &Ctxt, crate_mod: Seq<NodeId>, y: NodeId)
    requires
        is_root(cx, crate_mod, y),
        y < cx.nodes@.len(),
    ensures
        reachable(cx, crate_mod, y),
{
    let p = seq![y];
    assert(is_chain(cx, crate_mod, p));
}

/// Marks each node of `ids` that the tree has, pushing those newly marked.
fn mark_all(
    cx: &Ctxt,
    Ghost(crate_mod): Ghost<Seq<NodeId>>,
    Ghost(busy): Ghost<Set<NodeId>>,
    ids: &Vec<NodeId>,
    marks: &mut Vec<bool>,
    stack: &mut Vec<NodeId>,
)
    requires
        good(cx, crate_mod, old(marks)@, old(stack)@, busy),
        forall|j: int|
            0 <= j < ids@.len() && #[trigger] ids@[j] < old(marks)@.len() ==> reachable(
                cx,
                crate_mod,
                ids@[j],
            ),
    ensures
        good(cx, crate_mod, final(marks)@, final(stack)@, busy),
        grows(old(marks)@, final(marks)@),
        forall|j: int|
            0 <= j < ids@.len() && #[trigger] ids@[j] < final(marks)@.len() ==> final(marks)@[ids@[j] as int],
        unmarked(final(marks)@) + final(stack)@.len() == unmarked(old(marks)@) + old(stack)@.len(),
        unmarked(final(marks)@) <= unmarked(old(marks)@),
{
    let ghost marks0 = marks@;
    let ghost stack0 = stack@;
    let mut i: usize = 0;
    while i < ids.len()
        invariant
            i <= ids@.len(),
            good(cx, crate_mod, marks@, stack@, busy),
            grows(marks0, marks@),
            forall|j: int|
                0 <= j < i && #[trigger] ids@[j] < marks@.len() ==> marks@[ids@[j] as int],
            forall|j: int|
                0 <= j < ids@.len() && #[trigger] ids@[j] < marks0.len() ==> reachable(
                    cx,
                    crate_mod,
                    ids@[j],
                ),
            unmarked(marks@) + stack@.len() == unmarked(marks0) + stack0.len(),
            unmarked(marks@) <= unmarked(marks0),
        decreases ids@.len() - i,
    {
        let y = ids[i];
        if y < marks.len() && !marks[y] {
            let ghost m1 = marks@;
            let ghost s1 = stack@;
            assert(reachable(cx, crate_mod, ids@[i as int]));
            proof {
                lemma_unmarked_update(m1, y as int);
            }
            marks[y] = true;
            stack.push(y);
            assert(marks@ == m1.update(y as int, true));
            assert forall|z: NodeId|
                z < marks@.len() && #[trigger] marks@[z as int] && !stack@.contains(z)
                    && !busy.contains(z) implies done(cx, marks@, z) by {
                assert(stack@[stack@.len() - 1] == y);
                assert(z != y);
                if s1.contains(z) {
                    let k = choose|k: int| 0 <= k < s1.len() && s1[k] == z;
                    assert(stack@[k] == z);
                }
                assert(done(cx, m1, z));
            }
            assert forall|k: int| 0 <= k < stack@.len() implies #[trigger] stack@[k] < marks@.len()
                && marks@[stack@[k] as int] by {
                if k < s1.len() {
                    assert(stack@[k] == s1[k]);
                }
            }
        }
        i = i + 1;
    }
}

/// Handles every node on the stack, and every node it makes reachable in
/// turn, until the stack is empty or a node is found faulty.
fn close(
    cx: &Ctxt,
    Ghost(crate_mod): Ghost<Seq<NodeId>>,
    marks: &mut Vec<bool>,
    stack: &mut Vec<NodeId>,
) -> (r: Result<(), Fault>)
    requires
        good(cx, crate_mod, old(marks)@, old(stack)@, Set::empty()),
    ensures
        grows(old(marks)@, final(marks)@),
        r is Ok ==> good(cx, crate_mod, final(marks)@, final(stack)@, Set::empty())
            && final(stack)@.len() == 0,
        r matches Err(f) ==> exists|x: NodeId| reachable(cx, crate_mod, x) && fault_of(cx, x, f),
{
    let ghost marks_in = marks@;
    while stack.len() > 0
        invariant
            marks_in == old(marks)@,
            good(cx, crate_mod, marks@, stack@, Set::empty()),
            grows(marks_in, marks@),
        decreases unmarked(marks@), stack@.len(),
    {
        let ghost m0 = marks@;
        let ghost s0 = stack@;
        let x = match stack.pop() {
            Some(x) => x,
            None => {
                return Ok(());
            },
        };
        let ghost busy = set![x];
        proof {
            assert(s0[s0.len() - 1] == x);
            assert forall|y: NodeId|
                y < marks@.len() && #[trigger] marks@[y as int] && !stack@.contains(y)
                    && !busy.contains(y) implies done(cx, marks@, y) by {
                if s0.contains(y) {
                    let k = choose|k: int| 0 <= k < s0.len() && s0[k] == y;
                    assert(stack@[k] == y);
                }
            }
            assert forall|k: int| 0 <= k < stack@.len() implies #[trigger] stack@[k] < marks@.len()
                && marks@[stack@[k] as int] by {
                assert(stack@[k] == s0[k]);
            }
            assert(marks@[x as int]);
        }
        let es = match edges_of(cx, x) {
            Ok(v) => v,
            Err(f) => {
                assert(reachable(cx, crate_mod, x) && fault_of(cx, x, f));
                return Err(f);
            },
        };
        proof {
            assert forall|j: int|
                0 <= j < es@.len() && #[trigger] es@[j] < marks@.len() implies reachable(
                cx,
                crate_mod,
                es@[j],
            ) by {
                lemma_step(cx, crate_mod, x, j);
            }
        }
        mark_all(cx, Ghost(crate_mod), Ghost(busy), &es, marks, stack);
        proof {
            assert(done(cx, marks@, x));
            assert forall|y: NodeId|
                y < marks@.len() && #[trigger] marks@[y as int] && !stack@.contains(y)
                    && !Set::<NodeId>::empty().contains(y) implies done(cx, marks@, y) by {
                if y != x {
                    assert(!busy.contains(y));
                }
            }
        }
    }
    Ok(())
}

/// The implementations and record types with a destructor, in order of
/// identifier.
fn retained_items(cx: &Ctxt) -> (r: Vec<NodeId>)
    ensures
        forall|j: int| 0 <= j < r@.len() ==> #[trigger] r@[j] < cx.nodes@.len() && retained(cx, r@[j]),
        forall|y: NodeId| #[trigger] retained(cx, y) ==> r@.contains(y),
{
    let mut r: Vec<NodeId> = Vec::new();
    let mut i: usize = 0;
    while i < cx.nodes.len()
        invariant
            i <= cx.nodes@.len(),
            forall|j: int| 0 <= j < r@.len() ==> #[trigger] r@[j] < cx.nodes@.len() && retained(cx, r@[j]),
            forall|y: NodeId| y < i && #[trigger] retained(cx, y) ==> r@.contains(y),
        decreases cx.nodes@.len() - i,
    {
        let keep = match &cx.nodes[i] {
            Node::Item(ItemKind::Impl { .. }) => true,
            Node::Item(ItemKind::Class { dtor, .. }) => dtor.is_some(),
            _ => false,
        };
        let ghost r0 = r@;
        if keep {
            r.push(i);
            assert(r@[r@.len() - 1] == i);
        }
        assert forall|y: NodeId| y < i + 1 && #[trigger] retained(cx, y) implies r@.contains(y) by {
            if y < i {
                let k = choose|k: int| 0 <= k < r0.len() && r0[k] == y;
                assert(r@[k] == y);
            }
        }
        i = i + 1;
    }
    r
}

/// Conservative Retention Pass: marks every implementation and every record
/// type with a destructor, whatever refers to it, and handles what they
/// make reachable.
fn traverse_all_resources_and_impls(
    cx: &Ctxt,
    Ghost(crate_mod): Ghost<Seq<NodeId>>,
    marks: &mut Vec<bool>,
    stack: &mut Vec<NodeId>,
) -> (r: Result<(), Fault>)
    requires
        good(cx, crate_mod, old(marks)@, old(stack)@, Set::empty()),
    ensures
        grows(old(marks)@, final(marks)@),
        r is Ok ==> good(cx, crate_mod, final(marks)@, final(stack)@, Set::empty())
            && final(stack)@.len() == 0,
        r is Ok ==> forall|y: NodeId| #[trigger] retained(cx, y) ==> final(marks)@[y as int],
        r matches Err(f) ==> exists|x: NodeId| reachable(cx, crate_mod, x) && fault_of(cx, x, f),
{
    let ids = retained_items(cx);
    proof {
        assert forall|j: int|
            0 <= j < ids@.len() && #[trigger] ids@[j] < marks@.len() implies reachable(
            cx,
            crate_mod,
            ids@[j],
        ) by {
            lemma_root(cx, crate_mod, ids@[j]);
        }
    }
    mark_all(cx, Ghost(crate_mod), Ghost(Set::empty()), &ids, marks, stack);
    let ghost m1 = marks@;
    let r = close(cx, Ghost(crate_mod), marks, stack);
    proof {
        assert forall|y: NodeId| #[trigger] retained(cx, y) implies m1[y as int] by {
            let k = choose|k: int| 0 <= k < ids@.len() && ids@[k] == y;
            assert(ids@[k] < m1.len());
        }
    }
    r
}

/// Once the stack is empty, every node on a chain from a root is marked.
proof fn lemma_chain_marked(
    cx: &Ctxt,
    crate_mod: Seq<NodeId>,
    marks: Seq<bool>,
    p: Seq<NodeId>,
    i: int,
)
    requires
        good(cx, crate_mod, marks, Seq::empty(), Set::empty()),
        forall|y: NodeId| y < marks.len() && #[trigger] is_root(cx, crate_mod, y) ==> marks[y as int],
        is_chain(cx, crate_mod, p),
        0 <= i < p.len(),
    ensures
        marks[p[i] as int],
    decreases i,
{
    assert(p[i] < cx.nodes@.len());
    if i == 0 {
        assert(is_root(cx, crate_mod, p[0]));
    } else {
        lemma_chain_marked(cx, crate_mod, marks, p, i - 1);
        let x = p[i - 1];
        assert(p[i - 1] < cx.nodes@.len());
        assert(!Seq::<NodeId>::empty().contains(x));
        assert(done(cx, marks, x));
        assert(edges(cx, x).contains(p[i]));
        let k = choose|k: int| 0 <= k < edges(cx, x).len() && edges(cx, x)[k] == p[i];
        assert(edges(cx, x)[k] < marks.len());
    }
}

/// A fault describes a faulty node.
pub(crate) proof fn lemma_fault_is_faulty(cx: &Ctxt, x: NodeId, f: Fault)
    requires
        fault_of(cx, x, f),
    ensures
        faulty(cx, x),
{
    if let Some(Node::Item(k)) = cx.node(x) {
        if let Fault::UnboundPath(e) = f {
            match k {
                ItemKind::Fn { tps, inline, body } => {
                    let i = choose|i: int|
                        0 <= i < body@.len() && #[trigger] body@[i] == BodyNode::Path(e) && unbound(
                            cx,
                            body@[i],
                        );
                    assert(!body_bound(cx, body@));
                },
                ItemKind::Impl { tps, methods } => {
                    let ms = methods.unwrap();
                    let j = choose|j: int|
                        0 <= j < ms@.len() && impl_walks(tps, #[trigger] ms@[j]) && has_unbound(
                            cx,
                            ms@[j].body@,
                            e,
                        );
                    let b = ms@[j].body@;
                    let i = choose|i: int|
                        0 <= i < b.len() && #[trigger] b[i] == BodyNode::Path(e) && unbound(cx, b[i]);
                    assert(!body_bound(cx, b));
                },
                ItemKind::Class { tps, dtor, methods } => {
                    if dtor is Some && (tps > 0 || dtor.unwrap().inline) && has_unbound(
                        cx,
                        dtor.unwrap().body@,
                        e,
                    ) {
                        let b = dtor.unwrap().body@;
                        let i = choose|i: int|
                            0 <= i < b.len() && #[trigger] b[i] == BodyNode::Path(e) && unbound(
                                cx,
                                b[i],
                            );
                        assert(!body_bound(cx, b));
                    } else {
                        let j = choose|j: int|
                            0 <= j < methods@.len() && (tps > 0 || (#[trigger] methods@[j]).inline)
                                && has_unbound(cx, methods@[j].body@, e);
                        let b = methods@[j].body@;
                        let i = choose|i: int|
                            0 <= i < b.len() && #[trigger] b[i] == BodyNode::Path(e) && unbound(
                                cx,
                                b[i],
                            );
                        assert(!body_bound(cx, b));
                    }
                },
                _ => {},
            }
        }
    }
}

/// The result of the pass, with the set seen through its view.
pub open spec fn outcome_view(r: Result<ReachableSet, Fault>) -> Result<Set<NodeId>, Fault> {
    match r {
        Ok(s) => Ok(s@),
        Err(f) => Err(f),
    }
}

/// Computes the reachability set of the crate whose top-level module holds
/// `crate_mod`: the nodes reachable from what that module exports (every
/// item in it when it has no export entry) and from every implementation
/// and record type with a destructor. Fails when a reachable node shows
/// that an upstream phase left the tree inconsistent.
pub fn find_reachable(crate_mod: &Vec<NodeId>, cx: &Ctxt) -> (r: Result<ReachableSet, Fault>)
    ensures
        pass_outcome(cx, crate_mod@, outcome_view(r)),
        r is Ok <==> consistent(cx, crate_mod@),
{
    let ghost cm = crate_mod@;
    let n = cx.nodes.len();
    let mut marks: Vec<bool> = Vec::new();
    while marks.len() < n
        invariant
            marks@.len() <= n,
            n == cx.nodes@.len(),
            forall|i: int| 0 <= i < marks@.len() ==> !marks@[i],
        decreases n - marks@.len(),
    {
        marks.push(false);
    }
    let mut stack: Vec<NodeId> = Vec::new();
    let mut roots: Vec<NodeId> = Vec::new();
    traverse_public_mod(cx, CRATE_NODE_ID, crate_mod, &mut roots);
    proof {
        assert(roots@ =~= mod_edges(cx, CRATE_NODE_ID, cm));
        assert forall|j: int|
            0 <= j < roots@.len() && #[trigger] roots@[j] < marks@.len() implies reachable(
            cx,
            cm,
            roots@[j],
        ) by {
            assert(mod_edges(cx, CRATE_NODE_ID, cm).contains(roots@[j]));
            lemma_root(cx, cm, roots@[j]);
        }
    }
    mark_all(cx, Ghost(cm), Ghost(Set::empty()), &roots, &mut marks, &mut stack);
    let ghost m1 = marks@;
    let first = close(cx, Ghost(cm), &mut marks, &mut stack);
    if let Err(f) = first {
        proof {
            let x = choose|x: NodeId| reachable(cx, cm, x) && fault_of(cx, x, f);
            lemma_fault_is_faulty(cx, x, f);
        }
        return Err(f);
    }
    let second = traverse_all_resources_and_impls(cx, Ghost(cm), &mut marks, &mut stack);
    if let Err(f) = second {
        proof {
            let x = choose|x: NodeId| reachable(cx, cm, x) && fault_of(cx, x, f);
            lemma_fault_is_faulty(cx, x, f);
        }
        return Err(f);
    }
    proof {
        assert forall|y: NodeId| y < marks@.len() && #[trigger] is_root(cx, cm, y) implies marks@[
            y as int] by {
            if !retained(cx, y) {
                let k = choose|k: int| 0 <= k < roots@.len() && roots@[k] == y;
                assert(m1[roots@[k] as int]);
            }
        }
        assert(stack@ =~= Seq::<NodeId>::empty());
        assert forall|y: NodeId| #[trigger] reachable(cx, cm, y) implies y < marks@.len()
            && marks@[y as int] by {
            let p = choose|p: Seq<NodeId>| #[trigger] is_chain(cx, cm, p) && p.last() == y;
            lemma_chain_marked(cx, cm, marks@, p, p.len() - 1);
        }
    }
    let mut out = ReachableSet::new();
    let mut i: usize = 0;
    while i < n
        invariant
            i <= n,
            n == marks@.len(),
            out@ == Set::new(|y: NodeId| y < i && marks@[y as int]),
        decreases n - i,
    {
        if marks[i] {
            out.insert(i);
        }
        i = i + 1;
        assert(out@ =~= Set::new(|y: NodeId| y < i && marks@[y as int]));
    }
    proof {
        assert(out@ =~= reachable_set(cx, cm));
        assert forall|y: NodeId| reachable(cx, cm, y) implies !faulty(cx, y) by {
            assert(marks@[y as int]);
            assert(!stack@.contains(y));
            assert(done(cx, marks@, y));
        }
    }
    Ok(out)
}

} // verus!
