//! The mounted tree: nodes under numeric ids, each with the ids of its children,
//! and the laws that keep it a forest.
use vstd::prelude::*;
use crate::calls::{calls_within, Call};
use crate::dom::{Primitive, PrimitiveId};
use crate::element::{Element, ElementInner};

verus! {

/// What a mounted node is: a primitive on the `Dom`, or a component with its state.
pub enum MountedInner<S> {
    Primitive(PrimitiveId),
    Component(S),
}

/// A mounted node and the ids of its children, in order.
pub struct Mounted<S> {
    pub inner: MountedInner<S>,
    pub children: Vec<u64>,
}

/// Node `id` of `t` is mounted from element `e`, below `parent`, as the calls
/// `d` show it: a primitive element gives a primitive node that `d` mounted
/// with that primitive below `parent`, or diffed to that primitive; `d`
/// announced its list of children and the parent the `Dom` gave for them, and
/// the node has one child per element below it, each mounted from that
/// element below that parent, in order. A component element gives a component
/// node.
pub open spec fn mirrors<S, T>(
    t: Map<u64, Mounted<S>>,
    d: Seq<Call>,
    id: u64,
    e: Element<T>,
    parent: Option<PrimitiveId>,
) -> bool
    decreases e,
{
    t.contains_key(id) && match e.0 {
        ElementInner::Component(_) => t[id].inner is Component,
        ElementInner::Primitive(p, c) => match t[id].inner {
            MountedInner::Primitive(pid) => {
                &&& (d.contains(Call::Mount(pid, p, parent)) || d.contains(Call::Diff(pid, p)))
                &&& t[id].children@.len() == c@.len()
                &&& exists|q: PrimitiveId|
                    #[trigger] d.contains(Call::SubList(pid, q)) && forall|i: int|
                        0 <= i < c@.len() ==> mirrors(t, d, t[id].children@[i], #[trigger] c@[i], Some(q))
            },
            MountedInner::Component(_) => false,
        },
    }
}

/// The nodes `kids` of `t` are as many as the elements `out`, and each is
/// mounted from the element in its place, below `parent`, as the calls `d`
/// show it.
pub open spec fn mirrors_list<S, T>(
    t: Map<u64, Mounted<S>>,
    d: Seq<Call>,
    kids: Seq<u64>,
    out: Seq<Element<T>>,
    parent: Option<PrimitiveId>,
) -> bool {
    &&& kids.len() == out.len()
    &&& forall|k: int| 0 <= k < out.len() ==> mirrors(t, d, kids[k], #[trigger] out[k], parent)
}

/// What a node is mounted from stays so while the tree only grows and the
/// calls only grow.
pub proof fn lemma_mirrors_grow<S, T>(
    t: Map<u64, Mounted<S>>,
    t2: Map<u64, Mounted<S>>,
    d: Seq<Call>,
    d2: Seq<Call>,
    id: u64,
    e: Element<T>,
    parent: Option<PrimitiveId>,
)
    requires
        mirrors(t, d, id, e, parent),
        t.submap_of(t2),
        calls_within(d, d2),
    ensures
        mirrors(t2, d2, id, e, parent),
    decreases e,
{
    assert(t2.contains_key(id));
    assert(t2[id] == t[id]);
    if let ElementInner::Primitive(p, c) = e.0 {
        if let MountedInner::Primitive(pid) = t[id].inner {
            if d.contains(Call::Mount(pid, p, parent)) {
                assert(d2.contains(Call::Mount(pid, p, parent)));
            } else {
                assert(d2.contains(Call::Diff(pid, p)));
            }
            let q = choose|q: PrimitiveId|
                #[trigger] d.contains(Call::SubList(pid, q)) && forall|i: int|
                    0 <= i < c@.len() ==> mirrors(t, d, t[id].children@[i], #[trigger] c@[i], Some(q));
            assert(d2.contains(Call::SubList(pid, q)));
            assert forall|i: int| 0 <= i < c@.len() implies mirrors(t2, d2, t2[id].children@[i], #[trigger] c@[i], Some(q)) by {
                assert(mirrors(t, d, t[id].children@[i], c@[i], Some(q)));
                lemma_mirrors_grow(t, t2, d, d2, t[id].children@[i], c@[i], Some(q));
            }
        }
    }
}

/// What a node is mounted from stays so when the calls only grow and the only
/// nodes that change hang below a node `r` that no node holds as a child, and
/// the node is not among them.
pub proof fn lemma_mirrors_keep<S, T>(
    t: Map<u64, Mounted<S>>,
    t2: Map<u64, Mounted<S>>,
    d: Seq<Call>,
    d2: Seq<Call>,
    pm: Map<u64, u64>,
    counter: u64,
    holes: Set<u64>,
    r: u64,
    changed: Set<u64>,
    x: u64,
    e: Element<T>,
    parent: Option<PrimitiveId>,
)
    requires
        tree_wf(t, pm, counter, holes),
        mirrors(t, d, x, e, parent),
        calls_within(d, d2),
        hangs_below(t, pm, set![r], changed),
        !attached(t, pm, r),
        !changed.contains(x),
        forall|n: u64|
            #[trigger] t.contains_key(n) && !changed.contains(n) ==> t2.contains_key(n) && t2[n] == t[n],
    ensures
        mirrors(t2, d2, x, e, parent),
    decreases e,
{
    assert(t2.contains_key(x) && t2[x] == t[x]);
    if let ElementInner::Primitive(p, c) = e.0 {
        if let MountedInner::Primitive(pid) = t[x].inner {
            if d.contains(Call::Mount(pid, p, parent)) {
                assert(d2.contains(Call::Mount(pid, p, parent)));
            } else {
                assert(d2.contains(Call::Diff(pid, p)));
            }
            let q = choose|q: PrimitiveId|
                #[trigger] d.contains(Call::SubList(pid, q)) && forall|i: int|
                    0 <= i < c@.len() ==> mirrors(t, d, t[x].children@[i], #[trigger] c@[i], Some(q));
            assert(d2.contains(Call::SubList(pid, q)));
            assert forall|i: int| 0 <= i < c@.len() implies mirrors(t2, d2, t2[x].children@[i], #[trigger] c@[i], Some(q)) by {
                let y = t[x].children@[i];
                assert(mirrors(t, d, y, c@[i], Some(q)));
                lemma_child_edge(t, pm, counter, holes, x, i);
                assert(!changed.contains(y)) by {
                    if changed.contains(y) {
                        if y == r {
                            assert(attached(t, pm, r));
                        } else {
                            assert(changed.contains(pm[y]));
                        }
                    }
                }
                lemma_mirrors_keep(t, t2, d, d2, pm, counter, holes, r, changed, y, c@[i], Some(q));
            }
        }
    }
}

/// Node `id` of `t` and everything below it sit on the `Dom` as the calls `d`
/// show it: a primitive node was mounted by `d` below `parent`, `d` announced
/// its list of children with the parent the `Dom` gave for them, and its
/// children sit below that parent; a component node makes nothing on the
/// `Dom`, and its children sit below `parent` in its place. Children carry
/// larger ids than their node.
pub open spec fn placed<S>(t: Map<u64, Mounted<S>>, d: Seq<Call>, id: u64, parent: Option<PrimitiveId>) -> bool
    decreases u64::MAX - id,
{
    t.contains_key(id) && match t[id].inner {
        MountedInner::Primitive(pid) => {
            &&& exists|p: Primitive| #[trigger] d.contains(Call::Mount(pid, p, parent))
            &&& exists|q: PrimitiveId|
                #[trigger] d.contains(Call::SubList(pid, q)) && forall|i: int|
                    0 <= i < t[id].children@.len() ==> id < #[trigger] t[id].children@[i] && placed(
                        t,
                        d,
                        t[id].children@[i],
                        Some(q),
                    )
        },
        MountedInner::Component(_) => forall|i: int|
            0 <= i < t[id].children@.len() ==> id < #[trigger] t[id].children@[i] && placed(
                t,
                d,
                t[id].children@[i],
                parent,
            ),
    }
}

/// Where a node sits stays so while the tree only grows and the calls only grow.
pub proof fn lemma_placed_grow<S>(
    t: Map<u64, Mounted<S>>,
    t2: Map<u64, Mounted<S>>,
    d: Seq<Call>,
    d2: Seq<Call>,
    id: u64,
    parent: Option<PrimitiveId>,
)
    requires
        placed(t, d, id, parent),
        t.submap_of(t2),
        calls_within(d, d2),
    ensures
        placed(t2, d2, id, parent),
    decreases u64::MAX - id,
{
    assert(t2.contains_key(id));
    assert(t2[id] == t[id]);
    match t[id].inner {
        MountedInner::Primitive(pid) => {
            let p = choose|p: Primitive| #[trigger] d.contains(Call::Mount(pid, p, parent));
            assert(d2.contains(Call::Mount(pid, p, parent)));
            let q = choose|q: PrimitiveId|
                #[trigger] d.contains(Call::SubList(pid, q)) && forall|i: int|
                    0 <= i < t[id].children@.len() ==> id < #[trigger] t[id].children@[i] && placed(
                        t,
                        d,
                        t[id].children@[i],
                        Some(q),
                    );
            assert(d2.contains(Call::SubList(pid, q)));
            assert forall|i: int| 0 <= i < t2[id].children@.len() implies id < #[trigger] t2[id].children@[i]
                && placed(t2, d2, t2[id].children@[i], Some(q)) by {
                assert(id < t[id].children@[i] && placed(t, d, t[id].children@[i], Some(q)));
                lemma_placed_grow(t, t2, d, d2, t[id].children@[i], Some(q));
            }
        },
        MountedInner::Component(_) => {
            assert forall|i: int| 0 <= i < t2[id].children@.len() implies id < #[trigger] t2[id].children@[i]
                && placed(t2, d2, t2[id].children@[i], parent) by {
                assert(id < t[id].children@[i] && placed(t, d, t[id].children@[i], parent));
                lemma_placed_grow(t, t2, d, d2, t[id].children@[i], parent);
            }
        },
    }
}

/// `c` hangs below a node that is in the tree: `pm` records the parent of every
/// node that was ever placed in a list of children.
pub open spec fn attached<S>(t: Map<u64, Mounted<S>>, pm: Map<u64, u64>, c: u64) -> bool {
    pm.contains_key(c) && t.contains_key(pm[c])
}

/// The edge from `p` to its child `c` is sound: `c` is mounted (or is a node taken
/// out for the moment, a hole), comes after its parent, and records it.
pub open spec fn edge_ok<S>(
    t: Map<u64, Mounted<S>>,
    pm: Map<u64, u64>,
    holes: Set<u64>,
    p: u64,
    c: u64,
) -> bool {
    &&& t.contains_key(c) || holes.contains(c)
    &&& p < c
    &&& pm.contains_key(c)
    &&& pm[c] == p
}

/// The mounted tree is a forest whose ids were all handed out below `counter`.
///
/// Every node has at most one parent (the one `pm` records), every child comes
/// after its parent, so there is no cycle, and no list holds an id twice.
#[verifier::opaque]
pub open spec fn tree_wf<S>(
    t: Map<u64, Mounted<S>>,
    pm: Map<u64, u64>,
    counter: u64,
    holes: Set<u64>,
) -> bool {
    &&& forall|p: u64| #[trigger] t.contains_key(p) ==> p < counter
    &&& forall|k: u64| #[trigger] pm.contains_key(k) ==> k < counter && pm[k] < k
    &&& forall|p: u64, i: int|
        #![trigger t[p].children@[i]]
        t.contains_key(p) && 0 <= i < t[p].children@.len() ==> edge_ok(
            t,
            pm,
            holes,
            p,
            t[p].children@[i],
        )
    &&& forall|p: u64, i: int, j: int|
        #![trigger t[p].children@[i], t[p].children@[j]]
        t.contains_key(p) && 0 <= i < j < t[p].children@.len() ==> t[p].children@[i]
            != t[p].children@[j]
    &&& forall|c: u64|
        #[trigger] t.contains_key(c) && attached(t, pm, c) ==> t[pm[c]].children@.contains(c)
    &&& forall|h: u64| #[trigger] holes.contains(h) ==> !t.contains_key(h) && h < counter
}

/// `l` may become the list of children of the absent node `owner`: its ids are
/// mounted, come after `owner`, record it as their parent, and are distinct.
pub open spec fn list_ok<S>(t: Map<u64, Mounted<S>>, pm: Map<u64, u64>, owner: u64, l: Seq<u64>) -> bool {
    &&& forall|i: int|
        #![trigger l[i]]
        0 <= i < l.len() ==> t.contains_key(l[i]) && owner < l[i] && pm.contains_key(l[i])
            && pm[l[i]] == owner
    &&& forall|i: int, j: int| #![trigger l[i], l[j]] 0 <= i < j < l.len() ==> l[i] != l[j]
}

/// Every mounted node that records `owner` as its parent is in `l`.
pub open spec fn list_complete<S>(
    t: Map<u64, Mounted<S>>,
    pm: Map<u64, u64>,
    owner: u64,
    l: Seq<u64>,
) -> bool {
    forall|c: u64| #[trigger] t.contains_key(c) && pm.contains_key(c) && pm[c] == owner ==> l.contains(c)
}

/// `s` is exactly the set of nodes reachable from `roots`: it holds the roots,
/// is closed under children, and every other node in it hangs below a node in it.
pub open spec fn region<S>(
    t: Map<u64, Mounted<S>>,
    pm: Map<u64, u64>,
    roots: Set<u64>,
    s: Set<u64>,
) -> bool {
    &&& roots.subset_of(s)
    &&& forall|x: u64| #[trigger] s.contains(x) ==> t.contains_key(x)
    &&& forall|x: u64, i: int|
        #![trigger s.contains(x), t[x].children@[i]]
        s.contains(x) && 0 <= i < t[x].children@.len() ==> s.contains(t[x].children@[i])
    &&& forall|x: u64|
        #[trigger] s.contains(x) && !roots.contains(x) ==> pm.contains_key(x) && s.contains(pm[x])
}

proof fn lemma_region_included<S>(
    t: Map<u64, Mounted<S>>,
    pm: Map<u64, u64>,
    counter: u64,
    holes: Set<u64>,
    roots: Set<u64>,
    s1: Set<u64>,
    s2: Set<u64>,
    x: u64,
)
    requires
        tree_wf(t, pm, counter, holes),
        region(t, pm, roots, s1),
        region(t, pm, roots, s2),
        s1.contains(x),
    ensures
        s2.contains(x),
    decreases x,
{
    reveal(tree_wf);
    if !roots.contains(x) {
        let p = pm[x];
        assert(t.contains_key(x) && attached(t, pm, x));
        assert(t[p].children@.contains(x));
        let i = choose|i: int| 0 <= i < t[p].children@.len() && t[p].children@[i] == x;
        assert(edge_ok(t, pm, holes, p, t[p].children@[i]));
        lemma_region_included(t, pm, counter, holes, roots, s1, s2, p);
        assert(s2.contains(t[p].children@[i]));
    }
}

/// A forest has one region below given roots: the nodes reachable from them.
pub proof fn lemma_region_unique<S>(
    t: Map<u64, Mounted<S>>,
    pm: Map<u64, u64>,
    counter: u64,
    holes: Set<u64>,
    roots: Set<u64>,
    s1: Set<u64>,
    s2: Set<u64>,
)
    requires
        tree_wf(t, pm, counter, holes),
        region(t, pm, roots, s1),
        region(t, pm, roots, s2),
    ensures
        s1 == s2,
{
    reveal(tree_wf);
    assert forall|x: u64| s1.contains(x) implies s2.contains(x) by {
        lemma_region_included(t, pm, counter, holes, roots, s1, s2, x);
    }
    assert forall|x: u64| s2.contains(x) implies s1.contains(x) by {
        lemma_region_included(t, pm, counter, holes, roots, s2, s1, x);
    }
    assert(s1 =~= s2);
}

/// Taking out a node that hangs below nothing keeps the forest sound.
pub proof fn lemma_remove_detached<S>(
    t: Map<u64, Mounted<S>>,
    pm: Map<u64, u64>,
    counter: u64,
    holes: Set<u64>,
    x: u64,
)
    requires
        tree_wf(t, pm, counter, holes),
        t.contains_key(x),
        !attached(t, pm, x),
    ensures
        tree_wf(t.remove(x), pm, counter, holes),
{
    reveal(tree_wf);
    let t2 = t.remove(x);
    assert forall|p: u64, i: int|
        #![trigger t2[p].children@[i]]
        t2.contains_key(p) && 0 <= i < t2[p].children@.len() implies edge_ok(
        t2,
        pm,
        holes,
        p,
        t2[p].children@[i],
    ) by {
        assert(edge_ok(t, pm, holes, p, t[p].children@[i]));
    }
    assert forall|c: u64|
        #[trigger] t2.contains_key(c) && attached(t2, pm, c) implies t2[pm[c]].children@.contains(
        c,
    ) by {
        assert(t.contains_key(c) && attached(t, pm, c));
    }
}

/// Taking out a node that hangs below another one leaves a hole in its parent's list.
pub proof fn lemma_remove_as_hole<S>(
    t: Map<u64, Mounted<S>>,
    pm: Map<u64, u64>,
    counter: u64,
    holes: Set<u64>,
    x: u64,
)
    requires
        tree_wf(t, pm, counter, holes),
        t.contains_key(x),
    ensures
        tree_wf(t.remove(x), pm, counter, holes.insert(x)),
{
    reveal(tree_wf);
    let t2 = t.remove(x);
    let h2 = holes.insert(x);
    assert forall|p: u64, i: int|
        #![trigger t2[p].children@[i]]
        t2.contains_key(p) && 0 <= i < t2[p].children@.len() implies edge_ok(
        t2,
        pm,
        h2,
        p,
        t2[p].children@[i],
    ) by {
        assert(edge_ok(t, pm, holes, p, t[p].children@[i]));
    }
    assert forall|c: u64|
        #[trigger] t2.contains_key(c) && attached(t2, pm, c) implies t2[pm[c]].children@.contains(
        c,
    ) by {
        assert(t.contains_key(c) && attached(t, pm, c));
    }
}

/// Putting a node back (or in for the first time) with a sound list of children.
pub proof fn lemma_insert_node<S>(
    t: Map<u64, Mounted<S>>,
    pm: Map<u64, u64>,
    counter: u64,
    holes: Set<u64>,
    p: u64,
    node: Mounted<S>,
)
    requires
        tree_wf(t, pm, counter, holes),
        !t.contains_key(p),
        p < counter,
        list_ok(t, pm, p, node.children@),
        list_complete(t, pm, p, node.children@),
        attached(t, pm, p) ==> t[pm[p]].children@.contains(p),
    ensures
        tree_wf(t.insert(p, node), pm, counter, holes.remove(p)),
{
    reveal(tree_wf);
    let t2 = t.insert(p, node);
    let h2 = holes.remove(p);
    assert forall|q: u64, i: int|
        #![trigger t2[q].children@[i]]
        t2.contains_key(q) && 0 <= i < t2[q].children@.len() implies edge_ok(
        t2,
        pm,
        h2,
        q,
        t2[q].children@[i],
    ) by {
        if q != p {
            assert(edge_ok(t, pm, holes, q, t[q].children@[i]));
        } else {
            assert(node.children@[i] == t2[q].children@[i]);
        }
    }
    assert forall|q: u64, i: int, j: int|
        #![trigger t2[q].children@[i], t2[q].children@[j]]
        t2.contains_key(q) && 0 <= i < j < t2[q].children@.len() implies t2[q].children@[i]
        != t2[q].children@[j] by {
        if q == p {
            assert(node.children@[i] != node.children@[j]);
        }
    }
    assert forall|c: u64|
        #[trigger] t2.contains_key(c) && attached(t2, pm, c) implies t2[pm[c]].children@.contains(
        c,
    ) by {
        if c == p {
            assert(pm[p] < p);
        } else if pm[c] == p {
            assert(t.contains_key(c));
        } else {
            assert(t.contains_key(c) && attached(t, pm, c));
        }
    }
}

/// Recording `owner` as the parent of a node that hangs below nothing, while
/// `owner` is out of the tree.
pub proof fn lemma_set_parent<S>(
    t: Map<u64, Mounted<S>>,
    pm: Map<u64, u64>,
    counter: u64,
    holes: Set<u64>,
    c: u64,
    owner: u64,
)
    requires
        tree_wf(t, pm, counter, holes),
        t.contains_key(c),
        !attached(t, pm, c),
        !t.contains_key(owner),
        owner < c,
    ensures
        tree_wf(t, pm.insert(c, owner), counter, holes),
{
    reveal(tree_wf);
    let pm2 = pm.insert(c, owner);
    assert forall|q: u64, i: int|
        #![trigger t[q].children@[i]]
        t.contains_key(q) && 0 <= i < t[q].children@.len() implies edge_ok(
        t,
        pm2,
        holes,
        q,
        t[q].children@[i],
    ) by {
        assert(edge_ok(t, pm, holes, q, t[q].children@[i]));
    }
    assert forall|d: u64| #[trigger] t.contains_key(d) && attached(t, pm2, d) implies t[pm2[d]].children@.contains(d) by {
        assert(attached(t, pm, d));
    }
}

/// Removing a set of keys that holds a key of the map makes the map smaller.
pub proof fn lemma_remove_keys_smaller<V>(m: Map<u64, V>, keys: Set<u64>, k: u64)
    requires
        m.dom().finite(),
        m.contains_key(k),
        keys.contains(k),
    ensures
        m.remove_keys(keys).len() < m.len(),
{
    let sub = m.remove_keys(keys).dom();
    assert(sub.subset_of(m.dom().remove(k)));
    vstd::set_lib::lemma_len_subset(sub, m.dom().remove(k));
}

/// Every node of a region comes at or after the smallest of its roots.
pub proof fn lemma_region_above<S>(
    t: Map<u64, Mounted<S>>,
    pm: Map<u64, u64>,
    counter: u64,
    holes: Set<u64>,
    roots: Set<u64>,
    s: Set<u64>,
    bound: u64,
    x: u64,
)
    requires
        tree_wf(t, pm, counter, holes),
        region(t, pm, roots, s),
        forall|r: u64| #[trigger] roots.contains(r) ==> bound <= r,
        s.contains(x),
    ensures
        bound <= x,
    decreases x,
{
    reveal(tree_wf);
    if !roots.contains(x) {
        let p = pm[x];
        assert(t.contains_key(x) && attached(t, pm, x));
        assert(t[p].children@.contains(x));
        let i = choose|i: int| 0 <= i < t[p].children@.len() && t[p].children@[i] == x;
        assert(edge_ok(t, pm, holes, p, t[p].children@[i]));
        lemma_region_above(t, pm, counter, holes, roots, s, bound, p);
    }
}

/// The set of a list grown by one element.
pub proof fn lemma_push_to_set<A>(s: Seq<A>, x: A)
    ensures
        s.push(x).to_set() == s.to_set().insert(x),
{
    assert forall|a: A| s.push(x).to_set().contains(a) == s.to_set().insert(x).contains(a) by {
        if s.push(x).contains(a) && a != x {
            let i = choose|i: int| 0 <= i < s.push(x).len() && s.push(x)[i] == a;
            assert(s[i] == a);
        }
        if s.contains(a) {
            let i = choose|i: int| 0 <= i < s.len() && s[i] == a;
            assert(s.push(x)[i] == a);
        }
        if a == x {
            assert(s.push(x)[s.len() as int] == a);
        }
    }
    assert(s.push(x).to_set() =~= s.to_set().insert(x));
}

/// The children of a node whose children come after every hole: the list of
/// an absent owner, sound and complete.
pub proof fn lemma_children_listed<S>(
    t: Map<u64, Mounted<S>>,
    pm: Map<u64, u64>,
    counter: u64,
    holes: Set<u64>,
    x: u64,
)
    requires
        tree_wf(t, pm, counter, holes),
        t.contains_key(x),
        forall|h: u64| #[trigger] holes.contains(h) ==> h < x,
    ensures
        list_ok(t.remove(x), pm, x, t[x].children@),
        list_complete(t.remove(x), pm, x, t[x].children@),
{
    reveal(tree_wf);
    let l = t[x].children@;
    assert forall|i: int| 0 <= i < l.len() implies t.remove(x).contains_key(l[i]) && x < l[i]
        && pm.contains_key(l[i]) && pm[l[i]] == x by {
        assert(edge_ok(t, pm, holes, x, t[x].children@[i]));
    }
    assert forall|c: u64| #[trigger] t.remove(x).contains_key(c) && pm.contains_key(c) && pm[c] == x implies l.contains(c) by {
        assert(t.contains_key(c) && attached(t, pm, c));
    }
}

/// Every node of `s` is mounted and, unless it is one of `roots`, hangs below
/// another node of `s`: following recorded parents from any node of `s` leads
/// to one of `roots`.
pub open spec fn hangs_below<S>(
    t: Map<u64, Mounted<S>>,
    pm: Map<u64, u64>,
    roots: Set<u64>,
    s: Set<u64>,
) -> bool {
    &&& forall|x: u64| #[trigger] s.contains(x) ==> t.contains_key(x)
    &&& forall|x: u64|
        #[trigger] s.contains(x) && !roots.contains(x) ==> pm.contains_key(x) && s.contains(pm[x])
}

/// Two sets that hang below different roots, neither holding a root of the
/// other, have no node in common.
pub proof fn lemma_hangs_disjoint<S>(
    t: Map<u64, Mounted<S>>,
    pm: Map<u64, u64>,
    counter: u64,
    holes: Set<u64>,
    r1: Set<u64>,
    s1: Set<u64>,
    r2: Set<u64>,
    s2: Set<u64>,
    x: u64,
)
    requires
        tree_wf(t, pm, counter, holes),
        hangs_below(t, pm, r1, s1),
        hangs_below(t, pm, r2, s2),
        forall|y: u64| #[trigger] r1.contains(y) ==> !s2.contains(y),
        forall|y: u64| #[trigger] r2.contains(y) ==> !s1.contains(y),
    ensures
        !(s1.contains(x) && s2.contains(x)),
    decreases x,
{
    reveal(tree_wf);
    if s1.contains(x) && s2.contains(x) {
        assert(pm.contains_key(x) && pm[x] < x);
        lemma_hangs_disjoint(t, pm, counter, holes, r1, s1, r2, s2, pm[x]);
    }
}

/// Every node of a set that hangs below roots comes at or after the smallest root.
pub proof fn lemma_hangs_above<S>(
    t: Map<u64, Mounted<S>>,
    pm: Map<u64, u64>,
    counter: u64,
    holes: Set<u64>,
    roots: Set<u64>,
    s: Set<u64>,
    bound: u64,
    x: u64,
)
    requires
        tree_wf(t, pm, counter, holes),
        hangs_below(t, pm, roots, s),
        forall|r: u64| #[trigger] roots.contains(r) ==> bound <= r,
        s.contains(x),
    ensures
        bound <= x,
    decreases x,
{
    reveal(tree_wf);
    if !roots.contains(x) {
        assert(pm.contains_key(x) && pm[x] < x);
        lemma_hangs_above(t, pm, counter, holes, roots, s, bound, pm[x]);
    }
}

/// A sound forest stays sound when more ids count as handed out.
pub proof fn lemma_wf_raise<S>(
    t: Map<u64, Mounted<S>>,
    pm: Map<u64, u64>,
    counter: u64,
    counter2: u64,
    holes: Set<u64>,
)
    requires
        tree_wf(t, pm, counter, holes),
        counter <= counter2,
    ensures
        tree_wf(t, pm, counter2, holes),
{
    reveal(tree_wf);
}

/// The empty forest is sound.
pub proof fn lemma_empty_wf<S>()
    ensures
        tree_wf(Map::<u64, Mounted<S>>::empty(), Map::<u64, u64>::empty(), 0, Set::<u64>::empty()),
{
    reveal(tree_wf);
}

/// What the forest promises of the `i`-th child of a mounted node.
pub proof fn lemma_child_edge<S>(
    t: Map<u64, Mounted<S>>,
    pm: Map<u64, u64>,
    counter: u64,
    holes: Set<u64>,
    p: u64,
    i: int,
)
    requires
        tree_wf(t, pm, counter, holes),
        t.contains_key(p),
        0 <= i < t[p].children@.len(),
    ensures
        edge_ok(t, pm, holes, p, t[p].children@[i]),
{
    reveal(tree_wf);
}

/// Changing what nodes hold, but not their children, keeps the forest sound.
pub proof fn lemma_same_shape<S>(
    t: Map<u64, Mounted<S>>,
    t2: Map<u64, Mounted<S>>,
    pm: Map<u64, u64>,
    counter: u64,
    holes: Set<u64>,
)
    requires
        tree_wf(t, pm, counter, holes),
        t2.dom() == t.dom(),
        forall|p: u64| #[trigger] t2.contains_key(p) ==> t2[p].children == t[p].children,
    ensures
        tree_wf(t2, pm, counter, holes),
{
    reveal(tree_wf);
    assert forall|p: u64, i: int|
        #![trigger t2[p].children@[i]]
        t2.contains_key(p) && 0 <= i < t2[p].children@.len() implies edge_ok(t2, pm, holes, p, t2[p].children@[i]) by {
        assert(t2[p].children == t[p].children);
        assert(edge_ok(t, pm, holes, p, t[p].children@[i]));
    }
    assert forall|p: u64, i: int, j: int|
        #![trigger t2[p].children@[i], t2[p].children@[j]]
        t2.contains_key(p) && 0 <= i < j < t2[p].children@.len() implies t2[p].children@[i]
            != t2[p].children@[j] by {
        assert(t2[p].children == t[p].children);
        assert(t[p].children@[i] != t[p].children@[j]);
    }
    assert forall|c: u64| #[trigger] t2.contains_key(c) && attached(t2, pm, c) implies t2[pm[c]].children@.contains(c) by {
        assert(t.contains_key(c) && attached(t, pm, c));
        assert(t2[pm[c]].children == t[pm[c]].children);
    }
}

/// The `k`-th id of `p` is a mounted node with the next id among its children.
pub open spec fn step_at<S>(t: Map<u64, Mounted<S>>, p: Seq<u64>, k: int) -> bool {
    t.contains_key(p[k]) && t[p[k]].children@.contains(p[k + 1])
}

/// `p` walks down the tree: each id in it is a child of the one before.
pub open spec fn is_path<S>(t: Map<u64, Mounted<S>>, p: Seq<u64>) -> bool {
    &&& p.len() >= 1
    &&& forall|k: int| 0 <= k < p.len() - 1 ==> #[trigger] step_at(t, p, k)
}

/// `b` lies strictly below `a`.
pub open spec fn descends<S>(t: Map<u64, Mounted<S>>, a: u64, b: u64) -> bool {
    exists|p: Seq<u64>| #[trigger] is_path(t, p) && p.len() >= 2 && p[0] == a && p.last() == b
}

/// A set closed under children holds everything below its members.
pub proof fn lemma_closed_holds_path<S>(t: Map<u64, Mounted<S>>, f: Set<u64>, p: Seq<u64>)
    requires
        is_path(t, p),
        f.contains(p[0]),
        forall|y: u64, i: int|
            #![trigger f.contains(y), t[y].children@[i]]
            f.contains(y) && t.contains_key(y) && 0 <= i < t[y].children@.len() ==> f.contains(
                t[y].children@[i],
            ),
    ensures
        f.contains(p.last()),
    decreases p.len(),
{
    if p.len() > 1 {
        let q = p.drop_last();
        assert forall|k: int| 0 <= k < q.len() - 1 implies #[trigger] step_at(t, q, k) by {
            assert(step_at(t, p, k));
        }
        lemma_closed_holds_path(t, f, q);
        let k = p.len() - 2;
        assert(step_at(t, p, k));
        let y = p[k];
        assert(q.last() == y);
        let i = choose|i: int| 0 <= i < t[y].children@.len() && t[y].children@[i] == p.last();
        assert(f.contains(t[y].children@[i]));
    }
}

/// A path from `b` down, with `a` above `b` put in front.
pub proof fn lemma_path_prepend<S>(t: Map<u64, Mounted<S>>, a: u64, p: Seq<u64>)
    requires
        is_path(t, p),
        t.contains_key(a),
        t[a].children@.contains(p[0]),
    ensures
        is_path(t, seq![a] + p),
        (seq![a] + p)[0] == a,
        (seq![a] + p).last() == p.last(),
        (seq![a] + p).len() == p.len() + 1,
{
    let q = seq![a] + p;
    assert forall|k: int| 0 <= k < q.len() - 1 implies #[trigger] step_at(t, q, k) by {
        if k == 0 {
            assert(q[1] == p[0]);
        } else {
            assert(step_at(t, p, k - 1));
            assert(q[k] == p[k - 1]);
            assert(q[k + 1] == p[k]);
        }
    }
}

/// Ids grow going down the tree.
pub proof fn lemma_path_increasing<S>(
    t: Map<u64, Mounted<S>>,
    pm: Map<u64, u64>,
    counter: u64,
    holes: Set<u64>,
    p: Seq<u64>,
)
    requires
        tree_wf(t, pm, counter, holes),
        is_path(t, p),
        p.len() >= 2,
    ensures
        p[0] < p.last(),
    decreases p.len(),
{
    let k = p.len() - 2;
    assert(step_at(t, p, k));
    let y = p[k];
    let i = choose|i: int| 0 <= i < t[y].children@.len() && t[y].children@[i] == p[k + 1];
    lemma_child_edge(t, pm, counter, holes, y, i);
    if p.len() > 2 {
        let q = p.drop_last();
        assert forall|j: int| 0 <= j < q.len() - 1 implies #[trigger] step_at(t, q, j) by {
            assert(step_at(t, p, j));
        }
        lemma_path_increasing(t, pm, counter, holes, q);
    }
}

/// A node that hangs below a mounted node is in that node's list of children.
pub proof fn lemma_attached_listed<S>(
    t: Map<u64, Mounted<S>>,
    pm: Map<u64, u64>,
    counter: u64,
    holes: Set<u64>,
    c: u64,
)
    requires
        tree_wf(t, pm, counter, holes),
        t.contains_key(c),
        attached(t, pm, c),
    ensures
        t[pm[c]].children@.contains(c),
{
    reveal(tree_wf);
}

/// Below is transitive.
pub proof fn lemma_descends_trans<S>(t: Map<u64, Mounted<S>>, a: u64, b: u64, c: u64)
    requires
        descends(t, a, b),
        descends(t, b, c),
    ensures
        descends(t, a, c),
{
    let p = choose|p: Seq<u64>| #[trigger] is_path(t, p) && p.len() >= 2 && p[0] == a && p.last() == b;
    let q = choose|q: Seq<u64>| #[trigger] is_path(t, q) && q.len() >= 2 && q[0] == b && q.last() == c;
    let r = p + q.drop_first();
    assert forall|k: int| 0 <= k < r.len() - 1 implies #[trigger] step_at(t, r, k) by {
        if k < p.len() - 1 {
            assert(step_at(t, p, k));
            assert(r[k] == p[k] && r[k + 1] == p[k + 1]);
        } else if k == p.len() - 1 {
            assert(step_at(t, q, 0));
            assert(r[k] == p.last() && r[k + 1] == q[1]);
        } else {
            let j = k - p.len() + 1;
            assert(step_at(t, q, j));
            assert(r[k] == q[j] && r[k + 1] == q[j + 1]);
        }
    }
    assert(is_path(t, r));
    assert(r.last() == c);
}

} // verus!
