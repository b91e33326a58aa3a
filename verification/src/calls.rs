//! The record of what a `Context` asks of a `Dom` and of its components, and
//! the primitives and components it concerns.
use vstd::prelude::*;
use crate::dom::{Primitive, PrimitiveId};
use crate::tree::{Mounted, MountedInner};

verus! {

/// A call a `Context` made on a `Dom`, by the primitive it concerns, or on the
/// component runtime, by the component it concerns.
pub enum Call {
    Start,
    Commit,
    /// `mount_as_child`: the id the `Dom` gave back, the primitive handed over
    /// and the parent it was mounted below.
    Mount(PrimitiveId, Primitive, Option<PrimitiveId>),
    /// `diff_primitive`: the mounted primitive and what it shows from now on.
    Diff(PrimitiveId, Primitive),
    /// `get_sub_list`, before the children of a primitive are visited: the
    /// primitive and the parent the `Dom` gave for its children.
    SubList(PrimitiveId, PrimitiveId),
    /// `remove` of a mounted primitive.
    Remove(PrimitiveId),
    /// The clean-up of the component mounted under this id.
    Destroy(u64),
    /// The effects of the component under this id run, after it rendered.
    Effects(u64),
    /// The runtime's answers for the component under this id and a new
    /// template: whether it holds the same function, and whether the mounted
    /// component may skip rendering (asked only for the same function).
    Compared(u64, bool, bool),
}

/// The primitives that the calls `d` remove.
pub open spec fn removed_by(d: Seq<Call>) -> Set<PrimitiveId> {
    Set::new(|p: PrimitiveId| d.contains(Call::Remove(p)))
}

/// The primitives that the calls `d` mount.
pub open spec fn mounted_by(d: Seq<Call>) -> Set<PrimitiveId> {
    Set::new(
        |p: PrimitiveId|
            exists|pr: Primitive, par: Option<PrimitiveId>| #[trigger] d.contains(Call::Mount(p, pr, par)),
    )
}

/// The primitives that the calls `d` diff.
pub open spec fn diffed_by(d: Seq<Call>) -> Set<PrimitiveId> {
    Set::new(|p: PrimitiveId| exists|pr: Primitive| #[trigger] d.contains(Call::Diff(p, pr)))
}

/// The components that the calls `d` clean up.
pub open spec fn destroyed_by(d: Seq<Call>) -> Set<u64> {
    Set::new(|x: u64| d.contains(Call::Destroy(x)))
}

/// The components whose effects the calls `d` run.
pub open spec fn flushed_by(d: Seq<Call>) -> Set<u64> {
    Set::new(|x: u64| d.contains(Call::Effects(x)))
}

/// Every call of `a` is among the calls of `b`.
pub open spec fn calls_within(a: Seq<Call>, b: Seq<Call>) -> bool {
    forall|c: Call| #[trigger] a.contains(c) ==> b.contains(c)
}

/// The calls `d` only mount primitives, announce lists of children, ask the
/// runtime about components and run effects.
pub open spec fn only_mounts(d: Seq<Call>) -> bool {
    forall|k: int|
        0 <= k < d.len() ==> #[trigger] d[k] is Mount || d[k] is SubList || d[k] is Effects || d[k] is Compared
}

/// The calls `d` only remove primitives and clean up components.
pub open spec fn only_unmounts(d: Seq<Call>) -> bool {
    forall|k: int| 0 <= k < d.len() ==> #[trigger] d[k] is Remove || d[k] is Destroy
}

/// The calls `d` mount nothing.
pub open spec fn no_mounts(d: Seq<Call>) -> bool {
    forall|k: int| 0 <= k < d.len() ==> !(#[trigger] d[k] is Mount)
}

/// In the calls `d`, no removal or clean-up comes after a mount.
pub open spec fn removals_before_mounts(d: Seq<Call>) -> bool {
    forall|a: int, b: int|
        #![trigger d[a], d[b]]
        0 <= a < b < d.len() && d[a] is Mount ==> !(d[b] is Remove) && !(d[b] is Destroy)
}

/// Two runs that mount nothing mount nothing together.
pub proof fn lemma_no_mounts_concat(a: Seq<Call>, b: Seq<Call>)
    requires
        no_mounts(a),
        no_mounts(b),
    ensures
        no_mounts(a + b),
{
    assert forall|k: int| 0 <= k < (a + b).len() implies !(#[trigger] (a + b)[k] is Mount) by {
        if k < a.len() {
            assert((a + b)[k] == a[k]);
        } else {
            assert((a + b)[k] == b[k - a.len()]);
        }
    }
}

/// Calls that mount nothing, then calls that only mount: every removal comes
/// before every mount.
pub proof fn lemma_removals_before_mounts(p: Seq<Call>, q: Seq<Call>)
    requires
        no_mounts(p),
        only_mounts(q),
    ensures
        removals_before_mounts(p + q),
{
    let d = p + q;
    assert forall|a: int, b: int| #![trigger d[a], d[b]] 0 <= a < b < d.len() && d[a] is Mount implies !(d[b] is Remove)
        && !(d[b] is Destroy) by {
        if a < p.len() {
            assert(d[a] == p[a]);
        } else {
            assert(d[b] == q[b - p.len()]);
        }
    }
}

/// The primitives that the nodes of `s` hold in `t`.
pub open spec fn primitives_of<S>(t: Map<u64, Mounted<S>>, s: Set<u64>) -> Set<PrimitiveId> {
    Set::new(
        |p: PrimitiveId|
            exists|x: u64|
                #[trigger] s.contains(x) && t.contains_key(x) && t[x].inner == MountedInner::<S>::Primitive(p),
    )
}

/// The nodes of `s` that are components in `t`.
pub open spec fn components_of<S>(t: Map<u64, Mounted<S>>, s: Set<u64>) -> Set<u64> {
    Set::new(|x: u64| s.contains(x) && t.contains_key(x) && t[x].inner is Component)
}

/// What a single call removes, mounts, diffs, cleans up or runs.
pub proof fn lemma_single_call(c: Call)
    ensures
        removed_by(seq![c]) == (match c {
            Call::Remove(p) => set![p],
            _ => Set::<PrimitiveId>::empty(),
        }),
        mounted_by(seq![c]) == (match c {
            Call::Mount(p, _, _) => set![p],
            _ => Set::<PrimitiveId>::empty(),
        }),
        diffed_by(seq![c]) == (match c {
            Call::Diff(p, _) => set![p],
            _ => Set::<PrimitiveId>::empty(),
        }),
        destroyed_by(seq![c]) == (match c {
            Call::Destroy(x) => set![x],
            _ => Set::<u64>::empty(),
        }),
        flushed_by(seq![c]) == (match c {
            Call::Effects(x) => set![x],
            _ => Set::<u64>::empty(),
        }),
        only_mounts(seq![c]) == (c is Mount || c is SubList || c is Effects || c is Compared),
        only_unmounts(seq![c]) == (c is Remove || c is Destroy),
        no_mounts(seq![c]) == !(c is Mount),
        seq![c].contains(c),
{
    let s = seq![c];
    assert(s[0] == c);
    assert forall|d: Call| s.contains(d) <==> d == c by {
        if s.contains(d) {
            let k = choose|k: int| 0 <= k < s.len() && s[k] == d;
            assert(k == 0);
        }
    }
    match c {
        Call::Mount(p, pr, par) => {
            assert(s.contains(Call::Mount(p, pr, par)));
        },
        Call::Diff(p, pr) => {
            assert(s.contains(Call::Diff(p, pr)));
        },
        _ => {},
    }
    assert(removed_by(s) =~= (match c {
        Call::Remove(p) => set![p],
        _ => Set::<PrimitiveId>::empty(),
    }));
    assert(mounted_by(s) =~= (match c {
        Call::Mount(p, _, _) => set![p],
        _ => Set::<PrimitiveId>::empty(),
    }));
    assert(diffed_by(s) =~= (match c {
        Call::Diff(p, _) => set![p],
        _ => Set::<PrimitiveId>::empty(),
    }));
    assert(destroyed_by(s) =~= (match c {
        Call::Destroy(x) => set![x],
        _ => Set::<u64>::empty(),
    }));
    assert(flushed_by(s) =~= (match c {
        Call::Effects(x) => set![x],
        _ => Set::<u64>::empty(),
    }));
}

/// Calls that only mount remove, diff and clean up nothing; calls that only
/// unmount mount, diff and run nothing.
pub proof fn lemma_kinds(d: Seq<Call>)
    ensures
        only_mounts(d) ==> removed_by(d) == Set::<PrimitiveId>::empty() && destroyed_by(d) == Set::<u64>::empty()
            && diffed_by(d) == Set::<PrimitiveId>::empty(),
        only_unmounts(d) ==> mounted_by(d) == Set::<PrimitiveId>::empty() && flushed_by(d) == Set::<u64>::empty()
            && diffed_by(d) == Set::<PrimitiveId>::empty(),
        only_unmounts(d) ==> no_mounts(d),
{
    assert forall|c: Call| #[trigger] d.contains(c) implies (only_mounts(d) ==> (c is Mount || c is SubList || c is Effects
        || c is Compared)) && (only_unmounts(d) ==> (c is Remove || c is Destroy)) by {
        let k = choose|k: int| 0 <= k < d.len() && d[k] == c;
        assert(d[k] == c);
    }
    if only_mounts(d) {
        assert(removed_by(d) =~= Set::<PrimitiveId>::empty());
        assert(destroyed_by(d) =~= Set::<u64>::empty());
        assert(diffed_by(d) =~= Set::<PrimitiveId>::empty());
    }
    if only_unmounts(d) {
        assert(mounted_by(d) =~= Set::<PrimitiveId>::empty());
        assert(flushed_by(d) =~= Set::<u64>::empty());
        assert(diffed_by(d) =~= Set::<PrimitiveId>::empty());
    }
}

/// What two runs of calls remove, mount or clean up together.
pub proof fn lemma_calls_concat(a: Seq<Call>, b: Seq<Call>)
    ensures
        removed_by(a + b) == removed_by(a).union(removed_by(b)),
        mounted_by(a + b) == mounted_by(a).union(mounted_by(b)),
        destroyed_by(a + b) == destroyed_by(a).union(destroyed_by(b)),
        flushed_by(a + b) == flushed_by(a).union(flushed_by(b)),
        diffed_by(a + b) == diffed_by(a).union(diffed_by(b)),
        only_mounts(a) && only_mounts(b) ==> only_mounts(a + b),
        only_unmounts(a) && only_unmounts(b) ==> only_unmounts(a + b),
        calls_within(a, a + b),
        calls_within(b, a + b),
        forall|c: Call| #[trigger] (a + b).contains(c) <==> a.contains(c) || b.contains(c),
{
    assert forall|c: Call| (a + b).contains(c) <==> a.contains(c) || b.contains(c) by {
        if (a + b).contains(c) {
            let k = choose|k: int| 0 <= k < (a + b).len() && (a + b)[k] == c;
            if k < a.len() {
                assert(a[k] == c);
            } else {
                assert(b[k - a.len()] == c);
            }
        }
        if a.contains(c) {
            let k = choose|k: int| 0 <= k < a.len() && a[k] == c;
            assert((a + b)[k] == c);
        }
        if b.contains(c) {
            let k = choose|k: int| 0 <= k < b.len() && b[k] == c;
            assert((a + b)[a.len() + k] == c);
        }
    }
    assert(removed_by(a + b) =~= removed_by(a).union(removed_by(b)));
    assert forall|p: PrimitiveId| #[trigger] mounted_by(a + b).contains(p) == mounted_by(a).union(mounted_by(b)).contains(p) by {
        if mounted_by(a + b).contains(p) {
            let (pr, par) = choose|pr: Primitive, par: Option<PrimitiveId>| (a + b).contains(Call::Mount(p, pr, par));
            if a.contains(Call::Mount(p, pr, par)) {
                assert(mounted_by(a).contains(p));
            } else {
                assert(mounted_by(b).contains(p));
            }
        }
        if mounted_by(a).contains(p) {
            let (pr, par) = choose|pr: Primitive, par: Option<PrimitiveId>| a.contains(Call::Mount(p, pr, par));
            assert((a + b).contains(Call::Mount(p, pr, par)));
        }
        if mounted_by(b).contains(p) {
            let (pr, par) = choose|pr: Primitive, par: Option<PrimitiveId>| b.contains(Call::Mount(p, pr, par));
            assert((a + b).contains(Call::Mount(p, pr, par)));
        }
    }
    assert(mounted_by(a + b) =~= mounted_by(a).union(mounted_by(b)));
    assert(destroyed_by(a + b) =~= destroyed_by(a).union(destroyed_by(b)));
    assert(flushed_by(a + b) =~= flushed_by(a).union(flushed_by(b)));
    assert forall|p: PrimitiveId| #[trigger] diffed_by(a + b).contains(p) == diffed_by(a).union(diffed_by(b)).contains(p) by {
        if diffed_by(a + b).contains(p) {
            let pr = choose|pr: Primitive| (a + b).contains(Call::Diff(p, pr));
            if a.contains(Call::Diff(p, pr)) {
                assert(diffed_by(a).contains(p));
            } else {
                assert(diffed_by(b).contains(p));
            }
        }
        if diffed_by(a).contains(p) {
            let pr = choose|pr: Primitive| a.contains(Call::Diff(p, pr));
            assert((a + b).contains(Call::Diff(p, pr)));
        }
        if diffed_by(b).contains(p) {
            let pr = choose|pr: Primitive| b.contains(Call::Diff(p, pr));
            assert((a + b).contains(Call::Diff(p, pr)));
        }
    }
    assert(diffed_by(a + b) =~= diffed_by(a).union(diffed_by(b)));
    if only_mounts(a) && only_mounts(b) {
        assert forall|k: int| 0 <= k < (a + b).len() implies #[trigger] (a + b)[k] is Mount || (a
            + b)[k] is SubList || (a + b)[k] is Effects || (a + b)[k] is Compared by {
            if k < a.len() {
                assert((a + b)[k] == a[k]);
            } else {
                assert((a + b)[k] == b[k - a.len()]);
            }
        }
    }
    if only_unmounts(a) && only_unmounts(b) {
        assert forall|k: int| 0 <= k < (a + b).len() implies #[trigger] (a + b)[k] is Remove || (a
            + b)[k] is Destroy by {
            if k < a.len() {
                assert((a + b)[k] == a[k]);
            } else {
                assert((a + b)[k] == b[k - a.len()]);
            }
        }
    }
}

/// The primitives of two sets of nodes together.
pub proof fn lemma_primitives_union<S>(t: Map<u64, Mounted<S>>, a: Set<u64>, b: Set<u64>)
    ensures
        primitives_of(t, a.union(b)) == primitives_of(t, a).union(primitives_of(t, b)),
{
    assert forall|p: PrimitiveId| #[trigger] primitives_of(t, a.union(b)).contains(p) implies primitives_of(
        t,
        a,
    ).union(primitives_of(t, b)).contains(p) by {
        let x = choose|x: u64|
            #[trigger] a.union(b).contains(x) && t.contains_key(x) && t[x].inner == MountedInner::<S>::Primitive(p);
        if a.contains(x) {
            assert(primitives_of(t, a).contains(p));
        } else {
            assert(primitives_of(t, b).contains(p));
        }
    }
    assert forall|p: PrimitiveId| #[trigger] primitives_of(t, a).union(primitives_of(t, b)).contains(p) implies primitives_of(
        t,
        a.union(b),
    ).contains(p) by {
        if primitives_of(t, a).contains(p) {
            let x = choose|x: u64| #[trigger] a.contains(x) && t.contains_key(x) && t[x].inner == MountedInner::<S>::Primitive(p);
            assert(a.union(b).contains(x));
        } else {
            let x = choose|x: u64| #[trigger] b.contains(x) && t.contains_key(x) && t[x].inner == MountedInner::<S>::Primitive(p);
            assert(a.union(b).contains(x));
        }
    }
    assert(primitives_of(t, a.union(b)) =~= primitives_of(t, a).union(primitives_of(t, b)));
}

/// The primitive of one node: its own if it is a primitive, none otherwise.
pub proof fn lemma_primitives_single<S>(t: Map<u64, Mounted<S>>, x: u64)
    requires
        t.contains_key(x),
    ensures
        primitives_of(t, set![x]) == (match t[x].inner {
            MountedInner::Primitive(p) => set![p],
            MountedInner::Component(_) => Set::<PrimitiveId>::empty(),
        }),
{
    let expected = match t[x].inner {
        MountedInner::Primitive(p) => set![p],
        MountedInner::Component(_) => Set::<PrimitiveId>::empty(),
    };
    assert forall|p: PrimitiveId| primitives_of(t, set![x]).contains(p) implies expected.contains(p) by {
        let y = choose|y: u64| #[trigger] set![x].contains(y) && t.contains_key(y) && t[y].inner == MountedInner::<S>::Primitive(p);
        assert(y == x);
    }
    if let MountedInner::Primitive(q) = t[x].inner {
        assert(set![x].contains(x));
        assert(primitives_of(t, set![x]).contains(q));
    }
    assert(primitives_of(t, set![x]) =~= expected);
}

/// Calls that only mount or only unmount diff nothing.
pub proof fn lemma_no_diffs(d: Seq<Call>)
    requires
        only_mounts(d) || only_unmounts(d),
    ensures
        diffed_by(d) == Set::<PrimitiveId>::empty(),
{
    lemma_kinds(d);
}

/// The primitives of a set of nodes include those of a subset.
pub proof fn lemma_primitives_subset<S>(t: Map<u64, Mounted<S>>, a: Set<u64>, b: Set<u64>)
    requires
        a.subset_of(b),
    ensures
        primitives_of(t, a).subset_of(primitives_of(t, b)),
{
    assert forall|p: PrimitiveId| #[trigger] primitives_of(t, a).contains(p) implies primitives_of(t, b).contains(p) by {
        let x = choose|x: u64| #[trigger] a.contains(x) && t.contains_key(x) && t[x].inner == MountedInner::<S>::Primitive(p);
        assert(b.contains(x));
    }
}

/// The components of two sets of nodes together.
pub proof fn lemma_components_union<S>(t: Map<u64, Mounted<S>>, a: Set<u64>, b: Set<u64>)
    ensures
        components_of(t, a.union(b)) == components_of(t, a).union(components_of(t, b)),
{
    assert(components_of(t, a.union(b)) =~= components_of(t, a).union(components_of(t, b)));
}

/// Two trees that hold the same nodes of `s` give them the same components.
pub proof fn lemma_components_agree<S>(t1: Map<u64, Mounted<S>>, t2: Map<u64, Mounted<S>>, s: Set<u64>)
    requires
        forall|x: u64| #[trigger] s.contains(x) ==> t1.contains_key(x) && t2.contains_key(x) && t1[x] == t2[x],
    ensures
        components_of(t1, s) == components_of(t2, s),
{
    assert(components_of(t1, s) =~= components_of(t2, s));
}

/// Two trees that hold the same nodes of `s` give them the same primitives.
pub proof fn lemma_primitives_agree<S>(t1: Map<u64, Mounted<S>>, t2: Map<u64, Mounted<S>>, s: Set<u64>)
    requires
        forall|x: u64| #[trigger] s.contains(x) ==> t1.contains_key(x) && t2.contains_key(x) && t1[x] == t2[x],
    ensures
        primitives_of(t1, s) == primitives_of(t2, s),
{
    assert forall|p: PrimitiveId| #[trigger] primitives_of(t1, s).contains(p) implies primitives_of(t2, s).contains(p) by {
        let x = choose|x: u64| #[trigger] s.contains(x) && t1.contains_key(x) && t1[x].inner == MountedInner::<S>::Primitive(p);
        assert(s.contains(x));
    }
    assert forall|p: PrimitiveId| #[trigger] primitives_of(t2, s).contains(p) implies primitives_of(t1, s).contains(p) by {
        let x = choose|x: u64| #[trigger] s.contains(x) && t2.contains_key(x) && t2[x].inner == MountedInner::<S>::Primitive(p);
        assert(s.contains(x));
    }
    assert(primitives_of(t1, s) =~= primitives_of(t2, s));
}

} // verus!
