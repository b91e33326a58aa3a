//! Keeps the mounted tree in step with the elements that components render.
use std::collections::HashMap;
use std::collections::HashSet;
use crossbeam_channel::{Receiver, Sender};
use vstd::prelude::*;
use crate::calls::{
    lemma_calls_concat, lemma_primitives_agree, lemma_primitives_single, lemma_primitives_union, mounted_by, only_mounts, only_unmounts,
    primitives_of, removed_by, Call, components_of, destroyed_by, lemma_components_agree, lemma_components_union,
    flushed_by, diffed_by, lemma_no_diffs, lemma_primitives_subset, lemma_single_call, lemma_kinds, calls_within,
    lemma_no_mounts_concat, lemma_removals_before_mounts, no_mounts, removals_before_mounts,
};
use crate::channel::{queue_len, queue_try_take, unbounded_queue};
use crate::dom::{Dom, Primitive, PrimitiveId};
use crate::element::{lemma_nodes_count_split, lemma_nodes_count_take, node_count, nodes_count, plain, reversed, Element, ElementInner};
use crate::tree::{
    attached, edge_ok, descends, hangs_below, is_path, lemma_child_edge, lemma_closed_holds_path, lemma_path_increasing, lemma_path_prepend, step_at, lemma_wf_raise, lemma_attached_listed, lemma_empty_wf, lemma_same_shape, lemma_descends_trans, lemma_region_unique, lemma_children_listed, lemma_hangs_above, lemma_hangs_disjoint, lemma_insert_node, lemma_push_to_set, lemma_remove_as_hole, lemma_remove_detached,
    lemma_region_above, lemma_remove_keys_smaller, lemma_set_parent, list_complete, list_ok, region, tree_wf, Mounted, MountedInner,
    lemma_mirrors_grow, lemma_mirrors_keep, mirrors, mirrors_list, lemma_placed_grow, placed,
};

verus! {

broadcast use vstd::std_specs::hash::group_hash_axioms;

/// The id of a mounted node.
#[derive(Clone, Copy, Debug, Hash, PartialEq, Eq, Structural)]
pub struct MountedId(pub u64);

/// The id of a node mounted by `Context::mount_root`.
#[derive(Clone, Copy, Debug, Hash, PartialEq, Eq, Structural)]
pub struct MountedRootId(pub MountedId);

/// A change to one piece of a component's state, addressed to the component.
pub struct Envelope<U> {
    pub target: MountedId,
    pub slot: u64,
    pub update: U,
}

/// Why an operation of a `Context` did not complete.
#[derive(Clone, Copy, Debug, PartialEq, Eq, Structural)]
pub enum ContextError {
    /// Every id a `u64` can hold has been handed out; the context does no more work.
    IdsExhausted,
    /// An update was addressed to a component that is not mounted.
    UnknownTarget(MountedId),
}

/// How components render: supplied by the component runtime.
///
/// The context calls these at fixed points and promises nothing about what
/// they return; every contract of the context holds whatever they do.
pub trait ComponentHost {
    /// What a component element carries before it is mounted.
    type Template;
    /// What a mounted component keeps between renders.
    type State;
    /// A change to one piece of a component's state.
    type Update;

    /// Renders a component for the first time; gives its state and the
    /// elements it renders.
    fn render_first(
        id: MountedId,
        template: Self::Template,
        tx: &Sender<Envelope<Self::Update>>,
    ) -> (Self::State, Vec<Element<Self::Template>>);

    /// Renders a mounted component again.
    fn render_update(
        id: MountedId,
        state: &mut Self::State,
        tx: &Sender<Envelope<Self::Update>>,
    ) -> Vec<Element<Self::Template>>;

    /// Runs the effects the last render asked for.
    fn flush_effects(state: &mut Self::State);

    /// Whether a template holds the same component function as a mounted component.
    fn same_function(state: &Self::State, template: &Self::Template) -> bool;

    /// Whether a mounted component may skip rendering for a template.
    fn use_memoized(state: &Self::State, template: &Self::Template) -> bool;

    /// Runs the clean-up of a component that is unmounted.
    fn destroy(state: Self::State);

    /// Applies an update to a piece of a component's state.
    fn apply_update(state: &mut Self::State, slot: u64, update: Self::Update);
}

/// The mounted tree, the queue of state updates, and the ids handed out so far.
pub struct Context<H: ComponentHost> {
    tree: HashMap<u64, Mounted<H::State>>,
    counter: u64,
    roots: HashSet<u64>,
    exhausted: bool,
    tx: Sender<Envelope<H::Update>>,
    rx: Receiver<Envelope<H::Update>>,
    parents: Ghost<Map<u64, u64>>,
    holes: Ghost<Set<u64>>,
    calls: Ghost<Seq<Call>>,
    renders: Ghost<Seq<u64>>,
    updates: Ghost<Seq<(u64, u64)>>,
    rounds: Ghost<Seq<(int, Seq<u64>, Map<u64, Mounted<H::State>>, Seq<u64>)>>,
    seen: Ghost<nat>,
    taken: Ghost<Seq<(u64, u64)>>,
    dry: Ghost<bool>,
    outputs: Ghost<Map<u64, Seq<Element<H::Template>>>>,
}

/// What becomes of a mounted component when it meets a component template.
#[derive(Clone, Copy, Debug, PartialEq, Eq, Structural)]
pub enum Reuse {
    /// It stays as it is: same function, and it may skip rendering.
    Keep,
    /// It stays and renders again: same function, and it may not skip rendering.
    Rerender,
    /// It is unmounted and the template mounted in its place: another function.
    Replace,
}

/// Decides from the runtime's two answers (the same function, and whether the
/// component may skip rendering) what becomes of a mounted component.
pub fn reuse(same_function: bool, memoized: bool) -> (r: Reuse)
    ensures
        r == (if !same_function {
            Reuse::Replace
        } else if memoized {
            Reuse::Keep
        } else {
            Reuse::Rerender
        }),
{
    if !same_function {
        Reuse::Replace
    } else if memoized {
        Reuse::Keep
    } else {
        Reuse::Rerender
    }
}

impl<H: ComponentHost> Context<H> {
    /// The mounted nodes by id.
    pub closed spec fn nodes(&self) -> Map<u64, Mounted<H::State>> {
        self.tree@
    }

    /// The recorded parent of every node ever placed below another one.
    pub closed spec fn parents(&self) -> Map<u64, u64> {
        self.parents@
    }

    /// The id the next mounted node receives.
    pub closed spec fn next_id(&self) -> u64 {
        self.counter
    }

    /// The nodes mounted by `mount_root` and not unmounted since.
    pub closed spec fn root_ids(&self) -> Set<u64> {
        self.roots@
    }

    /// The id space is used up; nothing more is done.
    pub closed spec fn is_exhausted(&self) -> bool {
        self.exhausted
    }

    /// Nodes taken out of the tree for the moment, while one renders again.
    pub closed spec fn holes(&self) -> Set<u64> {
        self.holes@
    }

    /// Every call this context has made on a `Dom`, and every clean-up and run
    /// of effects of its components, in order.
    pub closed spec fn call_log(&self) -> Seq<Call> {
        self.calls@
    }

    /// The ids of the components rendered so far, in order, each time one renders.
    pub closed spec fn rendered(&self) -> Seq<u64> {
        self.renders@
    }

    /// The updates handed to components so far, by target and slot, in order.
    pub closed spec fn applied_updates(&self) -> Seq<(u64, u64)> {
        self.updates@
    }

    /// The rounds of the last batch of `process_messages`: where the round's
    /// updates start among `applied_updates`, the components they were
    /// addressed to, the tree they were rendered in, and what rendered.
    pub closed spec fn batch_rounds(&self) -> Seq<(int, Seq<u64>, Map<u64, Mounted<H::State>>, Seq<u64>)> {
        self.rounds@
    }

    /// How many updates waited in the queue when it was last looked at.
    pub closed spec fn last_seen_waiting(&self) -> nat {
        self.seen@
    }

    /// The updates taken from the queue so far, by the target and slot their
    /// envelopes carried, in order.
    pub closed spec fn taken_updates(&self) -> Seq<(u64, u64)> {
        self.taken@
    }

    /// `new` has taken the updates `old` took and then some more.
    pub open spec fn takes_extend(old: &Self, new: &Self) -> bool {
        &&& old.taken_updates().len() <= new.taken_updates().len()
        &&& new.taken_updates().take(old.taken_updates().len() as int) == old.taken_updates()
    }

    /// The last attempt to take an update from the queue found none waiting.
    pub closed spec fn found_empty(&self) -> bool {
        self.dry@
    }

    /// The updates `new` took from the queue after `old`.
    pub open spec fn taken_since(old: &Self, new: &Self) -> Seq<(u64, u64)> {
        new.taken_updates().skip(old.taken_updates().len() as int)
    }

    /// What each component gave back the last time it rendered.
    pub closed spec fn render_outputs(&self) -> Map<u64, Seq<Element<H::Template>>> {
        self.outputs@
    }

    /// `new` has handed out the updates of `old` and then some more.
    pub open spec fn updates_extend(old: &Self, new: &Self) -> bool {
        &&& old.applied_updates().len() <= new.applied_updates().len()
        &&& new.applied_updates().take(old.applied_updates().len() as int) == old.applied_updates()
    }

    /// The updates `new` handed out after `old`.
    pub open spec fn updates_since(old: &Self, new: &Self) -> Seq<(u64, u64)> {
        new.applied_updates().skip(old.applied_updates().len() as int)
    }

    /// `new` has rendered what `old` had and then some more.
    pub open spec fn renders_extend(old: &Self, new: &Self) -> bool {
        &&& old.rendered().len() <= new.rendered().len()
        &&& new.rendered().take(old.rendered().len() as int) == old.rendered()
    }

    /// The components `new` rendered after `old`.
    pub open spec fn renders_since(old: &Self, new: &Self) -> Seq<u64> {
        new.rendered().skip(old.rendered().len() as int)
    }

    /// Going from `old` to `new` rendered each component at most once, and only
    /// components among `allowed`; only their last outputs changed.
    pub open spec fn renders_within(old: &Self, new: &Self, allowed: Set<u64>) -> bool {
        &&& Self::renders_extend(old, new)
        &&& Self::renders_since(old, new).no_duplicates()
        &&& forall|x: u64| #[trigger] Self::renders_since(old, new).contains(x) ==> allowed.contains(x)
        &&& outputs_kept(old.render_outputs(), new.render_outputs(), allowed)
    }

    /// Renders in two steps, apart from each other, stay within the union.
    #[verifier::spinoff_prover]
    proof fn lemma_renders_chain(a: &Self, b: &Self, c: &Self, s1: Set<u64>, s2: Set<u64>)
        requires
            Self::renders_within(a, b, s1),
            Self::renders_within(b, c, s2),
            forall|x: u64| #[trigger] s1.contains(x) ==> !s2.contains(x),
        ensures
            Self::renders_within(a, c, s1.union(s2)),
            Self::renders_since(a, c) == Self::renders_since(a, b) + Self::renders_since(b, c),
    {
        lemma_outputs_chain(a.render_outputs(), b.render_outputs(), c.render_outputs(), s1, s2);
        let la = a.rendered().len() as int;
        let lb = b.rendered().len() as int;
        assert forall|k: int| 0 <= k < la implies c.rendered()[k] == a.rendered()[k] by {
            assert(c.rendered().take(lb)[k] == c.rendered()[k]);
            assert(b.rendered().take(la)[k] == b.rendered()[k]);
        }
        assert(c.rendered().take(la) =~= a.rendered());
        assert forall|k: int| la <= k < lb implies #[trigger] c.rendered()[k] == b.rendered()[k] by {
            assert(c.rendered().take(lb)[k] == c.rendered()[k]);
        }
        let p = Self::renders_since(a, b);
        let q = Self::renders_since(b, c);
        assert(Self::renders_since(a, c) =~= p + q);
        assert forall|x: u64| #[trigger] (p + q).contains(x) implies s1.union(s2).contains(x) by {
            let k = choose|k: int| 0 <= k < (p + q).len() && (p + q)[k] == x;
            if k < p.len() {
                assert(p[k] == x);
                assert(p.contains(x));
            } else {
                assert(q[k - p.len()] == x);
                assert(q.contains(x));
            }
        }
        assert forall|i: int, j: int| 0 <= i < j < (p + q).len() implies (p + q)[i] != (p + q)[j] by {
            if j < p.len() {
            } else if i >= p.len() {
                assert((p + q)[i] == q[i - p.len()] && (p + q)[j] == q[j - p.len()]);
            } else {
                assert((p + q)[i] == p[i] && p.contains(p[i]));
                assert((p + q)[j] == q[j - p.len()] && q.contains(q[j - p.len()]));
            }
        }
    }

    /// One more step of a reconciliation renders only what it touches, apart
    /// from what the steps before touched.
    #[verifier::spinoff_prover]
    proof fn lemma_renders_step(old: &Self, before: &Self, post: &Self, changed: Set<u64>, ci: Set<u64>)
        requires
            Self::renders_within(old, before, Self::touched(old, before, changed)),
            Self::renders_within(before, post, Self::touched(before, post, ci)),
            forall|x: u64| #[trigger] ci.contains(x) ==> !Self::touched(old, before, changed).contains(x),
            forall|n: u64|
                #[trigger] before.nodes().contains_key(n) && !ci.contains(n) ==> post.nodes().contains_key(n),
            forall|n: u64|
                #[trigger] post.nodes().contains_key(n) && !before.nodes().contains_key(n) ==> !old.nodes().contains_key(n),
        ensures
            Self::renders_within(old, post, Self::touched(old, post, changed.union(ci))),
            Self::touched(old, before, changed).union(Self::touched(before, post, ci)).subset_of(
                Self::touched(old, post, changed.union(ci)),
            ),
    {
        let tb = Self::touched(old, before, changed);
        let tp = Self::touched(before, post, ci);
        assert forall|x: u64| #[trigger] tb.contains(x) implies !tp.contains(x) by {}
        Self::lemma_renders_chain(old, before, post, tb, tp);
        assert(tb.union(tp).subset_of(Self::touched(old, post, changed.union(ci)))) by {
            assert forall|x: u64| #[trigger] tb.union(tp).contains(x) implies Self::touched(old, post, changed.union(ci)).contains(x) by {
                if tb.contains(x) {
                    assert(!ci.contains(x));
                }
            }
        }
        Self::lemma_renders_widen(old, post, tb.union(tp), Self::touched(old, post, changed.union(ci)));
    }

    /// A node taken out, a step that renders within what it touches and the
    /// node itself, and the node put back: the renders stay within what the
    /// whole touched.
    #[verifier::spinoff_prover]
    proof fn lemma_reinsert_renders(o: &Self, m: &Self, r: &Self, f: &Self, id: u64, ch: Set<u64>)
        requires
            o.nodes().contains_key(id),
            m.nodes() == o.nodes().remove(id),
            m.rendered() == o.rendered(),
            m.render_outputs() == o.render_outputs(),
            Self::renders_within(m, r, Self::touched(m, r, ch).insert(id)),
            f.nodes() == r.nodes().insert(id, f.nodes()[id]),
            f.rendered() == r.rendered(),
            f.render_outputs() == r.render_outputs(),
        ensures
            Self::renders_within(o, f, Self::touched(o, f, ch.insert(id))),
    {
        assert(Self::renders_since(o, f) == Self::renders_since(m, r));
        assert(f.rendered().take(o.rendered().len() as int) == r.rendered().take(m.rendered().len() as int));
        assert forall|x: u64| #[trigger] Self::touched(m, r, ch).insert(id).contains(x) implies Self::touched(
            o,
            f,
            ch.insert(id),
        ).contains(x) by {}
        Self::lemma_renders_widen(o, f, Self::touched(m, r, ch).insert(id), Self::touched(o, f, ch.insert(id)));
    }

    /// A node unmounted and an element mounted in its place: what renders is new.
    #[verifier::spinoff_prover]
    proof fn lemma_replace_renders(o: &Self, u: &Self, f: &Self, id: u64, below: Set<u64>)
        requires
            o.inv(),
            u.rendered() == o.rendered(),
            u.render_outputs() == o.render_outputs(),
            Self::renders_within(u, f, Self::fresh_nodes(u, f)),
            forall|x: u64| #[trigger] f.nodes().contains_key(x) && !u.nodes().contains_key(x) ==> o.next_id() <= x,
        ensures
            Self::renders_within(o, f, Self::touched(o, f, below.insert(id))),
    {
        assert(Self::renders_since(o, f) == Self::renders_since(u, f));
        assert(f.rendered().take(o.rendered().len() as int) == f.rendered().take(u.rendered().len() as int));
        assert forall|x: u64| #[trigger] Self::fresh_nodes(u, f).contains(x) implies Self::touched(
            o,
            f,
            below.insert(id),
        ).contains(x) by {
            assert(o.next_id() <= x);
        }
        Self::lemma_renders_widen(o, f, Self::fresh_nodes(u, f), Self::touched(o, f, below.insert(id)));
    }

    /// Renders in two steps are those of the first step, then those of the second.
    #[verifier::spinoff_prover]
    proof fn lemma_renders_concat(a: &Self, b: &Self, c: &Self)
        requires
            Self::renders_extend(a, b),
            Self::renders_extend(b, c),
        ensures
            Self::renders_extend(a, c),
            Self::renders_since(a, c) == Self::renders_since(a, b) + Self::renders_since(b, c),
    {
        let la = a.rendered().len() as int;
        let lb = b.rendered().len() as int;
        assert forall|k: int| 0 <= k < la implies c.rendered()[k] == a.rendered()[k] by {
            assert(c.rendered().take(lb)[k] == c.rendered()[k]);
            assert(b.rendered().take(la)[k] == b.rendered()[k]);
        }
        assert(c.rendered().take(la) =~= a.rendered());
        assert forall|k: int| la <= k < lb implies #[trigger] c.rendered()[k] == b.rendered()[k] by {
            assert(c.rendered().take(lb)[k] == c.rendered()[k]);
        }
        assert(Self::renders_since(a, c) =~= Self::renders_since(a, b) + Self::renders_since(b, c));
    }

    /// Going from `old` to `new`, the effects that ran are those of the
    /// components that rendered.
    pub open spec fn effects_follow(old: &Self, new: &Self) -> bool {
        flushed_by(Self::calls_since(old, new)) == Self::renders_since(old, new).to_set()
    }

    /// Effects follow renders over two steps when they do over each.
    #[verifier::spinoff_prover]
    proof fn lemma_effects_chain(a: &Self, b: &Self, c: &Self)
        requires
            Self::calls_extend(a, b),
            Self::calls_extend(b, c),
            Self::renders_extend(a, b),
            Self::renders_extend(b, c),
            Self::effects_follow(a, b),
            Self::effects_follow(b, c),
        ensures
            Self::effects_follow(a, c),
    {
        Self::lemma_calls_chain(a, b, c);
        Self::lemma_renders_concat(a, b, c);
        lemma_calls_concat(Self::calls_since(a, b), Self::calls_since(b, c));
        lemma_concat_to_set(Self::renders_since(a, b), Self::renders_since(b, c));
    }

    /// A step that renders nothing and runs no effects.
    #[verifier::spinoff_prover]
    proof fn lemma_effects_none(a: &Self, b: &Self)
        requires
            Self::calls_extend(a, b),
            forall|k: int|
                0 <= k < Self::calls_since(a, b).len() ==> !(#[trigger] Self::calls_since(a, b)[k] is Effects),
            b.rendered() == a.rendered(),
        ensures
            Self::effects_follow(a, b),
            Self::renders_extend(a, b),
    {
        let d = Self::calls_since(a, b);
        assert forall|x: u64| !flushed_by(d).contains(x) by {
            if d.contains(Call::Effects(x)) {
                let k = choose|k: int| 0 <= k < d.len() && d[k] == Call::Effects(x);
                assert(d[k] is Effects);
            }
        }
        assert(b.rendered().take(a.rendered().len() as int) =~= a.rendered());
        assert(Self::renders_since(a, b) =~= Seq::<u64>::empty());
        assert(Self::renders_since(a, b).to_set() =~= Set::<u64>::empty());
        assert(flushed_by(d) =~= Set::<u64>::empty());
    }

    /// Running the effects of a component leaves the match of calls and changes as it was.
    #[verifier::spinoff_prover]
    proof fn lemma_effects_keep_match(a: &Self, b: &Self, c: &Self, x: u64)
        requires
            Self::calls_match(a, b),
            c.nodes() == b.nodes(),
            c.call_log() == b.call_log().push(Call::Effects(x)),
        ensures
            Self::calls_match(a, c),
            Self::calls_since(a, c) == Self::calls_since(a, b).push(Call::Effects(x)),
            flushed_by(Self::calls_since(a, c)) == flushed_by(Self::calls_since(a, b)).insert(x),
    {
        let la = a.call_log().len() as int;
        let e = seq![Call::Effects(x)];
        assert(c.call_log().take(la) =~= b.call_log().take(la));
        assert(Self::calls_since(a, c) =~= Self::calls_since(a, b) + e);
        assert(Self::calls_since(a, c) =~= Self::calls_since(a, b).push(Call::Effects(x)));
        lemma_calls_concat(Self::calls_since(a, b), e);
        lemma_single_call(Call::Effects(x));
        let d = Self::calls_since(a, b);
        assert(removed_by(d).union(Set::<PrimitiveId>::empty()) =~= removed_by(d));
        assert(mounted_by(d).union(Set::<PrimitiveId>::empty()) =~= mounted_by(d));
        assert(destroyed_by(d).union(Set::<u64>::empty()) =~= destroyed_by(d));
        assert(flushed_by(d).union(set![x]) =~= flushed_by(d).insert(x));
    }

    /// Unmounting, one more removal or clean-up, then a mount: effects follow
    /// renders over the whole.
    #[verifier::spinoff_prover]
    proof fn lemma_effects_replace(o: &Self, u1: &Self, u2: &Self, f: &Self)
        requires
            Self::calls_extend(o, u1),
            Self::effects_follow(o, u1),
            u1.rendered() == o.rendered(),
            u2.rendered() == u1.rendered(),
            u2.call_log().len() == u1.call_log().len() + 1,
            u2.call_log().take(u1.call_log().len() as int) == u1.call_log(),
            !(u2.call_log()[u1.call_log().len() as int] is Effects),
            Self::calls_extend(u2, f),
            Self::renders_extend(u2, f),
            Self::effects_follow(u2, f),
        ensures
            Self::effects_follow(o, f),
    {
        assert(o.rendered().take(o.rendered().len() as int) =~= o.rendered());
        assert(u1.rendered().take(o.rendered().len() as int) =~= o.rendered());
        assert(u2.rendered().take(u1.rendered().len() as int) =~= u1.rendered());
        assert forall|k: int| 0 <= k < Self::calls_since(u1, u2).len() implies !(
        #[trigger] Self::calls_since(u1, u2)[k] is Effects) by {
            assert(Self::calls_since(u1, u2)[k] == u2.call_log()[u1.call_log().len() as int]);
        }
        Self::lemma_effects_none(u1, u2);
        Self::lemma_effects_chain(o, u1, u2);
        Self::lemma_calls_chain(o, u1, u2);
        Self::lemma_renders_concat(o, u1, u2);
        Self::lemma_effects_chain(o, u2, f);
    }

    /// Going from `old` to `new`, the primitives diffed are those of nodes of
    /// `allowed` in `new`.
    pub open spec fn diffs_within(old: &Self, new: &Self, allowed: Set<u64>) -> bool {
        diffed_by(Self::calls_since(old, new)).subset_of(primitives_of(new.nodes(), allowed))
    }

    /// Diffs in two steps, where the second leaves alone the nodes the first
    /// may have diffed.
    #[verifier::spinoff_prover]
    proof fn lemma_diffs_chain(a: &Self, b: &Self, c: &Self, s1: Set<u64>, s2: Set<u64>, s: Set<u64>)
        requires
            Self::calls_extend(a, b),
            Self::calls_extend(b, c),
            Self::diffs_within(a, b, s1),
            Self::diffs_within(b, c, s2),
            forall|x: u64|
                #[trigger] s1.contains(x) && b.nodes().contains_key(x) ==> c.nodes().contains_key(x)
                    && c.nodes()[x] == b.nodes()[x],
            s1.union(s2).subset_of(s),
        ensures
            Self::diffs_within(a, c, s),
    {
        Self::lemma_calls_chain(a, b, c);
        lemma_calls_concat(Self::calls_since(a, b), Self::calls_since(b, c));
        let s1b = s1.intersect(b.nodes().dom());
        assert(primitives_of(b.nodes(), s1) =~= primitives_of(b.nodes(), s1b)) by {
            assert forall|p: PrimitiveId| primitives_of(b.nodes(), s1).contains(p) implies primitives_of(
                b.nodes(),
                s1b,
            ).contains(p) by {
                let x = choose|x: u64|
                    #[trigger] s1.contains(x) && b.nodes().contains_key(x) && b.nodes()[x].inner
                        == MountedInner::<H::State>::Primitive(p);
                assert(s1b.contains(x));
            }
            lemma_primitives_subset(b.nodes(), s1b, s1);
        }
        lemma_primitives_agree(b.nodes(), c.nodes(), s1b);
        lemma_primitives_subset(c.nodes(), s1b, s);
        lemma_primitives_subset(c.nodes(), s2, s);
    }

    /// A node taken out, calls that diff at most its own primitive, a step that
    /// diffs within what it touches, and the node put back.
    #[verifier::spinoff_prover]
    proof fn lemma_reinsert_diffs(o: &Self, m: &Self, r: &Self, f: &Self, id: u64, pre: Seq<Call>, ch: Set<u64>)
        requires
            o.nodes().contains_key(id),
            m.nodes() == o.nodes().remove(id),
            m.call_log() == o.call_log() + pre,
            diffed_by(pre).subset_of(primitives_of(f.nodes(), set![id])),
            Self::calls_extend(m, r),
            Self::diffs_within(m, r, Self::touched(m, r, ch)),
            !r.nodes().contains_key(id),
            f.nodes() == r.nodes().insert(id, f.nodes()[id]),
            f.call_log() == r.call_log(),
        ensures
            Self::diffs_within(o, f, Self::touched(o, f, ch.insert(id))),
    {
        let lo = o.call_log().len() as int;
        let lm = m.call_log().len() as int;
        let dr = Self::calls_since(m, r);
        assert(lm == lo + pre.len());
        let cs = Self::calls_since(o, f);
        assert(cs.len() == (pre + dr).len());
        assert forall|k: int| 0 <= k < cs.len() implies #[trigger] cs[k] == (pre + dr)[k] by {
            if k < pre.len() {
                assert(r.call_log().take(lm)[lo + k] == r.call_log()[lo + k]);
                assert(m.call_log()[lo + k] == pre[k]);
            } else {
                assert(dr[k - pre.len()] == r.call_log()[lm + k - pre.len()]);
            }
        }
        assert(cs =~= pre + dr);
        lemma_calls_concat(pre, dr);
        let tr = Self::touched(m, r, ch);
        let tf = Self::touched(o, f, ch.insert(id));
        assert forall|x: u64| #[trigger] tr.contains(x) implies r.nodes().contains_key(x) && f.nodes().contains_key(x)
            && r.nodes()[x] == f.nodes()[x] by {
            assert(x != id);
        }
        lemma_primitives_agree(r.nodes(), f.nodes(), tr);
        assert(tr.subset_of(tf));
        lemma_primitives_subset(f.nodes(), tr, tf);
        assert(set![id].subset_of(tf));
        lemma_primitives_subset(f.nodes(), set![id], tf);
    }

    /// Unmounting, one call that diffs nothing, then a mount: nothing is diffed.
    #[verifier::spinoff_prover]
    proof fn lemma_replace_diffs(o: &Self, u1: &Self, u2: &Self, f: &Self, allowed: Set<u64>)
        requires
            Self::calls_extend(o, u1),
            only_unmounts(Self::calls_since(o, u1)),
            u2.call_log().len() == u1.call_log().len() + 1,
            u2.call_log().take(u1.call_log().len() as int) == u1.call_log(),
            !(u2.call_log()[u1.call_log().len() as int] is Diff),
            Self::calls_extend(u2, f),
            only_mounts(Self::calls_since(u2, f)),
        ensures
            Self::diffs_within(o, f, allowed),
    {
        let e = Self::calls_since(u1, u2);
        assert(e =~= seq![u2.call_log()[u1.call_log().len() as int]]);
        lemma_single_call(u2.call_log()[u1.call_log().len() as int]);
        Self::lemma_calls_chain(o, u1, u2);
        Self::lemma_calls_chain(o, u2, f);
        lemma_calls_concat(Self::calls_since(o, u1), e);
        lemma_calls_concat(Self::calls_since(o, u2), Self::calls_since(u2, f));
        lemma_no_diffs(Self::calls_since(o, u1));
        lemma_no_diffs(Self::calls_since(u2, f));
        assert(diffed_by(Self::calls_since(o, f)) =~= Set::<PrimitiveId>::empty());
    }

    /// No render since itself.
    #[verifier::spinoff_prover]
    proof fn lemma_renders_refl(s: &Self, allowed: Set<u64>)
        ensures
            Self::renders_within(s, s, allowed),
    {
        lemma_outputs_refl(s.render_outputs(), allowed);
        assert(s.rendered().take(s.rendered().len() as int) =~= s.rendered());
        assert(Self::renders_since(s, s) =~= Seq::<u64>::empty());
    }

    /// Renders stay within a larger set.
    #[verifier::spinoff_prover]
    proof fn lemma_renders_widen(a: &Self, b: &Self, s1: Set<u64>, s2: Set<u64>)
        requires
            Self::renders_within(a, b, s1),
            s1.subset_of(s2),
        ensures
            Self::renders_within(a, b, s2),
    {
        lemma_outputs_widen(a.render_outputs(), b.render_outputs(), s1, s2);
    }

    /// `new` has made the calls of `old` and then some more.
    pub open spec fn calls_extend(old: &Self, new: &Self) -> bool {
        &&& old.call_log().len() <= new.call_log().len()
        &&& new.call_log().take(old.call_log().len() as int) == old.call_log()
    }

    /// The calls `new` made after `old`.
    pub open spec fn calls_since(old: &Self, new: &Self) -> Seq<Call> {
        new.call_log().skip(old.call_log().len() as int)
    }

    /// The calls made going from `old` to `new` remove the primitives of the
    /// nodes that went away, clean up the components among them, and mount the
    /// primitives of the nodes that came, and no others.
    pub open spec fn calls_match(old: &Self, new: &Self) -> bool {
        &&& Self::calls_extend(old, new)
        &&& removed_by(Self::calls_since(old, new)) == primitives_of(
            old.nodes(),
            old.nodes().dom().difference(new.nodes().dom()),
        )
        &&& mounted_by(Self::calls_since(old, new)) == primitives_of(
            new.nodes(),
            new.nodes().dom().difference(old.nodes().dom()),
        )
        &&& destroyed_by(Self::calls_since(old, new)) == components_of(
            old.nodes(),
            old.nodes().dom().difference(new.nodes().dom()),
        )
    }

    /// Two steps whose calls match their changes, where the second leaves alone
    /// what the first touched and adds no node the first state had, match together.
    #[verifier::spinoff_prover]
    proof fn lemma_calls_match_chain(a: &Self, b: &Self, c: &Self)
        requires
            Self::calls_match(a, b),
            Self::calls_match(b, c),
            forall|x: u64|
                #[trigger] b.nodes().contains_key(x) && (!a.nodes().contains_key(x) || b.nodes()[x]
                    != a.nodes()[x]) ==> c.nodes().contains_key(x) && c.nodes()[x] == b.nodes()[x],
            forall|x: u64| #[trigger] c.nodes().contains_key(x) && !b.nodes().contains_key(x) ==> !a.nodes().contains_key(x),
        ensures
            Self::calls_match(a, c),
    {
        let ta = a.nodes();
        let tb = b.nodes();
        let tc = c.nodes();
        Self::lemma_calls_chain(a, b, c);
        lemma_calls_concat(Self::calls_since(a, b), Self::calls_since(b, c));
        let ab = ta.dom().difference(tb.dom());
        let bc = tb.dom().difference(tc.dom());
        let ac = ta.dom().difference(tc.dom());
        assert(ac =~= ab.union(bc)) by {
            assert forall|x: u64| bc.contains(x) implies ta.contains_key(x) by {}
        }
        assert forall|x: u64| #[trigger] bc.contains(x) implies ta.contains_key(x) && tb.contains_key(x) && ta[x] == tb[x] by {}
        lemma_primitives_agree(ta, tb, bc);
        lemma_primitives_union(ta, ab, bc);
        lemma_components_agree(ta, tb, bc);
        lemma_components_union(ta, ab, bc);
        let ba = tb.dom().difference(ta.dom());
        let cb = tc.dom().difference(tb.dom());
        let ca = tc.dom().difference(ta.dom());
        assert(ca =~= ba.union(cb));
        assert forall|x: u64| #[trigger] ba.contains(x) implies tb.contains_key(x) && tc.contains_key(x) && tb[x] == tc[x] by {}
        lemma_primitives_agree(tb, tc, ba);
        lemma_primitives_union(tc, ba, cb);
    }

    /// A step that only removes the nodes `removed`, and the primitives among them.
    #[verifier::spinoff_prover]
    proof fn lemma_removal_matches(old: &Self, new: &Self, removed: Set<u64>)
        requires
            Self::calls_extend(old, new),
            only_unmounts(Self::calls_since(old, new)),
            removed_by(Self::calls_since(old, new)) == primitives_of(old.nodes(), removed),
            destroyed_by(Self::calls_since(old, new)) == components_of(old.nodes(), removed),
            new.nodes() == old.nodes().remove_keys(removed),
            forall|x: u64| #[trigger] removed.contains(x) ==> old.nodes().contains_key(x),
        ensures
            Self::calls_match(old, new),
    {
        let d = Self::calls_since(old, new);
        assert(old.nodes().dom().difference(new.nodes().dom()) =~= removed);
        assert(new.nodes().dom().difference(old.nodes().dom()) =~= Set::<u64>::empty());
        assert(primitives_of(new.nodes(), Set::<u64>::empty()) =~= Set::<PrimitiveId>::empty());
        lemma_kinds(d);
    }

    /// A step that only adds nodes, and mounts the primitives among them.
    #[verifier::spinoff_prover]
    proof fn lemma_addition_matches(old: &Self, new: &Self)
        requires
            Self::calls_extend(old, new),
            only_mounts(Self::calls_since(old, new)),
            mounted_by(Self::calls_since(old, new)) == primitives_of(new.nodes(), Self::fresh_nodes(old, new)),
            old.nodes().submap_of(new.nodes()),
        ensures
            Self::calls_match(old, new),
    {
        let d = Self::calls_since(old, new);
        assert(old.nodes().dom().difference(new.nodes().dom()) =~= Set::<u64>::empty());
        assert(primitives_of(old.nodes(), Set::<u64>::empty()) =~= Set::<PrimitiveId>::empty());
        lemma_kinds(d);
        assert(components_of(old.nodes(), Set::<u64>::empty()) =~= Set::<u64>::empty());
    }

    /// A state made no calls since itself.
    #[verifier::spinoff_prover]
    proof fn lemma_calls_match_refl(s: &Self)
        ensures
            Self::calls_match(s, s),
    {
        assert(s.call_log().take(s.call_log().len() as int) =~= s.call_log());
        assert(Self::calls_since(s, s) =~= Seq::<Call>::empty());
        assert(removed_by(Seq::<Call>::empty()) =~= Set::<PrimitiveId>::empty());
        assert(mounted_by(Seq::<Call>::empty()) =~= Set::<PrimitiveId>::empty());
        assert(destroyed_by(Seq::<Call>::empty()) =~= Set::<u64>::empty());
        assert(s.nodes().dom().difference(s.nodes().dom()) =~= Set::<u64>::empty());
        assert(primitives_of(s.nodes(), Set::<u64>::empty()) =~= Set::<PrimitiveId>::empty());
        assert(components_of(s.nodes(), Set::<u64>::empty()) =~= Set::<u64>::empty());
    }

    /// One more step of a reconciliation, which changes only nodes of `ci` and
    /// adds new ones, none of them touched before: the calls still match.
    #[verifier::spinoff_prover]
    proof fn lemma_step_matches(old: &Self, before: &Self, post: &Self, changed: Set<u64>, ci: Set<u64>)
        requires
            old.inv(),
            Self::calls_match(old, before),
            Self::calls_match(before, post),
            Self::progress(old, before),
            forall|n: u64|
                #[trigger] old.nodes().contains_key(n) && !changed.contains(n) ==> before.nodes().contains_key(n)
                    && before.nodes()[n] == old.nodes()[n],
            forall|n: u64|
                #[trigger] before.nodes().contains_key(n) && !ci.contains(n) ==> post.nodes().contains_key(n)
                    && post.nodes()[n] == before.nodes()[n],
            forall|n: u64|
                #[trigger] post.nodes().contains_key(n) && !before.nodes().contains_key(n) ==> before.next_id() <= n,
            forall|x: u64| #[trigger] ci.contains(x) ==> !Self::touched(old, before, changed).contains(x),
        ensures
            Self::calls_match(old, post),
    {
        assert forall|x: u64|
            #[trigger] before.nodes().contains_key(x) && (!old.nodes().contains_key(x) || before.nodes()[x]
                != old.nodes()[x]) implies post.nodes().contains_key(x) && post.nodes()[x] == before.nodes()[x] by {
            assert(Self::touched(old, before, changed).contains(x));
        }
        assert forall|x: u64| #[trigger] post.nodes().contains_key(x) && !before.nodes().contains_key(x) implies !old.nodes().contains_key(x) by {
            assert(old.next_id() <= x);
        }
        Self::lemma_calls_match_chain(old, before, post);
    }

    /// A node taken out, calls that neither remove nor mount, a step whose calls
    /// match, and the node put back: the calls match the whole.
    #[verifier::spinoff_prover]
    proof fn lemma_reinsert_matches(o: &Self, m: &Self, r: &Self, f: &Self, id: u64, pre: Seq<Call>)
        requires
            o.nodes().contains_key(id),
            m.nodes() == o.nodes().remove(id),
            m.call_log() == o.call_log() + pre,
            removed_by(pre) == Set::<PrimitiveId>::empty(),
            mounted_by(pre) == Set::<PrimitiveId>::empty(),
            destroyed_by(pre) == Set::<u64>::empty(),
            Self::calls_match(m, r),
            !r.nodes().contains_key(id),
            f.nodes() == r.nodes().insert(id, f.nodes()[id]),
            f.call_log() == r.call_log(),
        ensures
            Self::calls_match(o, f),
    {
        let lo = o.call_log().len() as int;
        let lm = m.call_log().len() as int;
        assert forall|k: int| 0 <= k < lo implies f.call_log()[k] == o.call_log()[k] by {
            assert(r.call_log().take(lm)[k] == r.call_log()[k]);
            assert(m.call_log()[k] == o.call_log()[k]);
        }
        assert(f.call_log().take(lo) =~= o.call_log());
        let dr = Self::calls_since(m, r);
        assert(lm == lo + pre.len());
        let cs = Self::calls_since(o, f);
        assert(cs.len() == (pre + dr).len());
        assert forall|k: int| 0 <= k < cs.len() implies #[trigger] cs[k] == (pre + dr)[k] by {
            if k < pre.len() {
                assert(r.call_log().take(lm)[lo + k] == r.call_log()[lo + k]);
                assert(m.call_log()[lo + k] == pre[k]);
            } else {
                assert(dr[k - pre.len()] == r.call_log()[lm + k - pre.len()]);
            }
        }
        assert(cs =~= pre + dr);
        lemma_calls_concat(pre, dr);
        assert(removed_by(pre).union(removed_by(dr)) =~= removed_by(dr));
        assert(mounted_by(pre).union(mounted_by(dr)) =~= mounted_by(dr));
        assert(destroyed_by(pre).union(destroyed_by(dr)) =~= destroyed_by(dr));
        let gone = m.nodes().dom().difference(r.nodes().dom());
        let came = r.nodes().dom().difference(m.nodes().dom());
        assert(o.nodes().dom().difference(f.nodes().dom()) =~= gone);
        assert(f.nodes().dom().difference(o.nodes().dom()) =~= came);
        assert forall|x: u64| #[trigger] gone.contains(x) implies m.nodes().contains_key(x) && o.nodes().contains_key(x)
            && m.nodes()[x] == o.nodes()[x] by {}
        lemma_primitives_agree(m.nodes(), o.nodes(), gone);
        lemma_components_agree(m.nodes(), o.nodes(), gone);
        assert forall|x: u64| #[trigger] came.contains(x) implies r.nodes().contains_key(x) && f.nodes().contains_key(x)
            && r.nodes()[x] == f.nodes()[x] by {
            assert(x != id);
        }
        lemma_primitives_agree(r.nodes(), f.nodes(), came);
    }

    /// A node taken out, everything below it unmounted, its own primitive removed
    /// by the calls `pre`, and an element mounted in its place: the calls match
    /// the whole.
    #[verifier::spinoff_prover]
    proof fn lemma_replace_matches(
        o: &Self,
        m: &Self,
        u1: &Self,
        u2: &Self,
        f: &Self,
        id: u64,
        below: Set<u64>,
        pre: Seq<Call>,
    )
        requires
            o.inv(),
            o.nodes().contains_key(id),
            m.nodes() == o.nodes().remove(id),
            m.call_log() == o.call_log(),
            Self::calls_extend(m, u1),
            only_unmounts(Self::calls_since(m, u1)),
            removed_by(Self::calls_since(m, u1)) == primitives_of(m.nodes(), below),
            destroyed_by(Self::calls_since(m, u1)) == components_of(m.nodes(), below),
            u1.nodes() == m.nodes().remove_keys(below),
            forall|x: u64| #[trigger] below.contains(x) ==> m.nodes().contains_key(x),
            u2.nodes() == u1.nodes(),
            u2.call_log() == u1.call_log() + pre,
            only_unmounts(pre),
            removed_by(pre) == primitives_of(o.nodes(), set![id]),
            destroyed_by(pre) == components_of(o.nodes(), set![id]),
            Self::calls_match(u2, f),
            forall|x: u64| #[trigger] f.nodes().contains_key(x) && !u2.nodes().contains_key(x) ==> o.next_id() <= x,
        ensures
            Self::calls_match(o, f),
    {
        assert(u2.call_log().take(u1.call_log().len() as int) =~= u1.call_log());
        assert(Self::calls_since(u1, u2) =~= pre);
        Self::lemma_calls_chain(m, u1, u2);
        assert(Self::calls_since(o, u2) == Self::calls_since(m, u2));
        lemma_calls_concat(Self::calls_since(m, u1), pre);
        let all = below.insert(id);
        assert forall|x: u64| #[trigger] below.contains(x) implies m.nodes().contains_key(x) && o.nodes().contains_key(x)
            && m.nodes()[x] == o.nodes()[x] by {}
        lemma_primitives_agree(m.nodes(), o.nodes(), below);
        lemma_primitives_union(o.nodes(), below, set![id]);
        lemma_components_agree(m.nodes(), o.nodes(), below);
        lemma_components_union(o.nodes(), below, set![id]);
        assert(below.union(set![id]) =~= all);
        assert(u2.nodes() =~= o.nodes().remove_keys(all));
        Self::lemma_removal_matches(o, u2, all);
        assert forall|x: u64| #[trigger] f.nodes().contains_key(x) && !u2.nodes().contains_key(x) implies !o.nodes().contains_key(x) by {
            assert(o.next_id() <= x);
        }
        Self::lemma_calls_match_chain(o, u2, f);
    }

    /// A component node taken out, everything below it unmounted, the component
    /// cleaned up, and an element mounted in its place: the calls match the whole.
    #[verifier::spinoff_prover]
    proof fn lemma_component_replace_matches(
        o: &Self,
        m: &Self,
        u1: &Self,
        u2: &Self,
        f: &Self,
        id: u64,
        below: Set<u64>,
    )
        requires
            o.inv(),
            o.nodes().contains_key(id),
            o.nodes()[id].inner is Component,
            m.nodes() == o.nodes().remove(id),
            m.call_log() == o.call_log(),
            Self::calls_extend(m, u1),
            only_unmounts(Self::calls_since(m, u1)),
            removed_by(Self::calls_since(m, u1)) == primitives_of(m.nodes(), below),
            destroyed_by(Self::calls_since(m, u1)) == components_of(m.nodes(), below),
            u1.nodes() == m.nodes().remove_keys(below),
            forall|x: u64| #[trigger] below.contains(x) ==> m.nodes().contains_key(x),
            u2.nodes() == u1.nodes(),
            u2.call_log() == u1.call_log().push(Call::Destroy(id)),
            Self::calls_extend(u2, f),
            only_mounts(Self::calls_since(u2, f)),
            mounted_by(Self::calls_since(u2, f)) == primitives_of(f.nodes(), Self::fresh_nodes(u2, f)),
            u2.nodes().submap_of(f.nodes()),
            forall|x: u64| #[trigger] f.nodes().contains_key(x) && !u2.nodes().contains_key(x) ==> o.next_id() <= x,
        ensures
            Self::calls_match(o, f),
    {
        let pre = seq![Call::Destroy(id)];
        assert(u2.call_log() =~= u1.call_log() + pre);
        lemma_single_call(Call::Destroy(id));
        lemma_primitives_single(o.nodes(), id);
        assert(components_of(o.nodes(), set![id]) =~= set![id]);
        Self::lemma_addition_matches(u2, f);
        Self::lemma_replace_matches(o, m, u1, u2, f, id, below, pre);
    }

    /// Calls made in two steps are the calls of the first step, then those of the second.
    /// Calls that mount nothing, then a mount: every removal and clean-up
    /// comes before every mount.
    #[verifier::spinoff_prover]
    proof fn lemma_replace_order(o: &Self, u1: &Self, u2: &Self, f: &Self, c: Call)
        requires
            Self::calls_extend(o, u1),
            no_mounts(Self::calls_since(o, u1)),
            u2.call_log() == u1.call_log().push(c),
            !(c is Mount),
            Self::calls_extend(u2, f),
            only_mounts(Self::calls_since(u2, f)),
        ensures
            removals_before_mounts(Self::calls_since(o, f)),
    {
        assert(u2.call_log().take(u1.call_log().len() as int) =~= u1.call_log());
        assert(Self::calls_since(u1, u2) =~= seq![c]);
        Self::lemma_calls_chain(o, u1, u2);
        lemma_single_call(c);
        lemma_no_mounts_concat(Self::calls_since(o, u1), seq![c]);
        Self::lemma_calls_chain(o, u2, f);
        lemma_removals_before_mounts(Self::calls_since(o, u2), Self::calls_since(u2, f));
    }

    /// The calls made since a later state are among those made since an earlier one.
    #[verifier::spinoff_prover]
    proof fn lemma_calls_suffix(a: &Self, b: &Self, c: &Self)
        requires
            Self::calls_extend(a, c),
            Self::calls_extend(b, c),
            a.call_log().len() <= b.call_log().len(),
        ensures
            calls_within(Self::calls_since(b, c), Self::calls_since(a, c)),
    {
        let la = a.call_log().len() as int;
        let lb = b.call_log().len() as int;
        assert forall|x: Call| #[trigger] Self::calls_since(b, c).contains(x) implies Self::calls_since(a, c).contains(x) by {
            let k = choose|k: int| 0 <= k < Self::calls_since(b, c).len() && Self::calls_since(b, c)[k] == x;
            assert(Self::calls_since(a, c)[lb - la + k] == x);
        }
    }

    #[verifier::spinoff_prover]
    proof fn lemma_calls_chain(a: &Self, b: &Self, c: &Self)
        requires
            Self::calls_extend(a, b),
            Self::calls_extend(b, c),
        ensures
            Self::calls_extend(a, c),
            Self::calls_since(a, c) == Self::calls_since(a, b) + Self::calls_since(b, c),
    {
        let la = a.call_log().len() as int;
        let lb = b.call_log().len() as int;
        assert forall|k: int| 0 <= k < la implies c.call_log()[k] == a.call_log()[k] by {
            assert(c.call_log().take(lb)[k] == c.call_log()[k]);
            assert(b.call_log().take(la)[k] == b.call_log()[k]);
        }
        assert(c.call_log().take(la) =~= a.call_log());
        assert forall|k: int| la <= k < lb implies #[trigger] c.call_log()[k] == b.call_log()[k] by {
            assert(c.call_log().take(lb)[k] == c.call_log()[k]);
        }
        assert(Self::calls_since(a, c) =~= Self::calls_since(a, b) + Self::calls_since(b, c));
    }

    /// The invariant of a context that still works.
    pub open spec fn inv(&self) -> bool {
        &&& tree_wf(self.nodes(), self.parents(), self.next_id(), self.holes())
        &&& forall|p: u64| #[trigger] self.nodes().contains_key(p) ==> p < self.next_id()
        &&& forall|k: u64|
            #[trigger] self.parents().contains_key(k) ==> k < self.next_id() && self.parents()[k] < k
        &&& forall|h: u64| #[trigger] self.holes().contains(h) ==> h < self.next_id()
        &&& forall|r: u64|
            #[trigger] self.root_ids().contains(r) ==> (self.nodes().contains_key(r)
                || self.holes().contains(r)) && !self.parents().contains_key(r)
    }

    /// A context is sound: a working one keeps its invariant with no node taken out.
    pub open spec fn wf(&self) -> bool {
        self.is_exhausted() || (self.inv() && self.holes() == Set::<u64>::empty())
    }

    /// Counters only grow, and the tree grows by at most one node per id handed out.
    pub open spec fn progress(old: &Self, new: &Self) -> bool {
        &&& old.next_id() <= new.next_id()
        &&& new.nodes().len() + old.next_id() <= old.nodes().len() + new.next_id()
        &&& new.holes() == old.holes()
        &&& new.root_ids() == old.root_ids()
        &&& new.is_exhausted() == old.is_exhausted()
    }

    #[verifier::spinoff_prover]
    fn allocate(&mut self) -> (r: Result<u64, ContextError>)
        ensures
            final(self).applied_updates() == old(self).applied_updates(),
            final(self).taken_updates() == old(self).taken_updates(),
            match r {
                Ok(id) => {
                    &&& id == old(self).next_id()
                    &&& final(self).next_id() == old(self).next_id() + 1
                },
                Err(e) => {
                    &&& e == ContextError::IdsExhausted
                    &&& final(self).next_id() == old(self).next_id()
                    &&& old(self).next_id() == u64::MAX
                },
            },
            final(self).nodes() == old(self).nodes(),
            final(self).parents() == old(self).parents(),
            final(self).holes() == old(self).holes(),
            final(self).root_ids() == old(self).root_ids(),
            final(self).is_exhausted() == old(self).is_exhausted(),
            final(self).call_log() == old(self).call_log(),
            final(self).rendered() == old(self).rendered(),
            final(self).render_outputs() == old(self).render_outputs(),
    {
        if self.counter == u64::MAX {
            return Err(ContextError::IdsExhausted);
        }
        let id = self.counter;
        self.counter = self.counter + 1;
        Ok(id)
    }

    /// `new` is `old` with more calls recorded and nothing else changed.
    pub open spec fn same_but_calls(old: &Self, new: &Self) -> bool {
        &&& new.nodes() == old.nodes()
        &&& new.parents() == old.parents()
        &&& new.next_id() == old.next_id()
        &&& new.holes() == old.holes()
        &&& new.root_ids() == old.root_ids()
        &&& new.is_exhausted() == old.is_exhausted()
        &&& new.rendered() == old.rendered()
        &&& new.render_outputs() == old.render_outputs()
        &&& new.applied_updates() == old.applied_updates()
        &&& new.taken_updates() == old.taken_updates()
    }

    /// Looks how many updates wait in the queue, and records what it saw.
    #[verifier::spinoff_prover]
    fn waiting(&mut self) -> (n: usize)
        ensures
            Self::same_but_calls(old(self), final(self)),
            final(self).call_log() == old(self).call_log(),
            final(self).batch_rounds() == old(self).batch_rounds(),
            final(self).last_seen_waiting() == n,
    {
        let n = queue_len(&self.rx);
        proof {
            self.seen@ = n as nat;
        }
        n
    }

    /// Takes the next update waiting in the queue, if there is one, and records
    /// the target and slot its envelope carries.
    #[verifier::spinoff_prover]
    fn take_next(&mut self) -> (r: Option<Envelope<H::Update>>)
        ensures
            final(self).nodes() == old(self).nodes(),
            final(self).parents() == old(self).parents(),
            final(self).next_id() == old(self).next_id(),
            final(self).holes() == old(self).holes(),
            final(self).root_ids() == old(self).root_ids(),
            final(self).is_exhausted() == old(self).is_exhausted(),
            final(self).rendered() == old(self).rendered(),
            final(self).render_outputs() == old(self).render_outputs(),
            final(self).applied_updates() == old(self).applied_updates(),
            final(self).call_log() == old(self).call_log(),
            final(self).taken_updates() == match r {
                Some(env) => old(self).taken_updates().push((env.target.0, env.slot)),
                None => old(self).taken_updates(),
            },
            final(self).found_empty() == r is None,
            final(self).last_seen_waiting() == old(self).last_seen_waiting(),
    {
        let r = queue_try_take(&self.rx);
        proof {
            if r is Some {
                self.taken@ = self.taken@.push((r->0.target.0, r->0.slot));
            }
            self.dry@ = r is None;
        }
        r
    }

    /// Renders a component for the first time, under `id`, and records that it
    /// rendered and what it gave back.
    #[verifier::spinoff_prover]
    fn render_new(&mut self, id: u64, template: H::Template) -> (r: (H::State, Vec<Element<H::Template>>))
        ensures
            final(self).nodes() == old(self).nodes(),
            final(self).parents() == old(self).parents(),
            final(self).next_id() == old(self).next_id(),
            final(self).holes() == old(self).holes(),
            final(self).root_ids() == old(self).root_ids(),
            final(self).is_exhausted() == old(self).is_exhausted(),
            final(self).applied_updates() == old(self).applied_updates(),
            final(self).taken_updates() == old(self).taken_updates(),
            final(self).call_log() == old(self).call_log(),
            final(self).rendered() == old(self).rendered().push(id),
            final(self).render_outputs() == old(self).render_outputs().insert(id, r.1@),
    {
        let (state, out) = H::render_first(MountedId(id), template, &self.tx);
        proof {
            self.renders@ = self.renders@.push(id);
            self.outputs@ = self.outputs@.insert(id, out@);
        }
        (state, out)
    }

    /// Renders the component `id` again and records that it rendered and what
    /// it gave back.
    #[verifier::spinoff_prover]
    fn render_again(&mut self, id: u64, state: &mut H::State) -> (r: Vec<Element<H::Template>>)
        ensures
            final(self).nodes() == old(self).nodes(),
            final(self).parents() == old(self).parents(),
            final(self).next_id() == old(self).next_id(),
            final(self).holes() == old(self).holes(),
            final(self).root_ids() == old(self).root_ids(),
            final(self).is_exhausted() == old(self).is_exhausted(),
            final(self).applied_updates() == old(self).applied_updates(),
            final(self).taken_updates() == old(self).taken_updates(),
            final(self).call_log() == old(self).call_log(),
            final(self).rendered() == old(self).rendered().push(id),
            final(self).render_outputs() == old(self).render_outputs().insert(id, r@),
    {
        let out = H::render_update(MountedId(id), state, &self.tx);
        proof {
            self.renders@ = self.renders@.push(id);
            self.outputs@ = self.outputs@.insert(id, out@);
        }
        out
    }

    /// Runs the clean-up of the component `id`, which is out of the tree, and
    /// records it.
    #[verifier::spinoff_prover]
    fn destroy_component(&mut self, id: u64, state: H::State)
        ensures
            Self::same_but_calls(old(self), final(self)),
            final(self).call_log() == old(self).call_log().push(Call::Destroy(id)),
    {
        H::destroy(state);
        proof {
            self.calls@ = self.calls@.push(Call::Destroy(id));
        }
    }

    /// Mounts a primitive on the `Dom`, below `parent` where there is one, and
    /// records the call.
    #[verifier::spinoff_prover]
    fn dom_mount<D: Dom>(&mut self, dom: &mut D, p: Primitive, parent: Option<PrimitiveId>) -> (pid: PrimitiveId)
        ensures
            Self::same_but_calls(old(self), final(self)),
            final(self).call_log() == old(self).call_log().push(Call::Mount(pid, p, parent)),
    {
        let ghost gp = p;
        let pid = dom.mount_as_child(p, parent);
        proof {
            self.calls@ = self.calls@.push(Call::Mount(pid, gp, parent));
        }
        pid
    }

    /// Gives a mounted primitive new content on the `Dom` and records the call.
    #[verifier::spinoff_prover]
    fn dom_diff<D: Dom>(&mut self, dom: &mut D, pid: PrimitiveId, p: Primitive)
        ensures
            Self::same_but_calls(old(self), final(self)),
            final(self).call_log() == old(self).call_log().push(Call::Diff(pid, p)),
    {
        let ghost gp = p;
        dom.diff_primitive(pid, p);
        proof {
            self.calls@ = self.calls@.push(Call::Diff(pid, gp));
        }
    }

    /// Announces the children of a primitive to the `Dom`, records the call,
    /// and gives the parent the `Dom` names for them.
    #[verifier::spinoff_prover]
    fn dom_sub_list<D: Dom>(&mut self, dom: &mut D, pid: PrimitiveId) -> (q: PrimitiveId)
        ensures
            Self::same_but_calls(old(self), final(self)),
            final(self).call_log() == old(self).call_log().push(Call::SubList(pid, q)),
    {
        let q = dom.get_sub_list(pid);
        proof {
            self.calls@ = self.calls@.push(Call::SubList(pid, q));
        }
        q
    }

    /// Removes a mounted primitive from the `Dom` and records the call.
    #[verifier::spinoff_prover]
    fn dom_remove<D: Dom>(&mut self, dom: &mut D, pid: PrimitiveId)
        ensures
            Self::same_but_calls(old(self), final(self)),
            final(self).call_log() == old(self).call_log().push(Call::Remove(pid)),
    {
        dom.remove(pid);
        proof {
            self.calls@ = self.calls@.push(Call::Remove(pid));
        }
    }

    /// Opens a batch of changes on the `Dom` and records the call.
    #[verifier::spinoff_prover]
    fn dom_start<D: Dom>(&mut self, dom: &mut D)
        ensures
            Self::same_but_calls(old(self), final(self)),
            final(self).batch_rounds() == old(self).batch_rounds(),
            final(self).last_seen_waiting() == old(self).last_seen_waiting(),
            final(self).call_log() == old(self).call_log().push(Call::Start),
    {
        dom.start();
        proof {
            self.calls@ = self.calls@.push(Call::Start);
        }
    }

    /// Closes a batch of changes on the `Dom` and records the call.
    #[verifier::spinoff_prover]
    fn dom_commit<D: Dom>(&mut self, dom: &mut D)
        ensures
            Self::same_but_calls(old(self), final(self)),
            final(self).batch_rounds() == old(self).batch_rounds(),
            final(self).last_seen_waiting() == old(self).last_seen_waiting(),
            final(self).call_log() == old(self).call_log().push(Call::Commit),
    {
        dom.commit();
        proof {
            self.calls@ = self.calls@.push(Call::Commit);
        }
    }

    /// Runs the effects the last render of the component `id`, which is out of
    /// the tree, asked for, and records it.
    #[verifier::spinoff_prover]
    fn run_effects(&mut self, id: u64, state: &mut H::State)
        ensures
            Self::same_but_calls(old(self), final(self)),
            final(self).call_log() == old(self).call_log().push(Call::Effects(id)),
    {
        H::flush_effects(state);
        proof {
            self.calls@ = self.calls@.push(Call::Effects(id));
        }
    }

    /// Asks the runtime whether a template holds the same function as the
    /// mounted component `id`, and, only if so, whether the component may skip
    /// rendering for it; records the answers.
    #[verifier::spinoff_prover]
    fn compare_component(&mut self, id: u64, state: &H::State, template: &H::Template) -> (r: (bool, bool))
        ensures
            Self::same_but_calls(old(self), final(self)),
            final(self).call_log() == old(self).call_log().push(Call::Compared(id, r.0, r.1)),
            !r.0 ==> !r.1,
    {
        let same = H::same_function(state, template);
        let memo = if same {
            H::use_memoized(state, template)
        } else {
            false
        };
        proof {
            self.calls@ = self.calls@.push(Call::Compared(id, same, memo));
        }
        (same, memo)
    }

    /// Between `old` and `new` the runtime was asked about the component `c`,
    /// `c` stayed exactly when it answered "same function" (`kept`), and `c`
    /// rendered again when it also answered that `c` may not skip rendering.
    pub open spec fn answered(old: &Self, new: &Self, c: u64, kept: bool) -> bool {
        exists|same: bool, m: bool|
            #[trigger] Self::calls_since(old, new).contains(Call::Compared(c, same, m)) && same == kept && (same
                && !m ==> Self::renders_since(old, new).contains(c))
    }

    /// What `diff` states of a component meeting a template: the runtime was
    /// asked about it.
    #[verifier::spinoff_prover]
    proof fn lemma_answered_first(b: &Self, c: &Self, x: u64, kept: bool)
        requires
            Self::calls_since(b, c).len() >= 1,
            Self::calls_since(b, c)[0] matches Call::Compared(y, same, memo) && y == x && same == kept && (same
                && !memo ==> Self::renders_since(b, c).len() >= 1 && Self::renders_since(b, c)[0] == x),
        ensures
            Self::answered(b, c, x, kept),
    {
        let d = Self::calls_since(b, c);
        let same = d[0]->Compared_1;
        let m = d[0]->Compared_2;
        assert(d.contains(Call::Compared(x, same, m)));
        if same && !m {
            assert(Self::renders_since(b, c).contains(x));
        }
    }

    /// An answer recorded over a step stays recorded over a longer run that
    /// holds the step.
    #[verifier::spinoff_prover]
    proof fn lemma_answered_lift(a: &Self, b: &Self, c: &Self, d: &Self, x: u64, kept: bool)
        requires
            Self::answered(b, c, x, kept),
            Self::calls_extend(a, b),
            Self::calls_extend(b, c),
            Self::calls_extend(c, d),
            Self::renders_extend(a, b),
            Self::renders_extend(b, c),
            Self::renders_extend(c, d),
        ensures
            Self::answered(a, d, x, kept),
    {
        let (same, m) = choose|same: bool, m: bool|
            #[trigger] Self::calls_since(b, c).contains(Call::Compared(x, same, m)) && same == kept && (same && !m
                ==> Self::renders_since(b, c).contains(x));
        Self::lemma_calls_chain(a, b, c);
        Self::lemma_calls_chain(a, c, d);
        lemma_calls_concat(Self::calls_since(a, b), Self::calls_since(b, c));
        lemma_calls_concat(Self::calls_since(a, c), Self::calls_since(c, d));
        assert(Self::calls_since(a, d).contains(Call::Compared(x, same, m)));
        Self::lemma_renders_concat(a, b, c);
        Self::lemma_renders_concat(a, c, d);
        if same && !m {
            let rb = Self::renders_since(b, c);
            let k = choose|k: int| 0 <= k < rb.len() && rb[k] == x;
            assert(Self::renders_since(a, c)[Self::renders_since(a, b).len() + k] == x);
            assert(Self::renders_since(a, d)[Self::renders_since(a, b).len() + k] == x);
        }
    }

    /// A run and itself made no calls and rendered nothing in between.
    #[verifier::spinoff_prover]
    proof fn lemma_extend_refl(a: &Self)
        ensures
            Self::calls_extend(a, a),
            Self::renders_extend(a, a),
    {
        assert(a.call_log().take(a.call_log().len() as int) =~= a.call_log());
        assert(a.rendered().take(a.rendered().len() as int) =~= a.rendered());
    }

    /// Updates handed out in two steps extend over both.
    #[verifier::spinoff_prover]
    proof fn lemma_updates_chain(a: &Self, b: &Self, c: &Self)
        requires
            Self::updates_extend(a, b),
            Self::updates_extend(b, c),
        ensures
            Self::updates_extend(a, c),
    {
        let la = a.applied_updates().len() as int;
        let lb = b.applied_updates().len() as int;
        assert forall|k: int| 0 <= k < la implies c.applied_updates().take(la)[k] == a.applied_updates()[k] by {
            assert(c.applied_updates().take(lb)[k] == c.applied_updates()[k]);
            assert(b.applied_updates().take(la)[k] == b.applied_updates()[k]);
        }
        assert(c.applied_updates().take(la) =~= a.applied_updates());
    }

    /// Two steps that each applied exactly the updates they took: together they
    /// applied exactly the updates they took.
    #[verifier::spinoff_prover]
    proof fn lemma_logs_step(a: &Self, b: &Self, c: &Self)
        requires
            Self::updates_extend(a, b),
            Self::updates_extend(b, c),
            Self::takes_extend(a, b),
            Self::takes_extend(b, c),
            Self::updates_since(a, b) == Self::taken_since(a, b),
            Self::updates_since(b, c) == Self::taken_since(b, c),
        ensures
            Self::takes_extend(a, c),
            Self::updates_since(a, c) == Self::taken_since(a, c),
    {
        lemma_prefix_chain(a.applied_updates(), b.applied_updates(), c.applied_updates());
        lemma_prefix_chain(a.taken_updates(), b.taken_updates(), c.taken_updates());
    }

    /// What a state handed out stays at the front of what a later state handed out.
    #[verifier::spinoff_prover]
    proof fn lemma_updates_prefix(a: &Self, b: &Self)
        requires
            Self::updates_extend(a, b),
        ensures
            forall|k: int| 0 <= k < a.applied_updates().len() ==> #[trigger] b.applied_updates()[k] == a.applied_updates()[k],
    {
        assert forall|k: int| 0 <= k < a.applied_updates().len() implies #[trigger] b.applied_updates()[k] == a.applied_updates()[k] by {
            assert(b.applied_updates().take(a.applied_updates().len() as int)[k] == b.applied_updates()[k]);
        }
    }

    /// A round of `process_messages`: every target was rendered again, or lies
    /// below a target that was.
    #[verifier::spinoff_prover]
    proof fn lemma_round_covered(mid: &Self, post: &Self, targets: Seq<u64>)
        requires
            mid.inv(),
            forall|k: int|
                0 <= k < targets.len() ==> mid.nodes().contains_key(#[trigger] targets[k])
                    && mid.nodes()[targets[k]].inner is Component,
            forall|x: u64|
                #[trigger] rerender_roots(mid.nodes(), targets).contains(x) && mid.nodes()[x].inner is Component
                    ==> Self::renders_since(mid, post).contains(x),
        ensures
            round_covered(mid.nodes(), targets, Self::renders_since(mid, post)),
    {
        let t = mid.nodes();
        assert forall|k: int| 0 <= k < targets.len() implies reached(
            t,
            targets,
            Self::renders_since(mid, post),
            #[trigger] targets[k],
        ) by {
            let x = targets[k];
            assert(targets.contains(x));
            lemma_rerender_roots_cover(t, mid.parents(), mid.next_id(), mid.holes(), targets, x);
            if rerender_roots(t, targets).contains(x) {
                assert(Self::renders_since(mid, post).contains(x));
                assert(x == targets[k]);
            } else {
                let r = choose|r: u64| rerender_roots(t, targets).contains(r) && #[trigger] descends(t, r, x);
                let j = choose|j: int| 0 <= j < targets.len() && targets[j] == r;
                assert(t[targets[j]].inner is Component);
                assert(Self::renders_since(mid, post).contains(r));
            }
        }
        assert(round_covered(t, targets, Self::renders_since(mid, post)));
    }

    /// The answers recorded for the paired children stay recorded while the
    /// run goes on.
    #[verifier::spinoff_prover]
    proof fn lemma_answers_kept(
        o: &Self,
        b: &Self,
        f: &Self,
        children: Seq<u64>,
        elements: Seq<Element<H::Template>>,
        out: Seq<u64>,
    )
        requires
            forall|k: int|
                #![trigger out[k]]
                0 <= k < out.len() && o.nodes()[children[k]].inner is Component && elements[k].0 is Component
                    ==> Self::answered(o, b, children[k], out[k] == children[k]),
            Self::calls_extend(o, b),
            Self::calls_extend(b, f),
            Self::renders_extend(o, b),
            Self::renders_extend(b, f),
        ensures
            forall|k: int|
                #![trigger out[k]]
                0 <= k < out.len() && o.nodes()[children[k]].inner is Component && elements[k].0 is Component
                    ==> Self::answered(o, f, children[k], out[k] == children[k]),
    {
        Self::lemma_extend_refl(o);
        assert forall|k: int|
            #![trigger out[k]]
            0 <= k < out.len() && o.nodes()[children[k]].inner is Component && elements[k].0 is Component implies Self::answered(
            o,
            f,
            children[k],
            out[k] == children[k],
        ) by {
            Self::lemma_answered_lift(o, o, b, f, children[k], out[k] == children[k]);
        }
    }

    /// One more child paired with a component: the runtime's answer for it is
    /// recorded beside those of the children before it.
    #[verifier::spinoff_prover]
    proof fn lemma_answers_step(
        o: &Self,
        b: &Self,
        m: &Self,
        f: &Self,
        children: Seq<u64>,
        elements: Seq<Element<H::Template>>,
        prev: Seq<u64>,
        nid: u64,
    )
        requires
            prev.len() < children.len(),
            prev.len() < elements.len(),
            forall|k: int|
                #![trigger prev[k]]
                0 <= k < prev.len() && o.nodes()[children[k]].inner is Component && elements[k].0 is Component
                    ==> Self::answered(o, b, children[k], prev[k] == children[k]),
            o.nodes()[children[prev.len() as int]].inner is Component && elements[prev.len() as int].0 is Component ==> {
                &&& Self::calls_since(b, m).len() >= 1
                &&& Self::calls_since(b, m)[0] matches Call::Compared(y, same, memo)
                &&& y == children[prev.len() as int]
                &&& same == (nid == children[prev.len() as int])
                &&& same && !memo ==> Self::renders_since(b, m).len() >= 1 && Self::renders_since(b, m)[0]
                    == children[prev.len() as int]
            },
            Self::calls_extend(o, b),
            Self::calls_extend(b, m),
            Self::renders_extend(o, b),
            Self::renders_extend(b, m),
            f.call_log() == m.call_log(),
            f.rendered() == m.rendered(),
        ensures
            forall|k: int|
                #![trigger prev.push(nid)[k]]
                0 <= k < prev.len() + 1 && o.nodes()[children[k]].inner is Component && elements[k].0 is Component
                    ==> Self::answered(o, f, children[k], prev.push(nid)[k] == children[k]),
    {
        Self::lemma_extend_refl(o);
        Self::lemma_extend_refl(m);
        let out = prev.push(nid);
        let c = children[prev.len() as int];
        assert forall|k: int|
            #![trigger out[k]]
            0 <= k < prev.len() + 1 && o.nodes()[children[k]].inner is Component && elements[k].0 is Component implies Self::answered(
            o,
            f,
            children[k],
            out[k] == children[k],
        ) by {
            if k < prev.len() {
                assert(out[k] == prev[k]);
                Self::lemma_answered_lift(o, o, b, f, children[k], out[k] == children[k]);
            } else {
                assert(out[k] == nid);
                Self::lemma_answered_first(b, m, c, nid == c);
                Self::lemma_answered_lift(o, b, m, f, c, nid == c);
            }
        }
    }

    /// A question to the runtime changes no node, render or effect: what the
    /// calls made after it show, the calls made since just before it show too.
    #[verifier::spinoff_prover]
    proof fn lemma_compared_first(o: &Self, o2: &Self, f: &Self, allowed: Set<u64>, ch: Set<u64>, c: Call)
        requires
            c is Compared,
            o2.nodes() == o.nodes(),
            o2.rendered() == o.rendered(),
            o2.render_outputs() == o.render_outputs(),
            o2.call_log() == o.call_log().push(c),
            Self::calls_extend(o2, f),
        ensures
            Self::calls_extend(o, f),
            Self::calls_since(o, f) == seq![c] + Self::calls_since(o2, f),
            Self::calls_match(o2, f) ==> Self::calls_match(o, f),
            Self::renders_within(o2, f, allowed) ==> Self::renders_within(o, f, allowed),
            Self::renders_since(o, f) == Self::renders_since(o2, f),
            Self::effects_follow(o2, f) ==> Self::effects_follow(o, f),
            Self::diffs_within(o2, f, allowed) ==> Self::diffs_within(o, f, allowed),
            Self::touched(o2, f, ch) == Self::touched(o, f, ch),
    {
        let lo = o.call_log().len() as int;
        assert(f.call_log().take(lo + 1)[lo] == c);
        assert(f.call_log().take(lo) =~= f.call_log().take(lo + 1).take(lo));
        assert(o2.call_log().take(lo) =~= o.call_log());
        assert(Self::calls_since(o, f) =~= seq![c] + Self::calls_since(o2, f));
        lemma_single_call(c);
        lemma_calls_concat(seq![c], Self::calls_since(o2, f));
        assert(Set::<PrimitiveId>::empty().union(removed_by(Self::calls_since(o2, f))) =~= removed_by(Self::calls_since(o2, f)));
        assert(Set::<PrimitiveId>::empty().union(mounted_by(Self::calls_since(o2, f))) =~= mounted_by(Self::calls_since(o2, f)));
        assert(Set::<PrimitiveId>::empty().union(diffed_by(Self::calls_since(o2, f))) =~= diffed_by(Self::calls_since(o2, f)));
        assert(Set::<u64>::empty().union(destroyed_by(Self::calls_since(o2, f))) =~= destroyed_by(Self::calls_since(o2, f)));
        assert(Set::<u64>::empty().union(flushed_by(Self::calls_since(o2, f))) =~= flushed_by(Self::calls_since(o2, f)));
    }

    /// Unmounts node `this` and everything below it: children first, then the
    /// node itself, whose primitive is removed from the `Dom` or whose component
    /// is cleaned up. Gives the set of nodes removed.
    #[verifier::spinoff_prover]
    fn unmount<D: Dom>(&mut self, this: u64, dom: &mut D) -> (removed: Ghost<Set<u64>>)
        requires
            old(self).inv(),
            old(self).nodes().contains_key(this),
            !attached(old(self).nodes(), old(self).parents(), this),
            forall|h: u64| #[trigger] old(self).holes().contains(h) ==> h < this,
            !old(self).root_ids().contains(this),
        ensures
            final(self).applied_updates() == old(self).applied_updates(),
            final(self).taken_updates() == old(self).taken_updates(),
            final(self).inv(),
            region(old(self).nodes(), old(self).parents(), set![this], removed@),
            final(self).nodes() == old(self).nodes().remove_keys(removed@),
            final(self).nodes().len() < old(self).nodes().len(),
            Self::calls_extend(old(self), final(self)),
            only_unmounts(Self::calls_since(old(self), final(self))),
            removed_by(Self::calls_since(old(self), final(self))) == primitives_of(old(self).nodes(), removed@),
            destroyed_by(Self::calls_since(old(self), final(self))) == components_of(old(self).nodes(), removed@),
            final(self).rendered() == old(self).rendered(),
            final(self).render_outputs() == old(self).render_outputs(),
            Self::effects_follow(old(self), final(self)),
            final(self).parents() == old(self).parents(),
            final(self).next_id() == old(self).next_id(),
            final(self).holes() == old(self).holes(),
            final(self).root_ids() == old(self).root_ids(),
            final(self).is_exhausted() == old(self).is_exhausted(),
            removed@.finite(),
            Self::calls_since(old(self), final(self)).len() == removed@.len(),
            Self::calls_since(old(self), final(self)).len() >= 1,
            Self::calls_since(old(self), final(self)).last() == match old(self).nodes()[this].inner {
                MountedInner::Primitive(p) => Call::Remove(p),
                MountedInner::Component(_) => Call::Destroy(this),
            },
        decreases old(self).nodes().len(), 0nat,
    {
        let ghost t0 = self.tree@;
        let ghost pm = self.parents@;
        proof {
            lemma_remove_detached(t0, pm, self.counter, self.holes@, this);
            lemma_children_listed(t0, pm, self.counter, self.holes@, this);
            t0.lemma_remove_key_len(this);
        }
        let node = self.tree.remove(&this).unwrap();
        let ghost mid = *self;
        let Mounted { inner, children } = node;
        let below = self.unmount_list(this, &children, dom);
        let ghost after_list = *self;
        proof {
            assert(Self::calls_since(old(self), &mid) =~= Seq::<Call>::empty());
            assert(old(self).call_log().take(old(self).call_log().len() as int) =~= old(self).call_log());
            Self::lemma_calls_chain(old(self), &mid, &after_list);
            assert(Self::calls_since(old(self), &after_list) =~= Self::calls_since(&mid, &after_list));
            lemma_primitives_agree(mid.nodes(), t0, below@);
            assert(primitives_of(t0, set![this]) =~= match t0[this].inner {
                MountedInner::Primitive(id) => set![id],
                MountedInner::Component(_) => Set::<PrimitiveId>::empty(),
            }) by {
                assert forall|p: PrimitiveId| primitives_of(t0, set![this]).contains(p) implies (match t0[this].inner {
                    MountedInner::Primitive(id) => set![id],
                    MountedInner::Component(_) => Set::<PrimitiveId>::empty(),
                }).contains(p) by {
                    let x = choose|x: u64| #[trigger] set![this].contains(x) && t0.contains_key(x) && t0[x].inner == MountedInner::<H::State>::Primitive(p);
                    assert(x == this);
                }
                if let MountedInner::Primitive(id) = t0[this].inner {
                    assert(set![this].contains(this));
                    assert(primitives_of(t0, set![this]).contains(id));
                }
            }
            lemma_primitives_union(t0, below@, set![this]);
            lemma_components_agree(mid.nodes(), t0, below@);
            lemma_components_union(t0, below@, set![this]);
            assert(below@.union(set![this]) =~= below@.insert(this));
        }
        match inner {
            MountedInner::Primitive(id) => {
                self.dom_remove(dom, id);
                proof {
                    let d1 = Self::calls_since(old(self), &after_list);
                    assert(Self::calls_since(old(self), self) =~= d1 + seq![Call::Remove(id)]);
                    lemma_calls_concat(d1, seq![Call::Remove(id)]);
                    lemma_single_call(Call::Remove(id));
                    assert(components_of(t0, set![this]) =~= Set::<u64>::empty());
                    assert(self.call_log().take(old(self).call_log().len() as int) =~= after_list.call_log().take(old(self).call_log().len() as int));
                }
            },
            MountedInner::Component(c) => {
                self.destroy_component(this, c);
                proof {
                    assert(primitives_of(t0, set![this]) =~= Set::<PrimitiveId>::empty());
                    let d1 = Self::calls_since(old(self), &after_list);
                    let pre = seq![Call::Destroy(this)];
                    assert(Self::calls_since(old(self), self) =~= d1 + pre);
                    lemma_calls_concat(d1, pre);
                    lemma_single_call(Call::Destroy(this));
                    assert(components_of(t0, set![this]) =~= set![this]);
                    assert(self.call_log().take(old(self).call_log().len() as int) =~= after_list.call_log().take(old(self).call_log().len() as int));
                }
            },
        }
        let ghost removed = below@.insert(this);
        proof {
            assert(!below@.contains(this)) by {
                if below@.contains(this) {
                    assert(mid.nodes().contains_key(this));
                }
            }
            assert(self.tree@ =~= t0.remove_keys(removed));
            assert forall|x: u64, k: int|
                #![trigger removed.contains(x), t0[x].children@[k]]
                removed.contains(x) && 0 <= k < t0[x].children@.len() implies removed.contains(
                t0[x].children@[k],
            ) by {
                if x == this {
                    assert(children@.to_set().contains(children@[k]));
                } else {
                    assert(t0.remove(this)[x] == t0[x]);
                }
            }
            assert forall|x: u64|
                #[trigger] removed.contains(x) && !set![this].contains(x) implies pm.contains_key(x)
                && removed.contains(pm[x]) by {
                if children@.to_set().contains(x) {
                    let j = choose|j: int| 0 <= j < children@.len() && children@[j] == x;
                    assert(children@[j] == x);
                }
            }
            lemma_remove_keys_smaller(t0, removed, this);
            assert forall|k: int| 0 <= k < Self::calls_since(old(self), self).len() implies !(
            #[trigger] Self::calls_since(old(self), self)[k] is Effects) by {
                assert(Self::calls_since(old(self), self)[k] is Remove || Self::calls_since(old(self), self)[k] is Destroy);
            }
            Self::lemma_effects_none(old(self), self);
        }
        Ghost(removed)
    }

    /// Unmounts, in order, the children of node `owner`, which is out of the
    /// tree, and everything below them. Gives the set of nodes removed.
    #[verifier::spinoff_prover]
    fn unmount_list<D: Dom>(&mut self, owner: u64, children: &Vec<u64>, dom: &mut D) -> (removed: Ghost<Set<u64>>)
        requires
            old(self).inv(),
            !old(self).nodes().contains_key(owner),
            list_ok(old(self).nodes(), old(self).parents(), owner, children@),
            forall|h: u64| #[trigger] old(self).holes().contains(h) ==> h <= owner,
        ensures
            final(self).applied_updates() == old(self).applied_updates(),
            final(self).taken_updates() == old(self).taken_updates(),
            final(self).inv(),
            region(old(self).nodes(), old(self).parents(), children@.to_set(), removed@),
            final(self).nodes() == old(self).nodes().remove_keys(removed@),
            final(self).nodes().len() <= old(self).nodes().len(),
            Self::calls_extend(old(self), final(self)),
            only_unmounts(Self::calls_since(old(self), final(self))),
            removed_by(Self::calls_since(old(self), final(self))) == primitives_of(old(self).nodes(), removed@),
            destroyed_by(Self::calls_since(old(self), final(self))) == components_of(old(self).nodes(), removed@),
            final(self).rendered() == old(self).rendered(),
            final(self).render_outputs() == old(self).render_outputs(),
            Self::effects_follow(old(self), final(self)),
            final(self).parents() == old(self).parents(),
            final(self).next_id() == old(self).next_id(),
            final(self).holes() == old(self).holes(),
            final(self).root_ids() == old(self).root_ids(),
            final(self).is_exhausted() == old(self).is_exhausted(),
            removed@.finite(),
            Self::calls_since(old(self), final(self)).len() == removed@.len(),
        decreases old(self).nodes().len(), 1nat,
    {
        let ghost t0 = self.tree@;
        let ghost pm = self.parents@;
        let ghost mut removed: Set<u64> = Set::empty();
        proof {
            assert(self.call_log().take(self.call_log().len() as int) =~= self.call_log());
            assert(Self::calls_since(old(self), self) =~= Seq::<Call>::empty());
            assert(removed_by(Seq::<Call>::empty()) =~= Set::<PrimitiveId>::empty());
            assert(primitives_of(t0, removed) =~= Set::<PrimitiveId>::empty());
            assert(destroyed_by(Seq::<Call>::empty()) =~= Set::<u64>::empty());
            assert(components_of(t0, removed) =~= Set::<u64>::empty());
        }
        let mut i: usize = 0;
        while i < children.len()
            invariant
                self.applied_updates() == old(self).applied_updates(),
                self.taken_updates() == old(self).taken_updates(),
                self.inv(),
                0 <= i <= children@.len(),
                t0 == old(self).tree@,
                tree_wf(t0, pm, self.counter, self.holes@),
                !t0.contains_key(owner),
                list_ok(t0, pm, owner, children@),
                self.parents@ == pm,
                self.counter == old(self).counter,
                self.holes@ == old(self).holes@,
                self.roots@ == old(self).roots@,
                self.exhausted == old(self).exhausted,
                forall|h: u64| #[trigger] self.holes@.contains(h) ==> h <= owner,
                forall|x: u64| #[trigger] removed.contains(x) ==> t0.contains_key(x),
                forall|j: int| 0 <= j < i ==> #[trigger] removed.contains(children@[j]),
                forall|x: u64, k: int|
                    #![trigger removed.contains(x), t0[x].children@[k]]
                    removed.contains(x) && 0 <= k < t0[x].children@.len() ==> removed.contains(
                        t0[x].children@[k],
                    ),
                forall|x: u64|
                    #[trigger] removed.contains(x) && !children@.contains(x) ==> pm.contains_key(x)
                        && removed.contains(pm[x]),
                forall|x: u64| #[trigger] removed.contains(x) ==> owner < x,
                forall|x: u64|
                    #[trigger] removed.contains(x) && pm[x] == owner ==> exists|j: int|
                        0 <= j < i && children@[j] == x,
                self.tree@ == t0.remove_keys(removed),
                self.tree@.len() <= t0.len(),
                t0.dom().finite(),
                Self::calls_extend(old(self), self),
                only_unmounts(Self::calls_since(old(self), self)),
                removed_by(Self::calls_since(old(self), self)) == primitives_of(t0, removed),
                destroyed_by(Self::calls_since(old(self), self)) == components_of(t0, removed),
                self.rendered() == old(self).rendered(),
                self.render_outputs() == old(self).render_outputs(),
                removed.finite(),
                Self::calls_since(old(self), self).len() == removed.len(),
            decreases children@.len() - i,
        {
            let c = children[i];
            proof {
                assert(!removed.contains(c)) by {
                    if removed.contains(c) {
                        let j = choose|j: int| 0 <= j < i && children@[j] == c;
                        assert(children@[j] != children@[i as int]);
                    }
                };
                assert(self.tree@.contains_key(c));
                assert(!self.holes@.contains(c));
            }
            let ghost before = self.tree@;
            let ghost before_s = *self;
            let r = self.unmount(c, dom);
            proof {
                let ghost prev = removed;
                assert(prev.disjoint(r@)) by {
                    assert forall|x: u64| r@.contains(x) implies !prev.contains(x) by {
                        assert(before.contains_key(x));
                    }
                }
                vstd::set_lib::lemma_set_disjoint_lens(prev, r@);
                removed = removed.union(r@);
                Self::lemma_calls_chain(old(self), &before_s, self);
                lemma_calls_concat(Self::calls_since(old(self), &before_s), Self::calls_since(&before_s, self));
                assert forall|x: u64| #[trigger] r@.contains(x) implies before.contains_key(x) && t0.contains_key(x)
                    && before[x] == t0[x] by {
                }
                lemma_primitives_agree(before, t0, r@);
                lemma_primitives_union(t0, prev, r@);
                lemma_components_agree(before, t0, r@);
                lemma_components_union(t0, prev, r@);
                assert(self.tree@ =~= t0.remove_keys(removed));
                assert forall|x: u64| r@.contains(x) implies before.contains_key(x) && before[x] == t0[x] by {
                }
                assert forall|x: u64| r@.contains(x) implies owner < x by {
                    lemma_region_above(before, pm, self.counter, self.holes@, set![c], r@, c, x);
                }
                assert forall|x: u64|
                    #[trigger] removed.contains(x) && pm[x] == owner implies exists|j: int|
                        0 <= j < i + 1 && children@[j] == x by {
                    if !prev.contains(x) {
                        if x != c {
                            assert(r@.contains(pm[x]));
                        }
                        assert(children@[i as int] == x);
                    }
                }
                assert forall|x: u64|
                    #[trigger] removed.contains(x) && !children@.contains(x) implies pm.contains_key(x)
                        && removed.contains(pm[x]) by {
                    if r@.contains(x) && x != c {
                        assert(r@.contains(pm[x]));
                    }
                    if x == c {
                        assert(children@[i as int] == x);
                    }
                }
            }
            i = i + 1;
        }
        proof {
            assert forall|x: u64| #[trigger] children@.to_set().contains(x) implies removed.contains(x) by {
                let j = choose|j: int| 0 <= j < children@.len() && children@[j] == x;
            }
            assert forall|k: int| 0 <= k < Self::calls_since(old(self), self).len() implies !(
            #[trigger] Self::calls_since(old(self), self)[k] is Effects) by {
                assert(Self::calls_since(old(self), self)[k] is Remove || Self::calls_since(old(self), self)[k] is Destroy);
            }
            Self::lemma_effects_none(old(self), self);
        }
        Ghost(removed)
    }

    /// No node records the id about to be handed out, or the one just handed out,
    /// as its parent.
    #[verifier::spinoff_prover]
    proof fn lemma_nothing_below_fresh(&self, id: u64)
        requires
            self.inv(),
            id + 1 == self.next_id(),
            forall|k: u64| #[trigger] self.parents().contains_key(k) ==> k < id,
            forall|k: u64| #[trigger] self.nodes().contains_key(k) ==> k < id,
        ensures
            list_ok(self.nodes(), self.parents(), id, Seq::<u64>::empty()),
            list_complete(self.nodes(), self.parents(), id, Seq::<u64>::empty()),
            !self.parents().contains_key(id),
    {
        assert forall|c: u64|
            #[trigger] self.nodes().contains_key(c) && self.parents().contains_key(c)
                && self.parents()[c] == id implies Seq::<u64>::empty().contains(c) by {
            assert(self.parents()[c] < c);
        }
    }

    /// A context with nothing mounted and an empty queue of updates.
    #[verifier::spinoff_prover]
    pub fn new() -> (c: Self)
        ensures
            c.wf(),
            !c.is_exhausted(),
            c.nodes() == Map::<u64, Mounted<H::State>>::empty(),
            c.root_ids() == Set::<u64>::empty(),
            c.next_id() == 0,
            c.call_log() == Seq::<Call>::empty(),
    {
        let (tx, rx) = unbounded_queue();
        let c = Context {
            tree: HashMap::new(),
            counter: 0,
            roots: HashSet::new(),
            exhausted: false,
            tx,
            rx,
            parents: Ghost(Map::empty()),
            holes: Ghost(Set::empty()),
            calls: Ghost(Seq::empty()),
            renders: Ghost(Seq::empty()),
            updates: Ghost(Seq::empty()),
            rounds: Ghost(Seq::empty()),
            seen: Ghost(0),
            taken: Ghost(Seq::empty()),
            dry: Ghost(false),
            outputs: Ghost(Map::empty()),
        };
        proof {
            lemma_empty_wf::<H::State>();
        }
        c
    }

    /// Whether `id` was mounted by `mount_root` and is not unmounted yet.
    #[verifier::spinoff_prover]
    pub fn is_mounted_root(&self, id: MountedRootId) -> (b: bool)
        ensures
            b == self.root_ids().contains(id.0.0),
    {
        self.roots.contains(&id.0.0)
    }

    /// Whether a node with this id is mounted.
    #[verifier::spinoff_prover]
    pub fn is_mounted(&self, id: u64) -> (b: bool)
        ensures
            b == self.nodes().contains_key(id),
    {
        self.tree.contains_key(&id)
    }

    /// `new` is `old` with a root added: the element mounted under the next id,
    /// every new node below it, nothing else changed.
    pub open spec fn mounted_root(old: &Self, new: &Self, id: u64) -> bool {
        &&& id == old.next_id()
        &&& Self::only_adds(old, new)
        &&& new.nodes().contains_key(id)
        &&& region(new.nodes(), new.parents(), set![id], Self::fresh_nodes(old, new))
        &&& new.root_ids() == old.root_ids().insert(id)
        &&& Self::calls_extend(old, new)
        &&& mounted_by(Self::calls_since(old, new)) == primitives_of(new.nodes(), Self::fresh_nodes(old, new))
    }

    /// Mounts an element at the top level of the `Dom` and gives its id.
    ///
    /// Fails only when the ids are used up; the context then does no more work.
    #[verifier::spinoff_prover]
    pub fn mount_root<D: Dom>(&mut self, e: Element<H::Template>, dom: &mut D) -> (r: Result<
        MountedRootId,
        ContextError,
    >)
        requires
            old(self).wf(),
        ensures
            final(self).wf(),
            old(self).is_exhausted() ==> r == Err::<MountedRootId, ContextError>(
                ContextError::IdsExhausted,
            ) && final(self).is_exhausted(),
            !old(self).is_exhausted() ==> match r {
                Ok(id) => !final(self).is_exhausted() && Self::mounted_root(old(self), final(self), id.0.0),
                Err(e) => e == ContextError::IdsExhausted && final(self).is_exhausted(),
            },
            r matches Ok(id) ==> mirrors(final(self).nodes(), Self::calls_since(old(self), final(self)), id.0.0, e, None),
            r matches Ok(id) ==> placed(final(self).nodes(), Self::calls_since(old(self), final(self)), id.0.0, None),
            r matches Ok(id) ==> (e.0 is Component ==> mirrors_list(
                final(self).nodes(),
                Self::calls_since(old(self), final(self)),
                final(self).nodes()[id.0.0].children@,
                final(self).render_outputs()[id.0.0],
                None,
            )),
            !old(self).is_exhausted() && r is Err ==> final(self).next_id() == u64::MAX,
            !old(self).is_exhausted() && plain(e) ==> (r is Ok <==> old(self).next_id() + node_count(e) <= u64::MAX),
            r is Ok && plain(e) ==> final(self).next_id() == old(self).next_id() + node_count(e),
            r is Ok ==> final(self).nodes().len() + old(self).next_id() == old(self).nodes().len() + final(self).next_id(),
            Self::calls_extend(old(self), final(self)),
            only_mounts(Self::calls_since(old(self), final(self))),
            r is Ok ==> mounted_by(Self::calls_since(old(self), final(self))) == primitives_of(
                final(self).nodes(),
                Self::fresh_nodes(old(self), final(self)),
            ),
            r is Ok ==> Self::renders_within(old(self), final(self), Self::fresh_nodes(old(self), final(self))),
            r is Ok ==> Self::renders_since(old(self), final(self)).to_set() == components_of(
                final(self).nodes(),
                Self::fresh_nodes(old(self), final(self)),
            ),
            r is Ok ==> Self::effects_follow(old(self), final(self)),
    {
        if self.exhausted {
            proof {
                assert(self.call_log().take(self.call_log().len() as int) =~= self.call_log());
                assert(Self::calls_since(old(self), self) =~= Seq::<Call>::empty());
            }
            return Err(ContextError::IdsExhausted);
        }
        match self.mount(e, None, dom) {
            Ok(id) => {
                self.roots.insert(id);
                proof {
                    assert(set![id].contains(id));
                    assert forall|r: u64| #[trigger] self.root_ids().contains(r) implies (self.nodes().contains_key(r)
                        || self.holes().contains(r)) && !self.parents().contains_key(r) by {
                        if r != id {
                            assert(old(self).root_ids().contains(r));
                        }
                    }
                }
                Ok(MountedRootId(MountedId(id)))
            },
            Err(e) => {
                self.exhausted = true;
                Err(e)
            },
        }
    }

    /// `new` is `old` without the root `id` and everything below it.
    pub open spec fn unmounted_root(old: &Self, new: &Self, id: u64) -> bool {
        &&& exists|below: Set<u64>|
            region(old.nodes(), old.parents(), set![id], below) && #[trigger] old.nodes().remove_keys(below)
                == new.nodes()
        &&& new.root_ids() == old.root_ids().remove(id)
        &&& new.parents() == old.parents()
        &&& new.next_id() == old.next_id()
        &&& Self::calls_extend(old, new)
        &&& removed_by(Self::calls_since(old, new)) == primitives_of(
            old.nodes(),
            old.nodes().dom().difference(new.nodes().dom()),
        )
        &&& Self::calls_since(old, new).len() == old.nodes().dom().difference(new.nodes().dom()).len()
    }

    /// Unmounts a root mounted by `mount_root` and everything below it.
    #[verifier::spinoff_prover]
    pub fn unmount_root<D: Dom>(&mut self, id: MountedRootId, dom: &mut D)
        requires
            old(self).wf(),
            old(self).is_exhausted() || old(self).root_ids().contains(id.0.0),
        ensures
            final(self).wf(),
            final(self).is_exhausted() == old(self).is_exhausted(),
            !old(self).is_exhausted() ==> Self::unmounted_root(old(self), final(self), id.0.0),
            Self::calls_extend(old(self), final(self)),
            only_unmounts(Self::calls_since(old(self), final(self))),
            removed_by(Self::calls_since(old(self), final(self))) == primitives_of(
                old(self).nodes(),
                old(self).nodes().dom().difference(final(self).nodes().dom()),
            ),
            destroyed_by(Self::calls_since(old(self), final(self))) == components_of(
                old(self).nodes(),
                old(self).nodes().dom().difference(final(self).nodes().dom()),
            ),
            final(self).rendered() == old(self).rendered(),
            final(self).render_outputs() == old(self).render_outputs(),
            Self::calls_since(old(self), final(self)).len() == old(self).nodes().dom().difference(
                final(self).nodes().dom(),
            ).len(),
    {
        if self.exhausted {
            proof {
                assert(self.call_log().take(self.call_log().len() as int) =~= self.call_log());
                assert(Self::calls_since(old(self), self) =~= Seq::<Call>::empty());
                assert(removed_by(Seq::<Call>::empty()) =~= Set::<PrimitiveId>::empty());
                assert(destroyed_by(Seq::<Call>::empty()) =~= Set::<u64>::empty());
                assert(old(self).nodes().dom().difference(self.nodes().dom()) =~= Set::<u64>::empty());
                assert(primitives_of(old(self).nodes(), Set::<u64>::empty()) =~= Set::<PrimitiveId>::empty());
                assert(components_of(old(self).nodes(), Set::<u64>::empty()) =~= Set::<u64>::empty());
            }
            return;
        }
        let root = id.0.0;
        self.roots.remove(&root);
        proof {
            assert(old(self).root_ids().contains(root));
            assert(!attached(self.nodes(), self.parents(), root));
        }
        let ghost mid = *self;
        let Ghost(below) = self.unmount(root, dom);
        proof {
            assert(old(self).nodes().remove_keys(below) == self.nodes());
            assert(old(self).nodes().dom().difference(self.nodes().dom()) =~= below);
            assert(mid.call_log() == old(self).call_log());
            assert(mid.nodes() == old(self).nodes());
        }
    }

    /// The number of updates waiting; they come from other threads, so nothing
    /// is claimed of it.
    #[verifier::spinoff_prover]
    pub fn msg_count(&self) -> usize {
        queue_len(&self.rx)
    }

    /// Hands a piece of state of component `target` an update; false when no
    /// component is mounted under `target`.
    #[verifier::spinoff_prover]
    fn apply(&mut self, target: u64, slot: u64, update: H::Update) -> (b: bool)
        requires
            old(self).inv(),
        ensures
            final(self).inv(),
            b == (old(self).nodes().contains_key(target) && old(self).nodes()[target].inner is Component),
            final(self).nodes().dom() == old(self).nodes().dom(),
            forall|n: u64|
                #[trigger] final(self).nodes().contains_key(n) ==> final(self).nodes()[n].children
                    == old(self).nodes()[n].children,
            forall|n: u64|
                #[trigger] final(self).nodes().contains_key(n) && n != target ==> final(self).nodes()[n]
                    == old(self).nodes()[n],
            final(self).nodes().contains_key(target) ==> (final(self).nodes()[target].inner is Component
                <==> old(self).nodes()[target].inner is Component),
            final(self).parents() == old(self).parents(),
            final(self).next_id() == old(self).next_id(),
            final(self).holes() == old(self).holes(),
            final(self).root_ids() == old(self).root_ids(),
            final(self).is_exhausted() == old(self).is_exhausted(),
            final(self).call_log() == old(self).call_log(),
            final(self).taken_updates() == old(self).taken_updates(),
            final(self).last_seen_waiting() == old(self).last_seen_waiting(),
            final(self).applied_updates() == if b {
                old(self).applied_updates().push((target, slot))
            } else {
                old(self).applied_updates()
            },
            final(self).rendered() == old(self).rendered(),
            final(self).render_outputs() == old(self).render_outputs(),
    {
        if !self.is_component(target) {
            return false;
        }
        let ghost t0 = self.tree@;
        let node = self.tree.remove(&target).unwrap();
        let Mounted { inner, children } = node;
        let ghost kids = children;
        match inner {
            MountedInner::Component(mut state) => {
                H::apply_update(&mut state, slot, update);
                proof {
                    self.updates@ = self.updates@.push((target, slot));
                }
                self.tree.insert(target, Mounted { inner: MountedInner::Component(state), children });
            },
            MountedInner::Primitive(p) => {
                proof {
                    assert(false);
                }
                self.tree.insert(target, Mounted { inner: MountedInner::Primitive(p), children });
            },
        }
        proof {
            assert(self.tree@ == t0.insert(target, self.tree@[target]));
            assert(self.tree@.dom() =~= t0.dom());
            lemma_same_shape(t0, self.tree@, self.parents@, self.counter, self.holes@);
            assert forall|r: u64| #[trigger] self.root_ids().contains(r) implies (self.nodes().contains_key(r)
                || self.holes().contains(r)) && !self.parents().contains_key(r) by {
                assert(old(self).root_ids().contains(r));
            }
        }
        true
    }

    /// Takes the updates waiting in the queue (as many as it held when the
    /// call began, fewer if it runs dry) and hands each to its component. Gives
    /// the components they were addressed to, in order.
    ///
    /// An update addressed to a component that is not mounted stops the batch
    /// with `UnknownTarget`.
    #[verifier::spinoff_prover]
    pub fn receive_messages(&mut self) -> (r: Result<Vec<u64>, ContextError>)
        requires
            old(self).wf(),
        ensures
            final(self).wf(),
            final(self).is_exhausted() == old(self).is_exhausted(),
            old(self).is_exhausted() ==> r == Err::<Vec<u64>, ContextError>(ContextError::IdsExhausted),
            final(self).nodes().dom() == old(self).nodes().dom(),
            forall|n: u64|
                #[trigger] final(self).nodes().contains_key(n) ==> final(self).nodes()[n].children
                    == old(self).nodes()[n].children,
            final(self).root_ids() == old(self).root_ids(),
            final(self).next_id() == old(self).next_id(),
            final(self).call_log() == old(self).call_log(),
            Self::updates_extend(old(self), final(self)),
            Self::takes_extend(old(self), final(self)),
            final(self).rendered() == old(self).rendered(),
            final(self).render_outputs() == old(self).render_outputs(),
            !old(self).is_exhausted() ==> match r {
                Ok(targets) => {
                    &&& Self::updates_since(old(self), final(self)) == Self::taken_since(old(self), final(self))
                    &&& (Self::taken_since(old(self), final(self)).len() == final(self).last_seen_waiting()
                        || final(self).found_empty())
                    &&& Self::updates_since(old(self), final(self)).len() == targets@.len()
                    &&& forall|j: int|
                        0 <= j < targets@.len() ==> (#[trigger] Self::updates_since(old(self), final(self))[j]).0
                            == targets@[j]
                    &&& forall|k: int|
                        0 <= k < targets@.len() ==> final(self).nodes().contains_key(#[trigger] targets@[k])
                            && final(self).nodes()[targets@[k]].inner is Component
                    &&& forall|n: u64|
                        #[trigger] final(self).nodes().contains_key(n) && !targets@.contains(n)
                            ==> final(self).nodes()[n] == old(self).nodes()[n]
                },
                Err(e) => e matches ContextError::UnknownTarget(m) && !(old(self).nodes().contains_key(m.0)
                    && old(self).nodes()[m.0].inner is Component) && Self::taken_since(old(self), final(self)).len() >= 1
                    && Self::taken_since(old(self), final(self)).last().0 == m.0
                    && Self::updates_since(old(self), final(self)) == Self::taken_since(old(self), final(self)).drop_last(),
            },
    {
        if self.exhausted {
            proof {
                assert(self.applied_updates().take(self.applied_updates().len() as int) =~= self.applied_updates());
            }
            proof {
                assert(self.taken_updates().take(self.taken_updates().len() as int) =~= self.taken_updates());
            }
            return Err(ContextError::IdsExhausted);
        }
        let n = self.waiting();
        let mut targets: Vec<u64> = Vec::new();
        proof {
            assert(self.applied_updates().take(self.applied_updates().len() as int) =~= self.applied_updates());
            assert(Self::updates_since(old(self), self) =~= Seq::<(u64, u64)>::empty());
            assert(self.taken_updates().take(self.taken_updates().len() as int) =~= self.taken_updates());
            assert(Self::taken_since(old(self), self) =~= Seq::<(u64, u64)>::empty());
        }
        let mut k: usize = 0;
        let mut dry = false;
        while k < n && !dry
            invariant
                self.inv(),
                !self.exhausted,
                !old(self).is_exhausted(),
                self.holes() == Set::<u64>::empty(),
                self.nodes().dom() == old(self).nodes().dom(),
                forall|m: u64|
                    #[trigger] self.nodes().contains_key(m) ==> self.nodes()[m].children
                        == old(self).nodes()[m].children,
                forall|m: u64|
                    #[trigger] self.nodes().contains_key(m) ==> (self.nodes()[m].inner is Component
                        <==> old(self).nodes()[m].inner is Component),
                self.root_ids() == old(self).root_ids(),
                self.next_id() == old(self).next_id(),
                self.parents() == old(self).parents(),
                self.call_log() == old(self).call_log(),
                Self::updates_extend(old(self), self),
                Self::takes_extend(old(self), self),
                Self::updates_since(old(self), self) == Self::taken_since(old(self), self),
                self.last_seen_waiting() == n,
                k <= n,
                !dry ==> Self::taken_since(old(self), self).len() == k,
                dry ==> self.found_empty(),
                Self::updates_since(old(self), self).len() == targets@.len(),
                forall|j: int|
                    0 <= j < targets@.len() ==> (#[trigger] Self::updates_since(old(self), self)[j]).0 == targets@[j],
                self.rendered() == old(self).rendered(),
                self.render_outputs() == old(self).render_outputs(),
                forall|j: int|
                    0 <= j < targets@.len() ==> self.nodes().contains_key(#[trigger] targets@[j])
                        && self.nodes()[targets@[j]].inner is Component,
                forall|m: u64|
                    #[trigger] self.nodes().contains_key(m) && !targets@.contains(m) ==> self.nodes()[m]
                        == old(self).nodes()[m],
            decreases n - k,
        {
            let ghost taking = *self;
            match self.take_next() {
                Some(env) => {
                    let Envelope { target, slot, update } = env;
                    let ghost before = *self;
                    proof {
                        let lo = old(self).taken_updates().len() as int;
                        assert(self.taken_updates().take(lo) =~= taking.taken_updates().take(lo));
                        assert(Self::taken_since(old(self), self) =~= Self::taken_since(old(self), &taking).push(
                            (target.0, slot),
                        ));
                    }
                    if !self.apply(target.0, slot, update) {
                        proof {
                            assert(Self::taken_since(old(self), self).drop_last() =~= Self::taken_since(old(self), &taking));
                        }
                        return Err(ContextError::UnknownTarget(target));
                    }
                    let ghost prev = targets@;
                    targets.push(target.0);
                    proof {
                        let lo = old(self).applied_updates().len() as int;
                        assert(self.applied_updates().take(lo) =~= before.applied_updates().take(lo));
                        assert(Self::updates_since(old(self), self) =~= Self::updates_since(old(self), &before).push(
                            (target.0, slot),
                        ));
                        assert(targets@[prev.len() as int] == target.0);
                        assert forall|m: u64| #[trigger] self.nodes().contains_key(m) && !targets@.contains(m)
                            implies self.nodes()[m] == old(self).nodes()[m] by {
                            assert(m != target.0);
                            if prev.contains(m) {
                                let j = choose|j: int| 0 <= j < prev.len() && prev[j] == m;
                                assert(targets@[j] == m);
                            }
                        }
                    }
                },
                None => {
                    dry = true;
                },
            }
            k = k + 1;
        }
        Ok(targets)
    }

    /// Whether a component is mounted under `id`.
    #[verifier::spinoff_prover]
    fn is_component(&self, id: u64) -> (b: bool)
        ensures
            b == (self.nodes().contains_key(id) && self.nodes()[id].inner is Component),
    {
        match self.tree.get(&id) {
            Some(node) => match &node.inner {
                MountedInner::Component(_) => true,
                MountedInner::Primitive(_) => false,
            },
            None => false,
        }
    }

    /// Renders component `root` again in its place and brings what is below it
    /// in line; its id and its place in its parent's list stay.
    ///
    /// The nodes it changes or unmounts are given back; they hang below `root`.
    #[verifier::spinoff_prover]
    fn rerender_one<D: Dom>(&mut self, root: u64, dom: &mut D) -> (r: (Result<(), ContextError>, Ghost<Set<u64>>))
        requires
            old(self).inv(),
            old(self).holes() == Set::<u64>::empty(),
            old(self).nodes().contains_key(root),
            old(self).nodes()[root].inner is Component,
        ensures
            final(self).applied_updates() == old(self).applied_updates(),
            final(self).taken_updates() == old(self).taken_updates(),
            final(self).root_ids() == old(self).root_ids(),
            final(self).is_exhausted() == old(self).is_exhausted(),
            r.0 is Ok ==> {
                &&& final(self).inv()
                &&& final(self).holes() == Set::<u64>::empty()
                &&& final(self).nodes().contains_key(root)
                &&& final(self).nodes()[root].inner is Component
                &&& hangs_below(old(self).nodes(), old(self).parents(), set![root], r.1@)
                &&& forall|n: u64|
                    #[trigger] old(self).nodes().contains_key(n) && !r.1@.contains(n)
                        ==> final(self).nodes().contains_key(n)
                        && final(self).nodes()[n] == old(self).nodes()[n]
                &&& forall|n: u64|
                    #[trigger] final(self).nodes().contains_key(n) && !old(self).nodes().contains_key(n)
                        ==> old(self).next_id() <= n
                &&& old(self).parents().submap_of(final(self).parents())
                &&& forall|k: u64|
                    #[trigger] final(self).parents().contains_key(k) && !old(self).parents().contains_key(k)
                        ==> old(self).next_id() <= k
                &&& old(self).next_id() <= final(self).next_id()
                &&& hangs_below(
                    final(self).nodes(),
                    final(self).parents(),
                    set![root],
                    Self::touched(old(self), final(self), r.1@),
                )
                &&& Self::calls_match(old(self), final(self))
                &&& Self::renders_within(old(self), final(self), Self::touched(old(self), final(self), r.1@))
                &&& Self::renders_since(old(self), final(self)).contains(root)
                &&& mirrors_list(
                    final(self).nodes(),
                    Self::calls_since(old(self), final(self)),
                    final(self).nodes()[root].children@,
                    final(self).render_outputs()[root],
                    None,
                )
                &&& Self::effects_follow(old(self), final(self))
                &&& Self::diffs_within(old(self), final(self), Self::touched(old(self), final(self), r.1@))
            },
            r.0 matches Err(e) ==> e == ContextError::IdsExhausted && final(self).next_id() == u64::MAX,
            Self::calls_extend(old(self), final(self)),
    {
        let ghost t0 = self.tree@;
        let ghost pm0 = self.parents@;
        proof {
            lemma_children_listed(t0, pm0, self.counter, self.holes@, root);
            lemma_remove_as_hole(t0, pm0, self.counter, self.holes@, root);
        }
        let node = self.tree.remove(&root).unwrap();
        proof {
            self.holes@ = self.holes@.insert(root);
            assert forall|r: u64| #[trigger] self.root_ids().contains(r) implies (self.nodes().contains_key(r)
                || self.holes().contains(r)) && !self.parents().contains_key(r) by {
                assert(old(self).root_ids().contains(r));
            }
        }
        let ghost mid = *self;
        let Mounted { inner, children } = node;
        match inner {
            MountedInner::Component(mut state) => {
                let (res, Ghost(ch), Ghost(els)) = self.update(root, &mut state, children, None, dom);
                let out = match res {
                    Ok(out) => out,
                    Err(e) => {
                        proof {
                            assert(mid.call_log() == old(self).call_log());
                        }
                        return (Err(e), Ghost(Set::empty()));
                    },
                };
                let ghost pre = *self;
                let node = Mounted { inner: MountedInner::Component(state), children: out };
                proof {
                    let kids = t0[root].children@;
                    assert forall|r: u64| #[trigger] kids.to_set().contains(r) implies root + 1 <= r by {
                        let j = choose|j: int| 0 <= j < kids.len() && kids[j] == r;
                        assert(kids[j] == r);
                    }
                    if attached(self.tree@, self.parents@, root) {
                        let q = pm0[root];
                        assert(self.parents@.contains_key(root));
                        assert(q < root);
                        assert(!ch.contains(q)) by {
                            if ch.contains(q) {
                                lemma_hangs_above(mid.nodes(), mid.parents(), mid.next_id(), mid.holes(), kids.to_set(), ch, (root + 1) as u64, q);
                            }
                        }
                        assert(t0.contains_key(q));
                        lemma_attached_listed(t0, pm0, old(self).counter, old(self).holes@, root);
                        assert(mid.nodes().contains_key(q));
                    }
                    lemma_insert_node(self.tree@, self.parents@, self.counter, self.holes@, root, node);
                    assert(self.holes@.remove(root) =~= Set::<u64>::empty());
                }
                self.tree.insert(root, node);
                proof {
                    self.holes@ = self.holes@.remove(root);
                    assert forall|r: u64| #[trigger] self.root_ids().contains(r) implies (self.nodes().contains_key(r)
                        || self.holes().contains(r)) && !self.parents().contains_key(r) by {
                        assert(mid.root_ids().contains(r));
                    }
                    let c = ch.insert(root);
                    let kids = t0[root].children@;
                    assert forall|x: u64| #[trigger] c.contains(x) && !set![root].contains(x) implies
                        pm0.contains_key(x) && c.contains(pm0[x]) by {
                        if kids.to_set().contains(x) {
                            let j = choose|j: int| 0 <= j < kids.len() && kids[j] == x;
                            lemma_child_edge(t0, pm0, old(self).counter, old(self).holes@, root, j);
                        } else {
                            assert(ch.contains(x));
                        }
                    }
                    assert forall|n: u64| #[trigger] t0.contains_key(n) && !c.contains(n) implies
                        self.nodes().contains_key(n) && self.nodes()[n] == t0[n] by {
                        assert(mid.nodes().contains_key(n));
                        assert(pre.nodes().contains_key(n));
                    }
                    assert forall|n: u64| #[trigger] self.nodes().contains_key(n) && !t0.contains_key(n)
                        implies old(self).next_id() <= n by {
                        assert(pre.nodes().contains_key(n));
                        assert(!mid.nodes().contains_key(n));
                    }
                    assert(hangs_below(t0, pm0, set![root], c));
                    let tp = Self::touched(&mid, &pre, ch);
                    let tf = Self::touched(old(self), self, c);
                    assert(tf =~= tp.insert(root));
                    assert forall|x: u64| #[trigger] tf.contains(x) && !set![root].contains(x) implies
                        self.parents().contains_key(x) && tf.contains(self.parents()[x]) by {
                        if out@.to_set().contains(x) {
                            let j = choose|j: int| 0 <= j < out@.len() && out@[j] == x;
                            assert(out@[j] == x);
                        } else {
                            assert(tp.contains(x));
                        }
                    }
                    assert(hangs_below(self.nodes(), self.parents(), set![root], tf));
                    assert(mid.call_log() =~= old(self).call_log() + Seq::<Call>::empty());
                    assert(removed_by(Seq::<Call>::empty()) =~= Set::<PrimitiveId>::empty());
                    assert(mounted_by(Seq::<Call>::empty()) =~= Set::<PrimitiveId>::empty());
                    assert(destroyed_by(Seq::<Call>::empty()) =~= Set::<u64>::empty());
                    Self::lemma_reinsert_matches(old(self), &mid, &pre, self, root, Seq::<Call>::empty());
                    assert(mid.rendered() == old(self).rendered());
                    Self::lemma_reinsert_renders(old(self), &mid, &pre, self, root, ch);
                    assert(Self::renders_since(old(self), self) == Self::renders_since(&mid, &pre));
                    assert(Self::renders_since(old(self), self)[0] == root);
                    assert(mid.call_log() == old(self).call_log());
                    assert(Self::effects_follow(&mid, &pre));
                    assert(mid.call_log() =~= old(self).call_log() + Seq::<Call>::empty());
                    assert(diffed_by(Seq::<Call>::empty()) =~= Set::<PrimitiveId>::empty());
                    Self::lemma_reinsert_diffs(old(self), &mid, &pre, self, root, Seq::<Call>::empty(), ch);
                    let dd = Self::calls_since(old(self), self);
                    assert(dd == Self::calls_since(&mid, &pre));
                    assert(pre.nodes().submap_of(self.nodes()));
                    assert(self.render_outputs()[root] == els);
                    assert forall|k: int| 0 <= k < els.len() implies mirrors(
                        self.nodes(),
                        dd,
                        self.nodes()[root].children@[k],
                        #[trigger] els[k],
                        None,
                    ) by {
                        assert(mirrors(pre.nodes(), dd, out@[k], els[k], None));
                        lemma_mirrors_grow(pre.nodes(), self.nodes(), dd, dd, out@[k], els[k], None);
                    }
                }
                (Ok(()), Ghost(ch.insert(root)))
            },
            MountedInner::Primitive(_) => {
                proof {
                    assert(false);
                }
                (Ok(()), Ghost(Set::empty()))
            },
        }
    }

    /// Renders again the components that a batch of updates addressed to
    /// `targets` reached: each target that lies below no other target, once,
    /// with what is below it brought in line. A target that a render before it
    /// unmounted is passed over.
    #[verifier::spinoff_prover]
    pub fn rerender<D: Dom>(&mut self, targets: &Vec<u64>, dom: &mut D) -> (r: Result<(), ContextError>)
        requires
            old(self).wf(),
            !old(self).is_exhausted() ==> forall|k: int|
                0 <= k < targets@.len() ==> old(self).nodes().contains_key(#[trigger] targets@[k]),
        ensures
            final(self).applied_updates() == old(self).applied_updates(),
            final(self).taken_updates() == old(self).taken_updates(),
            final(self).wf(),
            final(self).root_ids() == old(self).root_ids(),
            old(self).is_exhausted() ==> r == Err::<(), ContextError>(ContextError::IdsExhausted),
            r is Ok ==> !final(self).is_exhausted(),
            r matches Err(e) ==> e == ContextError::IdsExhausted && final(self).is_exhausted(),
            !old(self).is_exhausted() && r is Err ==> final(self).next_id() == u64::MAX,
            Self::calls_extend(old(self), final(self)),
            r is Ok ==> forall|n: u64|
                #[trigger] old(self).nodes().contains_key(n) && !under_targets(old(self).nodes(), targets@, n)
                    ==> final(self).nodes().contains_key(n) && final(self).nodes()[n] == old(self).nodes()[n],
            r is Ok ==> forall|n: u64|
                #[trigger] final(self).nodes().contains_key(n) && !old(self).nodes().contains_key(n)
                    ==> old(self).next_id() <= n,
            r is Ok ==> old(self).next_id() <= final(self).next_id(),
            r is Ok ==> forall|x: u64|
                #[trigger] rerender_roots(old(self).nodes(), targets@).contains(x)
                    && old(self).nodes()[x].inner is Component ==> final(self).nodes().contains_key(x)
                    && final(self).nodes()[x].inner is Component,
            r is Ok ==> Self::calls_match(old(self), final(self)),
            r is Ok ==> Self::effects_follow(old(self), final(self)),
            r is Ok ==> Self::renders_extend(old(self), final(self)),
            r is Ok ==> forall|p: PrimitiveId|
                #[trigger] diffed_by(Self::calls_since(old(self), final(self))).contains(p) ==> exists|x: u64|
                    final(self).nodes().contains_key(x) && final(self).nodes()[x].inner
                        == MountedInner::<H::State>::Primitive(p) && (!old(self).nodes().contains_key(x)
                        || under_targets(old(self).nodes(), targets@, x)),
            r is Ok ==> Self::renders_since(old(self), final(self)).no_duplicates(),
            r is Ok ==> forall|x: u64|
                #[trigger] Self::renders_since(old(self), final(self)).contains(x) ==> !old(self).nodes().contains_key(x)
                    || under_targets(old(self).nodes(), targets@, x),
            r is Ok ==> forall|x: u64|
                #[trigger] rerender_roots(old(self).nodes(), targets@).contains(x)
                    && old(self).nodes()[x].inner is Component ==> Self::renders_since(old(self), final(self)).contains(x),
    {
        if self.exhausted {
            proof {
                assert(self.call_log().take(self.call_log().len() as int) =~= self.call_log());
            }
            return Err(ContextError::IdsExhausted);
        }
        let roots = self.plan_roots(targets);
        let ghost t0 = self.tree@;
        proof {
            assert forall|j: int| 0 <= j < roots@.len() implies t0.contains_key(#[trigger] roots@[j]) by {
                assert(roots@.to_set().contains(roots@[j]));
                let k = choose|k: int| 0 <= k < targets@.len() && targets@[k] == roots@[j];
                assert(t0.contains_key(targets@[k]));
            }
        }
        let ghost mut tcum: Set<u64> = Set::empty();
        let ghost mut done: Set<u64> = Set::empty();
        proof {
            Self::lemma_calls_match_refl(self);
            Self::lemma_renders_refl(self, tcum);
            Self::lemma_effects_none(self, self);
            lemma_no_diffs(Self::calls_since(self, self));
        }
        let mut i: usize = 0;
        while i < roots.len()
            invariant
                self.applied_updates() == old(self).applied_updates(),
                self.taken_updates() == old(self).taken_updates(),
                self.inv(),
                !self.exhausted,
                !old(self).is_exhausted(),
                Self::calls_match(old(self), self),
                forall|x: u64|
                    #[trigger] self.nodes().contains_key(x) && (!t0.contains_key(x) || self.nodes()[x]
                        != t0[x]) ==> tcum.contains(x),
                hangs_below(self.nodes(), self.parents(), done, tcum),
                forall|j: int| i <= j < roots@.len() ==> !tcum.contains(#[trigger] roots@[j]),
                forall|x: u64| #[trigger] done.contains(x) ==> exists|j: int| 0 <= j < i && roots@[j] == x,
                Self::renders_within(old(self), self, tcum),
                Self::effects_follow(old(self), self),
                Self::diffs_within(old(self), self, tcum),
                forall|j: int|
                    0 <= j < i && t0[#[trigger] roots@[j]].inner is Component ==> Self::renders_since(old(self), self).contains(
                        roots@[j],
                    ),
                forall|x: u64| #[trigger] tcum.contains(x) ==> !t0.contains_key(x) || under_targets(t0, targets@, x),
                old(self).inv(),
                old(self).holes() == Set::<u64>::empty(),
                t0 == old(self).nodes(),
                self.holes() == Set::<u64>::empty(),
                self.root_ids() == old(self).root_ids(),
                0 <= i <= roots@.len(),
                roots@.to_set() == rerender_roots(t0, targets@),
                old(self).next_id() <= self.next_id(),
                forall|n: u64|
                    #[trigger] self.nodes().contains_key(n) && !t0.contains_key(n) ==> old(self).next_id() <= n,
                old(self).parents().submap_of(self.parents()),
                forall|k: u64|
                    #[trigger] self.parents().contains_key(k) && !old(self).parents().contains_key(k)
                        ==> old(self).next_id() <= k,
                forall|n: u64|
                    #[trigger] t0.contains_key(n) && !under_targets(t0, targets@, n) ==> self.nodes().contains_key(n)
                        && self.nodes()[n] == t0[n],
                roots@.no_duplicates(),
                forall|j: int| 0 <= j < roots@.len() ==> t0.contains_key(#[trigger] roots@[j]),
                forall|j: int|
                    i <= j < roots@.len() ==> self.nodes().contains_key(#[trigger] roots@[j])
                        && self.nodes()[roots@[j]] == t0[roots@[j]],
                forall|j: int|
                    0 <= j < i && t0[#[trigger] roots@[j]].inner is Component ==> self.nodes().contains_key(
                        roots@[j],
                    ) && self.nodes()[roots@[j]].inner is Component,
            decreases roots@.len() - i,
        {
            let root = roots[i];
            proof {
                assert(roots@.to_set().contains(roots@[i as int]));
                assert(targets@.contains(root));
            }
            if self.is_component(root) {
                let ghost pre = *self;
                let (res, Ghost(changed)) = self.rerender_one(root, dom);
                match res {
                    Ok(()) => {},
                    Err(e) => {
                        self.exhausted = true;
                        proof {
                            Self::lemma_calls_chain(old(self), &pre, self);
                        }
                        return Err(e);
                    },
                }
                proof {
                    assert forall|k: u64| #[trigger] old(self).parents().contains_key(k) implies
                        self.parents().contains_key(k) && self.parents()[k] == old(self).parents()[k] by {
                        assert(pre.parents().contains_key(k));
                    }
                    assert forall|n: u64| #[trigger] t0.contains_key(n) && !under_targets(t0, targets@, n)
                        implies self.nodes().contains_key(n) && self.nodes()[n] == t0[n] by {
                        if changed.contains(n) {
                            lemma_changed_under_targets(
                                t0,
                                old(self).parents(),
                                old(self).next_id(),
                                pre.nodes(),
                                pre.parents(),
                                targets@,
                                root,
                                changed,
                                n,
                            );
                        }
                    }
                    assert forall|j: int| 0 <= j < roots@.len() && j != i implies !changed.contains(
                        #[trigger] roots@[j],
                    ) by {
                        let x = roots@[j];
                        assert(roots@.to_set().contains(x));
                        if changed.contains(x) {
                            assert(seq![root][0] == root);
                            lemma_changed_under_targets(
                                t0,
                                old(self).parents(),
                                old(self).next_id(),
                                pre.nodes(),
                                pre.parents(),
                                seq![root],
                                root,
                                changed,
                                x,
                            );
                            assert(seq![root][0] == root);
                            if seq![root].contains(x) {
                                assert(x == root);
                            } else {
                                let a = choose|a: u64| seq![root].contains(a) && #[trigger] descends(t0, a, x);
                                assert(a == root);
                                lemma_rerender_roots_apart(t0, targets@, root, x);
                            }
                        }
                    }
                    assert forall|j: int| i + 1 <= j < roots@.len() implies self.nodes().contains_key(
                        #[trigger] roots@[j],
                    ) && self.nodes()[roots@[j]] == t0[roots@[j]] by {
                        assert(!changed.contains(roots@[j]));
                    }
                    assert forall|j: int|
                        0 <= j < i + 1 && t0[#[trigger] roots@[j]].inner is Component implies self.nodes().contains_key(
                        roots@[j],
                    ) && self.nodes()[roots@[j]].inner is Component by {
                        if j < i {
                            assert(!changed.contains(roots@[j]));
                        }
                    }
                    // what earlier renders touched lies apart from what this one changed
                    assert(!tcum.contains(root));
                    assert forall|y: u64| #[trigger] done.contains(y) implies !changed.contains(y) by {
                        let j = choose|j: int| 0 <= j < i && roots@[j] == y;
                        assert(roots@[j] == y);
                    }
                    assert forall|x: u64| #[trigger] tcum.contains(x) implies !changed.contains(x) by {
                        lemma_hangs_disjoint(
                            pre.nodes(),
                            pre.parents(),
                            pre.next_id(),
                            pre.holes(),
                            set![root],
                            changed,
                            done,
                            tcum,
                            x,
                        );
                    }
                    assert forall|x: u64|
                        #[trigger] pre.nodes().contains_key(x) && (!t0.contains_key(x) || pre.nodes()[x] != t0[x])
                            implies self.nodes().contains_key(x) && self.nodes()[x] == pre.nodes()[x] by {
                        assert(tcum.contains(x));
                    }
                    assert forall|x: u64| #[trigger] self.nodes().contains_key(x) && !pre.nodes().contains_key(x) implies !t0.contains_key(
                        x,
                    ) by {
                        assert(pre.next_id() <= x);
                    }
                    Self::lemma_calls_match_chain(old(self), &pre, self);
                    let ti = Self::touched(&pre, self, changed);
                    let tcum2 = tcum.union(ti);
                    let done2 = done.insert(root);
                    assert forall|x: u64|
                        #[trigger] self.nodes().contains_key(x) && (!t0.contains_key(x) || self.nodes()[x] != t0[x])
                            implies tcum2.contains(x) by {
                        if pre.nodes().contains_key(x) && !changed.contains(x) {
                            assert(self.nodes()[x] == pre.nodes()[x]);
                            assert(tcum.contains(x));
                        } else {
                            assert(ti.contains(x));
                        }
                    }
                    assert forall|x: u64| #[trigger] tcum2.contains(x) implies self.nodes().contains_key(x) by {
                        if tcum.contains(x) {
                            assert(!changed.contains(x));
                        }
                    }
                    assert forall|x: u64| #[trigger] tcum2.contains(x) && !done2.contains(x) implies
                        self.parents().contains_key(x) && tcum2.contains(self.parents()[x]) by {
                        if tcum.contains(x) {
                            assert(pre.parents().contains_key(x) && tcum.contains(pre.parents()[x]));
                        } else {
                            assert(ti.contains(x) && !set![root].contains(x));
                        }
                    }
                    assert forall|j: int| i + 1 <= j < roots@.len() implies !tcum2.contains(#[trigger] roots@[j]) by {
                        assert(!changed.contains(roots@[j]));
                        assert(!tcum.contains(roots@[j]));
                    }
                    assert forall|x: u64| #[trigger] done2.contains(x) implies exists|j: int| 0 <= j < i + 1 && roots@[j] == x by {
                        if x == root {
                            assert(roots@[i as int] == x);
                        } else {
                            let j = choose|j: int| 0 <= j < i && roots@[j] == x;
                            assert(roots@[j] == x);
                        }
                    }
                    assert forall|x: u64| #[trigger] tcum.contains(x) implies !ti.contains(x) by {
                        assert(!changed.contains(x));
                    }
                    Self::lemma_renders_chain(old(self), &pre, self, tcum, ti);
                    Self::lemma_effects_chain(old(self), &pre, self);
                    Self::lemma_diffs_chain(old(self), &pre, self, tcum, ti, tcum.union(ti));
                    assert forall|j: int|
                        0 <= j < i + 1 && t0[#[trigger] roots@[j]].inner is Component implies Self::renders_since(
                        old(self),
                        self,
                    ).contains(roots@[j]) by {
                        let a = Self::renders_since(old(self), &pre);
                        let b = Self::renders_since(&pre, self);
                        if j < i {
                            let k = choose|k: int| 0 <= k < a.len() && a[k] == roots@[j];
                            assert((a + b)[k] == roots@[j]);
                        } else {
                            let k = choose|k: int| 0 <= k < b.len() && b[k] == root;
                            assert((a + b)[a.len() + k] == root);
                        }
                    }
                    assert forall|x: u64| #[trigger] tcum2.contains(x) implies !t0.contains_key(x) || under_targets(
                        t0,
                        targets@,
                        x,
                    ) by {
                        if ti.contains(x) && t0.contains_key(x) {
                            assert(pre.nodes().contains_key(x)) by {
                                if !pre.nodes().contains_key(x) {
                                    assert(pre.next_id() <= x);
                                }
                            }
                            assert(changed.contains(x));
                            lemma_changed_under_targets(
                                t0,
                                old(self).parents(),
                                old(self).next_id(),
                                pre.nodes(),
                                pre.parents(),
                                targets@,
                                root,
                                changed,
                                x,
                            );
                        }
                    }
                    tcum = tcum2;
                    done = done2;
                }
            }
            i = i + 1;
        }
        proof {
            assert forall|x: u64|
                #[trigger] rerender_roots(t0, targets@).contains(x) && t0[x].inner is Component implies self.nodes().contains_key(x)
                    && self.nodes()[x].inner is Component by {
                assert(roots@.to_set().contains(x));
                let j = choose|j: int| 0 <= j < roots@.len() && roots@[j] == x;
                assert(t0[roots@[j]].inner is Component);
            }
            assert forall|p: PrimitiveId|
                #[trigger] diffed_by(Self::calls_since(old(self), self)).contains(p) implies exists|x: u64|
                    self.nodes().contains_key(x) && self.nodes()[x].inner == MountedInner::<H::State>::Primitive(p)
                        && (!t0.contains_key(x) || under_targets(t0, targets@, x)) by {
                assert(primitives_of(self.nodes(), tcum).contains(p));
                let x = choose|x: u64|
                    #[trigger] tcum.contains(x) && self.nodes().contains_key(x) && self.nodes()[x].inner
                        == MountedInner::<H::State>::Primitive(p);
                assert(tcum.contains(x));
            }
            assert forall|x: u64|
                #[trigger] rerender_roots(t0, targets@).contains(x) && t0[x].inner is Component implies Self::renders_since(
                old(self),
                self,
            ).contains(x) by {
                assert(roots@.to_set().contains(x));
                let j = choose|j: int| 0 <= j < roots@.len() && roots@[j] == x;
                assert(t0[roots@[j]].inner is Component);
            }
        }
        Ok(())
    }

    /// Hands every waiting update to its component and renders again what the
    /// updates reached, round after round until the queue is empty, between one
    /// `start` and one `commit` of the `Dom`.
    ///
    /// An update addressed to a component that is not mounted stops the work
    /// with `UnknownTarget`; the `Dom` is committed all the same. The rounds
    /// stop after `u64::MAX` of them at the latest.
    #[verifier::spinoff_prover]
    pub fn process_messages<D: Dom>(&mut self, dom: &mut D) -> (r: Result<(), ContextError>)
        requires
            old(self).wf(),
        ensures
            final(self).wf(),
            final(self).root_ids() == old(self).root_ids(),
            old(self).is_exhausted() ==> r == Err::<(), ContextError>(ContextError::IdsExhausted),
            r == Err::<(), ContextError>(ContextError::IdsExhausted) ==> final(self).is_exhausted(),
            r matches Err(ContextError::UnknownTarget(_)) ==> !final(self).is_exhausted(),
            r is Ok ==> !final(self).is_exhausted(),
            !final(self).is_exhausted() ==> old(self).next_id() <= final(self).next_id()
                && forall|n: u64|
                #[trigger] final(self).nodes().contains_key(n) && !old(self).nodes().contains_key(n)
                    ==> old(self).next_id() <= n,
            old(self).is_exhausted() ==> final(self).call_log() == old(self).call_log(),
            !old(self).is_exhausted() ==> {
                &&& Self::calls_extend(old(self), final(self))
                &&& Self::calls_since(old(self), final(self)).len() >= 2
                &&& Self::calls_since(old(self), final(self))[0] == Call::Start
                &&& Self::calls_since(old(self), final(self)).last() == Call::Commit
            },
            !old(self).is_exhausted() && r == Err::<(), ContextError>(ContextError::IdsExhausted)
                ==> final(self).next_id() == u64::MAX,
            !final(self).is_exhausted() ==> Self::effects_follow(old(self), final(self)),
            Self::updates_extend(old(self), final(self)),
            Self::takes_extend(old(self), final(self)),
            r is Ok ==> Self::updates_since(old(self), final(self)) == Self::taken_since(old(self), final(self)),
            r is Ok ==> final(self).last_seen_waiting() == 0 || final(self).batch_rounds().len() == u64::MAX,
            r is Ok ==> {
                &&& forall|i: int|
                    0 <= i < final(self).batch_rounds().len() ==> round_covered(
                        (#[trigger] final(self).batch_rounds()[i]).2,
                        final(self).batch_rounds()[i].1,
                        final(self).batch_rounds()[i].3,
                    )
                &&& forall|i: int, x: u64|
                    0 <= i < final(self).batch_rounds().len() && #[trigger] final(self).batch_rounds()[i].3.contains(x)
                        ==> Self::renders_since(old(self), final(self)).contains(x)
                &&& forall|i: int|
                    0 <= i < final(self).batch_rounds().len() ==> old(self).applied_updates().len()
                        <= (#[trigger] final(self).batch_rounds()[i]).0 && round_matches(
                        final(self).applied_updates(),
                        final(self).batch_rounds()[i],
                    )
                &&& forall|j: int|
                    old(self).applied_updates().len() <= j < final(self).applied_updates().len()
                        ==> #[trigger] update_covered(final(self).batch_rounds(), j)
            },
    {
        if self.exhausted {
            proof {
                assert(self.applied_updates().take(self.applied_updates().len() as int) =~= self.applied_updates());
                assert(self.taken_updates().take(self.taken_updates().len() as int) =~= self.taken_updates());
            }
            return Err(ContextError::IdsExhausted);
        }
        self.dom_start(dom);
        proof {
            assert(self.nodes() == old(self).nodes());
            assert(self.holes() == old(self).holes());
            assert(self.parents() == old(self).parents());
            assert(self.next_id() == old(self).next_id());
            assert(self.root_ids() == old(self).root_ids());
            assert(self.is_exhausted() == old(self).is_exhausted());
            assert(self.wf());
            assert(self.call_log().take(old(self).call_log().len() as int) =~= old(self).call_log());
            assert(Self::calls_since(old(self), self) =~= seq![Call::Start]);
            assert(seq![Call::Start][0] == Call::Start);
            assert forall|k: int| 0 <= k < Self::calls_since(old(self), self).len() implies !(
            #[trigger] Self::calls_since(old(self), self)[k] is Effects) by {
                assert(k == 0);
            }
            Self::lemma_effects_none(old(self), self);
        }
        let mut result: Result<(), ContextError> = Ok(());
        let mut rounds: u64 = 0;
        let ghost mut rs: Seq<(int, Seq<u64>, Map<u64, Mounted<H::State>>, Seq<u64>)> = Seq::empty();
        proof {
            assert(self.applied_updates().take(self.applied_updates().len() as int) =~= self.applied_updates());
            assert(self.applied_updates() == old(self).applied_updates());
            assert(self.taken_updates().take(self.taken_updates().len() as int) =~= self.taken_updates());
            assert(Self::updates_since(old(self), self) =~= Seq::<(u64, u64)>::empty());
            assert(Self::taken_since(old(self), self) =~= Seq::<(u64, u64)>::empty());
        }
        let mut waiting = self.waiting();
        while result.is_ok() && rounds < u64::MAX && waiting > 0
            invariant
                result is Ok ==> self.last_seen_waiting() == waiting,
                result is Ok ==> rs.len() == rounds,
                self.wf(),
                !old(self).is_exhausted(),
                self.root_ids() == old(self).root_ids(),
                result is Ok ==> !self.is_exhausted(),
                result == Err::<(), ContextError>(ContextError::IdsExhausted) ==> self.is_exhausted(),
                result matches Err(ContextError::UnknownTarget(_)) ==> !self.is_exhausted(),
                !self.is_exhausted() ==> old(self).next_id() <= self.next_id(),
                !self.is_exhausted() ==> forall|n: u64|
                    #[trigger] self.nodes().contains_key(n) && !old(self).nodes().contains_key(n)
                        ==> old(self).next_id() <= n,
                Self::calls_extend(old(self), self),
                Self::calls_since(old(self), self).len() >= 1,
                Self::calls_since(old(self), self)[0] == Call::Start,
                result == Err::<(), ContextError>(ContextError::IdsExhausted) ==> self.next_id() == u64::MAX,
                !self.is_exhausted() ==> {
                    &&& Self::renders_extend(old(self), self)
                    &&& Self::effects_follow(old(self), self)
                },
                Self::updates_extend(old(self), self),
                Self::takes_extend(old(self), self),
                result is Ok ==> Self::updates_since(old(self), self) == Self::taken_since(old(self), self),
                forall|i: int| 0 <= i < rs.len() ==> round_covered((#[trigger] rs[i]).2, rs[i].1, rs[i].3),
                result is Ok ==> forall|i: int, x: u64|
                    0 <= i < rs.len() && #[trigger] rs[i].3.contains(x) ==> Self::renders_since(old(self), self).contains(x),
                forall|i: int|
                    0 <= i < rs.len() ==> old(self).applied_updates().len() <= (#[trigger] rs[i]).0 && round_matches(
                        self.applied_updates(),
                        rs[i],
                    ),
                result is Ok ==> forall|j: int|
                    old(self).applied_updates().len() <= j < self.applied_updates().len() ==> #[trigger] update_covered(
                        rs,
                        j,
                    ),
            decreases u64::MAX - rounds,
        {
            let ghost before = *self;
            match self.receive_messages() {
                Ok(targets) => {
                    let ghost mid = *self;
                    match self.rerender(&targets, dom) {
                        Ok(()) => {
                            proof {
                                assert forall|n: u64|
                                    #[trigger] self.nodes().contains_key(n) && !old(self).nodes().contains_key(n)
                                        implies old(self).next_id() <= n by {
                                    if !mid.nodes().contains_key(n) {
                                        assert(mid.next_id() <= n);
                                    } else {
                                        assert(before.nodes().contains_key(n));
                                    }
                                }
                                Self::lemma_extend_refl(&before);
                                assert(mid.call_log() == before.call_log());
                                assert(Self::calls_since(old(self), &mid) == Self::calls_since(old(self), &before));
                                Self::lemma_calls_chain(old(self), &mid, self);
                                assert(Self::calls_since(old(self), self)[0] == Self::calls_since(old(self), &mid)[0]);
                                assert(mid.rendered() == before.rendered());
                                Self::lemma_effects_none(&before, &mid);
                                Self::lemma_effects_chain(old(self), &before, &mid);
                                Self::lemma_renders_concat(old(self), &mid, self);
                                Self::lemma_effects_chain(old(self), &mid, self);
                                Self::lemma_round_covered(&mid, self, targets@);
                                Self::lemma_updates_prefix(&before, &mid);
                                Self::lemma_updates_chain(old(self), &before, &mid);
                                Self::lemma_logs_step(old(self), &before, &mid);
                                let nr = (before.applied_updates().len() as int, targets@, mid.nodes(), Self::renders_since(&mid, self));
                                let prs = rs;
                                rs = rs.push(nr);
                                lemma_u64_concat_contains(Self::renders_since(old(self), &mid), Self::renders_since(&mid, self));
                                assert(Self::renders_since(old(self), &mid) == Self::renders_since(old(self), &before));
                                assert forall|i: int| 0 <= i < rs.len() implies round_covered((#[trigger] rs[i]).2, rs[i].1, rs[i].3) by {
                                    if i < prs.len() {
                                        assert(rs[i] == prs[i]);
                                    }
                                }
                                assert forall|i: int, x: u64|
                                    0 <= i < rs.len() && #[trigger] rs[i].3.contains(x) implies Self::renders_since(old(self), self).contains(x) by {
                                    if i < prs.len() {
                                        assert(rs[i] == prs[i]);
                                    }
                                }
                                assert forall|i: int|
                                    0 <= i < rs.len() implies old(self).applied_updates().len() <= (#[trigger] rs[i]).0 && round_matches(
                                    self.applied_updates(),
                                    rs[i],
                                ) by {
                                    if i < prs.len() {
                                        assert(rs[i] == prs[i]);
                                        lemma_round_matches_prefix(before.applied_updates(), self.applied_updates(), prs[i]);
                                    } else {
                                        assert forall|j: int| 0 <= j < rs[i].1.len() implies self.applied_updates()[rs[i].0 + j].0
                                            == #[trigger] rs[i].1[j] by {
                                            assert(Self::updates_since(&before, &mid)[j] == mid.applied_updates()[before.applied_updates().len() + j]);
                                        }
                                    }
                                }
                                assert forall|j: int|
                                    old(self).applied_updates().len() <= j < self.applied_updates().len() implies #[trigger] update_covered(
                                    rs,
                                    j,
                                ) by {
                                    if j < before.applied_updates().len() {
                                        assert(update_covered(prs, j));
                                        let i = choose|i: int| #[trigger] covers(prs, i, j);
                                        assert(rs[i] == prs[i]);
                                        assert(covers(rs, i, j));
                                    } else {
                                        assert(covers(rs, prs.len() as int, j));
                                    }
                                }
                            }
                        },
                        Err(e) => {
                            proof {
                                assert(mid.call_log() == before.call_log());
                                assert(Self::calls_since(old(self), &mid) == Self::calls_since(old(self), &before));
                                Self::lemma_calls_chain(old(self), &mid, self);
                                assert(Self::calls_since(old(self), self)[0] == Self::calls_since(old(self), &mid)[0]);
                                Self::lemma_updates_prefix(&before, &mid);
                                Self::lemma_updates_chain(old(self), &before, &mid);
                                Self::lemma_logs_step(old(self), &before, &mid);
                                assert forall|i: int| 0 <= i < rs.len() implies old(self).applied_updates().len() <= (#[trigger] rs[i]).0
                                    && round_matches(self.applied_updates(), rs[i]) by {
                                    lemma_round_matches_prefix(before.applied_updates(), self.applied_updates(), rs[i]);
                                }
                            }
                            result = Err(e);

                        },
                    }
                },
                Err(e) => {
                    proof {
                        Self::lemma_extend_refl(&before);
                        assert(self.call_log() == before.call_log());
                        assert(Self::calls_since(old(self), self) == Self::calls_since(old(self), &before));
                        assert(self.rendered() == before.rendered());
                        Self::lemma_effects_none(&before, self);
                        Self::lemma_effects_chain(old(self), &before, self);
                        Self::lemma_updates_prefix(&before, self);
                        Self::lemma_updates_chain(old(self), &before, self);
                        lemma_prefix_chain(old(self).taken_updates(), before.taken_updates(), self.taken_updates());
                        assert forall|i: int| 0 <= i < rs.len() implies old(self).applied_updates().len() <= (#[trigger] rs[i]).0
                            && round_matches(self.applied_updates(), rs[i]) by {
                            lemma_round_matches_prefix(before.applied_updates(), self.applied_updates(), rs[i]);
                        }
                    }
                    result = Err(e);

                },
            }
            rounds = rounds + 1;
            if result.is_ok() {
                waiting = self.waiting();
            }
        }
        proof {
            self.rounds@ = rs;
        }
        let ghost before_commit = *self;
        self.dom_commit(dom);
        proof {
            let lo = old(self).call_log().len() as int;
            assert(self.call_log().take(lo) =~= before_commit.call_log().take(lo));
            assert(Self::calls_since(old(self), self) =~= Self::calls_since(old(self), &before_commit).push(
                Call::Commit,
            ));
            if !self.is_exhausted() {
                let lb = before_commit.call_log().len() as int;
                assert(self.call_log().take(lb) =~= before_commit.call_log());
                assert(Self::calls_since(&before_commit, self) =~= seq![Call::Commit]);
                assert forall|k: int| 0 <= k < Self::calls_since(&before_commit, self).len() implies !(
                #[trigger] Self::calls_since(&before_commit, self)[k] is Effects) by {
                    assert(k == 0);
                }
                assert(self.nodes() == before_commit.nodes());
                Self::lemma_effects_none(&before_commit, self);
                Self::lemma_effects_chain(old(self), &before_commit, self);
            }
        }
        result
    }

    /// The nodes of the tree that were not there before.
    pub open spec fn fresh_nodes(old: &Self, new: &Self) -> Set<u64> {
        new.nodes().dom().difference(old.nodes().dom())
    }

    /// `new` only adds to `old`: new nodes carry new ids and no node or recorded
    /// parent changes.
    pub open spec fn only_adds(old: &Self, new: &Self) -> bool {
        &&& old.nodes().submap_of(new.nodes())
        &&& old.parents().submap_of(new.parents())
        &&& forall|n: u64|
            #[trigger] new.nodes().contains_key(n) && !old.nodes().contains_key(n) ==> old.next_id()
                <= n
        &&& forall|k: u64|
            #[trigger] new.parents().contains_key(k) && !old.parents().contains_key(k)
                ==> old.next_id() <= k
    }

    /// Mounts an element: a primitive is mounted on the `Dom` (below `parent`
    /// where there is one) with its children below it; a component is rendered
    /// and what it renders is mounted in its place, then its effects run.
    ///
    /// The node gets the next id; the nodes mounted are exactly those below it.
    #[verifier::spinoff_prover]
    fn mount<D: Dom>(
        &mut self,
        element: Element<H::Template>,
        parent: Option<PrimitiveId>,
        dom: &mut D,
    ) -> (r: Result<u64, ContextError>)
        requires
            old(self).inv(),
        ensures
            final(self).applied_updates() == old(self).applied_updates(),
            final(self).taken_updates() == old(self).taken_updates(),
            Self::progress(old(self), final(self)),
            Self::calls_extend(old(self), final(self)),
            only_mounts(Self::calls_since(old(self), final(self))),
            match r {
                Ok(id) => {
                    &&& final(self).inv()
                    &&& id == old(self).next_id()
                    &&& mounted_by(Self::calls_since(old(self), final(self))) == primitives_of(
                        final(self).nodes(),
                        Self::fresh_nodes(old(self), final(self)),
                    )
                    &&& Self::only_adds(old(self), final(self))
                    &&& !final(self).parents().contains_key(id)
                    &&& region(
                        final(self).nodes(),
                        final(self).parents(),
                        set![id],
                        Self::fresh_nodes(old(self), final(self)),
                    )
                    &&& mirrors(final(self).nodes(), Self::calls_since(old(self), final(self)), id, element, parent)
                    &&& placed(final(self).nodes(), Self::calls_since(old(self), final(self)), id, parent)
                    &&& final(self).nodes().len() + old(self).next_id() == old(self).nodes().len() + final(self).next_id()
                    &&& Self::renders_within(old(self), final(self), Self::fresh_nodes(old(self), final(self)))
                    &&& Self::renders_since(old(self), final(self)).to_set() == components_of(
                        final(self).nodes(),
                        Self::fresh_nodes(old(self), final(self)),
                    )
                    &&& Self::effects_follow(old(self), final(self))
                },
                Err(e) => e == ContextError::IdsExhausted && final(self).next_id() == u64::MAX,
            },
            plain(element) ==> (r is Ok <==> old(self).next_id() + node_count(element) <= u64::MAX),
            plain(element) && r is Ok ==> final(self).next_id() == old(self).next_id() + node_count(element),
            r is Ok && element.0 is Component ==> Self::calls_since(old(self), final(self)).len() >= 1
                && Self::calls_since(old(self), final(self)).last() == Call::Effects(old(self).next_id()),
            r is Ok && element.0 is Component ==> mirrors_list(
                final(self).nodes(),
                Self::calls_since(old(self), final(self)),
                final(self).nodes()[old(self).next_id()].children@,
                final(self).render_outputs()[old(self).next_id()],
                parent,
            ),
            r is Ok ==> match element.0 {
                ElementInner::Primitive(p, _) => {
                    &&& final(self).nodes()[old(self).next_id()].inner is Primitive
                    &&& Self::calls_since(old(self), final(self)).len() >= 1
                    &&& Self::calls_since(old(self), final(self))[0] == Call::Mount(
                        final(self).nodes()[old(self).next_id()].inner->Primitive_0,
                        p,
                        parent,
                    )
                },
                ElementInner::Component(_) => true,
            },
        decreases u64::MAX - old(self).counter, 0nat,
    {
        let res = self.allocate();
        proof {
            assert(self.call_log().take(old(self).call_log().len() as int) =~= old(self).call_log());
            assert(Self::calls_since(old(self), self) =~= Seq::<Call>::empty());
        }
        let id = match res {
            Ok(id) => id,
            Err(e) => return Err(e),
        };
        let ghost s1 = *self;
        proof {
            lemma_wf_raise(self.tree@, self.parents@, old(self).counter, self.counter, self.holes@);
        }
        let Element(inner, _key) = element;
        let ghost t1 = self.tree@;
        let ghost pm1 = self.parents@;
        match inner {
            ElementInner::Primitive(p, c) => {
                let ghost gp = p;
                let pid = self.dom_mount(dom, p, parent);
                let ghost mounted_one = *self;
                let sub = self.dom_sub_list(dom, pid);
                let ghost before_children = *self;
                let ghost d0 = seq![Call::Mount(pid, gp, parent), Call::SubList(pid, sub)];
                proof {
                    self.lemma_nothing_below_fresh(id);
                    assert(self.call_log() =~= old(self).call_log() + d0);
                    assert(self.call_log().take(old(self).call_log().len() as int) =~= old(self).call_log());
                    assert(Self::calls_since(old(self), self) =~= d0);
                    assert(d0 =~= seq![Call::Mount(pid, gp, parent)] + seq![Call::SubList(pid, sub)]);
                    lemma_single_call(Call::Mount(pid, gp, parent));
                    lemma_single_call(Call::SubList(pid, sub));
                    lemma_calls_concat(seq![Call::Mount(pid, gp, parent)], seq![Call::SubList(pid, sub)]);
                    assert(mounted_by(d0) =~= set![pid]);
                }
                let res = self.mount_all(id, Vec::new(), c, Some(sub), dom);
                proof {
                    Self::lemma_calls_chain(old(self), &before_children, self);
                    lemma_calls_concat(d0, Self::calls_since(&before_children, self));
                }
                let children = match res {
                    Ok(ch) => ch,
                    Err(e) => return Err(e),
                };
                let ghost after_children = *self;
                let node = Mounted { inner: MountedInner::Primitive(pid), children };
                proof {
                    lemma_insert_node(self.tree@, self.parents@, self.counter, self.holes@, id, node);
                    assert(self.holes@.remove(id) =~= self.holes@);
                }
                self.tree.insert(id, node);
                proof {
                    let ghost f = Self::fresh_nodes(old(self), self);
                    assert(f =~= Self::fresh_nodes(&before_children, &after_children).insert(id));
                    assert(!after_children.nodes().contains_key(id));
                    assert(after_children.nodes().submap_of(self.nodes()));
                    let dd = Self::calls_since(old(self), self);
                    let dc = Self::calls_since(&before_children, &after_children);
                    assert(dd == d0 + dc);
                    assert(d0.contains(Call::SubList(pid, sub)));
                    assert(d0.contains(Call::Mount(pid, gp, parent)));
                    assert(dd.contains(Call::SubList(pid, sub)));
                    assert(dd.contains(Call::Mount(pid, gp, parent)));
                    assert forall|k: int| 0 <= k < c@.len() implies mirrors(
                        self.nodes(),
                        dd,
                        self.nodes()[id].children@[k],
                        #[trigger] c@[k],
                        Some(sub),
                    ) by {
                        assert(mirrors(after_children.nodes(), dc, node.children@[0 + k], c@[k], Some(sub)));
                        lemma_mirrors_grow(after_children.nodes(), self.nodes(), dc, dd, node.children@[k], c@[k], Some(sub));
                    }
                    assert(mirrors(self.nodes(), dd, id, element, parent));
                    assert forall|i: int| 0 <= i < self.nodes()[id].children@.len() implies id < #[trigger] self.nodes()[id].children@[i]
                        && placed(self.nodes(), dd, self.nodes()[id].children@[i], Some(sub)) by {
                        assert(placed(after_children.nodes(), dc, node.children@[i], Some(sub)));
                        lemma_placed_grow(after_children.nodes(), self.nodes(), dc, dd, node.children@[i], Some(sub));
                        assert(list_ok(after_children.nodes(), after_children.parents(), id, node.children@));
                    }
                    assert(placed(self.nodes(), dd, id, parent));
                    let f2 = Self::fresh_nodes(&before_children, &after_children);
                    assert(Self::calls_since(old(self), self) == Self::calls_since(old(self), &after_children));
                    lemma_primitives_union(self.nodes(), f2, set![id]);
                    assert(f2.union(set![id]) =~= f);
                    lemma_primitives_agree(after_children.nodes(), self.nodes(), f2);
                    lemma_primitives_single(self.nodes(), id);
                    assert(before_children.rendered() == old(self).rendered());
                    assert(Self::renders_since(old(self), self) == Self::renders_since(&before_children, &after_children));
                    Self::lemma_renders_widen(&before_children, &after_children, f2, f);
                    lemma_components_union(self.nodes(), f2, set![id]);
                    lemma_components_agree(after_children.nodes(), self.nodes(), f2);
                    assert(components_of(self.nodes(), set![id]) =~= Set::<u64>::empty());
                    assert(components_of(self.nodes(), f2).union(Set::<u64>::empty()) =~= components_of(self.nodes(), f2));
                    assert forall|k: int| 0 <= k < Self::calls_since(old(self), &before_children).len() implies !(
                    #[trigger] Self::calls_since(old(self), &before_children)[k] is Effects) by {
                        assert(Self::calls_since(old(self), &before_children)[k] == d0[k]);
                    }
                    Self::lemma_effects_none(old(self), &before_children);
                    Self::lemma_effects_chain(old(self), &before_children, &after_children);
                }
                Ok(id)
            },
            ElementInner::Component(template) => {
                let (mut state, rendered) = self.render_new(id, template);
                let ghost els = rendered@;
                proof {
                    assert(self.rendered().take(old(self).rendered().len() as int) =~= old(self).rendered());
                    assert(Self::renders_since(old(self), self) =~= seq![id]);
                    assert(seq![id][0] == id);
                    lemma_outputs_insert(old(self).render_outputs(), id, rendered@, set![id]);
                    assert(Self::renders_within(old(self), self, set![id]));
                }
                let ghost before_children = *self;
                proof {
                    self.lemma_nothing_below_fresh(id);
                }
                let res = self.mount_all(id, Vec::new(), rendered, parent, dom);
                proof {
                    Self::lemma_calls_chain(old(self), &before_children, self);
                    assert(Self::calls_since(old(self), &before_children) =~= Seq::<Call>::empty());
                    assert(Self::calls_since(old(self), self) =~= Self::calls_since(&before_children, self));
                }
                let children = match res {
                    Ok(ch) => ch,
                    Err(e) => return Err(e),
                };
                let ghost children_done = *self;
                self.run_effects(id, &mut state);
                proof {
                    assert(self.nodes() == children_done.nodes());
                    assert(self.parents() == children_done.parents());
                    assert(self.next_id() == children_done.next_id());
                    assert(self.holes() == children_done.holes());
                    assert(self.root_ids() == children_done.root_ids());
                    assert(self.is_exhausted() == children_done.is_exhausted());
                    let lo = old(self).call_log().len() as int;
                    let e = seq![Call::Effects(id)];
                    assert(self.call_log().take(lo) =~= children_done.call_log().take(lo));
                    assert(Self::calls_since(old(self), self) =~= Self::calls_since(old(self), &children_done) + e);
                    lemma_calls_concat(Self::calls_since(old(self), &children_done), e);
                    lemma_single_call(Call::Effects(id));
                    assert(mounted_by(Self::calls_since(old(self), &children_done)).union(Set::<PrimitiveId>::empty())
                        =~= mounted_by(Self::calls_since(old(self), &children_done)));
                }
                let ghost after_children = *self;
                let node = Mounted { inner: MountedInner::Component(state), children };
                proof {
                    lemma_insert_node(self.tree@, self.parents@, self.counter, self.holes@, id, node);
                    assert(self.holes@.remove(id) =~= self.holes@);
                }
                self.tree.insert(id, node);
                proof {
                    let ghost f = Self::fresh_nodes(old(self), self);
                    assert(f =~= Self::fresh_nodes(&before_children, &after_children).insert(id));
                    let f2 = Self::fresh_nodes(&before_children, &after_children);
                    assert(Self::calls_since(old(self), self) == Self::calls_since(old(self), &after_children));
                    lemma_primitives_union(self.nodes(), f2, set![id]);
                    assert(f2.union(set![id]) =~= f);
                    lemma_primitives_agree(after_children.nodes(), self.nodes(), f2);
                    lemma_primitives_single(self.nodes(), id);
                    assert(Set::<PrimitiveId>::empty().union(primitives_of(self.nodes(), f2)) =~= primitives_of(self.nodes(), f2));
                    assert(primitives_of(self.nodes(), f2).union(Set::<PrimitiveId>::empty()) =~= primitives_of(self.nodes(), f2));
                    assert forall|x: u64| #[trigger] set![id].contains(x) implies !f2.contains(x) by {}
                    Self::lemma_renders_chain(old(self), &before_children, &after_children, set![id], f2);
                    assert(set![id].union(f2) =~= f);
                    lemma_concat_to_set(Self::renders_since(old(self), &before_children), Self::renders_since(&before_children, &after_children));
                    assert(Self::renders_since(old(self), &before_children).to_set() =~= set![id]);
                    lemma_components_union(self.nodes(), set![id], f2);
                    lemma_components_agree(after_children.nodes(), self.nodes(), f2);
                    assert(components_of(self.nodes(), set![id]) =~= set![id]);
                    assert(Self::renders_since(old(self), self) == Self::renders_since(old(self), &children_done));
                    assert(Self::effects_follow(&before_children, &children_done));
                    assert(Self::calls_since(old(self), &children_done) == Self::calls_since(&before_children, &children_done));
                    assert(flushed_by(Self::calls_since(old(self), self)) =~= Self::renders_since(old(self), self).to_set());
                    let dd = Self::calls_since(old(self), self);
                    let dc = Self::calls_since(&before_children, &children_done);
                    assert(calls_within(dc, dd));
                    assert(children_done.nodes().submap_of(self.nodes()));
                    assert forall|i: int| 0 <= i < self.nodes()[id].children@.len() implies id < #[trigger] self.nodes()[id].children@[i]
                        && placed(self.nodes(), dd, self.nodes()[id].children@[i], parent) by {
                        assert(placed(children_done.nodes(), dc, node.children@[i], parent));
                        lemma_placed_grow(children_done.nodes(), self.nodes(), dc, dd, node.children@[i], parent);
                        assert(list_ok(children_done.nodes(), children_done.parents(), id, node.children@));
                    }
                    assert(placed(self.nodes(), dd, id, parent));
                    assert(set![id].contains(id));
                    assert(!f2.contains(id));
                    assert(Self::fresh_nodes(&before_children, &children_done) == f2);
                    lemma_outputs_at(before_children.render_outputs(), children_done.render_outputs(), f2, id);
                    assert(self.render_outputs()[id] == els);
                    assert forall|k: int| 0 <= k < els.len() implies mirrors(
                        self.nodes(),
                        dd,
                        self.nodes()[id].children@[k],
                        #[trigger] els[k],
                        parent,
                    ) by {
                        assert(mirrors(children_done.nodes(), dc, node.children@[0 + k], els[k], parent));
                        lemma_mirrors_grow(children_done.nodes(), self.nodes(), dc, dd, node.children@[k], els[k], parent);
                    }
                }
                Ok(id)
            },
        }
    }

    /// Mounts elements in order below node `owner`, which is out of the tree,
    /// after the children it has already; gives the whole list of its children.
    #[verifier::spinoff_prover]
    fn mount_all<D: Dom>(
        &mut self,
        owner: u64,
        prefix: Vec<u64>,
        elements: Vec<Element<H::Template>>,
        parent: Option<PrimitiveId>,
        dom: &mut D,
    ) -> (r: Result<Vec<u64>, ContextError>)
        requires
            old(self).inv(),
            owner < old(self).next_id(),
            !old(self).nodes().contains_key(owner),
            list_ok(old(self).nodes(), old(self).parents(), owner, prefix@),
            list_complete(old(self).nodes(), old(self).parents(), owner, prefix@),
        ensures
            final(self).applied_updates() == old(self).applied_updates(),
            final(self).taken_updates() == old(self).taken_updates(),
            Self::progress(old(self), final(self)),
            Self::calls_extend(old(self), final(self)),
            only_mounts(Self::calls_since(old(self), final(self))),
            match r {
                Ok(ids) => {
                    &&& final(self).inv()
                    &&& mounted_by(Self::calls_since(old(self), final(self))) == primitives_of(
                        final(self).nodes(),
                        Self::fresh_nodes(old(self), final(self)),
                    )
                    &&& ids@.len() == prefix@.len() + elements@.len()
                    &&& ids@.subrange(0, prefix@.len() as int) == prefix@
                    &&& Self::only_adds(old(self), final(self))
                    &&& list_ok(final(self).nodes(), final(self).parents(), owner, ids@)
                    &&& list_complete(final(self).nodes(), final(self).parents(), owner, ids@)
                    &&& region(
                        final(self).nodes(),
                        final(self).parents(),
                        ids@.subrange(prefix@.len() as int, ids@.len() as int).to_set(),
                        Self::fresh_nodes(old(self), final(self)),
                    )
                    &&& forall|k: int|
                        0 <= k < elements@.len() ==> mirrors(
                            final(self).nodes(),
                            Self::calls_since(old(self), final(self)),
                            ids@[prefix@.len() + k],
                            #[trigger] elements@[k],
                            parent,
                        )
                    &&& forall|j: int|
                        prefix@.len() <= j < ids@.len() ==> placed(
                            final(self).nodes(),
                            Self::calls_since(old(self), final(self)),
                            #[trigger] ids@[j],
                            parent,
                        )
                    &&& Self::renders_within(old(self), final(self), Self::fresh_nodes(old(self), final(self)))
                    &&& Self::renders_since(old(self), final(self)).to_set() == components_of(
                        final(self).nodes(),
                        Self::fresh_nodes(old(self), final(self)),
                    )
                    &&& Self::effects_follow(old(self), final(self))
                    &&& final(self).nodes().len() + old(self).next_id() == old(self).nodes().len() + final(self).next_id()
                },
                Err(e) => e == ContextError::IdsExhausted && final(self).next_id() == u64::MAX,
            },
            (forall|k: int| 0 <= k < elements@.len() ==> plain(#[trigger] elements@[k])) ==> {
                &&& (r is Ok <==> old(self).next_id() + nodes_count(elements@) <= u64::MAX)
                &&& r is Ok ==> final(self).next_id() == old(self).next_id() + nodes_count(elements@)
            },
        decreases u64::MAX - old(self).counter, 1nat,
    {
        let mut rest = reversed(elements);
        let mut ids = prefix;
        let ghost mut added: Seq<u64> = Seq::empty();
        let ghost n = rest@.len();
        proof {
            assert(self.call_log().take(self.call_log().len() as int) =~= self.call_log());
            assert(Self::calls_since(old(self), self) =~= Seq::<Call>::empty());
            assert(mounted_by(Seq::<Call>::empty()) =~= Set::<PrimitiveId>::empty());
            assert(Self::fresh_nodes(old(self), self) =~= Set::<u64>::empty());
            assert(primitives_of(self.nodes(), Set::<u64>::empty()) =~= Set::<PrimitiveId>::empty());
            Self::lemma_renders_refl(self, Set::<u64>::empty());
            assert(Self::renders_since(old(self), self).to_set() =~= Set::<u64>::empty());
            assert(components_of(self.nodes(), Set::<u64>::empty()) =~= Set::<u64>::empty());
            Self::lemma_effects_none(old(self), self);
            assert(elements@.take(0) =~= Seq::<Element<H::Template>>::empty());
        }
        while rest.len() > 0
            invariant
                self.applied_updates() == old(self).applied_updates(),
                self.taken_updates() == old(self).taken_updates(),
                old(self).inv(),
                self.inv(),
                rest@.len() + added.len() == n,
                n == elements@.len(),
                ids@ == prefix@ + added,
                rest@ == elements@.subrange(added.len() as int, n as int).reverse(),
                forall|k: int|
                    0 <= k < added.len() ==> mirrors(
                        self.nodes(),
                        Self::calls_since(old(self), self),
                        added[k],
                        #[trigger] elements@[k],
                        parent,
                    ),
                forall|k: int|
                    0 <= k < added.len() ==> placed(self.nodes(), Self::calls_since(old(self), self), #[trigger] added[k], parent),
                Self::calls_extend(old(self), self),
                only_mounts(Self::calls_since(old(self), self)),
                mounted_by(Self::calls_since(old(self), self)) == primitives_of(
                    self.nodes(),
                    Self::fresh_nodes(old(self), self),
                ),
                Self::renders_within(old(self), self, Self::fresh_nodes(old(self), self)),
                Self::renders_since(old(self), self).to_set() == components_of(
                    self.nodes(),
                    Self::fresh_nodes(old(self), self),
                ),
                Self::effects_follow(old(self), self),
                owner < old(self).next_id(),
                !self.nodes().contains_key(owner),
                Self::progress(old(self), self),
                Self::only_adds(old(self), self),
                list_ok(self.nodes(), self.parents(), owner, ids@),
                list_complete(self.nodes(), self.parents(), owner, ids@),
                region(self.nodes(), self.parents(), added.to_set(), Self::fresh_nodes(old(self), self)),
                self.nodes().len() + old(self).next_id() == old(self).nodes().len() + self.next_id(),
                (forall|k: int| 0 <= k < elements@.len() ==> plain(#[trigger] elements@[k])) ==> self.next_id()
                    == old(self).next_id() + nodes_count(elements@.take(added.len() as int)),
            decreases rest@.len(),
        {
            proof {
                assert(rest@.last() == elements@[added.len() as int]);
            }
            let e = rest.pop().unwrap();
            let ghost before = *self;
            let ghost k0 = added.len() as int;
            let res = self.mount(e, parent, dom);
            proof {
                Self::lemma_calls_chain(old(self), &before, self);
                lemma_calls_concat(Self::calls_since(old(self), &before), Self::calls_since(&before, self));
                lemma_nodes_count_take(elements@, k0);
                if forall|k: int| 0 <= k < elements@.len() ==> plain(#[trigger] elements@[k]) {
                    assert(plain(elements@[k0]));
                }
            }
            let cid = match res {
                Ok(cid) => cid,
                Err(e) => return Err(e),
            };
            let ghost mounted = *self;
            proof {
                let fb = Self::fresh_nodes(old(self), &before);
                let fm = Self::fresh_nodes(&before, self);
                assert(Self::fresh_nodes(old(self), self) =~= fb.union(fm));
                lemma_primitives_union(self.nodes(), fb, fm);
                lemma_primitives_agree(before.nodes(), self.nodes(), fb);
                assert forall|x: u64| #[trigger] fb.contains(x) implies !fm.contains(x) by {}
                Self::lemma_renders_chain(old(self), &before, self, fb, fm);
                lemma_concat_to_set(Self::renders_since(old(self), &before), Self::renders_since(&before, self));
                lemma_components_union(self.nodes(), fb, fm);
                lemma_components_agree(before.nodes(), self.nodes(), fb);
                Self::lemma_effects_chain(old(self), &before, self);
            }
            proof {
                assert(set![cid].contains(cid));
                lemma_set_parent(self.tree@, self.parents@, self.counter, self.holes@, cid, owner);
                self.parents@ = self.parents@.insert(cid, owner);
            }
            let ghost prev_ids = ids@;
            let ghost prev_added = added;
            ids.push(cid);
            proof {
                added = added.push(cid);
                assert(ids@ =~= prefix@ + added);
                assert(rest@ =~= elements@.subrange(added.len() as int, n as int).reverse());
                assert(before.nodes().submap_of(self.nodes()));
                assert forall|k: int| 0 <= k < added.len() implies mirrors(
                    self.nodes(),
                    Self::calls_since(old(self), self),
                    added[k],
                    #[trigger] elements@[k],
                    parent,
                ) by {
                    if k < k0 {
                        assert(added[k] == prev_added[k]);
                        assert(mirrors(before.nodes(), Self::calls_since(old(self), &before), prev_added[k], elements@[k], parent));
                        lemma_mirrors_grow(
                            before.nodes(),
                            self.nodes(),
                            Self::calls_since(old(self), &before),
                            Self::calls_since(old(self), self),
                            added[k],
                            elements@[k],
                            parent,
                        );
                    } else {
                        assert(mirrors(mounted.nodes(), Self::calls_since(&before, &mounted), cid, elements@[k], parent));
                        lemma_mirrors_grow(
                            mounted.nodes(),
                            self.nodes(),
                            Self::calls_since(&before, &mounted),
                            Self::calls_since(old(self), self),
                            cid,
                            elements@[k],
                            parent,
                        );
                    }
                }
                assert forall|k: int| 0 <= k < added.len() implies placed(
                    self.nodes(),
                    Self::calls_since(old(self), self),
                    #[trigger] added[k],
                    parent,
                ) by {
                    if k < k0 {
                        assert(added[k] == prev_added[k]);
                        assert(placed(before.nodes(), Self::calls_since(old(self), &before), prev_added[k], parent));
                        lemma_placed_grow(
                            before.nodes(),
                            self.nodes(),
                            Self::calls_since(old(self), &before),
                            Self::calls_since(old(self), self),
                            added[k],
                            parent,
                        );
                    } else {
                        assert(added[k] == cid);
                        lemma_placed_grow(
                            mounted.nodes(),
                            self.nodes(),
                            Self::calls_since(&before, &mounted),
                            Self::calls_since(old(self), self),
                            cid,
                            parent,
                        );
                    }
                }
                let ghost fb = Self::fresh_nodes(old(self), &before);
                let ghost fm = Self::fresh_nodes(&before, self);
                assert(Self::fresh_nodes(old(self), self) =~= fb.union(fm));
                lemma_push_to_set(prev_added, cid);
                assert(!old(self).parents().contains_key(cid));
                assert forall|k: u64| #[trigger] old(self).parents().contains_key(k) implies
                    self.parents().contains_key(k) && self.parents()[k] == old(self).parents()[k] by {
                    assert(before.parents().contains_key(k));
                }
                assert forall|k: u64| #[trigger] old(self).nodes().contains_key(k) implies
                    self.nodes().contains_key(k) && self.nodes()[k] == old(self).nodes()[k] by {
                    assert(before.nodes().contains_key(k));
                }
                assert forall|c: u64|
                    #[trigger] self.nodes().contains_key(c) && self.parents().contains_key(c)
                        && self.parents()[c] == owner implies ids@.contains(c) by {
                    if c == cid {
                        assert(ids@[prev_ids.len() as int] == c);
                    } else if before.nodes().contains_key(c) {
                        assert(before.parents().contains_key(c));
                        assert(prev_ids.contains(c));
                        let j = choose|j: int| 0 <= j < prev_ids.len() && prev_ids[j] == c;
                        assert(ids@[j] == c);
                    } else {
                        assert(fm.contains(c));
                        assert(fm.contains(before.parents()[c]) || fm.contains(self.parents()[c]));
                    }
                }
                assert(list_ok(self.nodes(), self.parents(), owner, ids@)) by {
                    assert(list_ok(before.nodes(), before.parents(), owner, prev_ids));
                    assert(!before.nodes().contains_key(cid));
                    assert forall|i: int| 0 <= i < ids@.len() implies #[trigger] self.nodes().contains_key(ids@[i])
                        && owner < ids@[i] && self.parents().contains_key(ids@[i]) && self.parents()[ids@[i]] == owner by {
                        if i < prev_ids.len() {
                            assert(ids@[i] == prev_ids[i]);
                            assert(before.nodes().contains_key(prev_ids[i]));
                            assert(prev_ids[i] != cid);
                            assert(before.parents().contains_key(prev_ids[i]));
                            assert(mounted.parents().contains_key(prev_ids[i]));
                            assert(mounted.nodes().contains_key(prev_ids[i]));
                        } else {
                            assert(ids@[i] == cid);
                            assert(cid == before.next_id());
                            assert(old(self).next_id() <= before.next_id());
                            assert(mounted.nodes().contains_key(cid));
                        }
                    }
                    assert forall|i: int, j: int| 0 <= i < j < ids@.len() implies #[trigger] ids@[i] != #[trigger] ids@[j] by {
                        if j == prev_ids.len() {
                            assert(before.nodes().contains_key(prev_ids[i]));
                        } else {
                            assert(ids@[i] == prev_ids[i] && ids@[j] == prev_ids[j]);
                        }
                    }
                }
                let ghost f = fb.union(fm);
                assert(region(self.nodes(), self.parents(), added.to_set(), f)) by {
                    assert(region(before.nodes(), before.parents(), prev_added.to_set(), fb));
                    assert(region(mounted.nodes(), mounted.parents(), set![cid], fm));
                    assert(set![cid].contains(cid));
                    assert forall|x: u64| #[trigger] added.to_set().contains(x) implies f.contains(x) by {
                        if x != cid {
                            assert(prev_added.to_set().contains(x));
                        }
                    }
                    assert forall|x: u64| #[trigger] f.contains(x) implies self.nodes().contains_key(x) by {
                        if fb.contains(x) {
                            assert(before.nodes().contains_key(x));
                        }
                    }
                    assert forall|x: u64, i: int|
                        #![trigger f.contains(x), self.nodes()[x].children@[i]]
                        f.contains(x) && 0 <= i < self.nodes()[x].children@.len() implies f.contains(
                        self.nodes()[x].children@[i],
                    ) by {
                        if fb.contains(x) {
                            assert(self.nodes()[x] == before.nodes()[x]);
                            assert(fb.contains(before.nodes()[x].children@[i]));
                        } else {
                            assert(fm.contains(mounted.nodes()[x].children@[i]));
                        }
                    }
                    assert forall|x: u64| #[trigger] f.contains(x) && !added.to_set().contains(x) implies
                        self.parents().contains_key(x) && f.contains(self.parents()[x]) by {
                        assert(x != cid);
                        if fb.contains(x) {
                            assert(!prev_added.to_set().contains(x));
                            assert(before.parents().contains_key(x) && fb.contains(before.parents()[x]));
                            assert(mounted.parents().contains_key(x));
                        } else {
                            assert(mounted.parents().contains_key(x) && fm.contains(mounted.parents()[x]));
                        }
                    }
                }
            }
        }
        proof {
            assert(elements@.take(added.len() as int) =~= elements@);
            assert(ids@.subrange(0, prefix@.len() as int) =~= prefix@);
            assert(ids@.subrange(prefix@.len() as int, ids@.len() as int) =~= added);
            assert forall|j: int| prefix@.len() <= j < ids@.len() implies placed(
                self.nodes(),
                Self::calls_since(old(self), self),
                #[trigger] ids@[j],
                parent,
            ) by {
                assert(ids@[j] == added[j - prefix@.len()]);
            }
            assert forall|k: int| 0 <= k < elements@.len() implies mirrors(
                self.nodes(),
                Self::calls_since(old(self), self),
                ids@[prefix@.len() + k],
                #[trigger] elements@[k],
                parent,
            ) by {
                assert(ids@[prefix@.len() + k] == added[k]);
            }
        }
        Ok(ids)
    }

    /// The nodes of `new` that are new or among `changed`.
    pub open spec fn touched(old: &Self, new: &Self, changed: Set<u64>) -> Set<u64> {
        new.nodes().dom().difference(old.nodes().dom().difference(changed))
    }

    /// `new` differs from `old` only on the nodes of `changed`, which hang below
    /// `roots`; what is new or changed in `new` hangs below `new_roots`; recorded
    /// parents are kept, and new nodes carry new ids.
    pub open spec fn reshaped(
        old: &Self,
        new: &Self,
        roots: Set<u64>,
        changed: Set<u64>,
        new_roots: Set<u64>,
    ) -> bool {
        &&& roots.subset_of(changed)
        &&& hangs_below(old.nodes(), old.parents(), roots, changed)
        &&& forall|n: u64|
            #[trigger] old.nodes().contains_key(n) && !changed.contains(n) ==> new.nodes().contains_key(n)
                && new.nodes()[n] == old.nodes()[n]
        &&& forall|n: u64|
            #[trigger] new.nodes().contains_key(n) && !old.nodes().contains_key(n) ==> old.next_id()
                <= n
        &&& old.parents().submap_of(new.parents())
        &&& forall|k: u64|
            #[trigger] new.parents().contains_key(k) && !old.parents().contains_key(k)
                ==> old.next_id() <= k
        &&& new_roots.subset_of(Self::touched(old, new, changed))
        &&& hangs_below(new.nodes(), new.parents(), new_roots, Self::touched(old, new, changed))
    }

    /// What `diff` knows when a node comes back with its list of children
    /// brought in line.
    #[verifier::spinoff_prover]
    proof fn lemma_reinserted(
        old: &Self,
        mid: &Self,
        pre: &Self,
        post: &Self,
        id: u64,
        ch: Set<u64>,
    )
        requires
            old.inv(),
            old.nodes().contains_key(id),
            !attached(old.nodes(), old.parents(), id),
            forall|h: u64| #[trigger] old.holes().contains(h) ==> h < id,
            mid.nodes() == old.nodes().remove(id),
            mid.parents() == old.parents(),
            mid.next_id() == old.next_id(),
            mid.holes() == old.holes(),
            mid.root_ids() == old.root_ids(),
            mid.is_exhausted() == old.is_exhausted(),
            pre.inv(),
            Self::progress(mid, pre),
            list_ok(pre.nodes(), pre.parents(), id, post.nodes()[id].children@),
            list_complete(pre.nodes(), pre.parents(), id, post.nodes()[id].children@),
            Self::reshaped(
                mid,
                pre,
                old.nodes()[id].children@.to_set(),
                ch,
                post.nodes()[id].children@.to_set(),
            ),
            post.nodes() == pre.nodes().insert(id, post.nodes()[id]),
            post.parents() == pre.parents(),
            post.next_id() == pre.next_id(),
            post.holes() == pre.holes(),
            post.root_ids() == pre.root_ids(),
            post.is_exhausted() == pre.is_exhausted(),
            tree_wf(post.nodes(), post.parents(), post.next_id(), post.holes()),
        ensures
            post.inv(),
            Self::progress(old, post),
            Self::reshaped(old, post, set![id], ch.insert(id), set![id]),
            post.nodes().contains_key(id),
            !attached(post.nodes(), post.parents(), id),
    {
        let t0 = old.nodes();
        let pm0 = old.parents();
        let c2 = ch.insert(id);
        let out = post.nodes()[id].children@;
        let kids = t0[id].children@;
        lemma_children_listed(t0, pm0, old.next_id(), old.holes(), id);
        // lengths
        t0.lemma_remove_key_len(id);
        assert(!pre.nodes().contains_key(id));
        assert(post.nodes().dom() == pre.nodes().dom().insert(id));
        // hangs below id in the old tree
        assert forall|x: u64| #[trigger] c2.contains(x) && !set![id].contains(x) implies pm0.contains_key(x)
            && c2.contains(pm0[x]) by {
            if kids.to_set().contains(x) {
                let j = choose|j: int| 0 <= j < kids.len() && kids[j] == x;
                assert(kids[j] == x);
            }
        }
        // the touched part hangs below id in the new tree
        let touched = Self::touched(old, post, c2);
        let touched_pre = Self::touched(mid, pre, ch);
        assert(touched =~= touched_pre.insert(id));
        assert forall|x: u64| #[trigger] touched.contains(x) && !set![id].contains(x) implies post.parents().contains_key(x)
            && touched.contains(post.parents()[x]) by {
            if out.to_set().contains(x) {
                let j = choose|j: int| 0 <= j < out.len() && out[j] == x;
                assert(out[j] == x);
            } else {
                assert(touched_pre.contains(x));
            }
        }
        assert forall|n: u64| #[trigger] t0.contains_key(n) && !c2.contains(n) implies post.nodes().contains_key(n)
            && post.nodes()[n] == t0[n] by {
            assert(mid.nodes().contains_key(n));
        }
        assert(!post.parents().contains_key(id) || !post.nodes().contains_key(post.parents()[id])) by {
            if post.parents().contains_key(id) {
                assert(pm0.contains_key(id));
                assert(pm0[id] < id);
            }
        }
        assert forall|r: u64| #[trigger] post.root_ids().contains(r) && old.nodes().contains_key(r)
            implies post.nodes().contains_key(r) && !post.parents().contains_key(r) by {
            assert(r != id);
            assert(!ch.contains(r)) by {
                if ch.contains(r) {
                    if !kids.to_set().contains(r) {
                        assert(pm0.contains_key(r));
                    } else {
                        let j = choose|j: int| 0 <= j < kids.len() && kids[j] == r;
                        assert(kids[j] == r);
                        assert(edge_ok(t0, pm0, old.holes(), id, t0[id].children@[j]));
                    }
                }
            }
        }
    }

    /// What `diff` knows when a node is unmounted and an element mounted in its place.
    #[verifier::spinoff_prover]
    proof fn lemma_replaced(
        old: &Self,
        mid: &Self,
        pre: &Self,
        post: &Self,
        id: u64,
        below: Set<u64>,
        nid: u64,
    )
        requires
            old.inv(),
            old.nodes().contains_key(id),
            !attached(old.nodes(), old.parents(), id),
            forall|h: u64| #[trigger] old.holes().contains(h) ==> h < id,
            mid.nodes() == old.nodes().remove(id),
            mid.parents() == old.parents(),
            mid.next_id() == old.next_id(),
            mid.holes() == old.holes(),
            mid.root_ids() == old.root_ids(),
            mid.is_exhausted() == old.is_exhausted(),
            region(mid.nodes(), mid.parents(), old.nodes()[id].children@.to_set(), below),
            pre.nodes() == mid.nodes().remove_keys(below),
            pre.parents() == mid.parents(),
            pre.next_id() == mid.next_id(),
            pre.holes() == mid.holes(),
            pre.root_ids() == mid.root_ids(),
            pre.is_exhausted() == mid.is_exhausted(),
            post.inv(),
            Self::progress(pre, post),
            nid == pre.next_id(),
            Self::only_adds(pre, post),
            !post.parents().contains_key(nid),
            region(post.nodes(), post.parents(), set![nid], Self::fresh_nodes(pre, post)),
        ensures
            Self::progress(old, post),
            Self::reshaped(old, post, set![id], below.insert(id), set![nid]),
            post.nodes().contains_key(nid),
            !attached(post.nodes(), post.parents(), nid),
            old.next_id() <= nid,
    {
        let t0 = old.nodes();
        let pm0 = old.parents();
        let c2 = below.insert(id);
        let kids = t0[id].children@;
        lemma_children_listed(t0, pm0, old.next_id(), old.holes(), id);
        t0.lemma_remove_key_len(id);
        vstd::set_lib::lemma_len_subset(pre.nodes().dom(), mid.nodes().dom());
        assert(pre.nodes().dom().subset_of(mid.nodes().dom()));
        assert forall|x: u64| #[trigger] c2.contains(x) && !set![id].contains(x) implies pm0.contains_key(x)
            && c2.contains(pm0[x]) by {
            if kids.to_set().contains(x) {
                let j = choose|j: int| 0 <= j < kids.len() && kids[j] == x;
                assert(kids[j] == x);
            }
        }
        let touched = Self::touched(old, post, c2);
        assert(touched =~= Self::fresh_nodes(pre, post));
        assert(set![nid].contains(nid));
        assert forall|n: u64| #[trigger] t0.contains_key(n) && !c2.contains(n) implies post.nodes().contains_key(n)
            && post.nodes()[n] == t0[n] by {
            assert(mid.nodes().contains_key(n));
            assert(pre.nodes().contains_key(n));
        }
    }

    /// A node whose children are left as they are, seen as a reshape that changes nothing.
    #[verifier::spinoff_prover]
    proof fn lemma_untouched(s: &Self, id: u64, kids: Seq<u64>)
        requires
            s.inv(),
            list_ok(s.nodes(), s.parents(), id, kids),
        ensures
            Self::progress(s, s),
            Self::reshaped(s, s, kids.to_set(), kids.to_set(), kids.to_set()),
    {
        assert forall|x: u64| #[trigger] kids.to_set().contains(x) implies s.nodes().contains_key(x) by {
            let j = choose|j: int| 0 <= j < kids.len() && kids[j] == x;
            assert(kids[j] == x);
        }
        assert(Self::touched(s, s, kids.to_set()) =~= kids.to_set());
    }

    /// Brings mounted node `id` in line with element `other`.
    ///
    /// A primitive meeting a primitive keeps its id: the `Dom` is told of the new
    /// primitive and the children are brought in line one by one. A component
    /// meeting a template of the same function keeps its id and renders again,
    /// unless it may skip rendering; its props stay the ones it was mounted with.
    /// Anything else is unmounted and the element mounted in its place.
    #[verifier::spinoff_prover]
    fn diff<D: Dom>(
        &mut self,
        id: u64,
        other: Element<H::Template>,
        parent: Option<PrimitiveId>,
        dom: &mut D,
    ) -> (r: (Result<u64, ContextError>, Ghost<Set<u64>>))
        requires
            old(self).inv(),
            old(self).nodes().contains_key(id),
            !attached(old(self).nodes(), old(self).parents(), id),
            forall|h: u64| #[trigger] old(self).holes().contains(h) ==> h < id,
            !old(self).root_ids().contains(id),
        ensures
            final(self).applied_updates() == old(self).applied_updates(),
            final(self).taken_updates() == old(self).taken_updates(),
            final(self).root_ids() == old(self).root_ids(),
            final(self).is_exhausted() == old(self).is_exhausted(),
            match r.0 {
                Ok(nid) => {
                    &&& final(self).inv()
                    &&& Self::progress(old(self), final(self))
                    &&& Self::reshaped(old(self), final(self), set![id], r.1@, set![nid])
                    &&& final(self).nodes().contains_key(nid)
                    &&& !attached(final(self).nodes(), final(self).parents(), nid)
                    &&& (nid == id || (old(self).next_id() <= nid
                        && !final(self).parents().contains_key(nid)))
                    &&& (old(self).nodes()[id].inner is Primitive && other.0 is Primitive) ==> nid
                        == id
                    &&& (old(self).nodes()[id].inner is Primitive) != (other.0 is Primitive) ==> nid
                        != id
                    &&& mirrors(final(self).nodes(), Self::calls_since(old(self), final(self)), nid, other, parent)
                    &&& nid != id ==> placed(final(self).nodes(), Self::calls_since(old(self), final(self)), nid, parent)
                    &&& nid != id ==> !final(self).nodes().contains_key(id)
                    &&& nid != id ==> removals_before_mounts(Self::calls_since(old(self), final(self)))
                    &&& match (old(self).nodes()[id].inner, other.0) {
                        (MountedInner::Primitive(pid), ElementInner::Primitive(p, _)) => {
                            &&& final(self).nodes()[id].inner == MountedInner::<H::State>::Primitive(pid)
                            &&& Self::calls_since(old(self), final(self)).len() >= 1
                            &&& Self::calls_since(old(self), final(self))[0] == Call::Diff(pid, p)
                        },
                        (MountedInner::Component(_), ElementInner::Component(_)) => {
                            &&& Self::calls_since(old(self), final(self)).len() >= 1
                            &&& Self::calls_since(old(self), final(self))[0] matches Call::Compared(x, same, memo)
                            &&& x == id
                            &&& same == (nid == id)
                            &&& same && !memo ==> Self::renders_since(old(self), final(self)).len() >= 1
                                && Self::renders_since(old(self), final(self))[0] == id
                            &&& same && memo ==> {
                                &&& final(self).nodes() == old(self).nodes()
                                &&& Self::calls_since(old(self), final(self)).len() == 1
                                &&& Self::renders_since(old(self), final(self)).len() == 0
                            }
                        },
                        _ => true,
                    }
                    &&& Self::calls_match(old(self), final(self))
                    &&& Self::renders_within(old(self), final(self), Self::touched(old(self), final(self), r.1@))
                    &&& Self::effects_follow(old(self), final(self))
                    &&& Self::diffs_within(old(self), final(self), Self::touched(old(self), final(self), r.1@))
                },
                Err(e) => e == ContextError::IdsExhausted && final(self).next_id() == u64::MAX,
            },
            Self::calls_extend(old(self), final(self)),
            plain(other) && old(self).next_id() + node_count(other) <= u64::MAX ==> r.0 is Ok,
            plain(other) && r.0 is Ok ==> final(self).next_id() <= old(self).next_id() + node_count(other),
        decreases u64::MAX - old(self).counter, old(self).tree@.len(), 0nat,
    {
        let ghost t0 = self.tree@;
        let ghost pm0 = self.parents@;
        proof {
            lemma_remove_detached(t0, pm0, self.counter, self.holes@, id);
            lemma_children_listed(t0, pm0, self.counter, self.holes@, id);
            t0.lemma_remove_key_len(id);
        }
        let node = self.tree.remove(&id).unwrap();
        let Mounted { inner, children } = node;
        let Element(new_inner, key) = other;
        let ghost after_removal = *self;
        match inner {
            MountedInner::Primitive(p_id) => {
                match new_inner {
                    ElementInner::Primitive(new, new_children) => {
                        let ghost gnew = new;
                        self.dom_diff(dom, p_id, new);
                        let sub = self.dom_sub_list(dom, p_id);
                        let ghost announced = *self;
                        let ghost pre = seq![Call::Diff(p_id, gnew), Call::SubList(p_id, sub)];
                        proof {
                            assert(announced.call_log() =~= old(self).call_log() + pre);
                            assert(pre =~= seq![Call::Diff(p_id, gnew)] + seq![Call::SubList(p_id, sub)]);
                            lemma_single_call(Call::Diff(p_id, gnew));
                            lemma_single_call(Call::SubList(p_id, sub));
                            lemma_calls_concat(seq![Call::Diff(p_id, gnew)], seq![Call::SubList(p_id, sub)]);
                            assert(removed_by(pre) =~= Set::<PrimitiveId>::empty());
                            assert(mounted_by(pre) =~= Set::<PrimitiveId>::empty());
                            assert(destroyed_by(pre) =~= Set::<u64>::empty());
                            assert(diffed_by(pre) =~= set![p_id]);
                        }
                        let (res, Ghost(ch)) = self.reconcile(id, children, new_children, Some(sub), dom);
                        let out = match res {
                            Ok(out) => out,
                            Err(e) => {
                                proof {
                                    assert(announced.call_log().take(old(self).call_log().len() as int) =~= old(self).call_log());
                                    Self::lemma_calls_chain(old(self), &announced, self);
                                }
                                return (Err(e), Ghost(Set::empty()));
                            },
                        };
                        let ghost before_insert = *self;
                        let node = Mounted { inner: MountedInner::Primitive(p_id), children: out };
                        proof {
                            lemma_insert_node(self.tree@, self.parents@, self.counter, self.holes@, id, node);
                            assert(self.holes@.remove(id) =~= self.holes@);
                        }
                        self.tree.insert(id, node);
                        let ghost changed = ch.insert(id);
                        proof {
                            Self::lemma_reinserted(old(self), &after_removal, &before_insert, self, id, ch);
                            assert(!before_insert.nodes().contains_key(id));
                            assert(before_insert.nodes().submap_of(self.nodes()));
                            let dd = Self::calls_since(old(self), self);
                            let dr = Self::calls_since(&announced, &before_insert);
                            assert(announced.call_log().take(old(self).call_log().len() as int) =~= old(self).call_log());
                            assert(Self::calls_since(old(self), &announced) =~= pre);
                            Self::lemma_calls_chain(old(self), &announced, &before_insert);
                            assert(dd == pre + dr);
                            lemma_calls_concat(pre, dr);
                            assert(pre.contains(Call::SubList(p_id, sub)));
                            assert(pre.contains(Call::Diff(p_id, gnew)));
                            assert(dd.contains(Call::SubList(p_id, sub)));
                            assert(dd.contains(Call::Diff(p_id, gnew)));
                            assert forall|k: int| 0 <= k < new_children@.len() implies mirrors(
                                self.nodes(),
                                dd,
                                self.nodes()[id].children@[k],
                                #[trigger] new_children@[k],
                                Some(sub),
                            ) by {
                                assert(mirrors(before_insert.nodes(), dr, node.children@[k], new_children@[k], Some(sub)));
                                lemma_mirrors_grow(before_insert.nodes(), self.nodes(), dr, dd, node.children@[k], new_children@[k], Some(sub));
                            }
                            assert(mirrors(self.nodes(), dd, id, other, parent));
                            Self::lemma_reinsert_matches(old(self), &announced, &before_insert, self, id, pre);
                            assert(announced.rendered() == old(self).rendered());
                            Self::lemma_renders_widen(
                                &announced,
                                &before_insert,
                                Self::touched(&announced, &before_insert, ch),
                                Self::touched(&announced, &before_insert, ch).insert(id),
                            );
                            Self::lemma_reinsert_renders(old(self), &announced, &before_insert, self, id, ch);
                            assert forall|k: int| 0 <= k < Self::calls_since(old(self), &announced).len() implies !(
                            #[trigger] Self::calls_since(old(self), &announced)[k] is Effects) by {
                                assert(Self::calls_since(old(self), &announced)[k] == pre[k]);
                            }
                            Self::lemma_effects_none(old(self), &announced);
                            Self::lemma_effects_chain(old(self), &announced, &before_insert);
                            lemma_primitives_single(self.nodes(), id);
                            Self::lemma_reinsert_diffs(old(self), &announced, &before_insert, self, id, pre, ch);
                        }
                        (Ok(id), Ghost(changed))
                    },
                    ElementInner::Component(template) => {
                        let Ghost(below) = self.unmount_list(id, &children, dom);
                        let ghost unmounted = *self;
                        self.dom_remove(dom, p_id);
                        let ghost before_mount = *self;
                        let res = self.mount(Element(ElementInner::Component(template), key), parent, dom);
                        let nid = match res {
                            Ok(nid) => nid,
                            Err(e) => {
                                proof {
                                    assert(before_mount.call_log().take(unmounted.call_log().len() as int) =~= unmounted.call_log());
                                    Self::lemma_calls_chain(&after_removal, &unmounted, &before_mount);
                                    Self::lemma_calls_chain(&after_removal, &before_mount, self);
                                }
                                return (Err(e), Ghost(Set::empty()));
                            },
                        };
                        let ghost changed = below.insert(id);
                        proof {
                            Self::lemma_replaced(old(self), &after_removal, &before_mount, self, id, below, nid);
                            lemma_kinds(Self::calls_since(&after_removal, &unmounted));
                            Self::lemma_replace_order(old(self), &unmounted, &before_mount, self, Call::Remove(p_id));
                            assert(before_mount.call_log().take(unmounted.call_log().len() as int) =~= unmounted.call_log());
                            Self::lemma_calls_chain(&after_removal, &unmounted, &before_mount);
                            Self::lemma_calls_chain(&after_removal, &before_mount, self);
                            assert(after_removal.call_log() == old(self).call_log());
                            Self::lemma_calls_suffix(old(self), &before_mount, self);
                            lemma_placed_grow(
                                self.nodes(),
                                self.nodes(),
                                Self::calls_since(&before_mount, self),
                                Self::calls_since(old(self), self),
                                nid,
                                parent,
                            );
                            let pre = seq![Call::Remove(p_id)];
                            assert(before_mount.call_log() =~= unmounted.call_log() + pre);
                            lemma_single_call(Call::Remove(p_id));
                            assert(components_of(old(self).nodes(), set![id]) =~= Set::<u64>::empty());
                            lemma_primitives_single(old(self).nodes(), id);
                            Self::lemma_addition_matches(&before_mount, self);
                            Self::lemma_replace_matches(old(self), &after_removal, &unmounted, &before_mount, self, id, below, pre);
                            assert(before_mount.rendered() == old(self).rendered());
                            Self::lemma_replace_renders(old(self), &before_mount, self, id, below);
                            assert(before_mount.call_log().take(unmounted.call_log().len() as int) =~= unmounted.call_log());
                            Self::lemma_effects_replace(old(self), &unmounted, &before_mount, self);
                            Self::lemma_replace_diffs(
                                old(self),
                                &unmounted,
                                &before_mount,
                                self,
                                Self::touched(old(self), self, changed),
                            );
                        }
                        (Ok(nid), Ghost(changed))
                    },
                }
            },
            MountedInner::Component(mut state) => {
                match new_inner {
                    ElementInner::Component(template) => {
                        let (same, memo) = self.compare_component(id, &state, &template);
                        let ghost after_compare = *self;
                        let ghost asked = Call::Compared(id, same, memo);
                        let ghost o2 = Context::<H> { calls: Ghost(after_compare.calls@), ..*old(self) };
                        let action = reuse(same, memo);
                        let replace = match action {
                            Reuse::Replace => true,
                            _ => false,
                        };
                        if !replace {
                            let ghost before_render = *self;
                            proof {
                                Self::lemma_calls_match_refl(self);
                            }
                            let rerender = match action {
                                Reuse::Rerender => true,
                                _ => false,
                            };
                            let (out, Ghost(ch)) = if rerender {
                                let (res, Ghost(ch), _) = self.update(id, &mut state, children, parent, dom);
                                match res {
                                    Ok(out) => (out, Ghost(ch)),
                                    Err(e) => {
                                        proof {
                                            assert(before_render.call_log() == o2.call_log());
                                            Self::lemma_compared_first(old(self), &o2, self, Set::empty(), Set::empty(), asked);
                                        }
                                        return (Err(e), Ghost(Set::empty()));
                                    },
                                }
                            } else {
                                proof {
                                    Self::lemma_untouched(self, id, children@);
                                    Self::lemma_renders_refl(self, Self::touched(self, self, children@.to_set()).insert(id));
                                    Self::lemma_calls_match_refl(self);
                                    Self::lemma_effects_none(self, self);
                                    lemma_no_diffs(Self::calls_since(self, self));
                                }
                                (children, Ghost(children@.to_set()))
                            };
                            let ghost before_insert = *self;
                            let node = Mounted { inner: MountedInner::Component(state), children: out };
                            proof {
                                lemma_insert_node(self.tree@, self.parents@, self.counter, self.holes@, id, node);
                                assert(self.holes@.remove(id) =~= self.holes@);
                            }
                            self.tree.insert(id, node);
                            let ghost changed = ch.insert(id);
                            proof {
                                Self::lemma_reinserted(&o2, &after_compare, &before_insert, self, id, ch);
                                assert(after_compare.call_log() =~= o2.call_log() + Seq::<Call>::empty());
                                assert(removed_by(Seq::<Call>::empty()) =~= Set::<PrimitiveId>::empty());
                                assert(mounted_by(Seq::<Call>::empty()) =~= Set::<PrimitiveId>::empty());
                                assert(destroyed_by(Seq::<Call>::empty()) =~= Set::<u64>::empty());
                                Self::lemma_reinsert_matches(
                                    &o2,
                                    &after_compare,
                                    &before_insert,
                                    self,
                                    id,
                                    Seq::<Call>::empty(),
                                );
                                Self::lemma_reinsert_renders(&o2, &after_compare, &before_insert, self, id, ch);
                                assert(after_compare.call_log() == o2.call_log());
                                assert(after_compare.rendered() == o2.rendered());
                                assert(Self::effects_follow(&after_compare, &before_insert));
                                assert(diffed_by(Seq::<Call>::empty()) =~= Set::<PrimitiveId>::empty());
                                Self::lemma_reinsert_diffs(
                                    &o2,
                                    &after_compare,
                                    &before_insert,
                                    self,
                                    id,
                                    Seq::<Call>::empty(),
                                    ch,
                                );
                                Self::lemma_compared_first(
                                    old(self),
                                    &o2,
                                    self,
                                    Self::touched(&o2, self, changed),
                                    changed,
                                    asked,
                                );
                                if rerender {
                                    assert(before_render.rendered() == old(self).rendered());
                                    assert(before_insert.rendered() == self.rendered());
                                    assert(Self::renders_since(old(self), self) == Self::renders_since(&before_render, &before_insert));
                                }
                                if !rerender {
                                    assert(self.tree@ =~= old(self).tree@);
                                    assert(self.call_log() == o2.call_log());
                                    assert(Self::calls_since(&o2, self) =~= Seq::<Call>::empty());
                                    assert(self.rendered() =~= old(self).rendered());
                                    assert(Self::renders_since(old(self), self) =~= Seq::<u64>::empty());
                                }
                            }
                            (Ok(id), Ghost(changed))
                        } else {
                            let Ghost(below) = self.unmount_list(id, &children, dom);
                            let ghost unmounted = *self;
                            self.destroy_component(id, state);
                            let ghost before_mount = *self;
                            let res = self.mount(Element(ElementInner::Component(template), key), parent, dom);
                            let nid = match res {
                                Ok(nid) => nid,
                                Err(e) => {
                                    proof {
                                        assert(before_mount.call_log().take(unmounted.call_log().len() as int) =~= unmounted.call_log());
                                        Self::lemma_calls_chain(&after_compare, &unmounted, &before_mount);
                                        Self::lemma_calls_chain(&after_compare, &before_mount, self);
                                        Self::lemma_compared_first(old(self), &o2, self, Set::empty(), Set::empty(), asked);
                                    }
                                    return (Err(e), Ghost(Set::empty()));
                                },
                            };
                            let ghost changed = below.insert(id);
                            proof {
                                Self::lemma_replaced(&o2, &after_compare, &before_mount, self, id, below, nid);
                                lemma_kinds(Self::calls_since(&after_compare, &unmounted));
                                Self::lemma_compared_first(old(self), &o2, &unmounted, Set::empty(), Set::empty(), asked);
                                lemma_single_call(asked);
                                lemma_no_mounts_concat(seq![asked], Self::calls_since(&o2, &unmounted));
                                Self::lemma_replace_order(old(self), &unmounted, &before_mount, self, Call::Destroy(id));
                                assert(before_mount.call_log().take(unmounted.call_log().len() as int) =~= unmounted.call_log());
                                Self::lemma_calls_chain(&after_compare, &unmounted, &before_mount);
                                Self::lemma_calls_chain(&after_compare, &before_mount, self);
                                Self::lemma_compared_first(old(self), &o2, self, Set::empty(), Set::empty(), asked);
                                Self::lemma_calls_suffix(old(self), &before_mount, self);
                                lemma_placed_grow(
                                    self.nodes(),
                                    self.nodes(),
                                    Self::calls_since(&before_mount, self),
                                    Self::calls_since(old(self), self),
                                    nid,
                                    parent,
                                );
                                Self::lemma_component_replace_matches(
                                    &o2,
                                    &after_compare,
                                    &unmounted,
                                    &before_mount,
                                    self,
                                    id,
                                    below,
                                );
                                Self::lemma_replace_renders(&o2, &before_mount, self, id, below);
                                assert(before_mount.call_log().take(unmounted.call_log().len() as int) =~= unmounted.call_log());
                                Self::lemma_effects_replace(&o2, &unmounted, &before_mount, self);
                                Self::lemma_replace_diffs(
                                    &o2,
                                    &unmounted,
                                    &before_mount,
                                    self,
                                    Self::touched(&o2, self, changed),
                                );
                                Self::lemma_compared_first(
                                    old(self),
                                    &o2,
                                    self,
                                    Self::touched(&o2, self, changed),
                                    changed,
                                    asked,
                                );
                                assert(id < old(self).next_id());
                            }
                            (Ok(nid), Ghost(changed))
                        }
                    },
                    ElementInner::Primitive(p, c) => {
                        let Ghost(below) = self.unmount_list(id, &children, dom);
                        let ghost unmounted = *self;
                        self.destroy_component(id, state);
                        let ghost before_mount = *self;
                        let res = self.mount(Element(ElementInner::Primitive(p, c), key), parent, dom);
                        let nid = match res {
                            Ok(nid) => nid,
                            Err(e) => {
                                proof {
                                    assert(before_mount.call_log().take(unmounted.call_log().len() as int) =~= unmounted.call_log());
                                    Self::lemma_calls_chain(&after_removal, &unmounted, &before_mount);
                                    Self::lemma_calls_chain(&after_removal, &before_mount, self);
                                }
                                return (Err(e), Ghost(Set::empty()));
                            },
                        };
                        let ghost changed = below.insert(id);
                        proof {
                            Self::lemma_replaced(old(self), &after_removal, &before_mount, self, id, below, nid);
                            lemma_kinds(Self::calls_since(&after_removal, &unmounted));
                            Self::lemma_replace_order(old(self), &unmounted, &before_mount, self, Call::Destroy(id));
                            Self::lemma_component_replace_matches(
                                old(self),
                                &after_removal,
                                &unmounted,
                                &before_mount,
                                self,
                                id,
                                below,
                            );
                            assert(old(self).call_log().len() <= before_mount.call_log().len());
                            Self::lemma_calls_suffix(old(self), &before_mount, self);
                            lemma_placed_grow(
                                self.nodes(),
                                self.nodes(),
                                Self::calls_since(&before_mount, self),
                                Self::calls_since(old(self), self),
                                nid,
                                parent,
                            );
                            lemma_mirrors_grow(
                                self.nodes(),
                                self.nodes(),
                                Self::calls_since(&before_mount, self),
                                Self::calls_since(old(self), self),
                                nid,
                                other,
                                parent,
                            );
                            Self::lemma_replace_renders(old(self), &before_mount, self, id, below);
                            assert(before_mount.call_log().take(unmounted.call_log().len() as int) =~= unmounted.call_log());
                            Self::lemma_effects_replace(old(self), &unmounted, &before_mount, self);
                            Self::lemma_replace_diffs(
                                old(self),
                                &unmounted,
                                &before_mount,
                                self,
                                Self::touched(old(self), self, changed),
                            );
                        }
                        (Ok(nid), Ghost(changed))
                    },
                }
            },
        }
    }


    /// A child listed beside `c` keeps what it is mounted from when only nodes
    /// below `c` change.
    #[verifier::spinoff_prover]
    proof fn lemma_sibling_kept<T>(
        before: &Self,
        after: &Self,
        owner: u64,
        list: Seq<u64>,
        c: u64,
        ci: Set<u64>,
        x: u64,
        e: Element<T>,
        d: Seq<Call>,
        d2: Seq<Call>,
        parent: Option<PrimitiveId>,
    )
        requires
            before.inv(),
            !before.nodes().contains_key(owner),
            list_ok(before.nodes(), before.parents(), owner, list),
            list.contains(c),
            list.contains(x),
            x != c,
            hangs_below(before.nodes(), before.parents(), set![c], ci),
            forall|n: u64|
                #[trigger] before.nodes().contains_key(n) && !ci.contains(n) ==> after.nodes().contains_key(n)
                    && after.nodes()[n] == before.nodes()[n],
            mirrors(before.nodes(), d, x, e, parent),
            calls_within(d, d2),
        ensures
            mirrors(after.nodes(), d2, x, e, parent),
    {
        let jc = choose|j: int| 0 <= j < list.len() && list[j] == c;
        let jx = choose|j: int| 0 <= j < list.len() && list[j] == x;
        assert(list[jc] == c && list[jx] == x);
        assert(!ci.contains(x)) by {
            if ci.contains(x) {
                assert(before.parents().contains_key(x) && ci.contains(before.parents()[x]));
            }
        }
        lemma_mirrors_keep(
            before.nodes(),
            after.nodes(),
            d,
            d2,
            before.parents(),
            before.next_id(),
            before.holes(),
            c,
            ci,
            x,
            e,
            parent,
        );
    }

    /// One child paired with an element and diffed: the loop of `reconcile` goes on.
    #[verifier::spinoff_prover]
    proof fn lemma_reconciled_one(
        old: &Self,
        before: &Self,
        mid: &Self,
        post: &Self,
        owner: u64,
        kids: Seq<u64>,
        i: int,
        prev_out: Seq<u64>,
        changed: Set<u64>,
        c: u64,
        ci: Set<u64>,
        nid: u64,
    )
        requires
            old.inv(),
            before.inv(),
            0 <= i < kids.len(),
            c == kids[i],
            owner < old.next_id(),
            !old.nodes().contains_key(owner),
            !before.nodes().contains_key(owner),
            list_ok(old.nodes(), old.parents(), owner, kids),
            Self::progress(old, before),
            list_ok(before.nodes(), before.parents(), owner, prev_out + kids.skip(i)),
            list_complete(before.nodes(), before.parents(), owner, prev_out + kids.skip(i)),
            Self::reshaped(old, before, kids.take(i).to_set(), changed, prev_out.to_set()),
            mid.inv(),
            Self::progress(before, mid),
            Self::reshaped(before, mid, set![c], ci, set![nid]),
            mid.nodes().contains_key(nid),
            !attached(mid.nodes(), mid.parents(), nid),
            nid == c || (before.next_id() <= nid && !mid.parents().contains_key(nid)),
            post.nodes() == mid.nodes(),
            post.parents() == mid.parents().insert(nid, owner),
            post.next_id() == mid.next_id(),
            post.holes() == mid.holes(),
            post.root_ids() == mid.root_ids(),
            post.is_exhausted() == mid.is_exhausted(),
            tree_wf(post.nodes(), post.parents(), post.next_id(), post.holes()),
        ensures
            post.inv(),
            Self::progress(old, post),
            list_ok(post.nodes(), post.parents(), owner, prev_out.push(nid) + kids.skip(i + 1)),
            list_complete(post.nodes(), post.parents(), owner, prev_out.push(nid) + kids.skip(i + 1)),
            Self::reshaped(
                old,
                post,
                kids.take(i + 1).to_set(),
                changed.union(ci),
                prev_out.push(nid).to_set(),
            ),
            forall|x: u64| #[trigger] ci.contains(x) ==> !Self::touched(old, before, changed).contains(x),
    {
        let t0 = old.nodes();
        let pm0 = old.parents();
        let tb = before.nodes();
        let pmb = before.parents();
        let tm = mid.nodes();
        let pmm = mid.parents();
        let pmp = post.parents();
        let list = prev_out + kids.skip(i);
        let list2 = prev_out.push(nid) + kids.skip(i + 1);
        let touched_b = Self::touched(old, before, changed);
        let touched_c = Self::touched(before, mid, ci);
        let changed2 = changed.union(ci);
        let touched_p = Self::touched(old, post, changed2);
        assert(list[prev_out.len() as int] == c);
        // c is an untouched node of the old tree
        assert(t0.contains_key(c)) by {
            assert(kids[i] == c);
        }
        assert(!changed.contains(c)) by {
            if changed.contains(c) {
                if kids.take(i).to_set().contains(c) {
                    let j = choose|j: int| 0 <= j < kids.take(i).len() && kids.take(i)[j] == c;
                    assert(kids[j] == c && kids[i] == c);
                } else {
                    assert(pm0.contains_key(c) && changed.contains(pm0[c]));
                    assert(pm0[c] == owner);
                }
            }
        }
        assert(!touched_b.contains(c));
        // what changed now does not meet what changed before
        assert(set![c].contains(c));
        assert forall|y: u64| #[trigger] set![c].contains(y) implies !touched_b.contains(y) by {}
        assert forall|y: u64| #[trigger] prev_out.to_set().contains(y) implies !ci.contains(y) by {
            let j = choose|j: int| 0 <= j < prev_out.len() && prev_out[j] == y;
            assert(list[j] == y);
            assert(list[j] != list[prev_out.len() as int]);
            if ci.contains(y) {
                assert(pmb.contains_key(y) && ci.contains(pmb[y]));
            }
        }
        assert forall|x: u64| #[trigger] ci.contains(x) implies !touched_b.contains(x) by {
            lemma_hangs_disjoint(tb, pmb, before.next_id(), before.holes(), set![c], ci, prev_out.to_set(), touched_b, x);
        }
        assert forall|x: u64| #[trigger] ci.contains(x) implies t0.contains_key(x) && !changed.contains(x)
            && tb[x] == t0[x] && (pmb.contains_key(x) ==> pm0.contains_key(x)) by {
            assert(tb.contains_key(x));
            if pmb.contains_key(x) && !pm0.contains_key(x) {
                assert(old.next_id() <= x);
            }
        }
        // old roots of the changed set
        assert(kids.take(i + 1) =~= kids.take(i).push(c));
        lemma_push_to_set(kids.take(i), c);
        assert forall|x: u64| #[trigger] changed2.contains(x) && !kids.take(i + 1).to_set().contains(x)
            implies pm0.contains_key(x) && changed2.contains(pm0[x]) by {
            if ci.contains(x) {
                assert(x != c);
                assert(pmb.contains_key(x) && ci.contains(pmb[x]));
            }
        }
        // the nodes of the old tree outside what changed are kept
        assert forall|n: u64| #[trigger] t0.contains_key(n) && !changed2.contains(n) implies post.nodes().contains_key(n)
            && post.nodes()[n] == t0[n] by {
            assert(tb.contains_key(n));
        }
        // what is touched now
        assert(touched_p =~= touched_b.union(touched_c));
        lemma_push_to_set(prev_out, nid);
        assert forall|x: u64| #[trigger] touched_p.contains(x) && !prev_out.push(nid).to_set().contains(x)
            implies pmp.contains_key(x) && touched_p.contains(pmp[x]) by {
            if touched_c.contains(x) {
                assert(x != nid);
                assert(pmm.contains_key(x) && touched_c.contains(pmm[x]));
            } else {
                assert(touched_b.contains(x));
                assert(!prev_out.to_set().contains(x));
                assert(pmb.contains_key(x) && touched_b.contains(pmb[x]));
                assert(!ci.contains(x));
                assert(x != nid);
                assert(pmm.contains_key(x));
                assert(pmm[x] == pmb[x]);
                assert(touched_p.contains(pmb[x]));
            }
        }
        assert forall|x: u64| #[trigger] touched_p.contains(x) implies post.nodes().contains_key(x) by {}
        assert(set![nid].contains(nid));
        // the list of children
        assert forall|k: int| 0 <= k < list2.len() implies #[trigger] post.nodes().contains_key(list2[k])
            && owner < list2[k] && pmp.contains_key(list2[k]) && pmp[list2[k]] == owner by {
            if k < prev_out.len() {
                assert(list2[k] == list[k]);
                assert(prev_out.to_set().contains(prev_out[k]));
                assert(list[k] != list[prev_out.len() as int]);
                assert(tb.contains_key(list[k]));
                assert(list[k] != nid);
                assert(pmm.contains_key(list[k]));
                assert(pmm[list[k]] == pmb[list[k]]);
            } else if k == prev_out.len() {
                assert(list2[k] == nid);
                assert(kids[i] == c);
            } else {
                assert(list2[k] == list[k]);
                assert(list[k] != list[prev_out.len() as int]);
                if ci.contains(list[k]) {
                    assert(pmb.contains_key(list[k]) && ci.contains(pmb[list[k]]));
                }
                assert(tb.contains_key(list[k]));
                assert(list[k] != nid);
                assert(pmm.contains_key(list[k]));
                assert(pmm[list[k]] == pmb[list[k]]);
            }
        }
        assert forall|k: int, l: int| 0 <= k < l < list2.len() implies #[trigger] list2[k] != #[trigger] list2[l] by {
            if k != prev_out.len() && l != prev_out.len() {
                assert(list2[k] == list[k] && list2[l] == list[l]);
            } else if nid != c {
                if k == prev_out.len() {
                    assert(list2[l] == list[l]);
                    assert(tb.contains_key(list[l]));
                } else {
                    assert(list2[k] == list[k]);
                    assert(tb.contains_key(list[k]));
                }
            } else {
                assert(list2[k] == list[k] && list2[l] == list[l]);
            }
        }
        assert forall|x: u64| #[trigger] post.nodes().contains_key(x) && pmp.contains_key(x) && pmp[x] == owner
            implies list2.contains(x) by {
            if x == nid {
                assert(list2[prev_out.len() as int] == x);
            } else if touched_c.contains(x) {
                assert(pmm.contains_key(x) && touched_c.contains(pmm[x]));
            } else {
                assert(tb.contains_key(x));
                assert(list.contains(x));
                let k = choose|k: int| 0 <= k < list.len() && list[k] == x;
                assert(k != prev_out.len());
                assert(list2[k] == x);
            }
        }
        // roots
        assert forall|r: u64| #[trigger] post.root_ids().contains(r) implies (post.nodes().contains_key(r)
            || post.holes().contains(r)) && !pmp.contains_key(r) by {
            assert(mid.root_ids().contains(r));
            assert((tm.contains_key(r) || mid.holes().contains(r)) && !pmm.contains_key(r));
        }
        assert forall|k: u64| #[trigger] pm0.contains_key(k) implies pmp.contains_key(k) && pmp[k] == pm0[k] by {
            assert(pmb.contains_key(k));
            assert(pmm.contains_key(k));
            if k == nid {
                assert(kids[i] == c);
                assert(pm0[c] == owner);
            }
        }
    }

    /// One child left over and unmounted: the loop of `reconcile` goes on.
    #[verifier::spinoff_prover]
    proof fn lemma_unmounted_one(
        old: &Self,
        before: &Self,
        post: &Self,
        owner: u64,
        kids: Seq<u64>,
        i: int,
        out: Seq<u64>,
        changed: Set<u64>,
        c: u64,
        ci: Set<u64>,
    )
        requires
            old.inv(),
            before.inv(),
            0 <= i < kids.len(),
            c == kids[i],
            owner < old.next_id(),
            !old.nodes().contains_key(owner),
            !before.nodes().contains_key(owner),
            list_ok(old.nodes(), old.parents(), owner, kids),
            Self::progress(old, before),
            list_ok(before.nodes(), before.parents(), owner, out + kids.skip(i)),
            list_complete(before.nodes(), before.parents(), owner, out + kids.skip(i)),
            Self::reshaped(old, before, kids.take(i).to_set(), changed, out.to_set()),
            post.inv(),
            region(before.nodes(), before.parents(), set![c], ci),
            post.nodes() == before.nodes().remove_keys(ci),
            post.nodes().len() < before.nodes().len(),
            post.parents() == before.parents(),
            post.next_id() == before.next_id(),
            post.holes() == before.holes(),
            post.root_ids() == before.root_ids(),
            post.is_exhausted() == before.is_exhausted(),
        ensures
            Self::progress(old, post),
            list_ok(post.nodes(), post.parents(), owner, out + kids.skip(i + 1)),
            list_complete(post.nodes(), post.parents(), owner, out + kids.skip(i + 1)),
            Self::reshaped(old, post, kids.take(i + 1).to_set(), changed.union(ci), out.to_set()),
            forall|x: u64| #[trigger] ci.contains(x) ==> !Self::touched(old, before, changed).contains(x),
    {
        let t0 = old.nodes();
        let pm0 = old.parents();
        let tb = before.nodes();
        let pmb = before.parents();
        let list = out + kids.skip(i);
        let list2 = out + kids.skip(i + 1);
        let touched_b = Self::touched(old, before, changed);
        let changed2 = changed.union(ci);
        assert(list[out.len() as int] == c);
        assert(t0.contains_key(c)) by {
            assert(kids[i] == c);
        }
        assert(!changed.contains(c)) by {
            if changed.contains(c) {
                if kids.take(i).to_set().contains(c) {
                    let j = choose|j: int| 0 <= j < kids.take(i).len() && kids.take(i)[j] == c;
                    assert(kids[j] == c && kids[i] == c);
                } else {
                    assert(pm0.contains_key(c) && changed.contains(pm0[c]));
                    assert(pm0[c] == owner);
                }
            }
        }
        assert(set![c].contains(c));
        assert forall|y: u64| #[trigger] set![c].contains(y) implies !touched_b.contains(y) by {}
        assert forall|y: u64| #[trigger] out.to_set().contains(y) implies !ci.contains(y) by {
            let j = choose|j: int| 0 <= j < out.len() && out[j] == y;
            assert(list[j] == y);
            assert(list[j] != list[out.len() as int]);
            if ci.contains(y) {
                assert(pmb.contains_key(y) && ci.contains(pmb[y]));
            }
        }
        assert forall|x: u64| #[trigger] ci.contains(x) implies !touched_b.contains(x) by {
            lemma_hangs_disjoint(tb, pmb, before.next_id(), before.holes(), set![c], ci, out.to_set(), touched_b, x);
        }
        assert forall|x: u64| #[trigger] ci.contains(x) implies t0.contains_key(x) && !changed.contains(x)
            && tb[x] == t0[x] && (pmb.contains_key(x) ==> pm0.contains_key(x)) by {
            assert(tb.contains_key(x));
            if pmb.contains_key(x) && !pm0.contains_key(x) {
                assert(old.next_id() <= x);
            }
        }
        assert(kids.take(i + 1) =~= kids.take(i).push(c));
        lemma_push_to_set(kids.take(i), c);
        assert forall|x: u64| #[trigger] changed2.contains(x) && !kids.take(i + 1).to_set().contains(x)
            implies pm0.contains_key(x) && changed2.contains(pm0[x]) by {
            if ci.contains(x) {
                assert(x != c);
                assert(pmb.contains_key(x) && ci.contains(pmb[x]));
            }
        }
        assert forall|n: u64| #[trigger] t0.contains_key(n) && !changed2.contains(n) implies post.nodes().contains_key(n)
            && post.nodes()[n] == t0[n] by {
            assert(tb.contains_key(n));
        }
        assert(Self::touched(old, post, changed2) =~= touched_b);
        assert forall|x: u64| #[trigger] touched_b.contains(x) implies post.nodes().contains_key(x) by {}
        assert forall|k: int| 0 <= k < list2.len() implies #[trigger] post.nodes().contains_key(list2[k])
            && owner < list2[k] && pmb.contains_key(list2[k]) && pmb[list2[k]] == owner by {
            if k < out.len() {
                assert(list2[k] == list[k]);
                assert(out.to_set().contains(out[k]));
            } else {
                assert(list2[k] == list[k + 1]);
                assert(list[k + 1] != list[out.len() as int]);
                if ci.contains(list[k + 1]) {
                    assert(pmb.contains_key(list[k + 1]) && ci.contains(pmb[list[k + 1]]));
                }
            }
        }
        assert forall|k: int, l: int| 0 <= k < l < list2.len() implies #[trigger] list2[k] != #[trigger] list2[l] by {
            let k2 = if k < out.len() { k } else { k + 1 };
            let l2 = if l < out.len() { l } else { l + 1 };
            assert(list2[k] == list[k2] && list2[l] == list[l2]);
        }
        assert forall|x: u64| #[trigger] post.nodes().contains_key(x) && pmb.contains_key(x) && pmb[x] == owner
            implies list2.contains(x) by {
            assert(tb.contains_key(x));
            assert(list.contains(x));
            let k = choose|k: int| 0 <= k < list.len() && list[k] == x;
            assert(k != out.len());
            if k < out.len() {
                assert(list2[k] == x);
            } else {
                assert(list2[k - 1] == x);
            }
        }
    }

    /// The elements left over mounted after the paired ones: `reconcile` is done.
    #[verifier::spinoff_prover]
    proof fn lemma_mounted_rest(
        old: &Self,
        before: &Self,
        post: &Self,
        kids: Seq<u64>,
        changed: Set<u64>,
        prev_out: Seq<u64>,
        out: Seq<u64>,
    )
        requires
            Self::progress(old, before),
            Self::reshaped(old, before, kids.to_set(), changed, prev_out.to_set()),
            Self::progress(before, post),
            Self::only_adds(before, post),
            out.subrange(0, prev_out.len() as int) == prev_out,
            prev_out.len() <= out.len(),
            region(
                post.nodes(),
                post.parents(),
                out.subrange(prev_out.len() as int, out.len() as int).to_set(),
                Self::fresh_nodes(before, post),
            ),
        ensures
            Self::progress(old, post),
            Self::reshaped(old, post, kids.to_set(), changed, out.to_set()),
    {
        let touched_b = Self::touched(old, before, changed);
        let fresh = Self::fresh_nodes(before, post);
        let added = out.subrange(prev_out.len() as int, out.len() as int);
        let touched_p = Self::touched(old, post, changed);
        assert(touched_p =~= touched_b.union(fresh));
        assert forall|x: u64| #[trigger] out.to_set().contains(x) implies prev_out.to_set().contains(x)
            || added.to_set().contains(x) by {
            let j = choose|j: int| 0 <= j < out.len() && out[j] == x;
            if j < prev_out.len() {
                assert(out.subrange(0, prev_out.len() as int)[j] == x);
            } else {
                assert(added[j - prev_out.len()] == x);
            }
        }
        assert forall|x: u64| #[trigger] prev_out.to_set().contains(x) implies out.to_set().contains(x) by {
            let j = choose|j: int| 0 <= j < prev_out.len() && prev_out[j] == x;
            assert(out.subrange(0, prev_out.len() as int)[j] == x);
        }
        assert forall|x: u64| #[trigger] added.to_set().contains(x) implies out.to_set().contains(x) by {
            let j = choose|j: int| 0 <= j < added.len() && added[j] == x;
            assert(out[j + prev_out.len()] == x);
        }
        assert forall|x: u64| #[trigger] touched_p.contains(x) && !out.to_set().contains(x) implies post.parents().contains_key(x)
            && touched_p.contains(post.parents()[x]) by {
            if fresh.contains(x) {
                assert(!added.to_set().contains(x));
            } else {
                assert(touched_b.contains(x));
                assert(!prev_out.to_set().contains(x));
                assert(before.parents().contains_key(x) && touched_b.contains(before.parents()[x]));
            }
        }
        assert forall|x: u64| #[trigger] touched_p.contains(x) implies post.nodes().contains_key(x) by {}
        assert forall|n: u64| #[trigger] old.nodes().contains_key(n) && !changed.contains(n) implies post.nodes().contains_key(n)
            && post.nodes()[n] == old.nodes()[n] by {
            assert(before.nodes().contains_key(n));
        }
        assert forall|k: u64| #[trigger] old.parents().contains_key(k) implies post.parents().contains_key(k)
            && post.parents()[k] == old.parents()[k] by {
            assert(before.parents().contains_key(k));
        }
    }

    /// Brings the children of node `owner`, which is out of the tree, in line
    /// with `elements`, pairing them in order: paired ones are diffed, children
    /// left over are unmounted, elements left over are mounted. Gives the new
    /// list of children.
    #[verifier::spinoff_prover]
    #[verifier::rlimit(90)]
    fn reconcile<D: Dom>(
        &mut self,
        owner: u64,
        children: Vec<u64>,
        elements: Vec<Element<H::Template>>,
        parent: Option<PrimitiveId>,
        dom: &mut D,
    ) -> (r: (Result<Vec<u64>, ContextError>, Ghost<Set<u64>>))
        requires
            old(self).inv(),
            owner < old(self).next_id(),
            !old(self).nodes().contains_key(owner),
            list_ok(old(self).nodes(), old(self).parents(), owner, children@),
            list_complete(old(self).nodes(), old(self).parents(), owner, children@),
            forall|h: u64| #[trigger] old(self).holes().contains(h) ==> h <= owner,
        ensures
            final(self).applied_updates() == old(self).applied_updates(),
            final(self).taken_updates() == old(self).taken_updates(),
            final(self).root_ids() == old(self).root_ids(),
            final(self).is_exhausted() == old(self).is_exhausted(),
            match r.0 {
                Ok(out) => {
                    &&& final(self).inv()
                    &&& Self::progress(old(self), final(self))
                    &&& out@.len() == elements@.len()
                    &&& list_ok(final(self).nodes(), final(self).parents(), owner, out@)
                    &&& list_complete(final(self).nodes(), final(self).parents(), owner, out@)
                    &&& Self::reshaped(old(self), final(self), children@.to_set(), r.1@, out@.to_set())
                    &&& forall|k: int|
                        #![trigger out@[k]]
                        0 <= k < children@.len() && k < elements@.len() && old(self).nodes()[children@[k]].inner
                            is Primitive && elements@[k].0 is Primitive ==> out@[k] == children@[k]
                            && final(self).nodes()[children@[k]].inner == old(self).nodes()[children@[k]].inner
                    &&& forall|k: int|
                        #![trigger out@[k]]
                        0 <= k < children@.len() && k < elements@.len() && old(self).nodes()[children@[k]].inner
                            is Component && elements@[k].0 is Component ==> Self::answered(
                            old(self),
                            final(self),
                            children@[k],
                            out@[k] == children@[k],
                        )
                    &&& forall|k: int|
                        0 <= k < elements@.len() ==> mirrors(
                            final(self).nodes(),
                            Self::calls_since(old(self), final(self)),
                            out@[k],
                            #[trigger] elements@[k],
                            parent,
                        )
                    &&& Self::calls_match(old(self), final(self))
                    &&& Self::renders_within(old(self), final(self), Self::touched(old(self), final(self), r.1@))
                    &&& Self::effects_follow(old(self), final(self))
                    &&& Self::diffs_within(old(self), final(self), Self::touched(old(self), final(self), r.1@))
                },
                Err(e) => e == ContextError::IdsExhausted && final(self).next_id() == u64::MAX,
            },
            Self::calls_extend(old(self), final(self)),
            (forall|k: int| 0 <= k < elements@.len() ==> plain(#[trigger] elements@[k])) ==> {
                &&& old(self).next_id() + nodes_count(elements@) <= u64::MAX ==> r.0 is Ok
                &&& r.0 is Ok ==> final(self).next_id() <= old(self).next_id() + nodes_count(elements@)
            },
        decreases u64::MAX - old(self).counter, old(self).tree@.len(), 1nat,
    {
        let mut rest = reversed(elements);
        let mut out: Vec<u64> = Vec::new();
        let ghost mut changed: Set<u64> = Set::empty();
        let ghost n = elements@.len();
        let mut i: usize = 0;
        proof {
            Self::lemma_calls_match_refl(self);
            Self::lemma_renders_refl(self, Self::touched(self, self, changed));
            Self::lemma_effects_none(self, self);
            assert(Self::calls_since(self, self) =~= Seq::<Call>::empty());
            lemma_no_diffs(Seq::<Call>::empty());
            assert(children@.take(0).to_set() =~= Set::<u64>::empty());
            assert(out@ + children@.skip(0) =~= children@);
            assert(Self::touched(old(self), self, changed) =~= Set::<u64>::empty());
            assert(out@.to_set() =~= Set::<u64>::empty());
            assert(elements@.take(0) =~= Seq::<Element<H::Template>>::empty());
        }
        while i < children.len()
            invariant
                self.applied_updates() == old(self).applied_updates(),
                self.taken_updates() == old(self).taken_updates(),
                old(self).inv(),
                self.inv(),
                0 <= i <= children@.len(),
                out@.len() <= i,
                out@.len() < i ==> rest@.len() == 0,
                rest@.len() + out@.len() == n,
                n == elements@.len(),
                owner < old(self).next_id(),
                !self.nodes().contains_key(owner),
                !old(self).nodes().contains_key(owner),
                forall|h: u64| #[trigger] self.holes().contains(h) ==> h <= owner,
                list_ok(old(self).nodes(), old(self).parents(), owner, children@),
                Self::progress(old(self), self),
                list_ok(self.nodes(), self.parents(), owner, out@ + children@.skip(i as int)),
                list_complete(self.nodes(), self.parents(), owner, out@ + children@.skip(i as int)),
                Self::reshaped(old(self), self, children@.take(i as int).to_set(), changed, out@.to_set()),
                rest@ == elements@.subrange(out@.len() as int, n as int).reverse(),
                forall|k: int|
                    0 <= k < out@.len() ==> mirrors(
                        self.nodes(),
                        Self::calls_since(old(self), self),
                        out@[k],
                        #[trigger] elements@[k],
                        parent,
                    ),
                forall|k: int|
                    #![trigger out@[k]]
                    0 <= k < out@.len() && old(self).nodes()[children@[k]].inner is Primitive && elements@[k].0
                        is Primitive ==> out@[k] == children@[k] && self.nodes().contains_key(children@[k])
                        && self.nodes()[children@[k]].inner == old(self).nodes()[children@[k]].inner,
                forall|k: int|
                    #![trigger out@[k]]
                    0 <= k < out@.len() && old(self).nodes()[children@[k]].inner is Component && elements@[k].0
                        is Component ==> Self::answered(old(self), self, children@[k], out@[k] == children@[k]),
                Self::calls_match(old(self), self),
                Self::renders_within(old(self), self, Self::touched(old(self), self, changed)),
                Self::effects_follow(old(self), self),
                Self::diffs_within(old(self), self, Self::touched(old(self), self, changed)),
                (forall|k: int| 0 <= k < elements@.len() ==> plain(#[trigger] elements@[k])) ==> self.next_id()
                    <= old(self).next_id() + nodes_count(elements@.take(out@.len() as int)),
            decreases children@.len() - i,
        {
            let c = children[i];
            let ghost before = *self;
            let ghost list = out@ + children@.skip(i as int);
            proof {
                assert(list[out@.len() as int] == c);
                assert(self.nodes().contains_key(c));
                assert(!attached(self.nodes(), self.parents(), c));
                assert(!self.root_ids().contains(c));
            }
            if rest.len() > 0 {
                proof {
                    assert(rest@.last() == elements@[out@.len() as int]);
                }
                let e = rest.pop().unwrap();
                proof {
                    assert(!changed.contains(c)) by {
                        if changed.contains(c) {
                            assert(list_ok(old(self).nodes(), old(self).parents(), owner, children@));
                            assert(children@[i as int] == c);
                            if children@.take(i as int).to_set().contains(c) {
                                let j = choose|j: int| 0 <= j < children@.take(i as int).len() && children@.take(i as int)[j] == c;
                                assert(children@[j] == c);
                            }
                            assert(old(self).parents()[c] == owner);
                            assert(changed.contains(owner));
                        }
                    }
                    assert(before.nodes()[c] == old(self).nodes()[c]);
                    lemma_nodes_count_take(elements@, out@.len() as int);
                    if forall|k: int| 0 <= k < elements@.len() ==> plain(#[trigger] elements@[k]) {
                        assert(plain(elements@[out@.len() as int]));
                    }
                }
                let (res, Ghost(ci)) = self.diff(c, e, parent, dom);
                let nid = match res {
                    Ok(nid) => nid,
                    Err(e) => {
                        proof {
                            Self::lemma_calls_chain(old(self), &before, self);
                        }
                        return (Err(e), Ghost(Set::empty()));
                    },
                };
                let ghost mid = *self;
                proof {
                    if nid != c {
                        lemma_set_parent(self.tree@, self.parents@, self.counter, self.holes@, nid, owner);
                    } else {
                        assert(list_ok(before.nodes(), before.parents(), owner, out@ + children@.skip(i as int)));
                        assert((out@ + children@.skip(i as int))[out@.len() as int] == c);
                        assert(before.parents()[c] == owner);
                        assert(self.parents@.contains_key(c));
                        assert(self.parents@[c] == owner);
                        assert(self.parents@.insert(nid, owner) =~= self.parents@);
                    }
                    self.parents@ = self.parents@.insert(nid, owner);
                }
                let ghost prev_out = out@;
                out.push(nid);
                proof {
                    Self::lemma_reconciled_one(old(self), &before, &mid, self, owner, children@, i as int, prev_out, changed, c, ci, nid);
                    Self::lemma_step_matches(old(self), &before, self, changed, ci);
                    assert(Self::touched(&before, self, ci) == Self::touched(&before, &mid, ci));
                    assert forall|n: u64| #[trigger] self.nodes().contains_key(n) && !before.nodes().contains_key(n)
                        implies !old(self).nodes().contains_key(n) by {
                        assert(before.next_id() <= n);
                    }
                    Self::lemma_renders_step(old(self), &before, self, changed, ci);
                    Self::lemma_effects_chain(old(self), &before, &mid);
                    assert(self.call_log() == mid.call_log() && self.rendered() == mid.rendered());
                    Self::lemma_diffs_chain(
                        old(self),
                        &before,
                        self,
                        Self::touched(old(self), &before, changed),
                        Self::touched(&before, self, ci),
                        Self::touched(old(self), self, changed.union(ci)),
                    );
                    changed = changed.union(ci);
                    assert(rest@ =~= elements@.subrange(out@.len() as int, n as int).reverse());
                    Self::lemma_calls_chain(old(self), &before, self);
                    lemma_calls_concat(Self::calls_since(old(self), &before), Self::calls_since(&before, self));
                    assert(Self::calls_since(&before, self) == Self::calls_since(&before, &mid));
                    assert forall|k: int|
                        #![trigger out@[k]]
                        0 <= k < out@.len() && old(self).nodes()[children@[k]].inner is Primitive && elements@[k].0
                            is Primitive implies out@[k] == children@[k] && self.nodes().contains_key(children@[k])
                            && self.nodes()[children@[k]].inner == old(self).nodes()[children@[k]].inner by {
                        if k < prev_out.len() {
                            assert(out@[k] == prev_out[k]);
                            assert(list[k] == prev_out[k]);
                            assert(before.nodes().contains_key(children@[k]));
                            assert(!ci.contains(children@[k])) by {
                                if ci.contains(children@[k]) {
                                    assert(before.parents().contains_key(children@[k]) && ci.contains(before.parents()[children@[k]]));
                                }
                            }
                        } else {
                            assert(k == i);
                            assert(children@[k] == c);
                        }
                    }
                    assert(children@[prev_out.len() as int] == c);
                    Self::lemma_answers_step(old(self), &before, &mid, self, children@, elements@, prev_out, nid);
                    assert(out@ == prev_out.push(nid));
                    assert forall|k: int| 0 <= k < out@.len() implies mirrors(
                        self.nodes(),
                        Self::calls_since(old(self), self),
                        out@[k],
                        #[trigger] elements@[k],
                        parent,
                    ) by {
                        if k < prev_out.len() {
                            assert(out@[k] == prev_out[k]);
                            assert(list[k] == prev_out[k]);
                            Self::lemma_sibling_kept(
                                &before,
                                &mid,
                                owner,
                                list,
                                c,
                                ci,
                                prev_out[k],
                                elements@[k],
                                Self::calls_since(old(self), &before),
                                Self::calls_since(old(self), self),
                                parent,
                            );
                        } else {
                            assert(mirrors(mid.nodes(), Self::calls_since(&before, &mid), nid, elements@[k], parent));
                            assert(mid.nodes().submap_of(self.nodes()));
                            lemma_mirrors_grow(
                                mid.nodes(),
                                self.nodes(),
                                Self::calls_since(&before, &mid),
                                Self::calls_since(old(self), self),
                                nid,
                                elements@[k],
                                parent,
                            );
                        }
                    }
                }
            } else {
                let Ghost(ci) = self.unmount(c, dom);
                proof {
                    Self::lemma_unmounted_one(old(self), &before, self, owner, children@, i as int, out@, changed, c, ci);
                    Self::lemma_removal_matches(&before, self, ci);
                    Self::lemma_step_matches(old(self), &before, self, changed, ci);
                    assert(self.rendered() =~= before.rendered());
                    Self::lemma_renders_refl(&before, Self::touched(&before, self, ci));
                    Self::lemma_renders_step(old(self), &before, self, changed, ci);
                    Self::lemma_effects_chain(old(self), &before, self);
                    lemma_no_diffs(Self::calls_since(&before, self));
                    assert forall|x: u64|
                        #[trigger] Self::touched(old(self), &before, changed).contains(x) && before.nodes().contains_key(x)
                            implies self.nodes().contains_key(x) && self.nodes()[x] == before.nodes()[x] by {
                        assert(!ci.contains(x));
                    }
                    Self::lemma_diffs_chain(
                        old(self),
                        &before,
                        self,
                        Self::touched(old(self), &before, changed),
                        Self::touched(&before, self, ci),
                        Self::touched(old(self), self, changed.union(ci)),
                    );
                    changed = changed.union(ci);
                    Self::lemma_calls_chain(old(self), &before, self);
                    lemma_calls_concat(Self::calls_since(old(self), &before), Self::calls_since(&before, self));
                    assert forall|k: int|
                        #![trigger out@[k]]
                        0 <= k < out@.len() && old(self).nodes()[children@[k]].inner is Primitive && elements@[k].0
                            is Primitive implies out@[k] == children@[k] && self.nodes().contains_key(children@[k])
                            && self.nodes()[children@[k]].inner == old(self).nodes()[children@[k]].inner by {
                        assert(list[k] == out@[k]);
                        assert(before.nodes().contains_key(children@[k]));
                        assert(!ci.contains(children@[k])) by {
                            if ci.contains(children@[k]) {
                                assert(children@[k] != c);
                                assert(before.parents().contains_key(children@[k]) && ci.contains(before.parents()[children@[k]]));
                            }
                        }
                    }
                    assert forall|k: int|
                        #![trigger out@[k]]
                        0 <= k < out@.len() && old(self).nodes()[children@[k]].inner is Component && elements@[k].0
                            is Component implies Self::answered(old(self), self, children@[k], out@[k] == children@[k]) by {
                        Self::lemma_answers_kept(old(self), &before, self, children@, elements@, out@);
                    }
                    assert forall|k: int| 0 <= k < out@.len() implies mirrors(
                        self.nodes(),
                        Self::calls_since(old(self), self),
                        out@[k],
                        #[trigger] elements@[k],
                        parent,
                    ) by {
                        assert(list[k] == out@[k]);
                        Self::lemma_sibling_kept(
                            &before,
                            self,
                            owner,
                            list,
                            c,
                            ci,
                            out@[k],
                            elements@[k],
                            Self::calls_since(old(self), &before),
                            Self::calls_since(old(self), self),
                            parent,
                        );
                    }
                }
            }
            i = i + 1;
        }
        let ghost before_mount = *self;
        let ghost prev_out = out@;
        proof {
            assert(out@ + children@.skip(i as int) =~= out@);
            assert(children@.take(i as int) =~= children@);
        }
        let remaining = reversed(rest);
        proof {
            assert(remaining@ =~= elements@.subrange(prev_out.len() as int, n as int));
            assert(elements@.skip(prev_out.len() as int) =~= remaining@);
            lemma_nodes_count_split(elements@, prev_out.len() as int);
            if forall|k: int| 0 <= k < elements@.len() ==> plain(#[trigger] elements@[k]) {
                assert forall|k: int| 0 <= k < remaining@.len() implies plain(#[trigger] remaining@[k]) by {
                    assert(remaining@[k] == elements@[prev_out.len() + k]);
                }
            }
        }
        let out = match self.mount_all(owner, out, remaining, parent, dom) {
            Ok(out) => out,
            Err(e) => {
                proof {
                    Self::lemma_calls_chain(old(self), &before_mount, self);
                }
                return (Err(e), Ghost(Set::empty()));
            },
        };
        proof {
            Self::lemma_mounted_rest(old(self), &before_mount, self, children@, changed, prev_out, out@);
            Self::lemma_addition_matches(&before_mount, self);
            assert forall|n: u64| #[trigger] before_mount.nodes().contains_key(n) && !Set::<u64>::empty().contains(n)
                implies self.nodes().contains_key(n) && self.nodes()[n] == before_mount.nodes()[n] by {
                assert(before_mount.nodes().submap_of(self.nodes()));
            }
            Self::lemma_step_matches(old(self), &before_mount, self, changed, Set::empty());
            assert(Self::touched(&before_mount, self, Set::empty()) =~= Self::fresh_nodes(&before_mount, self));
            assert forall|n: u64| #[trigger] self.nodes().contains_key(n) && !before_mount.nodes().contains_key(n)
                implies !old(self).nodes().contains_key(n) by {
                assert(before_mount.next_id() <= n);
            }
            Self::lemma_renders_step(old(self), &before_mount, self, changed, Set::empty());
            assert(changed.union(Set::empty()) =~= changed);
            Self::lemma_effects_chain(old(self), &before_mount, self);
            lemma_no_diffs(Self::calls_since(&before_mount, self));
            Self::lemma_diffs_chain(
                old(self),
                &before_mount,
                self,
                Self::touched(old(self), &before_mount, changed),
                Self::touched(&before_mount, self, Set::empty()),
                Self::touched(old(self), self, changed),
            );
            assert(remaining@ =~= elements@.subrange(prev_out.len() as int, n as int));
            Self::lemma_calls_chain(old(self), &before_mount, self);
            lemma_calls_concat(Self::calls_since(old(self), &before_mount), Self::calls_since(&before_mount, self));
            assert forall|k: int|
                #![trigger out@[k]]
                0 <= k < children@.len() && k < elements@.len() && old(self).nodes()[children@[k]].inner
                    is Primitive && elements@[k].0 is Primitive implies out@[k] == children@[k]
                    && self.nodes()[children@[k]].inner == old(self).nodes()[children@[k]].inner by {
                assert(k < prev_out.len());
                assert(out@[k] == prev_out[k]);
                assert(before_mount.nodes().contains_key(children@[k]));
            }
            assert forall|k: int|
                #![trigger out@[k]]
                0 <= k < children@.len() && k < elements@.len() && old(self).nodes()[children@[k]].inner
                    is Component && elements@[k].0 is Component implies Self::answered(
                    old(self),
                    self,
                    children@[k],
                    out@[k] == children@[k],
                ) by {
                assert(k < prev_out.len());
                assert(out@[k] == prev_out[k]);
                Self::lemma_answers_kept(old(self), &before_mount, self, children@, elements@, prev_out);
            }
            assert forall|k: int| 0 <= k < elements@.len() implies mirrors(
                self.nodes(),
                Self::calls_since(old(self), self),
                out@[k],
                #[trigger] elements@[k],
                parent,
            ) by {
                if k < prev_out.len() {
                    assert(out@[k] == prev_out[k]);
                    lemma_mirrors_grow(
                        before_mount.nodes(),
                        self.nodes(),
                        Self::calls_since(old(self), &before_mount),
                        Self::calls_since(old(self), self),
                        out@[k],
                        elements@[k],
                        parent,
                    );
                } else {
                    assert(remaining@[k - prev_out.len()] == elements@[k]);
                    assert(mirrors(
                        self.nodes(),
                        Self::calls_since(&before_mount, self),
                        out@[prev_out.len() + (k - prev_out.len())],
                        remaining@[k - prev_out.len()],
                        parent,
                    ));
                    lemma_mirrors_grow(
                        self.nodes(),
                        self.nodes(),
                        Self::calls_since(&before_mount, self),
                        Self::calls_since(old(self), self),
                        out@[k],
                        elements@[k],
                        parent,
                    );
                }
            }
        }
        (Ok(out), Ghost(changed))
    }

    /// Renders the component `owner`, which is out of the tree, again and brings
    /// its children in line with what it renders; then runs its effects.
    #[verifier::spinoff_prover]
    fn update<D: Dom>(
        &mut self,
        owner: u64,
        state: &mut H::State,
        children: Vec<u64>,
        parent: Option<PrimitiveId>,
        dom: &mut D,
    ) -> (r: (Result<Vec<u64>, ContextError>, Ghost<Set<u64>>, Ghost<Seq<Element<H::Template>>>))
        requires
            old(self).inv(),
            owner < old(self).next_id(),
            !old(self).nodes().contains_key(owner),
            list_ok(old(self).nodes(), old(self).parents(), owner, children@),
            list_complete(old(self).nodes(), old(self).parents(), owner, children@),
            forall|h: u64| #[trigger] old(self).holes().contains(h) ==> h <= owner,
        ensures
            final(self).applied_updates() == old(self).applied_updates(),
            final(self).taken_updates() == old(self).taken_updates(),
            final(self).root_ids() == old(self).root_ids(),
            final(self).is_exhausted() == old(self).is_exhausted(),
            match r.0 {
                Ok(out) => {
                    &&& final(self).inv()
                    &&& Self::progress(old(self), final(self))
                    &&& list_ok(final(self).nodes(), final(self).parents(), owner, out@)
                    &&& list_complete(final(self).nodes(), final(self).parents(), owner, out@)
                    &&& Self::reshaped(old(self), final(self), children@.to_set(), r.1@, out@.to_set())
                    &&& Self::calls_match(old(self), final(self))
                    &&& Self::renders_within(
                        old(self),
                        final(self),
                        Self::touched(old(self), final(self), r.1@).insert(owner),
                    )
                    &&& Self::renders_since(old(self), final(self)).len() >= 1
                    &&& Self::renders_since(old(self), final(self))[0] == owner
                    &&& Self::calls_since(old(self), final(self)).len() >= 1
                    &&& Self::calls_since(old(self), final(self)).last() == Call::Effects(owner)
                    &&& final(self).render_outputs()[owner] == r.2@
                    &&& out@.len() == r.2@.len()
                    &&& forall|k: int|
                        0 <= k < out@.len() ==> mirrors(
                            final(self).nodes(),
                            Self::calls_since(old(self), final(self)),
                            out@[k],
                            #[trigger] r.2@[k],
                            parent,
                        )
                    &&& Self::effects_follow(old(self), final(self))
                    &&& Self::diffs_within(old(self), final(self), Self::touched(old(self), final(self), r.1@))
                },
                Err(e) => e == ContextError::IdsExhausted && final(self).next_id() == u64::MAX,
            },
            Self::calls_extend(old(self), final(self)),
        decreases u64::MAX - old(self).counter, old(self).tree@.len(), 2nat,
    {
        let rendered = self.render_again(owner, state);
        let ghost els = rendered@;
        proof {
            assert(self.nodes() == old(self).nodes());
            assert(self.parents() == old(self).parents());
            assert(self.next_id() == old(self).next_id());
            assert(self.holes() == old(self).holes());
            assert(self.root_ids() == old(self).root_ids());
            assert(self.is_exhausted() == old(self).is_exhausted());
            assert(self.inv());
            assert(self.rendered().take(old(self).rendered().len() as int) =~= old(self).rendered());
            assert(Self::renders_since(old(self), self) =~= seq![owner]);
            assert(seq![owner][0] == owner);
            lemma_outputs_insert(old(self).render_outputs(), owner, els, set![owner]);
            assert(Self::renders_within(old(self), self, set![owner]));
        }
        let ghost pushed = *self;
        let (res, Ghost(changed)) = self.reconcile(owner, children, rendered, parent, dom);
        match res {
            Ok(out) => {
                let ghost reconciled = *self;
                self.run_effects(owner, state);
                proof {
                    assert(self.nodes() == reconciled.nodes());
                    assert(self.parents() == reconciled.parents());
                    assert(self.next_id() == reconciled.next_id());
                    assert(self.holes() == reconciled.holes());
                    assert(self.root_ids() == reconciled.root_ids());
                    assert(self.is_exhausted() == reconciled.is_exhausted());
                    assert(Self::touched(&reconciled, self, changed) == Self::touched(&reconciled, &reconciled, changed));
                    assert(pushed.nodes() == old(self).nodes());
                    assert(pushed.call_log() == old(self).call_log());
                    assert(Self::calls_match(old(self), &reconciled));
                    Self::lemma_effects_keep_match(old(self), &reconciled, self, owner);
                    Self::lemma_effects_keep_match(&pushed, &reconciled, self, owner);
                    assert(Self::renders_since(old(self), self) == Self::renders_since(old(self), &reconciled));
                    Self::lemma_renders_concat(old(self), &pushed, &reconciled);
                    lemma_concat_to_set(Self::renders_since(old(self), &pushed), Self::renders_since(&pushed, &reconciled));
                    assert(Self::renders_since(old(self), &pushed).to_set() =~= set![owner]);
                    assert(flushed_by(Self::calls_since(old(self), self)) =~= Self::renders_since(old(self), self).to_set());
                    lemma_calls_concat(Self::calls_since(old(self), &reconciled), seq![Call::Effects(owner)]);
                    assert(Self::calls_since(old(self), self) =~= Self::calls_since(old(self), &reconciled) + seq![Call::Effects(owner)]);
                    lemma_single_call(Call::Effects(owner));
                    assert(Self::calls_since(old(self), &reconciled) == Self::calls_since(&pushed, &reconciled));
                    assert(Self::touched(old(self), self, changed) == Self::touched(&pushed, &reconciled, changed));
                    assert(diffed_by(Self::calls_since(old(self), self)) =~= diffed_by(Self::calls_since(&pushed, &reconciled)));
                    let t = Self::touched(&pushed, self, changed);
                    assert(t == Self::touched(old(self), self, changed));
                    assert forall|x: u64| #[trigger] set![owner].contains(x) implies !t.contains(x) by {
                        if t.contains(owner) {
                            assert(old(self).next_id() <= owner);
                        }
                    }
                    assert(set![owner].contains(owner));
                    assert(!t.contains(owner));
                    assert(Self::touched(&pushed, &reconciled, changed) == t);
                    lemma_outputs_at(pushed.render_outputs(), reconciled.render_outputs(), t, owner);
                    assert(self.render_outputs()[owner] == els);
                    Self::lemma_renders_chain(old(self), &pushed, self, set![owner], t);
                    assert(set![owner].union(t) =~= t.insert(owner));
                    assert(Self::renders_since(old(self), self)[0] == Self::renders_since(old(self), &pushed)[0]);
                    assert forall|k: int| 0 <= k < out@.len() implies mirrors(
                        self.nodes(),
                        Self::calls_since(old(self), self),
                        out@[k],
                        #[trigger] els[k],
                        parent,
                    ) by {
                        assert(mirrors(reconciled.nodes(), Self::calls_since(&pushed, &reconciled), out@[k], els[k], parent));
                        lemma_mirrors_grow(
                            reconciled.nodes(),
                            self.nodes(),
                            Self::calls_since(&pushed, &reconciled),
                            Self::calls_since(old(self), self),
                            out@[k],
                            els[k],
                            parent,
                        );
                    }
                }
                (Ok(out), Ghost(changed), Ghost(els))
            },
            Err(e) => {
                proof {
                    assert(pushed.call_log() == old(self).call_log());
                }
                (Err(e), Ghost(changed), Ghost(els))
            },
        }
    }


    /// Unmounting a root just mounted gives back the tree as it was: the nodes
    /// removed are exactly the nodes the mount added, the `Dom` is asked to
    /// remove exactly the primitives it was asked to mount, and one call is
    /// made per node taken away.
    #[verifier::spinoff_prover]
    pub proof fn lemma_unmount_undoes_mount(c0: &Self, c1: &Self, c2: &Self, id: u64)
        requires
            c0.wf(),
            !c0.is_exhausted(),
            Self::mounted_root(c0, c1, id),
            c1.inv(),
            Self::unmounted_root(c1, c2, id),
        ensures
            c2.nodes() == c0.nodes(),
            c2.root_ids() == c0.root_ids(),
            removed_by(Self::calls_since(c1, c2)) == mounted_by(Self::calls_since(c0, c1)),
            Self::calls_since(c1, c2).len() == Self::fresh_nodes(c0, c1).len(),
    {
        let below = choose|below: Set<u64>|
            region(c1.nodes(), c1.parents(), set![id], below) && #[trigger] c1.nodes().remove_keys(below)
                == c2.nodes();
        lemma_region_unique(
            c1.nodes(),
            c1.parents(),
            c1.next_id(),
            c1.holes(),
            set![id],
            below,
            Self::fresh_nodes(c0, c1),
        );
        assert(c2.nodes() =~= c0.nodes());
        assert(!c0.root_ids().contains(id));
        assert(c2.root_ids() =~= c0.root_ids());
        assert(c1.nodes().dom().difference(c2.nodes().dom()) =~= Self::fresh_nodes(c0, c1));
    }

    /// Flags every node below `x`, and takes every node it flags out of `roots`.
    #[verifier::spinoff_prover]
    fn flag_below(&self, x: u64, roots: &mut Vec<u64>, flagged: &mut HashSet<u64>)
        requires
            self.inv(),
            self.holes() == Set::<u64>::empty(),
            self.nodes().contains_key(x),
            old(roots)@.no_duplicates(),
            forall|y: u64| #[trigger] old(roots)@.contains(y) ==> !old(flagged)@.contains(y),
            forall|y: u64| #[trigger] old(flagged)@.contains(y) ==> self.nodes().contains_key(y),
        ensures
            old(flagged)@.subset_of(final(flagged)@),
            forall|y: u64| #[trigger] final(flagged)@.contains(y) ==> self.nodes().contains_key(y),
            forall|y: u64|
                #[trigger] final(flagged)@.contains(y) && !old(flagged)@.contains(y) ==> descends(
                    self.nodes(),
                    x,
                    y,
                ),
            forall|k: int|
                0 <= k < self.nodes()[x].children@.len() ==> final(flagged)@.contains(
                    #[trigger] self.nodes()[x].children@[k],
                ),
            forall|y: u64, k: int|
                #![trigger final(flagged)@.contains(y), self.nodes()[y].children@[k]]
                final(flagged)@.contains(y) && !old(flagged)@.contains(y) && 0 <= k
                    < self.nodes()[y].children@.len() ==> final(flagged)@.contains(
                    self.nodes()[y].children@[k],
                ),
            final(roots)@.no_duplicates(),
            final(roots)@.to_set() == old(roots)@.to_set().difference(final(flagged)@),
        decreases u64::MAX - x,
    {
        let ghost t = self.tree@;
        let node = self.tree.get(&x).unwrap();
        let n = node.children.len();
        let ghost f0 = flagged@;
        let ghost r0 = roots@;
        let mut i: usize = 0;
        while i < n
            invariant
                self.inv(),
                self.holes() == Set::<u64>::empty(),
                t == self.tree@,
                t.contains_key(x),
                node == t[x],
                n == t[x].children@.len(),
                0 <= i <= n,
                f0.subset_of(flagged@),
                forall|y: u64| #[trigger] flagged@.contains(y) ==> t.contains_key(y),
                forall|y: u64| #[trigger] flagged@.contains(y) && !f0.contains(y) ==> descends(t, x, y),
                forall|k: int| 0 <= k < i ==> flagged@.contains(#[trigger] t[x].children@[k]),
                forall|y: u64, k: int|
                    #![trigger flagged@.contains(y), t[y].children@[k]]
                    flagged@.contains(y) && !f0.contains(y) && 0 <= k < t[y].children@.len()
                        ==> flagged@.contains(t[y].children@[k]),
                roots@.no_duplicates(),
                roots@.to_set() == r0.to_set().difference(flagged@),
            decreases n - i,
        {
            let cid = node.children[i];
            proof {
                lemma_child_edge(t, self.parents@, self.counter, self.holes@, x, i as int);
            }
            remove_value(roots, cid);
            let ghost f1 = flagged@;
            if flagged.insert(cid) {
                proof {
                    let p = seq![x, cid];
                    assert(step_at(t, p, 0));
                    assert(is_path(t, p));
                    assert(p.last() == cid);
                }
                let ghost r1 = roots@;
                proof {
                    assert forall|y: u64| #[trigger] roots@.contains(y) implies !flagged@.contains(y) by {
                        assert(roots@.to_set().contains(y));
                    }
                }
                self.flag_below(cid, roots, flagged);
                proof {
                    assert forall|y: u64| #[trigger] flagged@.contains(y) && !f0.contains(y) implies descends(t, x, y) by {
                        if !f1.contains(y) && y != cid {
                            let p = choose|p: Seq<u64>| #[trigger] is_path(t, p) && p.len() >= 2 && p[0] == cid && p.last() == y;
                            assert(t[x].children@[i as int] == cid);
                            lemma_path_prepend(t, x, p);
                            assert(is_path(t, seq![x] + p));
                        } else if y == cid {
                            let p = seq![x, cid];
                            assert(step_at(t, p, 0));
                            assert(is_path(t, p));
                        }
                    }
                    assert(roots@.to_set() =~= r0.to_set().difference(flagged@));
                }
            } else {
                proof {
                    assert(roots@.to_set() =~= r0.to_set().difference(flagged@));
                }
            }
            i = i + 1;
        }
    }

    /// The components to render again for a batch of updates addressed to
    /// `targets`: each target that lies below no other target, once each.
    #[verifier::spinoff_prover]
    pub fn plan_roots(&self, targets: &Vec<u64>) -> (roots: Vec<u64>)
        requires
            self.inv(),
            self.holes() == Set::<u64>::empty(),
            forall|k: int| 0 <= k < targets@.len() ==> self.nodes().contains_key(#[trigger] targets@[k]),
        ensures
            roots@.no_duplicates(),
            roots@.to_set() == rerender_roots(self.nodes(), targets@),
    {
        let ghost t = self.tree@;
        let mut roots: Vec<u64> = Vec::new();
        let mut flagged: HashSet<u64> = HashSet::new();
        let mut i: usize = 0;
        while i < targets.len()
            invariant
                self.inv(),
                self.holes() == Set::<u64>::empty(),
                t == self.tree@,
                0 <= i <= targets@.len(),
                forall|k: int| 0 <= k < targets@.len() ==> t.contains_key(#[trigger] targets@[k]),
                forall|y: u64| #[trigger] flagged@.contains(y) ==> t.contains_key(y),
                forall|y: u64, k: int|
                    #![trigger flagged@.contains(y), t[y].children@[k]]
                    flagged@.contains(y) && t.contains_key(y) && 0 <= k < t[y].children@.len()
                        ==> flagged@.contains(t[y].children@[k]),
                forall|y: u64|
                    flagged@.contains(y) <==> exists|j: int|
                        0 <= j < i && #[trigger] descends(t, targets@[j], y),
                roots@.no_duplicates(),
                roots@.to_set() == targets@.take(i as int).to_set().difference(flagged@),
            decreases targets@.len() - i,
        {
            let target = targets[i];
            proof {
                lemma_push_to_set(targets@.take(i as int), target);
                assert(targets@.take(i + 1) =~= targets@.take(i as int).push(target));
            }
            if flagged.contains(&target) {
                proof {
                    assert forall|y: u64| descends(t, target, y) implies flagged@.contains(y) by {
                        let p = choose|p: Seq<u64>| #[trigger] is_path(t, p) && p.len() >= 2 && p[0] == target && p.last() == y;
                        lemma_closed_holds_path(t, flagged@, p);
                    }
                    assert forall|y: u64|
                        flagged@.contains(y) <==> exists|j: int|
                            0 <= j < i + 1 && #[trigger] descends(t, targets@[j], y) by {
                        if descends(t, targets@[i as int], y) {
                            assert(flagged@.contains(y));
                        }
                        if flagged@.contains(y) {
                            let j = choose|j: int| 0 <= j < i && #[trigger] descends(t, targets@[j], y);
                        }
                    }
                    assert(roots@.to_set() =~= targets@.take(i + 1).to_set().difference(flagged@));
                }
            } else {
                if !contains_value(&roots, target) {
                    proof {
                        assert(roots@.push(target).no_duplicates()) by {
                            assert forall|a: int, b: int| 0 <= a < b < roots@.push(target).len()
                                implies roots@.push(target)[a] != roots@.push(target)[b] by {
                                if b == roots@.len() {
                                    assert(roots@.contains(roots@[a]));
                                }
                            }
                        }
                        lemma_push_to_set(roots@, target);
                    }
                    roots.push(target);
                }
                let ghost f1 = flagged@;
                let ghost r1 = roots@;
                proof {
                    assert(r1.to_set() =~= targets@.take(i + 1).to_set().difference(f1));
                    assert forall|y: u64| #[trigger] roots@.contains(y) implies !flagged@.contains(y) by {
                        assert(roots@.to_set().contains(y));
                    }
                }
                self.flag_below(target, &mut roots, &mut flagged);
                proof {
                    assert forall|y: u64| descends(t, target, y) implies flagged@.contains(y) by {
                        let p = choose|p: Seq<u64>| #[trigger] is_path(t, p) && p.len() >= 2 && p[0] == target && p.last() == y;
                        assert(step_at(t, p, 0));
                        let q = p.drop_first();
                        assert forall|k: int| 0 <= k < q.len() - 1 implies #[trigger] step_at(t, q, k) by {
                            assert(step_at(t, p, k + 1));
                        }
                        let c = q[0];
                        let k = choose|k: int| 0 <= k < t[target].children@.len() && t[target].children@[k] == c;
                        assert(flagged@.contains(t[target].children@[k]));
                        lemma_closed_holds_path(t, flagged@, q);
                    }
                    assert forall|y: u64|
                        flagged@.contains(y) <==> exists|j: int|
                            0 <= j < i + 1 && #[trigger] descends(t, targets@[j], y) by {
                        if descends(t, targets@[i as int], y) {
                            assert(flagged@.contains(y));
                        }
                        if flagged@.contains(y) && !f1.contains(y) {
                            assert(descends(t, targets@[i as int], y));
                        }
                        if f1.contains(y) {
                            let j = choose|j: int| 0 <= j < i && #[trigger] descends(t, targets@[j], y);
                        }
                    }
                    assert(!flagged@.contains(target)) by {
                        if flagged@.contains(target) {
                            let j = choose|j: int| 0 <= j < i + 1 && #[trigger] descends(t, targets@[j], target);
                            if j < i {
                                assert(f1.contains(target));
                            } else {
                                let p = choose|p: Seq<u64>| #[trigger] is_path(t, p) && p.len() >= 2 && p[0] == target && p.last() == target;
                                lemma_path_increasing(t, self.parents@, self.counter, self.holes@, p);
                            }
                        }
                    }
                    assert(roots@.to_set() =~= targets@.take(i + 1).to_set().difference(flagged@));
                }
            }
            i = i + 1;
        }
        proof {
            assert(targets@.take(targets@.len() as int) =~= targets@);
            assert(roots@.to_set() =~= rerender_roots(t, targets@)) by {
                assert forall|r: u64| roots@.to_set().contains(r) == rerender_roots(t, targets@).contains(r) by {
                    if flagged@.contains(r) {
                        let j = choose|j: int| 0 <= j < targets@.len() && #[trigger] descends(t, targets@[j], r);
                        assert(targets@.contains(targets@[j]));
                    }
                    if exists|a: u64| targets@.contains(a) && descends(t, a, r) {
                        let a = choose|a: u64| targets@.contains(a) && descends(t, a, r);
                        let j = choose|j: int| 0 <= j < targets@.len() && targets@[j] == a;
                        assert(descends(t, targets@[j], r));
                    }
                }
            }
        }
        roots
    }

}

/// No component rendered again for a batch lies below another one rendered again.
#[verifier::spinoff_prover]
pub proof fn lemma_rerender_roots_apart<S>(t: Map<u64, Mounted<S>>, targets: Seq<u64>, a: u64, b: u64)
    requires
        rerender_roots(t, targets).contains(a),
        rerender_roots(t, targets).contains(b),
    ensures
        !descends(t, a, b),
{
}

/// Every component an update was addressed to is rendered again, or lies below
/// one that is.
#[verifier::spinoff_prover]
pub proof fn lemma_rerender_roots_cover<S>(
    t: Map<u64, Mounted<S>>,
    pm: Map<u64, u64>,
    counter: u64,
    holes: Set<u64>,
    targets: Seq<u64>,
    x: u64,
)
    requires
        tree_wf(t, pm, counter, holes),
        targets.contains(x),
    ensures
        rerender_roots(t, targets).contains(x) || exists|r: u64|
            rerender_roots(t, targets).contains(r) && #[trigger] descends(t, r, x),
    decreases x,
{
    if !rerender_roots(t, targets).contains(x) {
        let a = choose|a: u64| targets.contains(a) && descends(t, a, x);
        let p = choose|p: Seq<u64>| #[trigger] is_path(t, p) && p.len() >= 2 && p[0] == a && p.last() == x;
        lemma_path_increasing(t, pm, counter, holes, p);
        lemma_rerender_roots_cover(t, pm, counter, holes, targets, a);
        if !rerender_roots(t, targets).contains(a) {
            let r = choose|r: u64| rerender_roots(t, targets).contains(r) && #[trigger] descends(t, r, a);
            lemma_descends_trans(t, r, a, x);
        }
    }
}

/// The ids of two runs together.
#[verifier::spinoff_prover]
proof fn lemma_concat_to_set(a: Seq<u64>, b: Seq<u64>)
    ensures
        (a + b).to_set() == a.to_set().union(b.to_set()),
{
    assert forall|x: u64| (a + b).to_set().contains(x) == a.to_set().union(b.to_set()).contains(x) by {
        if (a + b).contains(x) {
            let k = choose|k: int| 0 <= k < (a + b).len() && (a + b)[k] == x;
            if k < a.len() {
                assert(a[k] == x);
            } else {
                assert(b[k - a.len()] == x);
            }
        }
        if a.contains(x) {
            let k = choose|k: int| 0 <= k < a.len() && a[k] == x;
            assert((a + b)[k] == x);
        }
        if b.contains(x) {
            let k = choose|k: int| 0 <= k < b.len() && b[k] == x;
            assert((a + b)[a.len() + k] == x);
        }
    }
    assert((a + b).to_set() =~= a.to_set().union(b.to_set()));
}

/// `n` is one of `targets` or lies below one of them.
pub open spec fn under_targets<S>(t: Map<u64, Mounted<S>>, targets: Seq<u64>, n: u64) -> bool {
    targets.contains(n) || exists|a: u64| targets.contains(a) && #[trigger] descends(t, a, n)
}

/// A node of the tree `t` that a later state changed, where the change hangs
/// below a target, is itself under the targets in `t`.
#[verifier::spinoff_prover]
proof fn lemma_changed_under_targets<S>(
    t: Map<u64, Mounted<S>>,
    pm: Map<u64, u64>,
    counter: u64,
    t2: Map<u64, Mounted<S>>,
    pm2: Map<u64, u64>,
    targets: Seq<u64>,
    root: u64,
    changed: Set<u64>,
    x: u64,
)
    requires
        tree_wf(t, pm, counter, Set::<u64>::empty()),
        forall|n: u64| #[trigger] t.contains_key(n) ==> n < counter,
        forall|n: u64| #[trigger] t2.contains_key(n) && !t.contains_key(n) ==> counter <= n,
        pm.submap_of(pm2),
        forall|k: u64| #[trigger] pm2.contains_key(k) && !pm.contains_key(k) ==> counter <= k,
        forall|k: u64| #[trigger] pm2.contains_key(k) ==> pm2[k] < k,
        hangs_below(t2, pm2, set![root], changed),
        targets.contains(root),
        changed.contains(x),
        t.contains_key(x),
    ensures
        under_targets(t, targets, x),
    decreases x,
{
    if x != root {
        let y = pm2[x];
        assert(pm.contains_key(x));
        assert(pm[x] == y);
        assert(t2.contains_key(y));
        assert(t.contains_key(y)) by {
            assert(y < x);
        }
        lemma_changed_under_targets(t, pm, counter, t2, pm2, targets, root, changed, y);
        lemma_attached_listed(t, pm, counter, Set::<u64>::empty(), x);
        let p = seq![y, x];
        assert(step_at(t, p, 0));
        assert(is_path(t, p));
        assert(descends(t, y, x));
        if !targets.contains(y) {
            let a = choose|a: u64| targets.contains(a) && #[trigger] descends(t, a, y);
            lemma_descends_trans(t, a, y, x);
        }
    }
}

/// In the tree `t`, every one of `targets` rendered again (it is among
/// `renders`), or lies below one of them that did.
pub open spec fn round_covered<S>(t: Map<u64, Mounted<S>>, targets: Seq<u64>, renders: Seq<u64>) -> bool {
    forall|k: int| 0 <= k < targets.len() ==> reached(t, targets, renders, #[trigger] targets[k])
}

/// In the tree `t`, `x` rendered again (it is among `renders`), or lies below
/// one of `targets` that did.
pub open spec fn reached<S>(t: Map<u64, Mounted<S>>, targets: Seq<u64>, renders: Seq<u64>, x: u64) -> bool {
    exists|r: u64| #[trigger] renders.contains(r) && targets.contains(r) && (r == x || descends(t, r, x))
}

/// The updates at the positions from `round.0` on went, in order, to the
/// components of `round.1`.
pub open spec fn round_matches<S>(updates: Seq<(u64, u64)>, round: (int, Seq<u64>, Map<u64, Mounted<S>>, Seq<u64>)) -> bool {
    &&& 0 <= round.0
    &&& round.0 + round.1.len() <= updates.len()
    &&& forall|j: int| 0 <= j < round.1.len() ==> updates[round.0 + j].0 == #[trigger] round.1[j]
}

/// Some round of `rounds` holds the update at position `j`.
pub open spec fn update_covered<S>(rounds: Seq<(int, Seq<u64>, Map<u64, Mounted<S>>, Seq<u64>)>, j: int) -> bool {
    exists|i: int| #[trigger] covers(rounds, i, j)
}

/// What a round matches among some updates it still matches once more follow.
proof fn lemma_round_matches_prefix<S>(
    u1: Seq<(u64, u64)>,
    u2: Seq<(u64, u64)>,
    round: (int, Seq<u64>, Map<u64, Mounted<S>>, Seq<u64>),
)
    requires
        round_matches(u1, round),
        u1.len() <= u2.len(),
        u2.take(u1.len() as int) == u1,
    ensures
        round_matches(u2, round),
{
    assert forall|j: int| 0 <= j < round.1.len() implies u2[round.0 + j].0 == #[trigger] round.1[j] by {
        assert(u2.take(u1.len() as int)[round.0 + j] == u2[round.0 + j]);
    }
}

/// Round `i` of `rounds` holds the update at position `j`.
pub open spec fn covers<S>(rounds: Seq<(int, Seq<u64>, Map<u64, Mounted<S>>, Seq<u64>)>, i: int, j: int) -> bool {
    0 <= i < rounds.len() && rounds[i].0 <= j < rounds[i].0 + rounds[i].1.len()
}

/// Whatever two runs of ids hold, the two together hold.
proof fn lemma_u64_concat_contains(a: Seq<u64>, b: Seq<u64>)
    ensures
        forall|x: u64| #[trigger] a.contains(x) ==> (a + b).contains(x),
        forall|x: u64| #[trigger] b.contains(x) ==> (a + b).contains(x),
{
    assert forall|x: u64| #[trigger] a.contains(x) implies (a + b).contains(x) by {
        let k = choose|k: int| 0 <= k < a.len() && a[k] == x;
        assert((a + b)[k] == x);
    }
    assert forall|x: u64| #[trigger] b.contains(x) implies (a + b).contains(x) by {
        let k = choose|k: int| 0 <= k < b.len() && b[k] == x;
        assert((a + b)[a.len() + k] == x);
    }
}

/// The components that a batch of updates addressed to `targets` renders
/// again: the targets that lie below no target.
pub open spec fn rerender_roots<S>(t: Map<u64, Mounted<S>>, targets: Seq<u64>) -> Set<u64> {
    Set::new(|r: u64| targets.contains(r) && !exists|a: u64| targets.contains(a) && descends(t, a, r))
}

/// Whether `x` is in `v`.
#[verifier::spinoff_prover]
/// Outside `allowed`, the last outputs in `b` are those in `a`.
#[verifier::opaque]
pub open spec fn outputs_kept<T>(a: Map<u64, Seq<Element<T>>>, b: Map<u64, Seq<Element<T>>>, allowed: Set<u64>) -> bool {
    forall|x: u64| !allowed.contains(x) ==> #[trigger] b[x] == a[x]
}

/// Nothing changes between a map and itself.
proof fn lemma_outputs_refl<T>(a: Map<u64, Seq<Element<T>>>, allowed: Set<u64>)
    ensures
        outputs_kept(a, a, allowed),
{
    reveal(outputs_kept);
}

/// Two steps that keep the outputs outside two sets keep them outside the union.
proof fn lemma_outputs_chain<T>(
    a: Map<u64, Seq<Element<T>>>,
    b: Map<u64, Seq<Element<T>>>,
    c: Map<u64, Seq<Element<T>>>,
    s1: Set<u64>,
    s2: Set<u64>,
)
    requires
        outputs_kept(a, b, s1),
        outputs_kept(b, c, s2),
    ensures
        outputs_kept(a, c, s1.union(s2)),
{
    reveal(outputs_kept);
    assert forall|x: u64| !s1.union(s2).contains(x) implies #[trigger] c[x] == a[x] by {
        assert(c[x] == b[x]);
        assert(b[x] == a[x]);
    }
}

/// What is kept outside a set is kept outside a larger one.
proof fn lemma_outputs_widen<T>(a: Map<u64, Seq<Element<T>>>, b: Map<u64, Seq<Element<T>>>, s1: Set<u64>, s2: Set<u64>)
    requires
        outputs_kept(a, b, s1),
        s1.subset_of(s2),
    ensures
        outputs_kept(a, b, s2),
{
    reveal(outputs_kept);
    assert forall|x: u64| !s2.contains(x) implies #[trigger] b[x] == a[x] by {
        assert(!s1.contains(x));
    }
}

/// An output outside the set is the one from before.
proof fn lemma_outputs_at<T>(a: Map<u64, Seq<Element<T>>>, b: Map<u64, Seq<Element<T>>>, allowed: Set<u64>, x: u64)
    requires
        outputs_kept(a, b, allowed),
        !allowed.contains(x),
    ensures
        b[x] == a[x],
{
    reveal(outputs_kept);
}

/// Recording the output of `id` keeps every other output.
proof fn lemma_outputs_insert<T>(a: Map<u64, Seq<Element<T>>>, id: u64, v: Seq<Element<T>>, allowed: Set<u64>)
    requires
        allowed.contains(id),
    ensures
        outputs_kept(a, a.insert(id, v), allowed),
{
    reveal(outputs_kept);
}

/// A prefix of a prefix is a prefix, and what follows the shortest is what
/// follows it in the middle one, then what follows the middle one.
proof fn lemma_prefix_chain<A>(x: Seq<A>, y: Seq<A>, z: Seq<A>)
    requires
        x.len() <= y.len(),
        y.take(x.len() as int) == x,
        y.len() <= z.len(),
        z.take(y.len() as int) == y,
    ensures
        z.take(x.len() as int) == x,
        z.skip(x.len() as int) == y.skip(x.len() as int) + z.skip(y.len() as int),
{
    let lx = x.len() as int;
    let ly = y.len() as int;
    assert forall|k: int| 0 <= k < lx implies z.take(lx)[k] == x[k] by {
        assert(z.take(ly)[k] == z[k]);
        assert(y.take(lx)[k] == y[k]);
    }
    assert(z.take(lx) =~= x);
    assert forall|k: int| 0 <= k < ly - lx implies z.skip(lx)[k] == #[trigger] (y.skip(lx) + z.skip(ly))[k] by {
        assert(z.take(ly)[lx + k] == z[lx + k]);
    }
    assert(z.skip(lx) =~= y.skip(lx) + z.skip(ly));
}

fn contains_value(v: &Vec<u64>, x: u64) -> (b: bool)
    ensures
        b == v@.contains(x),
{
    let mut i: usize = 0;
    while i < v.len()
        invariant
            0 <= i <= v@.len(),
            forall|k: int| 0 <= k < i ==> v@[k] != x,
        decreases v@.len() - i,
    {
        if v[i] == x {
            return true;
        }
        i = i + 1;
    }
    false
}

/// Takes `x` out of a list without repeats, keeping the order of the rest.
#[verifier::spinoff_prover]
fn remove_value(v: &mut Vec<u64>, x: u64)
    requires
        old(v)@.no_duplicates(),
    ensures
        final(v)@.no_duplicates(),
        final(v)@.to_set() == old(v)@.to_set().remove(x),
{
    let mut i: usize = 0;
    while i < v.len()
        invariant
            0 <= i <= v@.len(),
            v@ == old(v)@,
            old(v)@.no_duplicates(),
            forall|k: int| 0 <= k < i ==> v@[k] != x,
        decreases v@.len() - i,
    {
        if v[i] == x {
            let ghost before = v@;
            v.remove(i);
            proof {
                before.remove_ensures(i as int);
                assert(before[i as int] == x);
                assert forall|a: u64| v@.to_set().contains(a) == before.to_set().remove(x).contains(a) by {
                    if v@.contains(a) {
                        let k = choose|k: int| 0 <= k < v@.len() && v@[k] == a;
                        if k < i {
                            assert(before[k] == a);
                            assert(before[k] != before[i as int]);
                        } else {
                            assert(before[k + 1] == a);
                            assert(before[k + 1] != before[i as int]);
                        }
                    }
                    if before.contains(a) && a != x {
                        let k = choose|k: int| 0 <= k < before.len() && before[k] == a;
                        if k < i {
                            assert(v@[k] == a);
                        } else {
                            assert(k != i);
                            assert(v@[k - 1] == a);
                        }
                    }
                }
                assert(v@.to_set() =~= before.to_set().remove(x));
                assert forall|a: int, b: int| 0 <= a < b < v@.len() implies v@[a] != v@[b] by {
                    let a2 = if a < i { a } else { a + 1 };
                    let b2 = if b < i { b } else { b + 1 };
                    assert(v@[a] == before[a2] && v@[b] == before[b2]);
                }
            }
            return;
        }
        i = i + 1;
    }
    proof {
        assert(!v@.contains(x));
        assert(v@.to_set() =~= old(v)@.to_set().remove(x));
    }
}

} // verus!
