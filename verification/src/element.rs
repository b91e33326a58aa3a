use vstd::prelude::*;
use crate::dom::Primitive;

verus! {

/// What an element describes: a component still to be rendered, or a primitive
/// with the elements below it.
pub enum ElementInner<T> {
    Component(T),
    Primitive(Primitive, Vec<Element<T>>),
}

/// A description of a piece of interface, with an optional key.
///
/// `T` is what a component element carries until it is rendered: the component
/// function and its props.
pub struct Element<T>(pub ElementInner<T>, pub Option<u64>);

impl<T> Element<T> {
    /// An element for a component that is not rendered yet.
    pub fn component(template: T) -> (e: Self)
        ensures
            e.0 == ElementInner::Component(template),
            e.1 == None::<u64>,
    {
        Element(ElementInner::Component(template), None)
    }

    /// The same element under the given key.
    pub fn with_key(self, key: u64) -> (e: Self)
        ensures
            e.0 == self.0,
            e.1 == Some(key),
    {
        Element(self.0, Some(key))
    }
}

/// Every element of `e` is a primitive: mounting it renders no component.
pub open spec fn plain<T>(e: Element<T>) -> bool
    decreases e,
{
    match e.0 {
        ElementInner::Primitive(_, c) => forall|i: int| 0 <= i < c@.len() ==> plain(#[trigger] c@[i]),
        ElementInner::Component(_) => false,
    }
}

/// The number of nodes that mounting `e` makes, counting a component as one
/// node without what it renders.
pub open spec fn node_count<T>(e: Element<T>) -> nat
    decreases e, 1nat,
{
    match e.0 {
        ElementInner::Primitive(_, c) => 1 + nodes_count(c@),
        ElementInner::Component(_) => 1,
    }
}

/// The number of nodes that mounting the elements `s` makes, as `node_count`
/// counts them.
pub open spec fn nodes_count<T>(s: Seq<Element<T>>) -> nat
    decreases s, 0nat,
{
    if s.len() == 0 {
        0
    } else {
        nodes_count(s.drop_last()) + node_count(s.last())
    }
}

/// Counting the first `k + 1` elements adds the `k`-th to the first `k`; a
/// prefix counts no more than the whole.
pub proof fn lemma_nodes_count_take<T>(s: Seq<Element<T>>, k: int)
    requires
        0 <= k < s.len(),
    ensures
        nodes_count(s.take(k + 1)) == nodes_count(s.take(k)) + node_count(s[k]),
        nodes_count(s.take(k + 1)) <= nodes_count(s),
    decreases s.len() - k,
{
    assert(s.take(k + 1).drop_last() =~= s.take(k));
    assert(s.take(k + 1).last() == s[k]);
    if k + 1 < s.len() {
        lemma_nodes_count_take(s, k + 1);
    } else {
        assert(s.take(k + 1) =~= s);
    }
}

/// The elements before and from position `j` count, together, as all of them.
pub proof fn lemma_nodes_count_split<T>(s: Seq<Element<T>>, j: int)
    requires
        0 <= j <= s.len(),
    ensures
        nodes_count(s) == nodes_count(s.take(j)) + nodes_count(s.skip(j)),
    decreases s.len(),
{
    if j == s.len() {
        assert(s.take(j) =~= s);
        assert(s.skip(j).len() == 0);
    } else {
        lemma_nodes_count_split(s.drop_last(), j);
        assert(s.drop_last().take(j) =~= s.take(j));
        assert(s.skip(j).drop_last() =~= s.drop_last().skip(j));
        assert(s.skip(j).last() == s.last());
    }
}

/// A panel holding the given elements, in order.
pub fn panel<T>(children: Vec<Element<T>>) -> (e: Element<T>)
    ensures
        e.0 == ElementInner::Primitive(Primitive::Panel, children),
        e.1 == None::<u64>,
{
    Element(ElementInner::Primitive(Primitive::Panel, children), None)
}

/// A text primitive with no children.
pub fn text<T>(content: String) -> (e: Element<T>)
    ensures
        e.0 matches ElementInner::Primitive(Primitive::Text(s), ch) && s@ == content@ && ch@.len() == 0,
        e.1 == None::<u64>,
{
    Element(ElementInner::Primitive(Primitive::Text(content), Vec::new()), None)
}

/// What a component function renders: nothing, one element, or several.
pub enum ComponentOutput<T> {
    Nothing,
    Single(Element<T>),
    Multiple(Vec<Element<T>>),
}

impl<T> ComponentOutput<T> {
    /// The elements rendered, in order.
    pub open spec fn elements(self) -> Seq<Element<T>> {
        match self {
            ComponentOutput::Nothing => Seq::empty(),
            ComponentOutput::Single(e) => seq![e],
            ComponentOutput::Multiple(v) => v@,
        }
    }

    pub fn from_element(e: Element<T>) -> (o: Self)
        ensures
            o == ComponentOutput::Single(e),
    {
        ComponentOutput::Single(e)
    }

    pub fn from_vec(v: Vec<Element<T>>) -> (o: Self)
        ensures
            o == ComponentOutput::Multiple(v),
    {
        ComponentOutput::Multiple(v)
    }

    /// `None` renders nothing, `Some(e)` renders `e`.
    pub fn from_option(v: Option<Element<T>>) -> (o: Self)
        ensures
            v matches Some(e) ==> o == ComponentOutput::Single(e),
            v is None ==> o is Nothing,
    {
        match v {
            Some(e) => ComponentOutput::Single(e),
            None => ComponentOutput::Nothing,
        }
    }

    /// The rendered elements as a list.
    pub fn into_vec(self) -> (v: Vec<Element<T>>)
        ensures
            v@ == self.elements(),
    {
        match self {
            ComponentOutput::Nothing => Vec::new(),
            ComponentOutput::Single(e) => {
                let mut v = Vec::new();
                v.push(e);
                v
            },
            ComponentOutput::Multiple(v) => v,
        }
    }

    /// Walks the rendered elements one at a time.
    pub fn into_iter(self) -> (it: ComponentOutputIterator<T>)
        ensures
            it.remaining() == self.elements(),
    {
        match self {
            ComponentOutput::Nothing => ComponentOutputIterator::OptionIterator(None),
            ComponentOutput::Single(e) => ComponentOutputIterator::OptionIterator(Some(e)),
            ComponentOutput::Multiple(v) => ComponentOutputIterator::MultipleIterator(
                reversed(v),
            ),
        }
    }
}

/// The same elements, last one first.
pub(crate) fn reversed<A>(v: Vec<A>) -> (r: Vec<A>)
    ensures
        r@ == v@.reverse(),
{
    let mut v = v;
    let ghost orig = v@;
    let mut r: Vec<A> = Vec::new();
    while v.len() > 0
        invariant
            v@.len() <= orig.len(),
            v@ == orig.take(v@.len() as int),
            r@ == orig.skip(v@.len() as int).reverse(),
        decreases v.len(),
    {
        let ghost n = v@.len();
        let x = v.pop().unwrap();
        r.push(x);
        assert forall|i: int| 0 <= i < r@.len() implies r@[i] == orig.skip(n - 1).reverse()[i] by {
            if i < r@.len() - 1 {
                assert(r@[i] == orig.skip(n as int).reverse()[i]);
            }
        }
        assert(r@ =~= orig.skip(n - 1).reverse());
        assert(v@ =~= orig.take(n - 1));
    }
    assert(orig.skip(0) =~= orig);
    r
}

/// The elements of a `ComponentOutput`, handed out in order by `next`.
pub enum ComponentOutputIterator<T> {
    OptionIterator(Option<Element<T>>),
    /// The elements still to come, last one first.
    MultipleIterator(Vec<Element<T>>),
}

impl<T> ComponentOutputIterator<T> {
    /// The elements still to come, in the order `next` hands them out.
    pub open spec fn remaining(self) -> Seq<Element<T>> {
        match self {
            ComponentOutputIterator::OptionIterator(Some(e)) => seq![e],
            ComponentOutputIterator::OptionIterator(None) => Seq::empty(),
            ComponentOutputIterator::MultipleIterator(v) => v@.reverse(),
        }
    }

    pub fn next(&mut self) -> (r: Option<Element<T>>)
        ensures
            old(self).remaining().len() == 0 ==> r is None && final(self).remaining().len() == 0,
            old(self).remaining().len() > 0 ==> r == Some(old(self).remaining()[0])
                && final(self).remaining() == old(self).remaining().drop_first(),
    {
        match self {
            ComponentOutputIterator::OptionIterator(o) => o.take(),
            ComponentOutputIterator::MultipleIterator(v) => v.pop(),
        }
    }
}

} // verus!
