//! Composable sinks for wiring machines together.
//!
//! An [`Adapter`] accepts one item at a time and forwards it to its
//! destination, possibly converting or dropping it.  A [`Feed`] is the
//! dual: a source that pushes everything it holds into an adapter, once,
//! in order.  Waiting — a destination that applies backpressure — is
//! asynchronous plumbing and lives outside this crate; here an adapter's
//! contract states exactly what its destinations have seen.

use vstd::prelude::*;

use crate::fsm::CloneView;
use crate::machine::OutputBuffer;

verus! {

/// A sink that accepts one item at a time.  `spec_notify` says, over the
/// adapter's view, what accepting an item does; every implementation's
/// `notify` is held to it.
pub trait Adapter: View + Sized {
    /// The type of the items accepted.
    type Item: View;

    /// The adapter state after accepting an item with the given view.
    spec fn spec_notify(pre: Self::V, item: <Self::Item as View>::V) -> Self::V;

    /// Accept one item and forward it to the destination.
    fn notify(&mut self, item: Self::Item)
        ensures
            final(self)@ == Self::spec_notify(old(self)@, item@),
    ;
}

/// The adapter state after accepting a sequence of items, in order.
pub open spec fn notify_all<A: Adapter>(
    pre: A::V,
    items: Seq<<A::Item as View>::V>,
) -> A::V
    decreases items.len(),
{
    if items.len() == 0 {
        pre
    } else {
        notify_all::<A>(A::spec_notify(pre, items[0]), items.skip(1))
    }
}

/// Accepting one more item folds it onto the accepted sequence.
pub proof fn lemma_notify_all_push<A: Adapter>(
    pre: A::V,
    items: Seq<<A::Item as View>::V>,
    item: <A::Item as View>::V,
)
    ensures
        notify_all::<A>(pre, items.push(item)) == A::spec_notify(
            notify_all::<A>(pre, items),
            item,
        ),
    decreases items.len(),
{
    if items.len() == 0 {
        assert(items.push(item)[0] == item);
        assert(items.push(item).skip(1) =~= Seq::<<A::Item as View>::V>::empty());
        assert(notify_all::<A>(pre, items.push(item)) == notify_all::<A>(
            A::spec_notify(pre, item),
            Seq::<<A::Item as View>::V>::empty(),
        ));
    } else {
        let pre2 = A::spec_notify(pre, items[0]);
        assert(items.push(item)[0] == items[0]);
        assert(items.push(item).skip(1) =~= items.skip(1).push(item));
        lemma_notify_all_push::<A>(pre2, items.skip(1), item);
        assert(notify_all::<A>(pre, items.push(item)) == notify_all::<A>(
            pre2,
            items.skip(1).push(item),
        ));
        assert(notify_all::<A>(pre, items) == notify_all::<A>(pre2, items.skip(1)));
    }
}

/// Accepting two runs of items one after the other is accepting their
/// concatenation.
pub proof fn lemma_notify_all_append<A: Adapter>(
    pre: A::V,
    a: Seq<<A::Item as View>::V>,
    b: Seq<<A::Item as View>::V>,
)
    ensures
        notify_all::<A>(pre, a + b) == notify_all::<A>(notify_all::<A>(pre, a), b),
    decreases a.len(),
{
    if a.len() == 0 {
        assert(a + b =~= b);
    } else {
        assert((a + b)[0] == a[0]);
        assert((a + b).skip(1) =~= a.skip(1) + b);
        lemma_notify_all_append::<A>(A::spec_notify(pre, a[0]), a.skip(1), b);
    }
}

/// A source that can push everything it holds into an adapter, in order.
pub trait Feed: View {
    /// The type of the items provided.
    type Item: View;

    /// The views of the items this feed holds, in the order they are fed.
    spec fn contents(&self) -> Seq<<Self::Item as View>::V>;

    /// Push every held item into the given adapter.
    fn feed<A: Adapter<Item = Self::Item>>(&self, output: &mut A)
        ensures
            final(output)@ == notify_all::<A>(old(output)@, self.contents()),
    ;
}

/// A placeholder for an adapter or a feed: as an adapter it discards every
/// item, as a feed it provides none.  It is the identity for [`Merge`].
#[derive(Debug)]
pub struct Placeholder<A> {
    marker: core::marker::PhantomData<A>,
}

impl<A> Placeholder<A> {
    /// A fresh placeholder.
    pub fn new() -> (r: Self) {
        Placeholder { marker: core::marker::PhantomData }
    }
}

impl<A> Default for Placeholder<A> {
    /// A fresh placeholder.
    fn default() -> (r: Self) {
        Placeholder::new()
    }
}

impl<A> View for Placeholder<A> {
    type V = ();

    open spec fn view(&self) -> () {
        ()
    }
}

impl<A: View> Adapter for Placeholder<A> {
    type Item = A;

    open spec fn spec_notify(pre: (), item: A::V) -> () {
        ()
    }

    fn notify(&mut self, _item: A) {
    }
}

impl<X: View> Feed for Placeholder<X> {
    type Item = X;

    open spec fn contents(&self) -> Seq<X::V> {
        Seq::empty()
    }

    fn feed<A: Adapter<Item = X>>(&self, output: &mut A) {
    }
}

/// An adapter that fans out: every item goes first to one adapter, then,
/// as a clone with the same view, to the other.
#[derive(Debug)]
pub struct Merge<S, T> {
    pub first: S,
    pub next: T,
}

impl<S, T> Merge<S, T> {
    /// Combine two adapters; items are delivered to `first`, then `next`.
    pub fn new(first: S, next: T) -> (r: Self)
        ensures
            r.first == first,
            r.next == next,
    {
        Merge { first, next }
    }
}

impl<S: View, T: View> View for Merge<S, T> {
    type V = (S::V, T::V);

    open spec fn view(&self) -> (S::V, T::V) {
        (self.first@, self.next@)
    }
}

impl<A, S, T> Adapter for Merge<S, T> where
    A: CloneView,
    S: Adapter<Item = A>,
    T: Adapter<Item = A>,
 {
    type Item = A;

    open spec fn spec_notify(pre: (S::V, T::V), item: A::V) -> (S::V, T::V) {
        (S::spec_notify(pre.0, item), T::spec_notify(pre.1, item))
    }

    fn notify(&mut self, item: A) {
        self.first.notify(item.clone_view());
        self.next.notify(item);
    }
}

/// A total, possibly rejecting conversion between item types, given as an
/// implementation so that an adapter built from it can state exactly what
/// it forwards.
pub trait Convert {
    /// The type converted from.
    type From: View;

    /// The type converted to.
    type To: View;

    /// What the conversion yields, over views: `None` rejects the item.
    spec fn spec_convert(a: <Self::From as View>::V) -> Option<<Self::To as View>::V>;

    /// Convert one item, or reject it.
    fn convert(&self, a: Self::From) -> (r: Option<Self::To>)
        ensures
            (match r {
                Some(b) => Self::spec_convert(a@) == Some(b@),
                None => Self::spec_convert(a@) is None,
            }),
    ;
}

/// An adapter that passes each item through a [`Convert`] and forwards the
/// accepted values; rejected items are silently dropped.
#[derive(Debug)]
pub struct FilterMap<F, G> {
    pub func: F,
    pub inner: G,
}

impl<F, G> FilterMap<F, G> {
    /// Adapt `inner` to accept another item type through `func`.
    pub fn new(func: F, inner: G) -> (r: Self)
        ensures
            r.func == func,
            r.inner == inner,
    {
        FilterMap { func, inner }
    }
}

impl<F, G: View> View for FilterMap<F, G> {
    type V = G::V;

    open spec fn view(&self) -> G::V {
        self.inner@
    }
}

impl<F, G> Adapter for FilterMap<F, G> where F: Convert, G: Adapter<Item = F::To> {
    type Item = F::From;

    open spec fn spec_notify(pre: G::V, item: <F::From as View>::V) -> G::V {
        match F::spec_convert(item) {
            Some(b) => G::spec_notify(pre, b),
            None => pre,
        }
    }

    fn notify(&mut self, item: F::From) {
        match self.func.convert(item) {
            Some(b) => self.inner.notify(b),
            None => (),
        }
    }
}

/// The conversion that feeds a machine's input from a plain event stream:
/// every event is wrapped as an event input and none is dropped.
#[derive(Debug)]
pub struct EventInput<C, E> {
    marker: core::marker::PhantomData<(C, E)>,
}

impl<C, E> EventInput<C, E> {
    /// A fresh conversion.
    pub fn new() -> (r: Self) {
        EventInput { marker: core::marker::PhantomData }
    }
}

impl<C: View, E: View> Convert for EventInput<C, E> {
    type From = E;

    type To = crate::fsm::Input<C, E>;

    open spec fn spec_convert(e: E::V) -> Option<crate::fsm::Input<C::V, E::V>> {
        Some(crate::fsm::Input::Event(e))
    }

    fn convert(&self, e: E) -> (r: Option<crate::fsm::Input<C, E>>) {
        Some(crate::fsm::Input::Event(e))
    }
}

/// An output buffer is an adapter that simply keeps every item, in order.
impl<A: View> Adapter for OutputBuffer<A> {
    type Item = A;

    open spec fn spec_notify(pre: Seq<A::V>, item: A::V) -> Seq<A::V> {
        pre.push(item)
    }

    fn notify(&mut self, item: A) {
        self.push(item);
    }
}

/// An output buffer is also a feed: it provides the items it holds, in
/// order, leaving itself unchanged.
impl<X: CloneView> Feed for OutputBuffer<X> {
    type Item = X;

    open spec fn contents(&self) -> Seq<X::V> {
        self@
    }

    fn feed<A: Adapter<Item = X>>(&self, output: &mut A) {
        let n = self.0.len();
        for i in 0..n
            invariant
                n == self.0@.len(),
                output@ == notify_all::<A>(old(output)@, self@.take(i as int)),
        {
            let ghost k = i as int;
            output.notify(self.0[i].clone_view());
            proof {
                assert(self@.take(k + 1) =~= self@.take(k).push(self@[k]));
                lemma_notify_all_push::<A>(old(output)@, self@.take(k), self@[k]);
            }
        }
        proof {
            assert(self@.take(n as int) =~= self@);
        }
    }
}

} // verus!
