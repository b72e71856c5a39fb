//! A path-keyed multiplexer: one state machine whose state is an ordered
//! map from [`Path`] to the states of child machines, whose commands are
//! queries over that map, and whose events are path-tagged child events,
//! routed to the addressed child.

use vstd::prelude::*;

use crate::fsm::views_of;
use crate::fsm::Change;
use crate::fsm::CloneView;
use crate::fsm::Drain;
use crate::fsm::Fsm;
use crate::fsm::Init;
use crate::fsm::Terminating;
use crate::path::is_prefix_of;
use crate::path::lemma_path_lt_neq;
use crate::path::lemma_path_lt_trans;
use crate::path::path_lt;
use crate::path::ItemView;
use crate::path::Order;
use crate::path::Path;

verus! {

/// A path paired with a value: an event or an output of the child machine
/// that lives at that path.
#[derive(Debug)]
pub struct Keyed<A> {
    pub key: Path,
    pub item: A,
}

/// The view of a [`Keyed`] value.
pub struct KeyedView<T> {
    pub key: Seq<ItemView>,
    pub item: T,
}

impl<A: View> View for Keyed<A> {
    type V = KeyedView<A::V>;

    open spec fn view(&self) -> KeyedView<A::V> {
        KeyedView { key: self.key@, item: self.item@ }
    }
}

/// A keyed event never terminates the multiplexer itself: only its inner
/// item can signal termination, and that tears down one entry, not the
/// whole store.
impl<A: View> Terminating for Keyed<A> {
    open spec fn spec_terminating(v: KeyedView<A::V>) -> bool {
        false
    }

    fn terminating(&self) -> (r: bool) {
        false
    }
}

impl<A: CloneView> CloneView for Keyed<A> {
    fn clone_view(&self) -> (r: Self) {
        Keyed { key: self.key.clone(), item: self.item.clone_view() }
    }
}

/// A keyed effect handler drains to keyed outputs, each tagged with the
/// handler's current key.
impl<A: Drain> Drain for Keyed<A> {
    type Item = Keyed<A::Item>;

    open spec fn spec_pending(v: KeyedView<A::V>) -> Seq<KeyedView<<A::Item as View>::V>> {
        A::spec_pending(v.item).map_values(
            |x: <A::Item as View>::V| KeyedView { key: v.key, item: x },
        )
    }

    open spec fn spec_cleared(v: KeyedView<A::V>) -> KeyedView<A::V> {
        KeyedView { key: v.key, item: A::spec_cleared(v.item) }
    }

    fn drain_all(&mut self) -> (out: Vec<Keyed<A::Item>>) {
        let ghost pend = A::spec_pending(old(self)@.item);
        let mut items = self.item.drain_all();
        let mut out: Vec<Keyed<A::Item>> = Vec::new();
        while items.len() > 0
            invariant
                self.key@ == old(self)@.key,
                self.item@ == A::spec_cleared(old(self)@.item),
                out@.len() + items@.len() == pend.len(),
                views_of(items@) =~= pend.skip(out@.len() as int),
                forall|j: int|
                    0 <= j < out@.len() ==> out@[j]@ == (KeyedView {
                        key: old(self)@.key,
                        item: pend[j],
                    }),
            decreases items@.len(),
        {
            let ghost k = out@.len() as int;
            let ghost pre_items = items@;
            let it = items.remove(0);
            proof {
                assert(views_of(pre_items)[0] == it@);
                assert(pend.skip(k)[0] == pend[k]);
                assert(views_of(items@) =~= views_of(pre_items).skip(1));
                assert(views_of(pre_items).skip(1) =~= pend.skip(k + 1));
            }
            out.push(Keyed { key: self.key.clone(), item: it });
        }
        proof {
            assert(views_of(out@) =~= <Self as Drain>::spec_pending(old(self)@));
            assert(self@ == <Self as Drain>::spec_cleared(old(self)@));
            assert(<Self as Drain>::spec_pending(self@) =~= Seq::<
                KeyedView<<A::Item as View>::V>,
            >::empty());
        }
        out
    }
}

/// A keyed effect handler needs no priming from the hydrated state.
impl<S: View, A: View> Init<S> for Keyed<A> {
    open spec fn spec_init(v: KeyedView<A::V>, s: S::V) -> KeyedView<A::V> {
        v
    }

    fn init(&mut self, _state: &S) {
    }
}

/// The entries of the store, in strictly ascending key order.  Strictness
/// makes the keys unique.
pub open spec fn kv_sorted<M: Fsm>(s: Seq<(Path, M::S)>) -> bool {
    forall|i: int, j: int|
        0 <= i < j < s.len() ==> #[trigger] path_lt(s[i].0@, s[j].0@)
}

/// The map an entry sequence denotes: each key to its value's view.
pub open spec fn kv_map<M: Fsm>(s: Seq<(Path, M::S)>) -> Map<Seq<ItemView>, <M::S as View>::V>
    decreases s.len(),
{
    if s.len() == 0 {
        Map::empty()
    } else {
        kv_map::<M>(s.drop_last()).insert(s.last().0@, s.last().1@)
    }
}

/// In a sorted entry sequence all keys are distinct.
proof fn lemma_sorted_distinct<M: Fsm>(s: Seq<(Path, M::S)>)
    requires
        kv_sorted::<M>(s),
    ensures
        forall|i: int, j: int|
            #![trigger s[i].0, s[j].0]
            0 <= i < s.len() && 0 <= j < s.len() && i != j ==> s[i].0@ != s[j].0@,
{
    assert forall|i: int, j: int|
        #![trigger s[i].0, s[j].0]
        0 <= i < s.len() && 0 <= j < s.len() && i != j implies s[i].0@ != s[j].0@ by {
        if i < j {
            lemma_path_lt_neq(s[i].0@, s[j].0@);
        } else {
            lemma_path_lt_neq(s[j].0@, s[i].0@);
        }
    }
}

/// A key is in the denoted map exactly when some entry holds it.
proof fn lemma_kv_map_contains<M: Fsm>(s: Seq<(Path, M::S)>, k: Seq<ItemView>)
    ensures
        kv_map::<M>(s).contains_key(k) <==> (exists|i: int|
            0 <= i < s.len() && #[trigger] s[i].0@ == k),
    decreases s.len(),
{
    if s.len() > 0 {
        lemma_kv_map_contains::<M>(s.drop_last(), k);
        if s.last().0@ == k {
            assert(s[s.len() - 1].0@ == k);
        } else {
            assert forall|i: int| 0 <= i < s.len() && #[trigger] s[i].0@ == k implies
                kv_map::<M>(s).contains_key(k) by {
                assert(i < s.len() - 1);
                assert(s.drop_last()[i].0@ == k);
            }
        }
    }
}

/// An entry whose key no later entry repeats gives the denoted map's value
/// at that key.
proof fn lemma_kv_map_get<M: Fsm>(s: Seq<(Path, M::S)>, i: int)
    requires
        0 <= i < s.len(),
        forall|j: int| i < j < s.len() ==> #[trigger] s[j].0@ != s[i].0@,
    ensures
        kv_map::<M>(s).contains_key(s[i].0@),
        kv_map::<M>(s)[s[i].0@] == s[i].1@,
    decreases s.len(),
{
    if i == s.len() - 1 {
        assert(s.last() == s[i]);
    } else {
        assert(s.drop_last()[i] == s[i]);
        assert(forall|j: int|
            i < j < s.drop_last().len() ==> #[trigger] s.drop_last()[j].0@ != s.drop_last()[i].0@);
        lemma_kv_map_get::<M>(s.drop_last(), i);
        assert(s.last().0@ == s[s.len() - 1].0@);
        assert(s[s.len() - 1].0@ != s[i].0@);
    }
}

/// Replacing the value of one entry, keeping its key, denotes an insert of
/// the new value at that key.
proof fn lemma_kv_map_update<M: Fsm>(s: Seq<(Path, M::S)>, s2: Seq<(Path, M::S)>, i: int)
    requires
        0 <= i < s.len(),
        s2.len() == s.len(),
        forall|j: int| 0 <= j < s.len() && j != i ==> s2[j] == #[trigger] s[j],
        s2[i].0@ == s[i].0@,
        forall|j: int| i < j < s.len() ==> #[trigger] s[j].0@ != s[i].0@,
    ensures
        kv_map::<M>(s2) =~= kv_map::<M>(s).insert(s[i].0@, s2[i].1@),
    decreases s.len(),
{
    if i == s.len() - 1 {
        assert(s2.drop_last() =~= s.drop_last());
    } else {
        assert(s2.last() == s.last());
        assert(s2.drop_last().len() == s.drop_last().len());
        assert(forall|j: int|
            0 <= j < s.drop_last().len() && j != i ==> s2.drop_last()[j] == #[trigger] s.drop_last()[j]);
        assert(s2.drop_last()[i].0@ == s.drop_last()[i].0@);
        assert(forall|j: int|
            i < j < s.drop_last().len() ==> #[trigger] s.drop_last()[j].0@ != s.drop_last()[i].0@);
        lemma_kv_map_update::<M>(s.drop_last(), s2.drop_last(), i);
        assert(s.last().0@ != s[i].0@);
    }
}

/// Inserting an entry with a fresh key denotes an insert into the map.
proof fn lemma_kv_map_insert<M: Fsm>(s: Seq<(Path, M::S)>, i: int, pair: (Path, M::S))
    requires
        0 <= i <= s.len(),
        forall|j: int| 0 <= j < s.len() ==> #[trigger] s[j].0@ != pair.0@,
    ensures
        kv_map::<M>(s.insert(i, pair)) =~= kv_map::<M>(s).insert(pair.0@, pair.1@),
    decreases s.len(),
{
    let s2 = s.insert(i, pair);
    if i == s.len() {
        assert(s2.last() == pair);
        assert(s2.drop_last() =~= s);
    } else {
        assert(s2.len() == s.len() + 1);
        assert(s2.last() == s.last());
        assert(s2.drop_last() =~= s.drop_last().insert(i, pair));
        assert(forall|j: int|
            0 <= j < s.drop_last().len() ==> #[trigger] s.drop_last()[j].0@ != pair.0@);
        lemma_kv_map_insert::<M>(s.drop_last(), i, pair);
        assert(s[s.len() - 1].0@ != pair.0@);
    }
}

/// Removing the entry that holds a key, where no other entry repeats it,
/// denotes a remove from the map.
proof fn lemma_kv_map_remove<M: Fsm>(s: Seq<(Path, M::S)>, i: int)
    requires
        0 <= i < s.len(),
        forall|j: int, l: int|
            #![trigger s[j].0, s[l].0]
            0 <= j < s.len() && 0 <= l < s.len() && j != l ==> s[j].0@ != s[l].0@,
    ensures
        kv_map::<M>(s.remove(i)) =~= kv_map::<M>(s).remove(s[i].0@),
    decreases s.len(),
{
    let s2 = s.remove(i);
    if i == s.len() - 1 {
        assert(s2 =~= s.drop_last());
        lemma_kv_map_contains::<M>(s.drop_last(), s[i].0@);
        assert(forall|j: int|
            0 <= j < s.drop_last().len() ==> #[trigger] s.drop_last()[j].0@ != s[i].0@);
    } else {
        assert(s2.last() == s.last());
        assert(s2.drop_last() =~= s.drop_last().remove(i));
        assert(forall|j: int, l: int|
            #![trigger s.drop_last()[j].0, s.drop_last()[l].0]
            0 <= j < s.drop_last().len() && 0 <= l < s.drop_last().len() && j != l
                ==> s.drop_last()[j].0@ != s.drop_last()[l].0@);
        lemma_kv_map_remove::<M>(s.drop_last(), i);
        assert(s.drop_last()[i] == s[i]);
        assert(s.last().0@ != s[i].0@);
    }
}

/// Reports whether an extant (that is, existing) value was found at the
/// queried path.
#[derive(Clone, Copy, Debug, PartialEq, Eq, Structural)]
pub enum Extant {
    Found,
    NotFound,
}

/// The collection of state machines of type `M`, one per path.  Its view is
/// the map from key to child state view; the entries are kept in strictly
/// ascending key order.
pub struct KvStore<M: Fsm> {
    entries: Vec<(Path, M::S)>,
}

impl<M: Fsm> View for KvStore<M> {
    type V = Map<Seq<ItemView>, <M::S as View>::V>;

    closed spec fn view(&self) -> Map<Seq<ItemView>, <M::S as View>::V> {
        kv_map::<M>(self.entries@)
    }
}

impl<M: Fsm> KvStore<M> {
    #[verifier::type_invariant]
    spec fn wf(self) -> bool {
        kv_sorted::<M>(self.entries@)
    }
}

/// The position of the entry holding `key`, if any.
fn find_entry<M: Fsm>(v: &Vec<(Path, M::S)>, key: &Path) -> (r: Option<usize>)
    ensures
        (match r {
            Some(i) => i < v@.len() && v@[i as int].0@ == key@,
            None => forall|i: int| 0 <= i < v@.len() ==> #[trigger] v@[i].0@ != key@,
        }),
{
    let n = v.len();
    for i in 0..n
        invariant
            n == v@.len(),
            forall|j: int| 0 <= j < i ==> #[trigger] v@[j].0@ != key@,
    {
        let pair = &v[i];
        if matches!(pair.0.compare(key), Order::Equal) {
            return Some(i);
        }
    }
    None
}

/// The position at which a fresh key keeps the entries sorted: everything
/// before it is smaller, everything at or after it is larger.
fn insert_pos<M: Fsm>(v: &Vec<(Path, M::S)>, key: &Path) -> (r: usize)
    requires
        kv_sorted::<M>(v@),
        forall|i: int| 0 <= i < v@.len() ==> #[trigger] v@[i].0@ != key@,
    ensures
        r <= v@.len(),
        forall|i: int| 0 <= i < r ==> path_lt(#[trigger] v@[i].0@, key@),
        forall|i: int| r <= i < v@.len() ==> path_lt(key@, #[trigger] v@[i].0@),
{
    let n = v.len();
    for i in 0..n
        invariant
            n == v@.len(),
            kv_sorted::<M>(v@),
            forall|l: int| 0 <= l < v@.len() ==> #[trigger] v@[l].0@ != key@,
            forall|j: int| 0 <= j < i ==> path_lt(#[trigger] v@[j].0@, key@),
    {
        let pair = &v[i];
        if matches!(pair.0.compare(key), Order::Greater) {
            proof {
                assert forall|j: int| i <= j < v@.len() implies path_lt(
                    key@,
                    #[trigger] v@[j].0@,
                ) by {
                    if j != i {
                        lemma_path_lt_trans(key@, v@[i as int].0@, v@[j].0@);
                    }
                }
            }
            return i;
        }
    }
    n
}

impl<M: Fsm> KvStore<M> {
    /// An empty store.
    pub fn new() -> (r: Self)
        ensures
            r@ == Map::<Seq<ItemView>, <M::S as View>::V>::empty(),
    {
        KvStore { entries: Vec::new() }
    }

    /// The value at the given path, or nothing.
    pub fn get(&self, path: &Path) -> (r: Option<&M::S>)
        ensures
            (match r {
                Some(v) => self@.contains_key(path@) && v@ == self@[path@],
                None => !self@.contains_key(path@),
            }),
    {
        proof {
            use_type_invariant(self);
        }
        match find_entry::<M>(&self.entries, path) {
            Some(i) => {
                proof {
                    lemma_sorted_distinct::<M>(self.entries@);
                    lemma_kv_map_get::<M>(self.entries@, i as int);
                }
                Some(&self.entries[i].1)
            },
            None => {
                proof {
                    lemma_kv_map_contains::<M>(self.entries@, path@);
                }
                None
            },
        }
    }

    /// Whether a value exists at the given path.
    pub fn extant(&self, path: &Path) -> (r: Extant)
        ensures
            (r == Extant::Found) == self@.contains_key(path@),
    {
        match self.get(path) {
            Some(_) => Extant::Found,
            None => Extant::NotFound,
        }
    }

    /// All entries, as borrowed pairs in ascending key order.
    pub fn get_all(&self) -> (r: Vec<(&Path, &M::S)>)
        ensures
            forall|i: int|
                0 <= i < r@.len() ==> self@.contains_key(#[trigger] r@[i].0@)
                    && r@[i].1@ == self@[r@[i].0@],
            forall|k: Seq<ItemView>|
                self@.contains_key(k) ==> exists|i: int| 0 <= i < r@.len() && #[trigger] r@[i].0@ == k,
            forall|i: int, j: int|
                #![trigger r@[i].0, r@[j].0]
                0 <= i < j < r@.len() ==> path_lt(r@[i].0@, r@[j].0@),
    {
        proof {
            use_type_invariant(self);
        }
        let mut r: Vec<(&Path, &M::S)> = Vec::new();
        let n = self.entries.len();
        proof {
            lemma_sorted_distinct::<M>(self.entries@);
        }
        for i in 0..n
            invariant
                n == self.entries@.len(),
                kv_sorted::<M>(self.entries@),
                r@.len() == i,
                forall|j: int| 0 <= j < i ==> #[trigger] r@[j] == (
                    &self.entries@[j].0,
                    &self.entries@[j].1,
                ),
        {
            let pair = &self.entries[i];
            r.push((&pair.0, &pair.1));
        }
        proof {
            assert forall|i: int| 0 <= i < r@.len() implies self@.contains_key(
                #[trigger] r@[i].0@,
            ) && r@[i].1@ == self@[r@[i].0@] by {
                lemma_kv_map_get::<M>(self.entries@, i);
            }
            assert forall|k: Seq<ItemView>| self@.contains_key(k) implies exists|i: int|
                0 <= i < r@.len() && #[trigger] r@[i].0@ == k by {
                lemma_kv_map_contains::<M>(self.entries@, k);
                let i = choose|i: int| 0 <= i < self.entries@.len() && #[trigger] self.entries@[i].0@ == k;
                assert(r@[i].0@ == k);
            }
        }
        r
    }

    /// The entry at the given path and every entry strictly below it: all
    /// keys that the path is a prefix of, in ascending order.
    pub fn get_tree(&self, path: &Path) -> (r: Vec<(&Path, &M::S)>)
        ensures
            forall|i: int|
                0 <= i < r@.len() ==> is_prefix_of(path@, #[trigger] r@[i].0@)
                    && self@.contains_key(r@[i].0@) && r@[i].1@ == self@[r@[i].0@],
            forall|k: Seq<ItemView>|
                self@.contains_key(k) && is_prefix_of(path@, k) ==> exists|i: int|
                    0 <= i < r@.len() && #[trigger] r@[i].0@ == k,
            forall|i: int, j: int|
                #![trigger r@[i].0, r@[j].0]
                0 <= i < j < r@.len() ==> path_lt(r@[i].0@, r@[j].0@),
    {
        proof {
            use_type_invariant(self);
            lemma_sorted_distinct::<M>(self.entries@);
        }
        let mut r: Vec<(&Path, &M::S)> = Vec::new();
        let n = self.entries.len();
        for i in 0..n
            invariant
                n == self.entries@.len(),
                kv_sorted::<M>(self.entries@),
                forall|a: int, b: int|
                    #![trigger self.entries@[a].0, self.entries@[b].0]
                    0 <= a < n && 0 <= b < n && a != b
                        ==> self.entries@[a].0@ != self.entries@[b].0@,
                forall|j: int|
                    0 <= j < r@.len() ==> is_prefix_of(path@, #[trigger] r@[j].0@)
                        && self@.contains_key(r@[j].0@) && r@[j].1@ == self@[r@[j].0@],
                forall|a: int, l: int|
                    #![trigger r@[a].0, self.entries@[l].0]
                    0 <= a < r@.len() && i <= l < n ==> path_lt(r@[a].0@, self.entries@[l].0@),
                forall|a: int, b: int|
                    #![trigger r@[a].0, r@[b].0]
                    0 <= a < b < r@.len() ==> path_lt(r@[a].0@, r@[b].0@),
                forall|l: int|
                    0 <= l < i && is_prefix_of(path@, #[trigger] self.entries@[l].0@)
                        ==> exists|j: int| 0 <= j < r@.len() && r@[j].0@ == self.entries@[l].0@,
        {
            let pair = &self.entries[i];
            let ghost pre = r@;
            if path.is_prefix_of(&pair.0) {
                r.push((&pair.0, &pair.1));
                proof {
                    let newj = r@.len() - 1;
                    assert(r@[newj].0@ == self.entries@[i as int].0@);
                    lemma_kv_map_get::<M>(self.entries@, i as int);
                }
            }
            proof {
                assert forall|l: int|
                    0 <= l < i + 1 && is_prefix_of(path@, #[trigger] self.entries@[l].0@)
                        implies exists|j: int|
                        0 <= j < r@.len() && r@[j].0@ == self.entries@[l].0@ by {
                    if l < i {
                        let j = choose|j: int|
                            0 <= j < pre.len() && pre[j].0@ == self.entries@[l].0@;
                        assert(r@[j].0@ == self.entries@[l].0@);
                    } else {
                        assert(r@[r@.len() - 1].0@ == self.entries@[l].0@);
                    }
                }
            }
        }
        proof {
            assert forall|k: Seq<ItemView>|
                self@.contains_key(k) && is_prefix_of(path@, k) implies exists|i: int|
                0 <= i < r@.len() && #[trigger] r@[i].0@ == k by {
                lemma_kv_map_contains::<M>(self.entries@, k);
                let l = choose|l: int|
                    0 <= l < self.entries@.len() && #[trigger] self.entries@[l].0@ == k;
                let j = choose|j: int|
                    0 <= j < r@.len() && r@[j].0@ == self.entries@[l].0@;
                assert(r@[j].0@ == k);
            }
        }
        r
    }
}

/// One end of a range query over paths.
pub enum Bound {
    Included(Path),
    Excluded(Path),
    Unbounded,
}

/// The view of a range bound.
pub enum BoundView {
    Included(Seq<ItemView>),
    Excluded(Seq<ItemView>),
    Unbounded,
}

impl View for Bound {
    type V = BoundView;

    open spec fn view(&self) -> BoundView {
        match self {
            Bound::Included(p) => BoundView::Included(p@),
            Bound::Excluded(p) => BoundView::Excluded(p@),
            Bound::Unbounded => BoundView::Unbounded,
        }
    }
}

/// Whether a key lies between the two bounds of a range query.
pub open spec fn in_bounds(lo: BoundView, hi: BoundView, k: Seq<ItemView>) -> bool {
    (match lo {
        BoundView::Included(p) => !path_lt(k, p),
        BoundView::Excluded(p) => path_lt(p, k),
        BoundView::Unbounded => true,
    }) && (match hi {
        BoundView::Included(p) => !path_lt(p, k),
        BoundView::Excluded(p) => path_lt(k, p),
        BoundView::Unbounded => true,
    })
}

/// Whether the path at `k` lies between the two bounds.
fn check_bounds(lo: &Bound, hi: &Bound, k: &Path) -> (r: bool)
    ensures
        r == in_bounds(lo@, hi@, k@),
{
    let above = match lo {
        Bound::Included(p) => !matches!(k.compare(p), Order::Less),
        Bound::Excluded(p) => matches!(k.compare(p), Order::Greater),
        Bound::Unbounded => true,
    };
    let below = match hi {
        Bound::Included(p) => !matches!(k.compare(p), Order::Greater),
        Bound::Excluded(p) => matches!(k.compare(p), Order::Less),
        Bound::Unbounded => true,
    };
    above && below
}

/// A query to the store.  The read queries carry no reply: the holder of
/// the store answers them synchronously with [`KvStore::get`],
/// [`KvStore::get_tree`], [`KvStore::get_range`] or [`KvStore::get_all`]
/// and hands the result back over its own channel.  `Upsert` and `Insert`
/// carry the event to produce, and are the only commands that lead to a
/// state change, through the ordinary event path.
pub enum Query<E> {
    Get(Path),
    GetTree(Path),
    GetRange(Bound, Bound),
    GetAll,
    Upsert(Path, E),
    Insert(Keyed<E>),
}

/// The view of a query.
pub enum QueryView<T> {
    Get(Seq<ItemView>),
    GetTree(Seq<ItemView>),
    GetRange(BoundView, BoundView),
    GetAll,
    Upsert(Seq<ItemView>, T),
    Insert(KeyedView<T>),
}

impl<E: View> View for Query<E> {
    type V = QueryView<E::V>;

    open spec fn view(&self) -> QueryView<E::V> {
        match self {
            Query::Get(p) => QueryView::Get(p@),
            Query::GetTree(p) => QueryView::GetTree(p@),
            Query::GetRange(lo, hi) => QueryView::GetRange(lo@, hi@),
            Query::GetAll => QueryView::GetAll,
            Query::Upsert(p, e) => QueryView::Upsert(p@, e@),
            Query::Insert(k) => QueryView::Insert(k@),
        }
    }
}

impl<M: Fsm> KvStore<M> {
    /// The entries whose keys lie between the two bounds, in ascending key
    /// order.
    pub fn get_range(&self, lo: &Bound, hi: &Bound) -> (r: Vec<(&Path, &M::S)>)
        ensures
            forall|i: int|
                0 <= i < r@.len() ==> in_bounds(lo@, hi@, #[trigger] r@[i].0@)
                    && self@.contains_key(r@[i].0@) && r@[i].1@ == self@[r@[i].0@],
            forall|k: Seq<ItemView>|
                self@.contains_key(k) && in_bounds(lo@, hi@, k) ==> exists|i: int|
                    0 <= i < r@.len() && #[trigger] r@[i].0@ == k,
            forall|i: int, j: int|
                #![trigger r@[i].0, r@[j].0]
                0 <= i < j < r@.len() ==> path_lt(r@[i].0@, r@[j].0@),
    {
        proof {
            use_type_invariant(self);
            lemma_sorted_distinct::<M>(self.entries@);
        }
        let mut r: Vec<(&Path, &M::S)> = Vec::new();
        let n = self.entries.len();
        for i in 0..n
            invariant
                n == self.entries@.len(),
                kv_sorted::<M>(self.entries@),
                forall|a: int, b: int|
                    #![trigger self.entries@[a].0, self.entries@[b].0]
                    0 <= a < n && 0 <= b < n && a != b
                        ==> self.entries@[a].0@ != self.entries@[b].0@,
                forall|j: int|
                    0 <= j < r@.len() ==> in_bounds(lo@, hi@, #[trigger] r@[j].0@)
                        && self@.contains_key(r@[j].0@) && r@[j].1@ == self@[r@[j].0@],
                forall|a: int, l: int|
                    #![trigger r@[a].0, self.entries@[l].0]
                    0 <= a < r@.len() && i <= l < n ==> path_lt(r@[a].0@, self.entries@[l].0@),
                forall|a: int, b: int|
                    #![trigger r@[a].0, r@[b].0]
                    0 <= a < b < r@.len() ==> path_lt(r@[a].0@, r@[b].0@),
                forall|l: int|
                    0 <= l < i && in_bounds(lo@, hi@, #[trigger] self.entries@[l].0@)
                        ==> exists|j: int| 0 <= j < r@.len() && r@[j].0@ == self.entries@[l].0@,
        {
            let pair = &self.entries[i];
            let ghost pre = r@;
            if check_bounds(lo, hi, &pair.0) {
                r.push((&pair.0, &pair.1));
                proof {
                    assert(r@[r@.len() - 1].0@ == self.entries@[i as int].0@);
                    lemma_kv_map_get::<M>(self.entries@, i as int);
                }
            }
            proof {
                assert forall|l: int|
                    0 <= l < i + 1 && in_bounds(lo@, hi@, #[trigger] self.entries@[l].0@)
                        implies exists|j: int|
                        0 <= j < r@.len() && r@[j].0@ == self.entries@[l].0@ by {
                    if l < i {
                        let j = choose|j: int|
                            0 <= j < pre.len() && pre[j].0@ == self.entries@[l].0@;
                        assert(r@[j].0@ == self.entries@[l].0@);
                    } else {
                        assert(r@[r@.len() - 1].0@ == self.entries@[l].0@);
                    }
                }
            }
        }
        proof {
            assert forall|k: Seq<ItemView>|
                self@.contains_key(k) && in_bounds(lo@, hi@, k) implies exists|i: int|
                0 <= i < r@.len() && #[trigger] r@[i].0@ == k by {
                lemma_kv_map_contains::<M>(self.entries@, k);
                let l = choose|l: int|
                    0 <= l < self.entries@.len() && #[trigger] self.entries@[l].0@ == k;
                let j = choose|j: int|
                    0 <= j < r@.len() && r@[j].0@ == self.entries@[l].0@;
                assert(r@[j].0@ == k);
            }
        }
        r
    }
}

impl<M> Fsm for KvStore<M> where M: Fsm, M::E: Terminating {
    type S = KvStore<M>;

    type C = Query<M::E>;

    type E = Keyed<M::E>;

    type SE = Keyed<M::SE>;

    open spec fn initial() -> Map<Seq<ItemView>, <M::S as View>::V> {
        Map::empty()
    }

    open spec fn decide(
        s: Map<Seq<ItemView>, <M::S as View>::V>,
        c: QueryView<<M::E as View>::V>,
        se: KeyedView<<M::SE as View>::V>,
    ) -> Option<KeyedView<<M::E as View>::V>> {
        match c {
            QueryView::Upsert(p, e) => Some(KeyedView { key: p, item: e }),
            QueryView::Insert(k) => Some(k),
            _ => None,
        }
    }

    open spec fn command_effects(
        s: Map<Seq<ItemView>, <M::S as View>::V>,
        c: QueryView<<M::E as View>::V>,
        se: KeyedView<<M::SE as View>::V>,
    ) -> KeyedView<<M::SE as View>::V> {
        se
    }

    open spec fn apply(
        s: Map<Seq<ItemView>, <M::S as View>::V>,
        e: KeyedView<<M::E as View>::V>,
    ) -> Option<(Change, Map<Seq<ItemView>, <M::S as View>::V>)> {
        if <M::E as Terminating>::spec_terminating(e.item) {
            if s.contains_key(e.key) {
                Some((Change::Transitioned, s.remove(e.key)))
            } else {
                None
            }
        } else {
            let child = if s.contains_key(e.key) {
                s[e.key]
            } else {
                M::initial()
            };
            match M::apply(child, e.item) {
                Some(p) => Some((p.0, s.insert(e.key, p.1))),
                None => None,
            }
        }
    }

    open spec fn change_effects(
        s: Map<Seq<ItemView>, <M::S as View>::V>,
        e: KeyedView<<M::E as View>::V>,
        se: KeyedView<<M::SE as View>::V>,
        change: Change,
    ) -> KeyedView<<M::SE as View>::V> {
        if s.contains_key(e.key) {
            KeyedView { key: e.key, item: M::change_effects(s[e.key], e.item, se.item, change) }
        } else {
            se
        }
    }

    fn default_state() -> (s: KvStore<M>) {
        KvStore::new()
    }

    fn for_command(s: &KvStore<M>, c: Query<M::E>, se: &mut Keyed<M::SE>) -> (r: Option<
        Keyed<M::E>,
    >) {
        match c {
            Query::Upsert(p, e) => Some(Keyed { key: p, item: e }),
            Query::Insert(k) => Some(k),
            _ => None,
        }
    }

    fn on_event(s: &mut KvStore<M>, e: &Keyed<M::E>) -> (r: Option<Change>) {
        proof {
            use_type_invariant(&*s);
            lemma_sorted_distinct::<M>(s.entries@);
        }
        let ghost pre = s.entries@;
        let mut v: Vec<(Path, M::S)> = Vec::new();
        core::mem::swap(&mut v, &mut s.entries);
        let term = e.item.terminating();
        let found = find_entry::<M>(&v, &e.key);
        let r: Option<Change>;
        match found {
            Some(i) => {
                if term {
                    v.remove(i);
                    proof {
                        lemma_kv_map_contains::<M>(pre, e.key@);
                        pre.remove_ensures(i as int);
                        assert(v@ =~= pre.remove(i as int));
                        lemma_kv_map_remove::<M>(pre, i as int);
                        assert forall|a: int, b: int|
                            0 <= a < b < v@.len() implies #[trigger] path_lt(
                            v@[a].0@,
                            v@[b].0@,
                        ) by {
                            let a0: int = if a < i { a } else { a + 1 };
                            let b0: int = if b < i { b } else { b + 1 };
                            assert(v@[a] == pre[a0]);
                            assert(v@[b] == pre[b0]);
                            assert(path_lt(pre[a0].0@, pre[b0].0@));
                        }
                    }
                    r = Some(Change::Transitioned);
                } else {
                    let mut pair = v.remove(i);
                    let changed = M::on_event(&mut pair.1, &e.item);
                    v.insert(i, pair);
                    proof {
                        pre.remove_ensures(i as int);
                        pre.remove(i as int).insert_ensures(i as int, v@[i as int]);
                        assert(v@ =~= pre.update(i as int, v@[i as int]));
                        assert(v@[i as int].0@ == pre[i as int].0@);
                        assert forall|a: int, b: int|
                            0 <= a < b < v@.len() implies #[trigger] path_lt(
                            v@[a].0@,
                            v@[b].0@,
                        ) by {
                            assert(v@[a].0@ == pre[a].0@);
                            assert(v@[b].0@ == pre[b].0@);
                        }
                        lemma_kv_map_update::<M>(pre, v@, i as int);
                        lemma_kv_map_get::<M>(pre, i as int);
                        if changed is None {
                            assert(v@[i as int].1@ == pre[i as int].1@);
                            assert(kv_map::<M>(v@) =~= kv_map::<M>(pre));
                        }
                    }
                    r = changed;
                }
            },
            None => {
                proof {
                    lemma_kv_map_contains::<M>(pre, e.key@);
                    assert(!kv_map::<M>(pre).contains_key(e.key@));
                }
                if term {
                    r = None;
                } else {
                    let mut child = M::default_state();
                    let changed = M::on_event(&mut child, &e.item);
                    match changed {
                        Some(c2) => {
                            let pos = insert_pos::<M>(&v, &e.key);
                            let key = e.key.clone();
                            v.insert(pos, (key, child));
                            proof {
                                pre.insert_ensures(pos as int, v@[pos as int]);
                                assert(v@ =~= pre.insert(pos as int, v@[pos as int]));
                                assert(v@[pos as int].0@ == e.key@);
                                lemma_kv_map_insert::<M>(pre, pos as int, v@[pos as int]);
                                assert forall|a: int, b: int|
                                    0 <= a < b < v@.len() implies #[trigger] path_lt(
                                    v@[a].0@,
                                    v@[b].0@,
                                ) by {
                                    if a < pos && b == pos {
                                        assert(v@[a] == pre[a]);
                                        assert(path_lt(pre[a].0@, e.key@));
                                    } else if a == pos && b > pos {
                                        assert(v@[b] == pre[b - 1]);
                                        assert(path_lt(e.key@, pre[b - 1].0@));
                                    } else {
                                        let a0: int = if a < pos { a } else { a - 1 };
                                        let b0: int = if b < pos { b } else { b - 1 };
                                        assert(v@[a] == pre[a0]);
                                        assert(v@[b] == pre[b0]);
                                        assert(path_lt(pre[a0].0@, pre[b0].0@));
                                    }
                                }
                            }
                            r = Some(c2);
                        },
                        None => {
                            // the event was a no-op for a fresh child:
                            // keep no entry, so that a step that reports
                            // nothing also changes nothing and a replay of
                            // the log reproduces the store exactly
                            r = None;
                        },
                    }
                }
            },
        }
        s.entries = v;
        r
    }

    fn on_change(s: &KvStore<M>, e: &Keyed<M::E>, se: &mut Keyed<M::SE>, change: Change) {
        match s.get(&e.key) {
            Some(child) => {
                se.key = e.key.clone();
                M::on_change(child, &e.item, &mut se.item, change);
            },
            None => (),
        }
    }
}

/// The lifecycle of a multiplexer entry.  Routing a non-terminating event
/// to a previously-unseen path puts the event to a default-constructed
/// child, and keeps an entry only if the event applied — an entry kept
/// for a no-op event would be a state change that is never logged, which
/// the no-op and replay laws forbid.  Routing a terminating event to an
/// existing path removes the entry, without consulting the child; and
/// routing a terminating event to a never-seen path does nothing at all.
pub proof fn lemma_multiplexer_lifecycle<M: Fsm>(
    s: Map<Seq<ItemView>, <M::S as View>::V>,
    e: KeyedView<<M::E as View>::V>,
) where M::E: Terminating
    ensures
        !<M::E as Terminating>::spec_terminating(e.item) && !s.contains_key(e.key) ==> (
        match M::apply(M::initial(), e.item) {
            Some(p) => <KvStore<M> as Fsm>::apply(s, e) == Some((p.0, s.insert(e.key, p.1))),
            None => <KvStore<M> as Fsm>::apply(s, e) is None,
        }),
        <M::E as Terminating>::spec_terminating(e.item) && s.contains_key(e.key)
            ==> <KvStore<M> as Fsm>::apply(s, e) == Some((Change::Transitioned, s.remove(e.key))),
        <M::E as Terminating>::spec_terminating(e.item) && !s.contains_key(e.key)
            ==> <KvStore<M> as Fsm>::apply(s, e) is None,
{
}

} // verus!
