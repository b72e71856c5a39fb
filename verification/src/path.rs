//! Hierarchical keys: a `Path` is an ordered sequence of number-or-name
//! segments with a total lexicographic order, so that a store keyed by
//! paths supports range scans and subtree queries.

use vstd::prelude::*;

verus! {

/// One element of a [`Path`]: a number or a name.
#[derive(Debug)]
pub enum PathItem {
    Number(u64),
    Name(String),
}

/// The mathematical value of a [`PathItem`]: a name is its characters.
pub enum ItemView {
    Number(u64),
    Name(Seq<char>),
}

impl View for PathItem {
    type V = ItemView;

    open spec fn view(&self) -> ItemView {
        match self {
            PathItem::Number(n) => ItemView::Number(*n),
            PathItem::Name(s) => ItemView::Name(s@),
        }
    }
}

impl PathItem {
    /// A numeric segment.
    pub fn number(n: u64) -> (r: PathItem)
        ensures
            r@ == ItemView::Number(n),
    {
        PathItem::Number(n)
    }

    /// A name segment.
    pub fn name(s: &str) -> (r: PathItem)
        ensures
            r@ == ItemView::Name(s@),
    {
        PathItem::Name(s.to_owned())
    }
}

/// Strict lexicographic order on character sequences, by code point.
pub open spec fn chars_lt(a: Seq<char>, b: Seq<char>) -> bool
    decreases a.len(),
{
    if a.len() == 0 {
        b.len() > 0
    } else if b.len() == 0 {
        false
    } else if a[0] != b[0] {
        (a[0] as u32) < (b[0] as u32)
    } else {
        chars_lt(a.skip(1), b.skip(1))
    }
}

/// Strict order on path items: every number sorts before every name,
/// numbers sort by value, names lexicographically.
pub open spec fn item_lt(a: ItemView, b: ItemView) -> bool {
    match (a, b) {
        (ItemView::Number(x), ItemView::Number(y)) => x < y,
        (ItemView::Number(_), ItemView::Name(_)) => true,
        (ItemView::Name(_), ItemView::Number(_)) => false,
        (ItemView::Name(x), ItemView::Name(y)) => chars_lt(x, y),
    }
}

/// Strict lexicographic order on paths, over the item order.
pub open spec fn path_lt(a: Seq<ItemView>, b: Seq<ItemView>) -> bool
    decreases a.len(),
{
    if a.len() == 0 {
        b.len() > 0
    } else if b.len() == 0 {
        false
    } else if a[0] != b[0] {
        item_lt(a[0], b[0])
    } else {
        path_lt(a.skip(1), b.skip(1))
    }
}

/// Total order on paths.
pub open spec fn path_le(a: Seq<ItemView>, b: Seq<ItemView>) -> bool {
    path_lt(a, b) || a == b
}

/// `p` is a prefix of `q`: `q`'s first `p.len()` items equal `p`.
pub open spec fn is_prefix_of(p: Seq<ItemView>, q: Seq<ItemView>) -> bool {
    p.len() <= q.len() && q.take(p.len() as int) == p
}

/// Where two character sequences agree up to position `i` and differ at
/// `i`, the code points at `i` settle their order.
proof fn lemma_chars_lt_at(a: Seq<char>, b: Seq<char>, i: int)
    requires
        0 <= i < a.len(),
        i < b.len(),
        forall|j: int| 0 <= j < i ==> a[j] == b[j],
        a[i] != b[i],
    ensures
        chars_lt(a, b) == ((a[i] as u32) < (b[i] as u32)),
    decreases i,
{
    if i > 0 {
        assert(a.skip(1)[i - 1] == a[i]);
        assert(b.skip(1)[i - 1] == b[i]);
        assert(forall|j: int| 0 <= j < i - 1 ==> a.skip(1)[j] == b.skip(1)[j]);
        lemma_chars_lt_at(a.skip(1), b.skip(1), i - 1);
    }
}

/// A strict prefix sorts strictly before the longer sequence.
proof fn lemma_chars_prefix_lt(a: Seq<char>, b: Seq<char>)
    requires
        a.len() < b.len(),
        forall|j: int| 0 <= j < a.len() ==> a[j] == b[j],
    ensures
        chars_lt(a, b),
        !chars_lt(b, a),
    decreases a.len(),
{
    if a.len() > 0 {
        assert(forall|j: int| 0 <= j < a.skip(1).len() ==> a.skip(1)[j] == b.skip(1)[j]);
        lemma_chars_prefix_lt(a.skip(1), b.skip(1));
    }
}

/// Where two paths agree up to position `i` and differ at `i`, the items at
/// `i` settle their order.
proof fn lemma_path_lt_at(a: Seq<ItemView>, b: Seq<ItemView>, i: int)
    requires
        0 <= i < a.len(),
        i < b.len(),
        forall|j: int| 0 <= j < i ==> a[j] == b[j],
        a[i] != b[i],
    ensures
        path_lt(a, b) == item_lt(a[i], b[i]),
    decreases i,
{
    if i > 0 {
        assert(a.skip(1)[i - 1] == a[i]);
        assert(b.skip(1)[i - 1] == b[i]);
        assert(forall|j: int| 0 <= j < i - 1 ==> a.skip(1)[j] == b.skip(1)[j]);
        lemma_path_lt_at(a.skip(1), b.skip(1), i - 1);
    }
}

/// A strict prefix of a path sorts strictly before it.
proof fn lemma_path_prefix_lt(a: Seq<ItemView>, b: Seq<ItemView>)
    requires
        a.len() < b.len(),
        forall|j: int| 0 <= j < a.len() ==> a[j] == b[j],
    ensures
        path_lt(a, b),
        !path_lt(b, a),
    decreases a.len(),
{
    if a.len() > 0 {
        assert(forall|j: int| 0 <= j < a.skip(1).len() ==> a.skip(1)[j] == b.skip(1)[j]);
        lemma_path_prefix_lt(a.skip(1), b.skip(1));
    }
}

/// No character sequence sorts before itself.
proof fn lemma_chars_lt_irrefl(a: Seq<char>)
    ensures
        !chars_lt(a, a),
    decreases a.len(),
{
    if a.len() > 0 {
        lemma_chars_lt_irrefl(a.skip(1));
    }
}

/// No path sorts before itself.
proof fn lemma_path_lt_irrefl(a: Seq<ItemView>)
    ensures
        !path_lt(a, a),
    decreases a.len(),
{
    if a.len() > 0 {
        lemma_path_lt_irrefl(a.skip(1));
    }
}

/// The character order runs one way only.
proof fn lemma_chars_lt_asym(a: Seq<char>, b: Seq<char>)
    requires
        chars_lt(a, b),
    ensures
        !chars_lt(b, a),
    decreases a.len(),
{
    if a.len() > 0 && b.len() > 0 && a[0] == b[0] {
        lemma_chars_lt_asym(a.skip(1), b.skip(1));
    }
}

/// The item order runs one way only.
proof fn lemma_item_lt_asym(a: ItemView, b: ItemView)
    requires
        item_lt(a, b),
    ensures
        !item_lt(b, a),
{
    match (a, b) {
        (ItemView::Name(x), ItemView::Name(y)) => lemma_chars_lt_asym(x, y),
        _ => (),
    }
}

/// The character order is transitive.
proof fn lemma_chars_lt_trans(a: Seq<char>, b: Seq<char>, c: Seq<char>)
    requires
        chars_lt(a, b),
        chars_lt(b, c),
    ensures
        chars_lt(a, c),
    decreases a.len(),
{
    if a.len() > 0 && b.len() > 0 && c.len() > 0 {
        if a[0] == b[0] && b[0] == c[0] {
            lemma_chars_lt_trans(a.skip(1), b.skip(1), c.skip(1));
        }
    }
}

/// The item order is transitive.
proof fn lemma_item_lt_trans(a: ItemView, b: ItemView, c: ItemView)
    requires
        item_lt(a, b),
        item_lt(b, c),
    ensures
        item_lt(a, c),
{
    match (a, b, c) {
        (ItemView::Name(x), ItemView::Name(y), ItemView::Name(z)) => lemma_chars_lt_trans(
            x,
            y,
            z,
        ),
        _ => (),
    }
}

/// The path order is transitive.
pub proof fn lemma_path_lt_trans(a: Seq<ItemView>, b: Seq<ItemView>, c: Seq<ItemView>)
    requires
        path_lt(a, b),
        path_lt(b, c),
    ensures
        path_lt(a, c),
    decreases a.len(),
{
    if a.len() > 0 && b.len() > 0 && c.len() > 0 {
        if a[0] == b[0] && b[0] == c[0] {
            lemma_path_lt_trans(a.skip(1), b.skip(1), c.skip(1));
        } else if a[0] != b[0] && b[0] != c[0] {
            lemma_item_lt_trans(a[0], b[0], c[0]);
            if a[0] == c[0] {
                lemma_item_lt_asym(a[0], b[0]);
            }
        }
    }
}

/// Two paths in strict order are different.
pub proof fn lemma_path_lt_neq(a: Seq<ItemView>, b: Seq<ItemView>)
    requires
        path_lt(a, b),
    ensures
        a != b,
{
    lemma_path_lt_irrefl(a);
}

/// A prefix never sorts after the path it prefixes: if `p` is a prefix of
/// `q` then `p <= q` in the path order.
pub proof fn lemma_prefix_le(p: Seq<ItemView>, q: Seq<ItemView>)
    requires
        is_prefix_of(p, q),
    ensures
        path_le(p, q),
{
    if p.len() < q.len() {
        assert(forall|j: int| 0 <= j < p.len() ==> p[j] == q[j]) by {
            assert(forall|j: int| 0 <= j < p.len() ==> p[j] == q.take(p.len() as int)[j]);
        }
        lemma_path_prefix_lt(p, q);
    } else {
        assert(q.take(p.len() as int) =~= q);
    }
}

/// The result of a three-way comparison.
#[derive(Clone, Copy, Debug, PartialEq, Eq, Structural)]
pub enum Order {
    Less,
    Equal,
    Greater,
}

/// Three-way comparison of two strings in the lexicographic character
/// order.
fn str_cmp(a: &String, b: &String) -> (r: Order)
    ensures
        (r == Order::Less) == chars_lt(a@, b@),
        (r == Order::Equal) == (a@ == b@),
        (r == Order::Greater) == chars_lt(b@, a@),
{
    let alen = a.as_str().unicode_len();
    let blen = b.as_str().unicode_len();
    let n = if alen < blen {
        alen
    } else {
        blen
    };
    for i in 0..n
        invariant
            n <= alen == a@.len(),
            n <= blen == b@.len(),
            forall|j: int| 0 <= j < i ==> a@[j] == b@[j],
    {
        let ca = a.as_str().get_char(i);
        let cb = b.as_str().get_char(i);
        if ca != cb {
            proof {
                lemma_chars_lt_at(a@, b@, i as int);
                lemma_chars_lt_at(b@, a@, i as int);
            }
            if (ca as u32) < (cb as u32) {
                return Order::Less;
            } else {
                return Order::Greater;
            }
        }
    }
    if alen < blen {
        proof {
            lemma_chars_prefix_lt(a@, b@);
        }
        Order::Less
    } else if blen < alen {
        proof {
            lemma_chars_prefix_lt(b@, a@);
        }
        Order::Greater
    } else {
        proof {
            assert(a@ =~= b@);
            lemma_chars_lt_irrefl(a@);
        }
        Order::Equal
    }
}

/// Three-way comparison of two path items in the item order.
fn item_cmp(a: &PathItem, b: &PathItem) -> (r: Order)
    ensures
        (r == Order::Less) == item_lt(a@, b@),
        (r == Order::Equal) == (a@ == b@),
        (r == Order::Greater) == item_lt(b@, a@),
{
    match (a, b) {
        (PathItem::Number(x), PathItem::Number(y)) => {
            if *x < *y {
                Order::Less
            } else if *x == *y {
                Order::Equal
            } else {
                Order::Greater
            }
        },
        (PathItem::Number(_), PathItem::Name(_)) => Order::Less,
        (PathItem::Name(_), PathItem::Number(_)) => Order::Greater,
        (PathItem::Name(x), PathItem::Name(y)) => str_cmp(x, y),
    }
}

/// The key to a keyed store of machines: a pathname, which groups values
/// hierarchically.  A path is built from the root by appending items.
#[derive(Debug)]
pub struct Path(Vec<PathItem>);

impl View for Path {
    type V = Seq<ItemView>;

    closed spec fn view(&self) -> Seq<ItemView> {
        self.0@.map_values(|t: PathItem| t@)
    }
}

impl Path {
    /// Another name for the empty path, also the default path.
    pub fn root() -> (r: Self)
        ensures
            r@ == Seq::<ItemView>::empty(),
    {
        let r = Path(Vec::new());
        proof {
            assert(r@ =~= Seq::<ItemView>::empty());
        }
        r
    }

    /// Append an item, producing the extended path.
    pub fn append(self, item: PathItem) -> (r: Self)
        ensures
            r@ == self@.push(item@),
    {
        let mut p = self;
        p.push(item);
        p
    }

    /// Push an item onto the end of this path.
    pub fn push(&mut self, item: PathItem)
        ensures
            final(self)@ == old(self)@.push(item@),
    {
        let ghost pre = self.0@;
        let ghost iv = item@;
        self.0.push(item);
        proof {
            assert(self@ =~= pre.map_values(|t: PathItem| t@).push(iv));
        }
    }

    /// The number of items in this path.
    pub fn len(&self) -> (n: usize)
        ensures
            n == self@.len(),
    {
        self.0.len()
    }

    /// This is the empty, or root, path.
    pub fn is_empty(&self) -> (r: bool)
        ensures
            r == (self@.len() == 0),
    {
        self.0.is_empty()
    }

    /// The item at the given position.
    pub fn item(&self, i: usize) -> (r: &PathItem)
        requires
            i < self@.len(),
        ensures
            r@ == self@[i as int],
    {
        &self.0[i]
    }

    /// Three-way comparison of two paths in the path order.
    pub fn compare(&self, other: &Path) -> (r: Order)
        ensures
            (r == Order::Less) == path_lt(self@, other@),
            (r == Order::Equal) == (self@ == other@),
            (r == Order::Greater) == path_lt(other@, self@),
    {
        let alen = self.len();
        let blen = other.len();
        let n = if alen < blen {
            alen
        } else {
            blen
        };
        for i in 0..n
            invariant
                n <= alen == self@.len(),
                n <= blen == other@.len(),
                forall|j: int| 0 <= j < i ==> self@[j] == other@[j],
        {
            let o = item_cmp(self.item(i), other.item(i));
            if !matches!(o, Order::Equal) {
                proof {
                    lemma_path_lt_at(self@, other@, i as int);
                    lemma_path_lt_at(other@, self@, i as int);
                }
                return o;
            }
        }
        if alen < blen {
            proof {
                lemma_path_prefix_lt(self@, other@);
            }
            Order::Less
        } else if blen < alen {
            proof {
                lemma_path_prefix_lt(other@, self@);
            }
            Order::Greater
        } else {
            proof {
                assert(self@ =~= other@);
                lemma_path_lt_irrefl(self@);
            }
            Order::Equal
        }
    }

    /// Whether this path is a prefix of `other` — equal to it, or a proper
    /// ancestor of it.
    pub fn is_prefix_of(&self, other: &Path) -> (r: bool)
        ensures
            r == is_prefix_of(self@, other@),
    {
        let alen = self.len();
        let blen = other.len();
        if alen > blen {
            proof {
                assert(!is_prefix_of(self@, other@));
            }
            return false;
        }
        for i in 0..alen
            invariant
                alen == self@.len(),
                blen == other@.len(),
                alen <= blen,
                forall|j: int| 0 <= j < i ==> self@[j] == other@[j],
        {
            let o = item_cmp(self.item(i), other.item(i));
            if !matches!(o, Order::Equal) {
                proof {
                    assert(other@.take(alen as int)[i as int] == other@[i as int]);
                }
                return false;
            }
        }
        proof {
            assert(other@.take(alen as int) =~= self@);
        }
        true
    }
}

/// Another name for the empty path, also the default path.
pub fn root() -> (r: Path)
    ensures
        r@ == Seq::<ItemView>::empty(),
{
    Path::root()
}

impl Default for Path {
    /// The root path.
    fn default() -> (r: Self)
        ensures
            r@ == Seq::<ItemView>::empty(),
    {
        Path::root()
    }
}

impl Clone for PathItem {
    /// A clone carries the same view.
    fn clone(&self) -> (r: Self)
        ensures
            r@ == self@,
    {
        match self {
            PathItem::Number(n) => PathItem::Number(*n),
            PathItem::Name(s) => PathItem::Name(s.clone()),
        }
    }
}

impl Clone for Path {
    /// A clone carries the same view.
    fn clone(&self) -> (r: Self)
        ensures
            r@ == self@,
    {
        let mut v: Vec<PathItem> = Vec::new();
        let n = self.0.len();
        for i in 0..n
            invariant
                n == self.0@.len(),
                v@.len() == i,
                forall|j: int| 0 <= j < i ==> v@[j]@ == #[trigger] self.0@[j]@,
        {
            v.push(self.0[i].clone());
        }
        let r = Path(v);
        proof {
            assert(r@ =~= self@);
        }
        r
    }
}

impl crate::fsm::CloneView for Path {
    fn clone_view(&self) -> (r: Self) {
        self.clone()
    }
}

impl PartialEq for Path {
    /// Paths are equal exactly when their items are equal element-wise.
    fn eq(&self, other: &Path) -> (r: bool) {
        matches!(self.compare(other), Order::Equal)
    }
}

impl vstd::std_specs::cmp::PartialEqSpecImpl for Path {
    open spec fn obeys_eq_spec() -> bool {
        true
    }

    open spec fn eq_spec(&self, other: &Path) -> bool {
        self@ == other@
    }
}

} // verus!
