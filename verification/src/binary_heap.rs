use vstd::multiset::Multiset;
use vstd::prelude::*;

verus! {

broadcast use {
    vstd::seq_lib::group_to_multiset_ensures,
    vstd::multiset::group_multiset_axioms,
    vstd::multiset::group_multiset_properties,
};

/// The position a node reports while it belongs to no heap.
pub const DETACHED: usize = usize::MAX;

/// An entry of a [`BinaryHeap`]: a key that orders it, a value it carries,
/// and the position it holds in the heap (`DETACHED` while it holds none).
pub struct Node<V> {
    index: usize,
    key: u64,
    value: V,
}

impl<V> Node<V> {
    pub closed spec fn index_of(self) -> usize {
        self.index
    }

    pub closed spec fn key_of(self) -> u64 {
        self.key
    }

    pub closed spec fn value_of(self) -> V {
        self.value
    }

    /// A node that belongs to no heap yet.
    pub fn new(key: u64, value: V) -> (n: Node<V>)
        ensures
            n.index_of() == DETACHED,
            n.key_of() == key,
            n.value_of() == value,
    {
        Node { index: DETACHED, key, value }
    }
}

// ---------------------------------------------------------------------------
// The model: a heap is a sequence of nodes, each edge from a parent to a
// child ordered by key, and every node knowing its own position.
// ---------------------------------------------------------------------------

/// Position of the parent of position `k` (for `k > 0`).
pub open spec fn parent(k: int) -> int {
    (k - 1) / 2
}

/// The edge that ends at position `k` is ordered.
pub open spec fn edge_ok<V>(s: Seq<Node<V>>, k: int) -> bool {
    s[parent(k)].key_of() <= s[k].key_of()
}

/// Every edge is ordered: no child has a smaller key than its parent.
pub open spec fn heap_ordered<V>(s: Seq<Node<V>>) -> bool {
    forall|k: int| 0 < k < s.len() ==> #[trigger] edge_ok(s, k)
}

/// Every edge is ordered except possibly those that end at `a` or at `b`.
pub open spec fn heap_but<V>(s: Seq<Node<V>>, a: int, b: int) -> bool {
    forall|k: int| 0 < k < s.len() && k != a && k != b ==> #[trigger] edge_ok(s, k)
}

/// Every node records its own position.
pub open spec fn positioned<V>(s: Seq<Node<V>>) -> bool {
    forall|i: int| 0 <= i < s.len() ==> #[trigger] s[i].index_of() == i
}

/// What a node holds for its users: its key and its value.
pub open spec fn entry<V>(n: Node<V>) -> (u64, V) {
    (n.key_of(), n.value_of())
}

/// The entries of a sequence of nodes, position by position.
pub open spec fn layout<V>(s: Seq<Node<V>>) -> Seq<(u64, V)> {
    s.map_values(|n: Node<V>| entry(n))
}

/// The contents of a sequence of nodes, regardless of order and position.
pub open spec fn entries<V>(s: Seq<Node<V>>) -> Multiset<(u64, V)> {
    s.map_values(|n: Node<V>| entry(n)).to_multiset()
}

/// The key of the parent of `pos` is at most the key of each child of `pos`.
spec fn grandparent_ok<V>(s: Seq<Node<V>>, pos: int) -> bool {
    forall|c: int|
        0 < c < s.len() && parent(c) == pos ==> s[parent(pos)].key_of() <= #[trigger] s[c].key_of()
}

/// Every edge is ordered except those that start at `pos`.
spec fn heap_below_open<V>(s: Seq<Node<V>>, pos: int) -> bool {
    forall|k: int| 0 < k < s.len() && parent(k) != pos ==> #[trigger] edge_ok(s, k)
}

/// Every edge is ordered except those that end or start at `pos`.
spec fn heap_around_open<V>(s: Seq<Node<V>>, pos: int) -> bool {
    forall|k: int| 0 < k < s.len() && k != pos && parent(k) != pos ==> #[trigger] edge_ok(s, k)
}

/// `pos` lies in the subtree rooted at `start`.
pub open spec fn descends(pos: int, start: int) -> bool
    decreases pos,
{
    if pos <= start {
        pos == start
    } else if pos <= 0 {
        false
    } else {
        descends(parent(pos), start)
    }
}

proof fn lemma_descends_from_root(pos: int)
    requires
        0 <= pos,
    ensures
        descends(pos, 0),
    decreases pos,
{
    if pos > 0 {
        lemma_descends_from_root(parent(pos));
    }
}

proof fn lemma_descends_ge(pos: int, start: int)
    requires
        descends(pos, start),
    ensures
        pos >= start,
    decreases pos,
{
    if pos > start && pos > 0 {
        lemma_descends_ge(parent(pos), start);
    }
}

/// Position `k` lies on the way from `top` down to `bottom`.
pub open spec fn on_path(k: int, top: int, bottom: int) -> bool {
    descends(bottom, k) && top <= k
}

/// The child of `p` with the smaller key; the left one on a tie.
pub open spec fn smaller_child<V>(e: Seq<(u64, V)>, p: int) -> int {
    if 2 * p + 2 < e.len() && e[2 * p + 2].0 < e[2 * p + 1].0 {
        2 * p + 2
    } else {
        2 * p + 1
    }
}

/// `t` is `e` with the entry at `top` moved down to `bottom`, each entry on
/// the way moving up one place.
pub open spec fn moved_down<V>(e: Seq<(u64, V)>, t: Seq<(u64, V)>, top: int, bottom: int) -> bool {
    &&& t.len() == e.len()
    &&& 0 <= top <= bottom < e.len()
    &&& descends(bottom, top)
    &&& t[bottom] == e[top]
    &&& forall|c: int| top < c <= bottom && on_path(c, top, bottom) ==> t[parent(c)] == e[c]
    &&& forall|k: int| 0 <= k < e.len() && !on_path(k, top, bottom) ==> t[k] == e[k]
}

/// `t` is `e` with the entry at `bottom` moved up to `top`, each entry on
/// the way moving down one place.
pub open spec fn moved_up<V>(e: Seq<(u64, V)>, t: Seq<(u64, V)>, bottom: int, top: int) -> bool {
    &&& t.len() == e.len()
    &&& 0 <= top <= bottom < e.len()
    &&& descends(bottom, top)
    &&& t[top] == e[bottom]
    &&& forall|k: int| top < k <= bottom && on_path(k, top, bottom) ==> t[k] == e[parent(k)]
    &&& forall|k: int| 0 <= k < e.len() && !on_path(k, top, bottom) ==> t[k] == e[k]
}

/// Sifting down: the entry at `pos` went down to `r`, each time to the child
/// with the smaller key, as long as that key was smaller than its own.
pub open spec fn sifted_down<V>(e: Seq<(u64, V)>, t: Seq<(u64, V)>, pos: int, r: int) -> bool {
    &&& moved_down(e, t, pos, r)
    &&& forall|c: int|
        pos < c <= r && on_path(c, pos, r) ==> c == smaller_child(e, parent(c)) && e[c].0 < e[pos].0
    &&& (2 * r + 1 >= e.len() || e[pos].0 <= e[smaller_child(e, r)].0)
}

/// Sifting up: the entry at `pos` went up to `r`, never above `start`, as
/// long as its key was smaller than its parent's.
pub open spec fn sifted_up<V>(e: Seq<(u64, V)>, t: Seq<(u64, V)>, start: int, pos: int, r: int) -> bool {
    &&& moved_up(e, t, pos, r)
    &&& descends(r, start)
    &&& forall|k: int| r < k <= pos && on_path(k, r, pos) ==> e[pos].0 < e[parent(k)].0
    &&& (r == start || e[parent(r)].0 <= e[pos].0)
}

/// Sinking: the entry at `pos` went down to `b`, a position without
/// children, each time to the child with the smaller key.
pub open spec fn sunk<V>(e: Seq<(u64, V)>, m: Seq<(u64, V)>, pos: int, b: int) -> bool {
    &&& moved_down(e, m, pos, b)
    &&& forall|c: int| pos < c <= b && on_path(c, pos, b) ==> c == smaller_child(e, parent(c))
    &&& 2 * b + 1 >= e.len()
}

/// Sinking the entry at `pos` to the bottom and sifting it back up, never
/// above `pos`, gives `t`, with the entry at `r`.
pub open spec fn sifted_to_bottom<V>(e: Seq<(u64, V)>, t: Seq<(u64, V)>, pos: int, r: int) -> bool {
    exists|b: int, m: Seq<(u64, V)>| sunk(e, m, pos, b) && #[trigger] sifted_up(m, t, pos, b, r)
}

/// Going one step down, from `p` to its child `c`, the way from `top` gains
/// exactly `c`.
proof fn lemma_path_down(top: int, p: int, c: int, k: int)
    requires
        0 <= top <= p,
        descends(p, top),
        parent(c) == p,
        c > p,
    ensures
        descends(c, top),
        on_path(k, top, c) <==> (on_path(k, top, p) || k == c),
{
    lemma_descends_ge(p, top);
    if descends(p, k) {
        lemma_descends_ge(p, k);
    }
}

/// Two ancestors of one position are ancestors of each other.
proof fn lemma_ancestors_chain(x: int, k: int, p: int)
    requires
        descends(x, k),
        descends(x, p),
        k < p,
    ensures
        descends(p, k),
    decreases x,
{
    lemma_descends_ge(x, k);
    lemma_descends_ge(x, p);
    if x != p {
        lemma_ancestors_chain(parent(x), k, p);
    }
}

/// Going one step up, from `p` to its parent, the way down to `bottom` gains
/// exactly that parent.
proof fn lemma_path_up(p: int, bottom: int, k: int)
    requires
        0 < p <= bottom,
        descends(bottom, p),
    ensures
        descends(bottom, parent(p)),
        on_path(k, parent(p), bottom) <==> (on_path(k, p, bottom) || k == parent(p)),
{
    lemma_descends_ge(bottom, p);
    lemma_descends_up(bottom, p);
    if descends(bottom, k) && parent(p) < k && k < p {
        lemma_ancestors_chain(bottom, k, p);
        assert(descends(parent(p), k));
        lemma_descends_ge(parent(p), k);
    }
}

/// An ancestor's parent is an ancestor too.
proof fn lemma_descends_up(x: int, p: int)
    requires
        descends(x, p),
        p > 0,
    ensures
        descends(x, parent(p)),
    decreases x,
{
    lemma_descends_ge(x, p);
    if x != p {
        assert(descends(parent(x), p));
        lemma_descends_up(parent(x), p);
        assert(descends(parent(x), parent(p)));
    } else {
        assert(descends(parent(p), parent(p)));
    }
}

/// On the way from `top` down to `bottom`, the entry from `bottom` is
/// smaller than each parent it passed.
spec fn rose_past<V>(e: Seq<(u64, V)>, bottom: int, top: int) -> bool {
    forall|k: int| top < k <= bottom && on_path(k, top, bottom) ==> e[bottom].0 < e[parent(k)].0
}

/// On the way from `top` down to `bottom`, each step went to the child with
/// the smaller key, and that key was smaller than the entry from `top`.
spec fn sank_past<V>(e: Seq<(u64, V)>, top: int, bottom: int, compared: bool) -> bool {
    forall|c: int|
        top < c <= bottom && on_path(c, top, bottom) ==> c == smaller_child(e, parent(c)) && (
        compared ==> e[c].0 < e[top].0)
}

/// The children of the position an entry moved down to have not moved.
proof fn lemma_below_unmoved<V>(e: Seq<(u64, V)>, t: Seq<(u64, V)>, top: int, p: int)
    requires
        moved_down(e, t, top, p),
    ensures
        forall|j: int| 0 <= j < e.len() && parent(j) == p ==> t[j] == e[j],
        smaller_child(t, p) == smaller_child(e, p),
{
    assert forall|j: int| 0 <= j < e.len() && parent(j) == p implies t[j] == e[j] by {
        lemma_descends_ge(p, top);
        if descends(p, j) {
            lemma_descends_ge(p, j);
        }
    }
    if 2 * p + 1 < e.len() {
        assert(parent(2 * p + 1) == p);
    }
    if 2 * p + 2 < e.len() {
        assert(parent(2 * p + 2) == p);
    }
}

/// Exchanging the moving entry at `pos` with its parent moves it one step up.
proof fn lemma_up_step<V>(e: Seq<(u64, V)>, t: Seq<(u64, V)>, t2: Seq<(u64, V)>, bottom: int, pos: int)
    requires
        moved_up(e, t, bottom, pos),
        rose_past(e, bottom, pos),
        pos > 0,
        t[pos].0 < t[parent(pos)].0,
        t2 == t.update(pos, t[parent(pos)]).update(parent(pos), t[pos]),
    ensures
        moved_up(e, t2, bottom, parent(pos)),
        rose_past(e, bottom, parent(pos)),
{
    let p = parent(pos);
    lemma_path_up(pos, bottom, p);
    assert(!on_path(p, pos, bottom));
    assert forall|k: int| p < k <= bottom && on_path(k, p, bottom) implies t2[k] == e[parent(k)]
        && e[bottom].0 < e[parent(k)].0 by {
        lemma_path_up(pos, bottom, k);
    }
    assert forall|k: int| 0 <= k < e.len() && !on_path(k, p, bottom) implies t2[k] == e[k] by {
        lemma_path_up(pos, bottom, k);
    }
}

/// Exchanging the moving entry at `p` with its child `c` moves it one step
/// down.
proof fn lemma_down_step<V>(
    e: Seq<(u64, V)>,
    t: Seq<(u64, V)>,
    t2: Seq<(u64, V)>,
    top: int,
    p: int,
    c: int,
    compared: bool,
)
    requires
        moved_down(e, t, top, p),
        sank_past(e, top, p, compared),
        parent(c) == p,
        p < c < e.len(),
        c == smaller_child(t, p),
        compared ==> t[c].0 < t[p].0,
        t2 == t.update(p, t[c]).update(c, t[p]),
    ensures
        moved_down(e, t2, top, c),
        sank_past(e, top, c, compared),
        forall|j: int| 0 <= j < e.len() && parent(j) == p ==> t[j] == e[j],
{
    lemma_path_down(top, p, c, c);
    assert forall|j: int| 0 <= j < e.len() && parent(j) == p implies t[j] == e[j] by {
        lemma_path_down(top, p, j, j);
        assert(!on_path(j, top, p));
    }
    assert(smaller_child(t, p) == smaller_child(e, p));
    assert forall|k: int| top < k <= c && on_path(k, top, c) implies t2[parent(k)] == e[k] && k
        == smaller_child(e, parent(k)) && (compared ==> e[k].0 < e[top].0) by {
        lemma_path_down(top, p, c, k);
        if k != c {
            lemma_descends_ge(p, k);
            assert(parent(k) != p && parent(k) != c);
        }
    }
    assert forall|k: int| 0 <= k < e.len() && !on_path(k, top, c) implies t2[k] == e[k] by {
        lemma_path_down(top, p, c, k);
        assert(!on_path(p, top, c) == false);
    }
}

/// Exchanging two elements keeps the multiset of a sequence.
proof fn lemma_swap_multiset<A>(s: Seq<A>, a: int, b: int)
    requires
        0 <= a < s.len(),
        0 <= b < s.len(),
    ensures
        s.update(a, s[b]).update(b, s[a]).to_multiset() =~= s.to_multiset(),
{
    if a != b {
        let t1 = s.update(a, s[b]);
        assert(t1[b] == s[b]);
        assert(s.to_multiset().count(s[a]) > 0);
        assert(t1.to_multiset() == s.to_multiset().insert(s[b]).remove(s[a]));
        assert(t1.update(b, s[a]).to_multiset() == t1.to_multiset().insert(s[a]).remove(s[b]));
    }
}

/// Replacing one node changes the contents by that one entry.
proof fn lemma_entries_update<V>(s: Seq<Node<V>>, i: int, n: Node<V>)
    requires
        0 <= i < s.len(),
    ensures
        entries(s.update(i, n)) =~= entries(s).insert(entry(n)).remove(entry(s[i])),
{
    let f = |m: Node<V>| entry(m);
    assert(s.update(i, n).map_values(f) =~= s.map_values(f).update(i, entry(n)));
}

/// Dropping the last node removes its entry from the contents.
proof fn lemma_entries_drop_last<V>(s: Seq<Node<V>>)
    requires
        s.len() > 0,
    ensures
        entries(s.drop_last()) =~= entries(s).remove(entry(s.last())),
{
    let f = |m: Node<V>| entry(m);
    assert(s.drop_last().map_values(f) =~= s.map_values(f).remove(s.len() - 1));
}

/// Appending a node adds its entry to the contents.
proof fn lemma_entries_push<V>(s: Seq<Node<V>>, n: Node<V>)
    ensures
        entries(s.push(n)) =~= entries(s).insert(entry(n)),
{
    let f = |m: Node<V>| entry(m);
    assert(s.push(n).map_values(f) =~= s.map_values(f).push(entry(n)));
}

/// Moving the last node into position `i` (and dropping the last slot)
/// removes the entry that stood at `i`.
proof fn lemma_entries_fill_from_last<V>(s: Seq<Node<V>>, i: int, n: Node<V>)
    requires
        0 <= i < s.len() - 1,
        entry(n) == entry(s.last()),
    ensures
        entries(s.drop_last().update(i, n)) =~= entries(s).remove(entry(s[i])),
{
    let f = |m: Node<V>| entry(m);
    let d = s.drop_last();
    lemma_entries_drop_last(s);
    lemma_entries_update(d, i, n);
    assert(s.map_values(f)[s.len() - 1] == entry(s.last()));
    assert(s.map_values(f).contains(entry(s.last())));
    assert(s.map_values(f)[i] == entry(s[i]));
    assert(d[i] == s[i]);
}

/// The root of an ordered heap holds a smallest key.
pub proof fn lemma_root_is_min<V>(s: Seq<Node<V>>, i: int)
    requires
        heap_ordered(s),
        0 <= i < s.len(),
    ensures
        s[0].key_of() <= s[i].key_of(),
    decreases i,
{
    if i > 0 {
        assert(edge_ok(s, i));
        lemma_root_is_min(s, parent(i));
    }
}

/// A min-heap of nodes ordered by key, in which every node knows its position.
pub struct BinaryHeap<V> {
    data: Vec<Node<V>>,
}

impl<V> View for BinaryHeap<V> {
    type V = Seq<Node<V>>;

    closed spec fn view(&self) -> Seq<Node<V>> {
        self.data@
    }
}

impl<V> Default for BinaryHeap<V> {
    fn default() -> (h: Self)
        ensures
            h.wf(),
            h@.len() == 0,
    {
        BinaryHeap { data: Vec::new() }
    }
}

impl<V> BinaryHeap<V> {
    /// Every node records its position, and the length stays within what a
    /// vector can hold.
    pub open spec fn wf(&self) -> bool {
        &&& positioned(self@)
        &&& self@.len() <= isize::MAX
    }

    /// The nodes are in heap order.
    pub open spec fn is_heap(&self) -> bool {
        heap_ordered(self@)
    }

    pub fn new() -> (h: BinaryHeap<V>)
        ensures
            h.wf(),
            h.is_heap(),
            h@.len() == 0,
    {
        Self::default()
    }

    pub fn with_capacity(capacity: usize) -> (h: BinaryHeap<V>)
        ensures
            h.wf(),
            h.is_heap(),
            h@.len() == 0,
    {
        BinaryHeap { data: Vec::with_capacity(capacity) }
    }

    /// The nodes, in the order the heap holds them.
    pub fn into_vec(self) -> (v: Vec<Node<V>>)
        ensures
            v@ == self@,
    {
        self.data
    }

    pub fn is_empty(&self) -> (b: bool)
        ensures
            b == (self@.len() == 0),
    {
        self.data.len() == 0
    }

    pub fn len(&self) -> (n: usize)
        ensures
            n == self@.len(),
    {
        self.data.len()
    }

    /// Empties the heap and hands its nodes out in the order the heap held
    /// them; each node keeps the position it had.
    pub fn clear(&mut self) -> (removed: Vec<Node<V>>)
        ensures
            removed@ == old(self)@,
            final(self)@.len() == 0,
    {
        let mut removed: Vec<Node<V>> = Vec::new();
        std::mem::swap(&mut removed, &mut self.data);
        removed
    }

    /// The node at the root, that is, one with the smallest key of an
    /// ordered heap.
    pub fn peek(&self) -> (r: Option<&Node<V>>)
        ensures
            match r {
                Some(n) => self@.len() > 0 && *n == self@[0],
                None => self@.len() == 0,
            },
    {
        if self.data.len() > 0 {
            Some(&self.data[0])
        } else {
            None
        }
    }

    /// The node at `index`, if there is one.
    pub fn get(&self, index: usize) -> (r: Option<&Node<V>>)
        ensures
            match r {
                Some(n) => index < self@.len() && *n == self@[index as int],
                None => index >= self@.len(),
            },
    {
        if index < self.data.len() {
            Some(&self.data[index])
        } else {
            None
        }
    }

    /// Exchanges the nodes at `a` and `b`, each taking its new position.
    fn swap_nodes(&mut self, a: usize, b: usize)
        requires
            a < old(self)@.len(),
            b < old(self)@.len(),
            a != b,
            positioned(old(self)@),
        ensures
            final(self)@.len() == old(self)@.len(),
            positioned(final(self)@),
            entries(final(self)@) == entries(old(self)@),
            layout(final(self)@) == layout(old(self)@).update(a as int, layout(old(self)@)[b as int]).update(
                b as int,
                layout(old(self)@)[a as int],
            ),
            final(self)@[a as int].key_of() == old(self)@[b as int].key_of(),
            final(self)@[b as int].key_of() == old(self)@[a as int].key_of(),
            forall|k: int|
                0 <= k < old(self)@.len() && k != a && k != b ==> final(self)@[k] == old(self)@[k],
    {
        let ghost s = self.data@;
        let lo = if a < b { a } else { b };
        let hi = if a < b { b } else { a };
        {
            let slice = self.data.as_mut_slice();
            let (left, right) = slice.split_at_mut(hi);
            std::mem::swap(&mut left[lo], &mut right[0]);
        }
        self.data[a].index = a;
        self.data[b].index = b;
        proof {
            let t = self.data@;
            let f = |m: Node<V>| entry(m);
            let sw = s.update(a as int, s[b as int]).update(b as int, s[a as int]);
            assert(t.map_values(f) =~= sw.map_values(f));
            assert(sw.map_values(f) =~= s.map_values(f).update(
                a as int,
                s.map_values(f)[b as int],
            ).update(b as int, s.map_values(f)[a as int]));
            lemma_swap_multiset(s.map_values(f), a as int, b as int);
        }
    }
}


impl<V> BinaryHeap<V> {
    /// Moves the node at `pos` towards the root, never above `start`, while
    /// its key is smaller than its parent's; returns where it stops.
    fn sift_up(&mut self, start: usize, pos: usize) -> (r: usize)
        requires
            positioned(old(self)@),
            old(self)@.len() <= isize::MAX,
            start <= pos < old(self)@.len(),
            descends(pos as int, start as int),
        ensures
            final(self)@.len() == old(self)@.len(),
            positioned(final(self)@),
            entries(final(self)@) == entries(old(self)@),
            start <= r < final(self)@.len(),
            sifted_up(layout(old(self)@), layout(final(self)@), start as int, pos as int, r as int),
            heap_but(old(self)@, pos as int, start as int) && (pos > start ==> grandparent_ok(
                old(self)@,
                pos as int,
            )) ==> heap_but(final(self)@, start as int, start as int),
    {
        let ghost hp = heap_but(self@, pos as int, start as int) && (pos > start ==> grandparent_ok(
            self@,
            pos as int,
        ));
        let ghost s0 = self@;
        let ghost e0 = layout(s0);
        let ghost bottom = pos as int;
        let mut pos = pos;
        while pos > start
            invariant
                self@.len() == s0.len(),
                s0.len() <= isize::MAX,
                positioned(self@),
                entries(self@) == entries(s0),
                start <= pos < self@.len(),
                descends(pos as int, start as int),
                moved_up(e0, layout(self@), bottom, pos as int),
                rose_past(e0, bottom, pos as int),
                hp ==> heap_but(self@, pos as int, start as int),
                hp && pos > start ==> grandparent_ok(self@, pos as int),
            ensures
                self@.len() == s0.len(),
                positioned(self@),
                entries(self@) == entries(s0),
                start <= pos < self@.len(),
                sifted_up(e0, layout(self@), start as int, bottom, pos as int),
                hp ==> heap_but(self@, start as int, start as int),
            decreases pos,
        {
            let p = (pos - 1) / 2;
            if self.data[pos].key >= self.data[p].key {
                proof {
                    let t = layout(self@);
                    assert(t[pos as int].0 == self@[pos as int].key_of());
                    assert(t[p as int].0 == self@[p as int].key_of());
                    lemma_descends_ge(bottom, pos as int);
                    assert(!on_path(p as int, pos as int, bottom));
                    if hp {
                        assert forall|k: int|
                            0 < k < self@.len() && k != start implies #[trigger] edge_ok(
                            self@,
                            k,
                        ) by {
                            if k != pos {
                                assert(edge_ok(self@, k));
                            }
                        }
                    }
                }
                break;
            }
            let ghost s = self@;
            proof {
                assert(descends(p as int, start as int));
                lemma_descends_ge(p as int, start as int);
            }
            self.swap_nodes(pos, p);
            proof {
                let lt = layout(s);
                assert(lt[pos as int].0 == s[pos as int].key_of());
                assert(lt[p as int].0 == s[p as int].key_of());
                lemma_up_step(e0, lt, layout(self@), bottom, pos as int);
                let t = self@;
                if hp {
                    assert forall|k: int|
                        0 < k < t.len() && k != p && k != start implies #[trigger] edge_ok(t, k) by {
                        if k == pos {
                        } else if parent(k) == p {
                            assert(edge_ok(s, k));
                        } else if parent(k) == pos {
                            assert(s[parent(pos as int)].key_of() <= s[k].key_of());
                        } else {
                            assert(edge_ok(s, k));
                        }
                    }
                    if p > start {
                        assert forall|c: int|
                            0 < c < t.len() && parent(c) == p implies t[parent(p as int)].key_of()
                            <= #[trigger] t[c].key_of() by {
                            assert(edge_ok(s, p as int));
                            if c != pos {
                                assert(edge_ok(s, c));
                            }
                        }
                    }
                }
            }
            pos = p;
        }
        pos
    }
}


impl<V> BinaryHeap<V> {
    /// Moves the node at `pos` away from the root, each time to its child
    /// with the smaller key, while that child's key is smaller than its own;
    /// returns where it stops.
    fn sift_down(&mut self, pos: usize) -> (r: usize)
        requires
            positioned(old(self)@),
            old(self)@.len() <= isize::MAX,
            pos < old(self)@.len(),
        ensures
            final(self)@.len() == old(self)@.len(),
            positioned(final(self)@),
            entries(final(self)@) == entries(old(self)@),
            pos <= r < final(self)@.len(),
            sifted_down(layout(old(self)@), layout(final(self)@), pos as int, r as int),
            heap_below_open(old(self)@, pos as int) && (pos > 0 ==> grandparent_ok(
                old(self)@,
                pos as int,
            )) ==> heap_ordered(final(self)@),
    {
        let ghost hp = heap_below_open(self@, pos as int) && (pos > 0 ==> grandparent_ok(
            self@,
            pos as int,
        ));
        let ghost s0 = self@;
        let ghost start = pos;
        let ghost e0 = layout(s0);
        let end = self.data.len();
        let mut pos = pos;
        let mut child = 2 * pos + 1;
        let mut done = false;
        while !done && child < end
            invariant
                self@.len() == s0.len(),
                end == s0.len(),
                end <= isize::MAX,
                positioned(self@),
                entries(self@) == entries(s0),
                start <= pos < end,
                !done ==> child == 2 * pos + 1,
                !done && hp ==> heap_below_open(self@, pos as int),
                !done && hp && pos > 0 ==> grandparent_ok(self@, pos as int),
                moved_down(e0, layout(self@), start as int, pos as int),
                sank_past(e0, start as int, pos as int, true),
                done ==> e0[start as int].0 <= e0[smaller_child(e0, pos as int)].0 && 2 * pos + 1
                    < end,
                done && hp ==> heap_ordered(self@),
            decreases end - pos, if done { 0int } else { 1int },
        {
            let right = child + 1;
            if right < end && self.data[right].key < self.data[child].key {
                child = right;
            }
            proof {
                let t = layout(self@);
                lemma_below_unmoved(e0, t, start as int, pos as int);
                if right < end {
                    assert(t[right as int].0 == self@[right as int].key_of());
                }
                assert(t[child as int].0 == self@[child as int].key_of());
                assert(t[(2 * pos + 1) as int].0 == self@[(2 * pos + 1) as int].key_of());
                assert(child == smaller_child(t, pos as int));
                assert(t[pos as int].0 == self@[pos as int].key_of());
            }
            if self.data[pos].key <= self.data[child].key {
                proof {
                    if hp {
                        assert forall|k: int| 0 < k < self@.len() implies #[trigger] edge_ok(
                            self@,
                            k,
                        ) by {
                            if parent(k) != pos {
                                assert(edge_ok(self@, k));
                            }
                        }
                    }
                }
                done = true;
            } else {
                let ghost s = self@;
                self.swap_nodes(pos, child);
                proof {
                    lemma_down_step(e0, layout(s), layout(self@), start as int, pos as int, child as int, true);
                    let t = self@;
                    if hp {
                        assert forall|k: int|
                            0 < k < t.len() && parent(k) != child implies #[trigger] edge_ok(t, k) by {
                            if k == child {
                            } else if parent(k) == pos {
                            } else if k == pos {
                                assert(s[parent(pos as int)].key_of() <= s[child as int].key_of());
                            } else {
                                assert(edge_ok(s, k));
                            }
                        }
                        assert forall|c: int|
                            0 < c < t.len() && parent(c) == child implies t[parent(
                                child as int,
                            )].key_of() <= #[trigger] t[c].key_of() by {
                            assert(edge_ok(s, c));
                        }
                    }
                }
                pos = child;
                child = 2 * pos + 1;
            }
        }
        proof {
            if hp && !done {
                assert forall|k: int| 0 < k < self@.len() implies #[trigger] edge_ok(self@, k) by {
                    if parent(k) != pos {
                        assert(edge_ok(self@, k));
                    }
                }
            }
        }
        pos
    }

    /// Moves the node at `pos` all the way down, each time to its child with
    /// the smaller key, then back up while its key is smaller than its
    /// parent's, never above `pos`; returns where it stops.
    fn sift_down_to_bottom(&mut self, pos: usize) -> (r: usize)
        requires
            positioned(old(self)@),
            old(self)@.len() <= isize::MAX,
            pos < old(self)@.len(),
        ensures
            final(self)@.len() == old(self)@.len(),
            positioned(final(self)@),
            entries(final(self)@) == entries(old(self)@),
            pos <= r < final(self)@.len(),
            heap_around_open(old(self)@, pos as int) && (pos > 0 ==> grandparent_ok(
                old(self)@,
                pos as int,
            )) ==> heap_but(final(self)@, pos as int, pos as int),
            heap_around_open(old(self)@, pos as int) && (pos > 0 ==> grandparent_ok(
                old(self)@,
                pos as int,
            ) && edge_ok(old(self)@, pos as int)) ==> heap_ordered(final(self)@),
            sifted_to_bottom(layout(old(self)@), layout(final(self)@), pos as int, r as int),
    {
        let ghost hp = heap_around_open(self@, pos as int) && (pos > 0 ==> grandparent_ok(
            self@,
            pos as int,
        ));
        let ghost s0 = self@;
        let ghost e0 = layout(s0);
        let ghost hq = hp && (pos > 0 ==> edge_ok(s0, pos as int));
        let end = self.data.len();
        let start = pos;
        let mut pos = pos;
        let mut child = 2 * pos + 1;
        while child < end
            invariant
                self@.len() == s0.len(),
                end == s0.len(),
                end <= isize::MAX,
                positioned(self@),
                entries(self@) == entries(s0),
                start <= pos < end,
                child == 2 * pos + 1,
                descends(pos as int, start as int),
                hp ==> heap_around_open(self@, pos as int),
                hp && pos > 0 ==> grandparent_ok(self@, pos as int),
                moved_down(e0, layout(self@), start as int, pos as int),
                sank_past(e0, start as int, pos as int, false),
                e0 == layout(s0),
                hq ==> hp,
                hq && start > 0 ==> s0[parent(start as int)].key_of() <= self@[start as int].key_of(),
            decreases end - pos,
        {
            let right = child + 1;
            if right < end && self.data[right].key < self.data[child].key {
                child = right;
            }
            proof {
                let t = layout(self@);
                lemma_below_unmoved(e0, t, start as int, pos as int);
                if right < end {
                    assert(t[right as int].0 == self@[right as int].key_of());
                }
                assert(t[child as int].0 == self@[child as int].key_of());
                assert(t[(2 * pos + 1) as int].0 == self@[(2 * pos + 1) as int].key_of());
                assert(child == smaller_child(t, pos as int));
            }
            let ghost s = self@;
            self.swap_nodes(pos, child);
            proof {
                lemma_down_step(e0, layout(s), layout(self@), start as int, pos as int, child as int, false);
                let t = self@;
                assert(parent(child as int) == pos);
                if hq && start > 0 {
                    assert(hp);
                    lemma_descends_ge(pos as int, start as int);
                    if pos == start {
                        assert(grandparent_ok(s, pos as int));
                        assert(s[parent(pos as int)].key_of() <= s[child as int].key_of());
                        assert(!on_path(parent(start as int), start as int, pos as int));
                        assert(layout(s)[parent(start as int)] == e0[parent(start as int)]);
                        assert(layout(s)[parent(start as int)].0 == s[parent(start as int)].key_of());
                        assert(e0[parent(start as int)].0 == s0[parent(start as int)].key_of());
                        assert(layout(self@)[start as int].0 == self@[start as int].key_of());
                        assert(layout(self@)[start as int] == layout(s)[child as int]);
                        assert(layout(s)[child as int].0 == s[child as int].key_of());
                    }
                }
                if hp {
                    assert forall|k: int|
                        0 < k < t.len() && k != child && parent(k) != child implies #[trigger] edge_ok(
                        t,
                        k,
                    ) by {
                        if parent(k) == pos {
                        } else if k == pos {
                            assert(s[parent(pos as int)].key_of() <= s[child as int].key_of());
                        } else {
                            assert(edge_ok(s, k));
                        }
                    }
                    assert forall|c: int|
                        0 < c < t.len() && parent(c) == child implies t[parent(child as int)].key_of()
                        <= #[trigger] t[c].key_of() by {
                        assert(edge_ok(s, c));
                    }
                }
            }
            pos = child;
            child = 2 * pos + 1;
        }
        proof {
            if hp {
                assert forall|k: int|
                    0 < k < self@.len() && k != pos && k != start implies #[trigger] edge_ok(
                    self@,
                    k,
                ) by {
                    assert(parent(k) != pos);
                }
            }
        }
        let ghost m = layout(self@);
        let ghost b = pos as int;
        let ghost s1 = self@;
        proof {
            assert(sunk(e0, m, start as int, b));
        }
        let r = self.sift_up(start, pos);
        proof {
            let f = layout(self@);
            assert(sifted_up(m, f, start as int, b, r as int));
            assert(sifted_to_bottom(e0, f, start as int, r as int));
            if hq && start > 0 {
                assert(!on_path(parent(start as int), r as int, b));
                assert(f[parent(start as int)] == m[parent(start as int)]);
                assert(!on_path(parent(start as int), start as int, b));
                assert(m[parent(start as int)] == e0[parent(start as int)]);
                assert(f[parent(start as int)].0 == self@[parent(start as int)].key_of());
                assert(e0[parent(start as int)].0 == s0[parent(start as int)].key_of());
                assert(f[start as int].0 == self@[start as int].key_of());
                if r == start {
                    assert(f[start as int] == m[b]);
                    assert(m[b] == e0[start as int]);
                    assert(e0[start as int].0 == s0[start as int].key_of());
                } else {
                    assert(!on_path(start as int, r as int, b));
                    assert(f[start as int] == m[start as int]);
                    assert(m[start as int].0 == s1[start as int].key_of());
                }
                assert(edge_ok(self@, start as int));
            }
            if hq {
                assert forall|k: int| 0 < k < self@.len() implies #[trigger] edge_ok(self@, k) by {
                    if k != start {
                        assert(edge_ok(self@, k));
                    }
                }
            }
        }
        r
    }
}


impl<V> BinaryHeap<V> {
    /// Inserts `item`, which takes its place in the heap.
    pub fn push(&mut self, item: Node<V>)
        requires
            old(self).wf(),
            old(self)@.len() < isize::MAX,
        ensures
            final(self).wf(),
            final(self)@.len() == old(self)@.len() + 1,
            entries(final(self)@) == entries(old(self)@).insert(entry(item)),
            old(self).is_heap() ==> final(self).is_heap(),
            exists|r: int|
                sifted_up(
                    layout(old(self)@).push(entry(item)),
                    layout(final(self)@),
                    0,
                    old(self)@.len() as int,
                    r,
                ),
    {
        let ghost given = item;
        let mut item = item;
        item.index = self.data.len();
        let ghost s = self@;
        self.data.push(item);
        proof {
            lemma_entries_push(s, item);
            lemma_descends_from_root(s.len() as int);
            if heap_ordered(s) {
                assert forall|k: int|
                    0 < k < self@.len() && k != s.len() implies #[trigger] edge_ok(self@, k) by {
                    assert(edge_ok(s, k));
                }
            }
        }
        let pos = self.data.len() - 1;
        proof {
            assert(layout(self@) =~= layout(s).push(entry(item)));
        }
        let r = self.sift_up(0, pos);
        proof {
            assert(entry(item) == entry(given));
            assert(sifted_up(layout(s).push(entry(given)), layout(self@), 0, pos as int, r as int));
        }
    }

    /// Takes the root out of the heap: a node with the smallest key when the
    /// heap is ordered. The node leaves with the position `DETACHED`.
    pub fn pop(&mut self) -> (r: Option<Node<V>>)
        requires
            old(self).wf(),
        ensures
            final(self).wf(),
            old(self)@.len() == 0 ==> r.is_none() && final(self)@ == old(self)@,
            old(self)@.len() > 0 ==> {
                &&& r matches Some(n)
                &&& entry(n) == entry(old(self)@[0])
                &&& n.index_of() == DETACHED
                &&& final(self)@.len() == old(self)@.len() - 1
                &&& entries(final(self)@) == entries(old(self)@).remove(entry(n))
                &&& old(self).is_heap() ==> forall|i: int|
                    0 <= i < old(self)@.len() ==> n.key_of() <= #[trigger] old(self)@[i].key_of()
            },
            old(self)@.len() > 1 ==> exists|r: int|
                sifted_to_bottom(
                    layout(old(self)@).drop_last().update(0, entry(old(self)@.last())),
                    layout(final(self)@),
                    0,
                    r,
                ),
            old(self).is_heap() ==> final(self).is_heap(),
    {
        let ghost s = self@;
        match self.data.pop() {
            None => None,
            Some(item) => {
                let mut item = item;
                proof {
                    lemma_entries_drop_last(s);
                    if heap_ordered(s) {
                        assert forall|i: int| 0 <= i < s.len() implies s[0].key_of()
                            <= #[trigger] s[i].key_of() by {
                            lemma_root_is_min(s, i);
                        }
                    }
                }
                if self.data.len() > 0 {
                    item.index = 0;
                    std::mem::swap(&mut item, &mut self.data[0]);
                    let ghost s1 = self@;
                    proof {
                        assert(layout(s1) =~= layout(s).drop_last().update(0, entry(s.last())));
                        lemma_entries_fill_from_last(s, 0, self@[0]);
                        if heap_ordered(s) {
                            assert forall|k: int|
                                0 < k < self@.len() && k != 0 && parent(k) != 0 implies #[trigger] edge_ok(
                                self@,
                                k,
                            ) by {
                                assert(edge_ok(s, k));
                            }
                        }
                    }
                    let r = self.sift_down_to_bottom(0);
                    proof {
                        assert(sifted_to_bottom(layout(s1), layout(self@), 0, r as int));
                    }
                }
                item.index = DETACHED;
                Some(item)
            },
        }
    }

    /// Gives the node at `index` the key `key` and moves it to where that
    /// key belongs.
    pub fn update(&mut self, index: usize, key: u64)
        requires
            old(self).wf(),
            index < old(self)@.len(),
        ensures
            final(self).wf(),
            final(self)@.len() == old(self)@.len(),
            entries(final(self)@) == entries(old(self)@).insert(
                (key, old(self)@[index as int].value_of()),
            ).remove(entry(old(self)@[index as int])),
            key == old(self)@[index as int].key_of() ==> final(self)@ == old(self)@,
            key < old(self)@[index as int].key_of() ==> exists|r: int|
                sifted_up(
                    layout(old(self)@).update(index as int, (key, old(self)@[index as int].value_of())),
                    layout(final(self)@),
                    0,
                    index as int,
                    r,
                ),
            key > old(self)@[index as int].key_of() ==> exists|r: int|
                sifted_down(
                    layout(old(self)@).update(index as int, (key, old(self)@[index as int].value_of())),
                    layout(final(self)@),
                    index as int,
                    r,
                ),
            old(self).is_heap() ==> final(self).is_heap(),
    {
        let ghost s = self@;
        let ghost e1 = layout(s).update(index as int, (key, s[index as int].value_of()));
        let current = self.data[index].key;
        if key < current {
            self.data[index].key = key;
            proof {
                assert forall|i: int| 0 <= i < self@.len() implies #[trigger] self@[i].index_of()
                    == i by {
                    assert(s[i].index_of() == i);
                }
                lemma_entries_update(s, index as int, self@[index as int]);
                lemma_descends_from_root(index as int);
                if heap_ordered(s) {
                    assert forall|k: int|
                        0 < k < self@.len() && k != index implies #[trigger] edge_ok(self@, k) by {
                        assert(edge_ok(s, k));
                    }
                    if index > 0 {
                        assert forall|c: int|
                            0 < c < self@.len() && parent(c) == index implies self@[parent(
                                index as int,
                            )].key_of() <= #[trigger] self@[c].key_of() by {
                            assert(edge_ok(s, c));
                            assert(edge_ok(s, index as int));
                        }
                    }
                }
            }
            proof {
                assert(layout(self@) =~= e1);
            }
            let r = self.sift_up(0, index);
            proof {
                assert(sifted_up(e1, layout(self@), 0, index as int, r as int));
            }
        } else if key > current {
            self.data[index].key = key;
            proof {
                assert forall|i: int| 0 <= i < self@.len() implies #[trigger] self@[i].index_of()
                    == i by {
                    assert(s[i].index_of() == i);
                }
                lemma_entries_update(s, index as int, self@[index as int]);
                if heap_ordered(s) {
                    assert forall|k: int|
                        0 < k < self@.len() && parent(k) != index implies #[trigger] edge_ok(
                        self@,
                        k,
                    ) by {
                        assert(edge_ok(s, k));
                    }
                    if index > 0 {
                        assert forall|c: int|
                            0 < c < self@.len() && parent(c) == index implies self@[parent(
                                index as int,
                            )].key_of() <= #[trigger] self@[c].key_of() by {
                            assert(edge_ok(s, c));
                            assert(edge_ok(s, index as int));
                        }
                    }
                }
            }
            proof {
                assert(layout(self@) =~= e1);
            }
            let r = self.sift_down(index);
            proof {
                assert(sifted_down(e1, layout(self@), index as int, r as int));
            }
        } else {
            proof {
                assert(entries(s).insert(entry(s[index as int])).remove(entry(s[index as int]))
                    =~= entries(s));
            }
        }
    }

    /// Takes the node at `index` out of the heap; the last node fills its
    /// place and moves down, and then up but never above `index`. The node
    /// leaves with the position `DETACHED`.
    pub fn remove(&mut self, index: usize) -> (r: Node<V>)
        requires
            old(self).wf(),
            index < old(self)@.len(),
        ensures
            final(self).wf(),
            final(self)@.len() == old(self)@.len() - 1,
            entry(r) == entry(old(self)@[index as int]),
            r.index_of() == DETACHED,
            entries(final(self)@) == entries(old(self)@).remove(entry(r)),
            index + 1 == old(self)@.len() ==> final(self)@ == old(self)@.drop_last(),
            index + 1 < old(self)@.len() ==> exists|p: int|
                sifted_to_bottom(
                    layout(old(self)@).drop_last().update(index as int, entry(old(self)@.last())),
                    layout(final(self)@),
                    index as int,
                    p,
                ),
            old(self).is_heap() ==> heap_but(final(self)@, index as int, index as int),
            old(self).is_heap() && (index == 0 || old(self)@[parent(index as int)].key_of()
                <= old(self)@.last().key_of()) ==> final(self).is_heap(),
    {
        let ghost s = self@;
        let mut item = self.data.pop().unwrap();
        proof {
            lemma_entries_drop_last(s);
        }
        if index < self.data.len() {
            item.index = index;
            std::mem::swap(&mut item, &mut self.data[index]);
            let ghost s1 = self@;
            proof {
                assert(layout(s1) =~= layout(s).drop_last().update(index as int, entry(s.last())));
                lemma_entries_fill_from_last(s, index as int, self@[index as int]);
                if heap_ordered(s) && index > 0 && s[parent(index as int)].key_of() <= s.last().key_of() {
                    assert(edge_ok(s1, index as int));
                }
                if heap_ordered(s) {
                    assert forall|k: int|
                        0 < k < self@.len() && k != index && parent(k) != index implies #[trigger] edge_ok(
                        self@,
                        k,
                    ) by {
                        assert(edge_ok(s, k));
                    }
                    if index > 0 {
                        assert forall|c: int|
                            0 < c < self@.len() && parent(c) == index implies self@[parent(
                                index as int,
                            )].key_of() <= #[trigger] self@[c].key_of() by {
                            assert(edge_ok(s, c));
                            assert(edge_ok(s, index as int));
                        }
                    }
                }
            }
            let p = self.sift_down_to_bottom(index);
            proof {
                assert(sifted_to_bottom(layout(s1), layout(self@), index as int, p as int));
            }
        } else {
            proof {
                assert(self@ =~= s.drop_last());
                if heap_ordered(s) {
                    assert forall|k: int| 0 < k < self@.len() implies #[trigger] edge_ok(self@, k) by {
                        assert(edge_ok(s, k));
                    }
                }
            }
        }
        item.index = DETACHED;
        item
    }
}


impl<V> Node<V> {
    /// The position of the node in its heap, `DETACHED` when it is in none.
    pub fn index(this: &Self) -> (i: usize)
        ensures
            i == this.index_of(),
    {
        this.index
    }

    pub fn key(this: &Self) -> (k: &u64)
        ensures
            *k == this.key_of(),
    {
        &this.key
    }

    /// Sets the key of a node that belongs to no heap; a node in a heap
    /// keeps its key, and `key` is handed back.
    pub fn set_key(this: &mut Self, key: u64) -> (r: Option<u64>)
        ensures
            old(this).index_of() == DETACHED ==> r.is_none() && final(this).key_of() == key
                && final(this).index_of() == old(this).index_of() && final(this).value_of()
                == old(this).value_of(),
            old(this).index_of() != DETACHED ==> r == Some(key) && *final(this) == *old(this),
    {
        if this.index == DETACHED {
            this.key = key;
            None
        } else {
            Some(key)
        }
    }

    /// The key, to change in place. Only a node outside any heap can be
    /// reached this way, so no heap loses its order.
    pub fn key_mut(this: &mut Self) -> (r: &mut u64)
        ensures
            *r == old(this).key_of(),
            final(this).key_of() == *final(r),
            final(this).index_of() == old(this).index_of(),
            final(this).value_of() == old(this).value_of(),
    {
        &mut this.key
    }

}


impl<V: Clone> Clone for Node<V> {
    /// A copy of the node that belongs to no heap.
    fn clone(&self) -> (n: Self)
        ensures
            n.index_of() == DETACHED,
            n.key_of() == self.key_of(),
            cloned(self.value_of(), n.value_of()),
    {
        Node { index: DETACHED, key: self.key, value: self.value.clone() }
    }
}


/// Taking the root out of an ordered heap, and then the root of what is
/// left, gives keys in increasing order: the first root's key is at most the
/// key of any root the remaining nodes can have.
pub proof fn lemma_pop_order<V>(h: Seq<Node<V>>, h2: Seq<Node<V>>)
    requires
        heap_ordered(h),
        h.len() > 0,
        h2.len() > 0,
        entries(h2) == entries(h).remove(entry(h[0])),
    ensures
        h[0].key_of() <= h2[0].key_of(),
{
    let f = |m: Node<V>| entry(m);
    let e = entry(h2[0]);
    assert(h2.map_values(f)[0] == e);
    assert(h2.map_values(f).contains(e));
    assert(entries(h2).count(e) > 0);
    assert(entries(h).count(e) > 0);
    assert(h.map_values(f).contains(e));
    let j = choose|j: int| 0 <= j < h.map_values(f).len() && h.map_values(f)[j] == e;
    assert(h[j].key_of() == h2[0].key_of());
    lemma_root_is_min(h, j);
}


impl<V> std::ops::Deref for Node<V> {
    type Target = V;

    /// The value the node carries.
    fn deref(&self) -> (r: &V)
        ensures
            *r == self.value_of(),
    {
        &self.value
    }
}

impl<V> AsRef<V> for Node<V> {
    /// The value the node carries.
    fn as_ref(&self) -> (r: &V)
        ensures
            *r == self.value_of(),
    {
        &self.value
    }
}

impl<V> AsMut<V> for Node<V> {
    /// The value the node carries, to change in place.
    fn as_mut(&mut self) -> (r: &mut V)
        ensures
            *r == old(self).value_of(),
            final(self).value_of() == *final(r),
            final(self).key_of() == old(self).key_of(),
            final(self).index_of() == old(self).index_of(),
    {
        &mut self.value
    }
}


/// Draining an ordered heap, one root at a time, gives every entry exactly
/// once, in increasing order of keys. `hs` are the successive heaps and
/// `outs` what each step took out, as `pop` describes them.
pub proof fn lemma_drain_sorted<V>(hs: Seq<Seq<Node<V>>>, outs: Seq<(u64, V)>)
    requires
        hs.len() == outs.len() + 1,
        hs.last().len() == 0,
        forall|i: int|
            0 <= i < outs.len() ==> heap_ordered(#[trigger] hs[i]) && hs[i].len() > 0 && outs[i]
                == entry(hs[i][0]) && entries(hs[i + 1]) == entries(hs[i]).remove(outs[i]),
    ensures
        forall|i: int, j: int| 0 <= i <= j < outs.len() ==> outs[i].0 <= outs[j].0,
        outs.to_multiset() == entries(hs[0]),
    decreases outs.len(),
{
    if outs.len() == 0 {
        assert(entries(hs[0]) =~= Multiset::empty());
        assert(outs.to_multiset() =~= Multiset::empty());
    } else {
        let hs1 = hs.drop_first();
        let outs1 = outs.drop_first();
        assert forall|i: int| 0 <= i < outs1.len() implies heap_ordered(#[trigger] hs1[i])
            && hs1[i].len() > 0 && outs1[i] == entry(hs1[i][0]) && entries(hs1[i + 1]) == entries(
            hs1[i],
        ).remove(outs1[i]) by {
            assert(hs1[i] == hs[i + 1]);
            assert(heap_ordered(hs[i + 1]));
        }
        lemma_drain_sorted(hs1, outs1);
        if outs.len() > 1 {
            assert(heap_ordered(hs[1]));
            lemma_pop_order(hs[0], hs[1]);
            assert(outs[0].0 <= outs[1].0);
        }
        assert forall|i: int, j: int| 0 <= i <= j < outs.len() implies outs[i].0 <= outs[j].0 by {
            if i > 0 {
                assert(outs1[i - 1] == outs[i] && outs1[j - 1] == outs[j]);
            } else if j > 0 {
                assert(outs1[0] == outs[1] && outs1[j - 1] == outs[j]);
            }
        }
        let f = |m: Node<V>| entry(m);
        assert(hs[0].map_values(f)[0] == outs[0]);
        assert(hs[0].map_values(f).contains(outs[0]));
        assert(entries(hs[0]).count(outs[0]) > 0);
        assert(outs =~= seq![outs[0]] + outs1);
        vstd::seq_lib::lemma_multiset_commutative(seq![outs[0]], outs1);
        assert(seq![outs[0]].to_multiset() =~= Multiset::empty().insert(outs[0]));
        assert(outs.to_multiset() =~= entries(hs[0]));
    }
}

} // verus!
