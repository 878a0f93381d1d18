use vstd::prelude::*;
use crate::iter::{split_refs, Iter};
use crate::order::{copy_bytes, lex_lt, lemma_lex_proper_prefix, lemma_lex_first_difference};

verus! {

/// A node of the radix tree: a key fragment, an optional value, and children ordered by
/// the first byte of their fragments.
pub struct Node<T> {
    key: Vec<u8>,
    value: Option<T>,
    children: Vec<Node<T>>,
}

/// Children have non-empty fragments whose first bytes strictly increase.
pub open spec fn children_sorted<T>(cs: Seq<Node<T>>) -> bool {
    &&& forall|i: int| 0 <= i < cs.len() ==> (#[trigger] cs[i]).fragment().len() > 0
    &&& forall|i: int, j: int|
        0 <= i < j < cs.len() ==> (#[trigger] cs[i]).fragment()[0] < (#[trigger] cs[j]).fragment()[0]
}

/// The position of the child whose fragment starts with `b`, or -1 when there is none.
pub open spec fn child_with<T>(cs: Seq<Node<T>>, b: u8) -> int {
    if exists|i: int| 0 <= i < cs.len() && cs[i].fragment().len() > 0 && cs[i].fragment()[0] == b {
        choose|i: int| 0 <= i < cs.len() && cs[i].fragment().len() > 0 && cs[i].fragment()[0] == b
    } else {
        -1
    }
}

impl<T> Node<T> {
    /// The key fragment stored on the edge into this node.
    pub closed spec fn fragment(self) -> Seq<u8> {
        self.key@
    }

    /// The value stored at this node.
    pub closed spec fn stored(self) -> Option<T> {
        self.value
    }

    /// The children of this node, in order.
    pub closed spec fn kids(self) -> Seq<Node<T>> {
        self.children@
    }

    /// The value reached from this node by the key `r`, read from the end of this node's
    /// own fragment.
    pub open spec fn lookup(self, r: Seq<u8>) -> Option<T>
        decreases self,
    {
        if r.len() == 0 {
            self.stored()
        } else {
            let i = child_with(self.kids(), r[0]);
            if 0 <= i < self.kids().len() && self.kids()[i].fragment().is_prefix_of(r) {
                self.kids()[i].lookup(r.skip(self.kids()[i].fragment().len() as int))
            } else {
                None
            }
        }
    }
}

impl<T> Node<T> {
    /// A non-root node: its fragment is non-empty, it holds a value or has children, and
    /// it does not have a lone child it could absorb.
    pub open spec fn compact(self) -> bool {
        &&& self.fragment().len() > 0
        &&& (self.stored() is Some || self.kids().len() > 0)
        &&& !(self.stored() is None && self.kids().len() == 1 && self.fragment().len()
            + self.kids()[0].fragment().len() < 256)
    }

    /// Well-formedness of the subtree rooted here.
    pub open spec fn wf(self) -> bool
        decreases self,
    {
        &&& self.fragment().len() < 256
        &&& children_sorted(self.kids())
        &&& forall|i: int|
            #![trigger self.kids()[i]]
            0 <= i < self.kids().len() ==> self.kids()[i].compact() && self.kids()[i].wf()
    }
}

/// The value behind an optional reference.
pub open spec fn deref_opt<T>(o: Option<&T>) -> Option<T> {
    match o {
        Some(v) => Some(*v),
        None => None,
    }
}

impl<T> Node<T> {
    /// The value reached by the key `q` read from the start of this node's fragment.
    pub open spec fn reach(self, q: Seq<u8>) -> Option<T> {
        if self.fragment().is_prefix_of(q) {
            self.lookup(q.skip(self.fragment().len() as int))
        } else {
            None
        }
    }

    /// A node with neither a value nor children.
    pub open spec fn bare(self) -> bool {
        self.stored() is None && self.kids().len() == 0
    }
}

pub proof fn lemma_lookup_child<T>(n: Node<T>, q: Seq<u8>, i: int)
    requires
        children_sorted(n.kids()),
        q.len() > 0,
        0 <= i < n.kids().len(),
        n.kids()[i].fragment()[0] == q[0],
    ensures
        n.lookup(q) == n.kids()[i].reach(q),
{
    lemma_child_with(n.kids(), i);
}

pub proof fn lemma_lookup_no_child<T>(n: Node<T>, q: Seq<u8>)
    requires
        q.len() > 0,
        forall|i: int|
            0 <= i < n.kids().len() ==> (#[trigger] n.kids()[i]).fragment().len() == 0
                || n.kids()[i].fragment()[0] != q[0],
    ensures
        n.lookup(q) is None,
{
}

pub proof fn lemma_bare_lookup<T>(n: Node<T>, q: Seq<u8>)
    requires
        n.bare(),
    ensures
        n.lookup(q) is None,
{
}

/// Nodes with the same value and children look up alike, whatever their fragments.
pub proof fn lemma_lookup_same_content<T>(a: Node<T>, b: Node<T>, q: Seq<u8>)
    requires
        a.stored() == b.stored(),
        a.kids() == b.kids(),
    ensures
        a.lookup(q) == b.lookup(q),
{
}

pub proof fn lemma_child_with<T>(cs: Seq<Node<T>>, i: int)
    requires
        children_sorted(cs),
        0 <= i < cs.len(),
    ensures
        child_with(cs, cs[i].fragment()[0]) == i,
{
    let b = cs[i].fragment()[0];
    assert(0 <= i < cs.len() && cs[i].fragment().len() > 0 && cs[i].fragment()[0] == b);
    let j = child_with(cs, b);
    if j != i {
        if j < i {
            assert(cs[j].fragment()[0] < cs[i].fragment()[0]);
        } else {
            assert(cs[i].fragment()[0] < cs[j].fragment()[0]);
        }
    }
}

/// Selects the child that shares a prefix with `key[pos..]`, which must be non-empty.
/// Returns the length of the shared prefix and the child's position; a length of 0 means
/// that no child starts with `key[pos]`, and the position is then where such a child would
/// be inserted.
pub fn select_child<T>(children: &[Node<T>], key: &[u8], pos: usize) -> (r: (usize, usize))
    requires
        children_sorted(children@),
        pos < key@.len(),
    ensures
        r.0 == 0 ==> {
            &&& r.1 <= children@.len()
            &&& child_with(children@, key@[pos as int]) == -1
            &&& forall|i: int|
                0 <= i < r.1 ==> (#[trigger] children@[i]).fragment()[0] < key@[pos as int]
            &&& forall|i: int|
                r.1 <= i < children@.len() ==> (#[trigger] children@[i]).fragment()[0]
                    > key@[pos as int]
        },
        r.0 > 0 ==> {
            let f = children@[r.1 as int].fragment();
            let k = key@.skip(pos as int);
            &&& r.1 < children@.len()
            &&& child_with(children@, key@[pos as int]) == r.1
            &&& r.0 <= f.len()
            &&& r.0 <= k.len()
            &&& f.take(r.0 as int) == k.take(r.0 as int)
            &&& (r.0 == f.len() || r.0 == k.len() || f[r.0 as int] != k[r.0 as int])
        },
{
    let x = key[pos];
    let mut lo: usize = 0;
    let mut hi: usize = children.len();
    while lo < hi
        invariant
            children_sorted(children@),
            0 <= lo <= hi <= children@.len(),
            pos < key@.len(),
            x == key@[pos as int],
            forall|i: int| 0 <= i < lo ==> (#[trigger] children@[i]).fragment()[0] < x,
            forall|i: int| hi <= i < children@.len() ==> (#[trigger] children@[i]).fragment()[0] > x,
        decreases hi - lo,
    {
        let mid = lo + (hi - lo) / 2;
        let b = children[mid].key[0];
        if b < x {
            proof {
                assert forall|i: int| 0 <= i < mid + 1 implies (#[trigger] children@[i]).fragment()[0] < x by {
                    if i < mid {
                        assert(children@[i].fragment()[0] < children@[mid as int].fragment()[0]);
                    }
                }
            }
            lo = mid + 1;
        } else if b > x {
            proof {
                assert forall|i: int| mid <= i < children@.len() implies (#[trigger] children@[i]).fragment()[0] > x by {
                    if i > mid {
                        assert(children@[mid as int].fragment()[0] < children@[i].fragment()[0]);
                    }
                }
            }
            hi = mid;
        } else {
            proof {
                lemma_child_with(children@, mid as int);
            }
            let ck = &children[mid].key;
            let mut n: usize = 1;
            assert(ck@.take(1) =~= key@.skip(pos as int).take(1));
            while n < ck.len() && n < key.len() - pos && ck[n] == key[pos + n]
                invariant
                    1 <= n <= ck@.len(),
                    pos + n <= key@.len(),
                    mid < children@.len(),
                    ck@ == children@[mid as int].fragment(),
                    ck@.take(n as int) == key@.skip(pos as int).take(n as int),
                decreases ck@.len() - n,
            {
                assert(ck@.take(n + 1) =~= ck@.take(n as int).push(ck@[n as int]));
                assert(key@.skip(pos as int).take(n + 1) =~= key@.skip(pos as int).take(n as int).push(key@[pos + n]));
                n = n + 1;
            }
            return (n, mid);
        }
    }
    proof {
        if child_with(children@, x) != -1 {
            let j = child_with(children@, x);
            assert(children@[j].fragment()[0] == x);
        }
    }
    (0, lo)
}


impl<T> Node<T> {
    /// Looks up `key[pos..]` below this node's fragment.
    fn get_at(&self, key: &[u8], pos: usize) -> (r: Option<&T>)
        requires
            self.wf(),
            pos <= key@.len(),
        ensures
            deref_opt(r) == self.lookup(key@.skip(pos as int)),
        decreases key@.len() - pos,
    {
        if pos == key.len() {
            return self.value.as_ref();
        }
        let (common, idx) = select_child(self.children.as_slice(), key, pos);
        if common == 0 {
            proof {
                lemma_lookup_no_child(*self, key@.skip(pos as int));
            }
            return None;
        }
        let ghost q = key@.skip(pos as int);
        proof {
            lemma_lookup_child(*self, q, idx as int);
        }
        let child = &self.children[idx];
        if common < child.key.len() {
            proof {
                let f = child.fragment();
                if f.is_prefix_of(q) {
                    assert(f[common as int] == f.take(f.len() as int)[common as int]);
                    assert(q.take(f.len() as int) =~= f);
                    assert(q[common as int] == f[common as int]);
                }
            }
            return None;
        }
        proof {
            let f = child.fragment();
            assert(f.take(common as int) =~= f);
            assert(q.skip(common as int) =~= key@.skip(pos + common));
        }
        child.get_at(key, pos + common)
    }
}


/// Replacing child `idx` by one with the same first byte whose reachable entries differ at
/// most at `kk` changes the node's entries at most at `kk`.
pub proof fn lemma_replace_child<T>(
    o: Node<T>,
    n: Node<T>,
    idx: int,
    kk: Seq<u8>,
    v: Option<T>,
)
    requires
        children_sorted(o.kids()),
        children_sorted(n.kids()),
        0 <= idx < o.kids().len(),
        n.stored() == o.stored(),
        n.kids().len() == o.kids().len(),
        forall|j: int| 0 <= j < o.kids().len() && j != idx ==> n.kids()[j] == o.kids()[j],
        n.kids()[idx].fragment()[0] == o.kids()[idx].fragment()[0],
        kk.len() > 0,
        kk[0] == o.kids()[idx].fragment()[0],
        forall|q: Seq<u8>|
            #[trigger] n.kids()[idx].reach(q) == if q == kk {
                v
            } else {
                o.kids()[idx].reach(q)
            },
    ensures
        forall|q: Seq<u8>|
            #[trigger] n.lookup(q) == if q == kk {
                v
            } else {
                o.lookup(q)
            },
{
    assert forall|q: Seq<u8>| #[trigger] n.lookup(q) == if q == kk { v } else { o.lookup(q) } by {
        if q.len() > 0 {
            if q[0] == kk[0] {
                lemma_lookup_child(o, q, idx);
                lemma_lookup_child(n, q, idx);
            } else {
                assert(q != kk);
                let j = child_with(o.kids(), q[0]);
                if j >= 0 {
                    lemma_lookup_child(o, q, j);
                    lemma_lookup_child(n, q, j);
                } else {
                    assert forall|i: int| 0 <= i < o.kids().len() implies (#[trigger] o.kids()[i]).fragment().len() == 0
                        || o.kids()[i].fragment()[0] != q[0] by {
                        if o.kids()[i].fragment().len() > 0 && o.kids()[i].fragment()[0] == q[0] {
                            lemma_child_with(o.kids(), i);
                        }
                    }
                    lemma_lookup_no_child(o, q);
                    assert forall|i: int| 0 <= i < n.kids().len() implies (#[trigger] n.kids()[i]).fragment().len() == 0
                        || n.kids()[i].fragment()[0] != q[0] by {
                        if i != idx {
                            assert(n.kids()[i] == o.kids()[i]);
                        }
                    }
                    lemma_lookup_no_child(n, q);
                }
            }
        } else {
            assert(q != kk);
        }
    }
}

/// Adding a child whose first byte no other child has leaves the other entries alone.
pub proof fn lemma_insert_child<T>(o: Node<T>, n: Node<T>, idx: int, c: Node<T>)
    requires
        children_sorted(o.kids()),
        children_sorted(n.kids()),
        0 <= idx <= o.kids().len(),
        n.stored() == o.stored(),
        n.kids() == o.kids().insert(idx, c),
    ensures
        forall|q: Seq<u8>|
            #[trigger] n.lookup(q) == if q.len() > 0 && q[0] == c.fragment()[0] {
                c.reach(q)
            } else {
                o.lookup(q)
            },
        forall|q: Seq<u8>| q.len() > 0 && q[0] == c.fragment()[0] ==> (#[trigger] o.lookup(q)) is None,
{
    o.kids().insert_ensures(idx, c);
    assert(n.kids()[idx] == c);
    assert forall|q: Seq<u8>| q.len() > 0 && q[0] == c.fragment()[0] implies (#[trigger] o.lookup(q)) is None by {
        assert forall|i: int| 0 <= i < o.kids().len() implies (#[trigger] o.kids()[i]).fragment().len() == 0
            || o.kids()[i].fragment()[0] != q[0] by {
            if i < idx {
                assert(n.kids()[i] == o.kids()[i]);
                assert(n.kids()[i].fragment()[0] < n.kids()[idx].fragment()[0]);
            } else {
                assert(n.kids()[i + 1] == o.kids()[i]);
                assert(n.kids()[idx].fragment()[0] < n.kids()[i + 1].fragment()[0]);
            }
        }
        lemma_lookup_no_child(o, q);
    }
    assert forall|q: Seq<u8>|
        #[trigger] n.lookup(q) == if q.len() > 0 && q[0] == c.fragment()[0] {
            c.reach(q)
        } else {
            o.lookup(q)
        } by {
        if q.len() > 0 {
            if q[0] == c.fragment()[0] {
                lemma_lookup_child(n, q, idx);
            } else {
                let j = child_with(o.kids(), q[0]);
                if j >= 0 {
                    lemma_lookup_child(o, q, j);
                    if j < idx {
                        lemma_lookup_child(n, q, j);
                    } else {
                        lemma_lookup_child(n, q, j + 1);
                    }
                } else {
                    assert forall|i: int| 0 <= i < o.kids().len() implies (#[trigger] o.kids()[i]).fragment().len() == 0
                        || o.kids()[i].fragment()[0] != q[0] by {
                        if o.kids()[i].fragment().len() > 0 && o.kids()[i].fragment()[0] == q[0] {
                            lemma_child_with(o.kids(), i);
                        }
                    }
                    lemma_lookup_no_child(o, q);
                    assert forall|i: int| 0 <= i < n.kids().len() implies (#[trigger] n.kids()[i]).fragment().len() == 0
                        || n.kids()[i].fragment()[0] != q[0] by {
                        if i < idx {
                            assert(n.kids()[i] == o.kids()[i]);
                        } else if i > idx {
                            assert(n.kids()[i] == o.kids()[i - 1]);
                        }
                    }
                    lemma_lookup_no_child(n, q);
                }
            }
        }
    }
}

/// Dropping a child that holds nothing leaves the entries alone.
pub proof fn lemma_remove_bare_child<T>(o: Node<T>, n: Node<T>, idx: int)
    requires
        children_sorted(o.kids()),
        0 <= idx < o.kids().len(),
        o.kids()[idx].bare(),
        n.stored() == o.stored(),
        n.kids() == o.kids().remove(idx),
    ensures
        children_sorted(n.kids()),
        forall|q: Seq<u8>| #[trigger] n.lookup(q) == o.lookup(q),
{
    o.kids().remove_ensures(idx);
    assert forall|i: int, j: int| 0 <= i < j < n.kids().len() implies (#[trigger] n.kids()[i]).fragment()[0]
        < (#[trigger] n.kids()[j]).fragment()[0] by {
        let i2 = if i < idx { i } else { i + 1 };
        let j2 = if j < idx { j } else { j + 1 };
        assert(n.kids()[i] == o.kids()[i2]);
        assert(n.kids()[j] == o.kids()[j2]);
    }
    assert forall|i: int| 0 <= i < n.kids().len() implies (#[trigger] n.kids()[i]).fragment().len() > 0 by {
        if i >= idx {
            assert(n.kids()[i] == o.kids()[i + 1]);
        }
    }
    assert(n.kids().insert(idx, o.kids()[idx]) =~= o.kids());
    lemma_insert_child(n, o, idx, o.kids()[idx]);
    assert forall|q: Seq<u8>| #[trigger] n.lookup(q) == o.lookup(q) by {
        if q.len() > 0 && q[0] == o.kids()[idx].fragment()[0] {
            lemma_bare_lookup(o.kids()[idx], q.skip(o.kids()[idx].fragment().len() as int));
        }
    }
}


/// A valueless node with a lone child reaches what the two merged into one node reach.
pub proof fn lemma_merge_reach<T>(c: Node<T>, g: Node<T>, m: Node<T>)
    requires
        c.stored() is None,
        c.kids() == seq![g],
        g.fragment().len() > 0,
        m.fragment() == c.fragment() + g.fragment(),
        m.stored() == g.stored(),
        m.kids() == g.kids(),
    ensures
        forall|q: Seq<u8>| #[trigger] m.reach(q) == c.reach(q),
{
    assert(children_sorted(c.kids()));
    assert forall|q: Seq<u8>| #[trigger] m.reach(q) == c.reach(q) by {
        let cf = c.fragment();
        let gf = g.fragment();
        let mf = m.fragment();
        if cf.is_prefix_of(q) {
            let q1 = q.skip(cf.len() as int);
            if q1.len() > 0 && q1[0] == gf[0] {
                lemma_lookup_child(c, q1, 0);
                if gf.is_prefix_of(q1) {
                    assert(q.take(mf.len() as int) =~= q.take(cf.len() as int) + q1.take(gf.len() as int));
                    assert(mf.is_prefix_of(q));
                    assert(q.skip(mf.len() as int) =~= q1.skip(gf.len() as int));
                    lemma_lookup_same_content(m, g, q1.skip(gf.len() as int));
                } else {
                    if mf.is_prefix_of(q) {
                        assert(q1.take(gf.len() as int) =~= q.take(mf.len() as int).skip(cf.len() as int));
                        assert(mf.skip(cf.len() as int) =~= gf);
                    }
                }
            } else {
                if q1.len() > 0 {
                    assert(g.fragment()[0] != q1[0]);
                    lemma_lookup_no_child(c, q1);
                }
                if mf.is_prefix_of(q) {
                    assert(q[cf.len() as int] == mf[cf.len() as int]);
                    assert(q1[0] == q[cf.len() as int]);
                }
            }
        } else {
            if mf.is_prefix_of(q) {
                assert(q.take(cf.len() as int) =~= q.take(mf.len() as int).take(cf.len() as int));
                assert(mf.take(cf.len() as int) =~= cf);
            }
        }
    }
}

impl<T> Node<T> {
    /// A node with the given fragment, no value and no children.
    pub fn new(key: &[u8]) -> (r: Self)
        requires
            key@.len() < 256,
        ensures
            r.fragment() == key@,
            r.bare(),
            r.wf(),
    {
        Node { key: copy_bytes(key, 0, key.len()), value: None, children: Vec::new() }
    }

    /// A node with the given fragment and value and no children.
    pub fn new_with_value(key: &[u8], value: T) -> (r: Self)
        requires
            key@.len() < 256,
        ensures
            r.fragment() == key@,
            r.stored() == Some(value),
            r.kids().len() == 0,
            r.wf(),
    {
        Node { key: copy_bytes(key, 0, key.len()), value: Some(value), children: Vec::new() }
    }

    /// The fragment on the edge into this node.
    pub fn key(&self) -> (r: &[u8])
        ensures
            r@ == self.fragment(),
    {
        self.key.as_slice()
    }

    /// The value stored at this node.
    pub fn value(&self) -> (r: Option<&T>)
        ensures
            deref_opt(r) == self.stored(),
    {
        self.value.as_ref()
    }

    /// The children of this node, in order.
    pub fn children(&self) -> (r: &[Node<T>])
        ensures
            r@ == self.kids(),
    {
        self.children.as_slice()
    }

    /// True when the node has neither a value nor children.
    pub fn is_empty(&self) -> (r: bool)
        ensures
            r == self.bare(),
    {
        self.value.is_none() && self.children.len() == 0
    }

    /// Moves the value out, leaving none.
    pub fn take_value(&mut self) -> (r: Option<T>)
        ensures
            r == old(self).stored(),
            final(self).stored() is None,
            final(self).fragment() == old(self).fragment(),
            final(self).kids() == old(self).kids(),
    {
        let mut v: Option<T> = None;
        std::mem::swap(&mut self.value, &mut v);
        v
    }

    /// Stores `value`, returning the value stored before.
    pub fn replace_value(&mut self, value: T) -> (r: Option<T>)
        ensures
            r == old(self).stored(),
            final(self).stored() == Some(value),
            final(self).fragment() == old(self).fragment(),
            final(self).kids() == old(self).kids(),
    {
        let mut v: Option<T> = Some(value);
        std::mem::swap(&mut self.value, &mut v);
        v
    }

    /// Drops the first `n` bytes of the fragment.
    fn strip_key_prefix(&mut self, n: usize)
        requires
            n <= old(self).fragment().len(),
        ensures
            final(self).fragment() == old(self).fragment().skip(n as int),
            final(self).stored() == old(self).stored(),
            final(self).kids() == old(self).kids(),
    {
        let len = self.key.len();
        self.key = copy_bytes(self.key.as_slice(), n, len);
    }

    /// Appends `suffix` to the fragment.
    fn extend_key(&mut self, suffix: &[u8])
        requires
            old(self).fragment().len() + suffix@.len() < 256,
        ensures
            final(self).fragment() == old(self).fragment() + suffix@,
            final(self).stored() == old(self).stored(),
            final(self).kids() == old(self).kids(),
    {
        let mut i: usize = 0;
        while i < suffix.len()
            invariant
                0 <= i <= suffix@.len(),
                self.fragment() == old(self).fragment() + suffix@.take(i as int),
                self.stored() == old(self).stored(),
                self.kids() == old(self).kids(),
            decreases suffix@.len() - i,
        {
            self.key.push(suffix[i]);
            assert(suffix@.take(i + 1) =~= suffix@.take(i as int).push(suffix@[i as int]));
            i = i + 1;
        }
        assert(suffix@.take(i as int) =~= suffix@);
    }

    /// Inserts `node` as the child at position `idx`.
    fn insert_child(&mut self, idx: usize, node: Node<T>)
        requires
            idx <= old(self).kids().len(),
        ensures
            final(self).kids() == old(self).kids().insert(idx as int, node),
            final(self).fragment() == old(self).fragment(),
            final(self).stored() == old(self).stored(),
    {
        self.children.insert(idx, node);
    }

    /// Appends `node` as the last child.
    pub fn push_child(&mut self, node: Node<T>)
        ensures
            final(self).kids() == old(self).kids().push(node),
            final(self).fragment() == old(self).fragment(),
            final(self).stored() == old(self).stored(),
    {
        self.children.push(node);
    }

    /// Removes and returns the child at position `idx`.
    fn remove_child(&mut self, idx: usize) -> (r: Node<T>)
        requires
            idx < old(self).kids().len(),
        ensures
            r == old(self).kids()[idx as int],
            final(self).kids() == old(self).kids().remove(idx as int),
            final(self).fragment() == old(self).fragment(),
            final(self).stored() == old(self).stored(),
    {
        self.children.remove(idx)
    }

    /// Takes over the children of `donor`; this node has none.
    fn move_children(&mut self, donor: Node<T>)
        requires
            old(self).kids().len() == 0,
        ensures
            final(self).kids() == donor.kids(),
            final(self).fragment() == old(self).fragment(),
            final(self).stored() == old(self).stored(),
    {
        self.children = donor.children;
    }

    /// Absorbs the lone child of a valueless node into it.
    fn absorb_only_child(&mut self)
        requires
            old(self).stored() is None,
            old(self).kids().len() == 1,
            old(self).fragment().len() + old(self).kids()[0].fragment().len() < 256,
        ensures
            final(self).fragment() == old(self).fragment() + old(self).kids()[0].fragment(),
            final(self).stored() == old(self).kids()[0].stored(),
            final(self).kids() == old(self).kids()[0].kids(),
    {
        let mut g = self.remove_child(0);
        self.extend_key(g.key.as_slice());
        match g.take_value() {
            Some(v) => {
                self.replace_value(v);
            },
            None => {},
        }
        self.move_children(g);
    }
}


/// Entries of a node whose entry at `kk[f..]` below its fragment `f` became `v`, seen from
/// above it.
pub proof fn lemma_reach_after_update<T>(c: Node<T>, c2: Node<T>, kk: Seq<u8>, v: Option<T>)
    requires
        c2.fragment() == c.fragment(),
        c.fragment().is_prefix_of(kk),
        forall|x: Seq<u8>|
            #[trigger] c2.lookup(x) == if x == kk.skip(c.fragment().len() as int) {
                v
            } else {
                c.lookup(x)
            },
    ensures
        forall|q: Seq<u8>|
            #[trigger] c2.reach(q) == if q == kk {
                v
            } else {
                c.reach(q)
            },
{
    let f = c.fragment();
    assert forall|q: Seq<u8>|
        #[trigger] c2.reach(q) == if q == kk {
            v
        } else {
            c.reach(q)
        } by {
        if f.is_prefix_of(q) {
            if q.skip(f.len() as int) == kk.skip(f.len() as int) {
                assert(q =~= q.take(f.len() as int) + q.skip(f.len() as int));
                assert(kk =~= kk.take(f.len() as int) + kk.skip(f.len() as int));
            }
        }
    }
}

impl<T> Node<T> {
    /// Restores the shape rules at child `idx` after it changed: a child left with nothing is
    /// dropped, and a valueless child with a lone child absorbs it when the fragments fit.
    fn fix_child(&mut self, idx: usize)
        requires
            old(self).fragment().len() < 256,
            children_sorted(old(self).kids()),
            idx < old(self).kids().len(),
            old(self).kids()[idx as int].wf(),
            forall|i: int|
                #![trigger old(self).kids()[i]]
                0 <= i < old(self).kids().len() && i != idx ==> old(self).kids()[i].compact()
                    && old(self).kids()[i].wf(),
        ensures
            final(self).wf(),
            final(self).fragment() == old(self).fragment(),
            final(self).stored() == old(self).stored(),
            forall|q: Seq<u8>| #[trigger] final(self).lookup(q) == old(self).lookup(q),
    {
        let ghost o = *self;
        let n = self.children[idx].children.len();
        if self.children[idx].value.is_none() && n == 0 {
            let _ = self.remove_child(idx);
            proof {
                lemma_remove_bare_child(o, *self, idx as int);
                o.kids().remove_ensures(idx as int);
                assert forall|i: int|
                    #![trigger self.kids()[i]]
                    0 <= i < self.kids().len() implies self.kids()[i].compact() && self.kids()[i].wf() by {
                    if i >= idx {
                        assert(self.kids()[i] == o.kids()[i + 1]);
                    }
                }
            }
        } else if self.children[idx].value.is_none() && n == 1 && self.children[idx].key.len() < 256
            && self.children[idx].children[0].key.len() < 256 - self.children[idx].key.len() {
            let mut c = self.remove_child(idx);
            let ghost c0 = c;
            c.absorb_only_child();
            self.insert_child(idx, c);
            proof {
                let g = c0.kids()[0];
                assert(c0.kids() =~= seq![g]);
                assert(c0.wf());
                lemma_merge_reach(c0, g, c);
                assert(self.kids() =~= o.kids().update(idx as int, c));
                assert(c.fragment()[0] == c0.fragment()[0]);
                assert forall|i: int, j: int| 0 <= i < j < self.kids().len() implies (#[trigger] self.kids()[i]).fragment()[0]
                    < (#[trigger] self.kids()[j]).fragment()[0] by {
                    assert(o.kids()[i].fragment()[0] < o.kids()[j].fragment()[0]);
                }
                let kk = c0.fragment();
                lemma_replace_child(o, *self, idx as int, kk, c0.reach(kk));
                assert(g.compact() && g.wf());
                assert forall|i: int|
                    #![trigger c.kids()[i]]
                    0 <= i < c.kids().len() implies c.kids()[i].compact() && c.kids()[i].wf() by {
                    assert(g.kids()[i].compact());
                }
                assert(c.wf());
                assert(c.compact());
            }
        } else {
            proof {
                assert(o.kids()[idx as int].compact());
            }
        }
    }

    /// Stores `value` under `key[pos..]` below this node's fragment, returning the value
    /// stored there before.
    #[verifier::rlimit(40)]
    fn insert_at(&mut self, key: &[u8], pos: usize, value: T) -> (r: Option<T>)
        requires
            old(self).wf(),
            pos <= key@.len(),
        ensures
            final(self).wf(),
            final(self).fragment() == old(self).fragment(),
            r == old(self).lookup(key@.skip(pos as int)),
            forall|q: Seq<u8>|
                #[trigger] final(self).lookup(q) == if q == key@.skip(pos as int) {
                    Some(value)
                } else {
                    old(self).lookup(q)
                },
        decreases key@.len() - pos,
    {
        let ghost o = *self;
        let ghost kk = key@.skip(pos as int);
        if pos == key.len() {
            let r = self.replace_value(value);
            proof {
                assert forall|q: Seq<u8>|
                    #[trigger] self.lookup(q) == if q == kk {
                        Some(value)
                    } else {
                        o.lookup(q)
                    } by {
                    if q.len() == 0 {
                        assert(q =~= kk);
                    }
                }
            }
            return r;
        }
        let (common, idx) = select_child(self.children.as_slice(), key, pos);
        if common == 0 {
            let c = if key.len() - pos > 255 {
                let mut c = Node { key: copy_bytes(key, pos, pos + 255), value: None, children: Vec::new() };
                let ghost c0 = c;
                let _ = c.insert_at(key, pos + 255, value);
                proof {
                    assert(c0.fragment() =~= kk.take(255));
                    assert(key@.skip(pos + 255) =~= kk.skip(255));
                    lemma_reach_after_update(c0, c, kk, Some(value));
                    assert forall|q: Seq<u8>| #[trigger] c0.reach(q) is None by {
                        lemma_bare_lookup(c0, q.skip(255));
                    }
                }
                c
            } else {
                let c = Node { key: copy_bytes(key, pos, key.len()), value: Some(value), children: Vec::new() };
                proof {
                    assert(c.fragment() =~= kk);
                    assert forall|q: Seq<u8>|
                        #[trigger] c.reach(q) == if q == kk {
                            Some(value)
                        } else {
                            None
                        } by {
                        if kk.is_prefix_of(q) {
                            let x = q.skip(kk.len() as int);
                            if x.len() > 0 {
                                lemma_lookup_no_child(c, x);
                                assert(q != kk);
                            } else {
                                assert(q =~= kk);
                            }
                        }
                    }
                }
                c
            };
            let ghost cc = c;
            self.insert_child(idx, c);
            proof {
                let n = *self;
                o.kids().insert_ensures(idx as int, cc);
                assert(cc.fragment()[0] == kk[0]);
                assert forall|i: int, j: int| 0 <= i < j < n.kids().len() implies (#[trigger] n.kids()[i]).fragment()[0]
                    < (#[trigger] n.kids()[j]).fragment()[0] by {
                    if j < idx {
                    } else if i > idx {
                        assert(n.kids()[i] == o.kids()[i - 1]);
                        assert(n.kids()[j] == o.kids()[j - 1]);
                    } else if i == idx {
                        assert(n.kids()[j] == o.kids()[j - 1]);
                    } else if j == idx {
                    } else {
                        assert(n.kids()[j] == o.kids()[j - 1]);
                    }
                }
                assert forall|i: int| 0 <= i < n.kids().len() implies (#[trigger] n.kids()[i]).fragment().len() > 0 by {
                    if i > idx {
                        assert(n.kids()[i] == o.kids()[i - 1]);
                    }
                }
                lemma_insert_child(o, n, idx as int, cc);
                assert(o.lookup(kk) is None);
                assert forall|q: Seq<u8>|
                    #[trigger] n.lookup(q) == if q == kk {
                        Some(value)
                    } else {
                        o.lookup(q)
                    } by {
                    if q.len() > 0 && q[0] == kk[0] {
                    }
                }
                assert forall|i: int|
                    #![trigger n.kids()[i]]
                    0 <= i < n.kids().len() && i != idx implies n.kids()[i].compact() && n.kids()[i].wf() by {
                    if i > idx {
                        assert(n.kids()[i] == o.kids()[i - 1]);
                    }
                }
            }
            self.fix_child(idx);
            return None;
        }
        let ghost c0 = self.children@[idx as int];
        proof {
            lemma_lookup_child(o, kk, idx as int);
            assert(c0.compact() && c0.wf());
        }
        let mut c = self.remove_child(idx);
        let r;
        if common == c.key.len() {
            proof {
                assert(c0.fragment().take(common as int) =~= c0.fragment());
                assert(c0.fragment().is_prefix_of(kk));
                assert(key@.skip(pos + common) =~= kk.skip(common as int));
            }
            r = c.insert_at(key, pos + common, value);
            proof {
                lemma_reach_after_update(c0, c, kk, Some(value));
            }
        } else {
            let ghost f = c0.fragment();
            c.strip_key_prefix(common);
            let mut mid = Node { key: copy_bytes(key, pos, pos + common), value: None, children: Vec::new() };
            let ghost cs = c;
            mid.push_child(c);
            proof {
                assert(mid.fragment() =~= f.take(common as int));
                assert(mid.fragment() + cs.fragment() =~= f);
                assert(mid.kids() =~= seq![cs]);
                lemma_merge_reach(mid, cs, c0);
                lemma_lookup_same_content(cs, c0, Seq::empty());
                assert(children_sorted(mid.kids()));
                assert(cs.wf()) by {
                    assert(cs.kids() == c0.kids());
                }
            }
            let ghost m0 = mid;
            mid.fix_child(0);
            let ghost m1 = mid;
            proof {
                assert(m1.fragment().is_prefix_of(kk));
                assert(key@.skip(pos + common) =~= kk.skip(common as int));
                assert forall|q: Seq<u8>| #[trigger] m1.reach(q) == c0.reach(q) by {
                    assert(m1.reach(q) == m0.reach(q));
                }
            }
            r = mid.insert_at(key, pos + common, value);
            proof {
                lemma_reach_after_update(m1, mid, kk, Some(value));
            }
            c = mid;
        }
        let ghost cn = c;
        self.insert_child(idx, c);
        proof {
            let n = *self;
            assert(n.kids() =~= o.kids().update(idx as int, cn));
            assert(cn.fragment()[0] == c0.fragment()[0]);
            assert forall|i: int, j: int| 0 <= i < j < n.kids().len() implies (#[trigger] n.kids()[i]).fragment()[0]
                < (#[trigger] n.kids()[j]).fragment()[0] by {
                assert(o.kids()[i].fragment()[0] < o.kids()[j].fragment()[0]);
            }
            lemma_replace_child(o, n, idx as int, kk, Some(value));
        }
        self.fix_child(idx);
        r
    }
}


impl<T> Node<T> {
    /// Removes the value stored under `key[pos..]` below this node's fragment, returning it.
    fn remove_at(&mut self, key: &[u8], pos: usize) -> (r: Option<T>)
        requires
            old(self).wf(),
            pos <= key@.len(),
        ensures
            final(self).wf(),
            final(self).fragment() == old(self).fragment(),
            r == old(self).lookup(key@.skip(pos as int)),
            forall|q: Seq<u8>|
                #[trigger] final(self).lookup(q) == if q == key@.skip(pos as int) {
                    None
                } else {
                    old(self).lookup(q)
                },
        decreases key@.len() - pos,
    {
        let ghost o = *self;
        let ghost kk = key@.skip(pos as int);
        if pos == key.len() {
            let r = self.take_value();
            proof {
                assert forall|q: Seq<u8>|
                    #[trigger] self.lookup(q) == if q == kk {
                        None
                    } else {
                        o.lookup(q)
                    } by {
                    if q.len() == 0 {
                        assert(q =~= kk);
                    }
                }
            }
            return r;
        }
        let (common, idx) = select_child(self.children.as_slice(), key, pos);
        if common == 0 {
            proof {
                lemma_lookup_no_child(o, kk);
            }
            return None;
        }
        let ghost c0 = self.children@[idx as int];
        proof {
            lemma_lookup_child(o, kk, idx as int);
        }
        if common < self.children[idx].key.len() {
            proof {
                let f = c0.fragment();
                if f.is_prefix_of(kk) {
                    assert(f[common as int] == f.take(f.len() as int)[common as int]);
                    assert(kk.take(f.len() as int) =~= f);
                    assert(kk[common as int] == f[common as int]);
                }
                assert forall|q: Seq<u8>|
                    #[trigger] self.lookup(q) == if q == kk {
                        None
                    } else {
                        o.lookup(q)
                    } by {
                }
            }
            return None;
        }
        let mut c = self.remove_child(idx);
        proof {
            assert(c0.fragment().take(common as int) =~= c0.fragment());
            assert(key@.skip(pos + common) =~= kk.skip(common as int));
            assert(c0.compact() && c0.wf());
        }
        let r = c.remove_at(key, pos + common);
        proof {
            lemma_reach_after_update(c0, c, kk, None);
        }
        let ghost cn = c;
        self.insert_child(idx, c);
        proof {
            let n = *self;
            assert(n.kids() =~= o.kids().update(idx as int, cn));
            assert(cn.fragment()[0] == c0.fragment()[0]);
            assert forall|i: int, j: int| 0 <= i < j < n.kids().len() implies (#[trigger] n.kids()[i]).fragment()[0]
                < (#[trigger] n.kids()[j]).fragment()[0] by {
                assert(o.kids()[i].fragment()[0] < o.kids()[j].fragment()[0]);
            }
            lemma_replace_child(o, n, idx as int, kk, None);
        }
        self.fix_child(idx);
        r
    }
}


/// `s` lists, in ascending key order, every entry below `n` with its key prefixed by `p`.
pub open spec fn lists_entries<T>(s: Seq<(Vec<u8>, &T)>, n: Node<T>, p: Seq<u8>) -> bool {
    &&& forall|i: int, j: int| 0 <= i < j < s.len() ==> lex_lt(#[trigger] s[i].0@, #[trigger] s[j].0@)
    &&& forall|i: int|
        0 <= i < s.len() ==> p.is_prefix_of(#[trigger] s[i].0@) && n.lookup(s[i].0@.skip(p.len() as int))
            == Some(*s[i].1)
    &&& forall|x: Seq<u8>|
        (#[trigger] n.lookup(x)) is Some ==> exists|i: int| 0 <= i < s.len() && s[i].0@ == p + x
}

impl<T> Node<T> {
    /// Finds the node whose subtree holds exactly the entries under `p[pos..]`. Returns the
    /// position in `p` where that node's fragment starts, and the node; the fragment
    /// extends the rest of `p`.
    pub(crate) fn find_prefix_at(&self, p: &[u8], pos: usize) -> (r: Option<(usize, &Node<T>)>)
        requires
            self.wf(),
            pos < p@.len(),
        ensures
            match r {
                Some((k, n)) => {
                    &&& pos <= k <= p@.len()
                    &&& n.wf()
                    &&& p@.skip(k as int).is_prefix_of(n.fragment())
                    &&& forall|q: Seq<u8>|
                        p@.skip(pos as int).is_prefix_of(q) ==> #[trigger] self.lookup(q) == n.reach(
                            q.skip(k - pos),
                        )
                },
                None => forall|q: Seq<u8>|
                    p@.skip(pos as int).is_prefix_of(q) ==> (#[trigger] self.lookup(q)) is None,
            },
        decreases p@.len() - pos,
    {
        let ghost kk = p@.skip(pos as int);
        let (common, idx) = select_child(self.children.as_slice(), p, pos);
        if common == 0 {
            proof {
                assert forall|q: Seq<u8>| kk.is_prefix_of(q) implies (#[trigger] self.lookup(q)) is None by {
                    assert(q[0] == kk[0]);
                    assert forall|i: int| 0 <= i < self.kids().len() implies (#[trigger] self.kids()[i]).fragment().len() == 0
                        || self.kids()[i].fragment()[0] != q[0] by {
                        if self.kids()[i].fragment()[0] == q[0] {
                            lemma_child_with(self.kids(), i);
                        }
                    }
                    lemma_lookup_no_child(*self, q);
                }
            }
            return None;
        }
        let c = &self.children[idx];
        let ghost f = c.fragment();
        proof {
            assert forall|q: Seq<u8>| kk.is_prefix_of(q) implies #[trigger] self.lookup(q) == c.reach(q) by {
                assert(q[0] == kk[0]);
                lemma_lookup_child(*self, q, idx as int);
            }
        }
        if common == p.len() - pos {
            proof {
                assert(kk =~= kk.take(common as int));
                assert(kk.is_prefix_of(f));
                assert forall|q: Seq<u8>| kk.is_prefix_of(q) implies #[trigger] self.lookup(q) == c.reach(q.skip(0)) by {
                    assert(q.skip(0) =~= q);
                }
            }
            return Some((pos, c));
        }
        if common < c.key.len() {
            proof {
                assert forall|q: Seq<u8>| kk.is_prefix_of(q) implies (#[trigger] self.lookup(q)) is None by {
                    if f.is_prefix_of(q) {
                        assert(q[common as int] == kk[common as int]);
                        assert(q[common as int] == f[common as int]);
                    }
                }
            }
            return None;
        }
        let r = c.find_prefix_at(p, pos + common);
        proof {
            assert(f.take(common as int) =~= f);
            assert(p@.skip(pos + common) =~= kk.skip(common as int));
            match r {
                Some((k, n)) => {
                    assert forall|q: Seq<u8>| kk.is_prefix_of(q) implies #[trigger] self.lookup(q) == n.reach(q.skip(k - pos)) by {
                        let q1 = q.skip(common as int);
                        assert(f.is_prefix_of(q));
                        assert(p@.skip(pos + common).is_prefix_of(q1));
                        assert(c.lookup(q1) == n.reach(q1.skip(k - pos - common)));
                        assert(q1.skip(k - pos - common) =~= q.skip(k - pos));
                    }
                },
                None => {
                    assert forall|q: Seq<u8>| kk.is_prefix_of(q) implies (#[trigger] self.lookup(q)) is None by {
                        let q1 = q.skip(common as int);
                        assert(f.is_prefix_of(q));
                        assert(p@.skip(pos + common).is_prefix_of(q1));
                        assert(c.lookup(q1) is None);
                    }
                },
            }
        }
        r
    }

    /// Appends to `out`, in ascending key order, every entry of this subtree, with keys
    /// prefixed by `prefix` and this node's fragment.
    pub(crate) fn collect_entries<'a>(&'a self, prefix: &mut Vec<u8>, out: &mut Vec<(Vec<u8>, &'a T)>)
        requires
            self.wf(),
        ensures
            final(prefix)@ == old(prefix)@,
            final(out)@.len() >= old(out)@.len(),
            final(out)@.take(old(out)@.len() as int) == old(out)@,
            lists_entries(
                final(out)@.skip(old(out)@.len() as int),
                *self,
                old(prefix)@ + self.fragment(),
            ),
        decreases self,
    {
        let ghost out0 = out@;
        let base = prefix.len();
        let mut i: usize = 0;
        while i < self.key.len()
            invariant
                0 <= i <= self.key@.len(),
                base == old(prefix)@.len(),
                prefix@ == old(prefix)@ + self.key@.take(i as int),
            decreases self.key@.len() - i,
        {
            prefix.push(self.key[i]);
            assert(self.key@.take(i + 1) =~= self.key@.take(i as int).push(self.key@[i as int]));
            i = i + 1;
        }
        let ghost pp = prefix@;
        assert(pp =~= old(prefix)@ + self.fragment());
        match self.value.as_ref() {
            Some(v) => {
                out.push((copy_bytes(prefix.as_slice(), 0, prefix.len()), v));
                proof {
                    assert(pp.subrange(0, pp.len() as int) =~= pp);
                    assert(out@.skip(out0.len() as int)[0] == out@[out0.len() as int]);
                    assert(out@.skip(out0.len() as int).len() == 1);
                }
            },
            None => {},
        }
        proof {
            lemma_collect_start(*self, pp, out@.skip(out0.len() as int));
            assert(out@ =~= out0 + out@.skip(out0.len() as int));
        }
        let mut i: usize = 0;
        while i < self.children.len()
            invariant
                self.wf(),
                0 <= i <= self.kids().len(),
                prefix@ == pp,
                out@.len() >= out0.len(),
                out@ == out0 + out@.skip(out0.len() as int),
                collect_inv(*self, pp, out@.skip(out0.len() as int), i as int),
            decreases self.kids().len() - i,
        {
            let ghost out1 = out@;
            let child = &self.children[i];
            child.collect_entries(prefix, out);
            proof {
                let b1 = out1.skip(out0.len() as int);
                let cb = out@.skip(out1.len() as int);
                assert(out@ =~= out1 + cb);
                lemma_collect_step(*self, pp, b1, cb, i as int);
                assert(out@.skip(out0.len() as int) =~= b1 + cb);
                assert(out@ =~= out0 + out@.skip(out0.len() as int));
            }
            i = i + 1;
        }
        prefix.truncate(base);
        proof {
            assert(prefix@ =~= old(prefix)@);
            lemma_collect_finish(*self, pp, out@.skip(out0.len() as int));
            assert(out@.take(out0.len() as int) =~= out0);
        }
    }
}

/// What the traversal of `n` has produced once its value and its first `i` children are
/// listed.
pub open spec fn collect_inv<T>(n: Node<T>, pp: Seq<u8>, b: Seq<(Vec<u8>, &T)>, i: int) -> bool {
    &&& forall|a: int, c: int| 0 <= a < c < b.len() ==> lex_lt(#[trigger] b[a].0@, #[trigger] b[c].0@)
    &&& forall|a: int|
        0 <= a < b.len() ==> pp.is_prefix_of(#[trigger] b[a].0@) && n.lookup(
            b[a].0@.skip(pp.len() as int),
        ) == Some(*b[a].1)
    &&& forall|a: int, c: int|
        0 <= a < b.len() && i <= c < n.kids().len() && (#[trigger] b[a]).0@.len() > pp.len()
            ==> b[a].0@[pp.len() as int] < (#[trigger] n.kids()[c]).fragment()[0]
    &&& forall|x: Seq<u8>|
        (#[trigger] n.lookup(x)) is Some && (x.len() == 0 || child_with(n.kids(), x[0]) < i)
            ==> exists|j: int| 0 <= j < b.len() && b[j].0@ == pp + x
}

pub proof fn lemma_collect_start<T>(n: Node<T>, pp: Seq<u8>, b: Seq<(Vec<u8>, &T)>)
    requires
        n.stored() is None ==> b.len() == 0,
        n.stored() is Some ==> b.len() == 1 && b[0].0@ == pp && Some(*b[0].1) == n.stored(),
    ensures
        collect_inv(n, pp, b, 0),
{
    if b.len() == 1 {
        assert(pp.is_prefix_of(b[0].0@)) by {
            assert(pp.subrange(0, pp.len() as int) =~= pp);
        }
        assert(pp.skip(pp.len() as int) =~= Seq::<u8>::empty());
    }
    assert forall|x: Seq<u8>|
        (#[trigger] n.lookup(x)) is Some && (x.len() == 0 || child_with(n.kids(), x[0]) < 0)
        implies exists|j: int| 0 <= j < b.len() && b[j].0@ == pp + x by {
        if x.len() == 0 {
            assert(pp + x =~= pp);
            assert(b[0].0@ == pp + x);
        } else {
            assert(child_with(n.kids(), x[0]) == -1);
        }
    }
}

#[verifier::rlimit(40)]
pub proof fn lemma_collect_step<T>(
    n: Node<T>,
    pp: Seq<u8>,
    b: Seq<(Vec<u8>, &T)>,
    cb: Seq<(Vec<u8>, &T)>,
    i: int,
)
    requires
        n.wf(),
        0 <= i < n.kids().len(),
        collect_inv(n, pp, b, i),
        lists_entries(cb, n.kids()[i], pp + n.kids()[i].fragment()),
    ensures
        collect_inv(n, pp, b + cb, i + 1),
{
    let child = n.kids()[i];
    let cf = child.fragment();
    let pc = pp + cf;
    let bb = b + cb;
    assert(child.compact());
    assert forall|a: int| 0 <= a < cb.len() implies pp.is_prefix_of(#[trigger] cb[a].0@) && n.lookup(
            cb[a].0@.skip(pp.len() as int)) == Some(*cb[a].1) && cb[a].0@.len() > pp.len()
            && cb[a].0@[pp.len() as int] == cf[0] by {
        let key = cb[a].0@;
        let y = key.skip(pp.len() as int);
        assert(pc.is_prefix_of(key));
        assert(key.take(pc.len() as int) =~= pc);
        assert(key.take(pp.len() as int) =~= pc.take(pp.len() as int));
        assert(pc.take(pp.len() as int) =~= pp);
        assert(key[pp.len() as int] == pc[pp.len() as int]);
        assert(y[0] == cf[0]);
        lemma_lookup_child(n, y, i);
        assert(y.take(cf.len() as int) =~= key.subrange(pp.len() as int, pc.len() as int));
        assert(key.subrange(pp.len() as int, pc.len() as int) =~= pc.subrange(pp.len() as int, pc.len() as int));
        assert(pc.subrange(pp.len() as int, pc.len() as int) =~= cf);
        assert(y.skip(cf.len() as int) =~= key.skip(pc.len() as int));
    }
    assert forall|a: int, c: int| 0 <= a < c < bb.len() implies lex_lt(#[trigger] bb[a].0@, #[trigger] bb[c].0@) by {
        if c >= b.len() {
            if a >= b.len() {
                assert(bb[a] == cb[a - b.len()]);
                assert(bb[c] == cb[c - b.len()]);
            } else {
                let ka = b[a].0@;
                let kb = cb[c - b.len()].0@;
                assert(bb[a] == b[a]);
                assert(bb[c] == cb[c - b.len()]);
                assert(ka.take(pp.len() as int) =~= pp);
                assert(kb.take(pp.len() as int) =~= pp);
                if ka.len() > pp.len() {
                    assert(ka[pp.len() as int] < n.kids()[i].fragment()[0]);
                    lemma_lex_first_difference(ka, kb, pp.len() as int);
                } else {
                    assert(ka =~= pp);
                    lemma_lex_proper_prefix(ka, kb);
                }
            }
        } else {
            assert(bb[a] == b[a]);
            assert(bb[c] == b[c]);
        }
    }
    assert forall|a: int| 0 <= a < bb.len() implies pp.is_prefix_of(#[trigger] bb[a].0@) && n.lookup(
            bb[a].0@.skip(pp.len() as int)) == Some(*bb[a].1) by {
        if a >= b.len() {
            assert(bb[a] == cb[a - b.len()]);
        } else {
            assert(bb[a] == b[a]);
        }
    }
    assert forall|a: int, c: int|
        0 <= a < bb.len() && i + 1 <= c < n.kids().len() && (#[trigger] bb[a]).0@.len() > pp.len()
        implies bb[a].0@[pp.len() as int] < (#[trigger] n.kids()[c]).fragment()[0] by {
        assert(n.kids()[i].fragment()[0] < n.kids()[c].fragment()[0]);
        if a >= b.len() {
            assert(bb[a] == cb[a - b.len()]);
        } else {
            assert(bb[a] == b[a]);
        }
    }
    assert forall|x: Seq<u8>|
        (#[trigger] n.lookup(x)) is Some && (x.len() == 0 || child_with(n.kids(), x[0]) < i + 1)
        implies exists|j: int| 0 <= j < bb.len() && bb[j].0@ == pp + x by {
        if x.len() > 0 && child_with(n.kids(), x[0]) == i {
            lemma_lookup_child(n, x, i);
            let x1 = x.skip(cf.len() as int);
            assert(child.lookup(x1) is Some);
            let j = choose|j: int| 0 <= j < cb.len() && cb[j].0@ == pc + x1;
            assert(bb[b.len() + j] == cb[j]);
            assert(pc + x1 =~= pp + x);
        } else {
            let j = choose|j: int| 0 <= j < b.len() && b[j].0@ == pp + x;
            assert(bb[j] == b[j]);
        }
    }
}

pub proof fn lemma_collect_finish<T>(n: Node<T>, pp: Seq<u8>, b: Seq<(Vec<u8>, &T)>)
    requires
        collect_inv(n, pp, b, n.kids().len() as int),
    ensures
        lists_entries(b, n, pp),
{
    assert forall|x: Seq<u8>| (#[trigger] n.lookup(x)) is Some implies exists|j: int| 0 <= j < b.len() && b[j].0@ == pp + x by {
        if x.len() > 0 {
            let cw = child_with(n.kids(), x[0]);
            assert(cw < n.kids().len());
        }
    }
}


impl<T> Node<T> {
    /// The entries below this node's fragment, keyed by the rest of their keys.
    pub open spec fn entries(self) -> Map<Seq<u8>, T> {
        Map::new(
            |k: Seq<u8>| self.lookup(k) is Some,
            |k: Seq<u8>|
                match self.lookup(k) {
                    Some(v) => v,
                    None => arbitrary(),
                },
        )
    }

    /// Stores `value` under `key` below this node, returning the value stored there before.
    pub fn insert(&mut self, key: &[u8], value: T) -> (r: Option<T>)
        requires
            old(self).wf(),
        ensures
            final(self).wf(),
            final(self).fragment() == old(self).fragment(),
            r == old(self).entries().get(key@),
            final(self).entries() == old(self).entries().insert(key@, value),
    {
        proof {
            assert(key@.skip(0) =~= key@);
        }
        let r = self.insert_at(key, 0, value);
        proof {
            assert(self.entries() =~= old(self).entries().insert(key@, value));
        }
        r
    }

    /// Removes the value stored under `key` below this node, returning it.
    pub fn remove(&mut self, key: &[u8]) -> (r: Option<T>)
        requires
            old(self).wf(),
        ensures
            final(self).wf(),
            final(self).fragment() == old(self).fragment(),
            r == old(self).entries().get(key@),
            final(self).entries() == old(self).entries().remove(key@),
    {
        proof {
            assert(key@.skip(0) =~= key@);
        }
        let r = self.remove_at(key, 0);
        proof {
            assert(self.entries() =~= old(self).entries().remove(key@));
        }
        r
    }

    /// The value stored under `key` below this node.
    pub fn get(&self, key: &[u8]) -> (r: Option<&T>)
        requires
            self.wf(),
        ensures
            deref_opt(r) == self.entries().get(key@),
    {
        proof {
            assert(key@.skip(0) =~= key@);
        }
        self.get_at(key, 0)
    }

    /// Finds the node whose subtree holds exactly the entries below this node whose keys
    /// start with `prefix`, which must be non-empty. Returns how many bytes of `prefix` lie
    /// on the edges above that node, and the node; its fragment extends the rest of
    /// `prefix`.
    pub fn find_prefix(&self, prefix: &[u8]) -> (r: Option<(usize, &Node<T>)>)
        requires
            self.wf(),
            prefix@.len() > 0,
        ensures
            match r {
                Some((k, n)) => {
                    &&& k <= prefix@.len()
                    &&& n.wf()
                    &&& prefix@.skip(k as int).is_prefix_of(n.fragment())
                    &&& forall|q: Seq<u8>|
                        prefix@.is_prefix_of(q) ==> #[trigger] self.lookup(q) == n.reach(q.skip(k as int))
                },
                None => forall|q: Seq<u8>|
                    prefix@.is_prefix_of(q) ==> (#[trigger] self.lookup(q)) is None,
            },
    {
        proof {
            assert(prefix@.skip(0) =~= prefix@);
        }
        self.find_prefix_at(prefix, 0)
    }
}


/// The number of nodes in the subtree of `n`, counting only its first `k` children's
/// subtrees.
pub open spec fn subtree_size<T>(n: Node<T>, k: int) -> nat
    decreases n, k,
{
    if 0 < k <= n.kids().len() {
        subtree_size(n, k - 1) + subtree_size(n.kids()[k - 1], n.kids()[k - 1].kids().len() as int)
    } else {
        1
    }
}

/// The number of nodes in the subtree of `n`, this node included.
pub open spec fn node_total<T>(n: Node<T>) -> nat {
    subtree_size(n, n.kids().len() as int)
}

impl<T> Node<T> {
    /// The number of nodes in this subtree, this node included, or `usize::MAX` if there
    /// are more.
    pub fn node_count(&self) -> (r: usize)
        ensures
            r == if node_total(*self) < usize::MAX { node_total(*self) } else { usize::MAX as nat },
        decreases self,
    {
        let mut total: usize = 1;
        let mut i: usize = 0;
        while i < self.children.len()
            invariant
                0 <= i <= self.kids().len(),
                total == if subtree_size(*self, i as int) < usize::MAX {
                    subtree_size(*self, i as int)
                } else {
                    usize::MAX as nat
                },
            decreases self.kids().len() - i,
        {
            let c = self.children[i].node_count();
            total = if c > usize::MAX - total {
                usize::MAX
            } else {
                total + c
            };
            i = i + 1;
        }
        total
    }
}


impl<T> Node<T> {
    /// A mutable reference to the value stored under `key[pos..]` below this node's
    /// fragment.
    fn get_mut_at(&mut self, key: &[u8], pos: usize) -> (r: Option<&mut T>)
        requires
            old(self).wf(),
            pos <= key@.len(),
        ensures
            final(self).wf(),
            final(self).fragment() == old(self).fragment(),
            (final(self).stored() is Some) == (old(self).stored() is Some),
            final(self).kids().len() == old(self).kids().len(),
            forall|j: int|
                0 <= j < old(self).kids().len() ==> (#[trigger] final(self).kids()[j]).fragment()
                    == old(self).kids()[j].fragment(),
            match r {
                None => {
                    &&& old(self).lookup(key@.skip(pos as int)) is None
                    &&& forall|q: Seq<u8>| #[trigger] final(self).lookup(q) == old(self).lookup(q)
                },
                Some(v) => {
                    &&& old(self).lookup(key@.skip(pos as int)) == Some(*v)
                    &&& forall|q: Seq<u8>|
                        #[trigger] final(self).lookup(q) == if q == key@.skip(pos as int) {
                            Some(*final(v))
                        } else {
                            old(self).lookup(q)
                        }
                },
            },
        decreases key@.len() - pos,
    {
        let ghost o = *self;
        let ghost kk = key@.skip(pos as int);
        if pos == key.len() {
            match &mut self.value {
                Some(v) => {
                    proof {
                        let n = *after_borrow(self);
                        assert(n.stored() == Some(*final(v)));
                        assert forall|q: Seq<u8>|
                            #[trigger] n.lookup(q) == if q == kk {
                                Some(*final(v))
                            } else {
                                o.lookup(q)
                            } by {
                            if q.len() == 0 {
                                assert(q =~= kk);
                            }
                        }
                    }
                    return Some(v);
                },
                None => {
                    return None;
                },
            }
        }
        let (common, idx) = select_child(self.children.as_slice(), key, pos);
        if common == 0 {
            proof {
                lemma_lookup_no_child(o, kk);
            }
            return None;
        }
        proof {
            lemma_lookup_child(o, kk, idx as int);
        }
        if common < self.children[idx].key.len() {
            proof {
                let f = o.kids()[idx as int].fragment();
                if f.is_prefix_of(kk) {
                    assert(f[common as int] == f.take(f.len() as int)[common as int]);
                    assert(kk.take(f.len() as int) =~= f);
                    assert(kk[common as int] == f[common as int]);
                }
            }
            return None;
        }
        let ghost c0 = o.kids()[idx as int];
        proof {
            assert(c0.fragment().take(common as int) =~= c0.fragment());
            assert(key@.skip(pos + common) =~= kk.skip(common as int));
            assert(c0.compact() && c0.wf());
        }
        let child = &mut self.children[idx];
        let r = child.get_mut_at(key, pos + common);
        proof {
            let cn = *after_borrow(child);
            let n = *after_borrow(self);
            let fv = if r is Some {
                Some(*final(r->Some_0))
            } else {
                c0.lookup(kk.skip(common as int))
            };
            lemma_reach_after_update(c0, cn, kk, fv);
            assert(n.kids() =~= o.kids().update(idx as int, cn));
            assert(cn.fragment()[0] == c0.fragment()[0]);
            assert forall|i: int, j: int| 0 <= i < j < n.kids().len() implies (#[trigger] n.kids()[i]).fragment()[0]
                < (#[trigger] n.kids()[j]).fragment()[0] by {
                assert(o.kids()[i].fragment()[0] < o.kids()[j].fragment()[0]);
            }
            lemma_replace_child(o, n, idx as int, kk, fv);
            assert(cn.compact());
            assert forall|i: int|
                #![trigger n.kids()[i]]
                0 <= i < n.kids().len() implies n.kids()[i].compact() && n.kids()[i].wf() by {
                if i != idx {
                    assert(n.kids()[i] == o.kids()[i]);
                }
            }
            if r is None {
                assert forall|q: Seq<u8>| #[trigger] n.lookup(q) == o.lookup(q) by {
                    if q == kk {
                        assert(o.lookup(kk) == c0.reach(kk));
                    }
                }
            }
        }
        r
    }

    /// A mutable reference to the value stored under `key` below this node.
    pub fn get_mut(&mut self, key: &[u8]) -> (r: Option<&mut T>)
        requires
            old(self).wf(),
        ensures
            final(self).wf(),
            final(self).fragment() == old(self).fragment(),
            match r {
                None => {
                    &&& !old(self).entries().contains_key(key@)
                    &&& final(self).entries() == old(self).entries()
                },
                Some(v) => {
                    &&& old(self).entries().get(key@) == Some(*v)
                    &&& final(self).entries() == old(self).entries().insert(key@, *final(v))
                },
            },
    {
        proof {
            assert(key@.skip(0) =~= key@);
        }
        let r = self.get_mut_at(key, 0);
        proof {
            let n = *after_borrow(self);
            if r is Some {
                assert(n.entries() =~= old(self).entries().insert(key@, *final(r->Some_0)));
            } else {
                assert(n.entries() =~= old(self).entries());
            }
        }
        r
    }
}


/// The entries of `s` with their references read as shared ones, holding current values.
pub open spec fn as_shared<'a, T>(s: Seq<(Vec<u8>, &'a mut T)>) -> Seq<(Vec<u8>, &'a T)> {
    s.map_values(|e: (Vec<u8>, &'a mut T)| (e.0, &*e.1))
}

/// `m` has the shape of `n`: the same fragment, a value where `n` has one, and children
/// with the same fragments.
pub open spec fn same_shape<T>(m: Node<T>, n: Node<T>) -> bool {
    &&& m.fragment() == n.fragment()
    &&& (m.stored() is Some) == (n.stored() is Some)
    &&& m.kids().len() == n.kids().len()
    &&& forall|j: int| 0 <= j < n.kids().len() ==> (#[trigger] m.kids()[j]).fragment() == n.kids()[j].fragment()
}

/// `m` and `n` hold entries under the same keys.
pub open spec fn same_keys<T>(m: Node<T>, n: Node<T>) -> bool {
    forall|q: Seq<u8>| (#[trigger] m.lookup(q)) is Some <==> n.lookup(q) is Some
}


/// What the mutable traversal of `o`, which became `f`, has established once it is done:
/// `f` keeps the shape and keys of `o`, and each listed reference finally holds what `f`
/// holds under its key.
pub proof fn lemma_mut_finish<T>(
    o: Node<T>,
    f: Node<T>,
    pp: Seq<u8>,
    b: Seq<(Vec<u8>, &mut T)>,
    owner: Seq<int>,
)
    requires
        o.wf(),
        f.fragment() == o.fragment(),
        (f.stored() is Some) == (o.stored() is Some),
        f.kids().len() == o.kids().len(),
        forall|j: int|
            0 <= j < o.kids().len() ==> (#[trigger] f.kids()[j]).wf() && same_shape(f.kids()[j], o.kids()[j])
                && same_keys(f.kids()[j], o.kids()[j]),
        owner.len() == b.len(),
        forall|a: int| 0 <= a < b.len() ==> #[trigger] owner[a] == -1 || 0 <= owner[a] < o.kids().len(),
        forall|a: int|
            0 <= a < b.len() && #[trigger] owner[a] == -1 ==> b[a].0@ == pp && f.stored() == Some(*final(b[a].1)),
        forall|a: int|
            0 <= a < b.len() && 0 <= #[trigger] owner[a] ==> (pp + o.kids()[owner[a]].fragment()).is_prefix_of(
                b[a].0@,
            ) && f.kids()[owner[a]].lookup(b[a].0@.skip((pp.len() + o.kids()[owner[a]].fragment().len()) as int))
                == Some(*final(b[a].1)),
    ensures
        f.wf(),
        same_shape(f, o),
        same_keys(f, o),
        forall|a: int|
            0 <= a < b.len() ==> f.lookup((#[trigger] b[a]).0@.skip(pp.len() as int)) == Some(*final(b[a].1)),
{
    assert(children_sorted(f.kids())) by {
        assert forall|i: int, j: int| 0 <= i < j < f.kids().len() implies (#[trigger] f.kids()[i]).fragment()[0]
            < (#[trigger] f.kids()[j]).fragment()[0] by {
            assert(o.kids()[i].fragment()[0] < o.kids()[j].fragment()[0]);
        }
        assert forall|i: int| 0 <= i < f.kids().len() implies (#[trigger] f.kids()[i]).fragment().len() > 0 by {
            assert(o.kids()[i].compact());
        }
    }
    assert forall|i: int|
        #![trigger f.kids()[i]]
        0 <= i < f.kids().len() implies f.kids()[i].compact() && f.kids()[i].wf() by {
        assert(o.kids()[i].compact());
        if f.kids()[i].kids().len() == 1 {
            assert(f.kids()[i].kids()[0].fragment() == o.kids()[i].kids()[0].fragment());
        }
    }
    assert(f.wf());
    assert forall|q: Seq<u8>| (#[trigger] f.lookup(q)) is Some <==> o.lookup(q) is Some by {
        if q.len() > 0 {
            let j = child_with(o.kids(), q[0]);
            if j >= 0 {
                lemma_lookup_child(o, q, j);
                lemma_lookup_child(f, q, j);
                let fj = f.kids()[j];
                let oj = o.kids()[j];
                if fj.fragment().is_prefix_of(q) {
                    assert(fj.lookup(q.skip(fj.fragment().len() as int)) is Some <==> oj.lookup(
                        q.skip(oj.fragment().len() as int),
                    ) is Some);
                }
            } else {
                assert forall|i: int| 0 <= i < o.kids().len() implies (#[trigger] o.kids()[i]).fragment().len() == 0
                    || o.kids()[i].fragment()[0] != q[0] by {
                    if o.kids()[i].fragment()[0] == q[0] {
                        lemma_child_with(o.kids(), i);
                    }
                }
                lemma_lookup_no_child(o, q);
                assert forall|i: int| 0 <= i < f.kids().len() implies (#[trigger] f.kids()[i]).fragment().len() == 0
                    || f.kids()[i].fragment()[0] != q[0] by {
                    assert(f.kids()[i].fragment() == o.kids()[i].fragment());
                }
                lemma_lookup_no_child(f, q);
            }
        }
    }
    assert forall|a: int|
        0 <= a < b.len() implies f.lookup((#[trigger] b[a]).0@.skip(pp.len() as int)) == Some(*final(b[a].1)) by {
        let key = b[a].0@;
        if owner[a] == -1 {
            assert(key.skip(pp.len() as int) =~= Seq::<u8>::empty());
        } else {
            let j = owner[a];
            let fr = o.kids()[j].fragment();
            let pc = pp + fr;
            let y = key.skip(pp.len() as int);
            assert(key.take(pc.len() as int) =~= pc);
            assert(key[pp.len() as int] == pc[pp.len() as int]);
            assert(y[0] == fr[0]);
            lemma_lookup_child(f, y, j);
            assert(y.take(fr.len() as int) =~= key.subrange(pp.len() as int, pc.len() as int));
            assert(key.subrange(pp.len() as int, pc.len() as int) =~= pc.subrange(pp.len() as int, pc.len() as int));
            assert(pc.subrange(pp.len() as int, pc.len() as int) =~= fr);
            assert(y.skip(fr.len() as int) =~= key.skip((pp.len() + fr.len()) as int));
        }
    }
}

pub proof fn lemma_as_shared<'a, T>(a: Seq<(Vec<u8>, &'a mut T)>, b: Seq<(Vec<u8>, &'a mut T)>)
    ensures
        as_shared(a + b) == as_shared(a) + as_shared(b),
        as_shared(a).len() == a.len(),
        forall|i: int| 0 <= i < a.len() ==> (#[trigger] as_shared(a)[i]).0@ == a[i].0@ && *as_shared(a)[i].1 == *a[i].1,
{
    assert(as_shared(a + b) =~= as_shared(a) + as_shared(b));
}

impl<T> Node<T> {
    /// Appends to `out`, in ascending key order, every entry of this subtree with a mutable
    /// reference to its value, keys prefixed by `prefix` and this node's fragment. The tree
    /// keeps its shape; each value ends up as its reference finally holds it.
    #[verifier::rlimit(40)]
    pub(crate) fn collect_entries_mut<'a>(&'a mut self, prefix: &mut Vec<u8>, out: &mut Vec<(Vec<u8>, &'a mut T)>)
        requires
            old(self).wf(),
        ensures
            final(prefix)@ == old(prefix)@,
            final(out)@.len() >= old(out)@.len(),
            final(out)@.take(old(out)@.len() as int) == old(out)@,
            lists_entries(
                as_shared(final(out)@.skip(old(out)@.len() as int)),
                *old(self),
                old(prefix)@ + old(self).fragment(),
            ),
            forall|a: int|
                old(out)@.len() <= a < final(out)@.len() ==> final(self).lookup(
                    (#[trigger] final(out)@[a]).0@.skip((old(prefix)@ + old(self).fragment()).len() as int),
                ) == Some(*final(final(out)@[a].1)),
            final(self).wf(),
            same_shape(*final(self), *old(self)),
            same_keys(*final(self), *old(self)),
        decreases *old(self),
    {
        let ghost o = *self;
        let ghost out0 = out@;
        let ghost l0 = out@.len() as int;
        let base = prefix.len();
        let mut i: usize = 0;
        while i < self.key.len()
            invariant
                0 <= i <= self.key@.len(),
                base == old(prefix)@.len(),
                prefix@ == old(prefix)@ + self.key@.take(i as int),
            decreases self.key@.len() - i,
        {
            prefix.push(self.key[i]);
            assert(self.key@.take(i + 1) =~= self.key@.take(i as int).push(self.key@[i as int]));
            i = i + 1;
        }
        let ghost pp = prefix@;
        assert(pp =~= old(prefix)@ + o.fragment());
        let ghost mut owner: Seq<int> = Seq::empty();
        match &mut self.value {
            Some(v) => {
                out.push((copy_bytes(prefix.as_slice(), 0, prefix.len()), v));
                proof {
                    owner = seq![-1int];
                    assert(pp.subrange(0, pp.len() as int) =~= pp);
                    assert(out@.skip(l0)[0] == out@[l0]);
                    assert(after_borrow(self).stored() == Some(*final(out@[l0].1)));
                }
            },
            None => {},
        }
        proof {
            lemma_as_shared(out@.skip(l0), Seq::empty());
            lemma_collect_start(o, pp, as_shared(out@.skip(l0)));
            assert(out@ =~= out0 + out@.skip(l0));
        }
        let refs = split_refs(self.children.as_mut_slice());
        let ghost rs = refs@;
        let mut it = Iter::new(refs);
        let ghost mut k: int = 0;
        let ghost mut blk = out@.skip(l0);
        while it.len() > 0
            invariant
                o == *old(self),
                o.wf(),
                0 <= k <= rs.len(),
                rs.len() == o.kids().len(),
                it@ == rs.skip(k),
                forall|j: int| 0 <= j < rs.len() ==> *(#[trigger] rs[j]) == o.kids()[j],
                prefix@ == pp,
                out@ == out0 + blk,
                owner.len() == blk.len(),
                collect_inv(o, pp, as_shared(blk), k),
                forall|a: int| 0 <= a < owner.len() ==> #[trigger] owner[a] == -1 || 0 <= owner[a] < k,
                forall|a: int|
                    0 <= a < owner.len() && #[trigger] owner[a] == -1 ==> blk[a].0@ == pp
                        && after_borrow(self).stored() == Some(*final(blk[a].1)),
                forall|a: int|
                    0 <= a < owner.len() && 0 <= #[trigger] owner[a] ==> (pp + o.kids()[owner[a]].fragment()).is_prefix_of(
                        blk[a].0@,
                    ) && (*final(rs[owner[a]])).lookup(
                        blk[a].0@.skip((pp.len() + o.kids()[owner[a]].fragment().len()) as int),
                    ) == Some(*final(blk[a].1)),
                forall|j: int|
                    0 <= j < k ==> (*final(#[trigger] rs[j])).wf() && same_shape(*final(rs[j]), o.kids()[j])
                        && same_keys(*final(rs[j]), o.kids()[j]),
            decreases rs.len() - k,
        {
            let ghost out1 = out@;
            let c = it.next().unwrap();
            proof {
                assert(c == rs[k]);
                assert(*c == o.children@[k]);
            }
            c.collect_entries_mut(prefix, out);
            proof {
                let cb = out@.skip(out1.len() as int);
                assert(out@ =~= out1 + cb);
                lemma_as_shared(blk, cb);
                lemma_as_shared(cb, Seq::empty());
                lemma_collect_step(o, pp, as_shared(blk), as_shared(cb), k);
                let old_owner = owner;
                let old_blk = blk;
                owner = owner + Seq::new(cb.len(), |x: int| k);
                blk = blk + cb;
                assert(out@ =~= out0 + blk);
                assert forall|a: int|
                    0 <= a < owner.len() && 0 <= #[trigger] owner[a] implies (pp + o.kids()[owner[a]].fragment()).is_prefix_of(
                        blk[a].0@,
                    ) && (*final(rs[owner[a]])).lookup(
                        blk[a].0@.skip((pp.len() + o.kids()[owner[a]].fragment().len()) as int),
                    ) == Some(*final(blk[a].1)) by {
                    if a >= old_owner.len() {
                        let x = a - old_blk.len();
                        let idx = out1.len() + x;
                        assert(owner[a] == k);
                        assert(blk[a] == cb[x]);
                        assert(cb[x] == out@[idx]);
                        assert((pp + o.kids()[k].fragment()).len() == pp.len() + o.kids()[k].fragment().len());
                        assert(as_shared(cb)[x].0@ == cb[x].0@);
                        assert((pp + o.kids()[k].fragment()).is_prefix_of(as_shared(cb)[x].0@));
                        assert((*final(rs[k])).lookup(out@[idx].0@.skip((pp + o.kids()[k].fragment()).len() as int))
                            == Some(*final(out@[idx].1)));
                    } else {
                        assert(owner[a] == old_owner[a]);
                        assert(blk[a] == old_blk[a]);
                    }
                }
                assert forall|a: int|
                    0 <= a < owner.len() && #[trigger] owner[a] == -1 implies blk[a].0@ == pp
                        && after_borrow(self).stored() == Some(*final(blk[a].1)) by {
                    if a < old_owner.len() {
                        assert(owner[a] == old_owner[a]);
                        assert(blk[a] == old_blk[a]);
                    } else {
                        assert(owner[a] == k);
                    }
                }
                k = k + 1;
                assert(it@ =~= rs.skip(k));
            }
        }
        prefix.truncate(base);
        proof {
            assert(prefix@ =~= old(prefix)@);
            assert(out@.skip(l0) =~= blk);
            lemma_collect_finish(o, pp, as_shared(blk));
            assert(out@.take(l0) =~= out0);
            let f = *after_borrow(self);
            let b = blk;
            assert(f.kids() =~= Seq::new(rs.len(), |j: int| *final(rs[j])));
            lemma_mut_finish(o, f, pp, b, owner);
            assert forall|a: int|
                l0 <= a < out@.len() implies f.lookup((#[trigger] out@[a]).0@.skip(pp.len() as int)) == Some(
                    *final(out@[a].1),
                ) by {
                assert(b[a - l0] == out@[a]);
            }
        }
    }
}


impl<T> Node<T> {
    /// Finds, as `find_prefix_at` does, the node whose subtree holds exactly the entries under
    /// `p[pos..]`, and lends it mutably. Provided the caller leaves that node with its shape,
    /// its keys and its rules, this node keeps them too; its entries under the prefix are
    /// then those of the lent node, and the others stay as they were.
    pub(crate) fn find_prefix_mut_at(&mut self, p: &[u8], pos: usize) -> (r: Option<(usize, &mut Node<T>)>)
        requires
            old(self).wf(),
            pos < p@.len(),
        ensures
            match r {
                Some((k, n)) => {
                    &&& pos <= k <= p@.len()
                    &&& n.wf()
                    &&& p@.skip(k as int).is_prefix_of(n.fragment())
                    &&& forall|q: Seq<u8>|
                        p@.skip(pos as int).is_prefix_of(q) ==> #[trigger] old(self).lookup(q) == n.reach(
                            q.skip(k - pos),
                        )
                    &&& ((*final(n)).wf() && same_shape(*final(n), *n) && same_keys(*final(n), *n)) ==> {
                        &&& final(self).wf()
                        &&& same_shape(*final(self), *old(self))
                        &&& same_keys(*final(self), *old(self))
                        &&& forall|q: Seq<u8>|
                            #[trigger] final(self).lookup(q) == if p@.skip(pos as int).is_prefix_of(q) {
                                (*final(n)).reach(q.skip(k - pos))
                            } else {
                                old(self).lookup(q)
                            }
                    }
                },
                None => {
                    &&& forall|q: Seq<u8>|
                        p@.skip(pos as int).is_prefix_of(q) ==> (#[trigger] old(self).lookup(q)) is None
                    &&& final(self).wf()
                    &&& same_shape(*final(self), *old(self))
                    &&& same_keys(*final(self), *old(self))
                    &&& forall|q: Seq<u8>| #[trigger] final(self).lookup(q) == old(self).lookup(q)
                },
            },
        decreases p@.len() - pos,
    {
        let ghost o = *self;
        let ghost kk = p@.skip(pos as int);
        let (common, idx) = select_child(self.children.as_slice(), p, pos);
        if common == 0 {
            proof {
                assert forall|q: Seq<u8>| kk.is_prefix_of(q) implies (#[trigger] o.lookup(q)) is None by {
                    assert(q[0] == kk[0]);
                    assert forall|i: int| 0 <= i < o.kids().len() implies (#[trigger] o.kids()[i]).fragment().len() == 0
                        || o.kids()[i].fragment()[0] != q[0] by {
                        if o.kids()[i].fragment()[0] == q[0] {
                            lemma_child_with(o.kids(), i);
                        }
                    }
                    lemma_lookup_no_child(o, q);
                }
            }
            return None;
        }
        let ghost c0 = o.kids()[idx as int];
        let ghost f = c0.fragment();
        proof {
            assert forall|q: Seq<u8>| kk.is_prefix_of(q) implies #[trigger] o.lookup(q) == c0.reach(q) by {
                assert(q[0] == kk[0]);
                lemma_lookup_child(o, q, idx as int);
            }
            assert(c0.compact() && c0.wf());
        }
        if common < p.len() - pos && common < self.children[idx].key.len() {
            proof {
                assert forall|q: Seq<u8>| kk.is_prefix_of(q) implies (#[trigger] o.lookup(q)) is None by {
                    if f.is_prefix_of(q) {
                        assert(q[common as int] == kk[common as int]);
                        assert(q[common as int] == f[common as int]);
                    }
                }
            }
            return None;
        }
        if common == p.len() - pos {
            proof {
                assert(kk =~= kk.take(common as int));
                assert(kk.is_prefix_of(f));
                assert forall|q: Seq<u8>| kk.is_prefix_of(q) implies #[trigger] o.lookup(q) == c0.reach(q.skip(0)) by {
                    assert(q.skip(0) =~= q);
                }
            }
            let c = &mut self.children[idx];
            proof {
                let fc = *final(c);
                let n = *after_borrow(self);
                assert(n.kids() =~= o.kids().update(idx as int, fc));
                lemma_lend_child(o, n, idx as int, kk, fc);
            }
            return Some((pos, c));
        }
        proof {
            assert(f.take(common as int) =~= f);
            assert(p@.skip(pos + common) =~= kk.skip(common as int));
        }
        let child = &mut self.children[idx];
        let r = child.find_prefix_mut_at(p, pos + common);
        proof {
            let fc = *after_borrow(child);
            let n = *after_borrow(self);
            assert(n.kids() =~= o.kids().update(idx as int, fc));
            assert forall|q: Seq<u8>| kk.is_prefix_of(q) implies #[trigger] o.lookup(q) == c0.reach(q) by {
                assert(q[0] == kk[0]);
                lemma_lookup_child(o, q, idx as int);
            }
            if r is Some {
                let k = (r->Some_0).0;
                let m = *(r->Some_0).1;
                let fm = *final((r->Some_0).1);
                    assert forall|q: Seq<u8>| kk.is_prefix_of(q) implies #[trigger] o.lookup(q) == m.reach(q.skip(k - pos)) by {
                        let q1 = q.skip(common as int);
                        assert(f.is_prefix_of(q));
                        assert(p@.skip(pos + common).is_prefix_of(q1));
                        assert(c0.lookup(q1) == m.reach(q1.skip(k - pos - common)));
                        assert(q1.skip(k - pos - common) =~= q.skip(k - pos));
                    }
                    lemma_lend_deeper(o, n, idx as int, kk, common as int, fc, m, fm, k - pos);
            } else {
                    assert forall|q: Seq<u8>| kk.is_prefix_of(q) implies (#[trigger] o.lookup(q)) is None by {
                        let q1 = q.skip(common as int);
                        assert(f.is_prefix_of(q));
                        assert(p@.skip(pos + common).is_prefix_of(q1));
                    }
                    assert forall|q: Seq<u8>| #[trigger] fc.reach(q) == c0.reach(q) by {
                    }
                    lemma_replace_child(o, n, idx as int, f, c0.reach(f));
                    lemma_child_shape(o, n, idx as int, fc, c0);
            }
        }
        r
    }
}

/// Replacing child `idx` by one of the same shape and keys keeps the node's rules, shape
/// and keys.
pub proof fn lemma_child_shape<T>(o: Node<T>, n: Node<T>, idx: int, fc: Node<T>, c0: Node<T>)
    requires
        o.wf(),
        0 <= idx < o.kids().len(),
        c0 == o.kids()[idx],
        n.kids() == o.kids().update(idx, fc),
        n.fragment() == o.fragment(),
        n.stored() == o.stored(),
    ensures
        (fc.wf() && same_shape(fc, c0) && same_keys(fc, c0)) ==> (n.wf() && same_shape(n, o) && same_keys(n, o)),
{
    if fc.wf() && same_shape(fc, c0) && same_keys(fc, c0) {
        lemma_child_shape_same(o, n, idx, fc, c0);
    }
}

proof fn lemma_child_shape_same<T>(o: Node<T>, n: Node<T>, idx: int, fc: Node<T>, c0: Node<T>)
    requires
        o.wf(),
        0 <= idx < o.kids().len(),
        c0 == o.kids()[idx],
        n.kids() == o.kids().update(idx, fc),
        n.fragment() == o.fragment(),
        n.stored() == o.stored(),
        fc.wf(),
        same_shape(fc, c0),
        same_keys(fc, c0),
    ensures
        n.wf(),
        same_shape(n, o),
        same_keys(n, o),
{
    assert(c0.compact());
    assert(fc.compact()) by {
        if fc.kids().len() == 1 {
            assert(fc.kids()[0].fragment() == c0.kids()[0].fragment());
        }
    }
    assert forall|i: int, j: int| 0 <= i < j < n.kids().len() implies (#[trigger] n.kids()[i]).fragment()[0]
        < (#[trigger] n.kids()[j]).fragment()[0] by {
        assert(o.kids()[i].fragment()[0] < o.kids()[j].fragment()[0]);
    }
    assert forall|i: int|
        #![trigger n.kids()[i]]
        0 <= i < n.kids().len() implies n.kids()[i].compact() && n.kids()[i].wf() by {
        if i != idx {
            assert(n.kids()[i] == o.kids()[i]);
        }
    }
    assert forall|q: Seq<u8>| (#[trigger] n.lookup(q)) is Some <==> o.lookup(q) is Some by {
        if q.len() > 0 {
            let j = child_with(o.kids(), q[0]);
            if j >= 0 {
                lemma_lookup_child(o, q, j);
                lemma_lookup_child(n, q, j);
                if j == idx && fc.fragment().is_prefix_of(q) {
                    assert(fc.lookup(q.skip(fc.fragment().len() as int)) is Some <==> c0.lookup(
                        q.skip(c0.fragment().len() as int),
                    ) is Some);
                }
            } else {
                assert forall|i: int| 0 <= i < o.kids().len() implies (#[trigger] o.kids()[i]).fragment().len() == 0
                    || o.kids()[i].fragment()[0] != q[0] by {
                    if o.kids()[i].fragment()[0] == q[0] {
                        lemma_child_with(o.kids(), i);
                    }
                }
                lemma_lookup_no_child(o, q);
                assert forall|i: int| 0 <= i < n.kids().len() implies (#[trigger] n.kids()[i]).fragment().len() == 0
                    || n.kids()[i].fragment()[0] != q[0] by {
                    if i != idx {
                        assert(n.kids()[i] == o.kids()[i]);
                    }
                }
                lemma_lookup_no_child(n, q);
            }
        }
    }
}

/// Replacing child `idx` by one that reaches, under the prefix `kk`, what a lent node
/// reaches, and elsewhere what the child reached, changes the node's entries under `kk`
/// alone.
pub proof fn lemma_replace_child_at_prefix<T>(o: Node<T>, n: Node<T>, idx: int, kk: Seq<u8>, fc: Node<T>, c0: Node<T>)
    requires
        o.wf(),
        0 <= idx < o.kids().len(),
        c0 == o.kids()[idx],
        n.kids() == o.kids().update(idx, fc),
        n.stored() == o.stored(),
        fc.fragment() == c0.fragment(),
        kk.len() > 0,
        kk[0] == c0.fragment()[0],
        forall|q: Seq<u8>| !kk.is_prefix_of(q) ==> #[trigger] fc.reach(q) == c0.reach(q),
    ensures
        forall|q: Seq<u8>| kk.is_prefix_of(q) ==> #[trigger] n.lookup(q) == fc.reach(q),
        forall|q: Seq<u8>| !kk.is_prefix_of(q) ==> #[trigger] n.lookup(q) == o.lookup(q),
{
    assert(children_sorted(n.kids())) by {
        assert forall|i: int, j: int| 0 <= i < j < n.kids().len() implies (#[trigger] n.kids()[i]).fragment()[0]
            < (#[trigger] n.kids()[j]).fragment()[0] by {
            assert(o.kids()[i].fragment()[0] < o.kids()[j].fragment()[0]);
        }
    }
    assert forall|q: Seq<u8>| kk.is_prefix_of(q) implies #[trigger] n.lookup(q) == fc.reach(q) by {
        assert(q[0] == kk[0]);
        lemma_lookup_child(n, q, idx);
    }
    assert forall|q: Seq<u8>| !kk.is_prefix_of(q) implies #[trigger] n.lookup(q) == o.lookup(q) by {
        if q.len() > 0 {
            if q[0] == kk[0] {
                lemma_lookup_child(o, q, idx);
                lemma_lookup_child(n, q, idx);
            } else {
                let j = child_with(o.kids(), q[0]);
                if j >= 0 {
                    lemma_lookup_child(o, q, j);
                    lemma_lookup_child(n, q, j);
                } else {
                    assert forall|i: int| 0 <= i < o.kids().len() implies (#[trigger] o.kids()[i]).fragment().len() == 0
                        || o.kids()[i].fragment()[0] != q[0] by {
                        if o.kids()[i].fragment()[0] == q[0] {
                            lemma_child_with(o.kids(), i);
                        }
                    }
                    lemma_lookup_no_child(o, q);
                    assert forall|i: int| 0 <= i < n.kids().len() implies (#[trigger] n.kids()[i]).fragment().len() == 0
                        || n.kids()[i].fragment()[0] != q[0] by {
                        if i != idx {
                            assert(n.kids()[i] == o.kids()[i]);
                        }
                    }
                    lemma_lookup_no_child(n, q);
                }
            }
        }
    }
}


/// Lending child `idx`, whose fragment extends the prefix `kk`: if the lent child keeps its
/// shape, keys and rules, the node keeps them too and reaches under `kk` what the child does.
pub proof fn lemma_lend_child<T>(o: Node<T>, n: Node<T>, idx: int, kk: Seq<u8>, fc: Node<T>)
    requires
        o.wf(),
        0 <= idx < o.kids().len(),
        n.kids() == o.kids().update(idx, fc),
        n.fragment() == o.fragment(),
        n.stored() == o.stored(),
        kk.len() > 0,
        kk.is_prefix_of(o.kids()[idx].fragment()),
    ensures
        (fc.wf() && same_shape(fc, o.kids()[idx]) && same_keys(fc, o.kids()[idx])) ==> {
            &&& n.wf()
            &&& same_shape(n, o)
            &&& same_keys(n, o)
            &&& forall|q: Seq<u8>|
                #[trigger] n.lookup(q) == if kk.is_prefix_of(q) {
                    fc.reach(q.skip(0))
                } else {
                    o.lookup(q)
                }
        },
{
    let c0 = o.kids()[idx];
    let f = c0.fragment();
    if fc.wf() && same_shape(fc, c0) && same_keys(fc, c0) {
        assert(c0.compact());
        assert forall|q: Seq<u8>| !kk.is_prefix_of(q) implies #[trigger] fc.reach(q) == c0.reach(q) by {
            if f.is_prefix_of(q) {
                assert(q.take(kk.len() as int) =~= f.take(kk.len() as int));
                assert(f.take(kk.len() as int) =~= kk);
            }
        }
        assert(kk[0] == f[0]);
        lemma_replace_child_at_prefix(o, n, idx, kk, fc, c0);
        lemma_child_shape_same(o, n, idx, fc, c0);
        assert forall|q: Seq<u8>|
            #[trigger] n.lookup(q) == if kk.is_prefix_of(q) {
                fc.reach(q.skip(0))
            } else {
                o.lookup(q)
            } by {
            assert(q.skip(0) =~= q);
        }
    }
}

/// Lending a node below child `idx`, whose whole fragment the prefix `kk` passes: if the lent
/// node keeps its shape, keys and rules, so does this node, and it reaches under `kk` what
/// the lent node reaches.
pub proof fn lemma_lend_deeper<T>(
    o: Node<T>,
    n: Node<T>,
    idx: int,
    kk: Seq<u8>,
    common: int,
    fc: Node<T>,
    m: Node<T>,
    fm: Node<T>,
    d: int,
)
    requires
        o.wf(),
        0 <= idx < o.kids().len(),
        n.kids() == o.kids().update(idx, fc),
        n.fragment() == o.fragment(),
        n.stored() == o.stored(),
        0 < common < kk.len(),
        common <= d <= kk.len(),
        common == o.kids()[idx].fragment().len(),
        o.kids()[idx].fragment() == kk.take(common),
        (fm.wf() && same_shape(fm, m) && same_keys(fm, m)) ==> {
            &&& fc.wf()
            &&& same_shape(fc, o.kids()[idx])
            &&& same_keys(fc, o.kids()[idx])
            &&& forall|q: Seq<u8>|
                #[trigger] fc.lookup(q) == if kk.skip(common).is_prefix_of(q) {
                    fm.reach(q.skip(d - common))
                } else {
                    o.kids()[idx].lookup(q)
                }
        },
    ensures
        (fm.wf() && same_shape(fm, m) && same_keys(fm, m)) ==> {
            &&& n.wf()
            &&& same_shape(n, o)
            &&& same_keys(n, o)
            &&& forall|q: Seq<u8>|
                #[trigger] n.lookup(q) == if kk.is_prefix_of(q) {
                    fm.reach(q.skip(d))
                } else {
                    o.lookup(q)
                }
        },
{
    let c0 = o.kids()[idx];
    let f = c0.fragment();
    if fm.wf() && same_shape(fm, m) && same_keys(fm, m) {
        assert(c0.compact());
        assert forall|q: Seq<u8>| !kk.is_prefix_of(q) implies #[trigger] fc.reach(q) == c0.reach(q) by {
            if f.is_prefix_of(q) {
                let q1 = q.skip(common);
                if kk.skip(common).is_prefix_of(q1) {
                    assert(q =~= q.take(common) + q1);
                    assert(kk =~= kk.take(common) + kk.skip(common));
                    assert(q.take(common) =~= f);
                    assert(q.take(kk.len() as int) =~= kk);
                }
            }
        }
        assert(kk[0] == f[0]);
        lemma_replace_child_at_prefix(o, n, idx, kk, fc, c0);
        lemma_child_shape_same(o, n, idx, fc, c0);
        assert forall|q: Seq<u8>|
            #[trigger] n.lookup(q) == if kk.is_prefix_of(q) {
                fm.reach(q.skip(d))
            } else {
                o.lookup(q)
            } by {
            if kk.is_prefix_of(q) {
                let q1 = q.skip(common);
                assert(q.take(common) =~= kk.take(common));
                assert(f.is_prefix_of(q));
                assert(q1.take(kk.len() - common) =~= kk.skip(common));
                assert(kk.skip(common).is_prefix_of(q1));
                assert(q1.skip(d - common) =~= q.skip(d));
            }
        }
    }
}

} // verus!
