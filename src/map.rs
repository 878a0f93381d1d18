use vstd::prelude::*;

use crate::iter::{
    in_bounds, lists_map, select_range_mut, selects_range, values_of, Iter, IterMut, KeyBound, Range,
    RangeMut,
};
use crate::node::{as_shared, deref_opt, lemma_as_shared, lists_entries, same_keys, same_shape, Node};
use crate::order::{copy_bytes, lemma_lex_irreflexive, lemma_lex_transitive, lex_lt, lists_set};

verus! {

/// The byte strings held by a sequence of vectors.
pub open spec fn byte_strings(s: Seq<Vec<u8>>) -> Seq<Seq<u8>> {
    s.map_values(|v: Vec<u8>| v@)
}

/// An ordered map from byte-string keys to values, stored as a radix tree.
pub struct RadixMap<T> {
    root: Node<T>,
    size: usize,
}

impl<T> View for RadixMap<T> {
    type V = Map<Seq<u8>, T>;

    closed spec fn view(&self) -> Map<Seq<u8>, T> {
        self.root.entries()
    }
}

/// A listing of a root's entries is a listing of the map they form.
pub proof fn lemma_root_listing<T>(s: Seq<(Vec<u8>, &T)>, root: Node<T>)
    requires
        root.fragment().len() == 0,
        lists_entries(s, root, Seq::empty() + root.fragment()),
    ensures
        lists_map(s, root.entries()),
{
    let p = Seq::<u8>::empty() + root.fragment();
    assert(p =~= Seq::<u8>::empty());
    assert forall|i: int| 0 <= i < s.len() implies root.entries().contains_key(#[trigger] s[i].0@)
        && root.entries()[s[i].0@] == *s[i].1 by {
        assert(s[i].0@.skip(0) =~= s[i].0@);
    }
    assert forall|k: Seq<u8>| #[trigger] root.entries().contains_key(k) implies exists|i: int|
        0 <= i < s.len() && s[i].0@ == k by {
        assert(root.lookup(k) is Some);
        assert(p + k =~= k);
    }
}

pub proof fn lemma_prefix_key(p: Seq<u8>, k: int, nf: Seq<u8>, key: Seq<u8>)
    requires
        0 <= k <= p.len(),
        p.skip(k).is_prefix_of(nf),
        (p.take(k) + nf).is_prefix_of(key),
    ensures
        p.is_prefix_of(key),
        nf.is_prefix_of(key.skip(k)),
        key.skip(k).skip(nf.len() as int) == key.skip(k + nf.len()),
{
    let pp = p.take(k) + nf;
    assert(key.take(pp.len() as int) =~= pp);
    assert forall|j: int| 0 <= j < p.len() implies key[j] == p[j] by {
        if j < k {
            assert(key.take(pp.len() as int)[j] == pp[j]);
        } else {
            assert(key.take(pp.len() as int)[j] == pp[j]);
            assert(pp[j] == nf[j - k]);
            assert(p.skip(k)[j - k] == nf.take(p.len() - k)[j - k]);
        }
    }
    assert(key.take(p.len() as int) =~= p);
    assert(key.skip(k).take(nf.len() as int) =~= nf) by {
        assert forall|j: int| 0 <= j < nf.len() implies key.skip(k)[j] == nf[j] by {
            assert(key.take(pp.len() as int)[k + j] == pp[k + j]);
        }
    }
    assert(key.skip(k).skip(nf.len() as int) =~= key.skip(k + nf.len()));
}

pub proof fn lemma_prefix_cover(p: Seq<u8>, k: int, nf: Seq<u8>, q: Seq<u8>)
    requires
        0 <= k <= p.len(),
        p.is_prefix_of(q),
        nf.is_prefix_of(q.skip(k)),
    ensures
        (p.take(k) + nf) + q.skip(k).skip(nf.len() as int) == q,
{
    assert(q.take(k) =~= p.take(k)) by {
        assert forall|j: int| 0 <= j < k implies q.take(k)[j] == p.take(k)[j] by {
            assert(q.take(p.len() as int)[j] == p[j]);
        }
    }
    assert(q.skip(k).take(nf.len() as int) =~= nf);
    assert(q =~= q.take(k) + q.skip(k));
    assert(q.skip(k) =~= q.skip(k).take(nf.len() as int) + q.skip(k).skip(nf.len() as int));
    assert((p.take(k) + nf) + q.skip(k).skip(nf.len() as int) =~= q);
}

/// A listing of the subtree that `find_prefix` picked is a listing of the entries under the
/// prefix.
pub proof fn lemma_prefix_listing<T>(
    s: Seq<(Vec<u8>, &T)>,
    root: Node<T>,
    p: Seq<u8>,
    k: int,
    n: Node<T>,
)
    requires
        0 <= k <= p.len(),
        p.skip(k).is_prefix_of(n.fragment()),
        forall|q: Seq<u8>| p.is_prefix_of(q) ==> #[trigger] root.lookup(q) == n.reach(q.skip(k)),
        lists_entries(s, n, p.take(k) + n.fragment()),
    ensures
        lists_map(s, root.entries().filter_keys(|q: Seq<u8>| p.is_prefix_of(q))),
{
    let m = root.entries().filter_keys(|q: Seq<u8>| p.is_prefix_of(q));
    let nf = n.fragment();
    let pp = p.take(k) + nf;
    assert forall|i: int| 0 <= i < s.len() implies m.contains_key(#[trigger] s[i].0@) && m[s[i].0@] == *s[i].1 by {
        let key = s[i].0@;
        lemma_prefix_key(p, k, nf, key);
        assert(root.lookup(key) == n.reach(key.skip(k)));
    }
    assert forall|q: Seq<u8>| #[trigger] m.contains_key(q) implies exists|i: int| 0 <= i < s.len() && s[i].0@ == q by {
        assert(p.is_prefix_of(q));
        assert(root.lookup(q) == n.reach(q.skip(k)));
        let x = q.skip(k).skip(nf.len() as int);
        assert(n.lookup(x) is Some);
        lemma_prefix_cover(p, k, nf, q);
    }
}

impl<T> RadixMap<T> {
    /// The map's invariant: a well-formed tree under an empty root fragment, finitely many
    /// entries, and a count that matches them.
    pub closed spec fn wf(&self) -> bool {
        &&& self.root.wf()
        &&& self.root.fragment().len() == 0
        &&& self.root.entries().dom().finite()
        &&& self.size == self.root.entries().len()
    }

    /// An empty map.
    pub fn new() -> (r: Self)
        ensures
            r@ == Map::<Seq<u8>, T>::empty(),
            r.wf(),
    {
        let root: Node<T> = Node::new(&[]);
        proof {
            assert forall|k: Seq<u8>| !(#[trigger] root.entries().contains_key(k)) by {
                crate::node::lemma_bare_lookup(root, k);
            }
            assert(root.entries() =~= Map::<Seq<u8>, T>::empty());
        }
        RadixMap { root, size: 0 }
    }

    /// The number of entries.
    pub fn len(&self) -> (r: usize)
        requires
            self.wf(),
        ensures
            r == self@.len(),
    {
        self.size
    }

    /// Whether the map has no entries.
    pub fn is_empty(&self) -> (r: bool)
        requires
            self.wf(),
        ensures
            r == (self@.len() == 0),
    {
        self.len() == 0
    }

    /// Stores `value` under `key`, returning the value stored there before.
    pub fn insert(&mut self, key: &[u8], value: T) -> (r: Option<T>)
        requires
            old(self).wf(),
            old(self)@.len() < usize::MAX,
        ensures
            final(self).wf(),
            r == old(self)@.get(key@),
            final(self)@ == old(self)@.insert(key@, value),
            final(self).tree_well_formed(),
    {
        let r = self.root.insert(key, value);
        if r.is_none() {
            self.size = self.size + 1;
        }
        r
    }

    /// Removes the value stored under `key`, returning it.
    pub fn remove(&mut self, key: &[u8]) -> (r: Option<T>)
        requires
            old(self).wf(),
        ensures
            final(self).wf(),
            r == old(self)@.get(key@),
            final(self)@ == old(self)@.remove(key@),
            final(self).tree_well_formed(),
    {
        let r = self.root.remove(key);
        if r.is_some() {
            self.size = self.size - 1;
        } else {
            proof {
                assert(self.root.entries() =~= old(self).root.entries());
            }
        }
        r
    }

    /// A mutable reference to the value stored under `key`.
    pub fn get_mut(&mut self, key: &[u8]) -> (r: Option<&mut T>)
        requires
            old(self).wf(),
        ensures
            final(self).wf(),
            match r {
                None => !old(self)@.contains_key(key@) && final(self)@ == old(self)@,
                Some(v) => {
                    &&& old(self)@.get(key@) == Some(*v)
                    &&& final(self)@ == old(self)@.insert(key@, *final(v))
                },
            },
    {
        let r = self.root.get_mut(key);
        proof {
            let n = *after_borrow(self);
            if r is Some {
                assert(n.root.entries().dom() =~= old(self).root.entries().dom());
            }
        }
        r
    }

    /// The value stored under `key`.
    pub fn get(&self, key: &[u8]) -> (r: Option<&T>)
        requires
            self.wf(),
        ensures
            deref_opt(r) == self@.get(key@),
    {
        self.root.get(key)
    }

    /// Every entry with a mutable reference to its value, in ascending key order. The map
    /// keeps its keys; each value ends up as its reference finally holds it.
    pub fn iter_mut(&mut self) -> (r: IterMut<T>)
        requires
            old(self).wf(),
        ensures
            final(self).wf(),
            lists_map(as_shared(r@), old(self)@),
            final(self)@.dom() == old(self)@.dom(),
            forall|i: int| 0 <= i < r@.len() ==> final(self)@[(#[trigger] r@[i]).0@] == *final(r@[i].1),
    {
        let out = self.entries_in_order_mut();
        IterMut::new(out)
    }

    /// Every value as a mutable reference, in ascending key order. The map keeps its keys;
    /// each value ends up as its reference finally holds it.
    pub fn values_mut(&mut self) -> (r: Iter<&mut T>)
        requires
            old(self).wf(),
        ensures
            final(self).wf(),
            final(self)@.dom() == old(self)@.dom(),
            exists|s: Seq<(Vec<u8>, &mut T)>|
                {
                    &&& lists_map(as_shared(s), old(self)@)
                    &&& r@.len() == s.len()
                    &&& forall|i: int|
                        0 <= i < s.len() ==> *(#[trigger] r@[i]) == *s[i].1 && *final(r@[i]) == *final(s[i].1)
                    &&& forall|i: int| 0 <= i < s.len() ==> final(self)@[(#[trigger] s[i]).0@] == *final(s[i].1)
                },
    {
        let out = self.entries_in_order_mut();
        let ghost s = out@;
        let mut it = Iter::new(out);
        let mut vals: Vec<&mut T> = Vec::new();
        while it.len() > 0
            invariant
                vals@.len() + it@.len() == s.len(),
                it@ == s.skip(vals@.len() as int),
                forall|i: int|
                    0 <= i < vals@.len() ==> *(#[trigger] vals@[i]) == *s[i].1 && *final(vals@[i]) == *final(s[i].1),
            decreases it@.len(),
        {
            let ghost n = vals@.len() as int;
            let e = it.next().unwrap();
            proof {
                assert(e == s[n]);
            }
            let v = e.1;
            vals.push(v);
            proof {
                assert(*vals@[n] == *s[n].1);
                assert(it@ =~= s.skip(n + 1));
            }
        }
        Iter::new(vals)
    }

    /// Every entry whose key lies between `lower` and `upper`, with a mutable reference to its
    /// value, in ascending key order. The map keeps its keys; each listed value ends up as its
    /// reference finally holds it, and the other values stay as they were.
    pub fn range_mut(&mut self, lower: KeyBound, upper: KeyBound) -> (r: RangeMut<T>)
        requires
            old(self).wf(),
        ensures
            final(self).wf(),
            lists_map(as_shared(r@), old(self)@.filter_keys(|k: Seq<u8>| in_bounds(lower, upper, k))),
            final(self)@.dom() == old(self)@.dom(),
            forall|i: int| 0 <= i < r@.len() ==> final(self)@[(#[trigger] r@[i]).0@] == *final(r@[i].1),
            forall|k: Seq<u8>|
                old(self)@.contains_key(k) && !in_bounds(lower, upper, k) ==> #[trigger] final(self)@[k]
                    == old(self)@[k],
    {
        let all = self.entries_in_order_mut();
        let ghost s = all@;
        proof {
            lemma_as_shared(s, Seq::empty());
            assert(crate::iter::entries_sorted(as_shared(s)));
        }
        let (out, ix) = select_range_mut(all, lower, upper);
        proof {
            lemma_as_shared(out@, Seq::empty());
            lemma_range_listing(as_shared(s), as_shared(out@), old(self)@, lower, upper);
            lemma_range_finals(s, out@, ix@, after_borrow(self)@, old(self)@, lower, upper);
        }
        RangeMut::new(out)
    }

    /// Every entry whose key starts with `prefix`, with a mutable reference to its value, in
    /// ascending key order. The map keeps its keys; each listed value ends up as its
    /// reference finally holds it, and the other values stay as they were.
    pub fn prefix_iter_mut(&mut self, prefix: &[u8]) -> (r: IterMut<T>)
        requires
            old(self).wf(),
        ensures
            final(self).wf(),
            lists_map(as_shared(r@), old(self)@.filter_keys(|k: Seq<u8>| prefix@.is_prefix_of(k))),
            final(self)@.dom() == old(self)@.dom(),
            forall|i: int| 0 <= i < r@.len() ==> final(self)@[(#[trigger] r@[i]).0@] == *final(r@[i].1),
            forall|k: Seq<u8>|
                old(self)@.contains_key(k) && !prefix@.is_prefix_of(k) ==> #[trigger] final(self)@[k]
                    == old(self)@[k],
    {
        IterMut::new(self.entries_with_prefix_mut(prefix))
    }

    /// Every value whose key starts with `prefix`, as a mutable reference, in ascending key
    /// order. The map keeps its keys; each listed value ends up as its reference finally
    /// holds it, and the other values stay as they were.
    pub fn prefix_values_mut(&mut self, prefix: &[u8]) -> (r: Iter<&mut T>)
        requires
            old(self).wf(),
        ensures
            final(self).wf(),
            final(self)@.dom() == old(self)@.dom(),
            forall|k: Seq<u8>|
                old(self)@.contains_key(k) && !prefix@.is_prefix_of(k) ==> #[trigger] final(self)@[k]
                    == old(self)@[k],
            exists|s: Seq<(Vec<u8>, &mut T)>|
                {
                    &&& lists_map(as_shared(s), old(self)@.filter_keys(|k: Seq<u8>| prefix@.is_prefix_of(k)))
                    &&& r@.len() == s.len()
                    &&& forall|i: int|
                        0 <= i < s.len() ==> *(#[trigger] r@[i]) == *s[i].1 && *final(r@[i]) == *final(s[i].1)
                    &&& forall|i: int| 0 <= i < s.len() ==> final(self)@[(#[trigger] s[i]).0@] == *final(s[i].1)
                },
    {
        let out = self.entries_with_prefix_mut(prefix);
        let ghost s = out@;
        let mut it = Iter::new(out);
        let mut vals: Vec<&mut T> = Vec::new();
        while it.len() > 0
            invariant
                vals@.len() + it@.len() == s.len(),
                it@ == s.skip(vals@.len() as int),
                forall|i: int|
                    0 <= i < vals@.len() ==> *(#[trigger] vals@[i]) == *s[i].1 && *final(vals@[i]) == *final(s[i].1),
            decreases it@.len(),
        {
            let ghost n = vals@.len() as int;
            let e = it.next().unwrap();
            proof {
                assert(e == s[n]);
            }
            let v = e.1;
            vals.push(v);
            proof {
                assert(*vals@[n] == *s[n].1);
                assert(it@ =~= s.skip(n + 1));
            }
        }
        Iter::new(vals)
    }

    /// Every entry whose key starts with `prefix`, with a mutable reference to its value, in
    /// ascending key order, gathered into a vector.
    fn entries_with_prefix_mut(&mut self, prefix: &[u8]) -> (r: Vec<(Vec<u8>, &mut T)>)
        requires
            old(self).wf(),
        ensures
            final(self).wf(),
            lists_map(as_shared(r@), old(self)@.filter_keys(|k: Seq<u8>| prefix@.is_prefix_of(k))),
            final(self)@.dom() == old(self)@.dom(),
            forall|i: int| 0 <= i < r@.len() ==> final(self)@[(#[trigger] r@[i]).0@] == *final(r@[i].1),
            forall|k: Seq<u8>|
                old(self)@.contains_key(k) && !prefix@.is_prefix_of(k) ==> #[trigger] final(self)@[k]
                    == old(self)@[k],
    {
        if prefix.len() == 0 {
            let r = self.entries_in_order_mut();
            proof {
                assert(old(self)@.filter_keys(|k: Seq<u8>| prefix@.is_prefix_of(k)) =~= old(self)@);
            }
            return r;
        }
        let ghost o = old(self).root;
        let mut out: Vec<(Vec<u8>, &mut T)> = Vec::new();
        proof {
            assert(prefix@.skip(0) =~= prefix@);
        }
        match self.root.find_prefix_mut_at(prefix, 0) {
            Some((k, n)) => {
                let ghost n0 = *n;
                let mut start = copy_bytes(prefix, 0, k);
                proof {
                    assert(prefix@.subrange(0, k as int) =~= prefix@.take(k as int));
                }
                n.collect_entries_mut(&mut start, &mut out);
                proof {
                    let nf = n0.fragment();
                    let fr = after_borrow(self).root;
                    assert(out@.skip(0) =~= out@);
                    assert(out@.take(0) =~= Seq::<(Vec<u8>, &mut T)>::empty());
                    assert(forall|q: Seq<u8>| prefix@.is_prefix_of(q) ==> #[trigger] o.lookup(q) == n0.reach(q.skip(k as int)));
                    lemma_prefix_listing(as_shared(out@), o, prefix@, k as int, n0);
                    assert(fr.entries().dom() =~= o.entries().dom());
                    assert forall|i: int| 0 <= i < out@.len() implies fr.entries()[(#[trigger] out@[i]).0@] == *final(out@[i].1) by {
                        let key = out@[i].0@;
                        lemma_as_shared(out@, Seq::empty());
                        assert(as_shared(out@)[i].0@ == key);
                        lemma_prefix_key(prefix@, k as int, nf, key);
                        assert((prefix@.take(k as int) + nf).len() == k + nf.len());
                    }
                    assert forall|q: Seq<u8>|
                        old(self)@.contains_key(q) && !prefix@.is_prefix_of(q) implies #[trigger] fr.entries()[q]
                            == old(self)@[q] by {
                        assert(fr.lookup(q) == o.lookup(q));
                    }
                }
            },
            None => {
                proof {
                    let fr = after_borrow(self).root;
                    let m = old(self)@.filter_keys(|q: Seq<u8>| prefix@.is_prefix_of(q));
                    assert forall|q: Seq<u8>| !(#[trigger] m.contains_key(q)) by {
                        if prefix@.is_prefix_of(q) {
                            assert(o.lookup(q) is None);
                        }
                    }
                    assert(fr.entries() =~= o.entries());
                }
            },
        }
        out
    }

    /// Every entry with a mutable reference to its value, in ascending key order, gathered
    /// into a vector.
    fn entries_in_order_mut(&mut self) -> (r: Vec<(Vec<u8>, &mut T)>)
        requires
            old(self).wf(),
        ensures
            final(self).wf(),
            lists_map(as_shared(r@), old(self)@),
            final(self)@.dom() == old(self)@.dom(),
            forall|i: int| 0 <= i < r@.len() ==> final(self)@[(#[trigger] r@[i]).0@] == *final(r@[i].1),
    {
        let mut prefix: Vec<u8> = Vec::new();
        let mut out: Vec<(Vec<u8>, &mut T)> = Vec::new();
        self.root.collect_entries_mut(&mut prefix, &mut out);
        proof {
            let o = old(self).root;
            let f = *after_borrow(self);
            assert(out@.skip(0) =~= out@);
            assert(Seq::<u8>::empty() + o.fragment() =~= Seq::<u8>::empty());
            lemma_root_listing(as_shared(out@), o);
            assert(f.root.entries().dom() =~= o.entries().dom());
            assert forall|i: int| 0 <= i < out@.len() implies f.root.entries()[(#[trigger] out@[i]).0@] == *final(out@[i].1) by {
                assert(out@[i].0@.skip(0) =~= out@[i].0@);
            }
        }
        out
    }

    /// Whether a value is stored under `key`.
    pub fn contains_key(&self, key: &[u8]) -> (r: bool)
        requires
            self.wf(),
        ensures
            r == self@.contains_key(key@),
    {
        self.get(key).is_some()
    }

    /// Every entry, in ascending key order; as many as the map has.
    pub fn iter(&self) -> (r: Iter<(Vec<u8>, &T)>)
        requires
            self.wf(),
        ensures
            lists_map(r@, self@),
            r@.len() == self@.len(),
    {
        let all = self.entries_in_order();
        proof {
            lemma_listing_len(all@, self@);
        }
        Iter::new(all)
    }

    /// A map holds finitely many entries.
    pub proof fn lemma_finite(&self)
        requires
            self.wf(),
        ensures
            self@.dom().finite(),
    {
    }

    /// Every entry whose key starts with `prefix`, in ascending key order.
    pub fn prefix_iter(&self, prefix: &[u8]) -> (r: Iter<(Vec<u8>, &T)>)
        requires
            self.wf(),
        ensures
            lists_map(r@, self@.filter_keys(|k: Seq<u8>| prefix@.is_prefix_of(k))),
    {
        Iter::new(self.entries_with_prefix(prefix))
    }

    /// Every value, in ascending key order.
    pub fn values(&self) -> (r: Iter<&T>)
        requires
            self.wf(),
        ensures
            exists|s: Seq<(Vec<u8>, &T)>| lists_map(s, self@) && r@ == values_of(s),
    {
        Iter::new(values_in(self.entries_in_order()))
    }

    /// Every value whose key starts with `prefix`, in ascending key order.
    pub fn prefix_values(&self, prefix: &[u8]) -> (r: Iter<&T>)
        requires
            self.wf(),
        ensures
            exists|s: Seq<(Vec<u8>, &T)>|
                lists_map(s, self@.filter_keys(|k: Seq<u8>| prefix@.is_prefix_of(k))) && r@
                    == values_of(s),
    {
        Iter::new(values_in(self.entries_with_prefix(prefix)))
    }

    /// Every key, in ascending order; as many as the map has.
    pub fn keys(&self) -> (r: Iter<Vec<u8>>)
        requires
            self.wf(),
        ensures
            lists_set(byte_strings(r@), self@.dom()),
            r@.len() == self@.len(),
    {
        let all = self.entries_in_order();
        let ks = keys_in(all);
        proof {
            lemma_keys_listing(all@, self@, ks@);
            lemma_listing_len(all@, self@);
        }
        Iter::new(ks)
    }

    /// Every key that starts with `prefix`, in ascending order.
    pub fn prefix_keys(&self, prefix: &[u8]) -> (r: Iter<Vec<u8>>)
        requires
            self.wf(),
        ensures
            lists_set(byte_strings(r@), self@.dom().filter(|k: Seq<u8>| prefix@.is_prefix_of(k))),
    {
        let all = self.entries_with_prefix(prefix);
        let ks = keys_in(all);
        proof {
            let m = self@.filter_keys(|k: Seq<u8>| prefix@.is_prefix_of(k));
            lemma_keys_listing(all@, m, ks@);
            assert(m.dom() =~= self@.dom().filter(|k: Seq<u8>| prefix@.is_prefix_of(k)));
        }
        Iter::new(ks)
    }

    /// Every entry whose key lies between `lower` and `upper`, in ascending key order.
    pub fn range(&self, lower: KeyBound, upper: KeyBound) -> (r: Range<T>)
        requires
            self.wf(),
        ensures
            lists_map(r@, self@.filter_keys(|k: Seq<u8>| in_bounds(lower, upper, k))),
    {
        let all = self.entries_in_order();
        let ghost s = all@;
        let r = Range::new(all, lower, upper);
        proof {
            lemma_range_listing(s, r@, self@, lower, upper);
        }
        r
    }

    /// Every entry in ascending key order, gathered into a vector.
    fn entries_in_order(&self) -> (r: Vec<(Vec<u8>, &T)>)
        requires
            self.wf(),
        ensures
            lists_map(r@, self@),
    {
        let mut prefix: Vec<u8> = Vec::new();
        let mut out: Vec<(Vec<u8>, &T)> = Vec::new();
        self.root.collect_entries(&mut prefix, &mut out);
        proof {
            assert(prefix@ =~= Seq::<u8>::empty());
            assert(out@.skip(0) =~= out@);
            lemma_root_listing(out@, self.root);
        }
        out
    }

    /// Every entry whose key starts with `prefix`, in ascending key order, gathered into a
    /// vector.
    fn entries_with_prefix(&self, prefix: &[u8]) -> (r: Vec<(Vec<u8>, &T)>)
        requires
            self.wf(),
        ensures
            lists_map(r@, self@.filter_keys(|k: Seq<u8>| prefix@.is_prefix_of(k))),
    {
        if prefix.len() == 0 {
            let r = self.entries_in_order();
            proof {
                assert(self@.filter_keys(|k: Seq<u8>| prefix@.is_prefix_of(k)) =~= self@);
            }
            return r;
        }
        let mut out: Vec<(Vec<u8>, &T)> = Vec::new();
        match self.root.find_prefix(prefix) {
            Some((k, n)) => {
                let mut start = copy_bytes(prefix, 0, k);
                n.collect_entries(&mut start, &mut out);
                proof {
                    assert(out@.skip(0) =~= out@);
                    assert(prefix@.subrange(0, k as int) =~= prefix@.take(k as int));
                    lemma_prefix_listing(out@, self.root, prefix@, k as int, *n);
                }
            },
            None => {
                proof {
                    let m = self@.filter_keys(|q: Seq<u8>| prefix@.is_prefix_of(q));
                    assert forall|q: Seq<u8>| !(#[trigger] m.contains_key(q)) by {
                        if prefix@.is_prefix_of(q) {
                            assert(self.root.lookup(q) is None);
                        }
                    }
                }
            },
        }
        out
    }
}

/// The values of `all`, in order.
fn values_in<'a, T>(all: Vec<(Vec<u8>, &'a T)>) -> (r: Vec<&'a T>)
    ensures
        r@ == values_of(all@),
{
    let mut r: Vec<&T> = Vec::new();
    let mut i: usize = 0;
    while i < all.len()
        invariant
            0 <= i <= all@.len(),
            r@ == values_of(all@).take(i as int),
        decreases all@.len() - i,
    {
        r.push(all[i].1);
        assert(r@ =~= values_of(all@).take(i + 1));
        i = i + 1;
    }
    assert(r@ =~= values_of(all@));
    r
}

/// Copies of the keys of `all`, in order.
fn keys_in<T>(all: Vec<(Vec<u8>, &T)>) -> (r: Vec<Vec<u8>>)
    ensures
        r@.len() == all@.len(),
        forall|i: int| 0 <= i < all@.len() ==> (#[trigger] r@[i])@ == all@[i].0@,
{
    let mut r: Vec<Vec<u8>> = Vec::new();
    let mut i: usize = 0;
    while i < all.len()
        invariant
            0 <= i <= all@.len(),
            r@.len() == i,
            forall|j: int| 0 <= j < i ==> (#[trigger] r@[j])@ == all@[j].0@,
        decreases all@.len() - i,
    {
        let k = copy_bytes(all[i].0.as_slice(), 0, all[i].0.len());
        proof {
            assert(all@[i as int].0@.subrange(0, all@[i as int].0@.len() as int) =~= all@[i as int].0@);
        }
        r.push(k);
        i = i + 1;
    }
    r
}

/// The keys of a listing of a map list its domain.
pub proof fn lemma_keys_listing<T>(s: Seq<(Vec<u8>, &T)>, m: Map<Seq<u8>, T>, ks: Seq<Vec<u8>>)
    requires
        lists_map(s, m),
        ks.len() == s.len(),
        forall|i: int| 0 <= i < s.len() ==> (#[trigger] ks[i])@ == s[i].0@,
    ensures
        lists_set(byte_strings(ks), m.dom()),
{
    let b = byte_strings(ks);
    assert forall|i: int| 0 <= i < b.len() implies #[trigger] b[i] == s[i].0@ by {
        assert(ks[i]@ == s[i].0@);
    }
    assert forall|i: int, j: int| 0 <= i < j < b.len() implies lex_lt(#[trigger] b[i], #[trigger] b[j]) by {
        assert(b[i] == s[i].0@);
        assert(b[j] == s[j].0@);
    }
    assert forall|k: Seq<u8>| #[trigger] m.dom().contains(k) implies exists|i: int| 0 <= i < b.len() && b[i] == k by {
        assert(m.contains_key(k));
        let i = choose|i: int| 0 <= i < s.len() && s[i].0@ == k;
        assert(b[i] == k);
    }
}


/// The map that results from inserting `pairs` into `m` one after another.
pub open spec fn insert_all<T>(m: Map<Seq<u8>, T>, pairs: Seq<(Seq<u8>, T)>) -> Map<Seq<u8>, T>
    decreases pairs.len(),
{
    if pairs.len() == 0 {
        m
    } else {
        insert_all(m, pairs.drop_last()).insert(pairs.last().0, pairs.last().1)
    }
}

/// The value of the last pair whose key is `k`.
pub open spec fn last_value_for<T>(pairs: Seq<(Seq<u8>, T)>, k: Seq<u8>) -> T
    decreases pairs.len(),
{
    if pairs.len() == 0 {
        arbitrary()
    } else if pairs.last().0 == k {
        pairs.last().1
    } else {
        last_value_for(pairs.drop_last(), k)
    }
}

/// Inserting pairs one after another into an empty map gives a map whose keys are exactly
/// the inserted keys, each holding the value of the last pair with that key; its length is
/// the number of distinct keys.
pub proof fn lemma_round_trip<T>(pairs: Seq<(Seq<u8>, T)>)
    ensures
        insert_all(Map::empty(), pairs).dom() == pairs.map_values(|p: (Seq<u8>, T)| p.0).to_set(),
        insert_all(Map::empty(), pairs).len() == pairs.map_values(|p: (Seq<u8>, T)| p.0).to_set().len(),
        forall|k: Seq<u8>|
            #[trigger] insert_all(Map::empty(), pairs).contains_key(k) ==> insert_all(
                Map::empty(),
                pairs,
            )[k] == last_value_for(pairs, k),
    decreases pairs.len(),
{
    let keys = pairs.map_values(|p: (Seq<u8>, T)| p.0);
    if pairs.len() > 0 {
        let init = pairs.drop_last();
        lemma_round_trip(init);
        let ik = init.map_values(|p: (Seq<u8>, T)| p.0);
        assert(keys =~= ik.push(pairs.last().0));
        assert(keys.to_set() =~= ik.to_set().insert(pairs.last().0)) by {
            assert forall|k: Seq<u8>| keys.to_set().contains(k) <==> ik.to_set().insert(pairs.last().0).contains(k) by {
                if keys.contains(k) {
                    let i = choose|i: int| 0 <= i < keys.len() && keys[i] == k;
                    if i < ik.len() {
                        assert(ik[i] == k);
                    }
                }
                if ik.contains(k) {
                    let i = choose|i: int| 0 <= i < ik.len() && ik[i] == k;
                    assert(keys[i] == k);
                }
                if k == pairs.last().0 {
                    assert(keys[keys.len() - 1] == k);
                }
            }
        }
    } else {
        assert(keys.to_set() =~= Set::empty());
        assert(insert_all(Map::<Seq<u8>, T>::empty(), pairs).dom() =~= Set::empty());
    }
}

/// A listing of a finite map has as many entries as the map.
pub proof fn lemma_listing_len<T>(s: Seq<(Vec<u8>, &T)>, m: Map<Seq<u8>, T>)
    requires
        lists_map(s, m),
        m.dom().finite(),
    ensures
        s.len() == m.len(),
{
    let ks = crate::iter::keys_of(s);
    assert(ks.no_duplicates()) by {
        assert forall|i: int, j: int| 0 <= i < ks.len() && 0 <= j < ks.len() && i != j implies ks[i] != ks[j] by {
            if i < j {
                assert(lex_lt(s[i].0@, s[j].0@));
            } else {
                assert(lex_lt(s[j].0@, s[i].0@));
            }
            lemma_lex_irreflexive(ks[i]);
        }
    }
    assert(ks.to_set() =~= m.dom()) by {
        assert forall|k: Seq<u8>| ks.to_set().contains(k) <==> m.dom().contains(k) by {
            if m.dom().contains(k) {
                assert(m.contains_key(k));
                let i = choose|i: int| 0 <= i < s.len() && s[i].0@ == k;
                assert(ks[i] == k);
            }
            if ks.contains(k) {
                let i = choose|i: int| 0 <= i < ks.len() && ks[i] == k;
                assert(ks[i] == s[i].0@);
            }
        }
    }
    ks.unique_seq_to_set();
}

/// Two listings of the same finite map agree entry by entry.
pub proof fn lemma_listing_unique<T>(s1: Seq<(Vec<u8>, &T)>, s2: Seq<(Vec<u8>, &T)>, m: Map<Seq<u8>, T>)
    requires
        lists_map(s1, m),
        lists_map(s2, m),
        m.dom().finite(),
    ensures
        s1.len() == s2.len(),
        forall|i: int| 0 <= i < s1.len() ==> (#[trigger] s1[i]).0@ == s2[i].0@ && *s1[i].1 == *s2[i].1,
{
    lemma_listing_len(s1, m);
    lemma_listing_len(s2, m);
    assert forall|i: int| 0 <= i < s1.len() implies (#[trigger] s1[i]).0@ == s2[i].0@ && *s1[i].1 == *s2[i].1 by {
        lemma_listing_same_key(s1, s2, m, i);
    }
}

proof fn lemma_listing_same_key<T>(s1: Seq<(Vec<u8>, &T)>, s2: Seq<(Vec<u8>, &T)>, m: Map<Seq<u8>, T>, i: int)
    requires
        lists_map(s1, m),
        lists_map(s2, m),
        s1.len() == s2.len(),
        0 <= i < s1.len(),
    ensures
        s1[i].0@ == s2[i].0@,
    decreases i,
{
    assert(m.contains_key(s1[i].0@));
    let j = choose|j: int| 0 <= j < s2.len() && s2[j].0@ == s1[i].0@;
    assert(m.contains_key(s2[i].0@));
    let i2 = choose|i2: int| 0 <= i2 < s1.len() && s1[i2].0@ == s2[i].0@;
    if j < i {
        lemma_listing_same_key(s1, s2, m, j);
        assert(lex_lt(s1[j].0@, s1[i].0@));
        lemma_lex_irreflexive(s1[i].0@);
    } else if j > i {
        if i2 < i {
            lemma_listing_same_key(s1, s2, m, i2);
            assert(lex_lt(s2[i2].0@, s2[i].0@));
            lemma_lex_irreflexive(s2[i].0@);
        } else if i2 == i {
            assert(lex_lt(s2[i].0@, s2[j].0@));
            lemma_lex_irreflexive(s2[i].0@);
        } else {
            assert(lex_lt(s1[i].0@, s1[i2].0@));
            assert(lex_lt(s2[i].0@, s2[j].0@));
            lemma_lex_transitive(s1[i].0@, s2[i].0@, s2[j].0@);
            lemma_lex_irreflexive(s1[i].0@);
        }
    }
}

/// Inserting an absent key and then removing it gives back the map it started from, and
/// every listing of the result matches every listing of the starting map entry by entry.
pub proof fn lemma_remove_cancels_insert<T>(
    m: Map<Seq<u8>, T>,
    k: Seq<u8>,
    v: T,
    before: Seq<(Vec<u8>, &T)>,
    after: Seq<(Vec<u8>, &T)>,
)
    requires
        !m.contains_key(k),
        m.dom().finite(),
        lists_map(before, m),
        lists_map(after, m.insert(k, v).remove(k)),
    ensures
        m.insert(k, v).remove(k) == m,
        before.len() == after.len(),
        forall|i: int|
            0 <= i < before.len() ==> (#[trigger] before[i]).0@ == after[i].0@ && *before[i].1 == *after[i].1,
{
    assert(m.insert(k, v).remove(k) =~= m);
    lemma_listing_unique(before, after, m);
}

impl<T> RadixMap<T> {
    /// The tree behind the map keeps its shape rules: every node below the root has a
    /// non-empty fragment and holds a value or children, no valueless node below the root
    /// has a lone child whose fragment it could absorb, and children are sorted by the
    /// first byte of their fragments, which are distinct.
    pub closed spec fn tree_well_formed(&self) -> bool {
        self.root.wf()
    }

}


/// `s` lists the entries of `m`, values owned, in ascending key order, each key once.
pub open spec fn lists_owned<T>(s: Seq<(Vec<u8>, T)>, m: Map<Seq<u8>, T>) -> bool {
    &&& forall|i: int, j: int| 0 <= i < j < s.len() ==> lex_lt(#[trigger] s[i].0@, #[trigger] s[j].0@)
    &&& forall|i: int| 0 <= i < s.len() ==> m.contains_key(#[trigger] s[i].0@) && m[s[i].0@] == s[i].1
    &&& forall|k: Seq<u8>| #[trigger] m.contains_key(k) ==> exists|i: int| 0 <= i < s.len() && s[i].0@ == k
}

/// The entries of a map, moved out of it one at a time in ascending key order.
pub struct IntoIter<T> {
    iter: Iter<(Vec<u8>, T)>,
}

impl<T> View for IntoIter<T> {
    type V = Seq<(Vec<u8>, T)>;

    closed spec fn view(&self) -> Seq<(Vec<u8>, T)> {
        self.iter@
    }
}

impl<T> IntoIter<T> {
    /// Takes the entries out of `map`, in ascending key order.
    pub fn new(map: RadixMap<T>) -> (r: Self)
        requires
            map.wf(),
        ensures
            lists_owned(r@, map@),
    {
        let ghost m0 = map@;
        let mut map = map;
        let keys = keys_in(map.entries_in_order());
        let ghost ks = byte_strings(keys@);
        proof {
            lemma_keys_listing_seq(keys@, m0);
        }
        let mut out: Vec<(Vec<u8>, T)> = Vec::new();
        let mut i: usize = 0;
        while i < keys.len()
            invariant
                map.wf(),
                0 <= i <= keys@.len(),
                ks == byte_strings(keys@),
                lists_set(ks, m0.dom()),
                out@.len() == i,
                forall|j: int| 0 <= j < i ==> (#[trigger] out@[j]).0@ == ks[j] && out@[j].1 == m0[ks[j]],
                forall|k: Seq<u8>|
                    #[trigger] map@.contains_key(k) <==> m0.contains_key(k) && !ks.take(i as int).contains(k),
                forall|k: Seq<u8>| #[trigger] map@.contains_key(k) ==> map@[k] == m0[k],
            decreases keys@.len() - i,
        {
            let ghost k = ks[i as int];
            proof {
                assert(keys@[i as int]@ == k);
                assert(m0.contains_key(k));
                assert(!ks.take(i as int).contains(k)) by {
                    if ks.take(i as int).contains(k) {
                        let j = choose|j: int| 0 <= j < i && #[trigger] ks.take(i as int)[j] == k;
                        assert(lex_lt(ks[j], ks[i as int]));
                        lemma_lex_irreflexive(k);
                    }
                }
            }
            let key = copy_bytes(keys[i].as_slice(), 0, keys[i].len());
            proof {
                assert(keys@[i as int]@.subrange(0, keys@[i as int]@.len() as int) =~= keys@[i as int]@);
            }
            let v = map.remove(keys[i].as_slice());
            match v {
                Some(v) => {
                    out.push((key, v));
                },
                None => {},
            }
            proof {
                assert(ks.take(i + 1) =~= ks.take(i as int).push(k));
                assert(out@[i as int].0@ == k);
                assert forall|k2: Seq<u8>|
                    #[trigger] map@.contains_key(k2) <==> m0.contains_key(k2) && !ks.take(i + 1).contains(k2) by {
                    if ks.take(i + 1).contains(k2) && k2 != k {
                        let j = choose|j: int| 0 <= j < i + 1 && #[trigger] ks.take(i + 1)[j] == k2;
                        assert(ks.take(i as int)[j] == k2);
                    }
                    if ks.take(i as int).contains(k2) {
                        let j = choose|j: int| 0 <= j < i && #[trigger] ks.take(i as int)[j] == k2;
                        assert(ks.take(i + 1)[j] == k2);
                    }
                    if k2 == k {
                        assert(ks.take(i + 1)[i as int] == k2);
                    }
                }
            }
            i = i + 1;
        }
        proof {
            assert(ks.take(keys@.len() as int) =~= ks);
            let s = out@;
            assert forall|a: int, b: int| 0 <= a < b < s.len() implies lex_lt(#[trigger] s[a].0@, #[trigger] s[b].0@) by {
                assert(s[a].0@ == ks[a]);
                assert(s[b].0@ == ks[b]);
            }
            assert forall|a: int| 0 <= a < s.len() implies m0.contains_key(#[trigger] s[a].0@) && m0[s[a].0@] == s[a].1 by {
                assert(s[a].0@ == ks[a]);
            }
            assert forall|k: Seq<u8>| #[trigger] m0.contains_key(k) implies exists|a: int| 0 <= a < s.len() && s[a].0@ == k by {
                assert(m0.dom().contains(k));
                let a = choose|a: int| 0 <= a < ks.len() && ks[a] == k;
                assert(s[a].0@ == ks[a]);
            }
        }
        IntoIter { iter: Iter::new(out) }
    }

    /// The next entry, if any is left.
    pub fn next(&mut self) -> (r: Option<(Vec<u8>, T)>)
        ensures
            old(self)@.len() == 0 ==> r is None && final(self)@ == old(self)@,
            old(self)@.len() > 0 ==> r == Some(old(self)@[0]) && final(self)@ == old(self)@.drop_first(),
    {
        self.iter.next()
    }

    /// How many entries are left.
    pub fn len(&self) -> (r: usize)
        ensures
            r == self@.len(),
    {
        self.iter.len()
    }
}

/// Copies of the keys of a listing list the map's domain.
pub proof fn lemma_keys_listing_seq<T>(ks: Seq<Vec<u8>>, m: Map<Seq<u8>, T>)
    requires
        exists|s: Seq<(Vec<u8>, &T)>|
            lists_map(s, m) && ks.len() == s.len() && forall|i: int| 0 <= i < s.len() ==> (#[trigger] ks[i])@ == s[i].0@,
    ensures
        lists_set(byte_strings(ks), m.dom()),
{
    let s = choose|s: Seq<(Vec<u8>, &T)>|
        lists_map(s, m) && ks.len() == s.len() && forall|i: int| 0 <= i < s.len() ==> (#[trigger] ks[i])@ == s[i].0@;
    lemma_keys_listing(s, m, ks);
}

impl<T> RadixMap<T> {
    /// Moves every entry out of the map, in ascending key order.
    pub fn into_iter(self) -> (r: IntoIter<T>)
        requires
            self.wf(),
        ensures
            lists_owned(r@, self@),
    {
        IntoIter::new(self)
    }
}


/// The entries that a range walk keeps from a listing of a map list the part of the map
/// between the bounds.
pub proof fn lemma_range_listing<T>(
    sa: Seq<(Vec<u8>, &T)>,
    ra: Seq<(Vec<u8>, &T)>,
    m0: Map<Seq<u8>, T>,
    lower: KeyBound,
    upper: KeyBound,
)
    requires
        lists_map(sa, m0),
        selects_range(sa, ra, lower, upper),
    ensures
        lists_map(ra, m0.filter_keys(|k: Seq<u8>| in_bounds(lower, upper, k))),
{
    let m = m0.filter_keys(|k: Seq<u8>| in_bounds(lower, upper, k));
    assert forall|i: int| 0 <= i < ra.len() implies m.contains_key(#[trigger] ra[i].0@) && m[ra[i].0@] == *ra[i].1 by {
        let j = choose|j: int| 0 <= j < sa.len() && sa[j].0@ == ra[i].0@ && sa[j].1 == ra[i].1;
        assert(m0.contains_key(sa[j].0@));
    }
    assert forall|k: Seq<u8>| #[trigger] m.contains_key(k) implies exists|i: int| 0 <= i < ra.len() && ra[i].0@ == k by {
        assert(m0.contains_key(k));
        let j = choose|j: int| 0 <= j < sa.len() && sa[j].0@ == k;
        assert(in_bounds(lower, upper, sa[j].0@));
    }
}

/// After a range walk over mutable references, each kept reference finally holds what the
/// map finally holds under its key, and keys outside the bounds keep their values.
pub proof fn lemma_range_finals<T>(
    s: Seq<(Vec<u8>, &mut T)>,
    out: Seq<(Vec<u8>, &mut T)>,
    ix: Seq<int>,
    fmap: Map<Seq<u8>, T>,
    m0: Map<Seq<u8>, T>,
    lower: KeyBound,
    upper: KeyBound,
)
    requires
        lists_map(as_shared(s), m0),
        forall|j: int| 0 <= j < s.len() ==> fmap[(#[trigger] s[j]).0@] == *final(s[j].1),
        ix.len() == out.len(),
        forall|a: int| 0 <= a < out.len() ==> 0 <= #[trigger] ix[a] < s.len() && s[ix[a]] == out[a],
        forall|j: int|
            0 <= j < s.len() && !in_bounds(lower, upper, (#[trigger] s[j]).0@) ==> *final(s[j].1) == *s[j].1,
    ensures
        forall|i: int| 0 <= i < out.len() ==> fmap[(#[trigger] out[i]).0@] == *final(out[i].1),
        forall|k: Seq<u8>|
            m0.contains_key(k) && !in_bounds(lower, upper, k) ==> #[trigger] fmap[k] == m0[k],
{
    lemma_as_shared(s, Seq::empty());
    assert forall|i: int| 0 <= i < out.len() implies fmap[(#[trigger] out[i]).0@] == *final(out[i].1) by {
        assert(s[ix[i]] == out[i]);
    }
    assert forall|k: Seq<u8>| m0.contains_key(k) && !in_bounds(lower, upper, k) implies #[trigger] fmap[k] == m0[k] by {
        let j = choose|j: int| 0 <= j < as_shared(s).len() && as_shared(s)[j].0@ == k;
        assert(s[j].0@ == k);
        assert(*final(s[j].1) == *s[j].1);
        assert(m0[as_shared(s)[j].0@] == *as_shared(s)[j].1);
    }
}

} // verus!
