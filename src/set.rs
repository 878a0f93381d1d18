use vstd::prelude::*;

use crate::iter::Iter;
use crate::map::{byte_strings, RadixMap};
use crate::order::{
    compare_bytes, copy_bytes, lemma_lex_irreflexive, lemma_lex_transitive,
    lex_lt, lists_set, strictly_sorted,
};

verus! {

/// An ordered set of byte strings, stored as a radix tree.
pub struct RadixSet {
    inner: RadixMap<()>,
}

impl View for RadixSet {
    type V = Set<Seq<u8>>;

    closed spec fn view(&self) -> Set<Seq<u8>> {
        self.inner@.dom()
    }
}

impl RadixSet {
    /// The set's invariant: that of the map behind it.
    pub closed spec fn wf(&self) -> bool {
        self.inner.wf()
    }

    /// An empty set.
    pub fn new() -> (r: Self)
        ensures
            r.wf(),
            r@ == Set::<Seq<u8>>::empty(),
    {
        let inner = RadixMap::new();
        assert(inner@.dom() =~= Set::<Seq<u8>>::empty());
        RadixSet { inner }
    }

    /// The number of members.
    pub fn len(&self) -> (r: usize)
        requires
            self.wf(),
        ensures
            r == self@.len(),
    {
        self.inner.len()
    }

    /// Whether the set has no members.
    pub fn is_empty(&self) -> (r: bool)
        requires
            self.wf(),
        ensures
            r == (self@.len() == 0),
    {
        self.inner.is_empty()
    }

    /// Adds `key`; true when it was not a member before.
    pub fn insert(&mut self, key: &[u8]) -> (r: bool)
        requires
            old(self).wf(),
            old(self)@.len() < usize::MAX,
        ensures
            final(self).wf(),
            r == !old(self)@.contains(key@),
            final(self)@ == old(self)@.insert(key@),
    {
        let r = self.inner.insert(key, ());
        assert(self.inner@.dom() =~= old(self).inner@.dom().insert(key@));
        r.is_none()
    }

    /// Removes `key`; true when it was a member.
    pub fn remove(&mut self, key: &[u8]) -> (r: bool)
        requires
            old(self).wf(),
        ensures
            final(self).wf(),
            r == old(self)@.contains(key@),
            final(self)@ == old(self)@.remove(key@),
    {
        let r = self.inner.remove(key);
        assert(self.inner@.dom() =~= old(self).inner@.dom().remove(key@));
        r.is_some()
    }

    /// Whether `key` is a member.
    pub fn contains(&self, key: &[u8]) -> (r: bool)
        requires
            self.wf(),
        ensures
            r == self@.contains(key@),
    {
        self.inner.contains_key(key)
    }

    /// Every member, in ascending order; as many as the set has.
    pub fn iter(&self) -> (r: Iter<Vec<u8>>)
        requires
            self.wf(),
        ensures
            lists_set(byte_strings(r@), self@),
            r@.len() == self@.len(),
    {
        self.inner.keys()
    }

    /// Every member that starts with `prefix`, in ascending order.
    pub fn prefix_iter(&self, prefix: &[u8]) -> (r: Iter<Vec<u8>>)
        requires
            self.wf(),
        ensures
            lists_set(byte_strings(r@), self@.filter(|k: Seq<u8>| prefix@.is_prefix_of(k))),
    {
        self.inner.prefix_keys(prefix)
    }

    /// The members of both sets, in ascending order.
    pub fn intersection(&self, other: &RadixSet) -> (r: Intersection)
        requires
            self.wf(),
            other.wf(),
        ensures
            lists_set(byte_strings(r@), self@.intersect(other@)),
    {
        Intersection::new(self, other)
    }

    /// The members of either set, once each, in ascending order.
    pub fn union(&self, other: &RadixSet) -> (r: Union)
        requires
            self.wf(),
            other.wf(),
        ensures
            lists_set(byte_strings(r@), self@.union(other@)),
    {
        Union::new(self, other)
    }

    /// The members of this set that are not in `other`, in ascending order.
    pub fn difference(&self, other: &RadixSet) -> (r: Difference)
        requires
            self.wf(),
            other.wf(),
        ensures
            lists_set(byte_strings(r@), self@.difference(other@)),
    {
        Difference::new(self, other)
    }

    /// The set of the given keys.
    pub fn from_keys(keys: &[&[u8]]) -> (r: Self)
        requires
            keys@.len() < usize::MAX,
        ensures
            r.wf(),
            forall|k: Seq<u8>| #[trigger] r@.contains(k) <==> exists|i: int| 0 <= i < keys@.len() && keys@[i]@ == k,
    {
        let mut set = RadixSet::new();
        let mut i: usize = 0;
        while i < keys.len()
            invariant
                set.wf(),
                0 <= i <= keys@.len() < usize::MAX,
                set@.len() <= i,
                set@.finite(),
                forall|k: Seq<u8>| #[trigger] set@.contains(k) <==> exists|j: int| 0 <= j < i && keys@[j]@ == k,
            decreases keys@.len() - i,
        {
            set.insert(keys[i]);
            proof {
                assert forall|k: Seq<u8>| #[trigger] set@.contains(k) <==> exists|j: int| 0 <= j < i + 1 && keys@[j]@ == k by {
                    if k == keys@[i as int]@ {
                        assert(keys@[i as int]@ == k);
                    }
                }
            }
            i = i + 1;
        }
        set
    }
}

/// The members of a listing form the set it lists.
pub proof fn lemma_listed_member(s: Seq<Seq<u8>>, set: Set<Seq<u8>>, x: Seq<u8>)
    requires
        lists_set(s, set),
    ensures
        set.contains(x) <==> s.contains(x),
{
    if set.contains(x) {
        let i = choose|i: int| 0 <= i < s.len() && s[i] == x;
        assert(s[i] == x);
    }
}

/// `x` sorts below every member of `s` from position `i` on.
pub open spec fn below_from(x: Seq<u8>, s: Seq<Seq<u8>>, i: int) -> bool {
    forall|p: int| i <= p < s.len() ==> lex_lt(x, #[trigger] s[p])
}

/// The state of a two-way walk over the listings `a` and `b` that has passed `a[..i]` and
/// `b[..j]`: `out` is sorted, below what is left of both, and keeps what `keep` selects.
#[verifier::opaque]
pub open spec fn walk_inv(
    a: Seq<Seq<u8>>,
    b: Seq<Seq<u8>>,
    out: Seq<Seq<u8>>,
    i: int,
    j: int,
    keep: spec_fn(bool, bool) -> bool,
) -> bool {
    &&& 0 <= i <= a.len()
    &&& 0 <= j <= b.len()
    &&& strictly_sorted(out)
    &&& forall|k: int|
        0 <= k < out.len() ==> keep(a.contains(#[trigger] out[k]), b.contains(out[k])) && (a.contains(
            out[k],
        ) || b.contains(out[k]))
    &&& forall|k: int| 0 <= k < out.len() ==> below_from(#[trigger] out[k], a, i) && below_from(out[k], b, j)
    &&& forall|p: int| 0 <= p < i && keep(true, b.contains(a[p])) ==> out.contains(#[trigger] a[p])
    &&& forall|q: int| 0 <= q < j && keep(a.contains(b[q]), true) ==> out.contains(#[trigger] b[q])
    &&& forall|p: int| 0 <= p < i ==> below_from(#[trigger] a[p], b, j)
    &&& forall|q: int| 0 <= q < j ==> below_from(#[trigger] b[q], a, i)
}

/// Moves past `a[i]`, which sorts below `b[j]` when `b` has anything left, keeping it
/// when `keep` says so.
pub proof fn lemma_walk_left(
    a: Seq<Seq<u8>>,
    b: Seq<Seq<u8>>,
    out: Seq<Seq<u8>>,
    i: int,
    j: int,
    keep: spec_fn(bool, bool) -> bool,
    take: bool,
)
    requires
        strictly_sorted(a),
        strictly_sorted(b),
        walk_inv(a, b, out, i, j, keep),
        i < a.len(),
        j < b.len() ==> lex_lt(a[i], b[j]),
        take == keep(true, false),
    ensures
        walk_inv(a, b, if take { out.push(a[i]) } else { out }, i + 1, j, keep),
{
    reveal(walk_inv);
    assert(!b.contains(a[i])) by {
        if b.contains(a[i]) {
            let q = choose|q: int| 0 <= q < b.len() && b[q] == a[i];
            lemma_lex_irreflexive(a[i]);
            if q < j {
                assert(below_from(b[q], a, i));
            } else if q > j {
                assert(lex_lt(b[j], b[q]));
                lemma_lex_transitive(a[i], b[j], b[q]);
            }
        }
    }
    assert forall|p: int| 0 <= p < i + 1 implies below_from(#[trigger] a[p], b, j) by {
        if p == i {
            assert forall|q: int| j <= q < b.len() implies lex_lt(a[p], #[trigger] b[q]) by {
                if q > j {
                    assert(lex_lt(b[j], b[q]));
                    lemma_lex_transitive(a[i], b[j], b[q]);
                }
            }
        }
    }
    assert(a.contains(a[i])) by {
        assert(a[i] == a[i]);
    }
    let o2 = if take { out.push(a[i]) } else { out };
    assert forall|k: int| 0 <= k < o2.len() implies below_from(#[trigger] o2[k], a, i + 1) && below_from(o2[k], b, j) by {
        if k < out.len() {
            assert(o2[k] == out[k]);
        } else {
            assert forall|q: int| j <= q < b.len() implies lex_lt(o2[k], #[trigger] b[q]) by {
                if q > j {
                    assert(lex_lt(b[j], b[q]));
                    lemma_lex_transitive(a[i], b[j], b[q]);
                }
            }
        }
    }
    assert forall|a1: int, b1: int| 0 <= a1 < b1 < o2.len() implies lex_lt(#[trigger] o2[a1], #[trigger] o2[b1]) by {
        if b1 < out.len() {
            assert(o2[a1] == out[a1]);
            assert(o2[b1] == out[b1]);
        } else {
            assert(o2[a1] == out[a1]);
            assert(below_from(out[a1], a, i));
        }
    }
    assert forall|k: int|
        0 <= k < o2.len() implies keep(a.contains(#[trigger] o2[k]), b.contains(o2[k])) && (a.contains(o2[k])
            || b.contains(o2[k])) by {
        if k < out.len() {
            assert(o2[k] == out[k]);
        }
    }
    assert forall|p: int| 0 <= p < i + 1 && keep(true, b.contains(a[p])) implies o2.contains(#[trigger] a[p]) by {
        if p < i {
            let k = choose|k: int| 0 <= k < out.len() && out[k] == a[p];
            assert(o2[k] == out[k]);
        } else {
            assert(o2[out.len() as int] == a[p]);
        }
    }
    assert forall|q: int| 0 <= q < j && keep(a.contains(b[q]), true) implies o2.contains(#[trigger] b[q]) by {
        let k = choose|k: int| 0 <= k < out.len() && out[k] == b[q];
        assert(o2[k] == out[k]);
    }
}

/// Moves past `a[i] == b[j]`, keeping it when `keep` says so.
pub proof fn lemma_walk_both(
    a: Seq<Seq<u8>>,
    b: Seq<Seq<u8>>,
    out: Seq<Seq<u8>>,
    i: int,
    j: int,
    keep: spec_fn(bool, bool) -> bool,
    take: bool,
)
    requires
        strictly_sorted(a),
        strictly_sorted(b),
        walk_inv(a, b, out, i, j, keep),
        i < a.len(),
        j < b.len(),
        a[i] == b[j],
        take == keep(true, true),
    ensures
        walk_inv(a, b, if take { out.push(a[i]) } else { out }, i + 1, j + 1, keep),
{
    reveal(walk_inv);
    assert(a.contains(a[i])) by {
        assert(a[i] == a[i]);
    }
    assert(b.contains(a[i])) by {
        assert(b[j] == a[i]);
    }
    assert forall|p: int| 0 <= p < i + 1 implies below_from(#[trigger] a[p], b, j + 1) by {
        if p == i {
            assert forall|q: int| j + 1 <= q < b.len() implies lex_lt(a[p], #[trigger] b[q]) by {
                assert(lex_lt(b[j], b[q]));
            }
        }
    }
    assert forall|q: int| 0 <= q < j + 1 implies below_from(#[trigger] b[q], a, i + 1) by {
        if q == j {
            assert forall|p: int| i + 1 <= p < a.len() implies lex_lt(b[q], #[trigger] a[p]) by {
                assert(lex_lt(a[i], a[p]));
            }
        }
    }
    let o2 = if take { out.push(a[i]) } else { out };
    assert forall|k: int| 0 <= k < o2.len() implies below_from(#[trigger] o2[k], a, i + 1) && below_from(o2[k], b, j + 1) by {
        if k < out.len() {
            assert(o2[k] == out[k]);
        } else {
            assert forall|q: int| j + 1 <= q < b.len() implies lex_lt(o2[k], #[trigger] b[q]) by {
                assert(lex_lt(b[j], b[q]));
            }
        }
    }
    assert forall|a1: int, b1: int| 0 <= a1 < b1 < o2.len() implies lex_lt(#[trigger] o2[a1], #[trigger] o2[b1]) by {
        if b1 < out.len() {
            assert(o2[a1] == out[a1]);
            assert(o2[b1] == out[b1]);
        } else {
            assert(o2[a1] == out[a1]);
            assert(below_from(out[a1], a, i));
        }
    }
    assert forall|k: int|
        0 <= k < o2.len() implies keep(a.contains(#[trigger] o2[k]), b.contains(o2[k])) && (a.contains(o2[k])
            || b.contains(o2[k])) by {
        if k < out.len() {
            assert(o2[k] == out[k]);
        }
    }
    assert forall|p: int| 0 <= p < i + 1 && keep(true, b.contains(a[p])) implies o2.contains(#[trigger] a[p]) by {
        if p < i {
            let k = choose|k: int| 0 <= k < out.len() && out[k] == a[p];
            assert(o2[k] == out[k]);
        } else {
            assert(o2[out.len() as int] == a[p]);
        }
    }
    assert forall|q: int| 0 <= q < j + 1 && keep(a.contains(b[q]), true) implies o2.contains(#[trigger] b[q]) by {
        if q < j {
            let k = choose|k: int| 0 <= k < out.len() && out[k] == b[q];
            assert(o2[k] == out[k]);
        } else {
            assert(o2[out.len() as int] == b[q]);
        }
    }
}

/// The walk's state with the roles of the two listings exchanged.
pub proof fn lemma_walk_swap(
    a: Seq<Seq<u8>>,
    b: Seq<Seq<u8>>,
    out: Seq<Seq<u8>>,
    i: int,
    j: int,
    keep: spec_fn(bool, bool) -> bool,
    swapped: spec_fn(bool, bool) -> bool,
)
    requires
        walk_inv(a, b, out, i, j, keep),
        forall|x: bool, y: bool| #[trigger] swapped(x, y) == keep(y, x),
    ensures
        walk_inv(b, a, out, j, i, swapped),
{
    reveal(walk_inv);
    assert forall|k: int|
        0 <= k < out.len() implies swapped(b.contains(#[trigger] out[k]), a.contains(out[k])) && (b.contains(out[k])
            || a.contains(out[k])) by {
        assert(keep(a.contains(out[k]), b.contains(out[k])));
    }
    assert forall|p: int| 0 <= p < j && swapped(true, a.contains(b[p])) implies out.contains(#[trigger] b[p]) by {
        assert(keep(a.contains(b[p]), true));
    }
    assert forall|q: int| 0 <= q < i && swapped(b.contains(a[q]), true) implies out.contains(#[trigger] a[q]) by {
        assert(keep(true, b.contains(a[q])));
    }
}

/// A finished walk lists exactly the strings that `keep` selects.
pub proof fn lemma_walk_done(
    a: Seq<Seq<u8>>,
    b: Seq<Seq<u8>>,
    out: Seq<Seq<u8>>,
    keep: spec_fn(bool, bool) -> bool,
    sa: Set<Seq<u8>>,
    sb: Set<Seq<u8>>,
    target: Set<Seq<u8>>,
)
    requires
        walk_inv(a, b, out, a.len() as int, b.len() as int, keep),
        lists_set(a, sa),
        lists_set(b, sb),
        forall|x: Seq<u8>|
            #[trigger] target.contains(x) <==> (sa.contains(x) || sb.contains(x)) && keep(
                sa.contains(x),
                sb.contains(x),
            ),
    ensures
        lists_set(out, target),
{
    reveal(walk_inv);
    assert forall|k: int| 0 <= k < out.len() implies target.contains(#[trigger] out[k]) by {
        lemma_listed_member(a, sa, out[k]);
        lemma_listed_member(b, sb, out[k]);
    }
    assert forall|x: Seq<u8>| #[trigger] target.contains(x) implies exists|k: int| 0 <= k < out.len() && out[k] == x by {
        lemma_listed_member(a, sa, x);
        lemma_listed_member(b, sb, x);
        if a.contains(x) {
            let p = choose|p: int| 0 <= p < a.len() && a[p] == x;
            assert(out.contains(a[p]));
        } else {
            let q = choose|q: int| 0 <= q < b.len() && b[q] == x;
            assert(out.contains(b[q]));
        }
    }
}

/// Walks the listings `a` and `b` together and keeps, in ascending order, each string
/// that `keep` selects from whether it is in `a` and whether it is in `b`.
fn merge_walk(
    a: &Vec<Vec<u8>>,
    b: &Vec<Vec<u8>>,
    keep_left: bool,
    keep_right: bool,
    keep_both: bool,
    keep: Ghost<spec_fn(bool, bool) -> bool>,
) -> (r: Vec<Vec<u8>>)
    requires
        strictly_sorted(byte_strings(a@)),
        strictly_sorted(byte_strings(b@)),
        keep@(true, false) == keep_left,
        keep@(false, true) == keep_right,
        keep@(true, true) == keep_both,
    ensures
        walk_inv(
            byte_strings(a@),
            byte_strings(b@),
            byte_strings(r@),
            a@.len() as int,
            b@.len() as int,
            keep@,
        ),
{
    let ghost sa = byte_strings(a@);
    let ghost sb = byte_strings(b@);
    let ghost swapped: spec_fn(bool, bool) -> bool = |x: bool, y: bool| keep@(y, x);
    let mut out: Vec<Vec<u8>> = Vec::new();
    let mut i: usize = 0;
    let mut j: usize = 0;
    proof {
        reveal(walk_inv);
        assert(byte_strings(out@) =~= Seq::<Seq<u8>>::empty());
    }
    while i < a.len() || j < b.len()
        invariant
            strictly_sorted(sa),
            strictly_sorted(sb),
            sa == byte_strings(a@),
            sb == byte_strings(b@),
            keep@(true, false) == keep_left,
            keep@(false, true) == keep_right,
            keep@(true, true) == keep_both,
            forall|x: bool, y: bool| #[trigger] swapped(x, y) == keep@(y, x),
            walk_inv(sa, sb, byte_strings(out@), i as int, j as int, keep@),
        decreases a@.len() + b@.len() - i - j,
    {
        let ghost o = byte_strings(out@);
        proof {
            reveal(walk_inv);
        }
        let c: i8 = if i == a.len() {
            1
        } else if j == b.len() {
            -1
        } else {
            compare_bytes(a[i].as_slice(), b[j].as_slice())
        };
        if c < 0 {
            proof {
                assert(sa[i as int] == a@[i as int]@);
                if j < b.len() {
                    assert(sb[j as int] == b@[j as int]@);
                }
                lemma_walk_left(sa, sb, o, i as int, j as int, keep@, keep_left);
            }
            if keep_left {
                out.push(copy_bytes(a[i].as_slice(), 0, a[i].len()));
                proof {
                    assert(a@[i as int]@.subrange(0, a@[i as int]@.len() as int) =~= a@[i as int]@);
                    assert(byte_strings(out@) =~= o.push(sa[i as int]));
                }
            }
            i = i + 1;
        } else if c > 0 {
            proof {
                assert(sb[j as int] == b@[j as int]@);
                if i < a.len() {
                    assert(sa[i as int] == a@[i as int]@);
                }
                lemma_walk_swap(sa, sb, o, i as int, j as int, keep@, swapped);
                lemma_walk_left(sb, sa, o, j as int, i as int, swapped, keep_right);
            }
            if keep_right {
                out.push(copy_bytes(b[j].as_slice(), 0, b[j].len()));
                proof {
                    assert(b@[j as int]@.subrange(0, b@[j as int]@.len() as int) =~= b@[j as int]@);
                    assert(byte_strings(out@) =~= o.push(sb[j as int]));
                }
            }
            proof {
                let o2 = byte_strings(out@);
                lemma_walk_swap(sb, sa, o2, j + 1, i as int, swapped, keep@);
            }
            j = j + 1;
        } else {
            proof {
                assert(sa[i as int] == a@[i as int]@);
                assert(sb[j as int] == b@[j as int]@);
                lemma_walk_both(sa, sb, o, i as int, j as int, keep@, keep_both);
            }
            if keep_both {
                out.push(copy_bytes(a[i].as_slice(), 0, a[i].len()));
                proof {
                    assert(a@[i as int]@.subrange(0, a@[i as int]@.len() as int) =~= a@[i as int]@);
                    assert(byte_strings(out@) =~= o.push(sa[i as int]));
                }
            }
            i = i + 1;
            j = j + 1;
        }
    }
    out
}

/// The keys of a set as a vector, in ascending order.
fn sorted_members(s: &RadixSet) -> (r: Vec<Vec<u8>>)
    requires
        s.wf(),
    ensures
        lists_set(byte_strings(r@), s@),
{
    let mut it = s.iter();
    let ghost all = it@;
    let mut r: Vec<Vec<u8>> = Vec::new();
    while it.len() > 0
        invariant
            r@.len() + it@.len() == all.len(),
            r@ + it@ == all,
        decreases it@.len(),
    {
        let ghost before = it@;
        match it.next() {
            Some(k) => {
                r.push(k);
                assert(r@ + it@ =~= all) by {
                    assert(before =~= seq![before[0]] + before.drop_first());
                }
            },
            None => {},
        }
    }
    assert(r@ =~= all);
    r
}

/// The members of two sets, in ascending order.
pub struct Intersection {
    iter: Iter<Vec<u8>>,
}

/// The members of either of two sets, in ascending order.
pub struct Union {
    iter: Iter<Vec<u8>>,
}

/// The members of one set that are not in another, in ascending order.
pub struct Difference {
    iter: Iter<Vec<u8>>,
}

impl View for Intersection {
    type V = Seq<Vec<u8>>;

    closed spec fn view(&self) -> Seq<Vec<u8>> {
        self.iter@
    }
}

impl View for Union {
    type V = Seq<Vec<u8>>;

    closed spec fn view(&self) -> Seq<Vec<u8>> {
        self.iter@
    }
}

impl View for Difference {
    type V = Seq<Vec<u8>>;

    closed spec fn view(&self) -> Seq<Vec<u8>> {
        self.iter@
    }
}

impl Intersection {
    /// The members of both `left` and `right`.
    pub fn new(left: &RadixSet, right: &RadixSet) -> (r: Self)
        requires
            left.wf(),
            right.wf(),
        ensures
            lists_set(byte_strings(r@), left@.intersect(right@)),
    {
        let a = sorted_members(left);
        let b = sorted_members(right);
        let ghost keep: spec_fn(bool, bool) -> bool = |x: bool, y: bool| x && y;
        let out = merge_walk(&a, &b, false, false, true, Ghost(keep));
        proof {
            lemma_walk_done(byte_strings(a@), byte_strings(b@), byte_strings(out@), keep, left@, right@, left@.intersect(right@));
        }
        Intersection { iter: Iter::new(out) }
    }

    /// The next member, if any is left.
    pub fn next(&mut self) -> (r: Option<Vec<u8>>)
        ensures
            old(self)@.len() == 0 ==> r is None && final(self)@ == old(self)@,
            old(self)@.len() > 0 ==> r == Some(old(self)@[0]) && final(self)@ == old(self)@.drop_first(),
    {
        self.iter.next()
    }
}

impl Union {
    /// The members of `left` or `right`, once each.
    pub fn new(left: &RadixSet, right: &RadixSet) -> (r: Self)
        requires
            left.wf(),
            right.wf(),
        ensures
            lists_set(byte_strings(r@), left@.union(right@)),
    {
        let a = sorted_members(left);
        let b = sorted_members(right);
        let ghost keep: spec_fn(bool, bool) -> bool = |x: bool, y: bool| true;
        let out = merge_walk(&a, &b, true, true, true, Ghost(keep));
        proof {
            lemma_walk_done(byte_strings(a@), byte_strings(b@), byte_strings(out@), keep, left@, right@, left@.union(right@));
        }
        Union { iter: Iter::new(out) }
    }

    /// The next member, if any is left.
    pub fn next(&mut self) -> (r: Option<Vec<u8>>)
        ensures
            old(self)@.len() == 0 ==> r is None && final(self)@ == old(self)@,
            old(self)@.len() > 0 ==> r == Some(old(self)@[0]) && final(self)@ == old(self)@.drop_first(),
    {
        self.iter.next()
    }
}

impl Difference {
    /// The members of `left` that are not in `right`.
    pub fn new(left: &RadixSet, right: &RadixSet) -> (r: Self)
        requires
            left.wf(),
            right.wf(),
        ensures
            lists_set(byte_strings(r@), left@.difference(right@)),
    {
        let a = sorted_members(left);
        let b = sorted_members(right);
        let ghost keep: spec_fn(bool, bool) -> bool = |x: bool, y: bool| x && !y;
        let out = merge_walk(&a, &b, true, false, false, Ghost(keep));
        proof {
            lemma_walk_done(byte_strings(a@), byte_strings(b@), byte_strings(out@), keep, left@, right@, left@.difference(right@));
        }
        Difference { iter: Iter::new(out) }
    }

    /// The next member, if any is left.
    pub fn next(&mut self) -> (r: Option<Vec<u8>>)
        ensures
            old(self)@.len() == 0 ==> r is None && final(self)@ == old(self)@,
            old(self)@.len() > 0 ==> r == Some(old(self)@[0]) && final(self)@ == old(self)@.drop_first(),
    {
        self.iter.next()
    }
}

} // verus!
