use vstd::prelude::*;

use crate::node::{as_shared, lemma_as_shared};
use crate::order::{copy_bytes, compare_bytes, lemma_lex_asymmetric, lemma_lex_irreflexive, lex_lt};

verus! {

/// `s` lists the entries of `m` in ascending key order, each key exactly once.
pub open spec fn lists_map<T>(s: Seq<(Vec<u8>, &T)>, m: Map<Seq<u8>, T>) -> bool {
    &&& forall|i: int, j: int| 0 <= i < j < s.len() ==> lex_lt(#[trigger] s[i].0@, #[trigger] s[j].0@)
    &&& forall|i: int|
        0 <= i < s.len() ==> m.contains_key(#[trigger] s[i].0@) && m[s[i].0@] == *s[i].1
    &&& forall|k: Seq<u8>| #[trigger] m.contains_key(k) ==> exists|i: int| 0 <= i < s.len() && s[i].0@ == k
}

/// The keys of a listing of entries.
pub open spec fn keys_of<T>(s: Seq<(Vec<u8>, &T)>) -> Seq<Seq<u8>> {
    s.map_values(|e: (Vec<u8>, &T)| e.0@)
}

/// The values of a listing of entries.
pub open spec fn values_of<'a, T>(s: Seq<(Vec<u8>, &'a T)>) -> Seq<&'a T> {
    s.map_values(|e: (Vec<u8>, &'a T)| e.1)
}

/// A sequence of items handed out one at a time, first to last.
pub struct Iter<I> {
    /// The items not yet handed out, the next one last.
    rest: Vec<I>,
}

impl<I> View for Iter<I> {
    type V = Seq<I>;

    closed spec fn view(&self) -> Seq<I> {
        Seq::new(self.rest@.len(), |i: int| self.rest@[self.rest@.len() - 1 - i])
    }
}

impl<I> Iter<I> {
    /// Hands out `items` in order.
    pub fn new(items: Vec<I>) -> (r: Self)
        ensures
            r@ == items@,
    {
        let ghost all = items@;
        let mut items = items;
        let mut rest: Vec<I> = Vec::new();
        while items.len() > 0
            invariant
                items@.len() + rest@.len() == all.len(),
                items@ == all.take(items@.len() as int),
                forall|i: int| 0 <= i < rest@.len() ==> #[trigger] rest@[i] == all[all.len() - 1 - i],
            decreases items@.len(),
        {
            let ghost n = items@.len();
            match items.pop() {
                Some(x) => {
                    rest.push(x);
                    assert(items@ =~= all.take(n - 1));
                },
                None => {},
            }
        }
        let r = Iter { rest };
        assert(r@ =~= items@.take(0) + all);
        r
    }

    /// The next item, if any is left.
    pub fn next(&mut self) -> (r: Option<I>)
        ensures
            old(self)@.len() == 0 ==> r is None && final(self)@ == old(self)@,
            old(self)@.len() > 0 ==> r == Some(old(self)@[0]) && final(self)@ == old(self)@.drop_first(),
    {
        let r = self.rest.pop();
        proof {
            assert(self@ =~= old(self)@.drop_first() || old(self)@.len() == 0);
        }
        r
    }

    /// How many items are left.
    pub fn len(&self) -> (r: usize)
        ensures
            r == self@.len(),
    {
        self.rest.len()
    }
}

/// One end of a range of keys.
pub enum KeyBound<'a> {
    Included(&'a [u8]),
    Excluded(&'a [u8]),
    Unbounded,
}

/// `k` lies on the upper side of the lower bound `b`.
pub open spec fn above_lower(b: KeyBound, k: Seq<u8>) -> bool {
    match b {
        KeyBound::Included(lo) => lo@ == k || lex_lt(lo@, k),
        KeyBound::Excluded(lo) => lex_lt(lo@, k),
        KeyBound::Unbounded => true,
    }
}

/// `k` lies on the lower side of the upper bound `b`.
pub open spec fn below_upper(b: KeyBound, k: Seq<u8>) -> bool {
    match b {
        KeyBound::Included(hi) => hi@ == k || lex_lt(k, hi@),
        KeyBound::Excluded(hi) => lex_lt(k, hi@),
        KeyBound::Unbounded => true,
    }
}

/// `k` lies between the two bounds.
pub open spec fn in_bounds(lower: KeyBound, upper: KeyBound, k: Seq<u8>) -> bool {
    above_lower(lower, k) && below_upper(upper, k)
}

/// Whether `key` lies on the upper side of the lower bound `bound`.
pub fn in_range_left(bound: &KeyBound, key: &[u8]) -> (r: bool)
    ensures
        r == above_lower(*bound, key@),
{
    match bound {
        KeyBound::Included(lo) => compare_bytes(lo, key) <= 0,
        KeyBound::Excluded(lo) => compare_bytes(lo, key) < 0,
        KeyBound::Unbounded => true,
    }
}

/// Whether `key` lies on the lower side of the upper bound `bound`.
pub fn in_range_right(bound: &KeyBound, key: &[u8]) -> (r: bool)
    ensures
        r == below_upper(*bound, key@),
{
    match bound {
        KeyBound::Included(hi) => compare_bytes(key, hi) <= 0,
        KeyBound::Excluded(hi) => compare_bytes(key, hi) < 0,
        KeyBound::Unbounded => true,
    }
}

/// The entries of a map whose keys lie between two bounds, in ascending key order.
pub struct Range<'a, T> {
    iter: Iter<(Vec<u8>, &'a T)>,
}

impl<'a, T> View for Range<'a, T> {
    type V = Seq<(Vec<u8>, &'a T)>;

    closed spec fn view(&self) -> Seq<(Vec<u8>, &'a T)> {
        self.iter@
    }
}

impl<'a, T> Range<'a, T> {
    /// Keeps, in order, the entries of `all` whose keys lie between `lower` and `upper`.
    /// The keys of `all` ascend strictly; the walk stops at the first key above `upper`.
    pub fn new(all: Vec<(Vec<u8>, &'a T)>, lower: KeyBound, upper: KeyBound) -> (r: Self)
        requires
            entries_sorted(all@),
        ensures
            selects_range(all@, r@, lower, upper),
    {
        let mut out: Vec<(Vec<u8>, &'a T)> = Vec::new();
        let mut i: usize = 0;
        let mut stopped = false;
        proof {
            reveal(range_inv);
        }
        while i < all.len() && !stopped
            invariant
                0 <= i <= all@.len(),
                entries_sorted(all@),
                range_inv(all@, out@, i as int, lower, upper),
                stopped ==> forall|j: int|
                    i <= j < all@.len() ==> !in_bounds(lower, upper, (#[trigger] all@[j]).0@),
            decreases all@.len() - i + if stopped { 0int } else { 1int },
        {
            let e = &all[i];
            if !in_range_right(&upper, e.0.as_slice()) {
                proof {
                    assert forall|j: int| i <= j < all@.len() implies !in_bounds(lower, upper, (#[trigger] all@[j]).0@) by {
                        if j > i {
                            lemma_past_upper(upper, all@[i as int].0@, all@[j].0@);
                        }
                    }
                }
                stopped = true;
            } else {
                let ghost o = out@;
                if in_range_left(&lower, e.0.as_slice()) {
                    out.push((copy_bytes(e.0.as_slice(), 0, e.0.len()), e.1));
                    proof {
                        assert(e.0@.subrange(0, e.0@.len() as int) =~= e.0@);
                        lemma_range_step_keep(all@, o, out@, i as int, lower, upper);
                    }
                } else {
                    proof {
                        lemma_range_step_skip(all@, out@, i as int, lower, upper);
                    }
                }
                i = i + 1;
            }
        }
        proof {
            lemma_range_done(all@, out@, i as int, lower, upper);
        }
        Range { iter: Iter::new(out) }
    }

    /// The next entry, if any is left.
    pub fn next(&mut self) -> (r: Option<(Vec<u8>, &'a T)>)
        ensures
            old(self)@.len() == 0 ==> r is None && final(self)@ == old(self)@,
            old(self)@.len() > 0 ==> r == Some(old(self)@[0]) && final(self)@ == old(self)@.drop_first(),
    {
        self.iter.next()
    }

    /// How many entries are left.
    pub fn len(&self) -> (r: usize)
        ensures
            r == self@.len(),
    {
        self.iter.len()
    }
}

/// The keys of `s` ascend strictly.
pub open spec fn entries_sorted<T>(s: Seq<(Vec<u8>, &T)>) -> bool {
    forall|i: int, j: int| 0 <= i < j < s.len() ==> lex_lt(#[trigger] s[i].0@, #[trigger] s[j].0@)
}

/// `r` holds, in the same order, exactly the entries of `all` whose keys lie between the
/// bounds.
pub open spec fn selects_range<T>(
    all: Seq<(Vec<u8>, &T)>,
    r: Seq<(Vec<u8>, &T)>,
    lower: KeyBound,
    upper: KeyBound,
) -> bool {
    &&& entries_sorted(r)
    &&& forall|i: int|
        0 <= i < r.len() ==> in_bounds(lower, upper, (#[trigger] r[i]).0@) && exists|j: int|
            0 <= j < all.len() && all[j].0@ == r[i].0@ && all[j].1 == r[i].1
    &&& forall|j: int|
        0 <= j < all.len() && in_bounds(lower, upper, (#[trigger] all[j]).0@) ==> exists|i: int|
            0 <= i < r.len() && r[i].0@ == all[j].0@ && r[i].1 == all[j].1
}

/// The range walk has looked at the first `i` entries of `all`.
#[verifier::opaque]
pub open spec fn range_inv<T>(
    all: Seq<(Vec<u8>, &T)>,
    out: Seq<(Vec<u8>, &T)>,
    i: int,
    lower: KeyBound,
    upper: KeyBound,
) -> bool {
    &&& entries_sorted(out)
    &&& forall|a: int|
        0 <= a < out.len() ==> in_bounds(lower, upper, (#[trigger] out[a]).0@) && exists|j: int|
            0 <= j < i && all[j].0@ == out[a].0@ && all[j].1 == out[a].1
    &&& forall|j: int|
        0 <= j < i && in_bounds(lower, upper, (#[trigger] all[j]).0@) ==> exists|a: int|
            0 <= a < out.len() && out[a].0@ == all[j].0@ && out[a].1 == all[j].1
}

pub proof fn lemma_range_step_keep<T>(
    all: Seq<(Vec<u8>, &T)>,
    o: Seq<(Vec<u8>, &T)>,
    out: Seq<(Vec<u8>, &T)>,
    i: int,
    lower: KeyBound,
    upper: KeyBound,
)
    requires
        0 <= i < all.len(),
        entries_sorted(all),
        range_inv(all, o, i, lower, upper),
        in_bounds(lower, upper, all[i].0@),
        out.len() == o.len() + 1,
        forall|a: int| 0 <= a < o.len() ==> out[a] == o[a],
        out[o.len() as int].0@ == all[i].0@,
        out[o.len() as int].1 == all[i].1,
    ensures
        range_inv(all, out, i + 1, lower, upper),
{
    reveal(range_inv);
    let n = o.len() as int;
    assert forall|a: int, b: int| 0 <= a < b < out.len() implies lex_lt(#[trigger] out[a].0@, #[trigger] out[b].0@) by {
        if b == n {
            let j = choose|j: int| 0 <= j < i && all[j].0@ == o[a].0@ && all[j].1 == o[a].1;
            assert(lex_lt(all[j].0@, all[i].0@));
        } else {
            assert(lex_lt(o[a].0@, o[b].0@));
        }
    }
    assert forall|a: int|
        0 <= a < out.len() implies in_bounds(lower, upper, (#[trigger] out[a]).0@) && exists|j: int|
            0 <= j < i + 1 && all[j].0@ == out[a].0@ && all[j].1 == out[a].1 by {
        if a < n {
            assert(out[a] == o[a]);
            let j = choose|j: int| 0 <= j < i && all[j].0@ == o[a].0@ && all[j].1 == o[a].1;
        } else {
            assert(all[i].0@ == out[a].0@ && all[i].1 == out[a].1);
        }
    }
    assert forall|j: int|
        0 <= j < i + 1 && in_bounds(lower, upper, (#[trigger] all[j]).0@) implies exists|a: int|
            0 <= a < out.len() && out[a].0@ == all[j].0@ && out[a].1 == all[j].1 by {
        if j < i {
            let a = choose|a: int| 0 <= a < n && o[a].0@ == all[j].0@ && o[a].1 == all[j].1;
            assert(out[a] == o[a]);
        } else {
            assert(out[n].0@ == all[j].0@ && out[n].1 == all[j].1);
        }
    }
}

pub proof fn lemma_range_step_skip<T>(
    all: Seq<(Vec<u8>, &T)>,
    out: Seq<(Vec<u8>, &T)>,
    i: int,
    lower: KeyBound,
    upper: KeyBound,
)
    requires
        0 <= i < all.len(),
        range_inv(all, out, i, lower, upper),
        !in_bounds(lower, upper, all[i].0@),
    ensures
        range_inv(all, out, i + 1, lower, upper),
{
    reveal(range_inv);
    assert forall|a: int|
        0 <= a < out.len() implies in_bounds(lower, upper, (#[trigger] out[a]).0@) && exists|j: int|
            0 <= j < i + 1 && all[j].0@ == out[a].0@ && all[j].1 == out[a].1 by {
        let j = choose|j: int| 0 <= j < i && all[j].0@ == out[a].0@ && all[j].1 == out[a].1;
    }
}

pub proof fn lemma_range_done<T>(
    all: Seq<(Vec<u8>, &T)>,
    out: Seq<(Vec<u8>, &T)>,
    i: int,
    lower: KeyBound,
    upper: KeyBound,
)
    requires
        0 <= i <= all.len(),
        range_inv(all, out, i, lower, upper),
        forall|j: int| i <= j < all.len() ==> !in_bounds(lower, upper, (#[trigger] all[j]).0@),
    ensures
        selects_range(all, out, lower, upper),
{
    reveal(range_inv);
    assert forall|a: int|
        0 <= a < out.len() implies in_bounds(lower, upper, (#[trigger] out[a]).0@) && exists|j: int|
            0 <= j < all.len() && all[j].0@ == out[a].0@ && all[j].1 == out[a].1 by {
        let j = choose|j: int| 0 <= j < i && all[j].0@ == out[a].0@ && all[j].1 == out[a].1;
    }
}

/// A key above the upper bound stays above it for every larger key.
pub proof fn lemma_past_upper(upper: KeyBound, a: Seq<u8>, b: Seq<u8>)
    requires
        !below_upper(upper, a),
        lex_lt(a, b),
    ensures
        !below_upper(upper, b),
{
    match upper {
        KeyBound::Included(hi) => {
            crate::order::lemma_lex_total(a, hi@);
            if hi@ == a {
                lemma_lex_asymmetric(a, b);
                lemma_lex_irreflexive(a);
            } else {
                if below_upper(upper, b) {
                    if hi@ == b {
                        lemma_lex_asymmetric(hi@, a);
                    } else {
                        crate::order::lemma_lex_transitive(hi@, a, b);
                        lemma_lex_asymmetric(hi@, b);
                    }
                }
            }
        },
        KeyBound::Excluded(hi) => {
            crate::order::lemma_lex_total(a, hi@);
            if lex_lt(b, hi@) {
                if hi@ == a {
                    lemma_lex_asymmetric(a, b);
                } else {
                    crate::order::lemma_lex_transitive(hi@, a, b);
                    lemma_lex_asymmetric(hi@, b);
                }
            }
        },
        KeyBound::Unbounded => {},
    }
}


/// Splits a mutable slice into one mutable reference per element, in order.
pub fn split_refs<'a, A>(cs: &'a mut [A]) -> (r: Vec<&'a mut A>)
    ensures
        r@.len() == old(cs)@.len(),
        final(cs)@.len() == old(cs)@.len(),
        forall|j: int| 0 <= j < r@.len() ==> *(#[trigger] r@[j]) == old(cs)@[j],
        forall|j: int| 0 <= j < r@.len() ==> *final(#[trigger] r@[j]) == final(cs)@[j],
    decreases old(cs)@.len(),
{
    if cs.len() == 0 {
        return Vec::new();
    }
    let (first, rest) = cs.split_at_mut(1);
    let f = first.first_mut().unwrap();
    let mut tail = split_refs(rest);
    let mut r: Vec<&'a mut A> = Vec::new();
    r.push(f);
    r.append(&mut tail);
    r
}


/// Entries of a map with mutable references to their values, handed out in ascending key
/// order.
pub struct IterMut<'a, T> {
    iter: Iter<(Vec<u8>, &'a mut T)>,
}

impl<'a, T> View for IterMut<'a, T> {
    type V = Seq<(Vec<u8>, &'a mut T)>;

    closed spec fn view(&self) -> Seq<(Vec<u8>, &'a mut T)> {
        self.iter@
    }
}

impl<'a, T> IterMut<'a, T> {
    /// Hands out `items` in order.
    pub fn new(items: Vec<(Vec<u8>, &'a mut T)>) -> (r: Self)
        ensures
            r@ == items@,
    {
        IterMut { iter: Iter::new(items) }
    }

    /// The next entry, if any is left.
    pub fn next(&mut self) -> (r: Option<(Vec<u8>, &'a mut T)>)
        ensures
            old(self)@.len() == 0 ==> r is None && final(self)@ == old(self)@,
            old(self)@.len() > 0 ==> r == Some(old(self)@[0]) && final(self)@ == old(self)@.drop_first(),
    {
        self.iter.next()
    }

    /// How many entries are left.
    pub fn len(&self) -> (r: usize)
        ensures
            r == self@.len(),
    {
        self.iter.len()
    }
}


/// Keeps, in order, the entries of `all` whose keys lie between `lower` and `upper`, and
/// tells for each where in `all` it stood; the references of the others are released
/// untouched. The keys of `all` ascend strictly; the walk stops at the first key above
/// `upper`.
pub(crate) fn select_range_mut<'a, T>(
    all: Vec<(Vec<u8>, &'a mut T)>,
    lower: KeyBound,
    upper: KeyBound,
) -> (r: (Vec<(Vec<u8>, &'a mut T)>, Ghost<Seq<int>>))
    requires
        entries_sorted(as_shared(all@)),
    ensures
        selects_range(as_shared(all@), as_shared(r.0@), lower, upper),
        r.1@.len() == r.0@.len(),
        forall|a: int| 0 <= a < r.0@.len() ==> 0 <= #[trigger] r.1@[a] < all@.len() && all@[r.1@[a]] == r.0@[a],
        forall|j: int|
            0 <= j < all@.len() && !in_bounds(lower, upper, (#[trigger] all@[j]).0@) ==> *final(all@[j].1)
                == *all@[j].1,
{
        let ghost src = all@;
        proof {
            lemma_as_shared(src, Seq::empty());
        }
        let mut it = Iter::new(all);
        let mut out: Vec<(Vec<u8>, &'a mut T)> = Vec::new();
        let ghost mut i: int = 0;
        let ghost mut ix: Seq<int> = Seq::empty();
        let mut stopped = false;
        proof {
            reveal(range_inv);
            lemma_as_shared(out@, Seq::empty());
        }
        while it.len() > 0 && !stopped
            invariant
                0 <= i <= src.len(),
                it@ == src.skip(i),
                as_shared(src).len() == src.len(),
                forall|j: int|
                    0 <= j < src.len() ==> (#[trigger] as_shared(src)[j]).0@ == src[j].0@ && *as_shared(src)[j].1
                        == *src[j].1,
                entries_sorted(as_shared(src)),
                range_inv(as_shared(src), as_shared(out@), i, lower, upper),
                ix.len() == out@.len(),
                forall|a: int| 0 <= a < out@.len() ==> 0 <= #[trigger] ix[a] < i && src[ix[a]] == out@[a],
                forall|j: int|
                    0 <= j < i && !in_bounds(lower, upper, (#[trigger] src[j]).0@) ==> *final(src[j].1) == *src[j].1,
                stopped ==> forall|j: int|
                    i <= j < src.len() ==> !in_bounds(lower, upper, (#[trigger] src[j]).0@),
            decreases src.len() - i,
        {
            let e = it.next().unwrap();
            proof {
                assert(e == src[i]);
                assert(as_shared(src)[i].0@ == e.0@);
            }
            if !in_range_right(&upper, e.0.as_slice()) {
                proof {
                    assert forall|j: int| i <= j < src.len() implies !in_bounds(lower, upper, (#[trigger] src[j]).0@) by {
                        if j > i {
                            assert(as_shared(src)[j].0@ == src[j].0@);
                            lemma_past_upper(upper, as_shared(src)[i].0@, as_shared(src)[j].0@);
                        }
                    }
                    assert(has_resolved(e.1));
                    lemma_range_step_skip(as_shared(src), as_shared(out@), i, lower, upper);
                    i = i + 1;
                    assert(it@ =~= src.skip(i));
                }
                stopped = true;
            } else {
                let ghost o = out@;
                if in_range_left(&lower, e.0.as_slice()) {
                    out.push(e);
                    proof {
                        lemma_as_shared(o, seq![src[i]]);
                        assert(out@ =~= o + seq![src[i]]);
                        lemma_range_step_keep(as_shared(src), as_shared(o), as_shared(out@), i, lower, upper);
                        let oix = ix;
                        ix = ix.push(i);
                        assert forall|a: int| 0 <= a < out@.len() implies 0 <= #[trigger] ix[a] < i + 1 && src[ix[a]] == out@[a] by {
                            if a < o.len() {
                                assert(out@[a] == o[a]);
                                assert(ix[a] == oix[a]);
                            } else {
                                assert(src[i] == out@[a]);
                            }
                        }
                    }
                } else {
                    proof {
                        assert(has_resolved(e.1));
                        lemma_range_step_skip(as_shared(src), as_shared(out@), i, lower, upper);
                    }
                }
                proof {
                    i = i + 1;
                    assert(it@ =~= src.skip(i));
                }
            }
        }
        proof {
            assert(has_resolved(it));
            lemma_range_done(as_shared(src), as_shared(out@), i, lower, upper);
            assert forall|j: int|
                i <= j < src.len() && !in_bounds(lower, upper, (#[trigger] src[j]).0@) implies *final(src[j].1)
                    == *src[j].1 by {
                let x = it.rest@.len() - 1 - (j - i);
                assert(it@[j - i] == it.rest@[x]);
                assert(has_resolved(it.rest));
                assert(has_resolved(it.rest@[x]));
                assert(has_resolved(it.rest@[x].1));
            }
        }
        (out, Ghost(ix))
}


/// Entries of a map whose keys lie between two bounds, with mutable references to their
/// values, in ascending key order.
pub struct RangeMut<'a, T> {
    iter: Iter<(Vec<u8>, &'a mut T)>,
}

impl<'a, T> View for RangeMut<'a, T> {
    type V = Seq<(Vec<u8>, &'a mut T)>;

    closed spec fn view(&self) -> Seq<(Vec<u8>, &'a mut T)> {
        self.iter@
    }
}

impl<'a, T> RangeMut<'a, T> {
    /// Hands out `items` in order.
    pub fn new(items: Vec<(Vec<u8>, &'a mut T)>) -> (r: Self)
        ensures
            r@ == items@,
    {
        RangeMut { iter: Iter::new(items) }
    }

    /// The next entry, if any is left.
    pub fn next(&mut self) -> (r: Option<(Vec<u8>, &'a mut T)>)
        ensures
            old(self)@.len() == 0 ==> r is None && final(self)@ == old(self)@,
            old(self)@.len() > 0 ==> r == Some(old(self)@[0]) && final(self)@ == old(self)@.drop_first(),
    {
        self.iter.next()
    }

    /// How many entries are left.
    pub fn len(&self) -> (r: usize)
        ensures
            r == self@.len(),
    {
        self.iter.len()
    }
}

} // verus!
