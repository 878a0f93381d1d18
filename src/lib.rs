pub mod iter;
pub mod map;
pub mod node;
pub mod order;
pub mod set;

pub use map::RadixMap;
pub use set::RadixSet;

use vstd::prelude::*;

use node::{child_with, children_sorted, select_child, Node};

verus! {

/// Picks, among children sorted by the first byte of their fragments, the one that shares
/// a prefix with the non-empty `key`. Returns the length of the shared prefix and the
/// child's position; a length of 0 means that no child starts with `key[0]`, and the
/// position is then where such a child would be inserted.
pub fn longest_common_prefix<T>(children: &[Node<T>], key: &[u8]) -> (r: (usize, usize))
    requires
        children_sorted(children@),
        key@.len() > 0,
    ensures
        r.0 == 0 ==> {
            &&& r.1 <= children@.len()
            &&& child_with(children@, key@[0]) == -1
            &&& forall|i: int| 0 <= i < r.1 ==> (#[trigger] children@[i]).fragment()[0] < key@[0]
            &&& forall|i: int|
                r.1 <= i < children@.len() ==> (#[trigger] children@[i]).fragment()[0] > key@[0]
        },
        r.0 > 0 ==> {
            let f = children@[r.1 as int].fragment();
            &&& r.1 < children@.len()
            &&& child_with(children@, key@[0]) == r.1
            &&& r.0 <= f.len()
            &&& r.0 <= key@.len()
            &&& f.take(r.0 as int) == key@.take(r.0 as int)
            &&& (r.0 == f.len() || r.0 == key@.len() || f[r.0 as int] != key@[r.0 as int])
        },
{
    proof {
        assert(key@.skip(0) =~= key@);
    }
    select_child(children, key, 0)
}

} // verus!
