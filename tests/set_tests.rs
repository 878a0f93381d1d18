use radixt::set::{Difference, Intersection, Union};
use radixt::RadixSet;

fn set_of(keys: &[&str]) -> RadixSet {
    let mut s = RadixSet::new();
    for k in keys {
        s.insert(k.as_bytes());
    }
    s
}

fn all_of_intersection(mut it: Intersection) -> Vec<Vec<u8>> {
    let mut out = Vec::new();
    while let Some(k) = it.next() {
        out.push(k);
    }
    out
}

fn all_of_union(mut it: Union) -> Vec<Vec<u8>> {
    let mut out = Vec::new();
    while let Some(k) = it.next() {
        out.push(k);
    }
    out
}

fn all_of_difference(mut it: Difference) -> Vec<Vec<u8>> {
    let mut out = Vec::new();
    while let Some(k) = it.next() {
        out.push(k);
    }
    out
}

fn populated_set() -> RadixSet {
    let mut set = RadixSet::new();
    set.insert(b"cad");
    set.insert(b"abc;0");
    set.insert(b"c");
    set.insert(b"abb;0");
    set.insert(b"ab");
    set
}

#[test]
fn set_test_insert_and_get() {
    let mut set = RadixSet::new();

    assert_eq!(set.insert(b"abc;0"), true);
    assert_eq!(set.insert(b"abb;0"), true);
    assert_eq!(set.insert(b"ab"), true);
    assert_eq!(set.insert(b"c"), true);
    assert_eq!(set.insert(b"cad"), true);
    assert_eq!(set.insert(b"cad"), false);

    assert_eq!(set.len(), 5);

    assert!(set.contains(b"ab"));
    assert!(set.contains(b"abc;0"));
    assert!(set.contains(b"abb;0"));
    assert!(set.contains(b"c"));
    assert!(set.contains(b"cad"));

    assert!(!set.contains(b"d"));
    assert!(!set.contains(b"ac"));
    assert!(!set.contains(b"abd"));
    assert!(!set.contains(b"abc;"));
    assert!(!set.contains(b"abc;1"));
    assert!(!set.contains(b""));
}

#[test]
fn set_test_remove() {
    let mut set = populated_set();

    assert_eq!(set.len(), 5);
    assert!(set.contains(b"ab"));
    assert!(set.contains(b"abc;0"));
    assert!(set.contains(b"abb;0"));
    assert!(set.contains(b"c"));
    assert!(set.contains(b"cad"));

    assert!(set.remove(b"ab"));
    assert_eq!(set.len(), 4);
    assert!(!set.contains(b"ab"));

    assert!(set.remove(b"cad"));
    assert_eq!(set.len(), 3);
    assert!(!set.contains(b"cad"));

    assert!(!set.remove(b"cad"));
    assert!(!set.remove(b"foobar"));

    assert!(set.contains(b"abc;0"));
    assert!(set.contains(b"abb;0"));
    assert!(set.contains(b"c"));
}

#[test]
fn test_with_long_keys() {
    let mut set = RadixSet::new();

    let key_a = vec![0; 260];
    let mut key_b = key_a.clone();
    key_b.extend(&[1, 2, 3]);
    let mut key_c = key_a.clone();
    key_c.extend(&[4, 5, 6]);
    let key_d = vec![0; 520];
    let key_e = vec![1; 512];
    let key_f = vec![2; 510];

    set.insert(&key_a);
    set.insert(&key_b);
    set.insert(&key_c);
    set.insert(&key_d);
    set.insert(&key_e);
    set.insert(&key_f);

    assert_eq!(set.len(), 6);
    assert!(set.contains(&key_a));
    assert!(set.contains(&key_b));
    assert!(set.contains(&key_c));
    assert!(set.contains(&key_d));
    assert!(set.contains(&key_e));
    assert!(set.contains(&key_f));

    assert!(set.remove(&key_a));
    assert_eq!(set.len(), 5);
    assert!(!set.contains(&key_a));
    assert!(set.contains(&key_b));
    assert!(set.contains(&key_c));
    assert!(set.contains(&key_d));
    assert!(set.contains(&key_e));
    assert!(set.contains(&key_f));

    assert!(set.remove(&key_d));
    assert_eq!(set.len(), 4);
    assert!(!set.contains(&key_a));
    assert!(set.contains(&key_b));
    assert!(set.contains(&key_c));
    assert!(!set.contains(&key_d));
    assert!(set.contains(&key_e));
    assert!(set.contains(&key_f));

    assert!(!set.remove(&key_d));
    assert_eq!(set.len(), 4);
    assert!(!set.contains(&key_a));
    assert!(set.contains(&key_b));
    assert!(set.contains(&key_c));
    assert!(!set.contains(&key_d));
    assert!(set.contains(&key_e));
    assert!(set.contains(&key_f));

    assert_eq!(set.iter().len(), 4);
    assert_eq!(set.prefix_iter(&key_a).len(), 2);
    assert_eq!(set.prefix_iter(&[0]).len(), 2);
    assert_eq!(set.prefix_iter(&[1]).len(), 1);
    assert_eq!(set.prefix_iter(&[2]).len(), 1);
    assert_eq!(set.prefix_iter(&[3]).len(), 0);
    assert_eq!(set.prefix_iter(&key_d).len(), 0);
}

#[test]
fn set_test_iter() {
    let set = populated_set();

    let mut it = set.iter();

    let k = it.next().unwrap();
    assert_eq!(k.as_slice(), b"ab");
    let k = it.next().unwrap();
    assert_eq!(k.as_slice(), b"abb;0");
    let k = it.next().unwrap();
    assert_eq!(k.as_slice(), b"abc;0");
    let k = it.next().unwrap();
    assert_eq!(k.as_slice(), b"c");
    let k = it.next().unwrap();
    assert_eq!(k.as_slice(), b"cad");

    assert_eq!(it.next(), None);
}

#[test]
fn set_test_prefix_iter() {
    let set = populated_set();

    let mut it = set.prefix_iter(b"ab");
    let k = it.next().unwrap();
    assert_eq!(k.as_slice(), b"ab");
    let k = it.next().unwrap();
    assert_eq!(k.as_slice(), b"abb;0");
    let k = it.next().unwrap();
    assert_eq!(k.as_slice(), b"abc;0");
    assert_eq!(it.next(), None);

    let mut it = set.prefix_iter(b"abb");
    let k = it.next().unwrap();
    assert_eq!(k.as_slice(), b"abb;0");
    assert_eq!(it.next(), None);

    let mut it = set.prefix_iter(b"c");
    let k = it.next().unwrap();
    assert_eq!(k.as_slice(), b"c");
    let k = it.next().unwrap();
    assert_eq!(k.as_slice(), b"cad");
    assert_eq!(it.next(), None);

    let mut it = set.prefix_iter(b"ca");
    let k = it.next().unwrap();
    assert_eq!(k.as_slice(), b"cad");
    assert_eq!(it.next(), None);

    let mut it = set.prefix_iter(b"cad");
    let k = it.next().unwrap();
    assert_eq!(k.as_slice(), b"cad");
    assert_eq!(it.next(), None);

    let mut it = set.prefix_iter(b"cada");
    assert_eq!(it.next(), None);

    let mut it = set.prefix_iter(b"abd");
    assert_eq!(it.next(), None);
}

#[test]
fn test_intersection_partial() {
    let left = set_of(&["aa", "ab", "ac"]);
    let right = set_of(&["ab", "ac", "ad"]);

    let intersection = all_of_intersection(left.intersection(&right));
    assert_eq!(intersection.len(), 2);
    assert_eq!(intersection[0].as_slice(), b"ab");
    assert_eq!(intersection[1].as_slice(), b"ac");

    let intersection = all_of_intersection(right.intersection(&left));
    assert_eq!(intersection.len(), 2);
    assert_eq!(intersection[0].as_slice(), b"ab");
    assert_eq!(intersection[1].as_slice(), b"ac");
}

#[test]
fn test_intersection_full() {
    let left = set_of(&["aa", "ab", "ac"]);
    let right = set_of(&["aa", "ab", "ac"]);

    let intersection = all_of_intersection(left.intersection(&right));
    assert_eq!(intersection.len(), 3);
    assert_eq!(intersection[0].as_slice(), b"aa");
    assert_eq!(intersection[1].as_slice(), b"ab");
    assert_eq!(intersection[2].as_slice(), b"ac");

    let intersection = all_of_intersection(right.intersection(&left));
    assert_eq!(intersection.len(), 3);
    assert_eq!(intersection[0].as_slice(), b"aa");
    assert_eq!(intersection[1].as_slice(), b"ab");
    assert_eq!(intersection[2].as_slice(), b"ac");
}

#[test]
fn test_intersection_empty() {
    let left = set_of(&["aa", "ab", "ac"]);
    let right = set_of(&["ad", "ae", "af"]);

    let intersection = all_of_intersection(left.intersection(&right));
    assert_eq!(intersection.len(), 0);

    let intersection = all_of_intersection(right.intersection(&left));
    assert_eq!(intersection.len(), 0);
}

#[test]
fn test_union_partial_overlap() {
    let left = set_of(&["aa", "ab", "ac"]);
    let right = set_of(&["ab", "ac", "ad"]);

    let union = all_of_union(left.union(&right));
    assert_eq!(union.len(), 4);
    assert_eq!(union[0].as_slice(), b"aa");
    assert_eq!(union[1].as_slice(), b"ab");
    assert_eq!(union[2].as_slice(), b"ac");
    assert_eq!(union[3].as_slice(), b"ad");

    let union = all_of_union(right.union(&left));
    assert_eq!(union.len(), 4);
    assert_eq!(union[0].as_slice(), b"aa");
    assert_eq!(union[1].as_slice(), b"ab");
    assert_eq!(union[2].as_slice(), b"ac");
    assert_eq!(union[3].as_slice(), b"ad");
}

#[test]
fn test_union_interleaved() {
    let left = set_of(&["aa", "ac", "ae"]);
    let right = set_of(&["ab", "ad", "af"]);

    let union = all_of_union(left.union(&right));
    assert_eq!(union.len(), 6);
    assert_eq!(union[0].as_slice(), b"aa");
    assert_eq!(union[1].as_slice(), b"ab");
    assert_eq!(union[2].as_slice(), b"ac");
    assert_eq!(union[3].as_slice(), b"ad");
    assert_eq!(union[4].as_slice(), b"ae");
    assert_eq!(union[5].as_slice(), b"af");

    let union = all_of_union(right.union(&left));
    assert_eq!(union.len(), 6);
    assert_eq!(union[0].as_slice(), b"aa");
    assert_eq!(union[1].as_slice(), b"ab");
    assert_eq!(union[2].as_slice(), b"ac");
    assert_eq!(union[3].as_slice(), b"ad");
    assert_eq!(union[4].as_slice(), b"ae");
    assert_eq!(union[5].as_slice(), b"af");
}

#[test]
fn test_union_full_overlap() {
    let left = set_of(&["aa", "ab", "ac"]);
    let right = set_of(&["aa", "ab", "ac"]);

    let union = all_of_union(left.union(&right));
    assert_eq!(union.len(), 3);
    assert_eq!(union[0].as_slice(), b"aa");
    assert_eq!(union[1].as_slice(), b"ab");
    assert_eq!(union[2].as_slice(), b"ac");
}

#[test]
fn test_union_no_overlap() {
    let mut left = set_of(&["aa", "ab", "ac"]);
    let right = set_of(&["ae", "af", "ag"]);

    let union = all_of_union(left.union(&right));
    assert_eq!(union.len(), 6);
    assert_eq!(union[0].as_slice(), b"aa");
    assert_eq!(union[1].as_slice(), b"ab");
    assert_eq!(union[2].as_slice(), b"ac");
    assert_eq!(union[3].as_slice(), b"ae");
    assert_eq!(union[4].as_slice(), b"af");
    assert_eq!(union[5].as_slice(), b"ag");

    let union = all_of_union(right.union(&left));
    assert_eq!(union.len(), 6);
    assert_eq!(union[0].as_slice(), b"aa");
    assert_eq!(union[1].as_slice(), b"ab");
    assert_eq!(union[2].as_slice(), b"ac");
    assert_eq!(union[3].as_slice(), b"ae");
    assert_eq!(union[4].as_slice(), b"af");
    assert_eq!(union[5].as_slice(), b"ag");

    left.insert(b"ad");

    let union = all_of_union(left.union(&right));
    assert_eq!(union.len(), 7);
    assert_eq!(union[0].as_slice(), b"aa");
    assert_eq!(union[1].as_slice(), b"ab");
    assert_eq!(union[2].as_slice(), b"ac");
    assert_eq!(union[3].as_slice(), b"ad");
    assert_eq!(union[4].as_slice(), b"ae");
    assert_eq!(union[5].as_slice(), b"af");
    assert_eq!(union[6].as_slice(), b"ag");

    let union = all_of_union(right.union(&left));
    assert_eq!(union.len(), 7);
    assert_eq!(union[0].as_slice(), b"aa");
    assert_eq!(union[1].as_slice(), b"ab");
    assert_eq!(union[2].as_slice(), b"ac");
    assert_eq!(union[3].as_slice(), b"ad");
    assert_eq!(union[4].as_slice(), b"ae");
    assert_eq!(union[5].as_slice(), b"af");
    assert_eq!(union[6].as_slice(), b"ag");
}

#[test]
fn test_difference() {
    let mut left = set_of(&["aa", "ab", "ac"]);
    let right = set_of(&["ab", "ac", "ad", "af"]);

    let diff = all_of_difference(left.difference(&right));
    assert_eq!(diff.len(), 1);
    assert_eq!(diff[0].as_slice(), b"aa");

    left.insert(b"ae");

    let diff = all_of_difference(left.difference(&right));
    assert_eq!(diff.len(), 2);
    assert_eq!(diff[0].as_slice(), b"aa");
    assert_eq!(diff[1].as_slice(), b"ae");
}

#[test]
fn test_difference_empty() {
    let left = set_of(&["aa", "ab", "ac"]);
    let right = set_of(&["aa", "ab", "ac", "ad", "ae"]);

    let diff = all_of_difference(left.difference(&right));
    assert_eq!(diff.len(), 0);
}

#[test]
fn test_difference_empty_large() {
    let mut left = RadixSet::new();
    let mut right = RadixSet::new();

    for i in 0..100000 {
        left.insert(&(i as u64).to_be_bytes());
        right.insert(&(i as u64).to_be_bytes());
    }

    let diff = all_of_difference(left.difference(&right));
    assert_eq!(diff.len(), 0);
}

#[test]
fn test_from() {
    let set = RadixSet::from_keys(&[b"foo", b"bar", b"baz", b"foo"]);

    assert_eq!(set.len(), 3);

    let mut it = set.iter();
    assert_eq!(it.next(), Some(b"bar".to_vec()));
    assert_eq!(it.next(), Some(b"baz".to_vec()));
    assert_eq!(it.next(), Some(b"foo".to_vec()));
    assert!(it.next().is_none());
}

#[test]
fn test_from_iterator() {
    let keys: Vec<&[u8]> = vec!["foo", "bar", "baz", "foo"].into_iter().map(|s| s.as_bytes()).collect();
    let set = RadixSet::from_keys(&keys);

    assert_eq!(set.len(), 3);

    let mut it = set.iter();
    assert_eq!(it.next(), Some(b"bar".to_vec()));
    assert_eq!(it.next(), Some(b"baz".to_vec()));
    assert_eq!(it.next(), Some(b"foo".to_vec()));
    assert!(it.next().is_none());
}

#[test]
fn set_algebra_scenario() {
    let a = set_of(&["aa", "ac", "ae"]);
    let b = set_of(&["ab", "ad", "af"]);
    assert!(all_of_intersection(a.intersection(&b)).is_empty());
    let expected: Vec<Vec<u8>> = ["aa", "ab", "ac", "ad", "ae", "af"].iter().map(|s| s.as_bytes().to_vec()).collect();
    assert_eq!(all_of_union(a.union(&b)), expected);
    let expected: Vec<Vec<u8>> = ["aa", "ac", "ae"].iter().map(|s| s.as_bytes().to_vec()).collect();
    assert_eq!(all_of_difference(a.difference(&b)), expected);

    let a = set_of(&["aa", "ab", "ac"]);
    let b = set_of(&["ab", "ac", "ad"]);
    let expected: Vec<Vec<u8>> = ["ab", "ac"].iter().map(|s| s.as_bytes().to_vec()).collect();
    assert_eq!(all_of_intersection(a.intersection(&b)), expected);
    assert_eq!(all_of_difference(a.difference(&b)), vec![b"aa".to_vec()]);
}

#[test]
fn set_algebra_with_prefix_keys() {
    let a = set_of(&["", "a", "ab", "abc", "b"]);
    let b = set_of(&["a", "abc", "abcd", "c"]);
    let expected: Vec<Vec<u8>> = ["a", "abc"].iter().map(|s| s.as_bytes().to_vec()).collect();
    assert_eq!(all_of_intersection(a.intersection(&b)), expected);
    let expected: Vec<Vec<u8>> = ["", "a", "ab", "abc", "abcd", "b", "c"].iter().map(|s| s.as_bytes().to_vec()).collect();
    assert_eq!(all_of_union(a.union(&b)), expected);
    let expected: Vec<Vec<u8>> = ["", "ab", "b"].iter().map(|s| s.as_bytes().to_vec()).collect();
    assert_eq!(all_of_difference(a.difference(&b)), expected);
    let empty = RadixSet::new();
    assert!(all_of_intersection(a.intersection(&empty)).is_empty());
    assert_eq!(all_of_union(empty.union(&empty)).len(), 0);
    assert_eq!(all_of_difference(a.difference(&empty)).len(), 5);
    assert!(empty.is_empty());
}
