use radixt::iter::KeyBound;
use radixt::iter::KeyBound::{Excluded, Included, Unbounded};
use radixt::RadixMap;

fn populated_map() -> RadixMap<u32> {
    let mut m = RadixMap::new();

    m.insert(b"cad", 5);
    m.insert(b"abc;0", 1);
    m.insert(b"c", 4);
    m.insert(b"abb;0", 2);
    m.insert(b"ab", 3);

    m
}

fn entries(m: &RadixMap<u32>) -> Vec<(Vec<u8>, u32)> {
    let mut it = m.iter();
    let mut out = Vec::new();
    while let Some((k, v)) = it.next() {
        out.push((k, *v));
    }
    out
}

fn range_entries(m: &RadixMap<u32>, lower: KeyBound, upper: KeyBound) -> Vec<(Vec<u8>, u32)> {
    let mut it = m.range(lower, upper);
    let mut out = Vec::new();
    while let Some((k, v)) = it.next() {
        out.push((k, *v));
    }
    out
}

#[test]
fn map_test_insert_and_get() {
    let mut m = RadixMap::new();

    m.insert(b"abc;0", 1);
    m.insert(b"abb;0", 2);
    m.insert(b"ab", 3);
    m.insert(b"c", 4);
    m.insert(b"cad", 5);

    assert_eq!(m.len(), 5);

    assert_eq!(m.get(b"ab").unwrap(), &3);
    assert_eq!(m.get(b"abc;0").unwrap(), &1);
    assert_eq!(m.get(b"abb;0").unwrap(), &2);
    assert_eq!(m.get(b"c").unwrap(), &4);
    assert_eq!(m.get(b"cad").unwrap(), &5);

    assert_eq!(m.get(b"d"), None);
    assert_eq!(m.get(b"ac"), None);
    assert_eq!(m.get(b"abd"), None);
    assert_eq!(m.get(b"abc;"), None);
    assert_eq!(m.get(b"abc;1"), None);
    assert_eq!(m.get(b""), None);
}

#[test]
fn map_test_remove() {
    let mut m = populated_map();

    assert_eq!(m.len(), 5);
    assert_eq!(m.get(b"ab").unwrap(), &3);
    assert_eq!(m.get(b"abc;0").unwrap(), &1);
    assert_eq!(m.get(b"abb;0").unwrap(), &2);
    assert_eq!(m.get(b"c").unwrap(), &4);
    assert_eq!(m.get(b"cad").unwrap(), &5);

    assert_eq!(m.remove(b"ab"), Some(3));
    assert_eq!(m.len(), 4);
    assert!(m.get(b"ab").is_none());

    assert_eq!(m.remove(b"cad"), Some(5));
    assert_eq!(m.len(), 3);
    assert!(m.get(b"cad").is_none());

    assert_eq!(m.remove(b"cad"), None);
    assert_eq!(m.remove(b"foobar"), None);

    assert_eq!(m.get(b"abc;0").unwrap(), &1);
    assert_eq!(m.get(b"abb;0").unwrap(), &2);
    assert_eq!(m.get(b"c").unwrap(), &4);
}

#[test]
fn map_test_iter() {
    let m = populated_map();

    let mut it = m.iter();

    let (k, v) = it.next().unwrap();
    assert_eq!(k.as_slice(), b"ab");
    assert_eq!(v, &3);
    let (k, v) = it.next().unwrap();
    assert_eq!(k.as_slice(), b"abb;0");
    assert_eq!(v, &2);
    let (k, v) = it.next().unwrap();
    assert_eq!(k.as_slice(), b"abc;0");
    assert_eq!(v, &1);
    let (k, v) = it.next().unwrap();
    assert_eq!(k.as_slice(), b"c");
    assert_eq!(v, &4);
    let (k, v) = it.next().unwrap();
    assert_eq!(k.as_slice(), b"cad");
    assert_eq!(v, &5);

    assert!(it.next().is_none());
}

#[test]
fn map_test_prefix_iter() {
    let m = populated_map();

    let mut it = m.prefix_iter(b"ab");
    let (k, v) = it.next().unwrap();
    assert_eq!(k.as_slice(), b"ab");
    assert_eq!(v, &3);
    let (k, v) = it.next().unwrap();
    assert_eq!(k.as_slice(), b"abb;0");
    assert_eq!(v, &2);
    let (k, v) = it.next().unwrap();
    assert_eq!(k.as_slice(), b"abc;0");
    assert_eq!(v, &1);
    assert!(it.next().is_none());

    let mut it = m.prefix_iter(b"abb");
    let (k, v) = it.next().unwrap();
    assert_eq!(k.as_slice(), b"abb;0");
    assert_eq!(v, &2);
    assert!(it.next().is_none());

    let mut it = m.prefix_iter(b"c");
    let (k, v) = it.next().unwrap();
    assert_eq!(k.as_slice(), b"c");
    assert_eq!(v, &4);
    let (k, v) = it.next().unwrap();
    assert_eq!(k.as_slice(), b"cad");
    assert_eq!(v, &5);
    assert!(it.next().is_none());

    let mut it = m.prefix_iter(b"ca");
    let (k, v) = it.next().unwrap();
    assert_eq!(k.as_slice(), b"cad");
    assert_eq!(v, &5);
    assert!(it.next().is_none());

    let mut it = m.prefix_iter(b"cad");
    let (k, v) = it.next().unwrap();
    assert_eq!(k.as_slice(), b"cad");
    assert_eq!(v, &5);
    assert!(it.next().is_none());

    let mut it = m.prefix_iter(b"cada");
    assert!(it.next().is_none());

    let mut it = m.prefix_iter(b"abd");
    assert!(it.next().is_none());
}

#[test]
fn test_range() {
    let mut m = RadixMap::new();
    m.insert(b"aa", 1);
    m.insert(b"ab", 2);
    m.insert(b"ac", 3);
    m.insert(b"ad", 4);
    m.insert(b"ba", 5);
    m.insert(b"bb", 6);
    m.insert(b"bc", 7);
    m.insert(b"bd", 8);

    assert_eq!(m.range(Unbounded, Unbounded).len(), 8);
    assert_eq!(m.range(Included(b"a"), Unbounded).len(), 8);
    assert_eq!(m.range(Included(b"a"), Excluded(b"b")).len(), 4);
    assert_eq!(m.range(Included(b"a"), Included(b"b")).len(), 4);
    assert_eq!(m.range(Included(b"a"), Included(b"ba")).len(), 5);
    assert_eq!(m.range(Included(b"ab"), Included(b"ba")).len(), 4);
    assert_eq!(m.range(Included(b"ae"), Unbounded).len(), 4);

    let all = entries(&m);

    let r = range_entries(&m, Included(b"a"), Unbounded);
    for (e1, e2) in r.iter().zip(all.iter().take(4)) {
        assert_eq!(e1.0, e2.0);
        assert_eq!(e1.1, e2.1);
    }

    let r = range_entries(&m, Included(b"ab"), Included(b"ba"));
    for (e1, e2) in r.iter().zip(all.iter().skip(1).take(4)) {
        assert_eq!(e1.0, e2.0);
        assert_eq!(e1.1, e2.1);
    }

    assert_eq!(m.range(Included(b"b"), Unbounded).len(), 4);
    assert_eq!(m.range(Included(b"b"), Excluded(b"b")).len(), 0);
    assert_eq!(m.range(Included(b"b"), Included(b"b")).len(), 0);
    assert_eq!(m.range(Included(b"b"), Included(b"be")).len(), 4);
    assert_eq!(m.range(Included(b"bb"), Excluded(b"bc")).len(), 1);
    assert_eq!(m.range(Included(b"bb"), Included(b"bc")).len(), 2);

    let r = range_entries(&m, Included(b"bb"), Included(b"bc"));
    for (e1, e2) in r.iter().zip(all.iter().skip(5).take(2)) {
        assert_eq!(e1.0, e2.0);
        assert_eq!(e1.1, e2.1);
    }

    assert_eq!(m.range(Included(b"be"), Unbounded).len(), 0);
    assert_eq!(m.range(Included(b"c"), Unbounded).len(), 0);
}

#[test]
fn range_excluded_lower_bound() {
    let mut m = RadixMap::new();
    m.insert(b"aa", 1);
    m.insert(b"ab", 2);
    m.insert(b"ac", 3);
    let r = range_entries(&m, KeyBound::Excluded(b"aa"), KeyBound::Included(b"ac"));
    assert_eq!(r, vec![(b"ab".to_vec(), 2), (b"ac".to_vec(), 3)]);
    let r = range_entries(&m, KeyBound::Excluded(b"ac"), KeyBound::Unbounded);
    assert!(r.is_empty());
}

#[test]
fn basic_scenario() {
    let mut m = RadixMap::new();
    m.insert(b"abc;0", 1);
    m.insert(b"abb;0", 2);
    m.insert(b"ab", 3);
    m.insert(b"c", 4);
    m.insert(b"cad", 5);
    assert_eq!(m.len(), 5);
    assert_eq!(m.get(b"ab"), Some(&3));
    assert_eq!(m.get(b"abc;"), None);
    assert_eq!(m.get(b""), None);
    assert_eq!(
        entries(&m),
        vec![
            (b"ab".to_vec(), 3),
            (b"abb;0".to_vec(), 2),
            (b"abc;0".to_vec(), 1),
            (b"c".to_vec(), 4),
            (b"cad".to_vec(), 5),
        ]
    );
}

#[test]
fn prefix_scenario() {
    let m = populated_map();
    let mut it = m.prefix_iter(b"ab");
    let mut got = Vec::new();
    while let Some((k, v)) = it.next() {
        got.push((k, *v));
    }
    assert_eq!(got, vec![(b"ab".to_vec(), 3), (b"abb;0".to_vec(), 2), (b"abc;0".to_vec(), 1)]);
    assert_eq!(m.prefix_iter(b"cada").len(), 0);
    assert_eq!(m.prefix_iter(b"").len(), 5);
}

#[test]
fn split_then_merge_scenario() {
    let mut m = RadixMap::new();
    m.insert(b"hello", 0);
    m.insert(b"hell", 1);
    m.insert(b"hel", 2);
    m.insert(b"h", 3);
    assert_eq!(m.len(), 4);
    assert_eq!(m.remove(b"hell"), Some(1));
    assert_eq!(m.len(), 3);
    assert_eq!(m.get(b"hello"), Some(&0));
    assert_eq!(m.get(b"hel"), Some(&2));
    assert_eq!(m.get(b"h"), Some(&3));
    assert_eq!(m.remove(b"hel"), Some(2));
    assert_eq!(m.remove(b"hello"), Some(0));
    assert_eq!(m.remove(b"h"), Some(3));
    assert!(m.is_empty());
    assert_eq!(m.iter().len(), 0);
}

#[test]
fn long_keys_scenario() {
    let mut m = RadixMap::new();
    let a = vec![7u8; 260];
    let mut b = a.clone();
    b.extend_from_slice(&[1, 2, 3]);
    let c = vec![7u8; 520];
    m.insert(&a, 1);
    m.insert(&b, 2);
    assert_eq!(m.get(&a), Some(&1));
    assert_eq!(m.get(&b), Some(&2));
    m.insert(&c, 3);
    assert_eq!(m.get(&c), Some(&3));
    assert_eq!(m.get(&a[..255]), None);
    assert_eq!(m.len(), 3);
    assert_eq!(m.remove(&a), Some(1));
    assert_eq!(m.remove(&b), Some(2));
    assert_eq!(m.remove(&c), Some(3));
    assert!(m.is_empty());
}

#[test]
fn round_trip_last_write_wins() {
    let pairs: Vec<(&[u8], u32)> = vec![(b"k1", 1), (b"k2", 2), (b"k1", 3), (b"", 4), (b"k", 5), (b"k2", 6)];
    let mut m = RadixMap::new();
    for (k, v) in &pairs {
        m.insert(k, *v);
    }
    assert_eq!(m.len(), 4);
    assert_eq!(m.get(b"k1"), Some(&3));
    assert_eq!(m.get(b"k2"), Some(&6));
    assert_eq!(m.get(b""), Some(&4));
    assert_eq!(m.get(b"k"), Some(&5));
    assert_eq!(m.get(b"k3"), None);
}

#[test]
fn iteration_is_sorted_and_complete() {
    let mut m = RadixMap::new();
    let keys: Vec<Vec<u8>> = vec![b"zeta".to_vec(), b"a".to_vec(), b"ab".to_vec(), vec![0, 255], vec![255], b"".to_vec(), b"abc".to_vec()];
    for (i, k) in keys.iter().enumerate() {
        m.insert(k, i as u32);
    }
    let got = entries(&m);
    assert_eq!(got.len(), m.len());
    for w in got.windows(2) {
        assert!(w[0].0 < w[1].0);
    }
    let mut ks = m.keys();
    let mut n = 0;
    while let Some(k) = ks.next() {
        assert_eq!(k, got[n].0);
        n += 1;
    }
    assert_eq!(n, 7);
    let mut vs = m.values();
    let mut n = 0;
    while let Some(v) = vs.next() {
        assert_eq!(*v, got[n].1);
        n += 1;
    }
    let mut pv = m.prefix_values(b"ab");
    assert_eq!(pv.next(), Some(&2));
    assert_eq!(pv.next(), Some(&6));
    assert_eq!(pv.next(), None);
    let mut pk = m.prefix_keys(b"a");
    assert_eq!(pk.next(), Some(b"a".to_vec()));
    assert_eq!(pk.next(), Some(b"ab".to_vec()));
    assert_eq!(pk.next(), Some(b"abc".to_vec()));
    assert_eq!(pk.next(), None);
}

#[test]
fn remove_cancels_insert() {
    let mut m = populated_map();
    let before = entries(&m);
    assert!(m.insert(b"abd", 9).is_none());
    assert_eq!(m.remove(b"abd"), Some(9));
    assert_eq!(entries(&m), before);
    assert!(m.insert(b"a", 9).is_none());
    assert_eq!(m.remove(b"a"), Some(9));
    assert_eq!(entries(&m), before);
}

#[test]
fn contains_key_and_replace() {
    let mut m = RadixMap::new();
    assert!(!m.contains_key(b"x"));
    assert_eq!(m.insert(b"x", 1), None);
    assert!(m.contains_key(b"x"));
    assert_eq!(m.insert(b"x", 2), Some(1));
    assert_eq!(m.len(), 1);
    assert_eq!(m.get(b"x"), Some(&2));
}

#[test]
fn get_mut_changes_only_that_value() {
    let mut m = populated_map();
    *m.get_mut(b"abb;0").unwrap() = 100;
    assert!(m.get_mut(b"abb").is_none());
    assert!(m.get_mut(b"zz").is_none());
    assert_eq!(m.get(b"abb;0"), Some(&100));
    assert_eq!(m.get(b"ab"), Some(&3));
    assert_eq!(m.get(b"abc;0"), Some(&1));
    assert_eq!(m.len(), 5);
    if let Some(v) = m.get_mut(b"") {
        *v = 1;
    }
    assert_eq!(m.get(b""), None);
}

#[test]
fn into_iter_moves_entries_in_order() {
    let m = populated_map();
    let mut it = m.into_iter();
    assert_eq!(it.len(), 5);
    assert_eq!(it.next(), Some((b"ab".to_vec(), 3)));
    assert_eq!(it.next(), Some((b"abb;0".to_vec(), 2)));
    assert_eq!(it.next(), Some((b"abc;0".to_vec(), 1)));
    assert_eq!(it.next(), Some((b"c".to_vec(), 4)));
    assert_eq!(it.next(), Some((b"cad".to_vec(), 5)));
    assert_eq!(it.next(), None);
    let empty: RadixMap<u32> = RadixMap::new();
    assert_eq!(empty.into_iter().len(), 0);
}

#[test]
fn test_iter_mut() {
    let mut m = populated_map();

    let mut it = m.iter_mut();

    let (k, v) = it.next().unwrap();
    assert_eq!(k.as_slice(), b"ab");
    assert_eq!(v, &mut 3);
    let (k, v) = it.next().unwrap();
    assert_eq!(k.as_slice(), b"abb;0");
    assert_eq!(v, &mut 2);
    let (k, v) = it.next().unwrap();
    assert_eq!(k.as_slice(), b"abc;0");
    assert_eq!(v, &mut 1);
    let (k, v) = it.next().unwrap();
    assert_eq!(k.as_slice(), b"c");
    assert_eq!(v, &mut 4);
    let (k, v) = it.next().unwrap();
    assert_eq!(k.as_slice(), b"cad");
    assert_eq!(v, &mut 5);

    assert!(it.next().is_none());

    // Modify second item
    assert_eq!(m.get(b"cad"), Some(&5));
    assert_eq!(m.get(b"abc;0"), Some(&1));
    assert_eq!(m.get(b"c"), Some(&4));
    assert_eq!(m.get(b"abb;0"), Some(&2));
    assert_eq!(m.get(b"ab"), Some(&3));

    let mut it = m.iter_mut();

    let _ = it.next().unwrap();
    let (k, v) = it.next().unwrap();
    assert_eq!(k.as_slice(), b"abb;0");
    assert_eq!(v, &mut 2);
    *v = 100;

    for _ in 0..3 {
        let _ = it.next().unwrap();
    }
    assert!(it.next().is_none());

    assert_eq!(m.get(b"cad"), Some(&5));
    assert_eq!(m.get(b"abc;0"), Some(&1));
    assert_eq!(m.get(b"c"), Some(&4));
    assert_eq!(m.get(b"abb;0"), Some(&100));
    assert_eq!(m.get(b"ab"), Some(&3));
}

#[test]
fn values_mut_updates_every_value() {
    let mut m = populated_map();
    let mut it = m.values_mut();
    while let Some(v) = it.next() {
        *v *= 10;
    }
    assert_eq!(
        entries(&m),
        vec![
            (b"ab".to_vec(), 30),
            (b"abb;0".to_vec(), 20),
            (b"abc;0".to_vec(), 10),
            (b"c".to_vec(), 40),
            (b"cad".to_vec(), 50),
        ]
    );
    assert_eq!(m.len(), 5);
}

#[test]
fn test_prefix_iter_mut() {
    let mut m = populated_map();

    let mut it = m.prefix_iter_mut(b"ab");
    let (k, v) = it.next().unwrap();
    assert_eq!(k.as_slice(), b"ab");
    assert_eq!(v, &mut 3);
    let (k, v) = it.next().unwrap();
    assert_eq!(k.as_slice(), b"abb;0");
    assert_eq!(v, &mut 2);
    let (k, v) = it.next().unwrap();
    assert_eq!(k.as_slice(), b"abc;0");
    assert_eq!(v, &mut 1);
    assert!(it.next().is_none());

    let mut it = m.prefix_iter_mut(b"abb");
    let (k, v) = it.next().unwrap();
    assert_eq!(k.as_slice(), b"abb;0");
    assert_eq!(v, &mut 2);
    assert!(it.next().is_none());

    let mut it = m.prefix_iter_mut(b"c");
    let (k, v) = it.next().unwrap();
    assert_eq!(k.as_slice(), b"c");
    assert_eq!(v, &mut 4);
    let (k, v) = it.next().unwrap();
    assert_eq!(k.as_slice(), b"cad");
    assert_eq!(v, &mut 5);
    assert!(it.next().is_none());

    let mut it = m.prefix_iter_mut(b"ca");
    let (k, v) = it.next().unwrap();
    assert_eq!(k.as_slice(), b"cad");
    assert_eq!(v, &mut 5);
    assert!(it.next().is_none());

    let mut it = m.prefix_iter_mut(b"cad");
    let (k, v) = it.next().unwrap();
    assert_eq!(k.as_slice(), b"cad");
    assert_eq!(v, &mut 5);
    assert!(it.next().is_none());

    let mut it = m.prefix_iter_mut(b"cada");
    assert!(it.next().is_none());

    let mut it = m.prefix_iter_mut(b"abd");
    assert!(it.next().is_none());
}

#[test]
fn prefix_values_mut_touches_only_the_prefix() {
    let mut m = populated_map();
    let mut it = m.prefix_values_mut(b"ab");
    while let Some(v) = it.next() {
        *v += 100;
    }
    assert_eq!(m.get(b"ab"), Some(&103));
    assert_eq!(m.get(b"abb;0"), Some(&102));
    assert_eq!(m.get(b"abc;0"), Some(&101));
    assert_eq!(m.get(b"c"), Some(&4));
    assert_eq!(m.get(b"cad"), Some(&5));
    let mut it = m.prefix_values_mut(b"");
    let mut n = 0;
    while let Some(v) = it.next() {
        *v = 0;
        n += 1;
    }
    assert_eq!(n, 5);
    assert_eq!(m.get(b"cad"), Some(&0));
}

#[test]
fn test_range_mut() {
    let mut m = RadixMap::new();
    m.insert(b"aa", 1);
    m.insert(b"ab", 2);
    m.insert(b"ac", 3);
    m.insert(b"ad", 4);
    m.insert(b"ba", 5);
    m.insert(b"bb", 6);
    m.insert(b"bc", 7);
    m.insert(b"bd", 8);

    assert_eq!(m.range_mut(Unbounded, Unbounded).len(), 8);
    assert_eq!(m.range_mut(Included(b"a"), Unbounded).len(), 8);
    assert_eq!(m.range_mut(Included(b"a"), Excluded(b"b")).len(), 4);
    assert_eq!(m.range_mut(Included(b"a"), Included(b"b")).len(), 4);
    assert_eq!(m.range_mut(Included(b"a"), Included(b"ba")).len(), 5);
    assert_eq!(m.range_mut(Included(b"ab"), Included(b"ba")).len(), 4);
    assert_eq!(m.range_mut(Included(b"ae"), Unbounded).len(), 4);

    let all = entries(&m);

    let r = range_entries(&m, Included(b"a"), Unbounded);
    for (e1, e2) in r.iter().zip(all.iter().take(4)) {
        assert_eq!(e1.0, e2.0);
        assert_eq!(e1.1, e2.1);
    }

    let r = range_entries(&m, Included(b"ab"), Included(b"ba"));
    for (e1, e2) in r.iter().zip(all.iter().skip(1).take(4)) {
        assert_eq!(e1.0, e2.0);
        assert_eq!(e1.1, e2.1);
    }

    assert_eq!(m.range_mut(Included(b"b"), Unbounded).len(), 4);
    assert_eq!(m.range_mut(Included(b"b"), Excluded(b"b")).len(), 0);
    assert_eq!(m.range_mut(Included(b"b"), Included(b"b")).len(), 0);
    assert_eq!(m.range_mut(Included(b"b"), Included(b"be")).len(), 4);
    assert_eq!(m.range_mut(Included(b"bb"), Excluded(b"bc")).len(), 1);
    assert_eq!(m.range_mut(Included(b"bb"), Included(b"bc")).len(), 2);

    let r = range_entries(&m, Included(b"bb"), Included(b"bc"));
    for (e1, e2) in r.iter().zip(all.iter().skip(5).take(2)) {
        assert_eq!(e1.0, e2.0);
        assert_eq!(e1.1, e2.1);
    }

    assert_eq!(m.range_mut(Included(b"be"), Unbounded).len(), 0);
    assert_eq!(m.range_mut(Included(b"c"), Unbounded).len(), 0);

    let mut r = m.range_mut(Included(b"bb"), Excluded(b"bc"));
    let (_, v) = r.next().unwrap();
    *v = 66;

    assert_eq!(m.get(b"bb"), Some(&66));
    assert_eq!(m.get(b"bc"), Some(&7));
}
