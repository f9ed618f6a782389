use std::collections::{BTreeMap, HashMap};

use graph::{BTreeGraph, Generations, OptRefBy, OptRefMap, Ref, RefBy, RefMap};

fn sample() -> BTreeGraph<u32, &'static str> {
    let mut gens = Generations::new();
    let mut g = BTreeGraph::new(&mut gens);
    g.insert(1, "one");
    g.insert(5, "five");
    g
}

#[test]
fn resolve_missing_key_reports_it_and_changes_nothing() {
    let g = sample();
    let mut r: RefBy<u32, &str> = RefBy::dangling(3);
    assert_eq!(r.resolve(&g), Err(3));
    assert!(r.value_ref().is_invalid());
    assert_eq!(*r.key(), 3);
}

#[test]
fn resolve_present_key_is_idempotent() {
    let g = sample();
    let mut r: RefBy<u32, &str> = RefBy::dangling(5);
    assert_eq!(r.resolve(&g), Ok(()));
    let first = *r.value_ref();
    assert_eq!(r.resolve(&g), Ok(()));
    assert_eq!(*r.value_ref(), first);
    assert_eq!(*g.borrow(r.value_ref()), "five");
    let (k, h) = r.pair();
    assert_eq!((*k, *h), (5, first));
}

#[test]
fn resolve_against_plain_maps() {
    let g = sample();
    let h = *g.get_ref(&1).unwrap();
    let mut bm: BTreeMap<u32, Ref<&str>> = BTreeMap::new();
    bm.insert(1, h);
    let mut hm: HashMap<u32, Ref<&str>> = HashMap::new();
    hm.insert(1, h);
    let mut r = RefBy::new(1, Ref::dangling());
    assert_eq!(r.resolve(&bm), Ok(()));
    assert_eq!(*r.value_ref(), h);
    let mut r = RefBy::new(1, Ref::dangling());
    assert_eq!(r.resolve(&hm), Ok(()));
    assert_eq!(*r.value_ref(), h);
    let mut missing = RefBy::<u32, &str>::dangling(2);
    assert_eq!(missing.resolve(&hm), Err(2));
}

#[test]
fn ref_by_compares_keys_only() {
    let g = sample();
    let a = RefBy::new(1u32, *g.get_ref(&1).unwrap());
    let b: RefBy<u32, &str> = RefBy::dangling(1);
    let c: RefBy<u32, &str> = RefBy::dangling(5);
    assert!(a == b);
    assert!(a != c);
    assert!(a < c);
}

#[test]
fn optional_reference_resolves_to_absent() {
    let g = sample();
    let mut r: OptRefBy<u32, &str> = OptRefBy::dangling(2);
    assert!(r.value_ref().unwrap().is_invalid());
    r.resolve(&g);
    assert!(r.value_ref().is_none());
    let mut r = OptRefBy::new(5, None);
    r.resolve(&g);
    assert_eq!(*g.borrow(r.value_ref().unwrap()), "five");
    assert_eq!(*r.clone().key(), 5);
}

#[test]
fn ref_map_resolve_stops_at_first_missing_key() {
    let g = sample();
    let mut m: RefMap<u32, &str> = RefMap::new();
    m.insert(5, Ref::dangling());
    m.insert(3, Ref::dangling());
    m.insert(1, Ref::dangling());
    assert_eq!(m.resolve(&g), Err(3));
    assert!(!m.get_ref(&1).unwrap().is_invalid());
    assert!(m.get_ref(&3).unwrap().is_invalid());
    assert!(m.get_ref(&5).unwrap().is_invalid());
    assert_eq!(m.len(), 3);
}

#[test]
fn ref_map_resolves_every_key() {
    let g = sample();
    let mut m: RefMap<u32, &str> = RefMap::with_capacity(2);
    assert!(m.is_empty());
    m.insert(5, Ref::dangling());
    m.insert(1, Ref::dangling());
    assert_eq!(m.resolve(&g), Ok(()));
    assert_eq!(m.get(&1, &g), Some(&"one"));
    assert_eq!(m.values(g.as_graph()), vec![&"one", &"five"]);
    let listed: Vec<(u32, &str)> = m.iter(g.as_graph()).into_iter().map(|(k, v)| (*k, *v)).collect();
    assert_eq!(listed, vec![(1, "one"), (5, "five")]);
    assert_eq!(m.keys(), vec![&1, &5]);
    assert_eq!(m.value_refs().len(), 2);
    assert_eq!(m.iter_ref().len(), 2);
    assert_eq!(*m.get_ref_by(&5).unwrap().key(), 5);
    assert_eq!(m.iter_ref_by().len(), 2);
    assert!(m.contains_key(&5));
    assert_eq!(m.clone().len(), 2);
}

#[test]
fn ref_map_insert_remove_append() {
    let g = sample();
    let h1 = *g.get_ref(&1).unwrap();
    let h5 = *g.get_ref(&5).unwrap();
    let mut m: RefMap<u32, &str> = RefMap::default();
    assert_eq!(m.insert(1, h1), None);
    assert_eq!(m.insert(1, h5), Some(h1));
    let mut other: RefMap<u32, &str> = RefMap::new();
    other.insert(1, h1);
    other.insert(5, h5);
    m.append(&mut other);
    assert!(other.is_empty());
    assert_eq!(m.get_ref(&1), Some(&h1));
    assert_eq!(m.remove(&5), Some(h5));
    assert_eq!(m.remove(&5), None);
    let mut g = g;
    assert_eq!(m.get_mut(&1, &mut g), Some(&"one"));
}

#[test]
fn opt_ref_map_resolves_misses_to_absent() {
    let g = sample();
    let mut m: OptRefMap<u32, &str> = OptRefMap::new();
    m.insert(1, None);
    m.insert(2, Some(Ref::dangling()));
    m.insert(5, None);
    m.resolve(&g);
    assert_eq!(m.get(&1, &g), Some(&"one"));
    assert_eq!(m.get_ref(&2), None);
    assert!(m.contains_key(&2));
    let listed: Vec<(u32, Option<&str>)> =
        m.iter(g.as_graph()).into_iter().map(|(k, v)| (*k, v.copied())).collect();
    assert_eq!(listed, vec![(1, Some("one")), (2, None), (5, Some("five"))]);
    assert_eq!(m.values(g.as_graph()), vec![&"one", &"five"]);
    assert_eq!(m.keys(), vec![&1, &2, &5]);
    assert_eq!(m.value_refs().len(), 3);
    assert_eq!(m.iter_ref().len(), 3);
    assert_eq!(m.iter_ref_by().len(), 3);
    assert!(m.get_ref_by(&2).is_none());
    assert_eq!(*m.get_ref_by(&5).unwrap().key(), 5);
    m.remove(&2);
    assert!(!m.contains_key(&2));
    assert!(!m.clone().is_empty());
    let mut g = g;
    assert_eq!(m.get_mut(&5, &mut g), Some(&"five"));
    let d: OptRefMap<u32, &str> = OptRefMap::with_capacity(3);
    assert!(d.is_empty());
    let e: OptRefMap<u32, &str> = OptRefMap::default();
    assert!(e.is_empty());
}

#[test]
fn maps_from_keys_start_unresolved() {
    let g = sample();
    let mut m: RefMap<u32, &str> = RefMap::from_keys(vec![5, 1, 5]);
    assert_eq!(m.len(), 2);
    assert!(m.get_ref(&5).unwrap().is_invalid());
    assert_eq!(m.resolve(&g), Ok(()));
    assert_eq!(m.get(&5, &g), Some(&"five"));
    let mut o: OptRefMap<u32, &str> = OptRefMap::from_keys(vec![2, 1]);
    assert!(o.get_ref(&1).is_none());
    o.resolve(&g);
    assert_eq!(o.get(&1, &g), Some(&"one"));
    assert_eq!(o.get(&2, &g), None);
}

#[test]
fn ref_maps_compare_by_keys_only() {
    let g = sample();
    let h1 = *g.get_ref(&1).unwrap();
    let mut a: RefMap<u32, &str> = RefMap::new();
    a.insert(1, h1);
    a.insert(5, Ref::dangling());
    let b: RefMap<u32, &str> = RefMap::from_keys(vec![5, 1]);
    assert!(a == b);
    let c: RefMap<u32, &str> = RefMap::from_keys(vec![1, 6]);
    assert!(a != c);
    assert!(a < c);
    let d: RefMap<u32, &str> = RefMap::from_keys(vec![1]);
    assert!(d < a);
    assert_eq!(a.partial_cmp(&b), Some(std::cmp::Ordering::Equal));
}
