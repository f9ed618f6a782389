use std::collections::hash_map::RandomState;

use graph::{BTreeGraph, Generations, HashGraph, IndexBy, Ref, RefBy};

fn sample() -> BTreeGraph<String, u32> {
    let mut gens = Generations::new();
    let mut g = BTreeGraph::new(&mut gens);
    g.insert("b".to_string(), 2);
    g.insert("a".to_string(), 1);
    g.insert("c".to_string(), 3);
    g
}

#[test]
fn overwrite_invalidates_old_handle() {
    let mut gens = Generations::new();
    let mut g = BTreeGraph::new(&mut gens);
    let h1 = g.insert("a", 1);
    let h2 = g.insert("a", 2);
    assert_eq!(g.as_graph().try_borrow(&h1), None);
    assert_eq!(*g.borrow(&h2), 2);
    assert_eq!(g.get(&"a"), Some(&2));
}

#[test]
fn iteration_is_in_key_order() {
    let g = sample();
    let pairs: Vec<(String, u32)> = g.iter().into_iter().map(|(k, v)| (k.clone(), *v)).collect();
    assert_eq!(
        pairs,
        vec![("a".to_string(), 1), ("b".to_string(), 2), ("c".to_string(), 3)]
    );
    let keys: Vec<&String> = g.keys();
    assert_eq!(keys, vec!["a", "b", "c"]);
    let values: Vec<&u32> = g.values();
    assert_eq!(values, vec![&1, &2, &3]);
    assert_eq!(g.values_ref().len(), 3);
    assert_eq!(g.iter_ref().len(), 3);
}

#[test]
fn round_trip_through_entries() {
    let g = sample();
    let pairs: Vec<(String, u32)> = g.iter().into_iter().map(|(k, v)| (k.clone(), *v)).collect();
    let mut gens = Generations::new();
    let rebuilt = BTreeGraph::from_entries(pairs, &mut gens);
    let again: Vec<(String, u32)> = rebuilt.iter().into_iter().map(|(k, v)| (k.clone(), *v)).collect();
    let first: Vec<(String, u32)> = g.iter().into_iter().map(|(k, v)| (k.clone(), *v)).collect();
    assert_eq!(again, first);
}

#[test]
fn from_entries_keeps_the_last_duplicate() {
    let mut gens = Generations::new();
    let g = BTreeGraph::from_entries(vec![(1u8, "x"), (2, "y"), (1, "z")], &mut gens);
    assert_eq!(g.get(&1), Some(&"z"));
    assert_eq!(g.iter().len(), 2);
}

#[test]
fn remove_clears_key_and_slot() {
    let mut g = sample();
    let h = *g.get_ref(&"b".to_string()).unwrap();
    assert_eq!(g.remove(&"b".to_string()), Some(2));
    assert_eq!(g.remove(&"b".to_string()), None);
    assert_eq!(g.as_graph().try_borrow(&h), None);
    assert!(g.get(&"b".to_string()).is_none());
    assert!(!g.is_empty());
}

#[test]
fn promise_under_key_then_create() {
    let mut gens = Generations::new();
    let mut g = BTreeGraph::new(&mut gens);
    let p = g.promise(7u32);
    assert_eq!(g.as_graph().try_borrow(&p), None);
    g.create(&p, "seven");
    assert_eq!(g.get(&7), Some(&"seven"));
    assert_eq!(g.remove(&7), Some("seven"));
    assert!(g.is_empty());
}

#[test]
fn lookups_by_key() {
    let mut g = sample();
    let (k, v) = g.get_key_value(&"c".to_string()).unwrap();
    assert_eq!((k.as_str(), *v), ("c", 3));
    let (k, h) = g.get_entry(&"a".to_string()).unwrap();
    assert_eq!(k, "a");
    assert_eq!(*g.borrow(h), 1);
    let rb = g.get_ref_by(&"a".to_string()).unwrap();
    assert_eq!(rb.key(), "a");
    assert_eq!(*g.borrow(rb.value_ref()), 1);
    *g.get_mut(&"a".to_string()).unwrap() = 100;
    assert_eq!(g.get(&"a".to_string()), Some(&100));
    let (k, v) = g.get_key_value_mut(&"b".to_string()).unwrap();
    assert_eq!(k, "b");
    *v = 200;
    assert_eq!(g.get(&"b".to_string()), Some(&200));
    assert!(g.get_ref(&"zz".to_string()).is_none());
    assert_eq!(IndexBy::get(&g, &"zz".to_string()), None);
    assert_eq!(g.iter_ref_by().len(), 3);
    assert_eq!(g.index().len(), 3);
}

#[test]
fn entry_inserts_once() {
    let mut gens = Generations::new();
    let mut g: BTreeGraph<u32, u32> = BTreeGraph::new(&mut gens);
    *g.entry(1).or_insert_with(|| 10) += 1;
    *g.entry(1).or_insert_with(|| 50) += 1;
    assert_eq!(g.get(&1), Some(&12));
}

#[test]
fn borrow_many_mut_on_keyed_graph() {
    let mut g = sample();
    let a = *g.get_ref(&"a".to_string()).unwrap();
    let c = *g.get_ref(&"c".to_string()).unwrap();
    let mut both = g.borrow_many_mut(&[a, c]);
    let (x, y) = both.split_at_mut(1);
    std::mem::swap(&mut *x[0], &mut *y[0]);
    assert_eq!(g.get(&"a".to_string()), Some(&3));
    assert_eq!(g.get(&"c".to_string()), Some(&1));
}

#[test]
fn hash_graph_behaves_like_the_ordered_one() {
    let mut gens = Generations::new();
    let mut g: HashGraph<u64, &str> = HashGraph::new(&mut gens);
    let h1 = g.insert(1, "one");
    g.insert(1, "uno");
    g.insert(2, "two");
    assert_eq!(g.as_graph().try_borrow(&h1), None);
    assert_eq!(g.get(&1), Some(&"uno"));
    let mut pairs: Vec<(u64, &str)> = g.iter().into_iter().map(|(k, v)| (*k, *v)).collect();
    pairs.sort();
    assert_eq!(pairs, vec![(1, "uno"), (2, "two")]);
    assert_eq!(g.remove(&2), Some("two"));
    assert_eq!(g.keys(), vec![&1]);
    let mut gens2 = Generations::new();
    let rebuilt = HashGraph::from_entries(pairs, &mut gens2);
    assert_eq!(rebuilt.get(&2), Some(&"two"));
}

#[test]
fn hash_graph_with_hasher() {
    let mut gens = Generations::new();
    let mut g: HashGraph<u8, u8> = HashGraph::with_hasher(RandomState::new(), &mut gens);
    g.insert(3, 4);
    let (k, v) = g.get_key_value(&3).unwrap();
    assert_eq!((*k, *v), (3, 4));
    let mut g2: HashGraph<u8, u8> =
        HashGraph::with_capacity_and_hasher(8, RandomState::new(), &mut gens);
    assert!(g2.is_empty());
    *g2.entry(9).or_insert_with(|| 1) += 1;
    assert_eq!(g2.get(&9), Some(&2));
    let r = RefBy::<u8, u8>::dangling(9);
    let mut r2 = r.clone();
    assert_eq!(r2.resolve(&g2), Ok(()));
    assert_eq!(*g2.borrow(r2.value_ref()), 2);
    let _unused: Option<&Ref<u8>> = g2.get_ref(&1);
}

#[test]
fn mutable_iteration_in_key_order() {
    let mut g = sample();
    let mut seen = Vec::new();
    for (k, v) in g.iter_mut() {
        seen.push(k.clone());
        *v += 100;
    }
    assert_eq!(seen, vec!["a", "b", "c"]);
    for v in g.values_mut() {
        *v *= 2;
    }
    assert_eq!(g.get(&"a".to_string()), Some(&202));
    assert_eq!(g.get(&"c".to_string()), Some(&206));
}

#[test]
fn hash_graph_mutable_iteration() {
    let mut gens = Generations::new();
    let mut g: HashGraph<u8, u32> = HashGraph::new(&mut gens);
    g.insert(1, 1);
    g.insert(2, 2);
    for v in g.values_mut() {
        *v += 1;
    }
    for (k, v) in g.iter_mut() {
        *v += u32::from(*k);
    }
    assert_eq!(g.get(&1), Some(&3));
    assert_eq!(g.get(&2), Some(&5));
    assert_eq!(g.values().len(), 2);
}

#[test]
fn entry_keeps_handle_of_existing_key() {
    let mut gens = Generations::new();
    let mut g: BTreeGraph<u32, u32> = BTreeGraph::new(&mut gens);
    let h = g.insert(1, 10);
    let mut called = false;
    *g.entry(1).or_insert_with(|| {
        called = true;
        99
    }) += 5;
    assert!(!called);
    assert_eq!(*g.borrow(&h), 15);
    assert_eq!(g.get_ref(&1), Some(&h));
    assert_eq!(g.as_graph().len(), 1);
}

#[test]
fn entry_on_vacant_key_appends_a_slot() {
    let mut gens = Generations::new();
    let mut g: HashGraph<u32, u32> = HashGraph::new(&mut gens);
    g.insert(1, 10);
    *g.entry(2).or_insert_with(|| 20) += 1;
    assert_eq!(g.as_graph().len(), 2);
    let h = *g.get_ref(&2).unwrap();
    assert_eq!(*g.borrow(&h), 21);
    assert_eq!(g.get(&1), Some(&10));
}

#[test]
fn hash_graph_from_entries_with_hasher() {
    let mut gens = Generations::new();
    let g: HashGraph<u8, &str, RandomState> =
        HashGraph::from_entries_with_hasher(vec![(1, "a"), (2, "b"), (1, "c")], RandomState::new(), &mut gens);
    assert_eq!(g.get(&1), Some(&"c"));
    assert_eq!(g.get(&2), Some(&"b"));
    assert_eq!(g.iter().len(), 2);
}
