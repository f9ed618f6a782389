use graph::{Gen, Generations, Graph, Ref};

#[test]
fn borrow_succeeds_only_on_own_occupied_slot() {
    let mut gens = Generations::new();
    let mut g: Graph<u32> = Graph::new(&mut gens);
    let a = g.insert(5);
    let p = g.promise();
    assert_eq!(g.try_borrow(&a), Some(&5));
    assert_eq!(g.try_borrow(&p), None);
    assert_eq!(*g.borrow(&a), 5);
}

#[test]
fn foreign_handle_is_rejected() {
    let mut gens = Generations::new();
    let mut a: Graph<u32> = Graph::new(&mut gens);
    let mut b: Graph<u32> = Graph::new(&mut gens);
    let ha = a.insert(1);
    let hb = b.insert(2);
    assert_eq!(b.try_borrow(&ha), None);
    assert_eq!(a.try_borrow(&hb), None);
    assert_eq!(a.try_borrow(&ha), Some(&1));
    assert_eq!(b.try_create(&ha, 3), Err(3));
}

#[test]
fn dangling_handle_is_rejected() {
    let mut gens = Generations::new();
    let mut g: Graph<u32> = Graph::new(&mut gens);
    g.insert(1);
    let d: Ref<u32> = Ref::dangling();
    assert!(d.is_invalid());
    assert_eq!(g.try_borrow(&d), None);
    assert!(d != Ref::dangling());
    assert!(d != d.clone());
}

#[test]
fn promise_then_create() {
    let mut gens = Generations::new();
    let mut g: Graph<String> = Graph::new(&mut gens);
    let p = g.promise();
    assert_eq!(g.try_borrow(&p), None);
    g.create(&p, "made".to_string());
    assert_eq!(g.borrow(&p), "made");
}

#[test]
fn create_twice_is_refused() {
    let mut gens = Generations::new();
    let mut g: Graph<u32> = Graph::new(&mut gens);
    let p = g.promise();
    assert_eq!(g.try_create(&p, 1), Ok(()));
    assert_eq!(g.try_create(&p, 2), Err(2));
    assert_eq!(*g.borrow(&p), 1);
}

#[test]
fn remove_then_create_again() {
    let mut gens = Generations::new();
    let mut g: Graph<u32> = Graph::new(&mut gens);
    let a = g.insert(4);
    assert_eq!(g.remove(a), 4);
    assert_eq!(g.try_borrow(&a), None);
    g.create(&a, 6);
    assert_eq!(*g.borrow(&a), 6);
    assert_eq!(g.len(), 1);
}

#[test]
fn borrow_mut_changes_the_slot() {
    let mut gens = Generations::new();
    let mut g: Graph<u32> = Graph::with_capacity(4, &mut gens);
    let a = g.insert(1);
    *g.borrow_mut(&a) += 10;
    assert_eq!(*g.borrow(&a), 11);
}

#[test]
fn borrow_many_mut_links_two_nodes() {
    let mut gens = Generations::new();
    let mut g: Graph<Vec<u32>> = Graph::new(&mut gens);
    let a = g.insert(vec![]);
    let b = g.insert(vec![]);
    let mut both = g.borrow_many_mut(&[b, a]);
    both[0].push(1);
    both[1].push(2);
    assert_eq!(g.borrow(&a), &vec![2]);
    assert_eq!(g.borrow(&b), &vec![1]);
}

#[test]
fn borrow_many_mut_three_nodes_in_given_order() {
    let mut gens = Generations::new();
    let mut g: Graph<u32> = Graph::new(&mut gens);
    let a = g.insert(1);
    let b = g.insert(2);
    let c = g.insert(3);
    let all = g.borrow_many_mut(&[c, a, b]);
    assert_eq!(all.iter().map(|v| **v).collect::<Vec<u32>>(), vec![3, 1, 2]);
    for v in all {
        *v += 1;
    }
    assert_eq!(*g.borrow(&a), 2);
    assert_eq!(*g.borrow(&c), 4);
    assert!(g.borrow_many_mut(&[]).is_empty());
}

#[test]
fn generations_are_distinct_and_nonzero() {
    let mut gens = Generations::new();
    let g1 = Gen::new(&mut gens);
    let g2 = Gen::new(&mut gens);
    assert!(!g1.is_invalid());
    assert!(g1 == g1);
    assert!(g1 != g2);
    assert!(Gen::invalid().is_invalid());
    assert!(Gen::invalid() != Gen::invalid());
}

#[test]
fn from_values_fills_slots_in_order() {
    let mut gens = Generations::new();
    let g = Graph::from_values(vec![3u8, 1, 2], &mut gens);
    assert_eq!(g.len(), 3);
    let mut h = Graph::new(&mut gens);
    let first = h.insert(0u8);
    assert_eq!(g.try_borrow(&first), None);
}

#[test]
fn iter_mut_visits_occupied_slots_in_order() {
    let mut gens = Generations::new();
    let mut g: Graph<u32> = Graph::new(&mut gens);
    let a = g.insert(1);
    let p = g.promise();
    let b = g.insert(2);
    for v in g.iter_mut() {
        *v *= 10;
    }
    assert_eq!(*g.borrow(&a), 10);
    assert_eq!(*g.borrow(&b), 20);
    assert_eq!(g.try_borrow(&p), None);
    assert_eq!(g.iter_mut().len(), 2);
}

#[test]
fn into_values_skips_empty_slots() {
    let mut gens = Generations::new();
    let mut g: Graph<char> = Graph::new(&mut gens);
    g.insert('x');
    g.promise();
    let z = g.insert('z');
    g.insert('y');
    g.remove(z);
    assert_eq!(g.into_values(), vec!['x', 'y']);
}
