use delaunay_mesh::arena::{Arena, ArenaId};

#[test]
fn arena_test_basic() {
    let mut arena: Arena<u32> = Arena::new();
    assert!(arena.get(ArenaId::new(0)).is_none());

    let id42 = arena.push(42);
    assert_eq!(arena[id42], 42);

    let id73 = arena.push(73);
    arena.remove(id42);
    assert!(arena.get(id42).is_none());
    assert_eq!(arena[id73], 73);

    let id0 = arena.push(0);
    assert_eq!(arena[id73], 73);
    assert_eq!(arena[id0], 0);

    *arena.index_mut(id0) = 69;
    assert_eq!(arena[id73], 73);
    assert_eq!(arena[id0], 69);
}

#[test]
fn test_iterators() {
    let mut arena = Arena::new();
    arena.push(42);
    arena.push(73);
    arena.push(0);

    assert_eq!(arena.iter(), vec![&42, &73, &0]);

    for (i, e) in arena.enumerate() {
        assert_eq!(&arena[i], e);
    }
}

#[test]
fn removed_handle_does_not_resolve_and_its_slot_is_reused() {
    let mut arena: Arena<&str> = Arena::new();
    let a = arena.push("a");
    let b = arena.push("b");
    let c = arena.push("c");
    assert_eq!((a.slot(), b.slot(), c.slot()), (0, 1, 2));

    assert_eq!(arena.remove(b), Some("b"));
    assert!(arena.get(b).is_none());
    assert!(arena.get_mut(b).is_none());
    assert_eq!(arena.remove(b), None);

    // the slot that was freed last is the one that is filled first
    assert_eq!(arena.remove(a), Some("a"));
    let d = arena.push("d");
    assert_eq!(d, a);
    let e = arena.push("e");
    assert_eq!(e, b);
    let f = arena.push("f");
    assert_eq!(f.slot(), 3);
    assert_eq!(arena.iter(), vec![&"d", &"e", &"c", &"f"]);
    assert_eq!(arena.slot_count(), 4);
}

#[test]
fn handle_out_of_range_is_not_found() {
    let mut arena: Arena<u8> = Arena::new();
    arena.push(1);
    assert!(arena.get(ArenaId::new(1)).is_none());
    assert!(arena.get_mut(ArenaId::new(7)).is_none());
    assert_eq!(arena.remove(ArenaId::new(7)), None);
    assert_eq!(arena.iter(), vec![&1]);
}

#[test]
fn iteration_skips_free_slots() {
    let mut arena = Arena::new();
    let ids: Vec<ArenaId<i32>> = (0..6).map(|i| arena.push(i * 10)).collect();
    arena.remove(ids[1]);
    arena.remove(ids[4]);
    assert_eq!(arena.iter(), vec![&0, &20, &30, &50]);
    let seen: Vec<(usize, i32)> = arena.enumerate().iter().map(|(i, v)| (i.slot(), **v)).collect();
    assert_eq!(seen, vec![(0, 0), (2, 20), (3, 30), (5, 50)]);
}

#[test]
fn get_mut_writes_through() {
    let mut arena = Arena::new();
    let a = arena.push(1);
    let b = arena.push(2);
    *arena.get_mut(a).unwrap() += 10;
    assert_eq!(arena[a], 11);
    assert_eq!(arena[b], 2);
    let fresh: Arena<u8> = Arena::default();
    assert!(fresh.iter().is_empty());
}
