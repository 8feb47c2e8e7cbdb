use gouache::slab::Slab;

#[test]
fn slab_insert_get_remove() {
    let mut s: Slab<&str> = Slab::new();
    let a = s.insert("a");
    let b = s.insert("b");
    assert_eq!((a, b), (0, 1));
    assert_eq!(s.get(a), Some(&"a"));
    assert_eq!(s.get(b), Some(&"b"));
    assert_eq!(s.get(2), None);
    assert_eq!(s.remove(a), Some("a"));
    assert_eq!(s.get(a), None);
    assert_eq!(s.get(b), Some(&"b"));
}

#[test]
fn slab_remove_then_insert_reuses_index() {
    let mut s: Slab<u32> = Slab::new();
    let idx = s.insert(10);
    s.insert(11);
    assert_eq!(s.remove(idx), Some(10));
    assert_eq!(s.get(idx), None);
    assert_eq!(s.insert(12), idx);
    assert_eq!(s.get(idx), Some(&12));
}

#[test]
fn slab_reuse_is_last_freed_first() {
    let mut s: Slab<u32> = Slab::new();
    for i in 0..5 {
        assert_eq!(s.insert(i), i as usize);
    }
    assert_eq!(s.remove(1), Some(1));
    assert_eq!(s.remove(3), Some(3));
    assert_eq!(s.insert(30), 3);
    assert_eq!(s.insert(10), 1);
    assert_eq!(s.insert(50), 5);
    assert_eq!(s.slots(), 6);
}

#[test]
fn slab_remove_not_present() {
    let mut s: Slab<u32> = Slab::new();
    assert_eq!(s.remove(0), None);
    let i = s.insert(1);
    assert_eq!(s.remove(i), Some(1));
    assert_eq!(s.remove(i), None);
    assert_eq!(s.remove(99), None);
    assert_eq!(s.insert(2), i);
}

#[test]
fn slab_get_mut_changes_value() {
    let mut s: Slab<u32> = Slab::new();
    let i = s.insert(1);
    *s.get_mut(i).unwrap() += 41;
    assert_eq!(s.get(i), Some(&42));
    assert!(s.get_mut(7).is_none());
    s.remove(i);
    assert!(s.get_mut(i).is_none());
}

#[test]
fn slab_iterates_occupied_in_storage_order() {
    let mut s: Slab<u32> = Slab::new();
    for i in 0..5 {
        s.insert(i * 10);
    }
    s.remove(0);
    s.remove(3);
    let mut it = s.iter();
    let mut seen = Vec::new();
    while let Some(v) = it.next() {
        seen.push(*v);
    }
    assert_eq!(seen, vec![10, 20, 40]);

    let mut cursor = s.iter_mut();
    while let Some(v) = cursor.next(&mut s) {
        *v += 1;
    }
    let mut into = s.into_iter();
    let mut owned = Vec::new();
    while let Some(v) = into.next() {
        owned.push(v);
    }
    assert_eq!(owned, vec![11, 21, 41]);
}

#[test]
fn slab_empty_iteration() {
    let s: Slab<u32> = Slab::new();
    assert!(s.iter().next().is_none());
    assert!(s.into_iter().next().is_none());
}
