use vec_ecs::CompVec;
use vec_ecs::EntityHandleCounter;

#[test]
fn test_get2_mut() {
    let mut v = CompVec::<String>::default();
    let mut handles = EntityHandleCounter::default();
    let id1 = handles.next_handle();
    v.insert(id1, "hello".to_string());
    let id2 = handles.next_handle();
    v.insert(id2, "hello2".to_string());
    let id3 = handles.next_handle();
    v.insert(id3, "hello3".to_string());

    {
        let (s1, s2) = v.get2_mut(id1, id2);
        assert_eq!(s1, Some(&mut "hello".to_string()));
        assert_eq!(s2, Some(&mut "hello2".to_string()));
    }

    {
        let (s1, s3) = v.get2_mut(id1, id3);
        assert_eq!(s1, Some(&mut "hello".to_string()));
        assert_eq!(s3, Some(&mut "hello3".to_string()));
    }

    {
        let (s3, s1) = v.get2_mut(id3, id1);
        assert_eq!(s1, Some(&mut "hello".to_string()));
        assert_eq!(s3, Some(&mut "hello3".to_string()));
    }

    {
        let (s3, s2) = v.get2_mut(id3, id2);
        assert_eq!(s2, Some(&mut "hello2".to_string()));
        assert_eq!(s3, Some(&mut "hello3".to_string()));
    }
}

#[test]
fn insert_then_get_yields_the_value() {
    let mut handles = EntityHandleCounter::default();
    let mut v = CompVec::<u32>::default();
    assert!(v.is_empty());
    let ids: Vec<_> = (0..6).map(|_| handles.next_handle()).collect();
    // out of order, to exercise the rank arithmetic
    for &k in &[4usize, 1, 5, 0, 3] {
        assert_eq!(v.insert(ids[k], 10 * k as u32), None);
    }
    assert!(!v.is_empty());
    for &k in &[0usize, 1, 3, 4, 5] {
        assert_eq!(v.get(ids[k]), Some(&(10 * k as u32)));
    }
    assert_eq!(v.get(ids[2]), None);
    let slots: Vec<usize> = v.components().iter().map(|(id, _)| id.index()).collect();
    assert_eq!(slots, vec![0, 1, 3, 4, 5]);
    let values: Vec<u32> = v.components().iter().map(|(_, c)| *c).collect();
    assert_eq!(values, vec![0, 10, 30, 40, 50]);
}

#[test]
fn insert_on_a_present_handle_returns_the_previous_value() {
    let mut handles = EntityHandleCounter::default();
    let mut v = CompVec::<&'static str>::default();
    let a = handles.next_handle();
    let b = handles.next_handle();
    v.insert(a, "a");
    v.insert(b, "b");
    assert_eq!(v.components().len(), 2);
    assert_eq!(v.insert(a, "a2"), Some("a"));
    assert_eq!(v.components().len(), 2);
    assert_eq!(v.get(a), Some(&"a2"));
    assert_eq!(v.get(b), Some(&"b"));
}

#[test]
fn remove_then_get_yields_nothing() {
    let mut handles = EntityHandleCounter::default();
    let mut v = CompVec::<u8>::default();
    let a = handles.next_handle();
    let b = handles.next_handle();
    let c = handles.next_handle();
    v.insert(a, 1);
    v.insert(b, 2);
    v.insert(c, 3);
    assert_eq!(v.remove(b), Some(2));
    assert_eq!(v.get(b), None);
    assert_eq!(v.get(a), Some(&1));
    assert_eq!(v.get(c), Some(&3));
    assert_eq!(v.components().len(), 2);
    // removing what is not there is a no-op
    assert_eq!(v.remove(b), None);
    assert_eq!(v.components().len(), 2);
    assert_eq!(v.remove(a), Some(1));
    assert_eq!(v.remove(c), Some(3));
    assert!(v.is_empty());
}

#[test]
fn a_stale_handle_finds_nothing() {
    let mut handles = EntityHandleCounter::default();
    let mut v = CompVec::<u8>::default();
    let old = handles.next_handle();
    handles.entity_deleted(old);
    let new = handles.next_handle();
    assert_eq!(old.index(), new.index());
    v.insert(new, 9);
    assert_eq!(v.get(old), None);
    assert_eq!(v.get_mut(old), None);
    assert_eq!(v.get(new), Some(&9));
}

#[test]
fn a_stale_handle_removes_nothing() {
    let mut c = EntityHandleCounter::default();
    let old = c.next_handle();
    c.entity_deleted(old);
    let new = c.next_handle();
    assert_eq!(new.index(), 0);
    assert_ne!(new.generation(), old.generation());
    let mut v = CompVec::<u32>::default();
    v.insert(new, 7);
    assert_eq!(v.remove(old), None);
    assert_eq!(v.get(new), Some(&7));
    assert_eq!(v.components(), &[(new, 7)]);
    assert!(v.owners().contains(0));
    assert_eq!(v.remove(new), Some(7));
    assert!(v.is_empty());
    assert!(!v.owners().contains(0));
}

#[test]
fn get2_mut_finds_nothing_for_a_stale_handle_of_the_same_slot() {
    let mut c = EntityHandleCounter::default();
    let old = c.next_handle();
    c.entity_deleted(old);
    let new = c.next_handle();
    let mut v = CompVec::<u32>::default();
    v.insert(new, 7);
    {
        let (x, y) = v.get2_mut(new, old);
        assert_eq!((x.map(|r| *r), y.map(|r| *r)), (Some(7), None));
    }
    {
        let (y, x) = v.get2_mut(old, new);
        assert_eq!((x.map(|r| *r), y.map(|r| *r)), (Some(7), None));
    }
    {
        let (x, y) = v.get2_mut(old, old);
        assert!(x.is_none() && y.is_none());
    }
    {
        let (y, x) = v.get2_mut(old, new);
        assert!(y.is_none());
        *x.unwrap() += 1;
    }
    assert_eq!(v.components(), &[(new, 8)]);
}

#[test]
fn get_mut_changes_the_component_in_place() {
    let mut handles = EntityHandleCounter::default();
    let mut v = CompVec::<u32>::default();
    let a = handles.next_handle();
    let b = handles.next_handle();
    v.insert(a, 1);
    v.insert(b, 2);
    *v.get_mut(b).unwrap() += 40;
    assert_eq!(v.get(a), Some(&1));
    assert_eq!(v.get(b), Some(&42));
}

#[test]
fn get2_mut_does_not_depend_on_the_order_of_its_arguments() {
    let mut handles = EntityHandleCounter::default();
    let mut v = CompVec::<u32>::default();
    let a = handles.next_handle();
    let b = handles.next_handle();
    let absent = handles.next_handle();
    v.insert(a, 1);
    v.insert(b, 2);
    {
        let (x, y) = v.get2_mut(a, b);
        assert_eq!((x.map(|r| *r), y.map(|r| *r)), (Some(1), Some(2)));
    }
    {
        let (y, x) = v.get2_mut(b, a);
        assert_eq!((x.map(|r| *r), y.map(|r| *r)), (Some(1), Some(2)));
    }
    {
        let (x, y) = v.get2_mut(a, absent);
        assert_eq!((x.map(|r| *r), y.map(|r| *r)), (Some(1), None));
    }
    {
        let (y, x) = v.get2_mut(absent, a);
        assert_eq!((x.map(|r| *r), y.map(|r| *r)), (Some(1), None));
    }
    {
        let (x, y) = v.get2_mut(absent, absent);
        assert!(x.is_none() && y.is_none());
    }
    {
        let (x, y) = v.get2_mut(a, b);
        let (x, y) = (x.unwrap(), y.unwrap());
        *x = 10;
        *y = 20;
        *x += 1;
    }
    assert_eq!(v.get(a), Some(&11));
    assert_eq!(v.get(b), Some(&20));
}

#[test]
fn positional_access_follows_the_stored_order() {
    let mut handles = EntityHandleCounter::default();
    let mut v = CompVec::<char>::default();
    let a = handles.next_handle();
    let b = handles.next_handle();
    let c = handles.next_handle();
    v.insert(c, 'c');
    v.insert(a, 'a');
    assert_eq!(v.get_comp_ind(0), (a, &'a'));
    assert_eq!(v.get_comp_ind(1), (c, &'c'));
    {
        let (id, comp) = v.get_mut_comp_ind(1);
        assert_eq!(id, c);
        *comp = 'z';
    }
    assert_eq!(v.get(c), Some(&'z'));
    assert!(v.owners().contains(0));
    assert!(!v.owners().contains(b.index()));
    assert!(v.owners().contains(2));
    assert_eq!(v.owners().count_ones(..), 2);
}

#[test]
fn iter_walks_in_ascending_order_of_slot() {
    let mut handles = EntityHandleCounter::default();
    let mut v = CompVec::<u32>::default();
    let ids: Vec<_> = (0..4).map(|_| handles.next_handle()).collect();
    v.insert(ids[3], 3);
    v.insert(ids[1], 1);
    v.insert(ids[0], 0);
    let mut it = v.iter();
    let mut seen = Vec::new();
    while let Some((id, comp)) = it.next() {
        seen.push((id, *comp));
    }
    assert_eq!(seen, vec![(ids[0], 0), (ids[1], 1), (ids[3], 3)]);
    assert!(it.next().is_none());
}

#[test]
fn iter_mut_writes_through() {
    let mut handles = EntityHandleCounter::default();
    let mut v = CompVec::<u32>::default();
    let ids: Vec<_> = (0..3).map(|_| handles.next_handle()).collect();
    for (k, id) in ids.iter().enumerate() {
        v.insert(*id, k as u32);
    }
    {
        let mut it = v.iter_mut();
        while let Some((id, comp)) = it.next() {
            *comp += 100 * (id.index() as u32 + 1);
        }
    }
    assert_eq!(v.get(ids[0]), Some(&100));
    assert_eq!(v.get(ids[1]), Some(&201));
    assert_eq!(v.get(ids[2]), Some(&302));
}

#[test]
fn stores_fed_by_one_allocator_agree() {
    let mut handles = EntityHandleCounter::default();
    let mut a = CompVec::<u8>::default();
    let mut b = CompVec::<u8>::default();
    let empty = CompVec::<u8>::default();
    let x = handles.next_handle();
    let y = handles.next_handle();
    a.insert(x, 1);
    a.insert(y, 2);
    b.insert(y, 3);
    assert!(a.agrees_with(&b));
    assert!(b.agrees_with(&a));
    assert!(a.agrees_with(&empty));
    assert!(empty.agrees_with(&a));
    // `b` keeps an entry of an entity that was deleted and whose slot came back
    handles.entity_deleted(y);
    a.remove(y);
    let z = handles.next_handle();
    assert_eq!(z.index(), y.index());
    a.insert(z, 4);
    assert!(!a.agrees_with(&b));
    assert!(!b.agrees_with(&a));
    b.remove(y);
    assert!(a.agrees_with(&b));
}
