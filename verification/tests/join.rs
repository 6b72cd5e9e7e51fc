use vec_ecs::CompIter;
use vec_ecs::CompVec;
use vec_ecs::EntityHandle;
use vec_ecs::EntityHandleCounter;

#[test]
fn join_of_two_stores_visits_what_both_have() {
    let mut handles = EntityHandleCounter::default();
    let handle1 = handles.next_handle();
    let handle2 = handles.next_handle();
    let handle3 = handles.next_handle();
    let _handle4 = handles.next_handle();

    let mut v1 = CompVec::<u32>::default();
    let mut v2 = CompVec::<bool>::default();

    v1.insert(handle1, 100);
    v2.insert(handle1, true);

    v2.insert(handle2, false);

    v1.insert(handle3, 32);
    v2.insert(handle3, false);

    let mut rows = CompIter::from((v1.iter(), v2.iter())).into_iter();
    let mut v = Vec::new();
    while let Some(row) = rows.next() {
        v.push(row);
    }
    assert_eq!(v, vec![(handle1, &100, &true), (handle3, &32, &false)]);
    assert!(rows.next().is_none());
}

fn filled(n: usize) -> (Vec<EntityHandle>, CompVec<usize>, CompVec<String>) {
    let mut handles = EntityHandleCounter::default();
    let mut a = CompVec::default();
    let mut b = CompVec::default();
    let mut ids = Vec::new();
    for i in 0..n {
        let id = handles.next_handle();
        a.insert(id, i);
        b.insert(id, format!("b{}", i));
        ids.push(id);
    }
    (ids, a, b)
}

#[test]
fn round_trip_yields_every_entity_once_in_order() {
    for n in [0usize, 1, 5, 70, 200] {
        let (ids, a, b) = filled(n);
        let mut rows = CompIter::from((a.iter(), b.iter())).into_iter();
        let mut count = 0;
        while let Some((id, x, y)) = rows.next() {
            assert_eq!(id, ids[count]);
            assert_eq!(*x, count);
            assert_eq!(*y, format!("b{}", count));
            count += 1;
        }
        assert_eq!(count, n);
    }
}

#[test]
fn without_leaves_out_the_entities_of_the_other_store() {
    let (ids, a, b) = filled(10);
    let mut c = CompVec::<()>::default();
    for k in [2usize, 3, 7] {
        c.insert(ids[k], ());
    }
    let mut only_a = CompVec::<usize>::default();
    let mut handles = EntityHandleCounter::default();
    for _ in 0..10 {
        handles.next_handle();
    }
    // an entity that owns C but neither A nor B changes nothing
    let stray = handles.next_handle();
    c.insert(stray, ());
    only_a.insert(stray, 0);

    let mut rows = CompIter::from((a.iter(), b.iter())).without(&c).into_iter();
    let mut seen = Vec::new();
    while let Some((id, x, _)) = rows.next() {
        seen.push((id.index(), *x));
    }
    assert_eq!(seen, vec![(0, 0), (1, 1), (4, 4), (5, 5), (6, 6), (8, 8), (9, 9)]);
}

#[test]
fn with_keeps_only_the_entities_of_the_other_store() {
    let (ids, a, b) = filled(10);
    let mut c = CompVec::<()>::default();
    for k in [9usize, 0, 4] {
        c.insert(ids[k], ());
    }
    let mut rows = CompIter::from((a.iter(), b.iter())).with(&c).into_iter();
    let mut seen = Vec::new();
    while let Some((id, x, y)) = rows.next() {
        seen.push((id, *x, y.clone()));
    }
    assert_eq!(
        seen,
        vec![
            (ids[0], 0, "b0".to_string()),
            (ids[4], 4, "b4".to_string()),
            (ids[9], 9, "b9".to_string())
        ]
    );
}

#[test]
fn an_optional_participant_narrows_nothing() {
    let mut handles = EntityHandleCounter::default();
    let ids: Vec<_> = (0..8).map(|_| handles.next_handle()).collect();
    let mut a = CompVec::<usize>::default();
    let mut b = CompVec::<char>::default();
    for k in [1usize, 2, 4, 5, 7] {
        a.insert(ids[k], k);
    }
    for (k, ch) in [(0usize, 'z'), (2, 'c'), (3, 'd'), (5, 'f')] {
        b.insert(ids[k], ch);
    }
    let mut rows = CompIter::from((a.iter(), b.iter().optional())).into_iter();
    let mut seen = Vec::new();
    while let Some((id, x, y)) = rows.next() {
        seen.push((id, *x, y.copied()));
    }
    assert_eq!(
        seen,
        vec![
            (ids[1], 1, None),
            (ids[2], 2, Some('c')),
            (ids[4], 4, None),
            (ids[5], 5, Some('f')),
            (ids[7], 7, None)
        ]
    );
}

#[test]
fn a_join_of_one_store_is_the_store() {
    let (ids, a, _) = filled(4);
    let mut rows = CompIter::from((a.iter(),)).into_iter();
    let mut seen = Vec::new();
    while let Some((id, x)) = rows.next() {
        seen.push((id, *x));
    }
    assert_eq!(seen, vec![(ids[0], 0), (ids[1], 1), (ids[2], 2), (ids[3], 3)]);
}

#[test]
fn a_mutable_participant_writes_through() {
    let (ids, mut a, b) = filled(5);
    let mut c = CompVec::<u8>::default();
    c.insert(ids[1], 1);
    c.insert(ids[3], 3);
    {
        let mut rows =
            CompIter::from((b.iter(), a.iter_mut(), c.iter_mut().optional())).into_iter();
        while let Some((_, name, x, tag)) = rows.next() {
            *x += name.len();
            if let Some(tag) = tag {
                *tag += 10;
            }
        }
    }
    for k in 0..5 {
        assert_eq!(a.get(ids[k]), Some(&(k + 2)));
    }
    assert_eq!(c.get(ids[1]), Some(&11));
    assert_eq!(c.get(ids[3]), Some(&13));
}

#[test]
fn a_join_of_seven_stores() {
    let mut handles = EntityHandleCounter::default();
    let ids: Vec<_> = (0..130).map(|_| handles.next_handle()).collect();
    let mut stores: Vec<CompVec<usize>> = (0..7).map(|_| CompVec::default()).collect();
    for (k, id) in ids.iter().enumerate() {
        for (s, store) in stores.iter_mut().enumerate() {
            // store `s` lacks the entities whose number is 1 mod (s + 2)
            if k % (s + 2) != 1 {
                store.insert(*id, 1000 * s + k);
            }
        }
    }
    let mut rows = CompIter::from((
        stores[0].iter(),
        stores[1].iter(),
        stores[2].iter(),
        stores[3].iter(),
        stores[4].iter(),
        stores[5].iter(),
        stores[6].iter(),
    ))
    .into_iter();
    let mut seen = Vec::new();
    while let Some((id, c0, c1, c2, c3, c4, c5, c6)) = rows.next() {
        let k = id.index();
        assert_eq!([*c0, *c1, *c2, *c3, *c4, *c5, *c6].to_vec(), (0..7).map(|s| 1000 * s + k).collect::<Vec<_>>());
        seen.push(k);
    }
    let expected: Vec<usize> = (0..130).filter(|k| (0..7).all(|s| k % (s + 2) != 1)).collect();
    assert!(!expected.is_empty());
    assert_eq!(seen, expected);
}

#[test]
fn collect_gathers_the_rows_that_next_would_yield() {
    let (ids, a, b) = filled(6);
    let mut c = CompVec::<()>::default();
    c.insert(ids[2], ());
    let rows = CompIter::from((a.iter(), b.iter())).without(&c).into_iter().collect();
    let seen: Vec<(EntityHandle, usize, String)> =
        rows.into_iter().map(|(id, x, y)| (id, *x, y.clone())).collect();
    let expected: Vec<(EntityHandle, usize, String)> = [0usize, 1, 3, 4, 5]
        .iter()
        .map(|&k| (ids[k], k, format!("b{}", k)))
        .collect();
    assert_eq!(seen, expected);

    let mut walk = CompIter::from((a.iter(), b.iter())).into_iter();
    assert_eq!(walk.next().map(|(id, _, _)| id), Some(ids[0]));
    assert_eq!(walk.next().map(|(id, _, _)| id), Some(ids[1]));
    let rest: Vec<usize> = walk.collect().into_iter().map(|(id, _, _)| id.index()).collect();
    assert_eq!(rest, vec![2, 3, 4, 5]);
}
