use vec_ecs::EntityHandleCounter;

#[test]
fn test_counting() {
    let mut counter = EntityHandleCounter::default();
    let h1 = counter.next_handle();
    let h2 = counter.next_handle();
    assert_ne!(h1.index(), h2.index());
    assert_eq!(h1.generation(), h2.generation());

    assert!(!counter.is_already_freed(h1));
    counter.entity_deleted(h1);
    assert!(counter.is_already_freed(h1));
    let h3 = counter.next_handle();
    assert_eq!(h1.index(), h3.index());
    assert_ne!(h1.generation(), h3.generation());
    assert!(counter.is_already_freed(h1));
}

#[test]
fn fresh_slots_count_up_from_zero() {
    let mut counter = EntityHandleCounter::default();
    for expected in 0..20 {
        let h = counter.next_handle();
        assert_eq!(h.index(), expected);
        assert_eq!(h.generation(), 0);
        assert!(!counter.is_already_freed(h));
    }
}

#[test]
fn the_lowest_free_slot_is_reused_first() {
    let mut counter = EntityHandleCounter::default();
    let hs: Vec<_> = (0..6).map(|_| counter.next_handle()).collect();
    counter.entity_deleted(hs[4]);
    counter.entity_deleted(hs[1]);
    counter.entity_deleted(hs[3]);
    let a = counter.next_handle();
    let b = counter.next_handle();
    let c = counter.next_handle();
    let d = counter.next_handle();
    assert_eq!((a.index(), b.index(), c.index(), d.index()), (1, 3, 4, 6));
}

#[test]
fn the_generation_goes_up_once_per_run_of_frees() {
    let mut counter = EntityHandleCounter::default();
    let h0 = counter.next_handle();
    let h1 = counter.next_handle();
    let h2 = counter.next_handle();
    counter.entity_deleted(h0);
    counter.entity_deleted(h1);
    let a = counter.next_handle();
    let b = counter.next_handle();
    let c = counter.next_handle();
    assert_eq!((a.index(), a.generation()), (0, 1));
    assert_eq!((b.index(), b.generation()), (1, 1));
    assert_eq!((c.index(), c.generation()), (3, 1));
    counter.entity_deleted(h2);
    let d = counter.next_handle();
    assert_eq!((d.index(), d.generation()), (2, 2));
    assert!(counter.is_already_freed(h0));
    assert!(counter.is_already_freed(h1));
    assert!(counter.is_already_freed(h2));
    for h in [a, b, c, d] {
        assert!(!counter.is_already_freed(h));
    }
}

#[test]
fn live_handles_never_compare_equal() {
    let mut counter = EntityHandleCounter::default();
    let mut live = Vec::new();
    for round in 0..5 {
        for _ in 0..4 {
            let h = counter.next_handle();
            assert!(!live.contains(&h));
            live.push(h);
        }
        let gone = live.remove(round % live.len());
        counter.entity_deleted(gone);
        assert!(counter.is_already_freed(gone));
    }
    for (i, a) in live.iter().enumerate() {
        for b in &live[i + 1..] {
            assert_ne!(a, b);
            assert_ne!(a.index(), b.index());
        }
    }
}

#[test]
fn a_handle_of_another_allocator_counts_as_freed() {
    let mut big = EntityHandleCounter::default();
    let small = EntityHandleCounter::default();
    let h = big.next_handle();
    assert!(small.is_already_freed(h));
}

#[test]
fn an_allocator_far_from_its_limits_has_room() {
    let mut counter = EntityHandleCounter::default();
    assert!(counter.has_room());
    let h = counter.next_handle();
    assert!(counter.has_room());
    counter.entity_deleted(h);
    assert!(counter.has_room());
}
