use vec_ecs::CompVec;
use vec_ecs::ComponentStorage;
use vec_ecs::CompsIter;
use vec_ecs::EntityHandle;
use vec_ecs::EntityHandleCounter;

fn two_storages() -> (Vec<EntityHandle>, ComponentStorage<u32>, ComponentStorage<String>) {
    let mut handles = EntityHandleCounter::default();
    let ids: Vec<_> = (0..6).map(|_| handles.next_handle()).collect();
    let mut a = CompVec::default();
    let mut b = CompVec::default();
    for k in [0usize, 2, 3, 5] {
        a.insert(ids[k], k as u32);
    }
    for k in [1usize, 2, 5] {
        b.insert(ids[k], format!("s{}", k));
    }
    (ids, ComponentStorage::new(a), ComponentStorage::new(b))
}

#[test]
fn lending_slots_are_the_common_slots_in_order() {
    let (_, a, b) = two_storages();
    assert_eq!(CompsIter::lending_slots(&a, &b), vec![2, 5]);
    assert_eq!(CompsIter::lending_slots(&a, &a), vec![0, 2, 3, 5]);
}

#[test]
fn an_entry_taken_out_by_position_goes_back_where_it_was() {
    let (ids, mut a, _) = two_storages();
    assert!(!a.has_lent());
    let (id, comp) = a.tmp_remove_ind(2);
    assert!(a.has_lent());
    assert_eq!((id, comp), (ids[3], 3));
    assert_eq!(a.as_store().get(ids[3]), None);
    assert_eq!(a.as_store().get(ids[5]), Some(&5));
    assert_eq!(a.as_store().components().len(), 3);
    a.tmp_insert_ind(id, 2, comp + 40);
    assert!(!a.has_lent());
    let store = a.into_store();
    let all: Vec<(usize, u32)> = store.components().iter().map(|(id, c)| (id.index(), *c)).collect();
    assert_eq!(all, vec![(0, 0), (2, 2), (3, 43), (5, 5)]);
    assert_eq!(store.get(ids[3]), Some(&43));
}

#[test]
fn lend_and_give_back_visit_each_common_entity() {
    let (ids, mut a, mut b) = two_storages();
    for slot in CompsIter::lending_slots(&a, &b) {
        let (id, mut x, mut s) = CompsIter::lend(&mut a, &mut b, slot);
        assert_eq!(id, ids[slot]);
        assert_eq!(a.as_store().get(id), None);
        assert_eq!(b.as_store().get(id), None);
        x += 100;
        s.push('!');
        CompsIter::give_back(&mut a, &mut b, id, x, s);
    }
    let a = a.into_store();
    let b = b.into_store();
    let xs: Vec<(usize, u32)> = a.components().iter().map(|(id, c)| (id.index(), *c)).collect();
    assert_eq!(xs, vec![(0, 0), (2, 102), (3, 3), (5, 105)]);
    let ss: Vec<(usize, String)> =
        b.components().iter().map(|(id, c)| (id.index(), c.clone())).collect();
    assert_eq!(
        ss,
        vec![(1, "s1".to_string()), (2, "s2!".to_string()), (5, "s5!".to_string())]
    );
}

#[test]
fn the_handle_of_a_slot_is_that_of_its_entry() {
    let (ids, a, b) = two_storages();
    assert_eq!(a.handle_of_slot(3), Some(ids[3]));
    assert_eq!(a.handle_of_slot(5), Some(ids[5]));
    assert_eq!(a.handle_of_slot(1), None);
    assert_eq!(a.handle_of_slot(900), None);
    assert_eq!(b.handle_of_slot(1), Some(ids[1]));
    assert_eq!(b.handle_of_slot(0), None);
}
