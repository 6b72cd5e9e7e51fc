use vec_ecs::CompIter;
use vec_ecs::CompVec;
use vec_ecs::EntityHandle;
use vec_ecs::EntityHandleCounter;
use vec_ecs::EntityInsertIntoWorldTrait;
use vec_ecs::WorldBorrowTrait;
use vec_ecs::WorldTrait;

#[derive(Debug, Default)]
pub struct One(usize);

#[derive(Debug, Default)]
pub struct Two(usize);

#[derive(Debug, Default)]
pub struct Three(usize);

#[derive(Default)]
pub struct World {
    handles: EntityHandleCounter,
    pub one: CompVec<One>,
    pub two: CompVec<Two>,
    pub three: CompVec<Three>,
}

impl WorldTrait for World {
    fn deletable(&self, _entity: EntityHandle) -> bool {
        true
    }

    fn deleted(_pre: Self, _post: Self, _entity: EntityHandle) -> bool {
        true
    }

    fn emptiness(&self, _empty: bool) -> bool {
        true
    }

    fn delete_entity(&mut self, handle: EntityHandle) {
        self.handles.entity_deleted(handle);
        self.one.remove(handle);
        self.two.remove(handle);
        self.three.remove(handle);
    }

    fn is_empty(&self) -> bool {
        self.one.is_empty() && self.two.is_empty() && self.three.is_empty()
    }
}

impl<'a> WorldBorrowTrait<'a> for World {
    fn can_create(&self) -> bool {
        true
    }

    fn created(_pre: Self, _post: Self, _handle: EntityHandle) -> bool {
        true
    }

    fn freedness(&self, _handle: EntityHandle, _freed: bool) -> bool {
        true
    }

    fn new_entity(&mut self) -> EntityHandle {
        self.handles.next_handle()
    }

    fn is_entity_already_freed(&self, handle: EntityHandle) -> bool {
        self.handles.is_already_freed(handle)
    }
}

#[derive(Debug)]
pub struct TestEntity {
    pub one: One,
    pub two: Two,
    pub three: Three,
}

impl EntityInsertIntoWorldTrait<World> for TestEntity {
    fn insertable(self, _id: EntityHandle, _world: World) -> bool {
        true
    }

    fn inserted(self, _id: EntityHandle, _pre: World, _post: World) -> bool {
        true
    }

    fn insert_into_world(self, id: EntityHandle, world: &mut World) {
        world.one.insert(id, self.one);
        world.two.insert(id, self.two);
        world.three.insert(id, self.three);
    }
}

fn check_join(world: &World, es: &[(EntityHandle, usize)]) -> usize {
    let mut rows = CompIter::from((world.one.iter(), world.two.iter(), world.three.iter())).into_iter();
    let mut expected = es.iter();
    let mut count = 0;
    while let Some((id, one, two, three)) = rows.next() {
        let Some((expected_e, expected_val)) = expected.next() else {
            break;
        };
        assert_eq!(id, *expected_e);
        assert_eq!(one.0, *expected_val);
        assert_eq!(two.0, *expected_val);
        assert_eq!(three.0, *expected_val);
        count += 1;
    }
    count
}

#[test]
#[allow(dead_code)]
fn test_add_remove() {
    let mut world = World::default();
    assert!(world.is_empty());
    let mut es: Vec<_> = (0..10)
        .map(|i| {
            let e = world.insert(TestEntity {
                one: One(i),
                two: Two(i),
                three: Three(i),
            });
            let val = i;
            (e, val)
        })
        .collect();

    for (ind, (e, val)) in es.iter().enumerate() {
        assert_eq!(ind, e.index());
        assert_eq!(ind, *val);
    }

    assert_eq!(check_join(&world, &es), 10);

    let remove = [0, 3, 2];

    for remove in remove {
        let (e, _val) = es.remove(remove);
        world.delete_entity(e);
    }

    assert_eq!(check_join(&world, &es), 7);

    // 0, 2->3, 3->4
    let add = [0, 3, 4];

    for (ind, add) in add.iter().enumerate() {
        let val = 9 + ind;
        let e = world.insert(TestEntity {
            one: One(val),
            two: Two(val),
            three: Three(val),
        });
        assert_eq!(e.index(), *add);
        es.push((e, val));
    }
    es.sort_by_key(|(e, _val)| e.index());

    println!("{:?}", &es);

    let mut v = Vec::new();
    let mut rows = CompIter::from((world.one.iter(), world.two.iter(), world.three.iter())).into_iter();
    while let Some(row) = rows.next() {
        v.push(row);
    }
    assert_eq!(v.len(), 10);

    println!("{:?}", v);

    assert_eq!(check_join(&world, &es), 10);
}
