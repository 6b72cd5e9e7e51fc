use vec_ecs::CompIter;
use vec_ecs::CompVec;
use vec_ecs::EntityHandle;
use vec_ecs::EntityHandleCounter;
use vec_ecs::WorldBorrowTrait;
use vec_ecs::WorldTrait;

#[derive(Debug, Default)]
pub struct Position(f32, f32);

#[derive(Debug, Default)]
pub struct Velocity(f32, f32);

#[derive(Default)]
pub struct World {
    handles: EntityHandleCounter,
    pub pos: CompVec<Position>,
    pub vel: CompVec<Velocity>,
    pub nothing: CompVec<()>,
    pub excluded: CompVec<()>,
}

/// `World` without its field `nothing`.
pub struct WorldNoNothing<'a> {
    handles: &'a mut EntityHandleCounter,
    pub pos: &'a mut CompVec<Position>,
    pub vel: &'a mut CompVec<Velocity>,
    pub excluded: &'a mut CompVec<()>,
}

impl World {
    pub fn split_world_no_nothing<'a>(&'a mut self) -> (&'a mut CompVec<()>, WorldNoNothing<'a>) {
        (
            &mut self.nothing,
            WorldNoNothing {
                handles: &mut self.handles,
                pos: &mut self.pos,
                vel: &mut self.vel,
                excluded: &mut self.excluded,
            },
        )
    }
}

impl<'a, 'b: 'a> WorldBorrowTrait<'a> for WorldNoNothing<'b> {
    fn can_create(&self) -> bool {
        true
    }

    fn created(_pre: Self, _post: Self, _handle: EntityHandle) -> bool {
        true
    }

    fn freedness(&self, _handle: EntityHandle, _freed: bool) -> bool {
        true
    }

    fn new_entity(&mut self) -> EntityHandle {
        self.handles.next_handle()
    }

    fn is_entity_already_freed(&self, handle: EntityHandle) -> bool {
        self.handles.is_already_freed(handle)
    }
}

impl WorldTrait for World {
    fn deletable(&self, _entity: EntityHandle) -> bool {
        true
    }

    fn deleted(_pre: Self, _post: Self, _entity: EntityHandle) -> bool {
        true
    }

    fn emptiness(&self, _empty: bool) -> bool {
        true
    }

    fn delete_entity(&mut self, handle: EntityHandle) {
        self.handles.entity_deleted(handle);
        self.pos.remove(handle);
        self.vel.remove(handle);
        self.nothing.remove(handle);
        self.excluded.remove(handle);
    }

    fn is_empty(&self) -> bool {
        self.pos.is_empty()
            && self.vel.is_empty()
            && self.nothing.is_empty()
            && self.excluded.is_empty()
    }
}

impl<'a> WorldBorrowTrait<'a> for World {
    fn can_create(&self) -> bool {
        true
    }

    fn created(_pre: Self, _post: Self, _handle: EntityHandle) -> bool {
        true
    }

    fn freedness(&self, _handle: EntityHandle, _freed: bool) -> bool {
        true
    }

    fn new_entity(&mut self) -> EntityHandle {
        self.handles.next_handle()
    }

    fn is_entity_already_freed(&self, handle: EntityHandle) -> bool {
        self.handles.is_already_freed(handle)
    }
}

fn filled_world() -> World {
    let mut world = World::default();
    assert!(world.is_empty());
    {
        let e = world.new_entity();
        world.pos.insert(e, Position(0.0, 0.0));
        world.vel.insert(e, Velocity(10.0, 0.0));
        world.nothing.insert(e, ());
    }
    assert!(!world.is_empty());

    {
        let e = world.new_entity();
        world.pos.insert(e, Position(2.0, 0.0));
        world.vel.insert(e, Velocity(10.0, 0.0));
    }

    {
        let e = world.new_entity();
        world.pos.insert(e, Position(3.0, 0.0));
        world.vel.insert(e, Velocity(10.0, 0.0));
        world.nothing.insert(e, ());
    }

    {
        let e = world.new_entity();
        world.pos.insert(e, Position(3.0, 0.0));
        world.vel.insert(e, Velocity(10.0, 0.0));
        world.nothing.insert(e, ());
        world.excluded.insert(e, ());
    }

    {
        let e = world.new_entity();
        world.pos.insert(e, Position(3.0, 0.0));
        world.vel.insert(e, Velocity(10.0, 0.0));
        world.nothing.insert(e, ());
    }
    world
}

#[test]
#[allow(dead_code)]
fn test_test() {
    let mut world = filled_world();

    let mut rows = CompIter::from((
        world.pos.iter_mut(),
        world.vel.iter(),
        world.nothing.iter_mut().optional(),
    ))
    .without(&world.excluded)
    .into_iter();
    while let Some((id, pos, vel, nothing)) = rows.next() {
        println!("{:?}", (id, pos, vel, nothing));
    }

    let (nothing, mut world_no_nothing) = world.split_world_no_nothing();

    let mut tags = nothing.iter_mut();
    while let Some((id, nothing)) = tags.next() {
        println!("{:?} {:?}", id, nothing);

        let mut rows = CompIter::from((
            world_no_nothing.pos.iter(),
            world_no_nothing.vel.iter_mut(),
            world_no_nothing.excluded.iter().optional(),
        ))
        .into_iter();
        while let Some((id2, pos, vel, excluded)) = rows.next() {
            println!("{:?}", (id2, pos, vel, excluded));
        }

        // make a new uninitialized entity while having part of world borrowed
        let handle = world_no_nothing.new_entity();
        println!("{:?}", handle);
    }
}

#[test]
fn the_join_with_an_optional_and_an_exclusion_yields_the_expected_rows() {
    let mut world = filled_world();
    let mut rows = CompIter::from((
        world.pos.iter_mut(),
        world.vel.iter(),
        world.nothing.iter_mut().optional(),
    ))
    .without(&world.excluded)
    .into_iter();
    let mut seen = Vec::new();
    while let Some((id, pos, vel, nothing)) = rows.next() {
        pos.1 = vel.0;
        seen.push((id.index(), pos.0, nothing.is_some()));
    }
    assert_eq!(seen, vec![(0, 0.0, true), (1, 2.0, false), (2, 3.0, true), (4, 3.0, true)]);
    let ys: Vec<f32> = world.pos.components().iter().map(|(_, p)| p.1).collect();
    assert_eq!(ys, vec![10.0, 10.0, 10.0, 0.0, 10.0]);
}

#[test]
fn one_part_of_a_split_world_changes_while_the_rest_is_joined() {
    let mut world = filled_world();
    let (nothing, mut rest) = world.split_world_no_nothing();
    let mut created = Vec::new();
    let mut tags = nothing.iter_mut();
    while let Some((id, _tag)) = tags.next() {
        let mut rows = CompIter::from((rest.pos.iter(), rest.vel.iter_mut())).into_iter();
        while let Some((id2, pos, vel)) = rows.next() {
            if id2 == id {
                vel.1 += pos.0;
            }
        }
        created.push(rest.new_entity());
        assert!(!rest.is_entity_already_freed(id));
    }
    let slots: Vec<usize> = created.iter().map(|h| h.index()).collect();
    assert_eq!(slots, vec![5, 6, 7, 8]);
    let vys: Vec<f32> = world.vel.components().iter().map(|(_, v)| v.1).collect();
    assert_eq!(vys, vec![0.0, 0.0, 3.0, 3.0, 3.0]);
    assert!(!world.is_entity_already_freed(created[0]));
}

#[test]
fn delete_entity_takes_the_entity_out_of_every_store() {
    let mut world = filled_world();
    let victim = world.pos.components()[3].0;
    assert!(world.excluded.get(victim).is_some());
    world.delete_entity(victim);
    assert!(world.is_entity_already_freed(victim));
    assert!(world.pos.get(victim).is_none());
    assert!(world.vel.get(victim).is_none());
    assert!(world.nothing.get(victim).is_none());
    assert!(world.excluded.is_empty());
    assert!(!world.is_empty());
}
