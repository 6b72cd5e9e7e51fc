use vec_ecs::CompIter;
use vec_ecs::CompVec;
use vec_ecs::EntityBorrowFromWorldTrait;
use vec_ecs::EntityHandle;
use vec_ecs::EntityHandleCounter;
use vec_ecs::EntityInsertIntoWorldTrait;
use vec_ecs::WorldBorrowTrait;
use vec_ecs::WorldTrait;

#[derive(Debug, PartialEq)]
pub struct Position(f32, f32);

#[derive(Debug, PartialEq)]
pub struct Velocity(f32, f32);

#[derive(Debug, PartialEq)]
pub struct Flag(bool);

#[derive(Default)]
pub struct World {
    handles: EntityHandleCounter,
    pub pos: CompVec<Position>,
    pub vel: CompVec<Velocity>,
    pub flags: CompVec<Flag>,
}

/// `World` without its field `pos`.
pub struct WorldNoPos<'a> {
    handles: &'a mut EntityHandleCounter,
    pub vel: &'a mut CompVec<Velocity>,
    pub flags: &'a mut CompVec<Flag>,
}

impl World {
    pub fn split_world_no_pos<'a>(&'a mut self) -> (&'a mut CompVec<Position>, WorldNoPos<'a>) {
        (
            &mut self.pos,
            WorldNoPos {
                handles: &mut self.handles,
                vel: &mut self.vel,
                flags: &mut self.flags,
            },
        )
    }
}

impl<'a, 'b: 'a> WorldBorrowTrait<'a> for WorldNoPos<'b> {
    fn can_create(&self) -> bool {
        true
    }

    fn created(_pre: Self, _post: Self, _handle: EntityHandle) -> bool {
        true
    }

    fn freedness(&self, _handle: EntityHandle, _freed: bool) -> bool {
        true
    }

    fn new_entity(&mut self) -> EntityHandle {
        self.handles.next_handle()
    }

    fn is_entity_already_freed(&self, handle: EntityHandle) -> bool {
        self.handles.is_already_freed(handle)
    }
}

impl WorldTrait for World {
    fn deletable(&self, _entity: EntityHandle) -> bool {
        true
    }

    fn deleted(_pre: Self, _post: Self, _entity: EntityHandle) -> bool {
        true
    }

    fn emptiness(&self, _empty: bool) -> bool {
        true
    }

    fn delete_entity(&mut self, handle: EntityHandle) {
        self.handles.entity_deleted(handle);
        self.pos.remove(handle);
        self.vel.remove(handle);
        self.flags.remove(handle);
    }

    fn is_empty(&self) -> bool {
        self.pos.is_empty() && self.vel.is_empty() && self.flags.is_empty()
    }
}

impl<'a> WorldBorrowTrait<'a> for World {
    fn can_create(&self) -> bool {
        true
    }

    fn created(_pre: Self, _post: Self, _handle: EntityHandle) -> bool {
        true
    }

    fn freedness(&self, _handle: EntityHandle, _freed: bool) -> bool {
        true
    }

    fn new_entity(&mut self) -> EntityHandle {
        self.handles.next_handle()
    }

    fn is_entity_already_freed(&self, handle: EntityHandle) -> bool {
        self.handles.is_already_freed(handle)
    }
}

#[derive(Debug)]
pub struct Player {
    vel: Velocity,
    flags: Flag,
}

impl EntityInsertIntoWorldTrait<World> for Player {
    fn insertable(self, _id: EntityHandle, _world: World) -> bool {
        true
    }

    fn inserted(self, _id: EntityHandle, _pre: World, _post: World) -> bool {
        true
    }

    fn insert_into_world(self, id: EntityHandle, world: &mut World) {
        world.vel.insert(id, self.vel);
        world.flags.insert(id, self.flags);
    }
}

#[derive(Debug)]
struct PlayerBorrow<'a> {
    vel: &'a mut Velocity,
    flags: &'a mut Flag,
}

impl<'a, 'b: 'a> EntityBorrowFromWorldTrait<'a, WorldNoPos<'b>> for PlayerBorrow<'a> {
    fn borrowable(_handle: EntityHandle, _world: WorldNoPos<'b>) -> bool {
        true
    }

    fn borrowed(_handle: EntityHandle, _world: WorldNoPos<'b>, _bundle: Self) -> bool {
        true
    }

    fn borrow_from_world(handle: EntityHandle, world: &'a mut WorldNoPos<'b>) -> Self {
        Self {
            vel: world.vel.get_mut(handle).unwrap(),
            flags: world.flags.get_mut(handle).unwrap(),
        }
    }
}

impl<'a> EntityBorrowFromWorldTrait<'a, World> for PlayerBorrow<'a> {
    fn borrowable(_handle: EntityHandle, _world: World) -> bool {
        true
    }

    fn borrowed(_handle: EntityHandle, _world: World, _bundle: Self) -> bool {
        true
    }

    fn borrow_from_world(handle: EntityHandle, world: &'a mut World) -> Self {
        Self {
            vel: world.vel.get_mut(handle).unwrap(),
            flags: world.flags.get_mut(handle).unwrap(),
        }
    }
}

#[test]
#[allow(dead_code)]
fn test_derive() {
    let mut world = World::default();

    let e = Player {
        vel: Velocity(10.0, 10.0),
        flags: Flag(true),
    };
    world.insert(e);

    let e = Player {
        vel: Velocity(10.0, 0.0),
        flags: Flag(false),
    };
    let handle = world.insert(e);

    let (pos, mut world_no_pos) = world.split_world_no_pos();

    let e_borr = PlayerBorrow::borrow_from_world(handle, &mut world_no_pos);
    println!("{:?}", e_borr.flags);
    println!("{:?}", e_borr.vel);

    let mut positions = pos.iter_mut();
    while let Some((id, pos)) = positions.next() {
        println!("{:?}", (id, pos));
    }

    let mut rows =
        CompIter::from((world_no_pos.vel.iter_mut(), world_no_pos.flags.iter())).into_iter();
    while let Some((id, vel, flag)) = rows.next() {
        println!("{:?}", (id, vel, flag));
    }

    let _e_borr = PlayerBorrow::borrow_from_world(handle, &mut world);
}

#[test]
fn a_bundle_goes_in_under_a_new_handle_and_is_borrowed_back() {
    let mut world = World::default();
    let first = world.insert(Player {
        vel: Velocity(10.0, 10.0),
        flags: Flag(true),
    });
    let second = world.insert(Player {
        vel: Velocity(10.0, 0.0),
        flags: Flag(false),
    });
    assert_eq!((first.index(), second.index()), (0, 1));
    assert!(world.pos.is_empty());
    {
        let player: PlayerBorrow = world.borrow_entity(second);
        assert_eq!(*player.vel, Velocity(10.0, 0.0));
        assert_eq!(*player.flags, Flag(false));
        player.vel.1 = 5.0;
        player.flags.0 = true;
    }
    assert_eq!(world.vel.get(second), Some(&Velocity(10.0, 5.0)));
    assert_eq!(world.flags.get(second), Some(&Flag(true)));
    assert_eq!(world.vel.get(first), Some(&Velocity(10.0, 10.0)));

    let third = world.new_entity();
    world.insert_at(
        third,
        Player {
            vel: Velocity(1.0, 2.0),
            flags: Flag(false),
        },
    );
    assert_eq!(world.vel.get(third), Some(&Velocity(1.0, 2.0)));
    world.delete_entity(first);
    assert!(world.is_entity_already_freed(first));
    assert_eq!(world.vel.get(first), None);
    assert_eq!(world.flags.components().len(), 2);
}
