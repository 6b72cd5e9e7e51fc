use vec_ecs::CompIter;
use vec_ecs::CompVec;
use vec_ecs::EntityHandle;
use vec_ecs::EntityHandleCounter;

#[derive(Debug)]
pub struct Position(f32, f32);

#[derive(Debug)]
pub struct Velocity(f32, f32);

#[derive(Default)]
pub struct World {
    handles: EntityHandleCounter,
    pub pos: CompVec<Position>,
    pub vel: CompVec<Velocity>,
    pub yomama: CompVec<()>,
    pub excluded: CompVec<()>,
}

impl World {
    pub fn new_entity(&mut self) -> EntityHandle {
        self.handles.next_handle()
    }

    pub fn delete_entity(&mut self, entity: EntityHandle) {
        self.handles.entity_deleted(entity);
        self.pos.remove(entity);
        self.vel.remove(entity);
    }
}

#[test]
fn main_test() {
    let mut world = World::default();
    let e = world.new_entity();
    world.pos.insert(e, Position(0.0, 0.0));
    world.vel.insert(e, Velocity(10.0, 0.0));

    let mut rows = CompIter::from((world.pos.iter_mut(), world.vel.iter_mut())).into_iter();
    while let Some((id, pos, vel)) = rows.next() {
        println!("{:?} {:?} {:?}", id, pos, vel);
    }
}

#[test]
fn a_deleted_entity_leaves_the_join() {
    let mut world = World::default();
    let a = world.new_entity();
    let b = world.new_entity();
    for e in [a, b] {
        world.pos.insert(e, Position(e.index() as f32, 0.0));
        world.vel.insert(e, Velocity(10.0, 0.0));
    }
    world.delete_entity(a);
    let mut rows = CompIter::from((world.pos.iter_mut(), world.vel.iter_mut())).into_iter();
    let mut seen = Vec::new();
    while let Some((id, pos, vel)) = rows.next() {
        pos.0 += vel.0;
        seen.push((id, pos.0));
    }
    assert_eq!(seen, vec![(b, 11.0)]);
}
