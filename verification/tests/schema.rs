use vec_ecs::schema::borrow_type_name;
use vec_ecs::schema::find_handles;
use vec_ecs::schema::plan_entity;
use vec_ecs::schema::plan_world;
use vec_ecs::schema::split_fn_name;
use vec_ecs::schema::EntityError;
use vec_ecs::schema::EntityMark;
use vec_ecs::schema::FieldSchema;
use vec_ecs::schema::WorldError;

fn field(name: &str, handles: bool, not_in: &[&str]) -> FieldSchema {
    FieldSchema {
        name: name.to_string(),
        handles,
        not_in: not_in.iter().map(|s| s.to_string()).collect(),
    }
}

fn layout() -> Vec<FieldSchema> {
    vec![
        field("handles", true, &[]),
        field("pos", false, &[]),
        field("vel", false, &[]),
        field("nothing", false, &["WorldNoNothing"]),
        field("excluded", false, &["WorldNoTags", "WorldNoNothing"]),
    ]
}

#[test]
fn a_world_without_borrow_names_has_no_splits() {
    let plan = plan_world(&vec![], &layout()).unwrap();
    assert_eq!(plan.handles, 0);
    assert_eq!(plan.stores, vec![1, 2, 3, 4]);
    assert!(plan.splits.is_empty());
}

#[test]
fn each_borrow_name_gets_its_split() {
    let borrows = vec!["WorldNoNothing".to_string(), "WorldNoTags".to_string()];
    let plan = plan_world(&borrows, &layout()).unwrap();
    assert_eq!(plan.handles, 0);
    assert_eq!(plan.stores, vec![1, 2, 3, 4]);
    assert_eq!(plan.splits.len(), 2);

    assert_eq!(plan.splits[0].borrow, 0);
    assert_eq!(plan.splits[0].func_name, "split_world_no_nothing");
    assert_eq!(plan.splits[0].ignored, vec![3, 4]);
    assert_eq!(plan.splits[0].kept, vec![1, 2]);

    assert_eq!(plan.splits[1].borrow, 1);
    assert_eq!(plan.splits[1].func_name, "split_world_no_tags");
    assert_eq!(plan.splits[1].ignored, vec![4]);
    assert_eq!(plan.splits[1].kept, vec![1, 2, 3]);
}

#[test]
fn the_two_sides_of_a_split_share_no_field() {
    let borrows = vec!["WorldNoNothing".to_string(), "WorldNoTags".to_string()];
    let fields = layout();
    let plan = plan_world(&borrows, &fields).unwrap();
    for split in &plan.splits {
        for i in 0..fields.len() {
            let lent = split.ignored.contains(&i);
            let kept = split.kept.contains(&i);
            if i == plan.handles {
                assert!(!lent && !kept);
            } else {
                assert!(lent != kept);
            }
        }
    }
}

#[test]
fn the_last_field_marked_as_the_allocator_counts() {
    let fields = vec![
        field("a", true, &[]),
        field("b", false, &["B"]),
        field("c", true, &[]),
        field("d", false, &[]),
    ];
    assert_eq!(find_handles(&fields), Some(2));
    let plan = plan_world(&vec!["B".to_string()], &fields).unwrap();
    assert_eq!(plan.handles, 2);
    assert_eq!(plan.stores, vec![0, 1, 3]);
    assert_eq!(plan.splits[0].ignored, vec![1]);
    assert_eq!(plan.splits[0].kept, vec![0, 3]);
}

#[test]
fn a_world_without_an_allocator_has_no_plan() {
    let fields = vec![field("pos", false, &["X"]), field("vel", false, &[])];
    assert_eq!(find_handles(&fields), None);
    let e = plan_world(&vec!["X".to_string()], &fields).err().unwrap();
    assert_eq!(e, WorldError::NoHandles);
    assert_eq!(
        e.message(),
        "need a #[world(handles)] attribute label on a struct field of type EntityHandleCounter"
    );
    assert_eq!(plan_world(&vec![], &vec![]).err(), Some(WorldError::NoHandles));
}

#[test]
fn a_borrow_name_that_leaves_nothing_out_has_no_plan() {
    let borrows = vec![
        "WorldNoNothing".to_string(),
        "WorldNoPos".to_string(),
        "WorldNoVel".to_string(),
    ];
    let e = plan_world(&borrows, &layout()).err().unwrap();
    assert_eq!(e, WorldError::NothingIgnored { borrow: 1 });
    assert_eq!(e.message(), "borrow has no fields that are ignored");
}

#[test]
fn split_functions_are_named_after_the_snake_case() {
    assert_eq!(split_fn_name("world_no_pos"), "split_world_no_pos");
    assert_eq!(split_fn_name(""), "split_");
    let fields = vec![field("h", true, &[]), field("x", false, &["XMLHttpRequest"])];
    let plan = plan_world(&vec!["XMLHttpRequest".to_string()], &fields).unwrap();
    assert_eq!(plan.splits[0].func_name, "split_xml_http_request");
}

#[test]
fn a_bundle_is_inserted_into_the_last_world_named() {
    let marks = vec![
        EntityMark::Borrow("WorldNoPos".to_string()),
        EntityMark::Insert("Old".to_string()),
        EntityMark::Borrow("WorldNoVel".to_string()),
        EntityMark::Insert("World".to_string()),
    ];
    let plan = plan_entity("Player", &marks).unwrap();
    assert_eq!(plan.borrow_name, "PlayerBorrow");
    assert_eq!(plan.insert, 3);
    assert_eq!(plan.borrows, vec![0, 2]);
    assert_eq!(borrow_type_name("TestEntity"), "TestEntityBorrow");
}

#[test]
fn a_bundle_without_a_world_of_insertion_has_no_plan() {
    let marks = vec![EntityMark::Borrow("WorldNoPos".to_string())];
    let e = plan_entity("Player", &marks).err().unwrap();
    assert_eq!(e, EntityError::NoInsert);
    assert_eq!(e.message(), "need an #[entity(insert = ..)] attribute that names the world");
    assert_eq!(plan_entity("Player", &vec![]).err(), Some(EntityError::NoInsert));
}
