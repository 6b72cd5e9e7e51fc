//! The layout of a world, and the plan by which it is split.
//!
//! A world is an aggregate of stores with one allocator. Its layout says,
//! field by field, which field is the allocator and which fields are lent
//! out under which borrow name. From the layout [`plan_world`] works out,
//! for each borrow name, the fields that are lent out and the fields that
//! stay with the remainder. The two lists never share a field, which is
//! what lets a split hand out both parts for the same lifetime.

use vstd::prelude::*;
use vstd::string::StringExecFns;

verus! {

/// One field of a world.
pub struct FieldSchema {
    /// The field's name.
    pub name: String,
    /// Whether the field is marked as the allocator.
    pub handles: bool,
    /// The borrow names that the field is marked as left out of.
    pub not_in: Vec<String>,
}

/// One way to split a world: the plan for one borrow name.
pub struct SplitPlan {
    /// The position of the borrow name among the borrow names of the world.
    pub borrow: usize,
    /// The name of the function that splits.
    pub func_name: String,
    /// The fields that are lent out, in the order of the layout.
    pub ignored: Vec<usize>,
    /// The fields, other than the allocator, that stay with the remainder,
    /// in the order of the layout.
    pub kept: Vec<usize>,
}

/// What is generated for a world.
pub struct WorldPlan {
    /// The field that is the allocator.
    pub handles: usize,
    /// All the other fields, in the order of the layout: the stores that
    /// an entity is removed from when it is deleted.
    pub stores: Vec<usize>,
    /// One plan for each borrow name, in the order of the borrow names.
    pub splits: Vec<SplitPlan>,
}

/// One mark on a bundle of components: the world that the bundle is
/// inserted into, or a world that it can be borrowed from.
pub enum EntityMark {
    /// The bundle is inserted into the world of this name.
    Insert(String),
    /// The bundle can be borrowed from the world of this name.
    Borrow(String),
}

/// What is generated for a bundle of components.
pub struct EntityPlan {
    /// The name of the type that holds the borrowed components.
    pub borrow_name: String,
    /// The position of the mark that names the world of insertion.
    pub insert: usize,
    /// The positions of the marks that name a world to borrow from, in
    /// order.
    pub borrows: Vec<usize>,
}

/// Why a world has no plan.
#[derive(Debug, Clone, Copy, PartialEq, Eq, Structural)]
pub enum WorldError {
    /// No field is marked as the allocator.
    NoHandles,
    /// No field is marked as left out of the borrow name at this position.
    NothingIgnored { borrow: usize },
}

impl WorldError {
    /// The error in words.
    pub fn message(&self) -> (text: String)
        ensures
            text@ == match *self {
                WorldError::NoHandles => "need a #[world(handles)] attribute label on a struct field of type EntityHandleCounter"@,
                WorldError::NothingIgnored { .. } => "borrow has no fields that are ignored"@,
            },
    {
        match self {
            WorldError::NoHandles => "need a #[world(handles)] attribute label on a struct field of type EntityHandleCounter".to_owned(),
            WorldError::NothingIgnored { .. } => "borrow has no fields that are ignored".to_owned(),
        }
    }
}

/// Why a bundle of components has no plan.
#[derive(Debug, Clone, Copy, PartialEq, Eq, Structural)]
pub enum EntityError {
    /// No mark names the world that the bundle is inserted into.
    NoInsert,
}

impl EntityError {
    /// The error in words.
    pub fn message(&self) -> (text: String)
        ensures
            text@ == "need an #[entity(insert = ..)] attribute that names the world"@,
    {
        "need an #[entity(insert = ..)] attribute that names the world".to_owned()
    }
}

/// What `heck` makes of `name` in snake case.
pub uninterp spec fn snake_case_of(name: Seq<char>) -> Seq<char>;

/// `heck::ToSnekCase::to_snek_case` on a string slice: the snake case of
/// `name`, which depends on nothing but `name`.
#[verifier::external_body]
fn snake_case(name: &str) -> (snake: String)
    ensures
        snake@ == snake_case_of(name@),
{
    heck::ToSnekCase::to_snek_case(name)
}

/// `field` is marked as left out of the borrow name `borrow`.
pub open spec fn names(field: FieldSchema, borrow: Seq<char>) -> bool {
    exists|j: int| 0 <= j < field.not_in@.len() && (#[trigger] field.not_in@[j])@ == borrow
}

/// `handles` is the allocator of the layout: the last field marked so.
pub open spec fn is_handles_of(fields: Seq<FieldSchema>, handles: int) -> bool {
    &&& 0 <= handles < fields.len()
    &&& fields[handles].handles
    &&& forall|i: int| handles < i < fields.len() ==> !(#[trigger] fields[i]).handles
}

/// `out` is strictly ascending and stays below `n`.
pub open spec fn ascending_below(out: Seq<usize>, n: int) -> bool {
    &&& forall|k: int, l: int| 0 <= k < l < out.len() ==> out[k] < out[l]
    &&& forall|k: int| 0 <= k < out.len() ==> (#[trigger] out[k]) < n
}

/// `out` lists, in ascending order and each once, the first `n` fields
/// that are marked as left out of `borrow`.
pub open spec fn lists_lent(
    out: Seq<usize>,
    fields: Seq<FieldSchema>,
    n: int,
    borrow: Seq<char>,
) -> bool {
    &&& ascending_below(out, n)
    &&& forall|k: int| 0 <= k < out.len() ==> names(fields[(#[trigger] out[k]) as int], borrow)
    &&& forall|i: int|
        0 <= i < n && names(#[trigger] fields[i], borrow) ==> out.contains(i as usize)
}

/// `out` lists, in ascending order and each once, the first `n` fields
/// that are neither the allocator nor marked as left out of `borrow`.
pub open spec fn lists_kept(
    out: Seq<usize>,
    fields: Seq<FieldSchema>,
    n: int,
    handles: usize,
    borrow: Seq<char>,
) -> bool {
    &&& ascending_below(out, n)
    &&& forall|k: int|
        0 <= k < out.len() ==> (#[trigger] out[k]) != handles && !names(
            fields[out[k] as int],
            borrow,
        )
    &&& forall|i: int|
        0 <= i < n && i != handles && !names(#[trigger] fields[i], borrow) ==> out.contains(
            i as usize,
        )
}

/// `out` lists, in ascending order and each once, the first `n` fields
/// that are not the allocator.
pub open spec fn lists_stores(out: Seq<usize>, fields: Seq<FieldSchema>, n: int, handles: usize) -> bool {
    &&& ascending_below(out, n)
    &&& forall|k: int| 0 <= k < out.len() ==> (#[trigger] out[k]) != handles
    &&& forall|f: usize| f < n && f != handles ==> #[trigger] out.contains(f)
}

/// Some field is marked as left out of `borrow`.
pub open spec fn some_names(fields: Seq<FieldSchema>, borrow: Seq<char>) -> bool {
    exists|i: int| 0 <= i < fields.len() && names(#[trigger] fields[i], borrow)
}

/// `split` is the plan for the borrow name at position `borrow` of a world
/// whose allocator is the field `handles`.
pub open spec fn is_split_of(
    split: SplitPlan,
    borrows: Seq<String>,
    fields: Seq<FieldSchema>,
    handles: usize,
    borrow: int,
) -> bool {
    &&& split.borrow == borrow
    &&& split.func_name@ == "split_"@ + snake_case_of(borrows[borrow]@)
    &&& lists_lent(split.ignored@, fields, fields.len() as int, borrows[borrow]@)
    &&& lists_kept(split.kept@, fields, fields.len() as int, handles, borrows[borrow]@)
}

/// Whether `field` is marked as left out of `borrow`.
pub fn field_names(field: &FieldSchema, borrow: &String) -> (found: bool)
    ensures
        found == names(*field, borrow@),
{
    let mut j: usize = 0;
    while j < field.not_in.len()
        invariant
            j <= field.not_in.len(),
            forall|k: int| 0 <= k < j ==> (#[trigger] field.not_in@[k])@ != borrow@,
        decreases field.not_in.len() - j,
    {
        if field.not_in[j] == *borrow {
            return true;
        }
        j += 1;
    }
    false
}

/// The allocator of the layout, where a field is marked as such.
pub fn find_handles(fields: &Vec<FieldSchema>) -> (found: Option<usize>)
    ensures
        match found {
            Some(handles) => is_handles_of(fields@, handles as int),
            None => forall|i: int| 0 <= i < fields.len() ==> !(#[trigger] fields@[i]).handles,
        },
{
    let mut found: Option<usize> = None;
    let mut i: usize = 0;
    while i < fields.len()
        invariant
            i <= fields.len(),
            match found {
                Some(handles) => handles < i && fields@[handles as int].handles && forall|j: int|
                    handles < j < i ==> !(#[trigger] fields@[j]).handles,
                None => forall|j: int| 0 <= j < i ==> !(#[trigger] fields@[j]).handles,
            },
        decreases fields.len() - i,
    {
        if fields[i].handles {
            found = Some(i);
        }
        i += 1;
    }
    found
}

/// The fields that are lent out under `borrow`.
pub fn ignored_fields(fields: &Vec<FieldSchema>, borrow: &String) -> (out: Vec<usize>)
    ensures
        lists_lent(out@, fields@, fields.len() as int, borrow@),
{
    let mut out: Vec<usize> = Vec::new();
    let mut i: usize = 0;
    while i < fields.len()
        invariant
            i <= fields.len(),
            lists_lent(out@, fields@, i as int, borrow@),
        decreases fields.len() - i,
    {
        let ghost before = out@;
        if field_names(&fields[i], borrow) {
            out.push(i);
            proof {
                lemma_pushed(before, out@, i);
            }
        }
        i += 1;
    }
    out
}

/// The fields that stay with the remainder under `borrow`, the allocator
/// apart.
pub fn kept_fields(fields: &Vec<FieldSchema>, handles: usize, borrow: &String) -> (out: Vec<usize>)
    ensures
        lists_kept(out@, fields@, fields.len() as int, handles, borrow@),
{
    let mut out: Vec<usize> = Vec::new();
    let mut i: usize = 0;
    while i < fields.len()
        invariant
            i <= fields.len(),
            lists_kept(out@, fields@, i as int, handles, borrow@),
        decreases fields.len() - i,
    {
        let ghost before = out@;
        if i != handles && !field_names(&fields[i], borrow) {
            out.push(i);
            proof {
                lemma_pushed(before, out@, i);
            }
        }
        i += 1;
    }
    out
}

/// All the fields but the allocator.
pub fn store_fields(fields: &Vec<FieldSchema>, handles: usize) -> (out: Vec<usize>)
    ensures
        lists_stores(out@, fields@, fields.len() as int, handles),
{
    let mut out: Vec<usize> = Vec::new();
    let mut i: usize = 0;
    while i < fields.len()
        invariant
            i <= fields.len(),
            lists_stores(out@, fields@, i as int, handles),
        decreases fields.len() - i,
    {
        let ghost before = out@;
        if i != handles {
            out.push(i);
            proof {
                lemma_pushed(before, out@, i);
            }
        }
        i += 1;
    }
    out
}

/// After a push the sequence holds what it held, and what was pushed.
proof fn lemma_pushed(before: Seq<usize>, after: Seq<usize>, last: usize)
    requires
        after == before.push(last),
    ensures
        after.contains(last),
        forall|x: usize| before.contains(x) ==> after.contains(x),
{
    assert(after[before.len() as int] == last);
    assert forall|x: usize| before.contains(x) implies after.contains(x) by {
        let k = choose|k: int| 0 <= k < before.len() && before[k] == x;
        assert(after[k] == x);
    }
}

/// The name of the function that splits a world under a borrow name whose
/// snake case is `snake`.
pub fn split_fn_name(snake: &str) -> (name: String)
    ensures
        name@ == "split_"@ + snake@,
{
    "split_".to_owned().concat(snake)
}

/// The plan for a world with the borrow names `borrows` and the layout
/// `fields`.
///
/// There is no plan where no field is marked as the allocator, nor where
/// some borrow name has no field that is left out of it; of several such
/// borrow names the first is reported.
pub fn plan_world(borrows: &Vec<String>, fields: &Vec<FieldSchema>) -> (plan: Result<
    WorldPlan,
    WorldError,
>)
    ensures
        match plan {
            Ok(plan) => {
                &&& is_handles_of(fields@, plan.handles as int)
                &&& lists_stores(plan.stores@, fields@, fields.len() as int, plan.handles)
                &&& plan.splits.len() == borrows.len()
                &&& forall|b: int|
                    0 <= b < borrows.len() ==> some_names(fields@, (#[trigger] borrows@[b])@)
                &&& forall|b: int|
                    0 <= b < borrows.len() ==> is_split_of(
                        #[trigger] plan.splits@[b],
                        borrows@,
                        fields@,
                        plan.handles,
                        b,
                    )
            },
            Err(WorldError::NoHandles) => forall|i: int|
                0 <= i < fields.len() ==> !(#[trigger] fields@[i]).handles,
            Err(WorldError::NothingIgnored { borrow }) => {
                &&& exists|h: int| is_handles_of(fields@, h)
                &&& borrow < borrows.len()
                &&& !some_names(fields@, borrows@[borrow as int]@)
                &&& forall|b: int| 0 <= b < borrow ==> some_names(fields@, (#[trigger] borrows@[b])@)
            },
        },
{
    let handles = match find_handles(fields) {
        Some(handles) => handles,
        None => {
            return Err(WorldError::NoHandles);
        },
    };
    let mut splits: Vec<SplitPlan> = Vec::new();
    let mut b: usize = 0;
    while b < borrows.len()
        invariant
            b <= borrows.len(),
            splits.len() == b,
            is_handles_of(fields@, handles as int),
            forall|c: int| 0 <= c < b ==> some_names(fields@, (#[trigger] borrows@[c])@),
            forall|c: int|
                0 <= c < b ==> is_split_of(#[trigger] splits@[c], borrows@, fields@, handles, c),
        decreases borrows.len() - b,
    {
        let ignored = ignored_fields(fields, &borrows[b]);
        if ignored.len() == 0 {
            proof {
                if some_names(fields@, borrows@[b as int]@) {
                    let i = choose|i: int|
                        0 <= i < fields.len() && names(#[trigger] fields@[i], borrows@[b as int]@);
                    assert(ignored@.contains(i as usize));
                }
            }
            return Err(WorldError::NothingIgnored { borrow: b });
        }
        proof {
            let first = ignored@[0] as int;
            assert(names(fields@[first], borrows@[b as int]@));
        }
        let kept = kept_fields(fields, handles, &borrows[b]);
        let snake = snake_case(borrows[b].as_str());
        let func_name = split_fn_name(snake.as_str());
        let ghost before = splits@;
        splits.push(SplitPlan { borrow: b, func_name, ignored, kept });
        proof {
            assert forall|c: int| 0 <= c < b + 1 implies is_split_of(
                #[trigger] splits@[c],
                borrows@,
                fields@,
                handles,
                c,
            ) by {
                if c < b {
                    assert(splits@[c] == before[c]);
                }
            }
        }
        b += 1;
    }
    let stores = store_fields(fields, handles);
    Ok(WorldPlan { handles, stores, splits })
}

/// `insert` is the mark that names the world of insertion: the last mark
/// of that kind.
pub open spec fn is_insert_of(marks: Seq<EntityMark>, insert: int) -> bool {
    &&& 0 <= insert < marks.len()
    &&& marks[insert] is Insert
    &&& forall|i: int| insert < i < marks.len() ==> !((#[trigger] marks[i]) is Insert)
}

/// `out` lists, in ascending order and each once, the first `n` marks that
/// name a world to borrow from.
pub open spec fn lists_borrows(out: Seq<usize>, marks: Seq<EntityMark>, n: int) -> bool {
    &&& ascending_below(out, n)
    &&& forall|k: int| 0 <= k < out.len() ==> marks[(#[trigger] out[k]) as int] is Borrow
    &&& forall|i: int|
        0 <= i < n && (#[trigger] marks[i]) is Borrow ==> out.contains(i as usize)
}

/// The name of the type that holds the borrowed components of the bundle
/// `name`.
pub fn borrow_type_name(name: &str) -> (borrow_name: String)
    ensures
        borrow_name@ == name@ + "Borrow"@,
{
    name.to_owned().concat("Borrow")
}

/// The plan for a bundle of components with the name `name` and the marks
/// `marks`. There is no plan where no mark names the world of insertion.
pub fn plan_entity(name: &str, marks: &Vec<EntityMark>) -> (plan: Result<EntityPlan, EntityError>)
    ensures
        match plan {
            Ok(plan) => {
                &&& plan.borrow_name@ == name@ + "Borrow"@
                &&& is_insert_of(marks@, plan.insert as int)
                &&& lists_borrows(plan.borrows@, marks@, marks.len() as int)
            },
            Err(_) => forall|i: int| 0 <= i < marks.len() ==> !((#[trigger] marks@[i]) is Insert),
        },
{
    let mut insert: Option<usize> = None;
    let mut borrows: Vec<usize> = Vec::new();
    let mut i: usize = 0;
    while i < marks.len()
        invariant
            i <= marks.len(),
            lists_borrows(borrows@, marks@, i as int),
            match insert {
                Some(at) => at < i && marks@[at as int] is Insert && forall|j: int|
                    at < j < i ==> !((#[trigger] marks@[j]) is Insert),
                None => forall|j: int| 0 <= j < i ==> !((#[trigger] marks@[j]) is Insert),
            },
        decreases marks.len() - i,
    {
        let ghost before = borrows@;
        match &marks[i] {
            EntityMark::Insert(_) => {
                insert = Some(i);
            },
            EntityMark::Borrow(_) => {
                borrows.push(i);
                proof {
                    lemma_pushed(before, borrows@, i);
                }
            },
        }
        i += 1;
    }
    match insert {
        Some(insert) => Ok(EntityPlan { borrow_name: borrow_type_name(name), insert, borrows }),
        None => Err(EntityError::NoInsert),
    }
}

/// The two sides of a split share no field, and between them hold every
/// field but the allocator. So, unless the allocator itself is marked as
/// left out, a split is a partition of the world: what is lent out, what
/// is kept, and the allocator, which goes with what is kept.
pub proof fn lemma_split_is_partition(
    split: SplitPlan,
    borrows: Seq<String>,
    fields: Seq<FieldSchema>,
    handles: usize,
    borrow: int,
)
    requires
        0 <= borrow < borrows.len(),
        handles < fields.len(),
        is_split_of(split, borrows, fields, handles, borrow),
    ensures
        forall|k: int, l: int|
            0 <= k < split.ignored@.len() && 0 <= l < split.kept@.len() ==> split.ignored@[k]
                != split.kept@[l],
        !split.kept@.contains(handles),
        forall|f: usize|
            f < fields.len() && f != handles ==> (#[trigger] split.ignored@.contains(f)
                <==> !split.kept@.contains(f)),
        !names(fields[handles as int], borrows[borrow]@) ==> !split.ignored@.contains(handles),
{
    let name = borrows[borrow]@;
    assert forall|f: usize| f < fields.len() && f != handles implies (#[trigger] split.ignored@.contains(
        f,
    ) <==> !split.kept@.contains(f)) by {
        if split.ignored@.contains(f) {
            let k = choose|k: int| 0 <= k < split.ignored@.len() && split.ignored@[k] == f;
            assert(names(fields[split.ignored@[k] as int], name));
        }
        if split.kept@.contains(f) {
            let l = choose|l: int| 0 <= l < split.kept@.len() && split.kept@[l] == f;
            assert(!names(fields[split.kept@[l] as int], name));
        }
        if names(fields[f as int], name) {
            assert(split.ignored@.contains(f as int as usize));
        } else {
            assert(split.kept@.contains(f as int as usize));
        }
    }
    assert forall|k: int, l: int|
        0 <= k < split.ignored@.len() && 0 <= l < split.kept@.len() implies split.ignored@[k]
        != split.kept@[l] by {
        assert(names(fields[split.ignored@[k] as int], name));
        assert(!names(fields[split.kept@[l] as int], name));
    }
    if split.kept@.contains(handles) {
        let l = choose|l: int| 0 <= l < split.kept@.len() && split.kept@[l] == handles;
        assert(split.kept@[l] != handles);
    }
    if split.ignored@.contains(handles) {
        let k = choose|k: int| 0 <= k < split.ignored@.len() && split.ignored@[k] == handles;
        assert(names(fields[split.ignored@[k] as int], name));
    }
}

} // verus!
