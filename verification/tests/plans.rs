use dispatcher_system::dispatcher::System;
use dispatcher_system::error::{RegistrySortingError, StageError};
use dispatcher_system::registry::Registry;
use dispatcher_system::resources::{ResourceAccess, ResourceMask};
use dispatcher_system::rules::user;
use dispatcher_system::stage::StageId;
use dispatcher_system::world::{Context, World};

fn sid(n: u64) -> StageId {
    StageId::of(n)
}

#[test]
fn insert_rejects_duplicates_and_reserved_names() {
    let mut registry: Registry<()> = Registry::default();
    registry.insert(sid(1), ()).unwrap();
    assert!(matches!(
        registry.insert(sid(1), ()),
        Err(StageError::Overlapping)
    ));
    assert!(matches!(
        registry.insert(user(), ()),
        Err(StageError::InvalidName)
    ));
}

#[test]
fn sort_rejects_dangling_references() {
    let mut registry: Registry<()> = Registry::default();
    registry.insert(sid(1), ()).unwrap().before(sid(99));
    match registry.sort() {
        Err(RegistrySortingError::MissingStage(a, b)) => {
            assert_eq!(a, sid(1));
            assert_eq!(b, sid(99));
        }
        _ => panic!("expected a missing-stage error"),
    }
}

#[test]
fn sort_rejects_cycles() {
    let mut registry: Registry<()> = Registry::default();
    registry.insert(sid(1), ()).unwrap().before(sid(2));
    registry.insert(sid(2), ()).unwrap().before(sid(1));
    assert!(matches!(
        registry.sort(),
        Err(RegistrySortingError::GraphVisitMissingNodes)
    ));
}

#[test]
fn sort_rejects_conflicting_parallel_rules() {
    let mut access = ResourceAccess::new();
    let res = access.kind_mask(1).unwrap();
    let mut registry: Registry<()> = Registry::default();
    // both write the same resource, so they can never share a group
    registry.insert(sid(1), ()).unwrap().writes_mask(res);
    registry
        .insert(sid(2), ())
        .unwrap()
        .writes_mask(res)
        .parallel(sid(1));
    assert!(matches!(
        registry.sort(),
        Err(RegistrySortingError::UnsatisfiableParallelRules)
    ));
}

#[test]
fn satisfied_parallel_rule_shares_a_group() {
    let mut registry: Registry<()> = Registry::default();
    registry.insert(sid(1), ()).unwrap();
    registry.insert(sid(2), ()).unwrap().parallel(sid(1));
    let builder = registry.sort().unwrap();
    assert_eq!(builder.group(0), Some(&vec![sid(1), sid(2)]));
}

struct Adjust {
    kind: ResourceMask,
    delta: i32,
}

impl System<i32> for Adjust {
    fn run(&mut self, world: &mut World<i32>, ctx: &Context) {
        *world.get_mut(ctx, self.kind).unwrap() += self.delta;
    }
}

#[test]
fn counter_systems_round_trip() {
    // two systems that both write one counter: the before-edge forces a
    // depth gap, so they land in different groups, and one pass leaves
    // the counter where it started
    let mut access = ResourceAccess::new();
    let res = access.kind_mask(1).unwrap();
    let mut registry = Registry::default();
    registry
        .insert(sid(1), Adjust { kind: res, delta: 1 })
        .unwrap()
        .before(sid(2))
        .writes_mask(res);
    registry
        .insert(sid(2), Adjust { kind: res, delta: -1 })
        .unwrap()
        .writes_mask(res);
    let builder = registry.sort().unwrap();
    assert_eq!(builder.group(0), Some(&vec![sid(1)]));
    assert_eq!(builder.group(1), Some(&vec![sid(2)]));
    let mut world: World<i32> = World::default();
    world.insert(res, 0i32);
    let mut dispatcher = builder.build(None);
    dispatcher.dispatch(&mut world);
    assert_eq!(*world.get(&Context::unrestricted(), res).unwrap(), 0);
}

#[test]
fn independent_systems_split_by_thread_count() {
    // five independent systems land in one group of five when enough
    // threads exist, and split into ceil(5 / t) groups otherwise
    let mut registry: Registry<()> = Registry::default();
    for n in 1..=5 {
        registry.insert(sid(n), ()).unwrap();
    }
    let mut builder = registry.sort().unwrap();
    builder.balance(Some(5));
    assert_eq!(builder.group(0).unwrap().len(), 5);
    assert_eq!(builder.group(1), None);

    let mut registry: Registry<()> = Registry::default();
    for n in 1..=5 {
        registry.insert(sid(n), ()).unwrap();
    }
    let mut builder = registry.sort().unwrap();
    builder.balance(Some(3));
    // the split keeps the members and their registration order
    assert_eq!(builder.group(0), Some(&vec![sid(1), sid(2), sid(3)]));
    assert_eq!(builder.group(1), Some(&vec![sid(4), sid(5)]));
    assert_eq!(builder.group(2), None);
}

#[test]
fn reads_share_and_conflicts_separate() {
    // two readers of one resource writing different resources share a
    // group; a double writer ordered after a reader lands strictly later
    let mut access = ResourceAccess::new();
    let res_a = access.kind_mask(1).unwrap();
    let res_b = access.kind_mask(2).unwrap();
    let res_c = access.kind_mask(3).unwrap();
    let mut registry: Registry<()> = Registry::default();
    registry
        .insert(sid(1), ())
        .unwrap()
        .reads_mask(res_a)
        .writes_mask(res_b);
    registry
        .insert(sid(2), ())
        .unwrap()
        .reads_mask(res_a)
        .writes_mask(res_c);
    registry
        .insert(sid(3), ())
        .unwrap()
        .writes_mask(res_b)
        .writes_mask(res_c)
        .after(sid(4));
    registry.insert(sid(4), ()).unwrap().reads_mask(res_c);
    let builder = registry.sort().unwrap();
    assert_eq!(builder.group(0), Some(&vec![sid(1), sid(2)]));
    assert_eq!(builder.group(1), Some(&vec![sid(4)]));
    assert_eq!(builder.group(2), Some(&vec![sid(3)]));
}

#[test]
fn balance_is_idempotent() {
    let mut registry: Registry<()> = Registry::default();
    for n in 1..=5 {
        registry.insert(sid(n), ()).unwrap();
    }
    let mut builder = registry.sort().unwrap();
    builder.balance(Some(2));
    let mut first: Vec<Option<StageId>> = Vec::new();
    for g in 0..4 {
        for t in 0..3 {
            first.push(builder.stage_at(g, t));
        }
    }
    builder.balance(Some(2));
    let mut second: Vec<Option<StageId>> = Vec::new();
    for g in 0..4 {
        for t in 0..3 {
            second.push(builder.stage_at(g, t));
        }
    }
    assert_eq!(first, second);
}

#[test]
fn stage_at_reads_the_matrix() {
    let mut registry: Registry<()> = Registry::default();
    registry.insert(sid(1), ()).unwrap();
    registry.insert(sid(2), ()).unwrap();
    let builder = registry.sort().unwrap();
    assert_eq!(builder.stage_at(0, 0), Some(sid(1)));
    assert_eq!(builder.stage_at(0, 1), Some(sid(2)));
    assert_eq!(builder.stage_at(0, 2), None);
    assert_eq!(builder.stage_at(1, 0), None);
}
