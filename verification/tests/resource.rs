use dispatcher_system::dispatcher::System;
use dispatcher_system::error::WorldBorrowMutError;
use dispatcher_system::registry::Registry;
use dispatcher_system::resources::{ResourceAccess, ResourceMask};
use dispatcher_system::stage::StageId;
use dispatcher_system::world::{Context, World};

fn system_a() -> StageId {
    StageId::of(1)
}
fn system_b() -> StageId {
    StageId::of(2)
}
fn system_c() -> StageId {
    StageId::of(3)
}
fn system_d() -> StageId {
    StageId::of(4)
}

enum Counter {
    AddOne(ResourceMask),
    SubOne(ResourceMask),
    ExpectInvalidAccess(ResourceMask),
    ExpectNotPresent(ResourceMask),
}

impl System<i32> for Counter {
    fn run(&mut self, world: &mut World<i32>, ctx: &Context) {
        match self {
            Counter::AddOne(kind) => {
                *world.get_mut(ctx, *kind).unwrap() += 1;
            }
            Counter::SubOne(kind) => {
                *world.get_mut(ctx, *kind).unwrap() -= 1;
            }
            Counter::ExpectInvalidAccess(kind) => {
                assert!(matches!(
                    world.get_mut(ctx, *kind),
                    Err(WorldBorrowMutError::InvalidAccess)
                ));
            }
            Counter::ExpectNotPresent(kind) => {
                assert!(matches!(
                    world.get_mut(ctx, *kind),
                    Err(WorldBorrowMutError::NotPresent)
                ));
            }
        }
    }
}

#[test]
fn int_counter() {
    let mut access = ResourceAccess::new();
    let int_kind = access.kind_mask(7).unwrap();

    let mut registry = Registry::default();

    registry
        .insert(system_a(), Counter::AddOne(int_kind))
        .unwrap()
        .before(system_b())
        .writes_mask(int_kind);
    registry
        .insert(system_b(), Counter::SubOne(int_kind))
        .unwrap()
        .writes_mask(int_kind);

    let mut world: World<i32> = World::default();
    world.insert(int_kind, 0i32);

    let mut dispatcher = registry.sort().unwrap().build(None);
    dispatcher.dispatch(&mut world);
    assert_eq!(*world.get(&Context::unrestricted(), int_kind).unwrap(), 0);
}

#[test]
fn err() {
    let mut access = ResourceAccess::new();
    let int_kind = access.kind_mask(7).unwrap();

    let mut registry = Registry::default();

    registry
        .insert(system_c(), Counter::ExpectInvalidAccess(int_kind))
        .unwrap();
    registry
        .insert(system_d(), Counter::ExpectNotPresent(int_kind))
        .unwrap()
        .writes_mask(int_kind);

    let mut world: World<i32> = World::default();
    let mut dispatcher = registry.sort().unwrap().build(None);
    dispatcher.dispatch(&mut world);
}
