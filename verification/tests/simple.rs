use dispatcher_system::dispatcher::System;
use dispatcher_system::registry::Registry;
use dispatcher_system::resources::{ResourceAccess, ResourceMask};
use dispatcher_system::rules::user;
use dispatcher_system::stage::StageId;
use dispatcher_system::world::{Context, World};

fn system_a() -> StageId {
    StageId::of(1)
}

struct AddOne {
    kind: ResourceMask,
}

impl System<i32> for AddOne {
    fn run(&mut self, world: &mut World<i32>, ctx: &Context) {
        assert!(world.dispatched(ctx));
        *world.get_mut(ctx, self.kind).unwrap() += 1;
    }
}

#[test]
fn simple_main() {
    let mut registry: Registry<()> = Registry::default();

    registry.insert(system_a(), ()).unwrap().before(user());

    let builder = registry.sort().unwrap();
    assert_eq!(builder.group(0), Some(&vec![system_a()]));
}

#[test]
fn outside() {
    let mut access = ResourceAccess::new();
    let int_kind = access.kind_mask(7).unwrap();

    let mut registry = Registry::default();

    registry
        .insert(system_a(), AddOne { kind: int_kind })
        .unwrap()
        .writes_mask(int_kind);

    let mut world: World<i32> = World::default();
    world.insert(int_kind, 0i32);

    let mut dispatcher = registry.sort().unwrap().build(None);
    assert!(!world.dispatched(&Context::unrestricted()));
    dispatcher.dispatch(&mut world);
    assert!(!world.dispatched(&Context::unrestricted()));
    assert_eq!(*world.get(&Context::unrestricted(), int_kind).unwrap(), 1);
}
