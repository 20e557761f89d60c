use dispatcher_system::error::{WorldBorrowError, WorldBorrowMutError};
use dispatcher_system::resources::{Resource, ResourceMask};
use dispatcher_system::resources::ResourceAccess;
use dispatcher_system::world::{Context, World};

#[test]
fn kind_bits_are_stable_and_unique() {
    let mut access = ResourceAccess::new();
    let first = access.kind_mask(10).unwrap();
    let second = access.kind_mask(20).unwrap();
    let third = access.kind_mask(30).unwrap();
    assert_eq!(first, 1);
    assert_eq!(second, 2);
    assert_eq!(third, 4);
    // idempotent: asking again hands out the same bit
    assert_eq!(access.kind_mask(20).unwrap(), 2);
    assert_eq!(access.kind_mask(10).unwrap(), 1);
}

#[test]
fn kind_capacity_is_the_mask_width() {
    let mut access = ResourceAccess::new();
    let mut key: u64 = 0;
    while key < 64 {
        assert_eq!(access.kind_mask(key).unwrap(), 1u64 << key);
        key += 1;
    }
    // the 65th distinct kind cannot be assigned a bit
    assert!(access.kind_mask(64).is_none());
    // but every assigned kind keeps its bit
    assert_eq!(access.kind_mask(63).unwrap(), 1u64 << 63);
}

#[test]
fn access_enforcement() {
    let mut access = ResourceAccess::new();
    let res = access.kind_mask(1).unwrap();
    let mut world: World<i32> = World::default();
    world.insert(res, 5i32);

    // declared read access only: reading works, writing is refused
    let read_only = Context::masked(res, 0);
    assert_eq!(*world.get(&read_only, res).unwrap(), 5);
    assert!(matches!(
        world.get_mut(&read_only, res),
        Err(WorldBorrowMutError::InvalidAccess)
    ));

    // no declared access at all: even reading is refused
    let nothing = Context::masked(0, 0);
    assert!(matches!(
        world.get(&nothing, res),
        Err(WorldBorrowError::InvalidAccess)
    ));

    // once the masks are declared, both succeed
    let both = Context::masked(res, res);
    assert_eq!(*world.get(&both, res).unwrap(), 5);
    *world.get_mut(&both, res).unwrap() = 9;
    assert_eq!(*world.get(&both, res).unwrap(), 9);
}

#[test]
fn world_insert_overwrites() {
    let mut access = ResourceAccess::new();
    let res = access.kind_mask(1).unwrap();
    let other = access.kind_mask(2).unwrap();
    let mut world: World<i32> = World::default();
    assert!(!world.contains(res));
    world.insert(res, 1i32);
    assert!(world.contains(res));
    assert!(!world.contains(other));
    world.insert(res, 2i32);
    assert_eq!(*world.get(&Context::unrestricted(), res).unwrap(), 2);
    assert!(matches!(
        world.get(&Context::unrestricted(), other),
        Err(WorldBorrowError::NotPresent)
    ));
}

struct SceneCounter {
    mask: ResourceMask,
    value: i32,
}

impl Resource for SceneCounter {
    fn mask(&self) -> ResourceMask {
        self.mask
    }
}

#[test]
fn resources_carry_their_kind() {
    let mut access = ResourceAccess::new();
    let scene = access.kind_mask(40).unwrap();
    let counter = SceneCounter { mask: scene, value: 3 };
    let mut world: World<SceneCounter> = World::default();
    let kind = counter.mask();
    world.insert(kind, counter);
    assert_eq!(world.get(&Context::unrestricted(), scene).unwrap().value, 3);
}
