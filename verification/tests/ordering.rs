use dispatcher_system::registry::Registry;
use dispatcher_system::rules::{post_user, user};
use dispatcher_system::stage::StageId;

fn system_a() -> StageId {
    StageId::of(1)
}
fn system_b() -> StageId {
    StageId::of(2)
}
fn system_c() -> StageId {
    StageId::of(3)
}
fn system_d() -> StageId {
    StageId::of(4)
}
fn system_e() -> StageId {
    StageId::of(5)
}
fn system_f() -> StageId {
    StageId::of(6)
}

#[test]
fn ordering_main() {
    let mut registry: Registry<()> = Registry::default();

    registry.insert(system_e(), ()).unwrap().before(system_d());

    registry
        .insert(system_d(), ())
        .unwrap()
        .before(post_user())
        .before(user());

    registry.insert(system_a(), ()).unwrap();
    registry
        .insert(system_c(), ())
        .unwrap()
        .before(post_user())
        .after(user())
        .parallel(system_c());

    registry
        .insert(system_b(), ())
        .unwrap()
        .after(post_user())
        .after(user());

    registry.insert(system_f(), ()).unwrap().after(system_b());

    let builder = registry.sort().unwrap();
    assert_eq!(builder.group(0), Some(&vec![system_e()]));
    assert_eq!(builder.group(1), Some(&vec![system_d()]));
    assert_eq!(builder.group(2), Some(&vec![system_a(), system_c()]));
    assert_eq!(builder.group(3), Some(&vec![system_b()]));
    assert_eq!(builder.group(4), Some(&vec![system_f()]));
}
