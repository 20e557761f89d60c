use dispatcher_system::registry::Registry;
use dispatcher_system::resources::ResourceAccess;
use dispatcher_system::stage::StageId;

fn system_a() -> StageId {
    StageId::of(1)
}
fn system_b() -> StageId {
    StageId::of(2)
}
fn system_c() -> StageId {
    StageId::of(3)
}
fn system_d() -> StageId {
    StageId::of(4)
}
fn system_e() -> StageId {
    StageId::of(5)
}

#[test]
fn full() {
    let mut access = ResourceAccess::new();
    let res_a = access.kind_mask(101).unwrap();
    let res_b = access.kind_mask(102).unwrap();
    let res_c = access.kind_mask(103).unwrap();

    let mut registry: Registry<()> = Registry::default();

    registry
        .insert(system_a(), ())
        .unwrap()
        .reads_mask(res_a)
        .writes_mask(res_b);
    registry
        .insert(system_c(), ())
        .unwrap()
        .reads_mask(res_a)
        .writes_mask(res_c);
    registry
        .insert(system_b(), ())
        .unwrap()
        .writes_mask(res_b)
        .writes_mask(res_c)
        .after(system_d());
    registry.insert(system_d(), ()).unwrap().reads_mask(res_c);
    registry
        .insert(system_e(), ())
        .unwrap()
        .reads_mask(res_b)
        .before(system_b())
        .after(system_a());

    let builder = registry.sort().unwrap();
    assert_eq!(builder.group(0), Some(&vec![system_a(), system_c()]));
    assert_eq!(builder.group(1), Some(&vec![system_d()]));
    assert_eq!(builder.group(2), Some(&vec![system_e()]));
    assert_eq!(builder.group(3), Some(&vec![system_b()]));
}

#[test]
fn simpler() {
    let mut access = ResourceAccess::new();
    let res_a = access.kind_mask(101).unwrap();
    let res_b = access.kind_mask(102).unwrap();
    let res_c = access.kind_mask(103).unwrap();

    let mut registry: Registry<()> = Registry::default();

    registry
        .insert(system_a(), ())
        .unwrap()
        .reads_mask(res_a)
        .writes_mask(res_b);
    registry
        .insert(system_b(), ())
        .unwrap()
        .reads_mask(res_c)
        .writes_mask(res_c);

    let builder = registry.sort().unwrap();
    assert_eq!(builder.group(0), Some(&vec![system_a(), system_b()]));
}

#[test]
fn all() {
    let mut registry: Registry<()> = Registry::default();

    registry.insert(system_a(), ()).unwrap();
    registry.insert(system_c(), ()).unwrap();
    registry.insert(system_b(), ()).unwrap();
    registry.insert(system_d(), ()).unwrap();
    registry.insert(system_e(), ()).unwrap();

    let builder = registry.sort().unwrap();
    assert_eq!(builder.group(0).unwrap().len(), 5);
}

#[test]
fn balancing() {
    let mut registry: Registry<()> = Registry::default();

    registry.insert(system_a(), ()).unwrap();
    registry.insert(system_c(), ()).unwrap();
    registry.insert(system_b(), ()).unwrap();
    registry.insert(system_d(), ()).unwrap();
    registry.insert(system_e(), ()).unwrap();

    let mut builder = registry.sort().unwrap();
    builder.balance(Some(2));
    assert_eq!(builder.group(0).unwrap().len(), 2);
    assert_eq!(builder.group(1).unwrap().len(), 2);
    assert_eq!(builder.group(2).unwrap().len(), 1);
}
