use six_eight::entity::{EntitiesRes, Entity};

#[test]
fn it_counts() {
    let mut res = EntitiesRes::default();
    assert_eq!(res.create(), Entity::new(0));
    assert_eq!(res.create(), Entity::new(1));
    assert_eq!(res.create(), Entity::new(2));
}

#[test]
fn ids_round_trip() {
    assert_eq!(Entity::new(7).id(), 7);
    let mut res = EntitiesRes::new();
    let a = res.create();
    let b = res.create();
    assert!(a != b);
    assert!(a.id() < b.id());
}
