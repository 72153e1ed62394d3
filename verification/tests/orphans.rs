use six_eight::entity::Entity;
use six_eight::orphans::sys_delete_orphans;

#[test]
fn it_removes_everything_if_no_root() {
    let e1 = Entity::new(1);
    let e2 = Entity::new(2);

    let s = vec![e1, e2];

    let a: Vec<Entity> = vec![e1, e2];
    let b: Vec<Entity> = vec![e2];

    let mut parents: Vec<(Entity, Entity)> = vec![(e2, e1)];

    let mut components = vec![a, b];
    sys_delete_orphans(None, &mut parents, &s, &mut components);

    assert_eq!(components[0].len(), 0);
    assert_eq!(components[1].len(), 0);
    assert_eq!(parents.len(), 0);
}

#[test]
fn it_removes_entities_not_in_graph() {
    let e1 = Entity::new(1);
    let e2 = Entity::new(2);
    let e3 = Entity::new(3);
    let e4 = Entity::new(4);
    let e5 = Entity::new(4);

    let a: Vec<Entity> = vec![e1, e2];
    // e5 is the same entity as e4, so it is a key of its own in `b`.
    let b: Vec<Entity> = vec![e2, e3, e5];

    let s = vec![e1, e2, e3, e4, e5];

    let mut parents: Vec<(Entity, Entity)> = vec![(e2, e1), (e4, e3)];

    let mut components = vec![a, b];
    sys_delete_orphans(Some(e1), &mut parents, &s, &mut components);

    let a = &components[0];
    let b = &components[1];
    assert_eq!(a.len(), 2);
    assert!(a.contains(&e1));
    assert!(a.contains(&e2));

    assert_eq!(b.len(), 1);
    assert!(a.contains(&e2));

    assert_eq!(parents.len(), 1);
}

#[test]
fn orphans_keep_descendants_of_root() {
    let root = Entity::new(0);
    let child = Entity::new(1);
    let grandchild = Entity::new(2);
    let stray = Entity::new(3);
    let mut parents = vec![(child, root), (grandchild, child), (stray, Entity::new(9))];
    let entities = vec![root, child, grandchild, stray];
    let mut components = vec![vec![root, child, grandchild, stray]];
    sys_delete_orphans(Some(root), &mut parents, &entities, &mut components);
    assert_eq!(components[0], vec![root, child, grandchild]);
    assert_eq!(parents, vec![(child, root), (grandchild, child)]);
}

#[test]
fn collecting_twice_changes_nothing() {
    let root = Entity::new(1);
    let child = Entity::new(2);
    let grandchild = Entity::new(3);
    let stray = Entity::new(4);
    let under_stray = Entity::new(5);
    let all = vec![root, child, grandchild, stray, under_stray];
    let mut parents = vec![(child, root), (grandchild, child), (under_stray, stray)];
    let mut components = vec![all.clone()];
    sys_delete_orphans(Some(root), &mut parents, &all, &mut components);
    assert_eq!(parents, vec![(child, root), (grandchild, child)]);
    assert_eq!(components[0], vec![root, child, grandchild]);
    let parents_once = parents.clone();
    let components_once = components.clone();
    sys_delete_orphans(Some(root), &mut parents, &all, &mut components);
    assert_eq!(parents, parents_once);
    assert_eq!(components, components_once);
}
