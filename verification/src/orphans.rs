//! Garbage collection of entities that are no longer attached to the document tree.
//!
//! The tree is given by `(child, parent)` pairs.  A graph component (a map keyed by entity) is
//! given by its keys: removing an entity from it removes its entry.
use crate::entity::Entity;
use vstd::prelude::*;

verus! {

/// `e` leads to `root` by at most `n` child-to-parent steps.
pub open spec fn reaches(parents: Seq<(Entity, Entity)>, root: Entity, e: Entity, n: nat) -> bool
    decreases n,
{
    e == root || (n > 0 && exists|i: int|
        0 <= i < parents.len() && (#[trigger] parents[i]).0 == e && reaches(parents, root, parents[i].1, (n - 1) as nat))
}

/// `e` is attached to the tree rooted at `root`.
pub open spec fn is_live(parents: Seq<(Entity, Entity)>, root: Option<Entity>, e: Entity) -> bool {
    match root {
        Some(r) => exists|n: nat| reaches(parents, r, e, n),
        None => false,
    }
}

/// `e` lies on a cycle of `parents`: one of its parents leads back to it.
pub open spec fn on_cycle(parents: Seq<(Entity, Entity)>, e: Entity) -> bool {
    exists|i: int, n: nat| 0 <= i < parents.len() && parents[i].0 == e && #[trigger] reaches(parents, e, parents[i].1, n)
}

/// `e` is an entity that is not attached to the tree.
pub open spec fn is_garbage(
    parents: Seq<(Entity, Entity)>,
    root: Option<Entity>,
    entities: Seq<Entity>,
    e: Entity,
) -> bool {
    entities.contains(e) && !is_live(parents, root, e)
}

/// Whether `v` holds `e`.
pub(crate) fn holds(v: &Vec<Entity>, e: Entity) -> (r: bool)
    ensures
        r == v@.contains(e),
{
    let mut i: usize = 0;
    while i < v.len()
        invariant
            i <= v@.len(),
            forall|j: int| 0 <= j < i ==> v@[j] != e,
        decreases v@.len() - i,
    {
        if v[i].id() == e.id() {
            proof {
                Entity::lemma_id_injective(v@[i as int], e);
            }
            return true;
        }
        i = i + 1;
    }
    false
}

/// The number of pairs whose child is not in `live`.
spec fn outside(parents: Seq<(Entity, Entity)>, live: Seq<Entity>) -> nat
    decreases parents.len(),
{
    if parents.len() == 0 {
        0
    } else {
        outside(parents.drop_last(), live) + if live.contains(parents.last().0) { 0nat } else { 1nat }
    }
}

/// Adding a child of some pair to `live` lowers the count of pairs outside.
proof fn lemma_outside_grow(parents: Seq<(Entity, Entity)>, live: Seq<Entity>, c: Entity, i: int)
    requires
        0 <= i < parents.len(),
        parents[i].0 == c,
        !live.contains(c),
    ensures
        outside(parents, live.push(c)) < outside(parents, live),
    decreases parents.len(),
{
    lemma_outside_mono(parents.drop_last(), live, c);
    if i < parents.len() - 1 {
        assert(parents.drop_last()[i] == parents[i]);
        lemma_outside_grow(parents.drop_last(), live, c, i);
    }
    if live.contains(parents.last().0) {
        let j = choose|j: int| 0 <= j < live.len() && live[j] == parents.last().0;
        assert(live.push(c)[j] == parents.last().0);
    }
    assert(live.push(c)[live.len() as int] == c);
}

proof fn lemma_outside_mono(parents: Seq<(Entity, Entity)>, live: Seq<Entity>, c: Entity)
    ensures
        outside(parents, live.push(c)) <= outside(parents, live),
    decreases parents.len(),
{
    if parents.len() > 0 {
        lemma_outside_mono(parents.drop_last(), live, c);
        if live.contains(parents.last().0) {
            let j = choose|j: int| 0 <= j < live.len() && live[j] == parents.last().0;
            assert(live.push(c)[j] == parents.last().0);
        }
    }
}

/// A path of `n` steps is also a path of at most `m >= n` steps.
proof fn lemma_reaches_more(parents: Seq<(Entity, Entity)>, root: Entity, e: Entity, n: nat, m: nat)
    requires
        reaches(parents, root, e, n),
        n <= m,
    ensures
        reaches(parents, root, e, m),
    decreases n,
{
    if e != root {
        let i = choose|i: int|
            0 <= i < parents.len() && (#[trigger] parents[i]).0 == e && reaches(parents, root, parents[i].1, (n - 1) as nat);
        lemma_reaches_more(parents, root, parents[i].1, (n - 1) as nat, (m - 1) as nat);
    }
}

/// Everything that reaches the root is in a set that holds the root and is closed under
/// taking children.
proof fn lemma_closed_has_all(parents: Seq<(Entity, Entity)>, root: Entity, live: Seq<Entity>, e: Entity, n: nat)
    requires
        live.contains(root),
        forall|i: int| 0 <= i < parents.len() && live.contains((#[trigger] parents[i]).1) ==> live.contains(parents[i].0),
        reaches(parents, root, e, n),
    ensures
        live.contains(e),
    decreases n,
{
    if e != root {
        let i = choose|i: int|
            0 <= i < parents.len() && (#[trigger] parents[i]).0 == e && reaches(parents, root, parents[i].1, (n - 1) as nat);
        lemma_closed_has_all(parents, root, live, parents[i].1, (n - 1) as nat);
    }
}

/// The entities attached to the tree rooted at `root`.
fn live_entities(root: Option<Entity>, parents: &Vec<(Entity, Entity)>) -> (live: Vec<Entity>)
    ensures
        forall|e: Entity| live@.contains(e) <==> is_live(parents@, root, e),
{
    let mut live: Vec<Entity> = Vec::new();
    let r = match root {
        Some(r) => r,
        None => {
            return live;
        },
    };
    live.push(r);
    proof {
        assert(live@[0] == r);
        assert(reaches(parents@, r, r, 0));
    }
    let mut changed = true;
    while changed
        invariant
            root == Some(r),
            live@.contains(r),
            forall|e: Entity| live@.contains(e) ==> exists|n: nat| reaches(parents@, r, e, n),
            !changed ==> forall|i: int|
                0 <= i < parents@.len() && live@.contains((#[trigger] parents@[i]).1) ==> live@.contains(parents@[i].0),
        decreases outside(parents@, live@), if changed { 1int } else { 0int },
    {
        changed = false;
        let ghost start = live@;
        let mut i: usize = 0;
        while i < parents.len()
            invariant
                live@.contains(r),
                forall|e: Entity| live@.contains(e) ==> exists|n: nat| reaches(parents@, r, e, n),
                i <= parents@.len(),
                outside(parents@, live@) <= outside(parents@, start),
                changed ==> outside(parents@, live@) < outside(parents@, start),
                !changed ==> live@ == start,
                !changed ==> forall|j: int|
                    0 <= j < i && live@.contains((#[trigger] parents@[j]).1) ==> live@.contains(parents@[j].0),
            decreases parents@.len() - i,
        {
            let (c, p) = parents[i];
            if holds(&live, p) && !holds(&live, c) {
                proof {
                    lemma_outside_grow(parents@, live@, c, i as int);
                    let n = choose|n: nat| reaches(parents@, r, p, n);
                    assert(parents@[i as int].0 == c);
                    assert(reaches(parents@, r, c, n + 1));
                    assert forall|e: Entity| live@.push(c).contains(e) implies exists|m: nat| reaches(parents@, r, e, m) by {
                        if e != c {
                            let j = choose|j: int| 0 <= j < live@.push(c).len() && live@.push(c)[j] == e;
                            assert(live@[j] == e);
                            assert(live@.contains(e));
                        } else {
                            assert(reaches(parents@, r, e, n + 1));
                        }
                    }
                    assert(live@.push(c)[live@.len() as int] == c);
                    let j0 = choose|j: int| 0 <= j < live@.len() && live@[j] == r;
                    assert(live@.push(c)[j0] == r);
                }
                live.push(c);
                changed = true;
            }
            i = i + 1;
        }
    }
    proof {
        assert forall|e: Entity| live@.contains(e) <==> is_live(parents@, root, e) by {
            if is_live(parents@, root, e) {
                let n = choose|n: nat| reaches(parents@, r, e, n);
                lemma_closed_has_all(parents@, r, live@, e, n);
            }
        }
    }
    live
}

/// Removes from each graph component, and from `parents`, the entities of `entities` that are
/// not attached to the tree rooted at `root` (nothing is attached without a root).  `parents`
/// pairs each child with its one parent (no child occurs twice).  The walk
/// down from the root never ends when an attached entity lies on a cycle of `parents`; such
/// input is excluded.
pub fn sys_delete_orphans(
    root: Option<Entity>,
    parents: &mut Vec<(Entity, Entity)>,
    entities: &Vec<Entity>,
    graph_components: &mut Vec<Vec<Entity>>,
)
    requires
        forall|i: int, j: int|
            0 <= i < j < old(parents)@.len() ==> (#[trigger] old(parents)@[i]).0 != (#[trigger] old(parents)@[j]).0,
        forall|e: Entity| #[trigger] is_live(old(parents)@, root, e) ==> !on_cycle(old(parents)@, e),
    ensures
        final(parents)@ == old(parents)@.filter(
            |x: (Entity, Entity)| !is_garbage(old(parents)@, root, entities@, x.0),
        ),
        final(graph_components)@.len() == old(graph_components)@.len(),
        forall|i: int|
            0 <= i < old(graph_components)@.len() ==> (#[trigger] final(graph_components)@[i])@ == old(
                graph_components,
            )@[i]@.filter(|k: Entity| !is_garbage(old(parents)@, root, entities@, k)),
{
    let ghost tree = parents@;
    let live = live_entities(root, parents);
    let mut k: usize = 0;
    let ghost comps0 = graph_components@;
    let mut done: Vec<Vec<Entity>> = Vec::new();
    while k < graph_components.len()
        invariant
            graph_components@ == comps0,
            k <= comps0.len(),
            done@.len() == k,
            forall|e: Entity| live@.contains(e) <==> is_live(tree, root, e),
            forall|i: int|
                0 <= i < k ==> (#[trigger] done@[i])@ == comps0[i]@.filter(
                    |x: Entity| !is_garbage(tree, root, entities@, x),
                ),
        decreases comps0.len() - k,
    {
        let kept = keep_live(&graph_components[k], entities, &live, Ghost(tree), Ghost(root));
        done.push(kept);
        k = k + 1;
    }
    *graph_components = done;
    let mut new_parents: Vec<(Entity, Entity)> = Vec::new();
    let mut i: usize = 0;
    while i < parents.len()
        invariant
            parents@ == tree,
            i <= tree.len(),
            forall|e: Entity| live@.contains(e) <==> is_live(tree, root, e),
            new_parents@ == tree.subrange(0, i as int).filter(
                |x: (Entity, Entity)| !is_garbage(tree, root, entities@, x.0),
            ),
        decreases tree.len() - i,
    {
        let pair = parents[i];
        let garbage = holds(entities, pair.0) && !holds(&live, pair.0);
        proof {
            let f = |x: (Entity, Entity)| !is_garbage(tree, root, entities@, x.0);
            assert(tree.subrange(0, i + 1).drop_last() =~= tree.subrange(0, i as int));
            assert(tree.subrange(0, i + 1).last() == pair);
            assert(tree.subrange(0, i + 1).filter(f) == if f(pair) {
                tree.subrange(0, i as int).filter(f).push(pair)
            } else {
                tree.subrange(0, i as int).filter(f)
            }) by {
                reveal(Seq::filter);
            }
        }
        if !garbage {
            new_parents.push(pair);
        }
        i = i + 1;
    }
    proof {
        assert(tree.subrange(0, tree.len() as int) =~= tree);
    }
    *parents = new_parents;
}

/// The keys of `keys` that are not garbage.
fn keep_live(
    keys: &Vec<Entity>,
    entities: &Vec<Entity>,
    live: &Vec<Entity>,
    Ghost(tree): Ghost<Seq<(Entity, Entity)>>,
    Ghost(root): Ghost<Option<Entity>>,
) -> (r: Vec<Entity>)
    requires
        forall|e: Entity| live@.contains(e) <==> is_live(tree, root, e),
    ensures
        r@ == keys@.filter(|x: Entity| !is_garbage(tree, root, entities@, x)),
{
    let mut r: Vec<Entity> = Vec::new();
    let mut i: usize = 0;
    while i < keys.len()
        invariant
            i <= keys@.len(),
            forall|e: Entity| live@.contains(e) <==> is_live(tree, root, e),
            r@ == keys@.subrange(0, i as int).filter(|x: Entity| !is_garbage(tree, root, entities@, x)),
        decreases keys@.len() - i,
    {
        let key = keys[i];
        let garbage = holds(entities, key) && !holds(live, key);
        proof {
            let f = |x: Entity| !is_garbage(tree, root, entities@, x);
            assert(keys@.subrange(0, i + 1).drop_last() =~= keys@.subrange(0, i as int));
            assert(keys@.subrange(0, i + 1).last() == key);
            assert(keys@.subrange(0, i + 1).filter(f) == if f(key) {
                keys@.subrange(0, i as int).filter(f).push(key)
            } else {
                keys@.subrange(0, i as int).filter(f)
            }) by {
                reveal(Seq::filter);
            }
        }
        if !garbage {
            r.push(key);
        }
        i = i + 1;
    }
    proof {
        assert(keys@.subrange(0, keys@.len() as int) =~= keys@);
    }
    r
}

/// Filtering by a predicate that every element meets changes nothing.
proof fn lemma_filter_all<A>(s: Seq<A>, f: spec_fn(A) -> bool)
    requires
        forall|i: int| 0 <= i < s.len() ==> f(#[trigger] s[i]),
    ensures
        s.filter(f) == s,
    decreases s.len(),
{
    reveal(Seq::filter);
    if s.len() > 0 {
        let a = s.drop_last();
        assert forall|i: int| 0 <= i < a.len() implies f(#[trigger] a[i]) by {
            assert(a[i] == s[i]);
        }
        lemma_filter_all(a, f);
        assert(f(s[s.len() - 1]));
        assert(a.push(s.last()) =~= s);
    }
}

proof fn lemma_live_of(parents: Seq<(Entity, Entity)>, root: Entity, e: Entity, n: nat)
    requires
        reaches(parents, root, e, n),
    ensures
        is_live(parents, Some(root), e),
{
    assert(exists|m: nat| reaches(parents, root, e, m));
    let o = Some(root);
    assert(o matches Some(r) && r == root);
}

/// A path through some of the pairs is a path through all of them.
proof fn lemma_reaches_sub(parents: Seq<(Entity, Entity)>, kept: Seq<(Entity, Entity)>, root: Entity, e: Entity, n: nat)
    requires
        forall|i: int| 0 <= i < kept.len() ==> parents.contains(#[trigger] kept[i]),
        reaches(kept, root, e, n),
    ensures
        reaches(parents, root, e, n),
    decreases n,
{
    if e != root {
        let i = choose|i: int|
            0 <= i < kept.len() && (#[trigger] kept[i]).0 == e && reaches(kept, root, kept[i].1, (n - 1) as nat);
        lemma_reaches_sub(parents, kept, root, kept[i].1, (n - 1) as nat);
        assert(parents.contains(kept[i]));
        let j = choose|j: int| 0 <= j < parents.len() && parents[j] == kept[i];
        assert(parents[j].0 == e && reaches(parents, root, parents[j].1, (n - 1) as nat));
    }
}

/// A path to the root runs through live entities only, so it survives the removal of the pairs
/// of garbage entities.
proof fn lemma_reaches_kept(
    parents: Seq<(Entity, Entity)>,
    root: Entity,
    entities: Seq<Entity>,
    e: Entity,
    n: nat,
)
    requires
        reaches(parents, root, e, n),
    ensures
        reaches(
            parents.filter(|x: (Entity, Entity)| !is_garbage(parents, Some(root), entities, x.0)),
            root,
            e,
            n,
        ),
    decreases n,
{
    let f = |x: (Entity, Entity)| !is_garbage(parents, Some(root), entities, x.0);
    let kept = parents.filter(f);
    if e != root {
        let i = choose|i: int|
            0 <= i < parents.len() && (#[trigger] parents[i]).0 == e && reaches(parents, root, parents[i].1, (n - 1) as nat);
        lemma_reaches_kept(parents, root, entities, parents[i].1, (n - 1) as nat);
        lemma_live_of(parents, root, e, n);
        assert(f(parents[i]));
        parents.lemma_filter_contains(f, i);
        let j = choose|j: int| 0 <= j < kept.len() && kept[j] == parents[i];
        assert(kept[j].0 == e && reaches(kept, root, kept[j].1, (n - 1) as nat));
    }
}

/// Collecting garbage again right after `sys_delete_orphans` changes nothing: the pairs and
/// component keys that it keeps all stay live once the garbage pairs are gone.
pub proof fn lemma_delete_orphans_settled(
    parents: Seq<(Entity, Entity)>,
    root: Option<Entity>,
    entities: Seq<Entity>,
    component: Seq<Entity>,
)
    ensures
        ({
            let kept = parents.filter(|x: (Entity, Entity)| !is_garbage(parents, root, entities, x.0));
            let keys = component.filter(|k: Entity| !is_garbage(parents, root, entities, k));
            &&& kept.filter(|x: (Entity, Entity)| !is_garbage(kept, root, entities, x.0)) == kept
            &&& keys.filter(|k: Entity| !is_garbage(kept, root, entities, k)) == keys
        }),
{
    let f = |x: (Entity, Entity)| !is_garbage(parents, root, entities, x.0);
    let kept = parents.filter(f);
    let g = |k: Entity| !is_garbage(parents, root, entities, k);
    let keys = component.filter(g);
    assert forall|e: Entity| is_live(kept, root, e) == is_live(parents, root, e) by {
        if let Some(r) = root {
            assert forall|i: int| 0 <= i < kept.len() implies parents.contains(#[trigger] kept[i]) by {
                parents.lemma_filter_contains_rev(f, kept[i]);
            }
            if is_live(kept, root, e) {
                let n = choose|n: nat| reaches(kept, r, e, n);
                lemma_reaches_sub(parents, kept, r, e, n);
            }
            if is_live(parents, root, e) {
                let n = choose|n: nat| reaches(parents, r, e, n);
                lemma_reaches_kept(parents, r, entities, e, n);
                assert(reaches(kept, r, e, n));
            }
        }
    }
    let f2 = |x: (Entity, Entity)| !is_garbage(kept, root, entities, x.0);
    assert forall|i: int| 0 <= i < kept.len() implies f2(#[trigger] kept[i]) by {
        parents.lemma_filter_pred(f, i);
        assert(is_live(kept, root, kept[i].0) == is_live(parents, root, kept[i].0));
    }
    lemma_filter_all(kept, f2);
    let g2 = |k: Entity| !is_garbage(kept, root, entities, k);
    assert forall|i: int| 0 <= i < keys.len() implies g2(#[trigger] keys[i]) by {
        component.lemma_filter_pred(g, i);
        assert(is_live(kept, root, keys[i]) == is_live(parents, root, keys[i]));
    }
    lemma_filter_all(keys, g2);
}

} // verus!
