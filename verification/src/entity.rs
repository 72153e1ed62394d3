//! Entities: plain numeric identifiers for the things on a page, and the allocator that hands
//! them out.
use vstd::prelude::*;

verus! {

/// An identifier.
#[derive(Clone, Copy, Debug, Hash, Eq, PartialEq, Ord, PartialOrd, Structural)]
pub struct Entity(usize);

impl Entity {
    pub closed spec fn id_spec(self) -> usize {
        self.0
    }

    /// Entities with the same identifier are the same.
    pub proof fn lemma_id_injective(a: Entity, b: Entity)
        requires
            a.id_spec() == b.id_spec(),
        ensures
            a == b,
    {
    }

    pub fn new(id: usize) -> (e: Entity)
        ensures
            e.id_spec() == id,
    {
        Entity(id)
    }

    pub fn id(self) -> (r: usize)
        ensures
            r == self.id_spec(),
    {
        self.0
    }
}

/// Hands out entities with consecutive identifiers, starting at 0.
#[derive(Debug)]
pub struct EntitiesRes {
    next: usize,
}

impl EntitiesRes {
    /// The identifier the next `create` returns.
    pub closed spec fn next_spec(&self) -> usize {
        self.next
    }

    /// An allocator whose first entity has identifier 0.
    pub fn new() -> (r: EntitiesRes)
        ensures
            r.next_spec() == 0,
    {
        EntitiesRes { next: 0 }
    }

    /// A fresh entity: identifiers count up from 0, while there are identifiers left.
    pub fn create(&mut self) -> (e: Entity)
        requires
            old(self).next_spec() < usize::MAX,
        ensures
            e.id_spec() == old(self).next_spec(),
            final(self).next_spec() == old(self).next_spec() + 1,
    {
        let e = Entity(self.next);
        self.next = self.next + 1;
        e
    }
}

impl Default for EntitiesRes {
    fn default() -> (r: EntitiesRes)
        ensures
            r.next_spec() == 0,
    {
        EntitiesRes { next: 0 }
    }
}

/// Entities that `create` has handed out are distinct: one created later has a larger
/// identifier.
pub proof fn lemma_created_distinct(first: Entity, before: EntitiesRes, second: Entity)
    requires
        first.id_spec() < before.next_spec(),
        second.id_spec() == before.next_spec(),
    ensures
        first != second,
        first.id_spec() < second.id_spec(),
{
}

/// The keys of `a` that `b` also has, in the order of `a`: the entities on which two component
/// maps can be joined.
pub fn join_keys(a: &Vec<Entity>, b: &Vec<Entity>) -> (r: Vec<Entity>)
    ensures
        r@ == a@.filter(|k: Entity| b@.contains(k)),
{
    let mut r: Vec<Entity> = Vec::new();
    let mut i: usize = 0;
    proof {
        assert(a@.subrange(0, 0) =~= Seq::<Entity>::empty());
    }
    while i < a.len()
        invariant
            i <= a@.len(),
            r@ == a@.subrange(0, i as int).filter(|k: Entity| b@.contains(k)),
        decreases a@.len() - i,
    {
        let k = a[i];
        let inside = crate::orphans::holds(b, k);
        proof {
            let f = |x: Entity| b@.contains(x);
            assert(a@.subrange(0, i + 1).drop_last() =~= a@.subrange(0, i as int));
            assert(a@.subrange(0, i + 1).last() == k);
            assert(a@.subrange(0, i + 1).filter(f) == if f(k) {
                a@.subrange(0, i as int).filter(f).push(k)
            } else {
                a@.subrange(0, i as int).filter(f)
            }) by {
                reveal(Seq::filter);
            }
        }
        if inside {
            r.push(k);
        }
        i = i + 1;
    }
    proof {
        assert(a@.subrange(0, a@.len() as int) =~= a@);
    }
    r
}

} // verus!
