//! Why a rest, note or chord in a bar exists.
use crate::entity::Entity;
use vstd::prelude::*;

verus! {

/// Why was this element created?
#[derive(Clone, Copy, Debug, Eq, PartialEq, Ord, PartialOrd, Structural)]
pub enum Lifetime {
    /// A rest that was automatically inserted by the program.
    ///
    /// This is empty space, and can be replaced without explicit user intent.
    AutomaticRest,
    /// A rest that is hidden, used, for example, in pickup beats.
    HiddenRest,
    /// The user is hovering over a space and this is a preview.
    ///
    /// Moving the cursor will remove this note or rest.
    Temporary(Entity),
    /// The user has added this note.
    ///
    /// Explicit user intent is required to remove it.
    Explicit(Entity),
}

/// The order of lifetimes: by variant in declaration order, then by entity; -1, 0 or 1.
pub open spec fn lifetime_order(a: Lifetime, b: Lifetime) -> int {
    if a.rank() < b.rank() {
        -1
    } else if a.rank() > b.rank() {
        1
    } else {
        match (a.entity_spec(), b.entity_spec()) {
            (Some(x), Some(y)) => if x.id_spec() < y.id_spec() {
                -1
            } else if x.id_spec() > y.id_spec() {
                1
            } else {
                0
            },
            _ => 0,
        }
    }
}

/// The order of lifetimes is a strict total order: reversing the arguments negates it, it is
/// zero exactly for equal lifetimes, and it is transitive.
pub proof fn lemma_lifetime_order(a: Lifetime, b: Lifetime, c: Lifetime)
    ensures
        lifetime_order(a, b) == -lifetime_order(b, a),
        -1 <= lifetime_order(a, b) <= 1,
        lifetime_order(a, b) == 0 <==> a == b,
        lifetime_order(a, b) > 0 && lifetime_order(b, c) > 0 ==> lifetime_order(a, c) > 0,
{
    match (a.entity_spec(), b.entity_spec()) {
        (Some(x), Some(y)) => {
            if x.id_spec() == y.id_spec() {
                Entity::lemma_id_injective(x, y);
            }
        },
        _ => {},
    }
}

impl Lifetime {
    pub fn is_explicit(&self) -> (r: bool)
        ensures
            r == (*self is Explicit),
    {
        match self {
            Lifetime::Explicit(_) => true,
            _ => false,
        }
    }

    pub fn is_temporary(&self) -> (r: bool)
        ensures
            r == (*self is Temporary),
    {
        match self {
            Lifetime::Temporary(_) => true,
            _ => false,
        }
    }

    pub fn is_automatic(&self) -> (r: bool)
        ensures
            r == (*self is AutomaticRest),
    {
        match self {
            Lifetime::AutomaticRest => true,
            _ => false,
        }
    }

    pub fn is_hidden(&self) -> (r: bool)
        ensures
            r == (*self is HiddenRest),
    {
        match self {
            Lifetime::HiddenRest => true,
            _ => false,
        }
    }

    /// The entity of a temporary or explicit element.
    pub open spec fn entity_spec(self) -> Option<Entity> {
        match self {
            Lifetime::AutomaticRest | Lifetime::HiddenRest => None,
            Lifetime::Temporary(e) | Lifetime::Explicit(e) => Some(e),
        }
    }

    pub fn to_option(self) -> (r: Option<Entity>)
        ensures
            r == self.entity_spec(),
    {
        match self {
            Lifetime::AutomaticRest | Lifetime::HiddenRest => None,
            Lifetime::Temporary(e) | Lifetime::Explicit(e) => Some(e),
        }
    }

    /// The rank of the variant in declaration order.
    pub open spec fn rank(self) -> int {
        match self {
            Lifetime::AutomaticRest => 0,
            Lifetime::HiddenRest => 1,
            Lifetime::Temporary(_) => 2,
            Lifetime::Explicit(_) => 3,
        }
    }

    /// Three-way comparison in declaration order, then by entity: -1, 0 or 1.
    pub fn compare(&self, other: &Lifetime) -> (c: i8)
        ensures
            c == lifetime_order(*self, *other),
            c == 0 <==> *self == *other,
    {
        let a: u8 = match self {
            Lifetime::AutomaticRest => 0,
            Lifetime::HiddenRest => 1,
            Lifetime::Temporary(_) => 2,
            Lifetime::Explicit(_) => 3,
        };
        let b: u8 = match other {
            Lifetime::AutomaticRest => 0,
            Lifetime::HiddenRest => 1,
            Lifetime::Temporary(_) => 2,
            Lifetime::Explicit(_) => 3,
        };
        if a < b {
            return -1;
        }
        if a > b {
            return 1;
        }
        match (self, other) {
            (Lifetime::Temporary(x), Lifetime::Temporary(y)) | (
                Lifetime::Explicit(x),
                Lifetime::Explicit(y),
            ) => {
                if x.id() < y.id() {
                    -1
                } else if x.id() > y.id() {
                    1
                } else {
                    proof {
                        Entity::lemma_id_injective(*x, *y);
                    }
                    0
                }
            },
            _ => 0,
        }
    }
}

impl Default for Lifetime {
    fn default() -> (r: Lifetime)
        ensures
            r == Lifetime::AutomaticRest,
    {
        Lifetime::AutomaticRest
    }
}

} // verus!
