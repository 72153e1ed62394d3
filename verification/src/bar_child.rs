//! A rest, note or chord of a bar, with where it starts and why it is there.
use crate::duration::Duration;
use crate::entity::Entity;
use crate::lifetime::Lifetime;
use crate::rational::Rational;
use vstd::prelude::*;

verus! {

/// A child of a bar: its length, its start in whole notes from the start of the bar, why it
/// was created, and the entity that draws it.
#[derive(Copy, Clone, Debug, PartialEq, Eq, Structural)]
pub struct BarChild {
    pub duration: Duration,
    pub start: Rational,
    pub lifetime: Lifetime,
    pub stencil: Entity,
}

} // verus!
