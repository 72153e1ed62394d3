use six_eight::bar::Bar;
use six_eight::duration::{Duration, NoteValue};
use six_eight::entity::{EntitiesRes, Entity};
use six_eight::lifetime::Lifetime;
use six_eight::metre::Metre;
use six_eight::rational::Rational;

#[test]
fn note_values_with_stems_and_flags() {
    assert!(!NoteValue::Half.has_stem());
    assert!(NoteValue::Quarter.has_stem());
    assert!(!NoteValue::Quarter.has_flag());
    assert!(NoteValue::Eighth.has_flag());
    assert_eq!(NoteValue::Quarter.beam_count(), 0);
    assert_eq!(NoteValue::Sixteenth.beam_count(), 2);
    assert_eq!(NoteValue::new(-3), Some(NoteValue::Eighth));
    assert_eq!(NoteValue::new(4), None);
    assert_eq!(NoteValue::Longa.log2(), 2);
}

#[test]
fn lifetimes_classify() {
    let e = Entity::new(4);
    assert!(Lifetime::Temporary(e).is_temporary());
    assert!(!Lifetime::Explicit(e).is_temporary());
    assert!(Lifetime::HiddenRest.is_hidden());
    assert!(!Lifetime::AutomaticRest.is_hidden());
    assert!(Lifetime::AutomaticRest.is_automatic());
    assert!(Lifetime::Explicit(e).is_explicit());
    assert_eq!(Lifetime::Temporary(e).to_option(), Some(e));
    assert_eq!(Lifetime::HiddenRest.to_option(), None);
    assert_eq!(Lifetime::default(), Lifetime::AutomaticRest);
}

#[test]
fn rational_helpers() {
    assert!(Rational::zero().is_zero());
    assert!(!Rational::new(1, 3).is_zero());
    assert_eq!(Rational::new(1, 3).min(Rational::new(1, 4)), Rational::new(1, 4));
    assert_eq!(Rational::new(1, 4).min(Rational::new(2, 8)), Rational::new(1, 4));
    assert_eq!(Rational::new(7, 2).to_integer(), 3);
    assert_eq!(Rational::new(1, 2).to_integer(), 0);
}

#[test]
fn metre_beats_and_divisions() {
    let four_four = Metre::new(4, 4);
    assert_eq!(four_four.beat_duration(Rational::new(1, 8)), Rational::new(1, 4));
    assert_eq!(four_four.next_division(Rational::new(1, 8)), Rational::new(1, 2));
    assert_eq!(four_four.next_division(Rational::new(3, 4)), Rational::new(1, 1));
    assert_eq!(four_four.beat_duration(Rational::new(5, 4)), Rational::zero());
    let six_eight = Metre::new(6, 8);
    assert_eq!(six_eight.beat_duration(Rational::zero()), Rational::new(1, 8));
    assert_eq!(six_eight.next_division(Rational::zero()), Rational::new(3, 8));
}

#[test]
fn managed_entities_follow_the_automatic_rests() {
    let mut entities = EntitiesRes::new();
    let mut bar = Bar::new(Metre::new(4, 4));
    // A whole rest wants one entity.
    let (d, e) = bar.push_managed_entity(&mut entities).unwrap();
    assert_eq!(e, Entity::new(0));
    assert_eq!(d.duration(), Rational::new(1, 1));
    assert_eq!(bar.push_managed_entity(&mut entities), None);
    assert_eq!(bar.pop_managed_entity(), None);
    // A quarter note leaves a quarter rest and a half rest.
    bar.splice(
        Rational::zero(),
        vec![(Duration::new(NoteValue::Quarter, 0, None), Lifetime::Explicit(Entity::new(9)))],
    );
    let (d, e) = bar.push_managed_entity(&mut entities).unwrap();
    assert_eq!(e, Entity::new(1));
    assert_eq!(d, Duration::new(NoteValue::Half, 0, None));
    assert_eq!(bar.push_managed_entity(&mut entities), None);
    assert_eq!(bar.managed(), &vec![Entity::new(0), Entity::new(1)]);
    let children = bar.children();
    assert_eq!(children.len(), 3);
    assert_eq!(children[0].2, Entity::new(9));
    assert_eq!(children[1].2, Entity::new(0));
    assert_eq!(children[2].2, Entity::new(1));
    // Removing the note leaves a whole rest, which needs one entity.
    assert_eq!(bar.remove(Entity::new(9)), Some(Lifetime::Explicit(Entity::new(9))));
    assert!(bar.rhythm().iter().all(|(_, l)| l.to_option() != Some(Entity::new(9))));
    assert_eq!(bar.remove(Entity::new(9)), None);
    assert_eq!(bar.pop_managed_entity(), Some(Entity::new(1)));
    assert_eq!(bar.pop_managed_entity(), None);
}

#[test]
fn durations_and_lifetimes_order() {
    let q = Duration::new(NoteValue::Quarter, 0, None);
    let h = Duration::new(NoteValue::Half, 0, None);
    let triplet = Duration::new(NoteValue::Quarter, 0, Some(Rational::new(3, 2)));
    assert_eq!(q.compare(&h), -1);
    assert_eq!(h.compare(&q), 1);
    assert_eq!(q.compare(&q), 0);
    assert_eq!(q.compare(&triplet), -1);
    let whole = Duration::new_whole_rest(Rational::new(1, 4));
    assert_eq!(q.compare(&whole), -1);
    let a = Lifetime::Explicit(Entity::new(1));
    let b = Lifetime::Explicit(Entity::new(2));
    assert_eq!(a.compare(&b), -1);
    assert_eq!(b.compare(&a), 1);
    assert_eq!(Lifetime::AutomaticRest.compare(&a), -1);
    assert_eq!(Lifetime::Temporary(Entity::new(5)).compare(&a), -1);
    assert_eq!(Lifetime::HiddenRest.compare(&Lifetime::HiddenRest), 0);
}

#[test]
fn join_keys_keeps_the_shared_entities_in_order() {
    let a = vec![Entity::new(3), Entity::new(1), Entity::new(7), Entity::new(2)];
    let b = vec![Entity::new(2), Entity::new(3), Entity::new(9)];
    assert_eq!(six_eight::entity::join_keys(&a, &b), vec![Entity::new(3), Entity::new(2)]);
    assert!(six_eight::entity::join_keys(&a, &vec![]).is_empty());
}
