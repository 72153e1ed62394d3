use six_eight::bar::Bar;
use six_eight::bar_child::BarChild;
use six_eight::duration::{Duration, NoteValue};
use six_eight::entity::Entity;
use six_eight::lifetime::Lifetime;
use six_eight::metre::Metre;
use six_eight::rational::Rational;
use six_eight::rhythmic_beaming::{beam_candidates, beam_spans, RhythmicBeaming};
use six_eight::start::Start;

fn eighth() -> Duration {
    Duration::new(NoteValue::Eighth, 0, None)
}

fn quarter() -> Duration {
    Duration::new(NoteValue::Quarter, 0, None)
}

fn child(duration: Duration, start: Rational, stencil: usize, lifetime: Lifetime) -> BarChild {
    BarChild { duration, start, lifetime, stencil: Entity::new(stencil) }
}

#[test]
fn candidates_are_runs_of_beamed_notes() {
    let children = vec![
        child(eighth(), Rational::new(0, 1), 1, Lifetime::Explicit(Entity::new(1))),
        child(eighth(), Rational::new(1, 8), 2, Lifetime::Explicit(Entity::new(2))),
        child(quarter(), Rational::new(1, 4), 3, Lifetime::Explicit(Entity::new(3))),
        child(eighth(), Rational::new(1, 2), 4, Lifetime::AutomaticRest),
        child(eighth(), Rational::new(5, 8), 5, Lifetime::Explicit(Entity::new(5))),
        child(Duration::new(NoteValue::Sixteenth, 0, None), Rational::new(3, 4), 6, Lifetime::Explicit(Entity::new(6))),
    ];
    let runs = beam_candidates(&children);
    assert_eq!(runs.len(), 2);
    assert_eq!(runs[0].0, Rational::new(0, 1));
    assert_eq!(runs[0].1, vec![(eighth(), Entity::new(1)), (eighth(), Entity::new(2))]);
    assert_eq!(runs[1].0, Rational::new(5, 8));
    assert_eq!(
        runs[1].1,
        vec![
            (eighth(), Entity::new(5)),
            (Duration::new(NoteValue::Sixteenth, 0, None), Entity::new(6))
        ]
    );
}

#[test]
fn temporary_notes_do_not_join_beams() {
    let children = vec![
        child(eighth(), Rational::new(0, 1), 1, Lifetime::Explicit(Entity::new(1))),
        child(eighth(), Rational::new(1, 8), 2, Lifetime::Temporary(Entity::new(2))),
        child(eighth(), Rational::new(1, 4), 3, Lifetime::Explicit(Entity::new(3))),
    ];
    let runs = beam_candidates(&children);
    assert_eq!(runs.len(), 2);
    assert_eq!(runs[0].1, vec![(eighth(), Entity::new(1))]);
    assert_eq!(runs[1].0, Rational::new(1, 4));
}

#[test]
fn candidates_of_a_bar_without_beamed_notes() {
    let children = vec![
        child(quarter(), Rational::new(0, 1), 1, Lifetime::Explicit(Entity::new(1))),
        child(eighth(), Rational::new(1, 4), 2, Lifetime::AutomaticRest),
    ];
    assert!(beam_candidates(&children).is_empty());
}

#[test]
fn spans_group_consecutive_beams() {
    let b = Some(RhythmicBeaming { entering: 0, leaving: 1 });
    let e = Some(RhythmicBeaming { entering: 1, leaving: 0 });
    assert_eq!(beam_spans(&vec![b, e, None, b, e]), vec![(0, 2), (3, 5)]);
    assert_eq!(beam_spans(&vec![None, None]), vec![]);
    assert_eq!(beam_spans(&vec![b, e]), vec![(0, 2)]);
}

#[test]
fn beaming_of_a_run_after_a_quarter() {
    let four_four = Bar::new(Metre::new(4, 4));
    // Two eighths after a quarter: the second beat is one beam group.
    assert_eq!(
        four_four.beaming(Rational::new(1, 4), vec![eighth(), eighth()]),
        vec![
            Some(RhythmicBeaming { entering: 0, leaving: 1 }),
            Some(RhythmicBeaming { entering: 1, leaving: 0 }),
        ]
    );
    // A lone eighth has nothing to join.
    assert_eq!(four_four.beaming(Rational::new(1, 4), vec![eighth()]), vec![None]);
    // A quarter has no beams.
    assert_eq!(
        four_four.beaming(Rational::zero(), vec![quarter(), eighth(), eighth()]),
        vec![
            None,
            Some(RhythmicBeaming { entering: 0, leaving: 1 }),
            Some(RhythmicBeaming { entering: 1, leaving: 0 }),
        ]
    );
}

#[test]
fn split_note_in_twelve_eight_spells_the_whole_note() {
    // Starting on the second dotted quarter, the note takes whole divisions up to 9/8 and
    // the eighth that remains follows.
    let twelve_eight = Bar::new(Metre::new(12, 8));
    assert_eq!(
        twelve_eight.split_note(
            Rational::new(3, 8),
            Duration::exact(Rational::new(7, 8), None)
        ),
        vec![
            Duration::new(NoteValue::Half, 1, None),
            Duration::new(NoteValue::Eighth, 0, None)
        ]
    );
    // From the start of the bar the pieces add up.
    assert_eq!(
        twelve_eight.split_note(Rational::zero(), Duration::exact(Rational::new(7, 8), None)),
        vec![
            Duration::new(NoteValue::Half, 1, None),
            Duration::new(NoteValue::Eighth, 0, None)
        ]
    );
}

#[test]
fn split_note_outside_explicit_notes() {
    let mut four_four = Bar::new(Metre::new(4, 4));
    four_four.splice(
        Rational::new(1, 4),
        vec![(quarter(), Lifetime::Explicit(Entity::new(1)))],
    );
    // Starting inside the explicit quarter: nothing can be placed.
    assert_eq!(four_four.split_note(Rational::new(3, 8), eighth()), vec![]);
    // Reaching into it: cut short where it starts.
    assert_eq!(
        four_four.split_note(Rational::zero(), Duration::new(NoteValue::Half, 0, None)),
        vec![quarter()]
    );
}

#[test]
fn start_defaults_to_the_first_beat() {
    let s = Start::default();
    assert_eq!(s.bar, 0);
    assert_eq!(s.beat, Rational::zero());
    assert_eq!(s.natural_beat, Rational::zero());
}

#[test]
fn bar_child_holds_its_parts() {
    let c = BarChild {
        duration: eighth(),
        start: Rational::new(1, 8),
        lifetime: Lifetime::AutomaticRest,
        stencil: Entity::new(3),
    };
    let d = c;
    assert_eq!(c, d);
    assert_eq!(d.start, Rational::new(1, 8));
    assert_eq!(d.stencil.id(), 3);
}

#[test]
fn split_note_across_the_barline() {
    // A quarter note on the last eighth of a 4/4 bar: an eighth in the bar, and an eighth from
    // the barline on.
    let four_four = Bar::new(Metre::new(4, 4));
    assert_eq!(
        four_four.split_note(Rational::new(7, 8), quarter()),
        vec![eighth(), eighth()]
    );
    // A half note on the last beat is the syncopation written whole.
    assert_eq!(
        four_four.split_note(Rational::new(3, 4), Duration::new(NoteValue::Half, 0, None)),
        vec![Duration::new(NoteValue::Half, 0, None)]
    );
    // A note that starts on the barline stays whole.
    assert_eq!(
        four_four.split_note(Rational::new(1, 1), Duration::new(NoteValue::Half, 0, None)),
        vec![Duration::new(NoteValue::Half, 0, None)]
    );
}

#[test]
fn beam_entities_reuse_then_create() {
    let mut entities = six_eight::entity::EntitiesRes::new();
    let _ = entities.create();
    let free = vec![Entity::new(7), Entity::new(9)];
    let ids = six_eight::rhythmic_beaming::beam_entities(3, &free, &mut entities);
    assert_eq!(ids, vec![Entity::new(7), Entity::new(9), Entity::new(1)]);
    let ids = six_eight::rhythmic_beaming::beam_entities(1, &free, &mut entities);
    assert_eq!(ids, vec![Entity::new(7)]);
    assert_eq!(entities.create(), Entity::new(2));
}

#[test]
fn beaming_a_syncopation_across_the_barline() {
    // Two eighths from the last eighth of a 2/4 bar are spelled as one syncopated quarter, so
    // they share a beam.
    let two_four = Bar::new(Metre::new(2, 4));
    assert_eq!(
        two_four.beaming(Rational::new(3, 8), vec![eighth(), eighth()]),
        vec![
            Some(RhythmicBeaming { entering: 0, leaving: 1 }),
            Some(RhythmicBeaming { entering: 1, leaving: 0 }),
        ]
    );
}

#[test]
fn split_note_of_a_whole_rest() {
    let four_four = Bar::new(Metre::new(4, 4));
    let rest = Duration::new_whole_rest(Rational::new(1, 1));
    // Kept whole at the start of the bar.
    assert_eq!(four_four.split_note(Rational::zero(), rest), vec![rest]);
    // Split into plain pieces elsewhere.
    assert_eq!(
        four_four.split_note(Rational::new(1, 8), Duration::new_whole_rest(Rational::new(1, 2))),
        vec![Duration::new(NoteValue::Quarter, 1, None), eighth()]
    );
}
