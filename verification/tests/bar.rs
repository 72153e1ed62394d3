use six_eight::bar::Bar;
use six_eight::duration::{Duration, NoteValue};
use six_eight::entity::Entity;
use six_eight::lifetime::Lifetime;
use six_eight::metre::Metre;
use six_eight::rational::Rational;
use six_eight::rhythmic_beaming::RhythmicBeaming;

#[test]
fn four_four_quarters() {
    {
        let mut bar = Bar::new(Metre::new(4, 4));
        assert!(bar.whole_rest());
        bar.splice(
            Rational::zero(),
            vec![(
                Duration::new(NoteValue::Quarter, 0, None),
                Lifetime::Explicit(Entity::new(1)),
            )],
        );
        assert_eq!(
            bar.rhythm(),
            &vec![
                (
                    Duration::new(NoteValue::Quarter, 0, None),
                    Lifetime::Explicit(Entity::new(1))
                ),
                (
                    Duration::new(NoteValue::Quarter, 0, None),
                    Lifetime::AutomaticRest
                ),
                (
                    Duration::new(NoteValue::Half, 0, None),
                    Lifetime::AutomaticRest
                ),
            ],
        );
        assert!(!bar.whole_rest());
    }
    {
        let mut bar = Bar::new(Metre::new(4, 4));
        bar.splice(
            Rational::new(1, 4),
            vec![(
                Duration::new(NoteValue::Quarter, 0, None),
                Lifetime::Explicit(Entity::new(1)),
            )],
        );
        assert_eq!(
            bar.rhythm(),
            &vec![
                (
                    Duration::new(NoteValue::Quarter, 0, None),
                    Lifetime::AutomaticRest
                ),
                (
                    Duration::new(NoteValue::Quarter, 0, None),
                    Lifetime::Explicit(Entity::new(1))
                ),
                (
                    Duration::new(NoteValue::Half, 0, None),
                    Lifetime::AutomaticRest
                ),
            ],
        );
    }
    {
        let mut bar = Bar::new(Metre::new(4, 4));
        bar.splice(
            Rational::new(1, 2),
            vec![(
                Duration::new(NoteValue::Quarter, 0, None),
                Lifetime::Explicit(Entity::new(1)),
            )],
        );
        assert_eq!(
            bar.rhythm(),
            &vec![
                (
                    Duration::new(NoteValue::Half, 0, None),
                    Lifetime::AutomaticRest
                ),
                (
                    Duration::new(NoteValue::Quarter, 0, None),
                    Lifetime::Explicit(Entity::new(1))
                ),
                (
                    Duration::new(NoteValue::Quarter, 0, None),
                    Lifetime::AutomaticRest
                ),
            ],
        );
    }
    {
        let mut bar = Bar::new(Metre::new(4, 4));
        bar.splice(
            Rational::new(3, 4),
            vec![
                (
                    Duration::new(NoteValue::Quarter, 0, None),
                    Lifetime::Explicit(Entity::new(1)),
                ),
                (
                    Duration::new(NoteValue::Quarter, 0, None),
                    Lifetime::Explicit(Entity::new(1)),
                ),
            ],
        );
        assert_eq!(
            bar.rhythm(),
            &vec![
                (
                    Duration::new(NoteValue::Half, 0, None),
                    Lifetime::AutomaticRest
                ),
                (
                    Duration::new(NoteValue::Quarter, 0, None),
                    Lifetime::AutomaticRest
                ),
                (
                    Duration::new(NoteValue::Quarter, 0, None),
                    Lifetime::Explicit(Entity::new(1))
                ),
            ],
        );
    }
    {
        let mut bar = Bar::new(Metre::new(4, 4));
        assert!(bar.whole_rest());
        bar.splice(
            Rational::new(4, 4),
            vec![(
                Duration::new(NoteValue::Quarter, 0, None),
                Lifetime::Explicit(Entity::new(1)),
            )],
        );
        assert_eq!(bar.rhythm(), &vec![]);
        assert!(bar.whole_rest());
    }
    {
        let mut bar = Bar::new(Metre::new(4, 4));
        bar.splice(
            Rational::new(1, 4),
            vec![(
                Duration::new(NoteValue::Half, 0, None),
                Lifetime::Explicit(Entity::new(1)),
            )],
        );
        assert_eq!(
            bar.rhythm(),
            &vec![
                (
                    Duration::new(NoteValue::Quarter, 0, None),
                    Lifetime::AutomaticRest
                ),
                (
                    Duration::new(NoteValue::Half, 0, None),
                    Lifetime::Explicit(Entity::new(1))
                ),
                (
                    Duration::new(NoteValue::Quarter, 0, None),
                    Lifetime::AutomaticRest
                ),
            ],
        );
    }
}

#[test]
fn simplify() {
    {
        let mut bar = Bar::new(Metre::new(4, 4));
        bar.splice(
            Rational::new(1, 4),
            vec![(
                Duration::new(NoteValue::Half, 0, None),
                Lifetime::Explicit(Entity::new(1)),
            )],
        );
        bar.splice(
            Rational::new(1, 4),
            vec![(
                Duration::new(NoteValue::Half, 0, None),
                Lifetime::AutomaticRest,
            )],
        );
        assert_eq!(bar.rhythm(), &vec![],);
    }

    {
        let mut bar = Bar::new(Metre::new(4, 4));
        bar.splice(
            Rational::new(1, 4),
            vec![(
                Duration::new(NoteValue::Half, 0, None),
                Lifetime::Explicit(Entity::new(1)),
            )],
        );
        bar.splice(
            Rational::new(3, 8),
            vec![(
                Duration::new(NoteValue::Eighth, 0, None),
                Lifetime::AutomaticRest,
            )],
        );
        assert_eq!(
            bar.rhythm(),
            &vec![
                (
                    Duration::new(NoteValue::Quarter, 0, None),
                    Lifetime::AutomaticRest
                ),
                (
                    Duration::new(NoteValue::Eighth, 0, None),
                    Lifetime::Explicit(Entity::new(1))
                ),
                (
                    Duration::new(NoteValue::Eighth, 0, None),
                    Lifetime::AutomaticRest
                ),
                (
                    Duration::new(NoteValue::Half, 0, None),
                    Lifetime::AutomaticRest
                ),
            ],
        );
    }

    {
        let mut bar = Bar::new(Metre::new(4, 4));
        bar.splice(
            Rational::new(1, 4),
            vec![(
                Duration::new(NoteValue::Half, 0, None),
                Lifetime::Explicit(Entity::new(1)),
            )],
        );
        bar.splice(
            Rational::new(5, 8),
            vec![(
                Duration::new(NoteValue::Eighth, 0, None),
                Lifetime::AutomaticRest,
            )],
        );
        // This is not a good rhythm, but we do not adjust explicit rhythms.
        assert_eq!(
            bar.rhythm(),
            &vec![
                (
                    Duration::new(NoteValue::Quarter, 0, None),
                    Lifetime::AutomaticRest
                ),
                (
                    Duration::new(NoteValue::Quarter, 1, None),
                    Lifetime::Explicit(Entity::new(1))
                ),
                (
                    Duration::new(NoteValue::Eighth, 0, None),
                    Lifetime::AutomaticRest
                ),
                (
                    Duration::new(NoteValue::Quarter, 0, None),
                    Lifetime::AutomaticRest
                ),
            ],
        );
    }

    {
        let mut bar = Bar::new(Metre::new(4, 4));
        bar.splice(
            Rational::new(0, 1),
            vec![(
                Duration::new(NoteValue::Half, 0, None),
                Lifetime::Explicit(Entity::new(1)),
            )],
        );
        bar.splice(
            Rational::new(1, 8),
            vec![(
                Duration::new(NoteValue::Eighth, 0, None),
                Lifetime::Explicit(Entity::new(1)),
            )],
        );
        bar.splice(
            Rational::new(2, 8),
            vec![(
                Duration::new(NoteValue::Eighth, 0, None),
                Lifetime::Explicit(Entity::new(1)),
            )],
        );
        bar.splice(
            Rational::new(3, 8),
            vec![(
                Duration::new(NoteValue::Eighth, 0, None),
                Lifetime::Explicit(Entity::new(1)),
            )],
        );
        bar.splice(
            Rational::new(1, 8),
            vec![(
                Duration::new(NoteValue::Eighth, 0, None),
                Lifetime::AutomaticRest,
            )],
        );
        bar.splice(
            Rational::new(2, 8),
            vec![(
                Duration::new(NoteValue::Eighth, 0, None),
                Lifetime::AutomaticRest,
            )],
        );
        bar.splice(
            Rational::new(3, 8),
            vec![(
                Duration::new(NoteValue::Eighth, 0, None),
                Lifetime::AutomaticRest,
            )],
        );
        assert_eq!(
            bar.rhythm(),
            &vec![
                (
                    Duration::new(NoteValue::Eighth, 0, None),
                    Lifetime::Explicit(Entity::new(1))
                ),
                (
                    Duration::new(NoteValue::Eighth, 0, None),
                    Lifetime::AutomaticRest
                ),
                (
                    Duration::new(NoteValue::Quarter, 0, None),
                    Lifetime::AutomaticRest
                ),
                (
                    Duration::new(NoteValue::Half, 0, None),
                    Lifetime::AutomaticRest
                ),
            ],
        );
    }
}

#[test]
fn simple_time_exposes_middle() {
    // From Beyond Bars, by Elaine Gould (2011), p. 161

    for bar in &mut [Bar::new(Metre::new(4, 8)), Bar::new(Metre::new(2, 4))] {
        bar.splice(
            Rational::new(3, 8),
            vec![(
                Duration::new(NoteValue::Eighth, 0, None),
                Lifetime::Explicit(Entity::new(1)),
            )],
        );
        assert_eq!(
            bar.rhythm(),
            &vec![
                (
                    Duration::new(NoteValue::Quarter, 0, None),
                    Lifetime::AutomaticRest
                ),
                (
                    Duration::new(NoteValue::Eighth, 0, None),
                    Lifetime::AutomaticRest
                ),
                (
                    Duration::new(NoteValue::Eighth, 0, None),
                    Lifetime::Explicit(Entity::new(1))
                ),
            ],
        );
    }

    for bar in &mut [Bar::new(Metre::new(4, 8)), Bar::new(Metre::new(2, 4))] {
        bar.splice(
            Rational::zero(),
            vec![(
                Duration::new(NoteValue::Eighth, 0, None),
                Lifetime::Explicit(Entity::new(1)),
            )],
        );
        bar.splice(
            Rational::new(3, 8),
            vec![(
                Duration::new(NoteValue::Eighth, 0, None),
                Lifetime::Explicit(Entity::new(1)),
            )],
        );
        assert_eq!(
            bar.rhythm(),
            &vec![
                (
                    Duration::new(NoteValue::Eighth, 0, None),
                    Lifetime::Explicit(Entity::new(1))
                ),
                (
                    Duration::new(NoteValue::Eighth, 0, None),
                    Lifetime::AutomaticRest
                ),
                (
                    Duration::new(NoteValue::Eighth, 0, None),
                    Lifetime::AutomaticRest
                ),
                (
                    Duration::new(NoteValue::Eighth, 0, None),
                    Lifetime::Explicit(Entity::new(1))
                ),
            ],
        );
    }
    for bar in &mut [Bar::new(Metre::new(4, 8)), Bar::new(Metre::new(2, 4))] {
        bar.splice(
            Rational::zero(),
            vec![(
                Duration::new(NoteValue::Eighth, 0, None),
                Lifetime::Explicit(Entity::new(1)),
            )],
        );
        assert_eq!(
            bar.rhythm(),
            &vec![
                (
                    Duration::new(NoteValue::Eighth, 0, None),
                    Lifetime::Explicit(Entity::new(1))
                ),
                (
                    Duration::new(NoteValue::Eighth, 0, None),
                    Lifetime::AutomaticRest
                ),
                (
                    Duration::new(NoteValue::Quarter, 0, None),
                    Lifetime::AutomaticRest
                ),
            ],
        );
    }

    for bar in &mut [Bar::new(Metre::new(4, 4)), Bar::new(Metre::new(2, 2))] {
        bar.splice(
            Rational::new(3, 4),
            vec![(
                Duration::new(NoteValue::Quarter, 0, None),
                Lifetime::Explicit(Entity::new(1)),
            )],
        );
        assert_eq!(
            bar.rhythm(),
            &vec![
                (
                    Duration::new(NoteValue::Half, 0, None),
                    Lifetime::AutomaticRest
                ),
                (
                    Duration::new(NoteValue::Quarter, 0, None),
                    Lifetime::AutomaticRest
                ),
                (
                    Duration::new(NoteValue::Quarter, 0, None),
                    Lifetime::Explicit(Entity::new(1))
                ),
            ],
        );
    }

    for bar in &mut [Bar::new(Metre::new(4, 4)), Bar::new(Metre::new(2, 2))] {
        bar.splice(
            Rational::zero(),
            vec![(
                Duration::new(NoteValue::Quarter, 0, None),
                Lifetime::Explicit(Entity::new(1)),
            )],
        );
        bar.splice(
            Rational::new(3, 4),
            vec![(
                Duration::new(NoteValue::Quarter, 0, None),
                Lifetime::Explicit(Entity::new(1)),
            )],
        );
        assert_eq!(
            bar.rhythm(),
            &vec![
                (
                    Duration::new(NoteValue::Quarter, 0, None),
                    Lifetime::Explicit(Entity::new(1))
                ),
                (
                    Duration::new(NoteValue::Quarter, 0, None),
                    Lifetime::AutomaticRest
                ),
                (
                    Duration::new(NoteValue::Quarter, 0, None),
                    Lifetime::AutomaticRest
                ),
                (
                    Duration::new(NoteValue::Quarter, 0, None),
                    Lifetime::Explicit(Entity::new(1))
                ),
            ],
        );
    }
    for bar in &mut [Bar::new(Metre::new(4, 4)), Bar::new(Metre::new(2, 2))] {
        bar.splice(
            Rational::zero(),
            vec![(
                Duration::new(NoteValue::Quarter, 0, None),
                Lifetime::Explicit(Entity::new(1)),
            )],
        );
        assert_eq!(
            bar.rhythm(),
            &vec![
                (
                    Duration::new(NoteValue::Quarter, 0, None),
                    Lifetime::Explicit(Entity::new(1))
                ),
                (
                    Duration::new(NoteValue::Quarter, 0, None),
                    Lifetime::AutomaticRest
                ),
                (
                    Duration::new(NoteValue::Half, 0, None),
                    Lifetime::AutomaticRest
                ),
            ],
        );
    }
}

#[test]
fn compound_time_exposes_middle() {
    // From Beyond Bars, by Elaine Gould (2011), p. 161

    {
        let mut bar = Bar::new(Metre::new(6, 16));
        bar.splice(
            Rational::new(5, 16),
            vec![(
                Duration::new(NoteValue::Sixteenth, 0, None),
                Lifetime::Explicit(Entity::new(1)),
            )],
        );
        assert_eq!(
            bar.rhythm(),
            &vec![
                (
                    Duration::new(NoteValue::Eighth, 1, None),
                    Lifetime::AutomaticRest
                ),
                (
                    Duration::new(NoteValue::Eighth, 0, None),
                    Lifetime::AutomaticRest
                ),
                (
                    Duration::new(NoteValue::Sixteenth, 0, None),
                    Lifetime::Explicit(Entity::new(1))
                ),
            ],
        );
    }
    {
        let mut bar = Bar::new(Metre::new(6, 16));
        bar.splice(
            Rational::zero(),
            vec![(
                Duration::new(NoteValue::Eighth, 0, None),
                Lifetime::Explicit(Entity::new(1)),
            )],
        );
        bar.splice(
            Rational::new(4, 16),
            vec![(
                Duration::new(NoteValue::Eighth, 0, None),
                Lifetime::Explicit(Entity::new(1)),
            )],
        );
        assert_eq!(
            bar.rhythm(),
            &vec![
                (
                    Duration::new(NoteValue::Eighth, 0, None),
                    Lifetime::Explicit(Entity::new(1))
                ),
                (
                    Duration::new(NoteValue::Sixteenth, 0, None),
                    Lifetime::AutomaticRest
                ),
                (
                    Duration::new(NoteValue::Sixteenth, 0, None),
                    Lifetime::AutomaticRest
                ),
                (
                    Duration::new(NoteValue::Eighth, 0, None),
                    Lifetime::Explicit(Entity::new(1))
                ),
            ],
        );
    }
    {
        let mut bar = Bar::new(Metre::new(6, 16));
        bar.splice(
            Rational::zero(),
            vec![(
                Duration::new(NoteValue::Sixteenth, 0, None),
                Lifetime::Explicit(Entity::new(1)),
            )],
        );
        assert_eq!(
            bar.rhythm(),
            &vec![
                (
                    Duration::new(NoteValue::Sixteenth, 0, None),
                    Lifetime::Explicit(Entity::new(1))
                ),
                (
                    Duration::new(NoteValue::Sixteenth, 0, None),
                    Lifetime::AutomaticRest
                ),
                (
                    Duration::new(NoteValue::Sixteenth, 0, None),
                    Lifetime::AutomaticRest
                ),
                (
                    Duration::new(NoteValue::Eighth, 1, None),
                    Lifetime::AutomaticRest
                ),
            ],
        );
    }

    {
        let mut bar = Bar::new(Metre::new(6, 8));
        bar.splice(
            Rational::new(5, 8),
            vec![(
                Duration::new(NoteValue::Eighth, 0, None),
                Lifetime::Explicit(Entity::new(1)),
            )],
        );
        assert_eq!(
            bar.rhythm(),
            &vec![
                (
                    Duration::new(NoteValue::Quarter, 1, None),
                    Lifetime::AutomaticRest
                ),
                (
                    Duration::new(NoteValue::Quarter, 0, None),
                    Lifetime::AutomaticRest
                ),
                (
                    Duration::new(NoteValue::Eighth, 0, None),
                    Lifetime::Explicit(Entity::new(1))
                ),
            ],
        );
    }
    {
        let mut bar = Bar::new(Metre::new(6, 8));
        bar.splice(
            Rational::zero(),
            vec![(
                Duration::new(NoteValue::Quarter, 0, None),
                Lifetime::Explicit(Entity::new(1)),
            )],
        );
        bar.splice(
            Rational::new(4, 8),
            vec![(
                Duration::new(NoteValue::Quarter, 0, None),
                Lifetime::Explicit(Entity::new(1)),
            )],
        );
        assert_eq!(
            bar.rhythm(),
            &vec![
                (
                    Duration::new(NoteValue::Quarter, 0, None),
                    Lifetime::Explicit(Entity::new(1))
                ),
                (
                    Duration::new(NoteValue::Eighth, 0, None),
                    Lifetime::AutomaticRest
                ),
                (
                    Duration::new(NoteValue::Eighth, 0, None),
                    Lifetime::AutomaticRest
                ),
                (
                    Duration::new(NoteValue::Quarter, 0, None),
                    Lifetime::Explicit(Entity::new(1))
                ),
            ],
        );
    }
    {
        let mut bar = Bar::new(Metre::new(6, 8));
        bar.splice(
            Rational::zero(),
            vec![(
                Duration::new(NoteValue::Eighth, 0, None),
                Lifetime::Explicit(Entity::new(1)),
            )],
        );
        assert_eq!(
            bar.rhythm(),
            &vec![
                (
                    Duration::new(NoteValue::Eighth, 0, None),
                    Lifetime::Explicit(Entity::new(1))
                ),
                (
                    Duration::new(NoteValue::Eighth, 0, None),
                    Lifetime::AutomaticRest
                ),
                (
                    Duration::new(NoteValue::Eighth, 0, None),
                    Lifetime::AutomaticRest
                ),
                (
                    Duration::new(NoteValue::Quarter, 1, None),
                    Lifetime::AutomaticRest
                ),
            ],
        );
    }

    {
        let mut bar = Bar::new(Metre::new(6, 4));
        bar.splice(
            Rational::new(5, 4),
            vec![(
                Duration::new(NoteValue::Quarter, 0, None),
                Lifetime::Explicit(Entity::new(1)),
            )],
        );
        assert_eq!(
            bar.rhythm(),
            &vec![
                (
                    Duration::new(NoteValue::Half, 1, None),
                    Lifetime::AutomaticRest
                ),
                (
                    Duration::new(NoteValue::Half, 0, None),
                    Lifetime::AutomaticRest
                ),
                (
                    Duration::new(NoteValue::Quarter, 0, None),
                    Lifetime::Explicit(Entity::new(1))
                ),
            ],
        );
    }
    {
        let mut bar = Bar::new(Metre::new(6, 4));
        bar.splice(
            Rational::zero(),
            vec![(
                Duration::new(NoteValue::Half, 0, None),
                Lifetime::Explicit(Entity::new(1)),
            )],
        );
        bar.splice(
            Rational::new(4, 4),
            vec![(
                Duration::new(NoteValue::Half, 0, None),
                Lifetime::Explicit(Entity::new(1)),
            )],
        );
        assert_eq!(
            bar.rhythm(),
            &vec![
                (
                    Duration::new(NoteValue::Half, 0, None),
                    Lifetime::Explicit(Entity::new(1))
                ),
                (
                    Duration::new(NoteValue::Quarter, 0, None),
                    Lifetime::AutomaticRest
                ),
                (
                    Duration::new(NoteValue::Quarter, 0, None),
                    Lifetime::AutomaticRest
                ),
                (
                    Duration::new(NoteValue::Half, 0, None),
                    Lifetime::Explicit(Entity::new(1))
                ),
            ],
        );
    }
    {
        let mut bar = Bar::new(Metre::new(6, 4));
        bar.splice(
            Rational::zero(),
            vec![(
                Duration::new(NoteValue::Quarter, 0, None),
                Lifetime::Explicit(Entity::new(1)),
            )],
        );
        assert_eq!(
            bar.rhythm(),
            &vec![
                (
                    Duration::new(NoteValue::Quarter, 0, None),
                    Lifetime::Explicit(Entity::new(1))
                ),
                (
                    Duration::new(NoteValue::Quarter, 0, None),
                    Lifetime::AutomaticRest
                ),
                (
                    Duration::new(NoteValue::Quarter, 0, None),
                    Lifetime::AutomaticRest
                ),
                (
                    Duration::new(NoteValue::Half, 1, None),
                    Lifetime::AutomaticRest
                ),
            ],
        );
    }

    {
        let mut bar = Bar::new(Metre::new(12, 8));
        bar.splice(
            Rational::new(11, 8),
            vec![(
                Duration::new(NoteValue::Eighth, 0, None),
                Lifetime::Explicit(Entity::new(1)),
            )],
        );
        assert_eq!(
            bar.rhythm(),
            &vec![
                (
                    Duration::new(NoteValue::Half, 1, None),
                    Lifetime::AutomaticRest
                ),
                (
                    Duration::new(NoteValue::Quarter, 1, None),
                    Lifetime::AutomaticRest
                ),
                (
                    Duration::new(NoteValue::Quarter, 0, None),
                    Lifetime::AutomaticRest
                ),
                (
                    Duration::new(NoteValue::Eighth, 0, None),
                    Lifetime::Explicit(Entity::new(1))
                ),
            ],
        );
    }
}

#[test]
fn three_shows_all_beats() {
    // From Beyond Bars, by Elaine Gould (2011), p. 161

    {
        let mut bar = Bar::new(Metre::new(3, 4));
        bar.splice(
            Rational::new(2, 4),
            vec![(
                Duration::new(NoteValue::Quarter, 0, None),
                Lifetime::Explicit(Entity::new(1)),
            )],
        );
        assert_eq!(
            bar.rhythm(),
            &vec![
                (
                    Duration::new(NoteValue::Quarter, 0, None),
                    Lifetime::AutomaticRest
                ),
                (
                    Duration::new(NoteValue::Quarter, 0, None),
                    Lifetime::AutomaticRest
                ),
                (
                    Duration::new(NoteValue::Quarter, 0, None),
                    Lifetime::Explicit(Entity::new(1))
                ),
            ],
        );
    }

    {
        let mut bar = Bar::new(Metre::new(3, 8));
        bar.splice(
            Rational::new(2, 8),
            vec![(
                Duration::new(NoteValue::Eighth, 0, None),
                Lifetime::Explicit(Entity::new(1)),
            )],
        );
        assert_eq!(
            bar.rhythm(),
            &vec![
                (
                    Duration::new(NoteValue::Eighth, 0, None),
                    Lifetime::AutomaticRest
                ),
                (
                    Duration::new(NoteValue::Eighth, 0, None),
                    Lifetime::AutomaticRest
                ),
                (
                    Duration::new(NoteValue::Eighth, 0, None),
                    Lifetime::Explicit(Entity::new(1))
                ),
            ],
        );
    }

    {
        let mut bar = Bar::new(Metre::new(9, 8));
        bar.splice(
            Rational::new(6, 8),
            vec![(
                Duration::new(NoteValue::Quarter, 1, None),
                Lifetime::Explicit(Entity::new(1)),
            )],
        );
        assert_eq!(
            bar.rhythm(),
            &vec![
                (
                    Duration::new(NoteValue::Quarter, 1, None),
                    Lifetime::AutomaticRest
                ),
                (
                    Duration::new(NoteValue::Quarter, 1, None),
                    Lifetime::AutomaticRest
                ),
                (
                    Duration::new(NoteValue::Quarter, 1, None),
                    Lifetime::Explicit(Entity::new(1))
                ),
            ],
        );
    }
}

#[test]
fn dotted_rests() {
    // From Beyond Bars, by Elaine Gould (2011), p. 161

    {
        let mut bar = Bar::new(Metre::new(2, 4));
        bar.splice(
            Rational::new(3, 16),
            vec![(
                Duration::new(NoteValue::Sixteenth, 0, None),
                Lifetime::Explicit(Entity::new(1)),
            )],
        );
        bar.splice(
            Rational::new(7, 16),
            vec![(
                Duration::new(NoteValue::Sixteenth, 0, None),
                Lifetime::Explicit(Entity::new(1)),
            )],
        );
        assert_eq!(
            bar.rhythm(),
            &vec![
                (
                    Duration::new(NoteValue::Eighth, 1, None),
                    Lifetime::AutomaticRest
                ),
                (
                    Duration::new(NoteValue::Sixteenth, 0, None),
                    Lifetime::Explicit(Entity::new(1))
                ),
                (
                    Duration::new(NoteValue::Eighth, 1, None),
                    Lifetime::AutomaticRest
                ),
                (
                    Duration::new(NoteValue::Sixteenth, 0, None),
                    Lifetime::Explicit(Entity::new(1))
                ),
            ],
        );
    }

    {
        let mut bar = Bar::new(Metre::new(9, 8));
        bar.splice(
            Rational::new(8, 8),
            vec![(
                Duration::new(NoteValue::Eighth, 0, None),
                Lifetime::Explicit(Entity::new(1)),
            )],
        );
        assert_eq!(
            bar.rhythm(),
            &vec![
                (
                    Duration::new(NoteValue::Quarter, 1, None),
                    Lifetime::AutomaticRest
                ),
                (
                    Duration::new(NoteValue::Quarter, 1, None),
                    Lifetime::AutomaticRest
                ),
                (
                    Duration::new(NoteValue::Quarter, 0, None),
                    Lifetime::AutomaticRest
                ),
                (
                    Duration::new(NoteValue::Eighth, 0, None),
                    Lifetime::Explicit(Entity::new(1))
                ),
            ],
        );
    }
}

#[test]
fn no_dotted_rests_at_end_of_simple_time_beat() {
    // From Beyond Bars, by Elaine Gould (2011), p. 162

    {
        let mut bar = Bar::new(Metre::new(2, 4));
        bar.splice(
            Rational::new(3, 16),
            vec![(
                Duration::new(NoteValue::Sixteenth, 0, None),
                Lifetime::Explicit(Entity::new(1)),
            )],
        );
        bar.splice(
            Rational::new(4, 16),
            vec![(
                Duration::new(NoteValue::Sixteenth, 0, None),
                Lifetime::Explicit(Entity::new(1)),
            )],
        );
        assert_eq!(
            bar.rhythm(),
            &vec![
                (
                    Duration::new(NoteValue::Eighth, 1, None),
                    Lifetime::AutomaticRest
                ),
                (
                    Duration::new(NoteValue::Sixteenth, 0, None),
                    Lifetime::Explicit(Entity::new(1))
                ),
                (
                    Duration::new(NoteValue::Sixteenth, 0, None),
                    Lifetime::Explicit(Entity::new(1))
                ),
                (
                    Duration::new(NoteValue::Sixteenth, 0, None),
                    Lifetime::AutomaticRest
                ),
                (
                    Duration::new(NoteValue::Eighth, 0, None),
                    Lifetime::AutomaticRest
                ),
            ],
        );
    }
    {
        let mut bar = Bar::new(Metre::new(2, 2));
        bar.splice(
            Rational::new(3, 8),
            vec![(
                Duration::new(NoteValue::Eighth, 0, None),
                Lifetime::Explicit(Entity::new(1)),
            )],
        );
        bar.splice(
            Rational::new(4, 8),
            vec![(
                Duration::new(NoteValue::Eighth, 0, None),
                Lifetime::Explicit(Entity::new(1)),
            )],
        );
        assert_eq!(
            bar.rhythm(),
            &vec![
                (
                    Duration::new(NoteValue::Quarter, 1, None),
                    Lifetime::AutomaticRest
                ),
                (
                    Duration::new(NoteValue::Eighth, 0, None),
                    Lifetime::Explicit(Entity::new(1))
                ),
                (
                    Duration::new(NoteValue::Eighth, 0, None),
                    Lifetime::Explicit(Entity::new(1))
                ),
                (
                    Duration::new(NoteValue::Eighth, 0, None),
                    Lifetime::AutomaticRest
                ),
                (
                    Duration::new(NoteValue::Quarter, 0, None),
                    Lifetime::AutomaticRest
                ),
            ],
        );
    }
}

#[test]
fn maximum_dotted_rest() {
    // From Beyond Bars, by Elaine Gould (2011), p. 162

    {
        let mut bar = Bar::new(Metre::new(4, 4));
        bar.splice(
            Rational::new(7, 8),
            vec![(
                Duration::new(NoteValue::Eighth, 0, None),
                Lifetime::Explicit(Entity::new(1)),
            )],
        );
        assert_eq!(
            bar.rhythm(),
            &vec![
                (
                    Duration::new(NoteValue::Half, 0, None),
                    Lifetime::AutomaticRest
                ),
                (
                    Duration::new(NoteValue::Quarter, 0, None),
                    Lifetime::AutomaticRest
                ),
                (
                    Duration::new(NoteValue::Eighth, 0, None),
                    Lifetime::AutomaticRest
                ),
                (
                    Duration::new(NoteValue::Eighth, 0, None),
                    Lifetime::Explicit(Entity::new(1))
                ),
            ],
        );
    }

    {
        let mut bar = Bar::new(Metre::new(4, 4));
        bar.splice(
            Rational::new(3, 16),
            vec![(
                Duration::new(NoteValue::Sixteenth, 0, None),
                Lifetime::Explicit(Entity::new(1)),
            )],
        );
        assert_eq!(
            bar.rhythm(),
            &vec![
                (
                    Duration::new(NoteValue::Eighth, 1, None),
                    Lifetime::AutomaticRest
                ),
                (
                    Duration::new(NoteValue::Sixteenth, 0, None),
                    Lifetime::Explicit(Entity::new(1))
                ),
                (
                    Duration::new(NoteValue::Quarter, 0, None),
                    Lifetime::AutomaticRest
                ),
                (
                    Duration::new(NoteValue::Half, 0, None),
                    Lifetime::AutomaticRest
                ),
            ],
        );
    }

    {
        let mut bar = Bar::new(Metre::new(2, 2));
        bar.splice(
            Rational::new(3, 8),
            vec![(
                Duration::new(NoteValue::Eighth, 0, None),
                Lifetime::Explicit(Entity::new(1)),
            )],
        );
        bar.splice(
            Rational::new(7, 8),
            vec![(
                Duration::new(NoteValue::Eighth, 0, None),
                Lifetime::Explicit(Entity::new(1)),
            )],
        );
        assert_eq!(
            bar.rhythm(),
            &vec![
                (
                    Duration::new(NoteValue::Quarter, 1, None),
                    Lifetime::AutomaticRest
                ),
                (
                    Duration::new(NoteValue::Eighth, 0, None),
                    Lifetime::Explicit(Entity::new(1))
                ),
                (
                    Duration::new(NoteValue::Quarter, 1, None),
                    Lifetime::AutomaticRest
                ),
                (
                    Duration::new(NoteValue::Eighth, 0, None),
                    Lifetime::Explicit(Entity::new(1))
                ),
            ],
        );
    }

    {
        let mut bar = Bar::new(Metre::new(2, 2));
        bar.splice(
            Rational::zero(),
            vec![(
                Duration::new(NoteValue::Eighth, 0, None),
                Lifetime::Explicit(Entity::new(1)),
            )],
        );
        assert_eq!(
            bar.rhythm(),
            &vec![
                (
                    Duration::new(NoteValue::Eighth, 0, None),
                    Lifetime::Explicit(Entity::new(1))
                ),
                (
                    Duration::new(NoteValue::Eighth, 0, None),
                    Lifetime::AutomaticRest
                ),
                (
                    Duration::new(NoteValue::Quarter, 0, None),
                    Lifetime::AutomaticRest
                ),
                (
                    Duration::new(NoteValue::Half, 0, None),
                    Lifetime::AutomaticRest
                ),
            ],
        );
    }
}

#[test]
fn double_dotted_rest() {
    // From Beyond Bars, by Elaine Gould (2011), p. 162

    {
        let mut bar = Bar::new(Metre::new(2, 4));
        bar.splice(
            Rational::new(7, 32),
            vec![(
                Duration::new(NoteValue::ThirtySecond, 0, None),
                Lifetime::Explicit(Entity::new(1)),
            )],
        );
        assert_eq!(
            bar.rhythm(),
            &vec![
                (
                    Duration::new(NoteValue::Eighth, 2, None),
                    Lifetime::AutomaticRest
                ),
                (
                    Duration::new(NoteValue::ThirtySecond, 0, None),
                    Lifetime::Explicit(Entity::new(1))
                ),
                (
                    Duration::new(NoteValue::Quarter, 0, None),
                    Lifetime::AutomaticRest
                ),
            ],
        );
    }

    {
        let mut bar = Bar::new(Metre::new(2, 4));
        bar.splice(
            Rational::new(7, 32),
            vec![(
                Duration::new(NoteValue::ThirtySecond, 0, None),
                Lifetime::Explicit(Entity::new(1)),
            )],
        );
        bar.splice(
            Rational::new(8, 32),
            vec![(
                Duration::new(NoteValue::ThirtySecond, 0, None),
                Lifetime::Explicit(Entity::new(1)),
            )],
        );
        assert_eq!(
            bar.rhythm(),
            &vec![
                (
                    Duration::new(NoteValue::Eighth, 2, None),
                    Lifetime::AutomaticRest
                ),
                (
                    Duration::new(NoteValue::ThirtySecond, 0, None),
                    Lifetime::Explicit(Entity::new(1))
                ),
                (
                    Duration::new(NoteValue::ThirtySecond, 0, None),
                    Lifetime::Explicit(Entity::new(1))
                ),
                (
                    Duration::new(NoteValue::ThirtySecond, 0, None),
                    Lifetime::AutomaticRest
                ),
                (
                    Duration::new(NoteValue::Sixteenth, 0, None),
                    Lifetime::AutomaticRest
                ),
                (
                    Duration::new(NoteValue::Eighth, 0, None),
                    Lifetime::AutomaticRest
                ),
            ],
        );
    }
}

#[test]
fn expose_middle_of_beat() {
    // From Beyond Bars, by Elaine Gould (2011), p. 163

    {
        let mut bar = Bar::new(Metre::new(2, 4));
        bar.splice(
            Rational::zero(),
            vec![(
                Duration::new(NoteValue::ThirtySecond, 0, None),
                Lifetime::Explicit(Entity::new(1)),
            )],
        );
        bar.splice(
            Rational::new(7, 32),
            vec![(
                Duration::new(NoteValue::ThirtySecond, 0, None),
                Lifetime::Explicit(Entity::new(1)),
            )],
        );
        assert_eq!(
            bar.rhythm(),
            &vec![
                (
                    Duration::new(NoteValue::ThirtySecond, 0, None),
                    Lifetime::Explicit(Entity::new(1))
                ),
                (
                    Duration::new(NoteValue::ThirtySecond, 0, None),
                    Lifetime::AutomaticRest
                ),
                (
                    Duration::new(NoteValue::Sixteenth, 0, None),
                    Lifetime::AutomaticRest
                ),
                (
                    Duration::new(NoteValue::Sixteenth, 1, None),
                    Lifetime::AutomaticRest
                ),
                (
                    Duration::new(NoteValue::ThirtySecond, 0, None),
                    Lifetime::Explicit(Entity::new(1))
                ),
                (
                    Duration::new(NoteValue::Quarter, 0, None),
                    Lifetime::AutomaticRest
                ),
            ],
        );
    }
}

#[test]
fn compound_combine_segments() {
    // From Beyond Bars, by Elaine Gould (2011), p. 163

    {
        let mut bar = Bar::new(Metre::new(12, 8));
        bar.splice(
            Rational::new(9, 8),
            vec![(
                Duration::new(NoteValue::Quarter, 1, None),
                Lifetime::Explicit(Entity::new(1)),
            )],
        );
        assert_eq!(
            bar.rhythm(),
            &vec![
                (
                    Duration::new(NoteValue::Half, 1, None),
                    Lifetime::AutomaticRest
                ),
                (
                    Duration::new(NoteValue::Quarter, 1, None),
                    Lifetime::AutomaticRest
                ),
                (
                    Duration::new(NoteValue::Quarter, 1, None),
                    Lifetime::Explicit(Entity::new(1))
                ),
            ],
        );
    }

    {
        let mut bar = Bar::new(Metre::new(12, 8));
        bar.splice(
            Rational::zero(),
            vec![(
                Duration::new(NoteValue::Quarter, 1, None),
                Lifetime::Explicit(Entity::new(1)),
            )],
        );
        assert_eq!(
            bar.rhythm(),
            &vec![
                (
                    Duration::new(NoteValue::Quarter, 1, None),
                    Lifetime::Explicit(Entity::new(1))
                ),
                (
                    Duration::new(NoteValue::Quarter, 1, None),
                    Lifetime::AutomaticRest
                ),
                (
                    Duration::new(NoteValue::Half, 1, None),
                    Lifetime::AutomaticRest
                ),
            ],
        );
    }
}

#[test]
fn compound_combine_start() {
    // From Beyond Bars, by Elaine Gould (2011), p. 163

    {
        let mut bar = Bar::new(Metre::new(6, 8));
        bar.splice(
            Rational::new(1, 4),
            vec![(
                Duration::new(NoteValue::Eighth, 0, None),
                Lifetime::Explicit(Entity::new(1)),
            )],
        );
        bar.splice(
            Rational::new(5, 8),
            vec![(
                Duration::new(NoteValue::Eighth, 0, None),
                Lifetime::Explicit(Entity::new(1)),
            )],
        );
        assert_eq!(
            bar.rhythm(),
            &vec![
                (
                    Duration::new(NoteValue::Quarter, 0, None),
                    Lifetime::AutomaticRest
                ),
                (
                    Duration::new(NoteValue::Eighth, 0, None),
                    Lifetime::Explicit(Entity::new(1))
                ),
                (
                    Duration::new(NoteValue::Quarter, 0, None),
                    Lifetime::AutomaticRest
                ),
                (
                    Duration::new(NoteValue::Eighth, 0, None),
                    Lifetime::Explicit(Entity::new(1))
                ),
            ],
        );
    }

    {
        let mut bar = Bar::new(Metre::new(6, 8));
        bar.splice(
            Rational::new(5, 16),
            vec![(
                Duration::new(NoteValue::Sixteenth, 0, None),
                Lifetime::Explicit(Entity::new(1)),
            )],
        );
        assert_eq!(
            bar.rhythm(),
            &vec![
                (
                    Duration::new(NoteValue::Eighth, 0, None),
                    Lifetime::AutomaticRest
                ),
                (
                    Duration::new(NoteValue::Eighth, 1, None),
                    Lifetime::AutomaticRest
                ),
                (
                    Duration::new(NoteValue::Sixteenth, 0, None),
                    Lifetime::Explicit(Entity::new(1))
                ),
                (
                    Duration::new(NoteValue::Quarter, 1, None),
                    Lifetime::AutomaticRest
                ),
            ],
        );
    }
}

#[test]
fn compound_spell_out_later_beats() {
    // From Beyond Bars, by Elaine Gould (2011), p. 163
    {
        let mut bar = Bar::new(Metre::new(6, 8));
        bar.splice(
            Rational::zero(),
            vec![(
                Duration::new(NoteValue::Eighth, 0, None),
                Lifetime::Explicit(Entity::new(1)),
            )],
        );
        bar.splice(
            Rational::new(3, 8),
            vec![(
                Duration::new(NoteValue::Sixteenth, 0, None),
                Lifetime::Explicit(Entity::new(1)),
            )],
        );
        assert_eq!(
            bar.rhythm(),
            &vec![
                (
                    Duration::new(NoteValue::Eighth, 0, None),
                    Lifetime::Explicit(Entity::new(1))
                ),
                (
                    Duration::new(NoteValue::Eighth, 0, None),
                    Lifetime::AutomaticRest
                ),
                (
                    Duration::new(NoteValue::Eighth, 0, None),
                    Lifetime::AutomaticRest
                ),
                (
                    Duration::new(NoteValue::Sixteenth, 0, None),
                    Lifetime::Explicit(Entity::new(1))
                ),
                (
                    Duration::new(NoteValue::Sixteenth, 0, None),
                    Lifetime::AutomaticRest
                ),
                (
                    Duration::new(NoteValue::Eighth, 0, None),
                    Lifetime::AutomaticRest
                ),
                (
                    Duration::new(NoteValue::Eighth, 0, None),
                    Lifetime::AutomaticRest
                ),
            ],
        );
    }
}

#[test]
fn overfill() {
    let mut bar = Bar::new(Metre::new(4, 4));
    bar.splice(
        Rational::new(3, 4),
        vec![(
            Duration::new(NoteValue::Half, 0, None),
            Lifetime::Explicit(Entity::new(1)),
        )],
    );
    assert_eq!(
        bar.rhythm(),
        &vec![
            (
                Duration::new(NoteValue::Half, 0, None),
                Lifetime::AutomaticRest
            ),
            (
                Duration::new(NoteValue::Quarter, 0, None),
                Lifetime::AutomaticRest
            ),
            (
                Duration::new(NoteValue::Quarter, 0, None),
                Lifetime::Explicit(Entity::new(1))
            ),
        ],
    );
}

#[test]
fn compound_combine_initial_rests_unless_confusing() {
    // p163
    {
        let mut bar = Bar::new(Metre::new(6, 8));
        bar.splice(
            Rational::new(2, 8),
            vec![(
                Duration::new(NoteValue::Eighth, 0, None),
                Lifetime::Explicit(Entity::new(1)),
            )],
        );
        bar.splice(
            Rational::new(11, 16),
            vec![(
                Duration::new(NoteValue::Sixteenth, 0, None),
                Lifetime::Explicit(Entity::new(1)),
            )],
        );
        assert_eq!(
            bar.rhythm(),
            &vec![
                (
                    Duration::new(NoteValue::Quarter, 0, None),
                    Lifetime::AutomaticRest
                ),
                (
                    Duration::new(NoteValue::Eighth, 0, None),
                    Lifetime::Explicit(Entity::new(1))
                ),
                (
                    Duration::new(NoteValue::Eighth, 0, None),
                    Lifetime::AutomaticRest
                ),
                (
                    Duration::new(NoteValue::Eighth, 1, None),
                    Lifetime::AutomaticRest
                ),
                (
                    Duration::new(NoteValue::Sixteenth, 0, None),
                    Lifetime::Explicit(Entity::new(1))
                ),
            ],
        );
    }

    // p164
    {
        let mut bar = Bar::new(Metre::new(9, 8));
        bar.splice(
            Rational::zero(),
            vec![(
                Duration::new(NoteValue::Eighth, 0, None),
                Lifetime::Explicit(Entity::new(1)),
            )],
        );
        bar.splice(
            Rational::new(5, 8),
            vec![(
                Duration::new(NoteValue::Eighth, 0, None),
                Lifetime::Explicit(Entity::new(1)),
            )],
        );
        bar.splice(
            Rational::new(8, 8),
            vec![(
                Duration::new(NoteValue::Eighth, 0, None),
                Lifetime::Explicit(Entity::new(1)),
            )],
        );
        assert_eq!(
            bar.rhythm(),
            &vec![
                (
                    Duration::new(NoteValue::Eighth, 0, None),
                    Lifetime::Explicit(Entity::new(1))
                ),
                (
                    Duration::new(NoteValue::Eighth, 0, None),
                    Lifetime::AutomaticRest
                ),
                (
                    Duration::new(NoteValue::Eighth, 0, None),
                    Lifetime::AutomaticRest
                ),
                (
                    Duration::new(NoteValue::Quarter, 0, None),
                    Lifetime::AutomaticRest
                ),
                (
                    Duration::new(NoteValue::Eighth, 0, None),
                    Lifetime::Explicit(Entity::new(1))
                ),
                (
                    Duration::new(NoteValue::Quarter, 0, None),
                    Lifetime::AutomaticRest
                ),
                (
                    Duration::new(NoteValue::Eighth, 0, None),
                    Lifetime::Explicit(Entity::new(1))
                ),
            ],
        );
    }

    {
        let mut bar = Bar::new(Metre::new(6, 8));
        bar.splice(
            Rational::zero(),
            vec![(
                Duration::new(NoteValue::Sixteenth, 0, None),
                Lifetime::Explicit(Entity::new(1)),
            )],
        );
        bar.splice(
            Rational::new(5, 16),
            vec![(
                Duration::new(NoteValue::Sixteenth, 0, None),
                Lifetime::Explicit(Entity::new(1)),
            )],
        );
        assert_eq!(
            bar.rhythm(),
            &vec![
                (
                    Duration::new(NoteValue::Sixteenth, 0, None),
                    Lifetime::Explicit(Entity::new(1))
                ),
                (
                    Duration::new(NoteValue::Sixteenth, 0, None),
                    Lifetime::AutomaticRest
                ),
                (
                    Duration::new(NoteValue::Eighth, 0, None),
                    Lifetime::AutomaticRest
                ),
                (
                    Duration::new(NoteValue::Sixteenth, 0, None),
                    Lifetime::AutomaticRest
                ),
                (
                    Duration::new(NoteValue::Sixteenth, 0, None),
                    Lifetime::Explicit(Entity::new(1))
                ),
                (
                    Duration::new(NoteValue::Quarter, 1, None),
                    Lifetime::AutomaticRest
                ),
            ],
        );
    }
}

#[test]
fn triplets() {
    // Triplet rests are described on p211, but these are different.
    {
        let mut bar = Bar::new(Metre::new(4, 4));
        bar.splice(
            Rational::zero(),
            vec![(
                Duration::new(NoteValue::Quarter, 0, Some(Rational::new(3, 2))),
                Lifetime::Explicit(Entity::new(1)),
            )],
        );
        assert_eq!(
            bar.rhythm(),
            &vec![
                (
                    Duration::new(NoteValue::Quarter, 0, Some(Rational::new(3, 2))),
                    Lifetime::Explicit(Entity::new(1))
                ),
                (
                    Duration::new(NoteValue::Quarter, 0, Some(Rational::new(3, 2))),
                    Lifetime::AutomaticRest
                ),
                (
                    Duration::new(NoteValue::Quarter, 0, Some(Rational::new(3, 2))),
                    Lifetime::AutomaticRest
                ),
                (
                    Duration::new(NoteValue::Half, 0, None),
                    Lifetime::AutomaticRest
                ),
            ],
        );
    }
    {
        let mut bar = Bar::new(Metre::new(4, 4));
        bar.splice(
            Rational::new(2, 6),
            vec![(
                Duration::new(NoteValue::Quarter, 0, Some(Rational::new(3, 2))),
                Lifetime::Explicit(Entity::new(1)),
            )],
        );
        assert_eq!(
            bar.rhythm(),
            &vec![
                (
                    Duration::new(NoteValue::Quarter, 0, Some(Rational::new(3, 2))),
                    Lifetime::AutomaticRest
                ),
                (
                    Duration::new(NoteValue::Quarter, 0, Some(Rational::new(3, 2))),
                    Lifetime::AutomaticRest
                ),
                (
                    Duration::new(NoteValue::Quarter, 0, Some(Rational::new(3, 2))),
                    Lifetime::Explicit(Entity::new(1))
                ),
                (
                    Duration::new(NoteValue::Half, 0, None),
                    Lifetime::AutomaticRest
                ),
            ],
        );
    }
}

#[test]
fn regression_splice_12_8_unprintable() {
    let mut bar = Bar::new(Metre::new(12, 8));
    bar.splice(
        Rational::zero(),
        vec![(
            Duration::new(NoteValue::Eighth, 0, None),
            Lifetime::Explicit(Entity::new(1)),
        )],
    );
    bar.splice(
        Rational::new(11, 8),
        vec![(
            Duration::new(NoteValue::Eighth, 0, None),
            Lifetime::Explicit(Entity::new(2)),
        )],
    );
    assert_eq!(
        bar.rhythm(),
        &vec![
            (
                Duration::new(NoteValue::Eighth, 0, None),
                Lifetime::Explicit(Entity::new(1))
            ),
            (
                Duration::new(NoteValue::Eighth, 0, None),
                Lifetime::AutomaticRest
            ),
            (
                Duration::new(NoteValue::Eighth, 0, None),
                Lifetime::AutomaticRest
            ),
            (
                Duration::new(NoteValue::Quarter, 1, None),
                Lifetime::AutomaticRest
            ),
            (
                Duration::new(NoteValue::Quarter, 1, None),
                Lifetime::AutomaticRest
            ),
            (
                Duration::new(NoteValue::Quarter, 0, None),
                Lifetime::AutomaticRest
            ),
            (
                Duration::new(NoteValue::Eighth, 0, None),
                Lifetime::Explicit(Entity::new(2)),
            ),
        ],
    );
}
#[test]
fn split_note_duple() {
    let two_four = Bar::new(Metre::new(2, 4));
    let four_four = Bar::new(Metre::new(4, 4));

    assert_eq!(
        four_four.split_note(
            Rational::new(3, 8),
            Duration::new(NoteValue::Quarter, 0, None)
        ),
        vec![
            Duration::new(NoteValue::Eighth, 0, None),
            Duration::new(NoteValue::Eighth, 0, None),
        ]
    );

    assert_eq!(
        four_four.split_note(Rational::zero(), Duration::new(NoteValue::Half, 1, None)),
        vec![Duration::new(NoteValue::Half, 1, None),]
    );

    assert_eq!(
        two_four.split_note(
            Rational::new(1, 16),
            Duration::new(NoteValue::Quarter, 1, None)
        ),
        vec![
            Duration::new(NoteValue::Eighth, 1, None),
            Duration::new(NoteValue::Eighth, 1, None),
        ]
    );

    assert_eq!(
        four_four.split_note(Rational::new(1, 8), Duration::new(NoteValue::Half, 0, None)),
        vec![
            Duration::new(NoteValue::Quarter, 1, None),
            Duration::new(NoteValue::Eighth, 0, None),
        ]
    );

    assert_eq!(
        four_four.split_note(Rational::new(3, 8), Duration::new(NoteValue::Half, 0, None)),
        vec![
            Duration::new(NoteValue::Eighth, 0, None),
            Duration::new(NoteValue::Quarter, 1, None),
        ]
    );
}

#[test]
fn split_note_triple() {
    let two_four = Bar::new(Metre::new(2, 4));
    let nine_eight = Bar::new(Metre::new(9, 8));

    assert_eq!(
        two_four.split_note(Rational::new(1, 8), Duration::new(NoteValue::Half, 0, None)),
        vec![
            Duration::new(NoteValue::Eighth, 0, None),
            Duration::new(NoteValue::Quarter, 1, None),
        ]
    );

    assert_eq!(
        nine_eight.split_note(Rational::zero(), Duration::new(NoteValue::Half, 1, None)),
        vec![Duration::new(NoteValue::Half, 1, None),]
    );

    assert_eq!(
        nine_eight.split_note(Rational::zero(), Duration::new(NoteValue::Whole, 0, None)),
        vec![
            Duration::new(NoteValue::Half, 1, None),
            Duration::new(NoteValue::Quarter, 0, None),
        ]
    );
}

#[test]
fn split_note_existing_space() {
    let mut four_four = Bar::new(Metre::new(4, 4));
    four_four.splice(
        Rational::new(1, 8),
        vec![(
            Duration::new(NoteValue::Quarter, 1, None),
            Lifetime::Explicit(Entity::new(1)),
        )],
    );

    assert_eq!(
        four_four.split_note(Rational::new(0, 1), Duration::new(NoteValue::Half, 0, None)),
        vec![Duration::new(NoteValue::Eighth, 0, None),]
    );
}

#[test]
fn split_syncopation_exceptions() {
    // Behind Bars p.166 and p.171
    let two_four = Bar::new(Metre::new(2, 4));
    let three_four = Bar::new(Metre::new(3, 4));
    let four_four = Bar::new(Metre::new(4, 4));

    assert_eq!(
        four_four.split_note(
            Rational::new(1, 8),
            Duration::new(NoteValue::Quarter, 0, None)
        ),
        vec![Duration::new(NoteValue::Quarter, 0, None),]
    );

    assert_eq!(
        two_four.split_note(
            Rational::new(1, 8),
            Duration::new(NoteValue::Quarter, 0, None)
        ),
        vec![Duration::new(NoteValue::Quarter, 0, None),]
    );

    assert_eq!(
        four_four.split_note(Rational::new(1, 4), Duration::new(NoteValue::Half, 1, None)),
        vec![Duration::new(NoteValue::Half, 1, None),]
    );

    assert_eq!(
        two_four.split_note(
            Rational::new(1, 8),
            Duration::new(NoteValue::Quarter, 1, None)
        ),
        vec![Duration::new(NoteValue::Quarter, 1, None),]
    );

    assert_eq!(
        three_four.split_note(
            Rational::new(1, 8),
            Duration::new(NoteValue::Quarter, 0, None)
        ),
        vec![Duration::new(NoteValue::Quarter, 0, None),]
    );

    assert_eq!(
        three_four.split_note(
            Rational::new(3, 8),
            Duration::new(NoteValue::Quarter, 0, None)
        ),
        vec![
            Duration::new(NoteValue::Eighth, 0, None),
            Duration::new(NoteValue::Eighth, 0, None)
        ]
    );

    assert_eq!(
        three_four.split_note(
            Rational::new(1, 16),
            Duration::new(NoteValue::Eighth, 0, None)
        ),
        vec![Duration::new(NoteValue::Eighth, 0, None),]
    );

    assert_eq!(
        four_four.split_note(Rational::new(1, 4), Duration::new(NoteValue::Half, 0, None)),
        vec![Duration::new(NoteValue::Half, 0, None),]
    );

    assert_eq!(
        four_four.split_note(Rational::new(1, 4), Duration::new(NoteValue::Half, 1, None)),
        vec![Duration::new(NoteValue::Half, 1, None),]
    );
}

#[test]
fn split_syncopation() {
    // Behind Bars p.166 and p.171
    let three_four = Bar::new(Metre::new(3, 4));

    assert_eq!(
        three_four.split_note(
            Rational::new(1, 16),
            Duration::new(NoteValue::Quarter, 0, None)
        ),
        vec![
            Duration::new(NoteValue::Eighth, 1, None),
            Duration::new(NoteValue::Sixteenth, 0, None)
        ]
    );
}

#[test]
fn split_long_simple() {
    let two_four = Bar::new(Metre::new(2, 4));
    let four_eight = Bar::new(Metre::new(4, 8));
    let four_four = Bar::new(Metre::new(4, 4));

    assert_eq!(
        two_four.split_note(Rational::zero(), Duration::new(NoteValue::Quarter, 3, None)),
        vec![Duration::new(NoteValue::Quarter, 3, None),]
    );

    assert_eq!(
        four_eight.split_note(Rational::zero(), Duration::new(NoteValue::Quarter, 3, None)),
        vec![Duration::new(NoteValue::Quarter, 3, None),]
    );

    assert_eq!(
        four_four.split_note(Rational::zero(), Duration::new(NoteValue::Half, 4, None)),
        vec![Duration::new(NoteValue::Half, 4, None),]
    );

    assert_eq!(
        two_four.split_note(
            Rational::new(1, 16),
            Duration::new(NoteValue::Quarter, 2, None)
        ),
        vec![
            Duration::new(NoteValue::Eighth, 1, None),
            Duration::new(NoteValue::Quarter, 0, None)
        ]
    );

    assert_eq!(
        four_eight.split_note(
            Rational::new(1, 16),
            Duration::new(NoteValue::Quarter, 2, None)
        ),
        vec![
            Duration::new(NoteValue::Eighth, 1, None),
            Duration::new(NoteValue::Quarter, 0, None)
        ]
    );

    assert_eq!(
        four_four.split_note(
            Rational::new(1, 16),
            Duration::new(NoteValue::Half, 3, None)
        ),
        vec![
            Duration::new(NoteValue::Quarter, 2, None),
            Duration::new(NoteValue::Half, 0, None)
        ]
    );
}

#[test]
fn beaming_basic_two_four() {
    let two_four = Bar::new(Metre::new(2, 4));
    assert_eq!(
        two_four.beaming(
            Rational::zero(),
            vec![
                Duration::new(NoteValue::Eighth, 0, None),
                Duration::new(NoteValue::Eighth, 0, None),
                Duration::new(NoteValue::Eighth, 0, None),
                Duration::new(NoteValue::Eighth, 0, None),
            ]
        ),
        vec![
            Some(RhythmicBeaming {
                entering: 0,
                leaving: 1,
            }),
            Some(RhythmicBeaming {
                entering: 1,
                leaving: 1,
            }),
            Some(RhythmicBeaming {
                entering: 1,
                leaving: 1,
            }),
            Some(RhythmicBeaming {
                entering: 1,
                leaving: 0,
            }),
        ]
    );

    assert_eq!(
        two_four.beaming(
            Rational::new(1, 8),
            vec![
                Duration::new(NoteValue::Eighth, 0, None),
                Duration::new(NoteValue::Eighth, 0, None),
                Duration::new(NoteValue::Eighth, 0, None),
            ]
        ),
        vec![
            Some(RhythmicBeaming {
                entering: 0,
                leaving: 1,
            }),
            Some(RhythmicBeaming {
                entering: 1,
                leaving: 1,
            }),
            Some(RhythmicBeaming {
                entering: 1,
                leaving: 0,
            }),
        ]
    );
}

#[test]
fn beaming_basic_three_four() {
    let three_four = Bar::new(Metre::new(3, 4));
    assert_eq!(
        three_four.beaming(
            Rational::zero(),
            vec![
                Duration::new(NoteValue::Eighth, 0, None),
                Duration::new(NoteValue::Eighth, 0, None),
                Duration::new(NoteValue::Eighth, 0, None),
                Duration::new(NoteValue::Eighth, 0, None),
                Duration::new(NoteValue::Eighth, 0, None),
            ]
        ),
        vec![
            Some(RhythmicBeaming {
                entering: 0,
                leaving: 1,
            }),
            Some(RhythmicBeaming {
                entering: 1,
                leaving: 1,
            }),
            Some(RhythmicBeaming {
                entering: 1,
                leaving: 1,
            }),
            Some(RhythmicBeaming {
                entering: 1,
                leaving: 1,
            }),
            Some(RhythmicBeaming {
                entering: 1,
                leaving: 0,
            }),
        ]
    );
}

#[test]
fn beaming_three_four_is_not_six_eight() {
    let three_four = Bar::new(Metre::new(3, 4));
    assert_eq!(
        three_four.beaming(
            Rational::new(3, 8),
            vec![
                Duration::new(NoteValue::Eighth, 0, None),
                Duration::new(NoteValue::Eighth, 0, None),
                Duration::new(NoteValue::Eighth, 0, None),
            ]
        ),
        vec![
            None,
            Some(RhythmicBeaming {
                entering: 0,
                leaving: 1,
            }),
            Some(RhythmicBeaming {
                entering: 1,
                leaving: 0,
            }),
        ]
    );

    assert_eq!(
        three_four.beaming(
            Rational::new(1, 4),
            vec![
                Duration::new(NoteValue::Eighth, 0, None),
                Duration::new(NoteValue::Eighth, 0, None),
                Duration::new(NoteValue::Quarter, 0, None),
            ]
        ),
        vec![
            Some(RhythmicBeaming {
                entering: 0,
                leaving: 1,
            }),
            Some(RhythmicBeaming {
                entering: 1,
                leaving: 0,
            }),
            None,
        ]
    );
}

#[test]
fn beaming_basic_four_eight() {
    let four_eight = Bar::new(Metre::new(4, 8));
    assert_eq!(
        four_eight.beaming(
            Rational::zero(),
            vec![
                Duration::new(NoteValue::Sixteenth, 0, None),
                Duration::new(NoteValue::Sixteenth, 0, None),
                Duration::new(NoteValue::Sixteenth, 0, None),
                Duration::new(NoteValue::Sixteenth, 0, None),
                Duration::new(NoteValue::Sixteenth, 0, None),
                Duration::new(NoteValue::Sixteenth, 0, None),
                Duration::new(NoteValue::Sixteenth, 0, None),
                Duration::new(NoteValue::Sixteenth, 0, None),
            ]
        ),
        vec![
            Some(RhythmicBeaming {
                entering: 0,
                leaving: 2,
            }),
            Some(RhythmicBeaming {
                entering: 2,
                leaving: 2,
            }),
            Some(RhythmicBeaming {
                entering: 2,
                leaving: 2,
            }),
            Some(RhythmicBeaming {
                entering: 2,
                leaving: 0,
            }),
            Some(RhythmicBeaming {
                entering: 0,
                leaving: 2,
            }),
            Some(RhythmicBeaming {
                entering: 2,
                leaving: 2,
            }),
            Some(RhythmicBeaming {
                entering: 2,
                leaving: 2,
            }),
            Some(RhythmicBeaming {
                entering: 2,
                leaving: 0,
            }),
        ]
    );
}

#[test]
fn beaming_basic_four_four() {
    let four_four = Bar::new(Metre::new(4, 4));
    assert_eq!(
        four_four.beaming(
            Rational::zero(),
            vec![
                Duration::new(NoteValue::Eighth, 0, None),
                Duration::new(NoteValue::Eighth, 0, None),
                Duration::new(NoteValue::Eighth, 0, None),
                Duration::new(NoteValue::Eighth, 0, None),
                Duration::new(NoteValue::Eighth, 0, None),
                Duration::new(NoteValue::Eighth, 0, None),
                Duration::new(NoteValue::Eighth, 0, None),
                Duration::new(NoteValue::Eighth, 0, None),
            ]
        ),
        vec![
            Some(RhythmicBeaming {
                entering: 0,
                leaving: 1,
            }),
            Some(RhythmicBeaming {
                entering: 1,
                leaving: 1,
            }),
            Some(RhythmicBeaming {
                entering: 1,
                leaving: 1,
            }),
            Some(RhythmicBeaming {
                entering: 1,
                leaving: 0,
            }),
            Some(RhythmicBeaming {
                entering: 0,
                leaving: 1,
            }),
            Some(RhythmicBeaming {
                entering: 1,
                leaving: 1,
            }),
            Some(RhythmicBeaming {
                entering: 1,
                leaving: 1,
            }),
            Some(RhythmicBeaming {
                entering: 1,
                leaving: 0,
            }),
        ]
    );
    assert_eq!(
        four_four.beaming(
            Rational::new(1, 8),
            vec![
                Duration::new(NoteValue::Eighth, 0, None),
                Duration::new(NoteValue::Eighth, 0, None),
                Duration::new(NoteValue::Eighth, 0, None),
                Duration::new(NoteValue::Eighth, 0, None),
                Duration::new(NoteValue::Eighth, 0, None),
                Duration::new(NoteValue::Eighth, 0, None),
            ]
        ),
        vec![
            Some(RhythmicBeaming {
                entering: 0,
                leaving: 1,
            }),
            Some(RhythmicBeaming {
                entering: 1,
                leaving: 1,
            }),
            Some(RhythmicBeaming {
                entering: 1,
                leaving: 0,
            }),
            Some(RhythmicBeaming {
                entering: 0,
                leaving: 1,
            }),
            Some(RhythmicBeaming {
                entering: 1,
                leaving: 1,
            }),
            Some(RhythmicBeaming {
                entering: 1,
                leaving: 0,
            }),
        ]
    );
    assert_eq!(
        four_four.beaming(
            Rational::new(0, 1),
            vec![
                Duration::new(NoteValue::Eighth, 0, None),
                Duration::new(NoteValue::Eighth, 0, None),
            ]
        ),
        vec![
            Some(RhythmicBeaming {
                entering: 0,
                leaving: 1,
            }),
            Some(RhythmicBeaming {
                entering: 1,
                leaving: 0,
            }),
        ]
    );
    assert_eq!(
        four_four.beaming(
            Rational::new(1, 4),
            vec![
                Duration::new(NoteValue::Eighth, 0, None),
                Duration::new(NoteValue::Eighth, 0, None),
                Duration::new(NoteValue::Eighth, 0, None),
                Duration::new(NoteValue::Eighth, 0, None),
            ]
        ),
        vec![
            Some(RhythmicBeaming {
                entering: 0,
                leaving: 1,
            }),
            Some(RhythmicBeaming {
                entering: 1,
                leaving: 0,
            }),
            Some(RhythmicBeaming {
                entering: 0,
                leaving: 1,
            }),
            Some(RhythmicBeaming {
                entering: 1,
                leaving: 0,
            }),
        ]
    );
}

#[test]
fn a_bar_of_an_empty_metre_holds_a_whole_rest() {
    let metre = Metre::new(0, 4);
    let bar = Bar::new(metre.clone());
    assert!(bar.whole_rest());
    assert!(bar.rhythm().is_empty());
    assert!(bar.managed().is_empty());
    assert_eq!(bar.metre().division_starts(), metre.division_starts());
}
