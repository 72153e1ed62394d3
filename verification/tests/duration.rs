use six_eight::duration::{Duration, NoteValue};
use six_eight::rational::Rational;

#[test]
fn half_note() {
    let er = Duration::new(NoteValue::Half, 0, None);
    assert_eq!(er.duration_display_base(), Some(NoteValue::Half));
    assert_eq!(er.display_dots(), Some(0));
    assert_eq!(er.tuplet(), 1.into());
    assert_eq!(er.duration(), Rational::new(1, 2));
    assert_eq!(er.display_duration(), Rational::new(1, 2));
}

#[test]
fn dotted_double_whole_note() {
    let er = Duration::new(NoteValue::DoubleWhole, 1, None);
    assert_eq!(er.duration_display_base(), Some(NoteValue::DoubleWhole));
    assert_eq!(er.display_dots(), Some(1));
    assert_eq!(er.tuplet(), 1.into());
    assert_eq!(er.duration(), Rational::from_integer(3));
    assert_eq!(er.display_duration(), Rational::from_integer(3));
}

#[test]
fn double_dotted_sixteenth_note() {
    let er = Duration::new(NoteValue::Sixteenth, 2, None);
    assert_eq!(er.duration_display_base(), Some(NoteValue::Sixteenth));
    assert_eq!(er.display_dots(), Some(2));
    assert_eq!(er.tuplet(), 1.into());
    assert_eq!(er.duration(), Rational::new(7, 64));
    assert_eq!(er.display_duration(), Rational::new(7, 64));
}

#[test]
fn triplet_quarter_note() {
    let er = Duration::new(NoteValue::Quarter, 0, Some(Rational::new(3, 2)));
    assert_eq!(er.duration_display_base(), Some(NoteValue::Quarter));
    assert_eq!(er.display_dots(), Some(0));
    assert_eq!(er.tuplet(), Rational::new(3, 2));
    assert_eq!(er.duration(), Rational::new(1, 6));
    assert_eq!(er.display_duration(), Rational::new(1, 4));
}

#[test]
fn five_dots_are_not_displayed() {
    let d = Duration::exact(Rational::new(63, 32), None);
    assert_eq!(d.display_dots(), None);
    assert!(!d.printable());
    let four = Duration::exact(Rational::new(31, 16), None);
    assert_eq!(four.display_dots(), Some(4));
}

#[test]
fn printable_allows_at_most_three_dots() {
    assert!(!Duration::new(NoteValue::Half, 4, None).printable());
    assert_eq!(Duration::new(NoteValue::Half, 4, None).display_dots(), Some(4));
    assert!(Duration::new(NoteValue::Half, 3, None).printable());
}

#[test]
fn dotted_values_display_their_base_and_dots() {
    let bases = vec![
        NoteValue::Maxima,
        NoteValue::Longa,
        NoteValue::DoubleWhole,
        NoteValue::Whole,
        NoteValue::Half,
        NoteValue::Quarter,
        NoteValue::Eighth,
        NoteValue::Sixteenth,
        NoteValue::ThirtySecond,
        NoteValue::SixtyFourth,
        NoteValue::HundredTwentyEighth,
        NoteValue::TwoHundredFiftySixth,
    ];
    for base in bases {
        for dots in 0..=4u8 {
            let d = Duration::new(base, dots, None);
            assert_eq!(d.duration_display_base(), Some(base));
            assert_eq!(d.display_dots(), Some(dots as usize));
        }
    }
}

#[test]
fn any_tuplet_keeps_the_drawn_value() {
    let t = Rational::new(-3, 2);
    let d = Duration::new(NoteValue::Quarter, 1, Some(t));
    assert_eq!(d.tuplet(), t);
    assert_eq!(d.display_duration(), Rational::new(3, 8));
    assert_eq!(d.duration(), Rational::new(-1, 4));
    assert_eq!(d.duration_display_base(), Some(NoteValue::Quarter));
    assert_eq!(d.display_dots(), Some(1));
}
