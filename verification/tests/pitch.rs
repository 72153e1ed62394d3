use six_eight::pitch::{Clef, NoteModifier, NoteName, Pitch};

#[test]
fn lib_it_works() {
    assert_eq!(Pitch::a440().midi(), 69);
    assert_eq!(Pitch::middle_c().midi(), 60);
    assert_eq!(
        Pitch::new(NoteName::B, Some(NoteModifier::SemiUp), 3).midi(),
        60
    );
}

#[test]
fn flats_lower_by_a_semitone() {
    assert_eq!(
        Pitch::new(NoteName::D, Some(NoteModifier::SemiDown), 4).midi(),
        61
    );
    assert_eq!(Pitch::new(NoteName::C, None, -1).midi(), 0);
}

#[test]
fn accessors_give_back_the_parts() {
    let p = Pitch::new(NoteName::E, Some(NoteModifier::SemiUp), 5);
    assert_eq!(p.name(), NoteName::E);
    assert_eq!(p.modifier(), Some(NoteModifier::SemiUp));
    assert_eq!(p.octave(), 5);
}

#[test]
fn staff_steps_follow_the_clef() {
    assert_eq!(Clef::G.offset(), 34);
    assert_eq!(Clef::F.offset(), 22);
    assert_eq!(Clef::Percussion.offset(), 34);
    // C4 in the treble clef: 34 - 0 - 28.
    assert_eq!(Pitch::middle_c().staff_steps(Clef::G), 6);
    // A4 in the bass clef: 22 - 5 - 28.
    assert_eq!(Pitch::a440().staff_steps(Clef::F), -11);
    assert_eq!(NoteName::B.index(), 6);
}
