//! Pitches in scientific pitch notation, their MIDI numbers and their places on a staff.
use vstd::prelude::*;

verus! {

/// A clef: where the staff lines sit.
#[derive(Debug, Clone, Copy, PartialEq, Eq, Structural)]
pub enum Clef {
    G,
    F,
    Percussion,
}

impl Clef {
    pub open spec fn offset_spec(self) -> int {
        match self {
            Clef::G | Clef::Percussion => 34,
            Clef::F => 22,
        }
    }

    /// Y-position of C0, in steps.
    pub fn offset(&self) -> (r: i32)
        ensures
            r == self.offset_spec(),
    {
        match self {
            Clef::G | Clef::Percussion => 34,
            Clef::F => 22,
        }
    }
}

/// A note name, without accidental.
#[derive(Debug, Clone, Copy, PartialEq, Eq, Structural)]
pub enum NoteName {
    C,
    D,
    E,
    F,
    G,
    A,
    B,
}

impl NoteName {
    /// The position within the octave, in staff steps from C.
    pub open spec fn index_spec(self) -> int {
        match self {
            NoteName::C => 0,
            NoteName::D => 1,
            NoteName::E => 2,
            NoteName::F => 3,
            NoteName::G => 4,
            NoteName::A => 5,
            NoteName::B => 6,
        }
    }

    /// The number of semitones above C.
    pub open spec fn semitones_spec(self) -> int {
        match self {
            NoteName::C => 0,
            NoteName::D => 2,
            NoteName::E => 4,
            NoteName::F => 5,
            NoteName::G => 7,
            NoteName::A => 9,
            NoteName::B => 11,
        }
    }

    pub fn index(&self) -> (r: i32)
        ensures
            r == self.index_spec(),
    {
        match self {
            NoteName::C => 0,
            NoteName::D => 1,
            NoteName::E => 2,
            NoteName::F => 3,
            NoteName::G => 4,
            NoteName::A => 5,
            NoteName::B => 6,
        }
    }

    fn semitones(&self) -> (r: i8)
        ensures
            r == self.semitones_spec(),
    {
        match self {
            NoteName::C => 0,
            NoteName::D => 2,
            NoteName::E => 4,
            NoteName::F => 5,
            NoteName::G => 7,
            NoteName::A => 9,
            NoteName::B => 11,
        }
    }
}

/// A sharp or a flat.
#[derive(Debug, Clone, Copy, PartialEq, Eq, Structural)]
pub enum NoteModifier {
    SemiUp,
    SemiDown,
}

/// The number of semitones an optional accidental moves a note.
pub open spec fn modifier_semitones(m: Option<NoteModifier>) -> int {
    match m {
        Some(NoteModifier::SemiUp) => 1,
        Some(NoteModifier::SemiDown) => -1,
        None => 0,
    }
}

/// A note name with an optional accidental, in an octave.
#[derive(Debug, Clone, Copy)]
pub struct Pitch {
    name: NoteName,
    modifier: Option<NoteModifier>,
    octave: i8,
}

impl Pitch {
    pub closed spec fn name_spec(self) -> NoteName {
        self.name
    }

    pub closed spec fn modifier_spec(self) -> Option<NoteModifier> {
        self.modifier
    }

    pub closed spec fn octave_spec(self) -> int {
        self.octave as int
    }

    /// The MIDI number, before it is brought into a byte: 60 is middle C.
    pub open spec fn midi_spec(self) -> int {
        (self.octave_spec() + 1) * 12 + self.name_spec().semitones_spec() + modifier_semitones(
            self.modifier_spec(),
        )
    }

    pub fn new(name: NoteName, modifier: Option<NoteModifier>, octave: i8) -> (p: Pitch)
        ensures
            p.name_spec() == name,
            p.modifier_spec() == modifier,
            p.octave_spec() == octave,
    {
        Pitch { name, modifier, octave }
    }

    /// A4, 440 Hz.
    pub fn a440() -> (p: Pitch)
        ensures
            p.name_spec() == NoteName::A,
            p.modifier_spec() == None::<NoteModifier>,
            p.octave_spec() == 4,
    {
        Self::new(NoteName::A, None, 4)
    }

    /// C4.
    pub fn middle_c() -> (p: Pitch)
        ensures
            p.name_spec() == NoteName::C,
            p.modifier_spec() == None::<NoteModifier>,
            p.octave_spec() == 4,
    {
        Self::new(NoteName::C, None, 4)
    }

    /// The MIDI number.  The sum is taken in `i8` and must not overflow: the octave lies within
    /// `-11..=9`, with an accidental that keeps the sum in range; a negative sum wraps into a
    /// byte.
    pub fn midi(&self) -> (r: u8)
        requires
            -128 <= (self.octave_spec() + 1) * 12 <= 127,
            -128 <= (self.octave_spec() + 1) * 12 + self.name_spec().semitones_spec() <= 127,
            -128 <= self.midi_spec() <= 127,
        ensures
            r == (self.midi_spec() as u8),
            0 <= self.midi_spec() ==> r == self.midi_spec(),
    {
        let m: i8 = match self.modifier {
            Some(NoteModifier::SemiUp) => 1,
            Some(NoteModifier::SemiDown) => -1,
            None => 0,
        };
        let x: i8 = (self.octave + 1) * 12 + self.name.semitones() + m;
        x as u8
    }

    pub fn name(&self) -> (r: NoteName)
        ensures
            r == self.name_spec(),
    {
        self.name
    }

    pub fn modifier(&self) -> (r: Option<NoteModifier>)
        ensures
            r == self.modifier_spec(),
    {
        self.modifier
    }

    /// Scientific pitch notation octave.
    ///
    /// Middle C (60) is C4.
    /// A440 is A4.
    pub fn octave(&self) -> (r: i8)
        ensures
            r == self.octave_spec(),
    {
        self.octave
    }

    /// The vertical position on a staff with `clef`, in steps down from the top reference
    /// (a step is half a staff space).
    pub fn staff_steps(&self, clef: Clef) -> (r: i32)
        ensures
            r == clef.offset_spec() - self.name_spec().index_spec() - 7 * self.octave_spec(),
    {
        clef.offset() - self.name.index() - 7 * (self.octave as i32)
    }
}

/// MIDI numbers follow the C major scale: C, D, E, F, G, A and B lie 0, 2, 4, 5, 7, 9 and 11
/// semitones above the C of their octave, a sharp adds one and a flat takes one away, and each
/// octave adds twelve, with middle C (C4) at 60.
pub proof fn law_midi_numbers(p: Pitch)
    ensures
        p.midi_spec() == 12 * (p.octave_spec() + 1) + (match p.name_spec() {
            NoteName::C => 0int,
            NoteName::D => 2,
            NoteName::E => 4,
            NoteName::F => 5,
            NoteName::G => 7,
            NoteName::A => 9,
            NoteName::B => 11,
        }) + (match p.modifier_spec() {
            Some(NoteModifier::SemiUp) => 1int,
            Some(NoteModifier::SemiDown) => -1,
            None => 0,
        }),
{
}

/// Staff positions: C, D, E, F, G, A and B lie 0 to 6 steps above the C of their octave, each
/// octave is seven steps, and C0 sits 34 steps below the top reference of a G (or percussion)
/// staff and 22 below that of an F staff; `staff_steps` counts down, so higher notes have
/// fewer steps.
pub proof fn law_staff_steps(p: Pitch, clef: Clef)
    ensures
        clef.offset_spec() - p.name_spec().index_spec() - 7 * p.octave_spec() == (match clef {
            Clef::G | Clef::Percussion => 34int,
            Clef::F => 22,
        }) - (match p.name_spec() {
            NoteName::C => 0int,
            NoteName::D => 1,
            NoteName::E => 2,
            NoteName::F => 3,
            NoteName::G => 4,
            NoteName::A => 5,
            NoteName::B => 6,
        }) - 7 * p.octave_spec(),
{
}

} // verus!
