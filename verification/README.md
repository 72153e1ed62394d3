# six_eight

The rhythm engine of a lead-sheet editor, written in Verus.

- `src/` is the verified library: exact fractions (`rational`, `arith`), note lengths
  (`duration`), time signatures and their beat structure (`metre`), bars that keep their notes
  and automatic rests filling the bar (`bar`, `notes`, `spell`), the spelling of long notes
  across beats (`split`), beaming (`rhythmic_beaming`), entity bookkeeping (`entity`,
  `lifetime`, `orphans`), pitches (`pitch`) and the fraction helpers for the page (`jsfrac`).
- `tests/` runs the library on the scenarios of the editor.
- `app/` holds what stays outside the proofs: floating-point layout, the JavaScript bindings and
  the hash-map plumbing of the entity systems.
