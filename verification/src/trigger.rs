//! Sound triggers and the grammar of the names that stand for them.
//!
//! A name of the form `<ordinal>_<instrument>_<note>.txt` stands for one trigger when its
//! instrument and note belong to the two fixed vocabularies. The instrument is matched
//! without regard to ASCII case, and so is the note. The ordinal is any run of bytes without
//! an underscore. A name with more or fewer fields stands for nothing.

use vstd::prelude::*;
use vstd::slice::slice_to_vec;
use vstd::string::*;
use crate::bytes::{
    chars_of, find_underscore, lemma_ascii_word, has_play_prefix, has_txt_suffix, lower, lower_byte, play_prefix, to_lower,
    to_upper, txt_suffix, upper, upper_byte, DIGIT_TWO, HASH, UNDERSCORE,
};
use crate::order::{name_order, names_of, sort_names};

verus! {

/// The instruments that have samples.
#[derive(Clone, Copy, Debug, PartialEq, Eq, Structural)]
pub enum Instrument {
    Bell,
    Lancer,
    Organ,
    Sine,
}

/// The notes that have samples: seven naturals and five sharps, in two octaves.
#[derive(Clone, Copy, Debug, PartialEq, Eq, Structural)]
pub enum Note {
    A,
    ASharp,
    A2,
    ASharp2,
    B,
    B2,
    C,
    CSharp,
    C2,
    CSharp2,
    D,
    DSharp,
    D2,
    DSharp2,
    E,
    E2,
    F,
    FSharp,
    F2,
    FSharp2,
    G,
    GSharp,
    G2,
    GSharp2,
}

/// A request to play one note on one instrument.
#[derive(Clone, Copy, Debug, PartialEq, Eq, Structural)]
pub struct TriggerEvent {
    pub note: Note,
    pub instrument: Instrument,
}

impl Instrument {
    /// The instrument's name in lower case: `bell`, `lancer`, `organ`, `sine`.
    pub open spec fn text(self) -> Seq<u8> {
        match self {
            Instrument::Bell => seq![98u8, 101u8, 108u8, 108u8],
            Instrument::Lancer => seq![108u8, 97u8, 110u8, 99u8, 101u8, 114u8],
            Instrument::Organ => seq![111u8, 114u8, 103u8, 97u8, 110u8],
            Instrument::Sine => seq![115u8, 105u8, 110u8, 101u8],
        }
    }

    /// The instrument's name as text.
    pub fn name(&self) -> (s: &'static str)
        ensures
            s@ == chars_of(self.text()),
            s.spec_bytes() == self.text(),
    {
        match self {
            Instrument::Bell => {
                proof {
                    reveal_strlit("bell");
                    assert("bell"@ =~= chars_of(Instrument::Bell.text()));
                    lemma_ascii_word("bell", Instrument::Bell.text());
                }
                "bell"
            },
            Instrument::Lancer => {
                proof {
                    reveal_strlit("lancer");
                    assert("lancer"@ =~= chars_of(Instrument::Lancer.text()));
                    lemma_ascii_word("lancer", Instrument::Lancer.text());
                }
                "lancer"
            },
            Instrument::Organ => {
                proof {
                    reveal_strlit("organ");
                    assert("organ"@ =~= chars_of(Instrument::Organ.text()));
                    lemma_ascii_word("organ", Instrument::Organ.text());
                }
                "organ"
            },
            Instrument::Sine => {
                proof {
                    reveal_strlit("sine");
                    assert("sine"@ =~= chars_of(Instrument::Sine.text()));
                    lemma_ascii_word("sine", Instrument::Sine.text());
                }
                "sine"
            },
        }
    }
}

impl Note {
    /// The note's letter, in upper case.
    pub open spec fn letter(self) -> u8 {
        match self {
            Note::A | Note::ASharp | Note::A2 | Note::ASharp2 => 65,
            Note::B | Note::B2 => 66,
            Note::C | Note::CSharp | Note::C2 | Note::CSharp2 => 67,
            Note::D | Note::DSharp | Note::D2 | Note::DSharp2 => 68,
            Note::E | Note::E2 => 69,
            Note::F | Note::FSharp | Note::F2 | Note::FSharp2 => 70,
            Note::G | Note::GSharp | Note::G2 | Note::GSharp2 => 71,
        }
    }

    /// Whether the note is sharped.
    pub open spec fn is_sharp(self) -> bool {
        match self {
            Note::ASharp | Note::ASharp2 | Note::CSharp | Note::CSharp2 | Note::DSharp | Note::DSharp2
            | Note::FSharp | Note::FSharp2 | Note::GSharp | Note::GSharp2 => true,
            _ => false,
        }
    }

    /// Whether the note lies in the second octave.
    pub open spec fn is_second_octave(self) -> bool {
        match self {
            Note::A2 | Note::ASharp2 | Note::B2 | Note::C2 | Note::CSharp2 | Note::D2 | Note::DSharp2
            | Note::E2 | Note::F2 | Note::FSharp2 | Note::G2 | Note::GSharp2 => true,
            _ => false,
        }
    }

    /// The note's name: its letter, then `#` where it is sharped, then `2` in the second
    /// octave. So `A`, `A#`, `A2`, `A#2`, `B`, `B2`, and so on up to `G#2`.
    pub open spec fn text(self) -> Seq<u8> {
        seq![self.letter()] + (if self.is_sharp() {
            seq![HASH]
        } else {
            Seq::empty()
        }) + (if self.is_second_octave() {
            seq![DIGIT_TWO]
        } else {
            Seq::empty()
        })
    }

    /// The note's name as text.
    pub fn name(&self) -> (s: &'static str)
        ensures
            s@ == chars_of(self.text()),
            s.spec_bytes() == self.text(),
    {
        match self {
            Note::A => {
                proof {
                    reveal_strlit("A");
                    assert("A"@ =~= chars_of(Note::A.text()));
                    lemma_ascii_word("A", Note::A.text());
                }
                "A"
            },
            Note::ASharp => {
                proof {
                    reveal_strlit("A#");
                    assert("A#"@ =~= chars_of(Note::ASharp.text()));
                    lemma_ascii_word("A#", Note::ASharp.text());
                }
                "A#"
            },
            Note::A2 => {
                proof {
                    reveal_strlit("A2");
                    assert("A2"@ =~= chars_of(Note::A2.text()));
                    lemma_ascii_word("A2", Note::A2.text());
                }
                "A2"
            },
            Note::ASharp2 => {
                proof {
                    reveal_strlit("A#2");
                    assert("A#2"@ =~= chars_of(Note::ASharp2.text()));
                    lemma_ascii_word("A#2", Note::ASharp2.text());
                }
                "A#2"
            },
            Note::B => {
                proof {
                    reveal_strlit("B");
                    assert("B"@ =~= chars_of(Note::B.text()));
                    lemma_ascii_word("B", Note::B.text());
                }
                "B"
            },
            Note::B2 => {
                proof {
                    reveal_strlit("B2");
                    assert("B2"@ =~= chars_of(Note::B2.text()));
                    lemma_ascii_word("B2", Note::B2.text());
                }
                "B2"
            },
            Note::C => {
                proof {
                    reveal_strlit("C");
                    assert("C"@ =~= chars_of(Note::C.text()));
                    lemma_ascii_word("C", Note::C.text());
                }
                "C"
            },
            Note::CSharp => {
                proof {
                    reveal_strlit("C#");
                    assert("C#"@ =~= chars_of(Note::CSharp.text()));
                    lemma_ascii_word("C#", Note::CSharp.text());
                }
                "C#"
            },
            Note::C2 => {
                proof {
                    reveal_strlit("C2");
                    assert("C2"@ =~= chars_of(Note::C2.text()));
                    lemma_ascii_word("C2", Note::C2.text());
                }
                "C2"
            },
            Note::CSharp2 => {
                proof {
                    reveal_strlit("C#2");
                    assert("C#2"@ =~= chars_of(Note::CSharp2.text()));
                    lemma_ascii_word("C#2", Note::CSharp2.text());
                }
                "C#2"
            },
            Note::D => {
                proof {
                    reveal_strlit("D");
                    assert("D"@ =~= chars_of(Note::D.text()));
                    lemma_ascii_word("D", Note::D.text());
                }
                "D"
            },
            Note::DSharp => {
                proof {
                    reveal_strlit("D#");
                    assert("D#"@ =~= chars_of(Note::DSharp.text()));
                    lemma_ascii_word("D#", Note::DSharp.text());
                }
                "D#"
            },
            Note::D2 => {
                proof {
                    reveal_strlit("D2");
                    assert("D2"@ =~= chars_of(Note::D2.text()));
                    lemma_ascii_word("D2", Note::D2.text());
                }
                "D2"
            },
            Note::DSharp2 => {
                proof {
                    reveal_strlit("D#2");
                    assert("D#2"@ =~= chars_of(Note::DSharp2.text()));
                    lemma_ascii_word("D#2", Note::DSharp2.text());
                }
                "D#2"
            },
            Note::E => {
                proof {
                    reveal_strlit("E");
                    assert("E"@ =~= chars_of(Note::E.text()));
                    lemma_ascii_word("E", Note::E.text());
                }
                "E"
            },
            Note::E2 => {
                proof {
                    reveal_strlit("E2");
                    assert("E2"@ =~= chars_of(Note::E2.text()));
                    lemma_ascii_word("E2", Note::E2.text());
                }
                "E2"
            },
            Note::F => {
                proof {
                    reveal_strlit("F");
                    assert("F"@ =~= chars_of(Note::F.text()));
                    lemma_ascii_word("F", Note::F.text());
                }
                "F"
            },
            Note::FSharp => {
                proof {
                    reveal_strlit("F#");
                    assert("F#"@ =~= chars_of(Note::FSharp.text()));
                    lemma_ascii_word("F#", Note::FSharp.text());
                }
                "F#"
            },
            Note::F2 => {
                proof {
                    reveal_strlit("F2");
                    assert("F2"@ =~= chars_of(Note::F2.text()));
                    lemma_ascii_word("F2", Note::F2.text());
                }
                "F2"
            },
            Note::FSharp2 => {
                proof {
                    reveal_strlit("F#2");
                    assert("F#2"@ =~= chars_of(Note::FSharp2.text()));
                    lemma_ascii_word("F#2", Note::FSharp2.text());
                }
                "F#2"
            },
            Note::G => {
                proof {
                    reveal_strlit("G");
                    assert("G"@ =~= chars_of(Note::G.text()));
                    lemma_ascii_word("G", Note::G.text());
                }
                "G"
            },
            Note::GSharp => {
                proof {
                    reveal_strlit("G#");
                    assert("G#"@ =~= chars_of(Note::GSharp.text()));
                    lemma_ascii_word("G#", Note::GSharp.text());
                }
                "G#"
            },
            Note::G2 => {
                proof {
                    reveal_strlit("G2");
                    assert("G2"@ =~= chars_of(Note::G2.text()));
                    lemma_ascii_word("G2", Note::G2.text());
                }
                "G2"
            },
            Note::GSharp2 => {
                proof {
                    reveal_strlit("G#2");
                    assert("G#2"@ =~= chars_of(Note::GSharp2.text()));
                    lemma_ascii_word("G#2", Note::GSharp2.text());
                }
                "G#2"
            },
        }
    }

    /// The note with the given letter, sharp and octave, where there is one:
    /// neither `B` nor `E` has a sharp.
    pub fn from_parts(letter: u8, sharp: bool, second: bool) -> (r: Option<Note>)
        ensures
            r matches Some(n) ==> n.letter() == letter && n.is_sharp() == sharp && n.is_second_octave()
                == second,
            r is None ==> forall|n: Note|
                !(n.letter() == letter && n.is_sharp() == sharp && n.is_second_octave() == second),
    {
        match (letter, sharp, second) {
            (65, false, false) => Some(Note::A),
            (65, true, false) => Some(Note::ASharp),
            (65, false, true) => Some(Note::A2),
            (65, true, true) => Some(Note::ASharp2),
            (66, false, false) => Some(Note::B),
            (66, false, true) => Some(Note::B2),
            (67, false, false) => Some(Note::C),
            (67, true, false) => Some(Note::CSharp),
            (67, false, true) => Some(Note::C2),
            (67, true, true) => Some(Note::CSharp2),
            (68, false, false) => Some(Note::D),
            (68, true, false) => Some(Note::DSharp),
            (68, false, true) => Some(Note::D2),
            (68, true, true) => Some(Note::DSharp2),
            (69, false, false) => Some(Note::E),
            (69, false, true) => Some(Note::E2),
            (70, false, false) => Some(Note::F),
            (70, true, false) => Some(Note::FSharp),
            (70, false, true) => Some(Note::F2),
            (70, true, true) => Some(Note::FSharp2),
            (71, false, false) => Some(Note::G),
            (71, true, false) => Some(Note::GSharp),
            (71, false, true) => Some(Note::G2),
            (71, true, true) => Some(Note::GSharp2),
            _ => None,
        }
    }
}

/// The instrument whose lower-case name is `s`, if there is one.
pub open spec fn instrument_of(s: Seq<u8>) -> Option<Instrument> {
    if s == Instrument::Bell.text() {
        Some(Instrument::Bell)
    } else if s == Instrument::Lancer.text() {
        Some(Instrument::Lancer)
    } else if s == Instrument::Organ.text() {
        Some(Instrument::Organ)
    } else if s == Instrument::Sine.text() {
        Some(Instrument::Sine)
    } else {
        None
    }
}

/// Whether `s` is the name of some note.
pub open spec fn is_note_text(s: Seq<u8>) -> bool {
    exists|n: Note| #[trigger] n.text() == s
}

/// The note whose name is `s`, if there is one.
pub open spec fn note_of(s: Seq<u8>) -> Option<Note> {
    if is_note_text(s) {
        Some(choose|n: Note| #[trigger] n.text() == s)
    } else {
        None
    }
}

/// The name that spells the three fields out: `<ordinal>_<instrument>_<note>.txt`.
pub open spec fn trigger_name(ordinal: Seq<u8>, instrument: Seq<u8>, note: Seq<u8>) -> Seq<u8> {
    ordinal + seq![UNDERSCORE] + instrument + seq![UNDERSCORE] + note + txt_suffix()
}

/// Whether `name` is made of exactly these three fields, none of which holds an underscore.
pub open spec fn has_fields(name: Seq<u8>, ordinal: Seq<u8>, instrument: Seq<u8>, note: Seq<u8>) -> bool {
    &&& name == trigger_name(ordinal, instrument, note)
    &&& !ordinal.contains(UNDERSCORE)
    &&& !instrument.contains(UNDERSCORE)
    &&& !note.contains(UNDERSCORE)
}

/// Whether `name` has the shape `<ordinal>_<instrument>_<note>.txt`.
pub open spec fn is_trigger_shaped(name: Seq<u8>) -> bool {
    exists|ordinal: Seq<u8>, instrument: Seq<u8>, note: Seq<u8>| #[trigger]
        has_fields(name, ordinal, instrument, note)
}

/// The three fields of a name of that shape.
pub open spec fn fields_of(name: Seq<u8>) -> (Seq<u8>, Seq<u8>, Seq<u8>) {
    choose|f: (Seq<u8>, Seq<u8>, Seq<u8>)| #[trigger] has_fields(name, f.0, f.1, f.2)
}

/// The trigger that `name` stands for, if it stands for one: the name has the shape
/// `<ordinal>_<instrument>_<note>.txt`, its instrument field in lower case is an instrument
/// and its note field in upper case is a note.
pub open spec fn trigger_of(name: Seq<u8>) -> Option<TriggerEvent> {
    if is_trigger_shaped(name) {
        let (_ordinal, instrument, note) = fields_of(name);
        match (note_of(upper(note)), instrument_of(lower(instrument))) {
            (Some(n), Some(i)) => Some(TriggerEvent { note: n, instrument: i }),
            _ => None,
        }
    } else {
        None
    }
}

/// Two notes with the same name are the same note.
pub proof fn lemma_note_text_injective(a: Note, b: Note)
    requires
        a.text() == b.text(),
    ensures
        a == b,
{
    let ta = a.text();
    let tb = b.text();
    assert(ta[0] == a.letter());
    assert(tb[0] == b.letter());
    assert(ta.len() == 1 + (if a.is_sharp() { 1int } else { 0 }) + (if a.is_second_octave() { 1int } else { 0 }));
    assert(tb.len() == 1 + (if b.is_sharp() { 1int } else { 0 }) + (if b.is_second_octave() { 1int } else { 0 }));
    if ta.len() == 2 {
        assert(ta[1] == (if a.is_sharp() { HASH } else { DIGIT_TWO }));
        assert(tb[1] == (if b.is_sharp() { HASH } else { DIGIT_TWO }));
    }
}

/// Every note is the note of its own name.
pub proof fn lemma_note_of_text(n: Note)
    ensures
        note_of(n.text()) == Some(n),
{
    assert(is_note_text(n.text()));
    lemma_note_text_injective(n, choose|m: Note| #[trigger] m.text() == n.text());
}

/// Every instrument is the instrument of its own name.
pub proof fn lemma_instrument_of_text(i: Instrument)
    ensures
        instrument_of(i.text()) == Some(i),
{
    let t = i.text();
    assert(Instrument::Bell.text()[0] == 98 && Instrument::Sine.text()[0] == 115);
    assert(Instrument::Lancer.text().len() == 6 && Instrument::Organ.text().len() == 5);
    assert(Instrument::Bell.text().len() == 4 && Instrument::Sine.text().len() == 4);
}

/// What the parts of a name of the trigger shape are: where its two underscores stand,
/// and that each field is the run of bytes between them.
pub proof fn lemma_fields_in_name(name: Seq<u8>, ordinal: Seq<u8>, instrument: Seq<u8>, note: Seq<u8>)
    requires
        has_fields(name, ordinal, instrument, note),
    ensures
        name.len() == ordinal.len() + instrument.len() + note.len() + 6,
        txt_suffix().is_suffix_of(name),
        forall|j: int|
            0 <= j < name.len() - 4 ==> (name[j] == UNDERSCORE <==> (j == ordinal.len() || j
                == ordinal.len() + 1 + instrument.len())),
        ordinal == name.subrange(0, ordinal.len() as int),
        instrument == name.subrange((ordinal.len() + 1) as int, (ordinal.len() + 1 + instrument.len()) as int),
        note == name.subrange((ordinal.len() + 2 + instrument.len()) as int, name.len() - 4),
{
    let a = ordinal.len() as int;
    let b = a + 1 + instrument.len();
    let c = b + 1 + note.len();
    assert(name.len() == c + 4);
    assert(txt_suffix() =~= name.subrange(name.len() - 4, name.len() as int));
    assert forall|j: int| 0 <= j < name.len() - 4 implies (name[j] == UNDERSCORE <==> (j == a || j == b)) by {
        if j < a {
            assert(name[j] == ordinal[j]);
            assert(ordinal.contains(ordinal[j]));
        } else if a < j < b {
            assert(name[j] == instrument[j - a - 1]);
            assert(instrument.contains(instrument[j - a - 1]));
        } else if b < j {
            assert(name[j] == note[j - b - 1]);
            assert(note.contains(note[j - b - 1]));
        }
    }
    assert(ordinal =~= name.subrange(0, a));
    assert(instrument =~= name.subrange(a + 1, b));
    assert(note =~= name.subrange(b + 1, name.len() - 4));
}

/// A name has the trigger shape in one way only.
pub proof fn lemma_fields_unique(
    name: Seq<u8>,
    o1: Seq<u8>,
    i1: Seq<u8>,
    n1: Seq<u8>,
    o2: Seq<u8>,
    i2: Seq<u8>,
    n2: Seq<u8>,
)
    requires
        has_fields(name, o1, i1, n1),
        has_fields(name, o2, i2, n2),
    ensures
        o1 == o2,
        i1 == i2,
        n1 == n2,
{
    lemma_fields_in_name(name, o1, i1, n1);
    lemma_fields_in_name(name, o2, i2, n2);
    let a1 = o1.len() as int;
    let a2 = o2.len() as int;
    let b1 = a1 + 1 + i1.len();
    let b2 = a2 + 1 + i2.len();
    assert(name[a1] == UNDERSCORE);
    assert(name[a2] == UNDERSCORE);
    assert(name[b1] == UNDERSCORE);
    assert(name[b2] == UNDERSCORE);
    assert(a1 < b1 && a2 < b2);
    assert(a1 == a2 || a1 == b2);
    assert(a2 == a1 || a2 == b1);
    assert(a1 == a2);
    assert(b1 == b2);
}

/// Whether the bytes of `name` in `[from, to)`, put in lower case, are `word`.
fn spells(name: &[u8], from: usize, to: usize, word: &[u8]) -> (r: bool)
    requires
        from <= to <= name.len(),
    ensures
        r == (lower(name@.subrange(from as int, to as int)) == word@),
{
    let ghost field = lower(name@.subrange(from as int, to as int));
    if to - from != word.len() {
        return false;
    }
    let mut i: usize = 0;
    while i < word.len()
        invariant
            from <= to <= name.len(),
            to - from == word.len(),
            i <= word.len(),
            field == lower(name@.subrange(from as int, to as int)),
            forall|j: int| 0 <= j < i ==> field[j] == word@[j],
        decreases word.len() - i,
    {
        if lower_byte(name[from + i]) != word[i] {
            assert(field[i as int] != word@[i as int]);
            return false;
        }
        i += 1;
    }
    assert(field =~= word@);
    true
}

/// Reads the instrument that the bytes of `name` in `[from, to)` spell, whatever their case.
fn read_instrument(name: &[u8], from: usize, to: usize) -> (r: Option<Instrument>)
    requires
        from <= to <= name.len(),
    ensures
        r == instrument_of(lower(name@.subrange(from as int, to as int))),
{
    if spells(name, from, to, Instrument::Bell.name().as_bytes()) {
        Some(Instrument::Bell)
    } else if spells(name, from, to, Instrument::Lancer.name().as_bytes()) {
        Some(Instrument::Lancer)
    } else if spells(name, from, to, Instrument::Organ.name().as_bytes()) {
        Some(Instrument::Organ)
    } else if spells(name, from, to, Instrument::Sine.name().as_bytes()) {
        Some(Instrument::Sine)
    } else {
        None
    }
}

/// Reads the note that the bytes of `name` in `[from, to)` spell, whatever their case.
fn read_note(name: &[u8], from: usize, to: usize) -> (r: Option<Note>)
    requires
        from <= to <= name.len(),
    ensures
        r == note_of(upper(name@.subrange(from as int, to as int))),
{
    let ghost field = upper(name@.subrange(from as int, to as int));
    assert(field.len() == to - from);
    assert(forall|j: int| 0 <= j < to - from ==> field[j] == to_upper(name@[from + j]));
    let len: usize = to - from;
    let mut sharp = false;
    let mut second = false;
    let mut shaped = false;
    if len == 1 {
        shaped = true;
    } else if len == 2 {
        if name[from + 1] == HASH {
            sharp = true;
            shaped = true;
        } else if name[from + 1] == DIGIT_TWO {
            second = true;
            shaped = true;
        }
    } else if len == 3 {
        if name[from + 1] == HASH && name[from + 2] == DIGIT_TWO {
            sharp = true;
            second = true;
            shaped = true;
        }
    }
    let found = if shaped {
        Note::from_parts(upper_byte(name[from]), sharp, second)
    } else {
        None
    };
    proof {
        match found {
            Some(n) => {
                assert(n.text() =~= field);
                assert(is_note_text(field));
                lemma_note_text_injective(n, choose|m: Note| #[trigger] m.text() == field);
            },
            None => {
                assert forall|m: Note| #[trigger] m.text() != field by {
                    let t = m.text();
                    if t == field {
                        assert(t.len() == 1 + (if m.is_sharp() { 1int } else { 0 }) + (if m.is_second_octave() {
                            1int
                        } else {
                            0
                        }));
                        assert(t[0] == m.letter());
                        if t.len() == 2 {
                            assert(t[1] == (if m.is_sharp() { HASH } else { DIGIT_TWO }));
                        }
                        if t.len() == 3 {
                            assert(t[1] == HASH && t[2] == DIGIT_TWO);
                        }
                        assert(shaped);
                        assert(m.is_sharp() == sharp);
                        assert(m.is_second_octave() == second);
                    }
                }
            },
        }
    }
    found
}

/// Reads the trigger that `name` stands for, if it stands for one.
pub fn parse_trigger(name: &[u8]) -> (r: Option<TriggerEvent>)
    ensures
        r == trigger_of(name@),
{
    if !has_txt_suffix(name) {
        proof {
            assert forall|o: Seq<u8>, i: Seq<u8>, n: Seq<u8>| !#[trigger] has_fields(name@, o, i, n) by {
                if has_fields(name@, o, i, n) {
                    lemma_fields_in_name(name@, o, i, n);
                }
            }
        }
        return None;
    }
    let stem: usize = name.len() - 4;
    let first: usize = find_underscore(name, 0, stem);
    let second: usize = if first < stem {
        find_underscore(name, first + 1, stem)
    } else {
        stem
    };
    let third: usize = if second < stem {
        find_underscore(name, second + 1, stem)
    } else {
        stem
    };
    if second == stem || third < stem {
        proof {
            assert forall|o: Seq<u8>, i: Seq<u8>, n: Seq<u8>| !#[trigger] has_fields(name@, o, i, n) by {
                if has_fields(name@, o, i, n) {
                    lemma_fields_in_name(name@, o, i, n);
                    let a = o.len() as int;
                    let b = a + 1 + i.len();
                    assert(name@[a] == UNDERSCORE);
                    assert(name@[b] == UNDERSCORE);
                    if first < stem {
                        assert(first == a);
                        if second < stem {
                            assert(second == b);
                            assert(name@[third as int] == UNDERSCORE);
                        }
                    }
                }
            }
        }
        return None;
    }
    let ghost o = name@.subrange(0, first as int);
    let ghost i = name@.subrange(first + 1, second as int);
    let ghost n = name@.subrange(second + 1, stem as int);
    proof {
        assert(txt_suffix() == name@.subrange(stem as int, name@.len() as int));
        assert(name@ =~= trigger_name(o, i, n));
        assert(!o.contains(UNDERSCORE));
        assert(!i.contains(UNDERSCORE));
        assert(!n.contains(UNDERSCORE));
        assert(has_fields(name@, o, i, n));
        let w = (o, i, n);
        assert(has_fields(name@, w.0, w.1, w.2));
        let f = fields_of(name@);
        lemma_fields_unique(name@, o, i, n, f.0, f.1, f.2);
    }
    let instrument = read_instrument(name, first + 1, second);
    let note = read_note(name, second + 1, stem);
    match (note, instrument) {
        (Some(n), Some(i)) => Some(TriggerEvent { note: n, instrument: i }),
        _ => None,
    }
}

/// Whether `name` is a sequence trigger: it begins with `play`.
pub open spec fn is_sequence_name(name: Seq<u8>) -> bool {
    play_prefix().is_prefix_of(name)
}

/// Whether a node of this name takes part when a sequence is played beside it:
/// it is no sequence trigger itself and stands for a trigger.
pub open spec fn plays_in_sequence(name: Seq<u8>) -> bool {
    !is_sequence_name(name) && trigger_of(name) is Some
}

/// `plays_in_sequence` as a predicate.
pub open spec fn sequence_filter() -> spec_fn(Seq<u8>) -> bool {
    |name: Seq<u8>| plays_in_sequence(name)
}

/// The trigger of a name that stands for one.
pub open spec fn event_of() -> spec_fn(Seq<u8>) -> TriggerEvent {
    |name: Seq<u8>| trigger_of(name).unwrap()
}

/// The triggers that reading a node of this name emits by itself: the one it stands for,
/// or none.
pub open spec fn single_events(name: Seq<u8>) -> Seq<TriggerEvent> {
    match trigger_of(name) {
        Some(e) => seq![e],
        None => Seq::empty(),
    }
}

/// The names that a sequence plays, in playing order: those among `siblings` that take
/// part, in ascending lexicographic order. Names that hold an ordinal without leading
/// zeros are therefore not in numeric order: `10_...` comes before `2_...`.
pub open spec fn sequence_names(siblings: Seq<Seq<u8>>) -> Seq<Seq<u8>> {
    siblings.filter(sequence_filter()).sort_by(name_order())
}

/// The triggers that a sequence trigger emits, given the names of the nodes beside it.
pub open spec fn sequence_events(siblings: Seq<Seq<u8>>) -> Seq<TriggerEvent> {
    sequence_names(siblings).map_values(event_of())
}

/// Whether `name` is a sequence trigger.
pub fn is_sequence_trigger(name: &[u8]) -> (r: bool)
    ensures
        r == is_sequence_name(name@),
{
    has_play_prefix(name)
}

/// The triggers that reading a node of this name emits by itself.
pub fn single_trigger(name: &[u8]) -> (events: Vec<TriggerEvent>)
    ensures
        events@ == single_events(name@),
{
    let mut events: Vec<TriggerEvent> = Vec::new();
    match parse_trigger(name) {
        Some(e) => {
            events.push(e);
            assert(events@ =~= seq![e]);
        },
        None => {},
    }
    events
}

/// Expands a sequence trigger: of the names of the nodes beside it, keeps those that take
/// part, sorts them and reads the trigger of each.
pub fn expand_sequence(siblings: &Vec<Vec<u8>>) -> (events: Vec<TriggerEvent>)
    ensures
        events@ == sequence_events(names_of(siblings@)),
{
    let ghost all = names_of(siblings@);
    let mut kept: Vec<Vec<u8>> = Vec::new();
    let mut k: usize = 0;
    proof {
        reveal(Seq::filter);
        assert(all.take(0) =~= Seq::<Seq<u8>>::empty());
        assert(names_of(kept@) =~= Seq::<Seq<u8>>::empty());
    }
    while k < siblings.len()
        invariant
            k <= siblings.len(),
            all == names_of(siblings@),
            names_of(kept@) == all.take(k as int).filter(sequence_filter()),
        decreases siblings.len() - k,
    {
        let name = siblings[k].as_slice();
        let ghost before = names_of(kept@);
        let takes_part = !is_sequence_trigger(name) && parse_trigger(name).is_some();
        if takes_part {
            kept.push(slice_to_vec(name));
        }
        proof {
            reveal(Seq::filter);
            assert(all.take(k + 1).drop_last() =~= all.take(k as int));
            assert(all.take(k + 1).last() == name@);
            if takes_part {
                assert(names_of(kept@) =~= before.push(name@));
            }
        }
        k += 1;
    }
    proof {
        assert(all.take(siblings.len() as int) =~= all);
    }
    let sorted = sort_names(kept);
    let ghost playing = sequence_names(all);
    proof {
        crate::order::lemma_name_order_total();
        let chosen = all.filter(sequence_filter());
        chosen.lemma_sort_by_ensures(name_order());
        assert forall|i: int| 0 <= i < playing.len() implies plays_in_sequence(#[trigger] playing[i]) by {
            assert(playing.contains(playing[i]));
            assert(chosen.contains(playing[i]));
            let j = choose|j: int| 0 <= j < chosen.len() && chosen[j] == playing[i];
            all.lemma_filter_pred(sequence_filter(), j);
        }
    }
    let mut events: Vec<TriggerEvent> = Vec::new();
    let mut i: usize = 0;
    while i < sorted.len()
        invariant
            i <= sorted.len(),
            names_of(sorted@) == playing,
            forall|j: int| 0 <= j < playing.len() ==> plays_in_sequence(#[trigger] playing[j]),
            events@ == playing.take(i as int).map_values(event_of()),
        decreases sorted.len() - i,
    {
        let ghost before = events@;
        assert(names_of(sorted@)[i as int] == sorted@[i as int]@);
        assert(plays_in_sequence(playing[i as int]));
        match parse_trigger(sorted[i].as_slice()) {
            Some(e) => {
                events.push(e);
            },
            None => {},
        }
        proof {
            assert(events@ =~= playing.take(i + 1).map_values(event_of()));
        }
        i += 1;
    }
    proof {
        assert(playing.take(sorted.len() as int) =~= playing);
    }
    events
}

} // verus!
