//! Plain types of a music score that a reader fills from a document tree.
#![allow(non_camel_case_types)]
use crate::frac::Frac;
use crate::query::same_text;
use crate::tree::XmlAttribute;
use vstd::prelude::*;

verus! {

/// The sign of a clef.
#[derive(Debug, Clone, Copy, PartialEq, Eq, Structural, Hash)]
pub enum ClefSign {
    G,
    F,
    C,
}

pub open spec fn clef_sign_text(s: ClefSign) -> Seq<char> {
    match s {
        ClefSign::G => "G"@,
        ClefSign::F => "F"@,
        ClefSign::C => "C"@,
    }
}

impl ClefSign {
    /// The sign written as `sign`, if it is one of `G`, `F` and `C`.
    pub fn from_str(sign: &str) -> (r: Option<ClefSign>)
        ensures
            match r {
                Some(c) => clef_sign_text(c) == sign@,
                None => sign@ != "G"@ && sign@ != "F"@ && sign@ != "C"@,
            },
    {
        if same_text(sign, "G") {
            Some(ClefSign::G)
        } else if same_text(sign, "F") {
            Some(ClefSign::F)
        } else if same_text(sign, "C") {
            Some(ClefSign::C)
        } else {
            None
        }
    }

    /// How the sign is written.
    pub fn to_str(&self) -> (r: &'static str)
        ensures
            r@ == clef_sign_text(*self),
    {
        match self {
            ClefSign::G => "G",
            ClefSign::F => "F",
            ClefSign::C => "C",
        }
    }
}

/// A clef: its sign and the staff line it sits on.
#[derive(Debug, Clone, Copy, PartialEq, Eq, Structural, Hash)]
pub struct Clef {
    pub sign: ClefSign,
    pub line: u8,
}

/// The contents of an `<attributes>` element.
#[derive(Debug, Clone, Copy, PartialEq, Eq, Hash)]
pub struct attributes {
    pub divisions: Option<u8>,
    pub key: Option<i8>,
    pub time: Option<(u8, u8)>,
    pub clef: Option<Clef>,
    pub staves: Option<u8>,
}

#[derive(Debug, Clone, Copy, PartialEq, Eq, Structural, Hash)]
pub enum Accidental {
    sharp,
    dsharp,
    flat,
    dflat,
    natural,
}

#[derive(Debug, Clone, Copy, PartialEq, Eq, Structural, Hash)]
pub enum Step {
    A,
    B,
    C,
    D,
    E,
    F,
    G,
}

/// A pitch: step, alteration in semitones and octave.
#[derive(Debug, Clone, Copy, PartialEq, Eq, Structural, Hash)]
pub struct Pitch {
    pub step: Step,
    pub alter: Option<i8>,
    pub octave: u8,
}

#[derive(Debug, Clone, Copy, PartialEq, Eq, Structural, Hash)]
pub enum Tie {
    start,
    stop,
}

/// A tuplet ratio: `actual_notes` played in the time of `normal_notes`.
#[derive(Debug, Clone, Copy, PartialEq, Eq, Structural, Hash)]
pub struct TimeModification {
    pub actual_notes: u8,
    pub normal_notes: u8,
}

#[derive(Debug, Clone, Copy, PartialEq, Eq, Structural, Hash)]
pub enum Syllabic {
    single,
    begin,
    end,
    middle,
}

/// A syllable of lyrics and the lyric line it belongs to.
#[derive(Debug, Clone, PartialEq, Eq, Hash)]
pub struct Lyric {
    pub syllabic: Syllabic,
    pub text: String,
    pub number: u8,
}

/// What a general note is: a note, a rest, or a note of a chord.
#[derive(Debug, Clone, Copy, PartialEq, Eq, Structural, Hash)]
pub enum GnoteVariants {
    Note,
    Rest,
    Chord,
}

/// A note, rest or chord note as read from a `<note>` element.
#[derive(Debug)]
pub struct Gnote<'a> {
    /// The attributes of the `<note>` element, kept for writing it back.
    pub xml_attrs: &'a Vec<XmlAttribute>,
    pub variant: GnoteVariants,
    pub pitch: Vec<Pitch>,
    pub accidental: Option<Accidental>,
    /// The length in quarter notes.
    pub duration: Frac,
    pub time_mod: Option<TimeModification>,
    pub length_type: String,
    /// The number of dots.
    pub dot: usize,
    pub tie: Option<Tie>,
    pub lyrics: Vec<Lyric>,
}

/// The divisor of a whole note that a note type names (`"quarter"` is 4).
pub open spec fn length_divisor(name: Seq<char>) -> Option<u16> {
    if name == "whole"@ {
        Some(1)
    } else if name == "half"@ {
        Some(2)
    } else if name == "quarter"@ {
        Some(4)
    } else if name == "eighth"@ {
        Some(8)
    } else if name == "16th"@ {
        Some(16)
    } else if name == "32nd"@ {
        Some(32)
    } else if name == "64th"@ {
        Some(64)
    } else if name == "128th"@ {
        Some(128)
    } else if name == "256th"@ {
        Some(256)
    } else if name == "512th"@ {
        Some(512)
    } else {
        None
    }
}

/// The divisor of a whole note that the note type `name` names.
pub fn length_type_divisor(name: &str) -> (r: Option<u16>)
    ensures
        r == length_divisor(name@),
{
    if same_text(name, "whole") {
        Some(1)
    } else if same_text(name, "half") {
        Some(2)
    } else if same_text(name, "quarter") {
        Some(4)
    } else if same_text(name, "eighth") {
        Some(8)
    } else if same_text(name, "16th") {
        Some(16)
    } else if same_text(name, "32nd") {
        Some(32)
    } else if same_text(name, "64th") {
        Some(64)
    } else if same_text(name, "128th") {
        Some(128)
    } else if same_text(name, "256th") {
        Some(256)
    } else if same_text(name, "512th") {
        Some(512)
    } else {
        None
    }
}

} // verus!
