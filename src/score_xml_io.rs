//! Reading the score types from document trees and writing them back as trees.
use crate::builder::{child_index, lemma_child_index, new_node, with_attribute};
use crate::frac::Frac;
use crate::query::{attribute_value, nodes_at, same_text, text_at};
use crate::score::{
    attributes, clef_sign_text, Accidental, Clef, ClefSign, Gnote, GnoteVariants, Lyric, Pitch,
    Step, Syllabic, Tie, TimeModification,
};
use crate::tree::{lemma_nodes_of, nodes_of, text_view, with_child, Node, XmlError, XmlTag};
use vstd::prelude::*;

verus! {

pub open spec fn step_text(s: Step) -> Seq<char> {
    match s {
        Step::A => "A"@,
        Step::B => "B"@,
        Step::C => "C"@,
        Step::D => "D"@,
        Step::E => "E"@,
        Step::F => "F"@,
        Step::G => "G"@,
    }
}

pub open spec fn accidental_text(a: Accidental) -> Seq<char> {
    match a {
        Accidental::sharp => "sharp"@,
        Accidental::dsharp => "double-sharp"@,
        Accidental::flat => "flat"@,
        Accidental::dflat => "flat-flat"@,
        Accidental::natural => "natural"@,
    }
}

pub open spec fn syllabic_text(s: Syllabic) -> Seq<char> {
    match s {
        Syllabic::single => "single"@,
        Syllabic::begin => "begin"@,
        Syllabic::end => "end"@,
        Syllabic::middle => "middle"@,
    }
}

/// The value of a tie's `type` attribute when it is written.
pub open spec fn tie_written_text(t: Tie) -> Seq<char> {
    match t {
        Tie::start => "start"@,
        Tie::stop => "stop"@,
    }
}

/// An element named `name` with the one attribute `type="value"`.
pub open spec fn typed_node(name: Seq<char>, value: Seq<char>) -> Node {
    with_attribute(new_node(name), "type"@, value)
}

/// The value of a tie's `type` attribute when it is read.
pub open spec fn tie_read_text(t: Tie) -> Seq<char> {
    match t {
        Tie::start => "start"@,
        Tie::stop => "end"@,
    }
}

fn step_from_text(s: &str) -> (r: Option<Step>)
    ensures
        r matches Some(st) ==> step_text(st) == s@,
{
    if same_text(s, "A") {
        Some(Step::A)
    } else if same_text(s, "B") {
        Some(Step::B)
    } else if same_text(s, "C") {
        Some(Step::C)
    } else if same_text(s, "D") {
        Some(Step::D)
    } else if same_text(s, "E") {
        Some(Step::E)
    } else if same_text(s, "F") {
        Some(Step::F)
    } else if same_text(s, "G") {
        Some(Step::G)
    } else {
        None
    }
}

fn step_to_text(s: Step) -> (r: &'static str)
    ensures
        r@ == step_text(s),
{
    match s {
        Step::A => "A",
        Step::B => "B",
        Step::C => "C",
        Step::D => "D",
        Step::E => "E",
        Step::F => "F",
        Step::G => "G",
    }
}

fn syllabic_from_text(s: &str) -> (r: Option<Syllabic>)
    ensures
        r matches Some(sy) ==> syllabic_text(sy) == s@,
{
    if same_text(s, "single") {
        Some(Syllabic::single)
    } else if same_text(s, "begin") {
        Some(Syllabic::begin)
    } else if same_text(s, "end") {
        Some(Syllabic::end)
    } else if same_text(s, "middle") {
        Some(Syllabic::middle)
    } else {
        None
    }
}

impl Accidental {
    /// The accidental that the element's text names.
    pub fn from_xml_tag(accidental_tag: &XmlTag) -> (r: Option<Accidental>)
        ensures
            r matches Some(a) ==> text_view(accidental_tag.text) == Some(accidental_text(a)),
            accidental_tag.text is None ==> r is None,
    {
        match &accidental_tag.text {
            None => None,
            Some(t) => {
                let t = t.as_str();
                if same_text(t, "sharp") {
                    Some(Accidental::sharp)
                } else if same_text(t, "double-sharp") {
                    Some(Accidental::dsharp)
                } else if same_text(t, "flat") {
                    Some(Accidental::flat)
                } else if same_text(t, "flat-flat") {
                    Some(Accidental::dflat)
                } else if same_text(t, "natural") {
                    Some(Accidental::natural)
                } else {
                    None
                }
            },
        }
    }
}

impl Pitch {
    /// The pitch in a `<pitch>` element: its `step`, `octave` and optional `alter`.
    pub fn from_xml_tag(pitch_tag: &XmlTag) -> (r: Option<Pitch>)
        ensures
            r matches Some(p) ==> text_at(pitch_tag@, "step"@) == Ok::<Seq<char>, XmlError>(
                step_text(p.step),
            ),
            r matches Some(p) ==> text_at(pitch_tag@, "octave"@) is Ok,
            r matches Some(p) ==> (p.alter is Some ==> text_at(pitch_tag@, "alter"@) is Ok),
            text_at(pitch_tag@, "step"@) is Err ==> r is None,
    {
        let step = match pitch_tag.get_tag_content("step") {
            Ok(s) => match step_from_text(s.as_str()) {
                Some(st) => st,
                None => return None,
            },
            Err(_) => return None,
        };
        let octave = match pitch_tag.get_tag_content_as::<u8>("octave") {
            Ok(o) => o,
            Err(_) => return None,
        };
        let alter = match pitch_tag.get_tag_content_as::<i8>("alter") {
            Ok(a) => Some(a),
            Err(_) => None,
        };
        Some(Pitch { step, alter, octave })
    }

    /// `<pitch>` with `<step>`, `<octave>` and, if there is one, `<alter>`.
    pub fn to_xml_tag(&self) -> (r: XmlTag)
        ensures
            r@.name == "pitch"@,
            r@.attributes.len() == 0,
            names_of(r@.children) == seq!["step"@, "octave"@] + name_if(self.alter, "alter"@),
    {
        proof {
            reveal_strlit("step");
            reveal_strlit("octave");
            reveal_strlit("alter");
            assert("step"@.len() == 4 && "octave"@.len() == 6 && "alter"@.len() == 5);
        }
        let mut builder = XmlTag::new_tag_builder();
        let pitch = builder.add_tag("pitch");
        let ghost mut names: Seq<Seq<char>> = Seq::empty();
        proof {
            assert(names_of(pitch@.children) =~= names);
            lemma_new_name(pitch@.children, names, "step"@);
        }
        let ghost before = pitch.child_tags@;
        let step = pitch.add_tag("step");
        step.add_text(step_to_text(self.step));
        proof {
            assert(pitch.child_tags@.drop_last() =~= before);
            lemma_named_push(names, "step"@, pitch.child_tags@);
            names = names.push("step"@);
            assert forall|k: int| 0 <= k < names.len() implies names[k] != "octave"@ by {}
            lemma_new_name(pitch@.children, names, "octave"@);
        }
        let ghost before = pitch.child_tags@;
        let octave = pitch.add_tag("octave");
        octave.add_text(self.octave.to_string().as_str());
        proof {
            assert(pitch.child_tags@.drop_last() =~= before);
            lemma_named_push(names, "octave"@, pitch.child_tags@);
            names = names.push("octave"@);
        }
        match self.alter {
            Some(a) => {
                let ghost before = pitch.child_tags@;
                proof {
                    assert forall|k: int| 0 <= k < names.len() implies names[k] != "alter"@ by {}
                    lemma_new_name(pitch@.children, names, "alter"@);
                }
                let alter = pitch.add_tag("alter");
                alter.add_text(a.to_string().as_str());
                proof {
                    assert(pitch.child_tags@.drop_last() =~= before);
                    lemma_named_push(names, "alter"@, pitch.child_tags@);
                    names = names.push("alter"@);
                }
            },
            None => {},
        }
        proof {
            assert(names =~= seq!["step"@, "octave"@] + name_if(self.alter, "alter"@));
        }
        builder.built_tag()
    }
}

impl Tie {
    /// The tie that the element's `type` attribute names: `start`, or `end` for a stop.
    pub fn from_xml_tag(tie_tag: &XmlTag) -> (r: Option<Tie>)
        ensures
            r matches Some(t) ==> attribute_value(tie_tag@.attributes, "type"@) == Some(
                tie_read_text(t),
            ),
            attribute_value(tie_tag@.attributes, "type"@) is None ==> r is None,
    {
        match tie_tag.get_attribute_value("type") {
            None => None,
            Some(v) => {
                if same_text(v.as_str(), "start") {
                    Some(Tie::start)
                } else if same_text(v.as_str(), "end") {
                    Some(Tie::stop)
                } else {
                    None
                }
            },
        }
    }

    /// `<note>` holding the two elements a tie needs: `<tie type=..>` and
    /// `<notations><tied type=..>`.
    pub fn to_xml_tag(&self) -> (r: XmlTag)
        ensures
            r@ == with_child(
                with_child(new_node("note"@), typed_node("tie"@, tie_written_text(*self))),
                with_child(new_node("notations"@), typed_node("tied"@, tie_written_text(*self))),
            ),
    {
        let variant_str = match self {
            Tie::start => "start",
            Tie::stop => "stop",
        };
        let mut builder = XmlTag::new_tag_builder();
        let note_tag = builder.add_tag("note");
        let tie = note_tag.add_tag("tie");
        tie.add_attribute("type", variant_str);
        proof {
            assert(note_tag.child_tags@.len() == 1);
            assert(note_tag.child_tags@[0]@.name == "tie"@);
            reveal_strlit("tie");
            reveal_strlit("notations");
            reveal_with_fuel(child_index, 2);
            lemma_nodes_of(note_tag.child_tags@);
        }
        let notations = note_tag.add_tag("notations");
        let tied = notations.add_tag("tied");
        tied.add_attribute("type", variant_str);
        proof {
            let v = tie_written_text(*self);
            assert(variant_str@ == v);
            assert(note_tag.child_tags@.len() == 2);
            let nn = note_tag.child_tags@[1];
            lemma_nodes_of(nn.child_tags@);
            assert(nn.child_tags@.len() == 1);
            let t = nn.child_tags@[0];
            assert(t@ == typed_node("tied"@, v));
            assert(nn@.children =~= seq![typed_node("tied"@, v)]);
            assert(nn@ == with_child(new_node("notations"@), typed_node("tied"@, v)));
            let t0 = note_tag.child_tags@[0];
            assert(t0@ == typed_node("tie"@, v));
        }
        let r = builder.built_tag();
        proof {
            let v = tie_written_text(*self);
            let expected = with_child(
                with_child(new_node("note"@), typed_node("tie"@, v)),
                with_child(new_node("notations"@), typed_node("tied"@, v)),
            );
            lemma_nodes_of(r.child_tags@);
            assert(r@.children =~= expected.children);
            assert(r@.attributes =~= expected.attributes);
            assert(r@ == expected);
        }
        r
    }
}

impl TimeModification {
    /// The ratio in a `<time-modification>` element.
    pub fn from_xml_tag(xml_tag: &XmlTag) -> (r: Option<TimeModification>)
        ensures
            r is Some ==> text_at(xml_tag@, "actual-notes"@) is Ok && text_at(
                xml_tag@,
                "normal-notes"@,
            ) is Ok,
    {
        let actual_notes = match xml_tag.get_tag_content_as::<u8>("actual-notes") {
            Ok(n) => n,
            Err(_) => return None,
        };
        let normal_notes = match xml_tag.get_tag_content_as::<u8>("normal-notes") {
            Ok(n) => n,
            Err(_) => return None,
        };
        Some(TimeModification { actual_notes, normal_notes })
    }

    /// `<time-modification>` with `<actual-notes>` and `<normal-notes>`.
    pub fn to_xml_tag(&self) -> (r: XmlTag)
        ensures
            r@.name == "time-modification"@,
            r@.attributes.len() == 0,
            names_of(r@.children) == seq!["actual-notes"@, "normal-notes"@],
    {
        proof {
            reveal_strlit("actual-notes");
            reveal_strlit("normal-notes");
            assert("actual-notes"@[0] == 'a' && "normal-notes"@[0] == 'n');
        }
        let mut builder = XmlTag::new_tag_builder();
        let time_mod_tag = builder.add_tag("time-modification");
        let ghost names: Seq<Seq<char>> = Seq::empty();
        proof {
            assert(names_of(time_mod_tag@.children) =~= names);
            lemma_new_name(time_mod_tag@.children, names, "actual-notes"@);
        }
        let ghost before = time_mod_tag.child_tags@;
        let actual = time_mod_tag.add_tag("actual-notes");
        actual.add_text(self.actual_notes.to_string().as_str());
        proof {
            assert(time_mod_tag.child_tags@.drop_last() =~= before);
            lemma_named_push(names, "actual-notes"@, time_mod_tag.child_tags@);
            assert forall|k: int| 0 <= k < names.push("actual-notes"@).len() implies names.push(
                "actual-notes"@,
            )[k] != "normal-notes"@ by {}
            lemma_new_name(time_mod_tag@.children, names.push("actual-notes"@), "normal-notes"@);
        }
        let ghost before = time_mod_tag.child_tags@;
        let normal = time_mod_tag.add_tag("normal-notes");
        normal.add_text(self.normal_notes.to_string().as_str());
        proof {
            assert(time_mod_tag.child_tags@.drop_last() =~= before);
            lemma_named_push(names.push("actual-notes"@), "normal-notes"@, time_mod_tag.child_tags@);
            assert(names.push("actual-notes"@).push("normal-notes"@) =~= seq![
                "actual-notes"@,
                "normal-notes"@,
            ]);
        }
        builder.built_tag()
    }
}

impl Lyric {
    /// The syllable in a `<lyric>` element; its line is the `number` attribute, 1 if
    /// absent or not a number.
    pub fn from_xml_tag(lyric_tag: &XmlTag) -> (r: Option<Lyric>)
        ensures
            r matches Some(l) ==> text_at(lyric_tag@, "syllabic"@) == Ok::<Seq<char>, XmlError>(
                syllabic_text(l.syllabic),
            ),
            r matches Some(l) ==> text_at(lyric_tag@, "text"@) == Ok::<Seq<char>, XmlError>(
                l.text@,
            ),
            attribute_value(lyric_tag@.attributes, "number"@) is None ==> (r matches Some(l) ==> l.number
                == 1),
    {
        let syllabic = match lyric_tag.get_tag_content("syllabic") {
            Ok(s) => match syllabic_from_text(s.as_str()) {
                Some(sy) => sy,
                None => return None,
            },
            Err(_) => return None,
        };
        let text = match lyric_tag.get_tag_content("text") {
            Ok(t) => t,
            Err(_) => return None,
        };
        let number = match lyric_tag.get_attribute_as::<u8>("number") {
            Some(n) => n,
            None => 1,
        };
        Some(Lyric { syllabic, text, number })
    }
}

pub open spec fn names_of(s: Seq<Node>) -> Seq<Seq<char>> {
    s.map_values(|n: Node| n.name)
}

pub open spec fn name_if<T>(o: Option<T>, name: Seq<char>) -> Seq<Seq<char>> {
    if o is Some {
        seq![name]
    } else {
        Seq::empty()
    }
}

/// The names of the children that `to_xml_tag` writes for `a`.
pub open spec fn attributes_child_names(a: attributes) -> Seq<Seq<char>> {
    name_if(a.divisions, "divisions"@) + name_if(a.key, "key"@) + name_if(a.time, "time"@)
        + name_if(a.clef, "clef"@) + name_if(a.staves, "staves"@)
}

proof fn lemma_new_name(s: Seq<Node>, names: Seq<Seq<char>>, name: Seq<char>)
    requires
        names_of(s) == names,
        forall|k: int| 0 <= k < names.len() ==> names[k] != name,
    ensures
        child_index(s, name) == s.len(),
{
    assert forall|k: int| 0 <= k < s.len() implies s[k].name != name by {
        assert(names[k] == s[k].name);
    }
    lemma_child_index(s, name, s.len() as int);
}

proof fn lemma_named_push(names: Seq<Seq<char>>, name: Seq<char>, tags: Seq<XmlTag>)
    requires
        tags.len() > 0,
        names_of(nodes_of(tags.drop_last())) == names,
        tags.last()@.name == name,
    ensures
        names_of(nodes_of(tags)) == names.push(name),
{
    lemma_nodes_of(tags);
    lemma_nodes_of(tags.drop_last());
    assert(names_of(nodes_of(tags)) =~= names.push(name));
}

impl attributes {
    /// The contents of an `<attributes>` element. A field is `None` when its element
    /// is missing or does not read as its type.
    pub fn from_xml_tag(xml_tag: &XmlTag) -> (r: attributes)
        requires
            xml_tag@.name == "attributes"@,
        ensures
            r.divisions is Some ==> text_at(xml_tag@, "divisions"@) is Ok,
            r.key is Some ==> text_at(xml_tag@, "key/fifths"@) is Ok,
            r.time is Some ==> text_at(xml_tag@, "time/beats"@) is Ok && text_at(
                xml_tag@,
                "time/beat-type"@,
            ) is Ok,
            r.clef matches Some(c) ==> text_at(xml_tag@, "clef/sign"@)
                == Ok::<Seq<char>, XmlError>(clef_sign_text(c.sign)),
            r.clef is Some ==> text_at(xml_tag@, "clef/line"@) is Ok,
            r.staves is Some ==> text_at(xml_tag@, "staves"@) is Ok,
    {
        let divisions = match xml_tag.get_tag_content_as::<u8>("divisions") {
            Ok(d) => Some(d),
            Err(_) => None,
        };
        let key = match xml_tag.get_tag_content_as::<i8>("key/fifths") {
            Ok(k) => Some(k),
            Err(_) => None,
        };
        let time = match xml_tag.get_tag_content_as::<u8>("time/beats") {
            Ok(beats) => match xml_tag.get_tag_content_as::<u8>("time/beat-type") {
                Ok(beat_type) => Some((beats, beat_type)),
                Err(_) => None,
            },
            Err(_) => None,
        };
        let clef = match xml_tag.get_tag_content("clef/sign") {
            Ok(s) => match ClefSign::from_str(s.as_str()) {
                Some(sign) => match xml_tag.get_tag_content_as::<u8>("clef/line") {
                    Ok(line) => Some(Clef { sign, line }),
                    Err(_) => None,
                },
                None => None,
            },
            Err(_) => None,
        };
        let staves = match xml_tag.get_tag_content_as::<u8>("staves") {
            Ok(s) => Some(s),
            Err(_) => None,
        };
        attributes { divisions, key, time, clef, staves }
    }

    /// `<attributes>` with an element for each field that is set, in the order
    /// divisions, key, time, clef, staves.
    pub fn to_xml_tag(&self) -> (r: XmlTag)
        ensures
            r@.name == "attributes"@,
            r@.attributes.len() == 0,
            names_of(r@.children) == attributes_child_names(*self),
    {
        proof {
            reveal_strlit("divisions");
            reveal_strlit("key");
            reveal_strlit("time");
            reveal_strlit("clef");
            reveal_strlit("staves");
            assert("divisions"@.len() == 9);
            assert("key"@.len() == 3);
            assert("time"@.len() == 4 && "time"@[0] == 't');
            assert("clef"@.len() == 4 && "clef"@[0] == 'c');
            assert("staves"@.len() == 6);
        }
        let mut builder = XmlTag::new_tag_builder();
        let attr = builder.add_tag("attributes");
        let ghost mut names: Seq<Seq<char>> = Seq::empty();
        proof {
            assert(names_of(attr@.children) =~= names);
        }
        match self.divisions {
            Some(d) => {
                let ghost before = attr.child_tags@;
                proof {
                    assert forall|k: int| 0 <= k < names.len() implies names[k] != "divisions"@ by {}
                    lemma_new_name(attr@.children, names, "divisions"@);
                }
                let div = attr.add_tag("divisions");
                div.add_text(d.to_string().as_str());
                proof {
                    assert(attr.child_tags@.drop_last() =~= before);
                    lemma_named_push(names, "divisions"@, attr.child_tags@);
                    names = names.push("divisions"@);
                }
            },
            None => {},
        }
        match self.key {
            Some(k) => {
                let ghost before = attr.child_tags@;
                proof {
                    assert forall|k: int| 0 <= k < names.len() implies names[k] != "key"@ by {}
                    lemma_new_name(attr@.children, names, "key"@);
                }
                let key = attr.add_tag("key");
                let fifths = key.add_tag("fifths");
                fifths.add_text(k.to_string().as_str());
                proof {
                    assert(attr.child_tags@.drop_last() =~= before);
                    lemma_named_push(names, "key"@, attr.child_tags@);
                    names = names.push("key"@);
                }
            },
            None => {},
        }
        match self.time {
            Some((beats, beat_type)) => {
                let ghost before = attr.child_tags@;
                proof {
                    assert forall|k: int| 0 <= k < names.len() implies names[k] != "time"@ by {}
                    lemma_new_name(attr@.children, names, "time"@);
                }
                let time = attr.add_tag("time");
                let b = time.add_tag("beats");
                b.add_text(beats.to_string().as_str());
                let bt = time.add_tag("beat-type");
                bt.add_text(beat_type.to_string().as_str());
                proof {
                    assert(attr.child_tags@.drop_last() =~= before);
                    lemma_named_push(names, "time"@, attr.child_tags@);
                    names = names.push("time"@);
                }
            },
            None => {},
        }
        match self.clef {
            Some(c) => {
                let ghost before = attr.child_tags@;
                proof {
                    assert forall|k: int| 0 <= k < names.len() implies names[k] != "clef"@ by {}
                    lemma_new_name(attr@.children, names, "clef"@);
                }
                let clef = attr.add_tag("clef");
                let sign = clef.add_tag("sign");
                sign.add_text(c.sign.to_str());
                let line = clef.add_tag("line");
                line.add_text(c.line.to_string().as_str());
                proof {
                    assert(attr.child_tags@.drop_last() =~= before);
                    lemma_named_push(names, "clef"@, attr.child_tags@);
                    names = names.push("clef"@);
                }
            },
            None => {},
        }
        match self.staves {
            Some(st) => {
                let ghost before = attr.child_tags@;
                proof {
                    assert forall|k: int| 0 <= k < names.len() implies names[k] != "staves"@ by {}
                    lemma_new_name(attr@.children, names, "staves"@);
                }
                let staves = attr.add_tag("staves");
                staves.add_text(st.to_string().as_str());
                proof {
                    assert(attr.child_tags@.drop_last() =~= before);
                    lemma_named_push(names, "staves"@, attr.child_tags@);
                    names = names.push("staves"@);
                }
            },
            None => {},
        }
        proof {
            assert(names =~= attributes_child_names(*self));
        }
        builder.built_tag()
    }
}

/// The kind of note that a `<note>` element holds: a rest if it has a `<rest>`, else a
/// chord note if it has a `<chord>`, else a plain note.
pub open spec fn note_variant(n: crate::tree::Node) -> GnoteVariants {
    if nodes_at(n, "rest"@).len() > 0 {
        GnoteVariants::Rest
    } else if nodes_at(n, "chord"@).len() > 0 {
        GnoteVariants::Chord
    } else {
        GnoteVariants::Note
    }
}

impl<'a> Gnote<'a> {
    /// The note in a `<note>` element, its duration counted in quarter notes with the
    /// `divisions` per quarter of `attrs`. `None` when a part it needs is missing or
    /// does not read.
    pub fn from_xml_tag(xml_tag: &'a XmlTag, attrs: &attributes) -> (r: Option<Gnote<'a>>)
        ensures
            r matches Some(g) ==> g.variant == note_variant(xml_tag@),
            r matches Some(g) ==> g.dot == nodes_at(xml_tag@, "dot"@).len(),
            r matches Some(g) ==> text_at(xml_tag@, "type"@) == Ok::<Seq<char>, XmlError>(
                g.length_type@,
            ),
            r matches Some(g) ==> (g.duration@ matches crate::frac::Rational::Finite { .. }),
            attrs.divisions is None ==> r is None,
    {
        let variant = if xml_tag.path_exists("rest") {
            GnoteVariants::Rest
        } else if xml_tag.path_exists("chord") {
            GnoteVariants::Chord
        } else {
            GnoteVariants::Note
        };
        let mut pitch: Vec<Pitch> = Vec::new();
        match xml_tag.search_path_unique("pitch") {
            Some(p) => match Pitch::from_xml_tag(p) {
                Some(p) => pitch.push(p),
                None => return None,
            },
            None => {},
        }
        let accidental = match xml_tag.search_path_unique("accidental") {
            Some(a) => Accidental::from_xml_tag(a),
            None => None,
        };
        let divisions = match attrs.divisions {
            Some(d) => d,
            None => return None,
        };
        if divisions == 0 {
            return None;
        }
        let length = match xml_tag.get_tag_content_as::<u32>("duration") {
            Ok(d) => d,
            Err(_) => return None,
        };
        let duration = Frac::new(length, divisions as u32);
        let time_mod = match xml_tag.search_path_unique("time-modification") {
            Some(t) => TimeModification::from_xml_tag(t),
            None => None,
        };
        let length_type = match xml_tag.get_tag_content("type") {
            Ok(t) => t,
            Err(_) => return None,
        };
        let dot = xml_tag.count_tag("dot");
        let tie = match xml_tag.search_path_unique("tie") {
            Some(t) => Tie::from_xml_tag(t),
            None => None,
        };
        let found = xml_tag.search_path("lyric");
        let mut lyrics: Vec<Lyric> = Vec::new();
        let mut i: usize = 0;
        while i < found.len()
            invariant
                i <= found.len(),
            decreases found.len() - i,
        {
            match Lyric::from_xml_tag(found[i]) {
                Some(l) => lyrics.push(l),
                None => return None,
            }
            i += 1;
        }
        Some(
            Gnote {
                xml_attrs: &xml_tag.attributes,
                variant,
                pitch,
                accidental,
                duration,
                time_mod,
                length_type,
                dot,
                tie,
                lyrics,
            },
        )
    }
}

} // verus!
