use score_xml::score::{length_type_divisor, ClefSign};

#[test]
fn general_note_test_note_split() {}

#[test]
fn general_note_test_note() {
    println!("{:?}", length_type_divisor("eighth"));
    assert_eq!(length_type_divisor("eighth"), Some(8));
}

#[test]
fn general_note_test_2() {}

#[test]
fn gnote_test_note_split() {}

#[test]
fn gnote_test_2() {}

#[test]
fn length_types() {
    assert_eq!(length_type_divisor("whole"), Some(1));
    assert_eq!(length_type_divisor("512th"), Some(512));
    assert_eq!(length_type_divisor("breve"), None);
}

#[test]
fn clef_sign_text() {
    assert_eq!(ClefSign::from_str("F"), Some(ClefSign::F));
    assert_eq!(ClefSign::from_str("X"), None);
    assert_eq!(ClefSign::C.to_str(), "C");
    assert_eq!(ClefSign::from_str(ClefSign::G.to_str()), Some(ClefSign::G));
}

use score_xml::samples::{attr_xml, measure_xml};
use score_xml::score::{attributes, Accidental, Clef, Gnote, GnoteVariants, Pitch, Step, Syllabic, Tie, TimeModification, Lyric};
use score_xml::tree::XmlTag;
use score_xml::frac::Frac;

#[test]
fn test1() {
    let xml_tag = XmlTag::from_buffer(attr_xml()).unwrap();
    let attr = attributes::from_xml_tag(&xml_tag);
    println!("{:#?}", attr);
    println!("{}", attr.to_xml_tag().debug_text(0));
    assert_eq!(attr.divisions, Some(6));
    assert_eq!(attr.key, Some(0));
    assert_eq!(attr.time, Some((4, 4)));
    assert_eq!(attr.clef, Some(Clef { sign: ClefSign::G, line: 2 }));
    assert_eq!(attr.staves, Some(2));
}

#[test]
fn attributes_written_back_read_the_same() {
    let attr = attributes {
        divisions: Some(8),
        key: Some(-3),
        time: Some((3, 8)),
        clef: Some(Clef { sign: ClefSign::F, line: 4 }),
        staves: None,
    };
    let tag = attr.to_xml_tag();
    assert_eq!(tag.name, "attributes");
    let names: Vec<&str> = tag.child_tags.iter().map(|c| c.name.as_str()).collect();
    assert_eq!(names, vec!["divisions", "key", "time", "clef"]);
    assert_eq!(tag.get_tag_content("key/fifths"), Ok("-3".to_string()));
    assert_eq!(attributes::from_xml_tag(&tag), attr);
}

#[test]
fn pitch_round_trip() {
    let p = Pitch { step: Step::E, alter: Some(-1), octave: 3 };
    let tag = p.to_xml_tag();
    assert_eq!(tag.name, "pitch");
    let names: Vec<&str> = tag.child_tags.iter().map(|c| c.name.as_str()).collect();
    assert_eq!(names, vec!["step", "octave", "alter"]);
    assert_eq!(tag.get_tag_content("alter"), Ok("-1".to_string()));
    assert_eq!(Pitch::from_xml_tag(&tag), Some(p));
}

#[test]
fn tie_written_as_note() {
    let tag = Tie::start.to_xml_tag();
    assert_eq!(tag.name, "note");
    assert_eq!(tag.search_path_unique("tie").unwrap().get_attribute_value("type"), Some("start".to_string()));
    assert_eq!(Tie::from_xml_tag(tag.search_path_unique("notations/tied").unwrap()), Some(Tie::start));
    let stop = XmlTag::from_buffer(b"<tie type=\"end\"/>").unwrap();
    assert_eq!(Tie::from_xml_tag(&stop), Some(Tie::stop));
}

#[test]
fn time_modification_round_trip() {
    let t = TimeModification { actual_notes: 3, normal_notes: 2 };
    assert_eq!(TimeModification::from_xml_tag(&t.to_xml_tag()), Some(t));
}

#[test]
fn accidental_and_lyric() {
    let acc = XmlTag::from_buffer(b"<accidental>flat-flat</accidental>").unwrap();
    assert_eq!(Accidental::from_xml_tag(&acc), Some(Accidental::dflat));
    let lyric = XmlTag::from_buffer(b"<lyric number=\"2\"><syllabic>begin</syllabic><text>la</text></lyric>").unwrap();
    assert_eq!(
        Lyric::from_xml_tag(&lyric),
        Some(Lyric { syllabic: Syllabic::begin, text: "la".to_string(), number: 2 })
    );
}

#[test]
fn notes_of_a_measure() {
    let measure = XmlTag::from_buffer(measure_xml()).unwrap();
    let attrs = attributes::from_xml_tag(measure.search_path_unique("attributes").unwrap());
    let notes = measure.search_path("note");
    assert_eq!(notes.len(), 7);
    let first: Gnote = Gnote::from_xml_tag(notes[0], &attrs).unwrap();
    assert_eq!(first.variant, GnoteVariants::Note);
    assert_eq!(first.pitch, vec![Pitch { step: Step::C, alter: None, octave: 4 }]);
    assert!(first.duration == Frac::new(1, 1));
    assert_eq!(first.length_type, "quarter");
    let dotted = Gnote::from_xml_tag(notes[1], &attrs).unwrap();
    assert_eq!(dotted.dot, 1);
    assert!(dotted.duration == Frac::new(3, 2));
    let tied = Gnote::from_xml_tag(notes[3], &attrs).unwrap();
    assert_eq!(tied.tie, Some(Tie::start));
    let chord = Gnote::from_xml_tag(notes[5], &attrs).unwrap();
    assert_eq!(chord.variant, GnoteVariants::Chord);
}

fn note_xml1() -> &'static [u8] {
    r#"<note default-x="116.30" default-y="-120.00" dynamics="97.78">
        <pitch>
          <step>E</step>
          <octave>3</octave>
          </pitch>
        <duration>12</duration>
        <voice>5</voice>
        <tie type="start" />
        <lyric name="1" number="1">
          <syllabic>single</syllabic>
          <text>0.0</text>
        </lyric>
        <lyric name="2" number="2">
          <syllabic>single</syllabic>
          <text>dfs</text>
        </lyric>
        <type>half</type>
        <stem>down</stem>
        <dot/>
        <staff>2</staff>
        </note>"#
        .as_bytes()
}

fn note_attr() -> &'static [u8] {
    r#"<attributes>
        <divisions>6</divisions>
        <key>
          <fifths>0</fifths>
          </key>
        <time>
          <beats>4</beats>
          <beat-type>4</beat-type>
          </time>
        <clef>
          <sign>F</sign>
          <line>4</line>
          </clef>
        </attributes>"#
        .as_bytes()
}

#[test]
fn gnote_test_note() {
    let note_xml = XmlTag::from_buffer(note_xml1()).unwrap();
    let attr_xml = XmlTag::from_buffer(note_attr()).unwrap();
    let attr = attributes::from_xml_tag(&attr_xml);
    println!("{:#?}", attr);
    let gnote = Gnote::from_xml_tag(&note_xml, &attr).unwrap();
    println!("{:#?}", gnote);
    assert_eq!(gnote.variant, GnoteVariants::Note);
    assert!(gnote.duration == Frac::new(2, 1));
    assert_eq!(gnote.tie, Some(Tie::start));
    assert_eq!(gnote.dot, 1);
    assert_eq!(gnote.length_type, "half");
    assert_eq!(gnote.lyrics.len(), 2);
    assert_eq!(gnote.lyrics[1].text, "dfs");
    assert_eq!(gnote.lyrics[1].number, 2);
    assert_eq!(gnote.xml_attrs.len(), 3);
}
