use score_xml::samples::xml_info;
use score_xml::tree::{XmlAttribute, XmlError, XmlEvent, XmlTag};

fn start(name: &str) -> XmlEvent {
    XmlEvent::StartElement { name: name.to_string(), attributes: Vec::new() }
}

fn start_with(name: &str, attrs: &[(&str, &str)]) -> XmlEvent {
    XmlEvent::StartElement {
        name: name.to_string(),
        attributes: attrs
            .iter()
            .map(|(k, v)| XmlAttribute { name: k.to_string(), value: v.to_string() })
            .collect(),
    }
}

fn end(name: &str) -> XmlEvent {
    XmlEvent::EndElement { name: name.to_string() }
}

fn text(t: &str) -> XmlEvent {
    XmlEvent::Characters { text: t.to_string() }
}

fn names(tags: &[&XmlTag]) -> Vec<String> {
    tags.iter().map(|t| t.name.clone()).collect()
}

#[test]
fn xml_tag_test_from() {
    let xml_tree = XmlTag::from_buffer(xml_info()).unwrap();
    println!("{}", xml_tree.debug_text(0));
    assert_eq!(xml_tree.name, "print");
    assert_eq!(names(&xml_tree.child_tags.iter().collect::<Vec<_>>()), vec!["system-layout", "staff-layout"]);
}

#[test]
fn xml_tag_test_search() {
    let xml_tree = XmlTag::from_buffer(xml_info()).unwrap();
    println!("{}", xml_tree.debug_text(0));
    let found = xml_tree.search_path("print/staff-layout/staff-distance");
    println!("{}", found[0].debug_text(0));
    let layout = xml_tree.search_path("system-layout");
    println!("{}", layout[0].debug_text(0));
    println!("{:?}", xml_tree.get_tag_content_as::<f32>("print/staff-layout/staff-distance"));
    assert_eq!(xml_tree.get_tag_content_as::<f32>("print/staff-layout/staff-distance"), Ok(65.0));
    assert_eq!(found[0].text.as_deref(), Some("65.00"));
}

#[test]
fn test_pointer() {
    let xml_tree = XmlTag::from_buffer(xml_info()).unwrap();
    println!("{}", xml_tree.debug_text(0));
    let child = &xml_tree.child_tags[1];
    assert_eq!(child.name, "staff-layout");
    assert_eq!(child.get_attribute_value("number"), Some("2".to_string()));
    println!("{}", xml_tree.debug_text(0));
}

#[test]
fn test_mutability() {
    let xml_tree = &mut XmlTag::from_buffer(xml_info()).unwrap();
    println!("{}", xml_tree.debug_text(0));
    xml_tree.child_tags.pop();
    println!("{}", xml_tree.debug_text(0));
    assert_eq!(xml_tree.child_tags.len(), 1);
}

#[test]
fn test_print() {
    let parser = xml::EventReader::new(xml_info());
    let mut depth: i32 = 0;
    for e in parser {
        match e {
            Ok(xml::reader::XmlEvent::StartElement { .. }) => {
                depth += 1;
            }
            Ok(xml::reader::XmlEvent::EndElement { .. }) => {
                depth -= 1;
            }
            Err(e) => {
                println!("ERROR!!: {}", e);
                break;
            }
            _ => {}
        }
    }
    assert_eq!(depth, 0);
}

#[test]
fn test_builder() {
    let mut builder = XmlTag::new_tag_builder();
    builder.add_tag("attributes").add_attribute("pos", "24.4").add_tag("print").add_text("G2");
    builder.add_tag("attributes").add_attribute("fkey", "sdr");
    builder.add_tag("attributes").add_tag("layout");
    let built = builder.built_tag();
    println!("{}", built.debug_text(0));
    assert_eq!(built.name, "attributes");
    assert_eq!(built.attributes.len(), 2);
    assert_eq!(built.get_attribute_value("pos"), Some("24.4".to_string()));
    assert_eq!(built.get_attribute_value("fkey"), Some("sdr".to_string()));
    assert_eq!(names(&built.child_tags.iter().collect::<Vec<_>>()), vec!["print", "layout"]);
    assert_eq!(built.child_tags[0].text.as_deref(), Some("G2"));
    assert!(builder.child_tags.is_empty());
}

#[test]
fn parse_then_find_unique_keeps_first() {
    let doc = XmlTag::from_buffer(b"<a><b>1</b><b>2</b></a>").unwrap();
    let b = doc.search_path_unique("b").unwrap();
    assert_eq!(b.text.as_deref(), Some("1"));
    assert_eq!(doc.count_tag("b"), 2);
    assert_eq!(doc.get_nth_tag("b", 2).text.as_deref(), Some("2"));
    assert_eq!(doc.get_tag_content("b"), Ok("1".to_string()));
}

#[test]
fn builder_nested_scenario() {
    let mut builder = XmlTag::new_tag_builder();
    builder.add_tag("outer").add_tag("inner").add_text("42");
    let outer = builder.built_tag();
    assert_eq!(outer.name, "outer");
    assert_eq!(outer.child_tags.len(), 1);
    assert_eq!(outer.child_tags[0].name, "inner");
    assert_eq!(outer.child_tags[0].text.as_deref(), Some("42"));
}

#[test]
fn add_tag_twice_gives_one_child() {
    let mut builder = XmlTag::new_tag_builder();
    builder.add_tag("x");
    builder.add_tag("x");
    assert_eq!(builder.child_tags.len(), 1);
    assert_eq!(builder.child_tags[0].name, "x");
}

#[test]
fn merge_without_match_changes_nothing() {
    let mut target = XmlTag::from_event_reader(&[start("a"), start("b"), end("b"), end("a")]).unwrap();
    let mut fragment =
        XmlTag::from_event_reader(&[start("z"), start("c"), end("c"), end("z")]).unwrap();
    let before = target.debug_text(0);
    assert!(!target.merge_tag(&mut fragment));
    assert_eq!(target.debug_text(0), before);
    assert_eq!(fragment.child_tags.len(), 1);
}

#[test]
fn merge_moves_children_to_first_match() {
    let mut target = XmlTag::from_event_reader(&[
        start("a"),
        start("b"),
        start("m"),
        end("m"),
        end("b"),
        start("m"),
        end("m"),
        end("a"),
    ])
    .unwrap();
    let mut fragment = XmlTag::from_event_reader(&[
        start_with("m", &[("k", "v")]),
        start("c"),
        end("c"),
        start("d"),
        end("d"),
        end("m"),
    ])
    .unwrap();
    assert!(target.merge_tag(&mut fragment));
    let first_m = &target.child_tags[0].child_tags[0];
    assert_eq!(names(&first_m.child_tags.iter().collect::<Vec<_>>()), vec!["c", "d"]);
    assert!(first_m.attributes.is_empty());
    assert!(target.child_tags[1].child_tags.is_empty());
    assert!(fragment.child_tags.is_empty());
}

#[test]
fn search_tags_self_first_then_descendants() {
    let doc = XmlTag::from_event_reader(&[
        start("a"),
        start("a"),
        text("inner"),
        end("a"),
        end("a"),
    ])
    .unwrap();
    let found = doc.search_tags("a");
    assert_eq!(found.len(), 2);
    assert!(found[0].text.is_none());
    assert_eq!(found[1].text.as_deref(), Some("inner"));
    assert!(doc.search_tags("missing").is_empty());
}

#[test]
fn path_segments_match_at_any_depth() {
    let doc = XmlTag::from_buffer(b"<r><x><y><z>1</z></y></x><z>2</z></r>").unwrap();
    let found = doc.search_path("x/z");
    assert_eq!(found.len(), 1);
    assert_eq!(found[0].text.as_deref(), Some("1"));
    assert!(doc.path_exists("r/y"));
    assert!(!doc.path_exists("y/x"));
    assert_eq!(doc.count_tag("z"), 2);
    assert_eq!(doc.count_tag(""), 0);
}

#[test]
fn text_errors() {
    let doc = XmlTag::from_buffer(b"<r><n>12</n><w>abc</w><e/></r>").unwrap();
    assert_eq!(doc.get_tag_content_as::<u8>("n"), Ok(12));
    assert_eq!(doc.get_tag_content_as::<u8>("w"), Err(XmlError::ContentMalformed));
    assert_eq!(doc.get_tag_content_as::<u8>("e"), Err(XmlError::ContentMissing));
    assert_eq!(doc.get_tag_content("missing"), Err(XmlError::ContentMissing));
}

#[test]
fn attribute_lookup_takes_first() {
    let doc = XmlTag::from_event_reader(&[start_with("a", &[("n", "7"), ("m", "x")]), end("a")]).unwrap();
    assert_eq!(doc.get_attribute_value("m"), Some("x".to_string()));
    assert_eq!(doc.get_attribute_as::<u8>("n"), Some(7));
    assert_eq!(doc.get_attribute_as::<u8>("m"), None);
    assert_eq!(doc.get_attribute_value("q"), None);
}

#[test]
fn last_text_run_wins() {
    let doc =
        XmlTag::from_event_reader(&[start("a"), text("one"), start("b"), end("b"), text("two"), end("a")])
            .unwrap();
    assert_eq!(doc.text.as_deref(), Some("two"));
}

#[test]
fn mismatched_end_is_malformed() {
    let r = XmlTag::from_event_reader(&[start("a"), end("b")]);
    assert_eq!(r.err(), Some(XmlError::MalformedDocument));
}

#[test]
fn unterminated_is_malformed() {
    let r = XmlTag::from_event_reader(&[start("a"), start("b"), end("b")]);
    assert_eq!(r.err(), Some(XmlError::MalformedDocument));
    assert_eq!(XmlTag::from_event_reader(&[]).err(), Some(XmlError::MalformedDocument));
    assert_eq!(XmlTag::from_buffer(b"<a><b></a>").err(), Some(XmlError::MalformedDocument));
}

#[test]
fn trailing_content_is_ignored() {
    let doc = XmlTag::from_event_reader(&[start("a"), end("a"), start("b"), end("b")]).unwrap();
    assert_eq!(doc.name, "a");
    let doc = XmlTag::from_event_reader(&[start("a"), end("a"), end("zzz")]).unwrap();
    assert_eq!(doc.name, "a");
}

#[test]
fn write_then_parse_round_trip() {
    let events = vec![
        start_with("a", &[("k", "v")]),
        text("t1"),
        start("b"),
        text("x"),
        end("b"),
        text("t2"),
        XmlEvent::Other,
        end("a"),
    ];
    let first = XmlTag::from_event_reader(&events).unwrap();
    let mut written = Vec::new();
    XmlTag::write_to_event_writer(&first, &mut written);
    assert_eq!(
        written,
        vec![start_with("a", &[("k", "v")]), text("t2"), start("b"), text("x"), end("b"), end("a")]
    );
    let second = XmlTag::from_event_reader(&written).unwrap();
    assert_eq!(first, second);
}

#[test]
fn push_extra_tags_collects_each_name() {
    let doc = XmlTag::from_buffer(b"<s><i/><d/><i/></s>").unwrap();
    let mut sink = Vec::new();
    doc.push_extra_tags_to(&["i", "d"], &mut sink);
    assert_eq!(names(&sink), vec!["i", "i", "d"]);
}

#[test]
fn direct_add_tag_appends_verbatim() {
    let mut builder = XmlTag::new_tag_builder();
    let sub = XmlTag::from_buffer(b"<x><y/></x>").unwrap();
    builder.add_tag("x");
    builder.direct_add_tag(sub);
    assert_eq!(builder.child_tags.len(), 2);
    let last = builder.built_tag();
    assert_eq!(last.child_tags.len(), 1);
    assert_eq!(builder.built_tag().child_tags.len(), 0);
}

#[test]
fn add_attributes_in_order() {
    let mut builder = XmlTag::new_tag_builder();
    let attrs = vec![
        XmlAttribute { name: "a".to_string(), value: "1".to_string() },
        XmlAttribute { name: "b".to_string(), value: "2".to_string() },
    ];
    builder.add_tag("n").add_attributes(&attrs);
    let n = builder.built_tag();
    assert_eq!(n.attributes, attrs);
}

#[test]
fn outline_text() {
    let doc = XmlTag::from_event_reader(&[start_with("a", &[("k", "v")]), start("b"), text("t"), end("b"), end("a")]).unwrap();
    assert_eq!(doc.debug_text(0), "+a  k=v\n    +b\n        <t>\n    -b\n-a\n");
    assert_eq!(score_xml::debug::indent(2), "        ");
}

#[test]
fn search_tag_first_in_pre_order() {
    let doc = XmlTag::from_buffer(b"<r><a><b>deep</b></a><b>shallow</b></r>").unwrap();
    assert_eq!(doc.search_tag("b").unwrap().text.as_deref(), Some("deep"));
    assert!(doc.search_tag("c").is_none());
}

#[test]
fn text_or_end_outside_any_element_is_malformed() {
    assert_eq!(
        XmlTag::from_event_reader(&[text("x"), start("a"), end("a")]).err(),
        Some(XmlError::MalformedDocument)
    );
    assert_eq!(XmlTag::from_event_reader(&[end("a")]).err(), Some(XmlError::MalformedDocument));
    assert_eq!(
        XmlTag::from_event_reader(&[start("a"), XmlEvent::Failure]).err(),
        Some(XmlError::MalformedDocument)
    );
}

#[test]
fn deep_document_walks_without_recursion() {
    let depth = 2000;
    let mut events = Vec::new();
    for _ in 0..depth {
        events.push(start("d"));
    }
    for _ in 0..depth {
        events.push(end("d"));
    }
    let doc = XmlTag::from_event_reader(&events).unwrap();
    assert_eq!(doc.search_tags("d").len(), depth);
    let mut written = Vec::new();
    XmlTag::write_to_event_writer(&doc, &mut written);
    assert_eq!(written, events);
}
