//! Reading a document from its bytes.
use crate::tree::{events_view, parse, tree_result, Event, XmlAttribute, XmlError, XmlEvent, XmlTag};
use vstd::prelude::*;
use xml::reader::XmlEvent as RawEvent;

verus! {

/// The structural events that xml-rs reads from `bytes`.
pub uninterp spec fn markup_events(bytes: Seq<u8>) -> Seq<Event>;

/// Relies on xml-rs's `EventReader` over a byte slice: the events it yields up to the end
/// of the document or up to its first error, which it reports last (here as `Failure`).
/// They depend on the bytes alone.
#[verifier::external_body]
fn read_events(bytes: &[u8]) -> (r: Vec<XmlEvent>)
    ensures
        events_view(r@) == markup_events(bytes@),
{
    xml::EventReader::new(bytes).into_iter().map(|e| match e {
        Ok(RawEvent::StartElement { name, attributes, .. }) => XmlEvent::StartElement {
            name: name.local_name,
            attributes: attributes.into_iter().map(|a| XmlAttribute { name: a.name.local_name, value: a.value }).collect(),
        },
        Ok(RawEvent::EndElement { name }) => XmlEvent::EndElement { name: name.local_name },
        Ok(RawEvent::Characters(text)) => XmlEvent::Characters { text },
        Ok(_) => XmlEvent::Other,
        Err(_) => XmlEvent::Failure,
    }).collect()
}

impl XmlTag {
    /// Reads the document in `buffer`: the first element that closes at the outermost
    /// level, with everything inside it.
    pub fn from_buffer(buffer: &[u8]) -> (r: Result<XmlTag, XmlError>)
        ensures
            tree_result(r) == parse(markup_events(buffer@)),
    {
        let events = read_events(buffer);
        XmlTag::from_event_reader(events.as_slice())
    }
}

} // verus!
