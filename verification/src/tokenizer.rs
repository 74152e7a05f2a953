//! The trusted boundary to the outside tokenizer.
//!
//! Lexical scanning of bytes into events is the business of the `xml`
//! crate; nothing here is proved about it beyond what its contracts
//! state.  The whole stream for a given byte slice is a function of those
//! bytes alone, named `tokens_of`; everything the library computes from
//! it is verified against that name.

use vstd::prelude::*;

use crate::event::{events_view, Event};
use crate::model::EventModel;
use xml::reader::XmlEvent as TokEvent;

verus! {

/// The tokenizer's event type, opaque to this crate.
#[verifier::external_type_specification]
#[verifier::external_body]
pub struct ExXmlEvent(TokEvent);

/// The tokenizer's qualified-name type, opaque to this crate.
#[verifier::external_type_specification]
#[verifier::external_body]
pub struct ExOwnedName(xml::name::OwnedName);

/// The tokenizer's attribute type, opaque to this crate.
#[verifier::external_type_specification]
#[verifier::external_body]
pub struct ExOwnedAttribute(xml::attribute::OwnedAttribute);

/// The tokenizer's namespace-set type, opaque to this crate.
#[verifier::external_type_specification]
#[verifier::external_body]
pub struct ExNamespace(xml::namespace::Namespace);

/// The event stream that the tokenizer derives from these bytes: a
/// function of the bytes alone, ending at the document's end or at the
/// first lexical error.
pub uninterp spec fn tokens_of(bytes: Seq<u8>) -> Seq<EventModel>;

/// Relies on xml::name::OwnedName and xml::namespace::Namespace: a start
/// tag's parts, carried over as plain values; the namespace set's
/// bindings come in its own iteration order, one pair per prefix.
#[verifier::external_body]
fn convert_start(
    name: xml::name::OwnedName,
    attributes: Vec<xml::attribute::OwnedAttribute>,
    namespace: xml::namespace::Namespace,
) -> Event {
    Event::StartElement {
        prefix: name.prefix,
        namespace: name.namespace,
        name: name.local_name,
        attributes: attributes.into_iter().map(|a| (a.name.local_name, a.value)).collect(),
        namespace_scope: namespace.0.into_iter().collect(),
    }
}

/// Relies on xml::reader::XmlEvent: one library event per tokenizer
/// event, the fields carried over unchanged.
#[verifier::external_body]
fn convert_event(e: TokEvent) -> Event {
    match e {
        TokEvent::StartDocument { .. } => Event::StartDocument,
        TokEvent::EndDocument => Event::EndDocument,
        TokEvent::Doctype { .. } => Event::Doctype,
        TokEvent::ProcessingInstruction { .. } => Event::ProcessingInstruction,
        TokEvent::StartElement { name, attributes, namespace } => convert_start(name, attributes, namespace),
        TokEvent::EndElement { name } => Event::EndElement { name: name.local_name },
        TokEvent::CData(s) => Event::CData(s),
        TokEvent::Comment(s) => Event::Comment(s),
        TokEvent::Characters(s) => Event::Characters(s),
        TokEvent::Whitespace(s) => Event::Whitespace(s),
    }
}

/// Relies on xml::reader::EventReader: pulled to the document's end or
/// to the first lexical error, it yields the finite event stream of the
/// bytes, and of the bytes alone.
#[verifier::external_body]
pub fn tokenize(bytes: &[u8]) -> (r: Vec<Event>)
    ensures
        events_view(r@) == tokens_of(bytes@),
{
    let reader = xml::reader::EventReader::new(bytes);
    let mut out: Vec<Event> = Vec::new();
    for ev in reader {
        match ev {
            Ok(e) => out.push(convert_event(e)),
            Err(e) => out.push(Event::TokenError(e.to_string())),
        }
    }
    out
}

} // verus!
