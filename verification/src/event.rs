//! The executable event type: one lexical unit of an XML token stream, as
//! plain owned values.

use vstd::prelude::*;

use crate::model::EventModel;

verus! {

/// One lexical event, as the tokenizer hands it over or as the serializer
/// emits it.
#[derive(Debug, Clone, PartialEq, Eq)]
pub enum Event {
    /// The document declaration, or its implied default.
    StartDocument,
    /// The end of the document stream.
    EndDocument,
    /// A document type declaration; carries nothing this tree reads.
    Doctype,
    /// A processing instruction; carries nothing this tree reads.
    ProcessingInstruction,
    /// An opening tag.
    StartElement {
        /// Local tag name, without prefix.
        name: String,
        /// Namespace prefix written at the tag, if any.
        prefix: Option<String>,
        /// Namespace URI bound to the tag name, if any.
        namespace: Option<String>,
        /// The attribute list as written, duplicates and order included.
        attributes: Vec<(String, String)>,
        /// The prefix-to-URI bindings in scope at this tag.
        namespace_scope: Vec<(String, String)>,
    },
    /// A closing tag.
    EndElement {
        /// Local tag name, without prefix.
        name: String,
    },
    /// A character data run.
    Characters(String),
    /// A CDATA section.
    CData(String),
    /// An all-whitespace character run.
    Whitespace(String),
    /// A comment.
    Comment(String),
    /// A lexical error reported by the tokenizer; terminal in any stream.
    TokenError(String),
}

/// View of an optional string.
pub open spec fn opt_view(o: Option<String>) -> Option<Seq<char>> {
    match o {
        None => None,
        Some(s) => Some(s@),
    }
}

/// View of a vector of string pairs.
pub open spec fn pairs_view(v: Seq<(String, String)>) -> crate::model::StrPairs {
    v.map_values(|p: (String, String)| (p.0@, p.1@))
}

impl View for Event {
    type V = EventModel;

    open spec fn view(&self) -> EventModel {
        match *self {
            Event::StartDocument => EventModel::StartDocument,
            Event::EndDocument => EventModel::EndDocument,
            Event::Doctype => EventModel::Doctype,
            Event::ProcessingInstruction => EventModel::ProcessingInstruction,
            Event::StartElement {
                ref name,
                ref prefix,
                ref namespace,
                ref attributes,
                ref namespace_scope,
            } => EventModel::StartElement {
                name: name@,
                prefix: opt_view(*prefix),
                namespace: opt_view(*namespace),
                attributes: pairs_view(attributes@),
                namespace_scope: pairs_view(namespace_scope@),
            },
            Event::EndElement { ref name } => EventModel::EndElement { name: name@ },
            Event::Characters(ref s) => EventModel::Characters { text: s@ },
            Event::CData(ref s) => EventModel::CData { text: s@ },
            Event::Whitespace(ref s) => EventModel::Whitespace { text: s@ },
            Event::Comment(ref s) => EventModel::Comment { text: s@ },
            Event::TokenError(ref s) => EventModel::TokenError { message: s@ },
        }
    }
}

/// View of an event sequence.
pub open spec fn events_view(es: Seq<Event>) -> Seq<EventModel> {
    es.map_values(|e: Event| e@)
}

} // verus!
