//! The grammar of acceptable event streams.
//!
//! `parse_result` says, for every finite event stream, exactly which tree
//! the builder returns or which error it fails with.  `events_of` says
//! exactly which event stream the serializer emits for a tree.  The
//! executable builder and serializer are proved equal to these functions.

use vstd::prelude::*;

use crate::model::{
    attrs_from_list, essentially_empty, unique_keys, ElemModel, EventModel, ParseErrModel,
    StrPairs,
};

verus! {

// ---------------------------------------------------------------------------
// Building a tree from events
// ---------------------------------------------------------------------------

/// The element that a start tag opens: attributes folded last-wins, the
/// namespace set kept only when it is not essentially empty, no children
/// and no text yet.
pub open spec fn elem_of_start(
    name: Seq<char>,
    prefix: Option<Seq<char>>,
    namespace: Option<Seq<char>>,
    attributes: StrPairs,
    namespace_scope: StrPairs,
) -> ElemModel {
    ElemModel {
        prefix,
        namespace,
        namespaces: if essentially_empty(namespace_scope) {
            None
        } else {
            Some(namespace_scope)
        },
        name,
        attributes: attrs_from_list(attributes),
        children: Seq::empty(),
        text: None,
    }
}

/// Overwrite the text of an element: a later run replaces an earlier one.
pub open spec fn set_text(e: ElemModel, t: Seq<char>) -> ElemModel {
    ElemModel { text: Some(t), ..e }
}

/// Append a completed child.
pub open spec fn append_child(e: ElemModel, c: ElemModel) -> ElemModel {
    ElemModel { children: e.children.push(c), ..e }
}

/// The element-body phase: `stack` holds the elements currently open,
/// outermost first.  One event is consumed per step; the stream ends in
/// success exactly when the outermost element is closed.
pub open spec fn body_loop(events: Seq<EventModel>, stack: Seq<ElemModel>) -> Result<
    ElemModel,
    ParseErrModel,
>
    recommends
        stack.len() >= 1,
    decreases events.len(),
{
    if events.len() == 0 {
        Err(ParseErrModel::CannotParse)
    } else {
        let rest = events.skip(1);
        match events[0] {
            EventModel::EndElement { name } => {
                if stack.last().name == name {
                    if stack.len() == 1 {
                        Ok(stack.last())
                    } else {
                        let parent = stack[stack.len() - 2];
                        body_loop(
                            rest,
                            stack.drop_last().drop_last().push(
                                append_child(parent, stack.last()),
                            ),
                        )
                    }
                } else {
                    Err(ParseErrModel::CannotParse)
                }
            },
            EventModel::StartElement { name, prefix, namespace, attributes, namespace_scope } => {
                body_loop(
                    rest,
                    stack.push(elem_of_start(name, prefix, namespace, attributes, namespace_scope)),
                )
            },
            EventModel::Characters { text } => {
                body_loop(rest, stack.drop_last().push(set_text(stack.last(), text)))
            },
            EventModel::CData { text } => {
                body_loop(rest, stack.drop_last().push(set_text(stack.last(), text)))
            },
            EventModel::Whitespace { .. } => body_loop(rest, stack),
            EventModel::Comment { .. } => body_loop(rest, stack),
            EventModel::Doctype => body_loop(rest, stack),
            EventModel::StartDocument => Err(ParseErrModel::CannotParse),
            EventModel::EndDocument => Err(ParseErrModel::CannotParse),
            EventModel::ProcessingInstruction => Err(ParseErrModel::CannotParse),
            EventModel::TokenError { message } => Err(ParseErrModel::MalformedXml { message }),
        }
    }
}

/// The root-search phase: ignorable prologue events are skipped until a
/// start tag opens the root; anything else rejects the document.
pub open spec fn root_loop(events: Seq<EventModel>) -> Result<ElemModel, ParseErrModel>
    decreases events.len(),
{
    if events.len() == 0 {
        Err(ParseErrModel::CannotParse)
    } else {
        let rest = events.skip(1);
        match events[0] {
            EventModel::StartElement { name, prefix, namespace, attributes, namespace_scope } => {
                body_loop(
                    rest,
                    seq![elem_of_start(name, prefix, namespace, attributes, namespace_scope)],
                )
            },
            EventModel::StartDocument => root_loop(rest),
            EventModel::Comment { .. } => root_loop(rest),
            EventModel::Whitespace { .. } => root_loop(rest),
            EventModel::Doctype => root_loop(rest),
            EventModel::TokenError { message } => Err(ParseErrModel::MalformedXml { message }),
            EventModel::EndDocument => Err(ParseErrModel::CannotParse),
            EventModel::EndElement { .. } => Err(ParseErrModel::CannotParse),
            EventModel::Characters { .. } => Err(ParseErrModel::CannotParse),
            EventModel::CData { .. } => Err(ParseErrModel::CannotParse),
            EventModel::ProcessingInstruction => Err(ParseErrModel::CannotParse),
        }
    }
}

/// What building a tree from this event stream returns.
pub open spec fn parse_result(events: Seq<EventModel>) -> Result<ElemModel, ParseErrModel> {
    root_loop(events)
}

// ---------------------------------------------------------------------------
// Serializing a tree to events
// ---------------------------------------------------------------------------

/// The start tag that the serializer emits for an element: the recorded
/// namespace set, or an empty one if none is recorded.
pub open spec fn start_event_of(e: ElemModel) -> EventModel {
    EventModel::StartElement {
        name: e.name,
        prefix: e.prefix,
        namespace: e.namespace,
        attributes: e.attributes,
        namespace_scope: match e.namespaces {
            None => Seq::empty(),
            Some(ns) => ns,
        },
    }
}

/// Zero or one text event, after the start tag and before the children.
pub open spec fn text_events_of(e: ElemModel) -> Seq<EventModel> {
    match e.text {
        None => Seq::empty(),
        Some(t) => seq![EventModel::Characters { text: t }],
    }
}

/// The full event stream of one element: start tag, text if any, children
/// in order, end tag.
pub open spec fn events_of(e: ElemModel) -> Seq<EventModel>
    decreases e,
{
    seq![start_event_of(e)] + text_events_of(e) + children_events_of(e.children) + seq![
        EventModel::EndElement { name: e.name },
    ]
}

/// The concatenated event streams of a sequence of elements.
pub open spec fn children_events_of(cs: Seq<ElemModel>) -> Seq<EventModel>
    decreases cs,
{
    if cs.len() == 0 {
        Seq::empty()
    } else {
        events_of(cs[0]) + children_events_of(cs.skip(1))
    }
}

// ---------------------------------------------------------------------------
// Well-formed trees
// ---------------------------------------------------------------------------

/// A tree as the builder makes it: attribute keys unique, and a namespace
/// set recorded only when it carries more than the default bindings.
pub open spec fn wf(e: ElemModel) -> bool
    decreases e,
{
    &&& unique_keys(e.attributes)
    &&& match e.namespaces {
        None => true,
        Some(ns) => !essentially_empty(ns),
    }
    &&& forall|i: int| 0 <= i < e.children.len() ==> wf(#[trigger] e.children[i])
}

} // verus!
