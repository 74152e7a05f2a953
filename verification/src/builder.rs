//! The tree builder: a single pass over the event stream, an explicit
//! stack of open elements in place of recursion, and no backtracking.

use vstd::prelude::*;

use crate::element::{
    children_view, clone_opt, clone_pairs, lemma_children_view_drop_last,
    lemma_children_view_len, lemma_children_view_push, Element,
};
use crate::event::{events_view, opt_view, pairs_view, Event};
use crate::grammar::{body_loop, elem_of_start, parse_result, root_loop, set_text};
use crate::model::{attr_insert, attrs_from_list, essentially_empty, has_key, reserved_binding,
    lemma_first_key_index, first_key_index, EventModel, ParseErrModel};
use crate::tokenizer::{tokenize, tokens_of};

verus! {

/// Why a stream of events yields no tree.
#[derive(Debug, Clone, PartialEq, Eq)]
pub enum ParseError {
    /// The tokenizer found ill-formed lexical structure; carries its
    /// report.
    MalformedXml(String),
    /// The stream is lexically sound but its shape is not one this
    /// grammar supports: a mismatched end tag, or a document boundary or
    /// processing instruction where element content was expected.
    CannotParse,
}

impl View for ParseError {
    type V = ParseErrModel;

    open spec fn view(&self) -> ParseErrModel {
        match *self {
            ParseError::MalformedXml(ref m) => ParseErrModel::MalformedXml { message: m@ },
            ParseError::CannotParse => ParseErrModel::CannotParse,
        }
    }
}

impl ParseError {
    /// A short description of the failure, in words.
    pub fn describe(&self) -> (r: String)
        ensures
            self is MalformedXml ==> r@ == "Malformed XML"@,
            self is CannotParse ==> r@ == "Cannot parse"@,
    {
        match *self {
            ParseError::MalformedXml(_) => "Malformed XML".to_owned(),
            ParseError::CannotParse => "Cannot parse".to_owned(),
        }
    }
}

/// The model of what a build returns: the tree's model on success, the
/// error's model on failure.
pub open spec fn result_model(r: Result<Element, ParseError>) -> Result<
    crate::model::ElemModel,
    ParseErrModel,
> {
    match r {
        Ok(e) => Ok(e@),
        Err(p) => Err(p@),
    }
}

/// Bind a value to a key in an attribute vector, overwriting in place any
/// value the key already has.
fn insert_pair(attrs: &mut Vec<(String, String)>, key: String, value: String)
    ensures
        pairs_view(final(attrs)@) == attr_insert(pairs_view(old(attrs)@), key@, value@),
{
    let ghost kview = key@;
    let ghost vview = value@;
    let n = attrs.len();
    for i in 0..n
        invariant
            n == attrs.len(),
            *attrs == *old(attrs),
            key@ == kview,
            value@ == vview,
            forall|j: int| 0 <= j < i ==> pairs_view(attrs@)[j].0 != kview,
    {
        if attrs[i].0 == key {
            proof {
                assert(pairs_view(attrs@)[i as int].0 == kview);
                lemma_first_key_index(pairs_view(attrs@), kview);
                assert(first_key_index(pairs_view(attrs@), kview) == i as int);
            }
            let ghost old_view = pairs_view(attrs@);
            attrs[i] = (key, value);
            proof {
                assert(pairs_view(attrs@) =~= old_view.update(i as int, (kview, vview)));
            }
            return ;
        }
    }
    let ghost old_view = pairs_view(attrs@);
    proof {
        assert(!has_key(old_view, kview));
    }
    attrs.push((key, value));
    proof {
        assert(pairs_view(attrs@) =~= old_view.push((kview, vview)));
    }
}

/// Fold a raw attribute list into the key-unique mapping, a later
/// duplicate key winning over an earlier one.
fn fold_attribute_list(list: &Vec<(String, String)>) -> (r: Vec<(String, String)>)
    ensures
        pairs_view(r@) == attrs_from_list(pairs_view(list@)),
{
    let mut out: Vec<(String, String)> = Vec::new();
    let n = list.len();
    proof {
        assert(pairs_view(out@) =~= attrs_from_list(pairs_view(list@).take(0)));
    }
    for i in 0..n
        invariant
            n == list.len(),
            pairs_view(out@) == attrs_from_list(pairs_view(list@).take(i as int)),
    {
        let k = list[i].0.clone();
        let v = list[i].1.clone();
        insert_pair(&mut out, k, v);
        proof {
            assert(pairs_view(list@).take(i + 1).drop_last() =~= pairs_view(list@).take(
                i as int,
            ));
            assert(pairs_view(list@).take(i + 1).last() == pairs_view(list@)[i as int]);
        }
    }
    proof {
        assert(pairs_view(list@).take(n as int) =~= pairs_view(list@));
    }
    out
}

/// Whether a namespace set holds nothing beyond the three default
/// bindings; such a set is not recorded on a built element.
fn is_reserved_only(ns: &Vec<(String, String)>) -> (b: bool)
    ensures
        b == essentially_empty(pairs_view(ns@)),
{
    let empty: String = "".to_owned();
    let xmlns_prefix: String = "xmlns".to_owned();
    let xmlns_uri: String = "http://www.w3.org/2000/xmlns/".to_owned();
    let xml_prefix: String = "xml".to_owned();
    let xml_uri: String = "http://www.w3.org/XML/1998/namespace".to_owned();
    let n = ns.len();
    for i in 0..n
        invariant
            n == ns.len(),
            empty@ == ""@,
            xmlns_prefix@ == "xmlns"@,
            xmlns_uri@ == "http://www.w3.org/2000/xmlns/"@,
            xml_prefix@ == "xml"@,
            xml_uri@ == "http://www.w3.org/XML/1998/namespace"@,
            forall|j: int| 0 <= j < i ==> reserved_binding(pairs_view(ns@)[j]),
    {
        let p = &ns[i];
        let ok = (p.0 == empty && p.1 == empty) || (p.0 == xmlns_prefix && p.1 == xmlns_uri) || (
        p.0 == xml_prefix && p.1 == xml_uri);
        if !ok {
            proof {
                assert(!reserved_binding(pairs_view(ns@)[i as int]));
            }
            return false;
        }
        proof {
            assert(reserved_binding(pairs_view(ns@)[i as int]));
        }
    }
    true
}

/// The element that a start tag opens: attributes folded last-wins, the
/// namespace set kept only when it carries more than the default
/// bindings, no children and no text yet.
fn element_from_start(
    name: &String,
    prefix: &Option<String>,
    namespace: &Option<String>,
    attributes: &Vec<(String, String)>,
    namespace_scope: &Vec<(String, String)>,
) -> (r: Element)
    ensures
        r@ == elem_of_start(
            name@,
            opt_view(*prefix),
            opt_view(*namespace),
            pairs_view(attributes@),
            pairs_view(namespace_scope@),
        ),
{
    let namespaces: Option<Vec<(String, String)>> = if is_reserved_only(namespace_scope) {
        None
    } else {
        Some(clone_pairs(namespace_scope))
    };
    let e = Element {
        prefix: clone_opt(prefix),
        namespace: clone_opt(namespace),
        namespaces,
        name: name.clone(),
        attributes: fold_attribute_list(attributes),
        children: Vec::new(),
        text: None,
    };
    proof {
        assert(children_view(e.children@) =~= Seq::<crate::model::ElemModel>::empty());
        assert(e@ =~= elem_of_start(
            name@,
            opt_view(*prefix),
            opt_view(*namespace),
            pairs_view(attributes@),
            pairs_view(namespace_scope@),
        ));
    }
    e
}

/// Build a tree from a finite event stream, exactly as `parse_result`
/// says: the prologue may hold ignorable events before the root's start
/// tag, every end tag must close the element it matches by name, a later
/// text run under an element replaces an earlier one, and the stream is
/// consumed no further than the root's end tag.
pub fn build_from_events(events: &Vec<Event>) -> (r: Result<Element, ParseError>)
    ensures
        result_model(r) == parse_result(events_view(events@)),
{
    let ghost all = events_view(events@);
    let n = events.len();
    let mut i: usize = 0;
    proof {
        assert(all.skip(0) =~= all);
    }
    // Root search: skip the prologue until the root's start tag.
    loop
        invariant
            i <= n,
            n == events.len(),
            all == events_view(events@),
            root_loop(all.skip(i as int)) == root_loop(all),
        ensures
            i < n,
            all[i as int] is StartElement,
            root_loop(all.skip(i as int)) == root_loop(all),
        decreases n - i,
    {
        if i == n {
            proof {
                assert(all.skip(n as int) =~= Seq::<EventModel>::empty());
            }
            return Err(ParseError::CannotParse);
        }
        proof {
            assert(all.skip(i as int)[0] == all[i as int]);
            assert(all.skip(i as int).skip(1) =~= all.skip(i as int + 1));
        }
        match &events[i] {
            Event::StartElement { .. } => {
                break ;
            },
            Event::StartDocument => {
                i += 1;
            },
            Event::Comment(_) => {
                i += 1;
            },
            Event::Whitespace(_) => {
                i += 1;
            },
            Event::Doctype => {
                i += 1;
            },
            Event::TokenError(m) => {
                return Err(ParseError::MalformedXml(m.clone()));
            },
            Event::EndDocument => {
                return Err(ParseError::CannotParse);
            },
            Event::EndElement { .. } => {
                return Err(ParseError::CannotParse);
            },
            Event::Characters(_) => {
                return Err(ParseError::CannotParse);
            },
            Event::CData(_) => {
                return Err(ParseError::CannotParse);
            },
            Event::ProcessingInstruction => {
                return Err(ParseError::CannotParse);
            },
        }
    }
    let mut stack: Vec<Element> = Vec::new();
    proof {
        assert(all.skip(i as int)[0] == all[i as int]);
        assert(all.skip(i as int).skip(1) =~= all.skip(i as int + 1));
    }
    match &events[i] {
        Event::StartElement { name, prefix, namespace, attributes, namespace_scope } => {
            let root = element_from_start(name, prefix, namespace, attributes, namespace_scope);
            let ghost root_snap = root;
            let ghost old_stack = stack@;
            stack.push(root);
            proof {
                lemma_children_view_push(old_stack, root_snap);
                assert(children_view(old_stack) =~= Seq::<crate::model::ElemModel>::empty());
                assert(children_view(stack@) =~= seq![root_snap@]);
            }
            i += 1;
        },
        _ => {
            return Err(ParseError::CannotParse);
        },
    }
    // Element bodies: one open element per stack slot, outermost first.
    loop
        invariant
            i <= n,
            n == events.len(),
            all == events_view(events@),
            stack@.len() >= 1,
            body_loop(all.skip(i as int), children_view(stack@)) == root_loop(all),
        decreases n - i,
    {
        if i == n {
            proof {
                assert(all.skip(n as int) =~= Seq::<EventModel>::empty());
            }
            return Err(ParseError::CannotParse);
        }
        proof {
            lemma_children_view_len(stack@);
            assert(all.skip(i as int)[0] == all[i as int]);
            assert(all.skip(i as int).skip(1) =~= all.skip(i as int + 1));
        }
        let ghost stack_model = children_view(stack@);
        match &events[i] {
            Event::EndElement { name } => {
                proof {
                    lemma_children_view_drop_last(stack@);
                }
                let top = stack.pop().unwrap();
                let ghost top_snap = top;
                if top.name == *name {
                    if stack.len() == 0 {
                        return Ok(top);
                    }
                    proof {
                        lemma_children_view_drop_last(stack@);
                    }
                    let mut parent = stack.pop().unwrap();
                    let ghost parent_model = parent@;
                    let ghost old_children = parent.children@;
                    parent.children.push(top);
                    proof {
                        lemma_children_view_push(old_children, top_snap);
                        assert(parent@ =~= crate::grammar::append_child(
                            parent_model,
                            top_snap@,
                        ));
                    }
                    let ghost parent_snap = parent;
                    let ghost old_stack = stack@;
                    stack.push(parent);
                    proof {
                        lemma_children_view_push(old_stack, parent_snap);
                        assert(children_view(stack@) =~= stack_model.drop_last().drop_last().push(
                            crate::grammar::append_child(
                                stack_model[stack_model.len() - 2],
                                stack_model.last(),
                            ),
                        ));
                    }
                    i += 1;
                } else {
                    return Err(ParseError::CannotParse);
                }
            },
            Event::StartElement { name, prefix, namespace, attributes, namespace_scope } => {
                let child = element_from_start(
                    name,
                    prefix,
                    namespace,
                    attributes,
                    namespace_scope,
                );
                let ghost child_snap = child;
                let ghost old_stack = stack@;
                stack.push(child);
                proof {
                    lemma_children_view_push(old_stack, child_snap);
                }
                i += 1;
            },
            Event::Characters(s) => {
                proof {
                    lemma_children_view_drop_last(stack@);
                }
                let mut top = stack.pop().unwrap();
                let ghost top_model = top@;
                top.text = Some(s.clone());
                proof {
                    assert(top@ =~= set_text(top_model, s@));
                }
                let ghost top_snap = top;
                let ghost old_stack = stack@;
                stack.push(top);
                proof {
                    lemma_children_view_push(old_stack, top_snap);
                    assert(children_view(stack@) =~= stack_model.drop_last().push(
                        set_text(stack_model.last(), s@),
                    ));
                }
                i += 1;
            },
            Event::CData(s) => {
                proof {
                    lemma_children_view_drop_last(stack@);
                }
                let mut top = stack.pop().unwrap();
                let ghost top_model = top@;
                top.text = Some(s.clone());
                proof {
                    assert(top@ =~= set_text(top_model, s@));
                }
                let ghost top_snap = top;
                let ghost old_stack = stack@;
                stack.push(top);
                proof {
                    lemma_children_view_push(old_stack, top_snap);
                    assert(children_view(stack@) =~= stack_model.drop_last().push(
                        set_text(stack_model.last(), s@),
                    ));
                }
                i += 1;
            },
            Event::Whitespace(_) => {
                i += 1;
            },
            Event::Comment(_) => {
                i += 1;
            },
            Event::Doctype => {
                i += 1;
            },
            Event::TokenError(m) => {
                return Err(ParseError::MalformedXml(m.clone()));
            },
            Event::StartDocument => {
                return Err(ParseError::CannotParse);
            },
            Event::EndDocument => {
                return Err(ParseError::CannotParse);
            },
            Event::ProcessingInstruction => {
                return Err(ParseError::CannotParse);
            },
        }
    }
}

impl Element {
    /// Drive the tokenizer over a whole byte slice and build the tree
    /// that its event stream describes, as `parse_result` says; events
    /// past the root's end tag are left unread.
    pub fn parse(bytes: &[u8]) -> (r: Result<Element, ParseError>)
        ensures
            result_model(r) == parse_result(tokens_of(bytes@)),
    {
        let events = tokenize(bytes);
        build_from_events(&events)
    }
}

} // verus!
