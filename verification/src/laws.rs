//! The laws of the library: what holds of building, serializing and the
//! attribute mapping, proved once and for all trees and streams.

use vstd::prelude::*;

use crate::grammar::{
    append_child, body_loop, children_events_of, elem_of_start, events_of, parse_result,
    root_loop, set_text, start_event_of, text_events_of, wf,
};
use crate::model::{
    attr_insert, attr_lookup, attrs_from_list, essentially_empty, first_key_index, has_key,
    lemma_first_key_index, list_last_value, unique_keys, ElemModel, EventModel, ParseErrModel,
    StrPairs,
};

verus! {

// ---------------------------------------------------------------------------
// The attribute mapping
// ---------------------------------------------------------------------------

/// A position that carries the key, with none before it, is the first
/// position of the key.
proof fn lemma_first_key_index_unique(attrs: StrPairs, key: Seq<char>, i: int)
    requires
        0 <= i < attrs.len(),
        attrs[i].0 == key,
        forall|j: int| 0 <= j < i ==> attrs[j].0 != key,
    ensures
        has_key(attrs, key),
        first_key_index(attrs, key) == i,
{
    assert(has_key(attrs, key));
    lemma_first_key_index(attrs, key);
}

/// After an insert, the inserted key is bound to the inserted value.
proof fn lemma_attr_insert_same(attrs: StrPairs, key: Seq<char>, value: Seq<char>)
    ensures
        attr_lookup(attr_insert(attrs, key, value), key) == Some(value),
{
    if has_key(attrs, key) {
        lemma_first_key_index(attrs, key);
        let f = first_key_index(attrs, key);
        let b = attrs.update(f, (key, value));
        lemma_first_key_index_unique(b, key, f);
    } else {
        let b = attrs.push((key, value));
        lemma_first_key_index_unique(b, key, attrs.len() as int);
    }
}

/// An insert leaves every other key's binding as it was.
proof fn lemma_attr_insert_other(
    attrs: StrPairs,
    key: Seq<char>,
    value: Seq<char>,
    other: Seq<char>,
)
    requires
        other != key,
    ensures
        attr_lookup(attr_insert(attrs, key, value), other) == attr_lookup(attrs, other),
{
    if has_key(attrs, key) {
        lemma_first_key_index(attrs, key);
        let f = first_key_index(attrs, key);
        let b = attrs.update(f, (key, value));
        assert(forall|j: int| 0 <= j < b.len() ==> (#[trigger] b[j]).0 == attrs[j].0);
        if has_key(attrs, other) {
            lemma_first_key_index(attrs, other);
            let g = first_key_index(attrs, other);
            lemma_first_key_index_unique(b, other, g);
        } else {
            assert(!has_key(b, other)) by {
                if has_key(b, other) {
                    let w = choose|w: int| 0 <= w < b.len() && (#[trigger] b[w]).0 == other;
                    assert(attrs[w].0 == other);
                }
            }
        }
    } else {
        let b = attrs.push((key, value));
        if has_key(attrs, other) {
            lemma_first_key_index(attrs, other);
            let g = first_key_index(attrs, other);
            lemma_first_key_index_unique(b, other, g);
        } else {
            assert(!has_key(b, other)) by {
                if has_key(b, other) {
                    let w = choose|w: int| 0 <= w < b.len() && (#[trigger] b[w]).0 == other;
                    assert(w < attrs.len() ==> attrs[w].0 == other);
                }
            }
        }
    }
}

/// Folding an attribute list binds each key to the value of the last
/// pair of the list that carries it: a later duplicate wins.
pub proof fn lemma_attrs_last_wins(list: StrPairs, key: Seq<char>)
    ensures
        attr_lookup(attrs_from_list(list), key) == list_last_value(list, key),
    decreases list.len(),
{
    if list.len() == 0 {
        assert(!has_key(attrs_from_list(list), key));
    } else {
        lemma_attrs_last_wins(list.drop_last(), key);
        if list.last().0 == key {
            lemma_attr_insert_same(attrs_from_list(list.drop_last()), key, list.last().1);
        } else {
            lemma_attr_insert_other(
                attrs_from_list(list.drop_last()),
                list.last().0,
                list.last().1,
                key,
            );
        }
    }
}

/// An insert keeps the keys unique.
proof fn lemma_attr_insert_unique(attrs: StrPairs, key: Seq<char>, value: Seq<char>)
    requires
        unique_keys(attrs),
    ensures
        unique_keys(attr_insert(attrs, key, value)),
{
    if has_key(attrs, key) {
        lemma_first_key_index(attrs, key);
        let f = first_key_index(attrs, key);
        let b = attrs.update(f, (key, value));
        assert(forall|j: int| 0 <= j < b.len() ==> (#[trigger] b[j]).0 == attrs[j].0);
    } else {
        let b = attrs.push((key, value));
        assert forall|i: int, j: int| 0 <= i < j < b.len() implies (#[trigger] b[i]).0 != (
        #[trigger] b[j]).0 by {
            if j == attrs.len() as int {
                assert(b[i].0 == attrs[i].0);
            }
        }
    }
}

/// The folded attribute mapping of any list has unique keys.
pub proof fn lemma_attrs_from_list_unique(list: StrPairs)
    ensures
        unique_keys(attrs_from_list(list)),
    decreases list.len(),
{
    if list.len() == 0 {
    } else {
        lemma_attrs_from_list_unique(list.drop_last());
        lemma_attr_insert_unique(
            attrs_from_list(list.drop_last()),
            list.last().0,
            list.last().1,
        );
    }
}

/// Folding a mapping whose keys are already unique gives it back
/// unchanged.
proof fn lemma_attrs_from_list_identity(attrs: StrPairs)
    requires
        unique_keys(attrs),
    ensures
        attrs_from_list(attrs) == attrs,
    decreases attrs.len(),
{
    if attrs.len() == 0 {
        assert(attrs_from_list(attrs) =~= attrs);
    } else {
        let dl = attrs.drop_last();
        assert(unique_keys(dl)) by {
            assert(forall|j: int| 0 <= j < dl.len() ==> dl[j] == attrs[j]);
        }
        lemma_attrs_from_list_identity(dl);
        assert(!has_key(dl, attrs.last().0)) by {
            if has_key(dl, attrs.last().0) {
                let w = choose|w: int|
                    0 <= w < dl.len() && (#[trigger] dl[w]).0 == attrs.last().0;
                assert(attrs[w].0 == attrs[attrs.len() - 1].0);
            }
        }
        assert(attrs_from_list(attrs) == dl.push(attrs.last()));
        assert(dl.push(attrs.last()) =~= attrs);
    }
}

// ---------------------------------------------------------------------------
// Text runs
// ---------------------------------------------------------------------------

/// Of two text runs in a row under the same element, only the second is
/// kept: the first leaves no trace on the build.
pub proof fn lemma_last_text_wins(
    a: Seq<char>,
    b: Seq<char>,
    rest: Seq<EventModel>,
    stack: Seq<ElemModel>,
)
    requires
        stack.len() >= 1,
    ensures
        body_loop(
            seq![
                EventModel::Characters { text: a },
                EventModel::Characters { text: b },
            ] + rest,
            stack,
        ) == body_loop(seq![EventModel::Characters { text: b }] + rest, stack),
{
    reveal_with_fuel(body_loop, 3);
    let two = seq![
        EventModel::Characters { text: a },
        EventModel::Characters { text: b },
    ] + rest;
    let one = seq![EventModel::Characters { text: b }] + rest;
    assert(two[0] == (EventModel::Characters { text: a }));
    assert(two.skip(1) =~= one);
    let s1 = stack.drop_last().push(set_text(stack.last(), a));
    assert(one[0] == (EventModel::Characters { text: b }));
    assert(one.skip(1) =~= rest);
    assert(s1.drop_last().push(set_text(s1.last(), b)) =~= stack.drop_last().push(
        set_text(stack.last(), b),
    )) by {
        assert(set_text(set_text(stack.last(), a), b) =~= set_text(stack.last(), b));
        assert(s1.drop_last() =~= stack.drop_last());
    }
}

// ---------------------------------------------------------------------------
// Tag matching
// ---------------------------------------------------------------------------

/// At every node of the tree, the serialized stream opens with a start
/// tag carrying the node's recorded name and closes with an end tag
/// carrying the same name.
pub open spec fn boundaries_match(e: ElemModel) -> bool
    decreases e,
{
    &&& events_of(e).len() >= 2
    &&& events_of(e).first() == start_event_of(e)
    &&& events_of(e).last() == (EventModel::EndElement { name: e.name })
    &&& forall|i: int| 0 <= i < e.children.len() ==> boundaries_match(#[trigger] e.children[i])
}

/// Every tree's recorded names match its tag boundaries, at every depth;
/// a build in turn accepts an end tag only against the matching recorded
/// name, so no built tree ever carries mismatched boundaries.
pub proof fn lemma_tag_matching(e: ElemModel)
    ensures
        boundaries_match(e),
    decreases e,
{
    let es = events_of(e);
    assert(es.first() == start_event_of(e));
    assert(es.last() == (EventModel::EndElement { name: e.name }));
    assert forall|i: int| 0 <= i < e.children.len() implies boundaries_match(
        #[trigger] e.children[i],
    ) by {
        lemma_tag_matching(e.children[i]);
    }
}

// ---------------------------------------------------------------------------
// The round trip
// ---------------------------------------------------------------------------

/// An element as its own start tag opens it: fields carried over, no
/// children and no text yet.
pub open spec fn opened(e: ElemModel) -> ElemModel {
    ElemModel { children: Seq::empty(), text: None, ..e }
}

/// A partial element extended by a run of completed children.
pub open spec fn extended(p: ElemModel, cs: Seq<ElemModel>) -> ElemModel {
    ElemModel { children: p.children + cs, ..p }
}

/// The namespace set that the serializer writes into a start tag.
pub open spec fn scope_of(e: ElemModel) -> StrPairs {
    match e.namespaces {
        None => Seq::empty(),
        Some(ns) => ns,
    }
}

/// Rebuilding a well-formed element from its own start tag gives back
/// exactly the element with no content yet.
proof fn lemma_start_opens(e: ElemModel)
    requires
        wf(e),
    ensures
        elem_of_start(e.name, e.prefix, e.namespace, e.attributes, scope_of(e)) == opened(e),
{
    lemma_attrs_from_list_identity(e.attributes);
    match e.namespaces {
        None => {
            assert(essentially_empty(Seq::empty()));
        },
        Some(ns) => {},
    }
    assert(elem_of_start(e.name, e.prefix, e.namespace, e.attributes, scope_of(e)) =~= opened(
        e,
    ));
}

/// Replaying one serialized element on top of the stack completes that
/// element exactly: the root returns as the result, an inner element is
/// appended to its parent.
proof fn lemma_replay_element(e: ElemModel, stack: Seq<ElemModel>, rest: Seq<EventModel>)
    requires
        wf(e),
    ensures
        body_loop(
            text_events_of(e) + children_events_of(e.children) + seq![
                EventModel::EndElement { name: e.name },
            ] + rest,
            stack.push(opened(e)),
        ) == (if stack.len() == 0 {
            Ok::<ElemModel, ParseErrModel>(e)
        } else {
            body_loop(rest, stack.drop_last().push(append_child(stack.last(), e)))
        }),
    decreases e,
{
    reveal_with_fuel(body_loop, 2);
    let endev = seq![EventModel::EndElement { name: e.name }];
    let whole = text_events_of(e) + children_events_of(e.children) + endev + rest;
    let q = ElemModel { children: Seq::empty(), ..e };
    let after_text = children_events_of(e.children) + (endev + rest);
    match e.text {
        None => {
            assert(whole =~= after_text);
            assert(opened(e) =~= q);
        },
        Some(t) => {
            assert(whole[0] == (EventModel::Characters { text: t }));
            assert(whole.skip(1) =~= after_text);
            assert((stack.push(opened(e))).drop_last() =~= stack);
            assert(set_text(opened(e), t) =~= q);
            assert(body_loop(whole, stack.push(opened(e))) == body_loop(
                after_text,
                stack.push(q),
            ));
        },
    }
    lemma_replay_children(e.children, q, stack, endev + rest);
    assert(extended(q, e.children) =~= e) by {
        assert(Seq::<ElemModel>::empty() + e.children =~= e.children);
    }
    // the end tag closes the element
    assert((endev + rest)[0] == (EventModel::EndElement { name: e.name }));
    assert((endev + rest).skip(1) =~= rest);
    let closing = stack.push(e);
    assert(closing.last() == e);
    if stack.len() == 0 {
        assert(body_loop(endev + rest, closing) == Ok::<ElemModel, ParseErrModel>(e));
    } else {
        assert(closing[closing.len() - 2] == stack.last());
        assert(closing.drop_last().drop_last() =~= stack.drop_last());
        assert(closing.drop_last().drop_last().push(append_child(stack.last(), e))
            =~= stack.drop_last().push(append_child(stack.last(), e)));
    }
}

/// Replaying a run of serialized children on top of the stack appends
/// them, in order, to the open element under them.
proof fn lemma_replay_children(
    cs: Seq<ElemModel>,
    p: ElemModel,
    stack: Seq<ElemModel>,
    rest: Seq<EventModel>,
)
    requires
        forall|i: int| 0 <= i < cs.len() ==> wf(#[trigger] cs[i]),
    ensures
        body_loop(children_events_of(cs) + rest, stack.push(p)) == body_loop(
            rest,
            stack.push(extended(p, cs)),
        ),
    decreases cs,
{
    reveal_with_fuel(body_loop, 2);
    if cs.len() == 0 {
        assert(children_events_of(cs) + rest =~= rest);
        assert(extended(p, cs) =~= p);
    } else {
        let e0 = cs[0];
        let tail = cs.skip(1);
        let rest2 = children_events_of(tail) + rest;
        let content = text_events_of(e0) + children_events_of(e0.children) + seq![
            EventModel::EndElement { name: e0.name },
        ];
        let big = children_events_of(cs) + rest;
        assert(big =~= seq![start_event_of(e0)] + (content + rest2)) by {
            assert(children_events_of(cs) == events_of(e0) + children_events_of(tail));
            assert(events_of(e0) =~= seq![start_event_of(e0)] + content);
        }
        assert(big[0] == start_event_of(e0));
        assert(big.skip(1) =~= content + rest2);
        lemma_start_opens(e0);
        assert(body_loop(big, stack.push(p)) == body_loop(
            content + rest2,
            stack.push(p).push(opened(e0)),
        ));
        assert(content + rest2 =~= text_events_of(e0) + children_events_of(e0.children) + seq![
            EventModel::EndElement { name: e0.name },
        ] + rest2);
        lemma_replay_element(e0, stack.push(p), rest2);
        assert((stack.push(p)).drop_last() =~= stack);
        assert(body_loop(big, stack.push(p)) == body_loop(
            rest2,
            stack.push(append_child(p, e0)),
        ));
        assert(forall|i: int| 0 <= i < tail.len() ==> wf(#[trigger] tail[i]));
        lemma_replay_children(tail, append_child(p, e0), stack, rest);
        assert(extended(append_child(p, e0), tail) =~= extended(p, cs)) by {
            assert(p.children.push(e0) + tail =~= p.children + cs);
        }
    }
}

/// Every element a start tag opens is well formed.
proof fn lemma_elem_of_start_wf(
    name: Seq<char>,
    prefix: Option<Seq<char>>,
    namespace: Option<Seq<char>>,
    attributes: StrPairs,
    namespace_scope: StrPairs,
)
    ensures
        wf(elem_of_start(name, prefix, namespace, attributes, namespace_scope)),
{
    lemma_attrs_from_list_unique(attributes);
}

/// The element-body phase keeps every open element well formed, so a
/// successful build hands back a well-formed tree.
proof fn lemma_body_loop_wf(events: Seq<EventModel>, stack: Seq<ElemModel>)
    requires
        stack.len() >= 1,
        forall|i: int| 0 <= i < stack.len() ==> wf(#[trigger] stack[i]),
    ensures
        body_loop(events, stack) matches Ok(m) ==> wf(m),
    decreases events.len(),
{
    if events.len() == 0 {
    } else {
        let rest = events.skip(1);
        match events[0] {
            EventModel::EndElement { name } => {
                assert(wf(stack[stack.len() - 1]));
                if stack.last().name == name && stack.len() > 1 {
                    let parent = stack[stack.len() - 2];
                    let joined = append_child(parent, stack.last());
                    let stack2 = stack.drop_last().drop_last().push(joined);
                    assert(wf(joined)) by {
                        assert(forall|i: int|
                            0 <= i < joined.children.len() ==> wf(
                                #[trigger] joined.children[i],
                            ));
                    }
                    assert(forall|i: int| 0 <= i < stack2.len() ==> wf(#[trigger] stack2[i]));
                    lemma_body_loop_wf(rest, stack2);
                }
            },
            EventModel::StartElement { name, prefix, namespace, attributes, namespace_scope } => {
                lemma_elem_of_start_wf(name, prefix, namespace, attributes, namespace_scope);
                let stack2 = stack.push(
                    elem_of_start(name, prefix, namespace, attributes, namespace_scope),
                );
                assert(forall|i: int| 0 <= i < stack2.len() ==> wf(#[trigger] stack2[i]));
                lemma_body_loop_wf(rest, stack2);
            },
            EventModel::Characters { text } => {
                if stack.len() >= 1 {
                    let stack2 = stack.drop_last().push(set_text(stack.last(), text));
                    assert(wf(set_text(stack.last(), text)));
                    assert(forall|i: int| 0 <= i < stack2.len() ==> wf(#[trigger] stack2[i]));
                    lemma_body_loop_wf(rest, stack2);
                }
            },
            EventModel::CData { text } => {
                if stack.len() >= 1 {
                    let stack2 = stack.drop_last().push(set_text(stack.last(), text));
                    assert(wf(set_text(stack.last(), text)));
                    assert(forall|i: int| 0 <= i < stack2.len() ==> wf(#[trigger] stack2[i]));
                    lemma_body_loop_wf(rest, stack2);
                }
            },
            EventModel::Whitespace { .. } => {
                lemma_body_loop_wf(rest, stack);
            },
            EventModel::Comment { .. } => {
                lemma_body_loop_wf(rest, stack);
            },
            EventModel::Doctype => {
                lemma_body_loop_wf(rest, stack);
            },
            _ => {},
        }
    }
}

/// Whatever tree a build returns is well formed: attribute keys unique
/// at every node, and a namespace set recorded only when it carries more
/// than the default bindings.
pub proof fn lemma_parse_wf(events: Seq<EventModel>)
    ensures
        parse_result(events) matches Ok(m) ==> wf(m),
    decreases events.len(),
{
    if events.len() == 0 {
    } else {
        match events[0] {
            EventModel::StartElement { name, prefix, namespace, attributes, namespace_scope } => {
                lemma_elem_of_start_wf(name, prefix, namespace, attributes, namespace_scope);
                let stack = seq![
                    elem_of_start(name, prefix, namespace, attributes, namespace_scope),
                ];
                assert(forall|i: int| 0 <= i < stack.len() ==> wf(#[trigger] stack[i]));
                lemma_body_loop_wf(events.skip(1), stack);
            },
            EventModel::StartDocument => {
                lemma_parse_wf(events.skip(1));
            },
            EventModel::Comment { .. } => {
                lemma_parse_wf(events.skip(1));
            },
            EventModel::Whitespace { .. } => {
                lemma_parse_wf(events.skip(1));
            },
            EventModel::Doctype => {
                lemma_parse_wf(events.skip(1));
            },
            _ => {},
        }
    }
}

/// The round trip: serializing any well-formed tree and rebuilding from
/// the result gives back the same tree, field for field.
pub proof fn lemma_round_trip(e: ElemModel)
    requires
        wf(e),
    ensures
        parse_result(events_of(e)) == Ok::<ElemModel, ParseErrModel>(e),
{
    let es = events_of(e);
    let content = text_events_of(e) + children_events_of(e.children) + seq![
        EventModel::EndElement { name: e.name },
    ];
    assert(es[0] == start_event_of(e));
    assert(es.skip(1) =~= content + Seq::<EventModel>::empty());
    lemma_start_opens(e);
    assert(seq![opened(e)] =~= Seq::<ElemModel>::empty().push(opened(e)));
    lemma_replay_element(e, Seq::empty(), Seq::empty());
    assert(root_loop(es) == body_loop(es.skip(1), seq![opened(e)]));
}

/// The round trip for built trees: whatever tree a build returns,
/// serializing it and rebuilding from the result gives the same tree
/// back, in name, attributes, children order and text.
pub proof fn lemma_built_tree_round_trip(events: Seq<EventModel>)
    ensures
        parse_result(events) matches Ok(m) ==> parse_result(events_of(m))
            == Ok::<ElemModel, ParseErrModel>(m),
{
    match parse_result(events) {
        Ok(m) => {
            lemma_parse_wf(events);
            lemma_round_trip(m);
        },
        Err(_) => {},
    }
}

} // verus!
