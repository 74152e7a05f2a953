//! Mathematical model of the element tree and of the lexical event stream.
//!
//! The executable types of the crate are viewed as the ghost types of this
//! module: strings become `Seq<char>`, vectors become `Seq`, and an element
//! becomes an `ElemModel`.  All contracts of the crate are stated over these
//! models.

use vstd::prelude::*;

verus! {

/// A sequence of key/value string pairs: the shape shared by an attribute
/// list and by a set of namespace bindings.
pub type StrPairs = Seq<(Seq<char>, Seq<char>)>;

/// Model of one node of the element tree.
#[verifier::ext_equal]
pub ghost struct ElemModel {
    /// Namespace prefix written at the tag, if any.
    pub prefix: Option<Seq<char>>,
    /// Namespace URI bound to the tag name, if any.
    pub namespace: Option<Seq<char>>,
    /// The prefix-to-URI bindings in scope, kept only when they carry more
    /// than the default bindings.
    pub namespaces: Option<StrPairs>,
    /// Local tag name, without prefix.
    pub name: Seq<char>,
    /// Attribute mapping, as a key-unique pair sequence.
    pub attributes: StrPairs,
    /// Child elements, in document order.
    pub children: Seq<ElemModel>,
    /// The last text run seen directly under this element, if any.
    pub text: Option<Seq<char>>,
}

/// Model of one lexical event of the tokenizer's stream.
pub ghost enum EventModel {
    StartDocument,
    EndDocument,
    Doctype,
    ProcessingInstruction,
    StartElement {
        name: Seq<char>,
        prefix: Option<Seq<char>>,
        namespace: Option<Seq<char>>,
        attributes: StrPairs,
        namespace_scope: StrPairs,
    },
    EndElement { name: Seq<char> },
    Characters { text: Seq<char> },
    CData { text: Seq<char> },
    Whitespace { text: Seq<char> },
    Comment { text: Seq<char> },
    /// A lexical error reported by the tokenizer; terminal in any stream.
    TokenError { message: Seq<char> },
}

/// Model of a parse failure.
pub ghost enum ParseErrModel {
    MalformedXml { message: Seq<char> },
    CannotParse,
}

// ---------------------------------------------------------------------------
// Attribute mappings as key-unique pair sequences
// ---------------------------------------------------------------------------

/// No key occurs twice.
pub open spec fn unique_keys(attrs: StrPairs) -> bool {
    forall|i: int, j: int|
        0 <= i < j < attrs.len() ==> (#[trigger] attrs[i]).0 != (#[trigger] attrs[j]).0
}

/// Some pair carries this key.
pub open spec fn has_key(attrs: StrPairs, key: Seq<char>) -> bool {
    exists|i: int| 0 <= i < attrs.len() && (#[trigger] attrs[i]).0 == key
}

/// Index of the first pair carrying this key (meaningful only when
/// `has_key` holds).
pub open spec fn first_key_index(attrs: StrPairs, key: Seq<char>) -> int
    decreases attrs.len(),
{
    if attrs.len() == 0 {
        0
    } else if attrs[0].0 == key {
        0
    } else {
        1 + first_key_index(attrs.skip(1), key)
    }
}

/// The value bound to a key, if any.
pub open spec fn attr_lookup(attrs: StrPairs, key: Seq<char>) -> Option<Seq<char>> {
    if has_key(attrs, key) {
        Some(attrs[first_key_index(attrs, key)].1)
    } else {
        None
    }
}

/// Insert with last-write-wins: an existing binding of the key is
/// overwritten in place, a new key is appended.
pub open spec fn attr_insert(attrs: StrPairs, key: Seq<char>, value: Seq<char>) -> StrPairs {
    if has_key(attrs, key) {
        attrs.update(first_key_index(attrs, key), (key, value))
    } else {
        attrs.push((key, value))
    }
}

/// Fold a raw attribute list (possibly with duplicate keys) into the
/// key-unique mapping, first pair first, so that a later duplicate wins.
pub open spec fn attrs_from_list(list: StrPairs) -> StrPairs
    decreases list.len(),
{
    if list.len() == 0 {
        Seq::empty()
    } else {
        attr_insert(attrs_from_list(list.drop_last()), list.last().0, list.last().1)
    }
}

/// When a pair with the key exists, `first_key_index` is the position of
/// the first one.
pub proof fn lemma_first_key_index(attrs: StrPairs, key: Seq<char>)
    requires
        has_key(attrs, key),
    ensures
        0 <= first_key_index(attrs, key) < attrs.len(),
        attrs[first_key_index(attrs, key)].0 == key,
        forall|j: int| 0 <= j < first_key_index(attrs, key) ==> attrs[j].0 != key,
    decreases attrs.len(),
{
    if attrs[0].0 == key {
    } else {
        let i = choose|i: int| 0 <= i < attrs.len() && (#[trigger] attrs[i]).0 == key;
        assert(attrs.skip(1)[i - 1] == attrs[i]);
        lemma_first_key_index(attrs.skip(1), key);
        assert forall|j: int| 0 <= j < first_key_index(attrs, key) implies attrs[j].0
            != key by {
            if j > 0 {
                assert(attrs.skip(1)[j - 1] == attrs[j]);
            }
        }
    }
}

/// The value of the last pair of the list carrying this key, if any.
pub open spec fn list_last_value(list: StrPairs, key: Seq<char>) -> Option<Seq<char>>
    decreases list.len(),
{
    if list.len() == 0 {
        None
    } else if list.last().0 == key {
        Some(list.last().1)
    } else {
        list_last_value(list.drop_last(), key)
    }
}

// ---------------------------------------------------------------------------
// Child lookup by name
// ---------------------------------------------------------------------------

/// Some child carries this name.
pub open spec fn has_child(cs: Seq<ElemModel>, name: Seq<char>) -> bool {
    exists|i: int| 0 <= i < cs.len() && (#[trigger] cs[i]).name == name
}

/// Index of the first child carrying this name (meaningful only when
/// `has_child` holds).
pub open spec fn first_child_index(cs: Seq<ElemModel>, name: Seq<char>) -> int
    decreases cs.len(),
{
    if cs.len() == 0 {
        0
    } else if cs[0].name == name {
        0
    } else {
        1 + first_child_index(cs.skip(1), name)
    }
}

/// When a child with the name exists, `first_child_index` is the position
/// of the first one.
pub proof fn lemma_first_child_index(cs: Seq<ElemModel>, name: Seq<char>)
    requires
        has_child(cs, name),
    ensures
        0 <= first_child_index(cs, name) < cs.len(),
        cs[first_child_index(cs, name)].name == name,
        forall|j: int| 0 <= j < first_child_index(cs, name) ==> cs[j].name != name,
    decreases cs.len(),
{
    if cs[0].name == name {
    } else {
        let i = choose|i: int| 0 <= i < cs.len() && (#[trigger] cs[i]).name == name;
        assert(cs.skip(1)[i - 1] == cs[i]);
        lemma_first_child_index(cs.skip(1), name);
        assert forall|j: int| 0 <= j < first_child_index(cs, name) implies cs[j].name
            != name by {
            if j > 0 {
                assert(cs.skip(1)[j - 1] == cs[j]);
            }
        }
    }
}

// ---------------------------------------------------------------------------
// Namespace bindings
// ---------------------------------------------------------------------------

/// One of the three bindings that every document carries implicitly.
pub open spec fn reserved_binding(b: (Seq<char>, Seq<char>)) -> bool {
    ||| (b.0 == ""@ && b.1 == ""@)
    ||| (b.0 == "xmlns"@ && b.1 == "http://www.w3.org/2000/xmlns/"@)
    ||| (b.0 == "xml"@ && b.1 == "http://www.w3.org/XML/1998/namespace"@)
}

/// A namespace set that holds nothing beyond the default bindings; such a
/// set is not recorded on a built element.
pub open spec fn essentially_empty(ns: StrPairs) -> bool {
    forall|i: int| 0 <= i < ns.len() ==> reserved_binding(#[trigger] ns[i])
}

} // verus!
