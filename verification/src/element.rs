//! The element tree node and its navigation API.

use vstd::prelude::*;

use crate::event::{opt_view, pairs_view};
use crate::model::{
    attr_insert, attr_lookup, first_child_index, first_key_index, has_child, has_key,
    lemma_first_child_index, lemma_first_key_index, ElemModel,
};

verus! {

/// One node of the in-memory tree: one start/end tag pair and its content.
///
/// All fields are plain data and may be read or replaced freely; the
/// builder alone guarantees the shape described by `grammar::wf`.
#[derive(Debug, PartialEq, Eq)]
pub struct Element {
    /// Namespace prefix written at this tag, if any.
    pub prefix: Option<String>,
    /// Namespace URI bound to this tag's name, if any.
    pub namespace: Option<String>,
    /// The prefix-to-URI bindings in scope at this element, kept only when
    /// they carry more than the default bindings.
    pub namespaces: Option<Vec<(String, String)>>,
    /// Local tag name, without prefix.
    pub name: String,
    /// The attribute mapping; the builder keeps its keys unique, a later
    /// duplicate in the source winning over an earlier one.
    pub attributes: Vec<(String, String)>,
    /// Child elements, in document order.
    pub children: Vec<Element>,
    /// Character data directly under this element; only the last run seen
    /// is retained.
    pub text: Option<String>,
}

impl Element {
    /// The mathematical model of this node and its whole subtree.
    pub open spec fn model(self) -> ElemModel
        decreases self,
    {
        ElemModel {
            prefix: opt_view(self.prefix),
            namespace: opt_view(self.namespace),
            namespaces: match self.namespaces {
                None => None,
                Some(ns) => Some(pairs_view(ns@)),
            },
            name: self.name@,
            attributes: pairs_view(self.attributes@),
            children: children_view(self.children@),
            text: opt_view(self.text),
        }
    }
}

impl View for Element {
    type V = ElemModel;

    open spec fn view(&self) -> ElemModel {
        self.model()
    }
}

/// View of an element sequence.
pub open spec fn children_view(cs: Seq<Element>) -> Seq<ElemModel>
    decreases cs,
{
    if cs.len() == 0 {
        Seq::empty()
    } else {
        seq![cs[0].model()] + children_view(cs.skip(1))
    }
}

/// `children_view` keeps the length.
pub broadcast proof fn lemma_children_view_len(cs: Seq<Element>)
    ensures
        (#[trigger] children_view(cs)).len() == cs.len(),
    decreases cs,
{
    if cs.len() > 0 {
        lemma_children_view_len(cs.skip(1));
    }
}

/// `children_view` maps the sequence elementwise.
pub broadcast proof fn lemma_children_view_index(cs: Seq<Element>, i: int)
    requires
        0 <= i < cs.len(),
    ensures
        (#[trigger] children_view(cs)[i]) == cs[i].model(),
    decreases cs,
{
    lemma_children_view_len(cs.skip(1));
    if i > 0 {
        lemma_children_view_index(cs.skip(1), i - 1);
        assert(cs.skip(1)[i - 1] == cs[i]);
    }
}

/// Length and elementwise facts about the view of an element vector, in
/// one call.
pub proof fn lemma_child_model_at(cs: Seq<Element>, i: int)
    requires
        0 <= i < cs.len(),
    ensures
        children_view(cs).len() == cs.len(),
        children_view(cs)[i] == cs[i].model(),
{
    lemma_children_view_len(cs);
    lemma_children_view_index(cs, i);
}

/// Replacing one element of the vector replaces one element of the view.
pub broadcast proof fn lemma_children_view_update(cs: Seq<Element>, i: int, e: Element)
    requires
        0 <= i < cs.len(),
    ensures
        #[trigger] children_view(cs.update(i, e)) == children_view(cs).update(i, e.model()),
{
    broadcast use {lemma_children_view_len, lemma_children_view_index};

    assert(children_view(cs.update(i, e)) =~= children_view(cs).update(i, e.model()));
}

/// Appending an element to the vector appends its model to the view.
pub proof fn lemma_children_view_push(cs: Seq<Element>, e: Element)
    ensures
        children_view(cs.push(e)) == children_view(cs).push(e.model()),
{
    broadcast use {lemma_children_view_len, lemma_children_view_index};

    assert(children_view(cs.push(e)) =~= children_view(cs).push(e.model()));
}

/// Dropping the last element of the vector drops the last model of the
/// view.
pub proof fn lemma_children_view_drop_last(cs: Seq<Element>)
    requires
        cs.len() > 0,
    ensures
        children_view(cs.drop_last()) == children_view(cs).drop_last(),
        children_view(cs).last() == cs.last().model(),
{
    broadcast use {lemma_children_view_len, lemma_children_view_index};

    assert(children_view(cs.drop_last()) =~= children_view(cs).drop_last());
}

/// Copy a vector of string pairs.
pub(crate) fn clone_pairs(v: &Vec<(String, String)>) -> (r: Vec<(String, String)>)
    ensures
        r@ == v@,
{
    let mut out: Vec<(String, String)> = Vec::new();
    let n = v.len();
    for i in 0..n
        invariant
            n == v.len(),
            out@ == v@.take(i as int),
    {
        out.push((v[i].0.clone(), v[i].1.clone()));
        proof {
            assert(v@.take(i + 1) =~= v@.take(i as int).push(v@[i as int]));
        }
    }
    proof {
        assert(v@.take(n as int) =~= v@);
    }
    out
}

/// Copy an optional string.
pub(crate) fn clone_opt(v: &Option<String>) -> (r: Option<String>)
    ensures
        r == *v,
{
    match v {
        None => None,
        Some(s) => Some(s.clone()),
    }
}

impl Clone for Element {
    /// A deep copy: the clone's whole subtree models the same tree.
    fn clone(&self) -> (r: Element)
        ensures
            r@ == self@,
        decreases self,
    {
        let mut kids: Vec<Element> = Vec::new();
        let m = self.children.len();
        proof {
            lemma_children_view_len(self.children@);
            assert(children_view(kids@) =~= self@.children.take(0));
        }
        for j in 0..m
            invariant
                m == self.children.len(),
                children_view(kids@) == self@.children.take(j as int),
            decreases m - j,
        {
            let sub = self.children[j].clone();
            let ghost old_kids = kids@;
            kids.push(sub);
            proof {
                lemma_child_model_at(self.children@, j as int);
                lemma_children_view_push(old_kids, sub);
                assert(self@.children.take(j + 1) =~= self@.children.take(j as int).push(
                    self@.children[j as int],
                ));
            }
        }
        let r = Element {
            prefix: clone_opt(&self.prefix),
            namespace: clone_opt(&self.namespace),
            namespaces: match &self.namespaces {
                None => None,
                Some(ns) => Some(clone_pairs(ns)),
            },
            name: self.name.clone(),
            attributes: clone_pairs(&self.attributes),
            children: kids,
            text: clone_opt(&self.text),
        };
        proof {
            assert(self@.children.take(m as int) =~= self@.children);
            assert(r@ =~= self@);
        }
        r
    }
}

impl Element {
    /// Create an element with the given name and nothing else: no prefix,
    /// no namespace, no attributes, no children, no text.
    pub fn new(name: &str) -> (r: Element)
        ensures
            r@ == (ElemModel {
                prefix: None,
                namespace: None,
                namespaces: None,
                name: name@,
                attributes: Seq::empty(),
                children: Seq::empty(),
                text: None,
            }),
    {
        let e = Element {
            prefix: None,
            namespace: None,
            namespaces: None,
            name: name.to_owned(),
            attributes: Vec::new(),
            children: Vec::new(),
            text: None,
        };
        proof {
            assert(pairs_view(e.attributes@) =~= Seq::<(Seq<char>, Seq<char>)>::empty());
            assert(e@.children =~= Seq::<ElemModel>::empty());
        }
        e
    }

    /// Position of the first child (in child order) with this exact
    /// name, if any.
    fn child_position(&self, key: &String) -> (r: Option<usize>)
        ensures
            match r {
                Some(i) => {
                    &&& has_child(self@.children, key@)
                    &&& i == first_child_index(self@.children, key@)
                    &&& i < self.children.len()
                },
                None => !has_child(self@.children, key@),
            },
    {
        let n = self.children.len();
        for i in 0..n
            invariant
                n == self.children.len(),
                forall|j: int| 0 <= j < i ==> self@.children[j].name != key@,
        {
            if self.children[i].name == *key {
                proof {
                    lemma_child_model_at(self.children@, i as int);
                    assert(self@.children[i as int].name == key@);
                    lemma_first_child_index(self@.children, key@);
                    assert(first_child_index(self@.children, key@) == i as int);
                }
                return Some(i);
            }
            proof {
                lemma_child_model_at(self.children@, i as int);
            }
        }
        proof {
            lemma_children_view_len(self.children@);
        }
        None
    }

    /// Find the first child (in child order) with this exact name.
    pub fn get_child(&self, k: &str) -> (r: Option<&Element>)
        ensures
            match r {
                Some(c) => {
                    &&& has_child(self@.children, k@)
                    &&& c@ == self@.children[first_child_index(self@.children, k@)]
                },
                None => !has_child(self@.children, k@),
            },
    {
        let key: String = k.to_owned();
        match self.child_position(&key) {
            None => None,
            Some(i) => {
                proof {
                    lemma_child_model_at(self.children@, i as int);
                }
                Some(&self.children[i])
            },
        }
    }

    /// Find the first child (in child order) with this exact name and
    /// return a mutable reference to it, for in-place edits.
    pub fn get_mut_child(&mut self, k: &str) -> (r: Option<&mut Element>)
        ensures
            match r {
                Some(c) => {
                    &&& has_child(old(self)@.children, k@)
                    &&& c@ == old(self)@.children[first_child_index(old(self)@.children, k@)]
                    &&& final(self).children@ == old(self).children@.update(
                        first_child_index(old(self)@.children, k@),
                        *final(c),
                    )
                    &&& final(self)@ =~= (ElemModel {
                        children: children_view(
                            old(self).children@.update(
                                first_child_index(old(self)@.children, k@),
                                *final(c),
                            ),
                        ),
                        ..old(self)@
                    })
                    &&& final(self)@.children == old(self)@.children.update(
                        first_child_index(old(self)@.children, k@),
                        final(c)@,
                    )
                },
                None => {
                    &&& !has_child(old(self)@.children, k@)
                    &&& final(self)@ == old(self)@
                },
            },
    {
        broadcast use lemma_children_view_update;

        let key: String = k.to_owned();
        match self.child_position(&key) {
            None => None,
            Some(i) => {
                proof {
                    lemma_child_model_at(self.children@, i as int);
                }
                Some(&mut self.children[i])
            },
        }
    }

    /// Find the first child (in child order) with this exact name, detach
    /// it from the tree, and hand it over with its whole subtree; later
    /// children move up one position.
    pub fn take_child(&mut self, k: &str) -> (r: Option<Element>)
        ensures
            match r {
                Some(c) => {
                    &&& has_child(old(self)@.children, k@)
                    &&& c@ == old(self)@.children[first_child_index(old(self)@.children, k@)]
                    &&& final(self)@ == (ElemModel {
                        children: old(self)@.children.remove(
                            first_child_index(old(self)@.children, k@),
                        ),
                        ..old(self)@
                    })
                },
                None => {
                    &&& !has_child(old(self)@.children, k@)
                    &&& final(self)@ == old(self)@
                },
            },
    {
        let key: String = k.to_owned();
        match self.child_position(&key) {
            None => None,
            Some(i) => {
                let ghost old_model = self@;
                let ghost old_vec = self.children@;
                let ghost idx = i as int;
                let c = self.children.remove(i);
                proof {
                    lemma_children_view_len(old_vec);
                    lemma_children_view_len(self.children@);
                    assert forall|j: int|
                        0 <= j < self.children@.len() implies children_view(self.children@)[j]
                        == old_model.children.remove(idx)[j] by {
                        lemma_child_model_at(self.children@, j);
                        if j < idx {
                            lemma_child_model_at(old_vec, j);
                        } else {
                            lemma_child_model_at(old_vec, j + 1);
                        }
                    }
                    lemma_child_model_at(old_vec, idx);
                    assert(self@.children =~= old_model.children.remove(idx));
                    assert(self@ =~= (ElemModel {
                        children: old_model.children.remove(idx),
                        ..old_model
                    }));
                }
                Some(c)
            },
        }
    }

    /// Bind a value to a key in the attribute mapping, overwriting in
    /// place any value the key already has.
    pub fn set_attribute(&mut self, key: String, value: String)
        ensures
            final(self)@ == (ElemModel {
                attributes: attr_insert(old(self)@.attributes, key@, value@),
                ..old(self)@
            }),
    {
        let ghost kview = key@;
        let ghost vview = value@;
        let n = self.attributes.len();
        for i in 0..n
            invariant
                n == self.attributes.len(),
                *self == *old(self),
                key@ == kview,
                value@ == vview,
                forall|j: int| 0 <= j < i ==> self@.attributes[j].0 != kview,
        {
            if self.attributes[i].0 == key {
                proof {
                    assert(self@.attributes[i as int].0 == kview);
                    lemma_first_key_index(self@.attributes, kview);
                    assert(first_key_index(self@.attributes, kview) == i as int);
                }
                let ghost old_model = self@;
                let ghost idx = i as int;
                self.attributes[i] = (key, value);
                proof {
                    assert(pairs_view(self.attributes@) =~= old_model.attributes.update(
                        idx,
                        (kview, vview),
                    ));
                    assert(self@ =~= (ElemModel {
                        attributes: attr_insert(old_model.attributes, kview, vview),
                        ..old_model
                    }));
                }
                return ;
            }
        }
        let ghost old_model = self@;
        proof {
            assert(!has_key(old_model.attributes, kview));
        }
        self.attributes.push((key, value));
        proof {
            assert(pairs_view(self.attributes@) =~= old_model.attributes.push((kview, vview)));
            assert(self@ =~= (ElemModel {
                attributes: attr_insert(old_model.attributes, kview, vview),
                ..old_model
            }));
        }
    }

    /// The value bound to a key in the attribute mapping, if any; with
    /// unique keys this is the mapping's one value for the key.
    pub fn get_attribute(&self, k: &str) -> (r: Option<&String>)
        ensures
            match r {
                Some(v) => attr_lookup(self@.attributes, k@) == Some(v@),
                None => attr_lookup(self@.attributes, k@) is None,
            },
    {
        let key: String = k.to_owned();
        let n = self.attributes.len();
        for i in 0..n
            invariant
                n == self.attributes.len(),
                key@ == k@,
                forall|j: int| 0 <= j < i ==> self@.attributes[j].0 != k@,
        {
            if self.attributes[i].0 == key {
                proof {
                    assert(self@.attributes[i as int].0 == k@);
                    lemma_first_key_index(self@.attributes, k@);
                    assert(first_key_index(self@.attributes, k@) == i as int);
                }
                return Some(&self.attributes[i].1);
            }
        }
        None
    }
}

} // verus!
