//! The tree serializer: a depth-first walk that emits the exact event
//! stream of `grammar::events_of`, one start/end tag pair per node, zero
//! or one text event per node, children in document order.

use vstd::prelude::*;

use crate::element::{lemma_child_model_at, Element};
use crate::event::{events_view, pairs_view, Event};
use crate::grammar::{children_events_of, events_of, start_event_of, text_events_of};
use crate::model::{ElemModel, EventModel};

verus! {

/// One more child extends the children's event stream by that child's
/// events.
proof fn lemma_children_events_snoc(cs: Seq<ElemModel>, i: int)
    requires
        0 <= i < cs.len(),
    ensures
        children_events_of(cs.take(i + 1)) == children_events_of(cs.take(i)) + events_of(cs[i]),
    decreases i,
{
    if i == 0 {
        assert(cs.take(1).skip(1) =~= Seq::<ElemModel>::empty());
        assert(cs.take(1)[0] == cs[0]);
        assert(cs.take(0) =~= Seq::<ElemModel>::empty());
        assert(children_events_of(cs.take(1)) =~= children_events_of(cs.take(0)) + events_of(
            cs[0],
        ));
    } else {
        lemma_children_events_snoc(cs.skip(1), i - 1);
        assert(cs.take(i + 1)[0] == cs[0]);
        assert(cs.take(i)[0] == cs[0]);
        assert(cs.take(i + 1).skip(1) =~= cs.skip(1).take(i));
        assert(cs.take(i).skip(1) =~= cs.skip(1).take(i - 1));
        assert(cs.skip(1)[i - 1] == cs[i]);
        assert(events_of(cs[0]) + (children_events_of(cs.skip(1).take(i - 1)) + events_of(cs[i]))
            =~= (events_of(cs[0]) + children_events_of(cs.skip(1).take(i - 1))) + events_of(
            cs[i],
        ));
    }
}

impl Element {
    /// The exact event stream of this tree, in document order: the start
    /// tag with the attribute mapping flattened and the recorded
    /// namespace set (or an empty one), one text event if text is
    /// present, each child's stream in order, and the end tag.
    pub fn serialize_events(&self) -> (r: Vec<Event>)
        ensures
            events_view(r@) == events_of(self@),
        decreases self,
    {
        let mut out: Vec<Event> = Vec::new();
        let scope: Vec<(String, String)> = match &self.namespaces {
            None => Vec::new(),
            Some(ns) => crate::element::clone_pairs(ns),
        };
        proof {
            assert(pairs_view(scope@) =~= (match self@.namespaces {
                None => Seq::empty(),
                Some(ns) => ns,
            }));
        }
        out.push(
            Event::StartElement {
                name: self.name.clone(),
                prefix: crate::element::clone_opt(&self.prefix),
                namespace: crate::element::clone_opt(&self.namespace),
                attributes: crate::element::clone_pairs(&self.attributes),
                namespace_scope: scope,
            },
        );
        proof {
            assert(events_view(out@) =~= seq![start_event_of(self@)]);
        }
        match &self.text {
            None => {},
            Some(t) => {
                out.push(Event::Characters(t.clone()));
            },
        }
        proof {
            assert(events_view(out@) =~= seq![start_event_of(self@)] + text_events_of(self@));
            assert(self@.children.take(0) =~= Seq::<ElemModel>::empty());
            assert(events_view(out@) =~= seq![start_event_of(self@)] + text_events_of(self@)
                + children_events_of(self@.children.take(0)));
        }
        let m = self.children.len();
        proof {
            crate::element::lemma_children_view_len(self.children@);
        }
        for j in 0..m
            invariant
                m == self.children.len(),
                m == self@.children.len(),
                events_view(out@) == seq![start_event_of(self@)] + text_events_of(self@)
                    + children_events_of(self@.children.take(j as int)),
            decreases m - j,
        {
            let mut sub = self.children[j].serialize_events();
            let ghost out_before = events_view(out@);
            let ghost sub_view = events_view(sub@);
            out.append(&mut sub);
            proof {
                lemma_child_model_at(self.children@, j as int);
                lemma_children_events_snoc(self@.children, j as int);
                assert(events_view(out@) =~= out_before + sub_view);
                assert(events_view(out@) =~= seq![start_event_of(self@)] + text_events_of(self@)
                    + children_events_of(self@.children.take(j + 1)));
            }
        }
        out.push(Event::EndElement { name: self.name.clone() });
        proof {
            assert(self@.children.take(m as int) =~= self@.children);
            assert(events_view(out@) =~= (seq![start_event_of(self@)] + text_events_of(self@)
                + children_events_of(self@.children)) + seq![
                EventModel::EndElement { name: self@.name },
            ]);
            assert(events_view(out@) =~= events_of(self@));
        }
        out
    }
}

} // verus!
