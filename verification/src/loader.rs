//! Application of parsed log events to the store. One event either
//! upserts a node (absent fields default to empty) or proposes an edge,
//! which is rejected when an endpoint is unknown at that moment.

use vstd::prelude::*;
use crate::store::{stub_view, GraphModel, NodeData, NodeView, RejectedEdge, StoreView};

verus! {

/// One event read from the log: a node record with optional fields, or
/// an edge between two identities.
pub enum LoadEvent {
    Node {
        id: String,
        label: Option<String>,
        span: Option<String>,
        tags: Option<Vec<String>>,
        ts: Option<String>,
    },
    Edge { from: String, to: String },
}

/// The mathematical value of a [`LoadEvent`].
pub ghost enum EventView {
    Node {
        id: Seq<char>,
        label: Option<Seq<char>>,
        span: Option<Seq<char>>,
        tags: Option<Seq<Seq<char>>>,
        ts: Option<Seq<char>>,
    },
    Edge { from: Seq<char>, to: Seq<char> },
}

impl DeepView for LoadEvent {
    type V = EventView;

    open spec fn deep_view(&self) -> EventView {
        match self {
            LoadEvent::Node { id, label, span, tags, ts } => EventView::Node {
                id: id@,
                label: label.deep_view(),
                span: span.deep_view(),
                tags: tags.deep_view(),
                ts: ts.deep_view(),
            },
            LoadEvent::Edge { from, to } => EventView::Edge { from: from@, to: to@ },
        }
    }
}

pub open spec fn or_empty(o: Option<Seq<char>>) -> Seq<char> {
    match o {
        Some(s) => s,
        None => Seq::empty(),
    }
}

pub open spec fn or_empty_list(o: Option<Seq<Seq<char>>>) -> Seq<Seq<char>> {
    match o {
        Some(s) => s,
        None => Seq::empty(),
    }
}

/// The node record that a node event stores: absent fields become empty.
pub open spec fn event_node(
    id: Seq<char>,
    label: Option<Seq<char>>,
    span: Option<Seq<char>>,
    tags: Option<Seq<Seq<char>>>,
    ts: Option<Seq<char>>,
) -> NodeView {
    NodeView {
        id,
        label: or_empty(label),
        span: or_empty(span),
        tags: or_empty_list(tags),
        ts: or_empty(ts),
    }
}

/// What one event does to the store, together with the rejected pair when
/// the event was an edge with a missing endpoint.
pub open spec fn apply_event_v(s: StoreView, e: EventView) -> (StoreView, Option<
    (Seq<char>, Seq<char>),
>) {
    match e {
        EventView::Node { id, label, span, tags, ts } => (
            s.upsert(event_node(id, label, span, tags, ts)),
            None,
        ),
        EventView::Edge { from, to } => if s.edge_accepted(from, to) {
            (s.add_edge_v(from, to), None)
        } else {
            (s, Some((from, to)))
        },
    }
}

/// The store and the rejected edges, in order, after a whole event list
/// has been applied to an empty store.
pub open spec fn load_v(events: Seq<EventView>) -> (StoreView, Seq<(Seq<char>, Seq<char>)>)
    decreases events.len(),
{
    if events.len() == 0 {
        (StoreView { nodes: Seq::empty(), edges: Seq::empty() }, Seq::empty())
    } else {
        let prev = load_v(events.drop_last());
        let step = apply_event_v(prev.0, events.last());
        (
            step.0,
            match step.1 {
                Some(w) => prev.1.push(w),
                None => prev.1,
            },
        )
    }
}

impl GraphModel {
    /// Applies one event: a node event upserts (and never fails), an
    /// edge event appends the edge or reports the rejected pair.
    pub fn apply_event(&mut self, ev: LoadEvent) -> (r: Result<(), RejectedEdge>)
        requires
            old(self).wf(),
        ensures
            final(self).wf(),
            final(self)@ == apply_event_v(old(self)@, ev.deep_view()).0,
            match r {
                Ok(_) => apply_event_v(old(self)@, ev.deep_view()).1 is None,
                Err(e) => apply_event_v(old(self)@, ev.deep_view()).1 == Some(e@),
            },
    {
        let ghost pre = self@;
        let ghost ev_v = ev.deep_view();
        match ev {
            LoadEvent::Node { id, label, span, tags, ts } => {
                let label = match label {
                    Some(s) => s,
                    None => String::new(),
                };
                let span = match span {
                    Some(s) => s,
                    None => String::new(),
                };
                let tags = match tags {
                    Some(v) => v,
                    None => Vec::new(),
                };
                let ts = match ts {
                    Some(s) => s,
                    None => String::new(),
                };
                let nd = NodeData { id: id.clone(), label, span, tags, ts };
                proof {
                    assert(nd@ =~= apply_event_node_view(ev_v));
                }
                self.upsert_node(&id, nd);
                Ok(())
            },
            LoadEvent::Edge { from, to } => {
                match self.add_edge(&from, &to) {
                    Ok(()) => Ok(()),
                    Err(e) => Err(e),
                }
            },
        }
    }
}

/// The node record written by a node event (helper for proofs; the edge
/// arm is never relied on).
spec fn apply_event_node_view(e: EventView) -> NodeView {
    match e {
        EventView::Node { id, label, span, tags, ts } => event_node(id, label, span, tags, ts),
        EventView::Edge { .. } => stub_view(Seq::empty()),
    }
}

/// Builds a store from a whole event list, reporting every rejected edge
/// in the order met. Malformed lines never reach this point: the caller
/// hands over only recognized events.
pub fn load_events(events: Vec<LoadEvent>) -> (r: (GraphModel, Vec<RejectedEdge>))
    ensures
        r.0.wf(),
        r.0@ == load_v(events.deep_view()).0,
        r.1.deep_view() == load_v(events.deep_view()).1,
{
    let ghost all = events.deep_view();
    let mut events = events;
    let mut gm = GraphModel::new();
    let mut rejected: Vec<RejectedEdge> = Vec::new();
    let ghost mut done: int = 0;
    proof {
        assert(all.subrange(0, 0) =~= Seq::<EventView>::empty());
        assert(gm@ =~= load_v(all.subrange(0, 0)).0);
        assert(rejected.deep_view() =~= load_v(all.subrange(0, 0)).1);
        assert(events.deep_view() =~= all.subrange(0, all.len() as int));
    }
    while events.len() > 0
        invariant
            0 <= done <= all.len(),
            events.deep_view() == all.subrange(done, all.len() as int),
            gm.wf(),
            gm@ == load_v(all.subrange(0, done)).0,
            rejected.deep_view() == load_v(all.subrange(0, done)).1,
        decreases events.len(),
    {
        let ghost pre_vec: Seq<LoadEvent> = events@;
        let ghost pre_dv = events.deep_view();
        let ev = events.remove(0);
        proof {
            assert(pre_dv == all.subrange(done, all.len() as int));
            assert(pre_dv.len() == all.len() - done);
            assert(pre_dv.len() == pre_vec.len());
            assert(pre_vec.len() > 0);
            assert(all.subrange(done, all.len() as int)[0] == all[done]);
            assert(ev == pre_vec[0]);
            assert(pre_dv[0] == pre_vec[0].deep_view());
            assert(pre_dv[0] == all[done]);
            assert(ev.deep_view() == all[done]);
            assert(events@ =~= pre_vec.subrange(1, pre_vec.len() as int));
            assert forall|i: int| 0 <= i < events.deep_view().len() implies events.deep_view()[i]
                == all[done + 1 + i] by {
                assert(events@[i] == pre_vec[i + 1]);
                assert(events.deep_view()[i] == events@[i].deep_view());
                assert(pre_dv[i + 1] == pre_vec[i + 1].deep_view());
                assert(all.subrange(done, all.len() as int)[i + 1] == all[done + 1 + i]);
                assert(pre_dv[i + 1] == all[done + 1 + i]);
            }
            assert(events.deep_view() =~= all.subrange(done + 1, all.len() as int));
        }
        let res = gm.apply_event(ev);
        proof {
            done = done + 1;
            assert(all.subrange(0, done).drop_last() =~= all.subrange(0, done - 1));
            assert(all.subrange(0, done).last() == all[done - 1]);
        }
        match res {
            Ok(()) => {},
            Err(e) => {
                let ghost rejected_pre = rejected.deep_view();
                rejected.push(e);
                proof {
                    assert(rejected.deep_view() =~= rejected_pre.push(e@));
                }
            },
        }
    }
    proof {
        assert(done == all.len());
        assert(all.subrange(0, done) =~= all);
    }
    (gm, rejected)
}

} // verus!
