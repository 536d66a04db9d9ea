//! The trace record kind's model: a trace holds spans, a span holds timed
//! context, events and child spans.
//!
//! Times are nanoseconds since the epoch; identifiers are plain strings,
//! assigned by the integration layer (which owns id generation), so the
//! model carries only plain values.

use vstd::prelude::*;

use crate::clock::now_nanos;
use crate::models::{Context, LabelModel};

verus! {

/// A point-in-time annotation inside a span.
#[derive(Debug, Clone)]
pub struct Event {
    pub event_id: String,
    pub name: String,
    pub context: Context,
    pub timestamp: i64,
}

impl Event {
    /// A fresh event stamped with the current wall clock. The identifier
    /// is left empty for the integration layer to assign.
    pub fn new(name: String, context: Context) -> (r: Event)
        ensures
            r.name == name,
            r.context == context,
            r.event_id@ == Seq::<char>::empty(),
    {
        Event { event_id: String::new(), name, context, timestamp: now_nanos() }
    }
}

/// One timed operation, with its context, events and nested children.
#[derive(Debug)]
pub struct Span {
    pub name: String,
    pub span_id: String,
    pub parent_span_id: Option<String>,
    pub context: Context,
    pub start_time: i64,
    pub end_time: i64,
    pub events: Vec<Event>,
    pub children: Vec<Span>,
}

impl Span {
    /// A fresh span over the given interval, with no parent, context,
    /// events or children yet. The identifier is supplied by the caller.
    pub fn new(name: &str, span_id: String, start_time: i64, end_time: i64) -> (r: Span)
        ensures
            r.name@ == name@,
            r.span_id == span_id,
            r.parent_span_id is None,
            r.context@ == Seq::<LabelModel>::empty(),
            r.start_time == start_time,
            r.end_time == end_time,
            r.events@ == Seq::<Event>::empty(),
            r.children@ == Seq::<Span>::empty(),
    {
        let r = Span {
            name: name.to_owned(),
            span_id,
            parent_span_id: None,
            context: Context(Vec::new()),
            start_time,
            end_time,
            events: Vec::new(),
            children: Vec::new(),
        };
        proof {
            assert(r.context@ =~= Seq::<LabelModel>::empty());
        }
        r
    }

    /// Append an event named `name` with the given context, stamped with
    /// the current wall clock.
    pub fn add_event(&mut self, name: &str, context: Context)
        ensures
            ({
                let ev = final(self).events@.last();
                &&& final(self).events@ == old(self).events@.push(ev)
                &&& ev.name@ == name@
                &&& ev.context == context
                &&& ev.event_id@ == Seq::<char>::empty()
            }),
            final(self).name == old(self).name,
            final(self).span_id == old(self).span_id,
            final(self).parent_span_id == old(self).parent_span_id,
            final(self).context == old(self).context,
            final(self).start_time == old(self).start_time,
            final(self).end_time == old(self).end_time,
            final(self).children == old(self).children,
    {
        let ev = Event::new(name.to_owned(), context);
        self.events.push(ev);
    }

    /// Append an event, builder style.
    pub fn with_event(self, name: &str, context: Context) -> (r: Self)
        ensures
            ({
                let ev = r.events@.last();
                &&& r.events@ == self.events@.push(ev)
                &&& ev.name@ == name@
                &&& ev.context == context
                &&& ev.event_id@ == Seq::<char>::empty()
            }),
            r.name == self.name,
            r.span_id == self.span_id,
            r.parent_span_id == self.parent_span_id,
            r.context == self.context,
            r.start_time == self.start_time,
            r.end_time == self.end_time,
            r.children == self.children,
    {
        let mut this = self;
        this.add_event(name, context);
        this
    }

    /// Append one label to the span's context.
    pub fn add_context(&mut self, key: &str, value: &str)
        ensures
            final(self).context@ == old(self).context@.push(
                (LabelModel { key: key@, value: value@ }),
            ),
            final(self).name == old(self).name,
            final(self).span_id == old(self).span_id,
            final(self).parent_span_id == old(self).parent_span_id,
            final(self).start_time == old(self).start_time,
            final(self).end_time == old(self).end_time,
            final(self).events == old(self).events,
            final(self).children == old(self).children,
    {
        self.context.add_value(key, value);
    }

    /// Append one label, builder style.
    pub fn with_context(self, key: &str, value: &str) -> (r: Self)
        ensures
            r.context@ == self.context@.push((LabelModel { key: key@, value: value@ })),
            r.name == self.name,
            r.span_id == self.span_id,
            r.parent_span_id == self.parent_span_id,
            r.start_time == self.start_time,
            r.end_time == self.end_time,
            r.events == self.events,
            r.children == self.children,
    {
        let mut this = self;
        this.add_context(key, value);
        this
    }

    /// Nest `span` under this span: its parent id becomes this span's id.
    pub fn add_child(&mut self, span: Span)
        ensures
            ({
                let c = final(self).children@.last();
                &&& final(self).children@ == old(self).children@.push(c)
                &&& (c.parent_span_id matches Some(p) && p@ == old(self).span_id@)
                &&& c.name == span.name
                &&& c.span_id == span.span_id
                &&& c.context == span.context
                &&& c.start_time == span.start_time
                &&& c.end_time == span.end_time
                &&& c.events == span.events
                &&& c.children == span.children
            }),
            final(self).name == old(self).name,
            final(self).span_id == old(self).span_id,
            final(self).parent_span_id == old(self).parent_span_id,
            final(self).context == old(self).context,
            final(self).start_time == old(self).start_time,
            final(self).end_time == old(self).end_time,
            final(self).events == old(self).events,
    {
        let mut child = span;
        child.parent_span_id = Some(self.span_id.clone());
        self.children.push(child);
    }

    /// Nest `span`, builder style.
    pub fn with_child(self, span: Span) -> (r: Self)
        ensures
            ({
                let c = r.children@.last();
                &&& r.children@ == self.children@.push(c)
                &&& (c.parent_span_id matches Some(p) && p@ == self.span_id@)
                &&& c.name == span.name
                &&& c.span_id == span.span_id
                &&& c.context == span.context
                &&& c.start_time == span.start_time
                &&& c.end_time == span.end_time
                &&& c.events == span.events
                &&& c.children == span.children
            }),
            r.name == self.name,
            r.span_id == self.span_id,
            r.parent_span_id == self.parent_span_id,
            r.context == self.context,
            r.start_time == self.start_time,
            r.end_time == self.end_time,
            r.events == self.events,
    {
        let mut this = self;
        this.add_child(span);
        this
    }
}

/// A trace: a named collection of spans under one identifier.
#[derive(Debug)]
pub struct Trace {
    pub name: String,
    pub trace_id: String,
    pub context: Context,
    pub spans: Vec<Span>,
}

impl Trace {
    /// A fresh trace with no spans. The identifier is supplied by the
    /// caller.
    pub fn new(name: &str, trace_id: String, context: Context) -> (r: Trace)
        ensures
            r.name@ == name@,
            r.trace_id == trace_id,
            r.context == context,
            r.spans@ == Seq::<Span>::empty(),
    {
        let r = Trace { name: name.to_owned(), trace_id, context, spans: Vec::new() };
        proof {
            assert(r.spans@ =~= Seq::<Span>::empty());
        }
        r
    }

    /// Append a span.
    pub fn add_span(&mut self, span: Span)
        ensures
            final(self).spans@ == old(self).spans@.push(span),
            final(self).name == old(self).name,
            final(self).trace_id == old(self).trace_id,
            final(self).context == old(self).context,
    {
        self.spans.push(span);
    }

    /// Append a span, builder style.
    pub fn with_span(self, span: Span) -> (r: Self)
        ensures
            r.spans@ == self.spans@.push(span),
            r.name == self.name,
            r.trace_id == self.trace_id,
            r.context == self.context,
    {
        let mut this = self;
        this.add_span(span);
        this
    }
}

} // verus!
