//! Events: named points in time within a span.
use vstd::prelude::*;

use crate::collect::LocalCollector;
use crate::record::Properties;

verus! {

/// An event that represents a single point in time during a span.
pub struct Event {
    pub name: String,
    pub properties: Properties,
}

impl Event {
    /// An event named `name`, with no properties.
    pub fn new(name: &str) -> (r: Event)
        ensures
            r.name@ == name@,
            r.properties@ == Seq::<(String, String)>::empty(),
    {
        Event { name: name.to_owned(), properties: Vec::new() }
    }

    /// The event with one more property, made by `property`.
    pub fn with_property<F: FnOnce() -> (String, String)>(self, property: F) -> (r: Event)
        requires
            property.requires(()),
        ensures
            r.name == self.name,
            exists|kv: (String, String)|
                property.ensures((), kv) && r.properties@ == self.properties@.push(kv),
    {
        let kv = property();
        let mut properties = self.properties;
        properties.push(kv);
        Event { name: self.name, properties }
    }

    /// The event with more properties, made by `properties`, in order.
    pub fn with_properties<F: FnOnce() -> Properties>(self, properties: F) -> (r: Event)
        requires
            properties.requires(()),
        ensures
            r.name == self.name,
            exists|extra: Properties|
                properties.ensures((), extra) && r.properties@ == self.properties@ + extra@,
    {
        let mut extra = properties();
        let mut all = self.properties;
        all.append(&mut extra);
        Event { name: self.name, properties: all }
    }

    /// Records an event named `name` at `now` under the innermost open span of
    /// `collector`.
    pub fn add_to_local_parent<F: FnOnce() -> Properties>(
        name: &str,
        properties: F,
        collector: &mut LocalCollector,
        now: u64,
    )
        requires
            properties.requires(()),
            old(collector).wf(),
        ensures
            final(collector).wf(),
            final(collector).token() == old(collector).token(),
            final(collector).open() == old(collector).open(),
            final(collector).spans().drop_last() == old(collector).spans(),
            final(collector).spans().len() == old(collector).spans().len() + 1,
            final(collector).spans().last().parent_id == old(collector).current_parent(),
            final(collector).spans().last().name@ == name@,
            final(collector).spans().last().begin_instant == now,
            exists|extra: Properties|
                properties.ensures((), extra) && final(collector).spans().last().properties@
                    == extra@,
    {
        let event = Event::new(name).with_properties(properties);
        collector.add_event(event.name, event.properties, now);
    }
}

} // verus!
