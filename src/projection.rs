//! A projection's subscription to the global log: what it has yet to see,
//! optionally narrowed to one category, and the cursor its acks advance.

use vstd::prelude::*;

use crate::store::{select, InMemoryEventStore, Message, Query, QuerySpec};

verus! {

/// A subscriber's position in the global log.
#[derive(Debug, Clone)]
pub struct Subscription {
    /// Only streams of this category are delivered, where it is set.
    pub category: Option<String>,
    /// The global position from which messages are still to be delivered.
    pub cursor: u64,
}

/// The messages a subscription to `category` delivers from global position `cursor`.
pub open spec fn subscription_query(category: Option<Seq<char>>, cursor: u64) -> QuerySpec {
    QuerySpec {
        category: category,
        id: None,
        from_stream_position: 0,
        from_global_position: cursor,
        command_id: None,
    }
}

impl Subscription {
    pub open spec fn category_view(&self) -> Option<Seq<char>> {
        match self.category {
            Some(c) => Some(c@),
            None => None,
        }
    }

    /// A subscription from global position `from_global_position`.
    pub fn subscribe(category: Option<String>, from_global_position: u64) -> (r: Self)
        ensures
            r.category == category,
            r.cursor == from_global_position,
    {
        Subscription { category, cursor: from_global_position }
    }

    /// The messages not yet acknowledged, in ascending global position.
    pub fn pending(&self, store: &InMemoryEventStore) -> (r: Vec<Message>)
        requires
            store.wf(),
        ensures
            r@ == select(store@, subscription_query(self.category_view(), self.cursor)),
    {
        let q = Query {
            category: match &self.category {
                Some(c) => Some(c.clone()),
                None => None,
            },
            id: None,
            from_stream_position: 0,
            from_global_position: self.cursor,
            command_id: None,
        };
        store.query(&q)
    }

    /// Whether the message at `global_position` is still to be handled: one
    /// before the cursor was handled already and is skipped on redelivery.
    pub fn is_new(&self, global_position: u64) -> (r: bool)
        ensures
            r == (global_position >= self.cursor),
    {
        global_position >= self.cursor
    }

    /// Acknowledges the message at `global_position`: the cursor moves past
    /// it, and never back. Returns whether it moved.
    pub fn ack(&mut self, global_position: u64) -> (r: bool)
        ensures
            final(self).category == old(self).category,
            r == (old(self).cursor <= global_position < u64::MAX),
            final(self).cursor == if r {
                (global_position + 1) as u64
            } else {
                old(self).cursor
            },
    {
        if self.cursor <= global_position && global_position < u64::MAX {
            self.cursor = global_position + 1;
            true
        } else {
            false
        }
    }
}

} // verus!
