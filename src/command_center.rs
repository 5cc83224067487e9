//! The entry point for commands to one kind of aggregate: it checks the
//! stream name and the command, and hands the command to the stream's lane,
//! rebuilding the lane from the store where there is none.

use vstd::prelude::*;
use vstd::string::StringExecFns;

use crate::lane::{
    execute_post, fold, history_decodes, lemma_consistent_grows, lemma_execute_extends, Aggregate, ExecuteError,
    Lane,
};
use crate::schema::{find_command, json_object_keys, payload_fits, payload_matches, CommandVariant};
use crate::store::{stream_length, stream_of, EventRecord, InMemoryEventStore, Message};
use crate::stream_name::{parse, split_stream_name};

verus! {

/// The commands of one aggregate kind and the live lanes of its instances.
pub struct CommandCenter<A> {
    /// The category of the streams served.
    pub category: String,
    /// The commands taken.
    pub commands: Vec<CommandVariant>,
    /// The live lanes, at most one for each stream.
    pub lanes: Vec<Lane<A>>,
}

/// The number of attempts to ask of `execute` where the caller names none.
pub const DEFAULT_MAX_ATTEMPTS: u16 = 5;

/// Some variant of `commands` has the wire name `name`.
pub open spec fn takes_command(commands: Seq<CommandVariant>, name: Seq<char>) -> bool {
    exists|k: int| 0 <= k < commands.len() && (#[trigger] commands[k]).wire_name@ == name
}

/// Variant `k` is the first of `commands` with the wire name `name`.
pub open spec fn first_command(commands: Seq<CommandVariant>, name: Seq<char>, k: int) -> bool {
    &&& 0 <= k < commands.len()
    &&& commands[k].wire_name@ == name
    &&& forall|j: int| 0 <= j < k ==> (#[trigger] commands[j]).wire_name@ != name
}

/// `payload` fits the fields of the command named `name`.
pub open spec fn payload_accepted(commands: Seq<CommandVariant>, name: Seq<char>, payload: Seq<char>) -> bool {
    forall|k: int|
        #[trigger] first_command(commands, name, k) ==> payload_fits(
            json_object_keys(payload),
            commands[k].fields@,
        )
}

/// Some lane of `lanes` serves instance `id`.
pub open spec fn has_lane<A: Aggregate>(lanes: Seq<Lane<A>>, id: Seq<char>) -> bool {
    exists|k: int| 0 <= k < lanes.len() && (#[trigger] lanes[k]).id@ == id
}

/// How many messages of the stream (`category`, `id`) its lane has folded
/// in: the whole stream where a new lane is rebuilt.
pub open spec fn lane_position<A: Aggregate>(
    lanes: Seq<Lane<A>>,
    events: Seq<EventRecord>,
    category: Seq<char>,
    id: Seq<char>,
) -> int {
    if has_lane(lanes, id) {
        lanes[choose|k: int| 0 <= k < lanes.len() && (#[trigger] lanes[k]).id@ == id].next_position as int
    } else {
        stream_length(events, category, id) as int
    }
}

impl<A: Aggregate> CommandCenter<A> {
    /// The live lanes.
    pub open spec fn lanes(&self) -> Seq<Lane<A>> {
        self.lanes@
    }

    /// Each lane serves a stream of the category, with its state folded from
    /// the store; no two lanes serve one stream.
    pub open spec fn wf(&self, events: Seq<EventRecord>) -> bool {
        &&& forall|i: int|
            0 <= i < self.lanes().len() ==> {
                &&& (#[trigger] self.lanes()[i]).consistent(events)
                &&& self.lanes()[i].initial@ == A::initial()
                &&& self.lanes()[i].category@ == self.category@
            }
        &&& forall|i: int, j: int|
            0 <= i < j < self.lanes().len() ==> (#[trigger] self.lanes()[i]).id@
                != (#[trigger] self.lanes()[j]).id@
    }

    /// A command center for `category` that takes `commands`, with no lane yet.
    pub fn new(category: &str, commands: Vec<CommandVariant>) -> (r: Self)
        ensures
            r.category@ == category@,
            r.commands == commands,
            r.lanes().len() == 0,
    {
        CommandCenter { category: String::from_str(category), commands, lanes: Vec::new() }
    }

    /// The index of the lane of instance `id`, if it is live.
    fn find_lane(&self, id: &str) -> (r: Option<usize>)
        ensures
            match r {
                Some(k) => k < self.lanes().len() && self.lanes()[k as int].id@ == id@,
                None => forall|j: int| 0 <= j < self.lanes().len() ==> (#[trigger] self.lanes()[j]).id@ != id@,
            },
    {
        let mut k: usize = 0;
        while k < self.lanes.len()
            invariant
                k <= self.lanes@.len(),
                forall|j: int| 0 <= j < k ==> (#[trigger] self.lanes@[j]).id@ != id@,
            decreases self.lanes@.len() - k,
        {
            if self.lanes[k].id == String::from_str(id) {
                return Some(k);
            }
            k = k + 1;
        }
        None
    }

    /// The state of instance `id`, if its lane is live.
    pub fn state(&self, id: &str) -> (r: Option<&A>)
        ensures
            match r {
                Some(s) => exists|k: int|
                    0 <= k < self.lanes().len() && (#[trigger] self.lanes()[k]).id@ == id@ && *s
                        == self.lanes()[k].state,
                None => forall|j: int| 0 <= j < self.lanes().len() ==> (#[trigger] self.lanes()[j]).id@ != id@,
            },
    {
        match self.find_lane(id) {
            Some(k) => Some(&self.lanes[k].state),
            None => None,
        }
    }

    /// Drops the lane of instance `id`; its state can be rebuilt from the store.
    pub fn evict(&mut self, store: &InMemoryEventStore, id: &str)
        requires
            old(self).wf(store@),
        ensures
            final(self).wf(store@),
            final(self).category == old(self).category,
            final(self).commands == old(self).commands,
            (forall|j: int| 0 <= j < old(self).lanes().len() ==> (#[trigger] old(self).lanes()[j]).id@ != id@)
                ==> final(self).lanes() == old(self).lanes(),
            forall|k: int|
                0 <= k < old(self).lanes().len() && (#[trigger] old(self).lanes()[k]).id@ == id@
                    ==> final(self).lanes() == old(self).lanes().remove(k),
    {
        match self.find_lane(id) {
            Some(k) => {
                let ghost before = self.lanes@;
                let _ = self.lanes.remove(k);
                proof {
                    assert forall|k2: int|
                        0 <= k2 < before.len() && (#[trigger] before[k2]).id@ == id@ implies k2 == k by {
                        if k2 != k {
                            let a = if k2 < k { k2 } else { k as int };
                            let b = if k2 < k { k as int } else { k2 };
                            assert(before[a].id@ != before[b].id@);
                        }
                    }
                    assert forall|j: int| 0 <= j < self.lanes@.len() implies (#[trigger] self.lanes@[j]).id@ != id@ by {
                        if j >= k {
                            assert(self.lanes@[j] == before[j + 1]);
                        }
                    }
                    assert forall|i: int, j: int|
                        0 <= i < j < self.lanes@.len() implies (#[trigger] self.lanes@[i]).id@
                        != (#[trigger] self.lanes@[j]).id@ by {
                        let i2 = if i < k { i } else { i + 1 };
                        let j2 = if j < k { j } else { j + 1 };
                        assert(self.lanes@[i] == before[i2]);
                        assert(self.lanes@[j] == before[j2]);
                    }
                    assert forall|i: int| 0 <= i < self.lanes@.len() implies {
                        &&& (#[trigger] self.lanes@[i]).consistent(store@)
                        &&& self.lanes@[i].initial@ == A::initial()
                        &&& self.lanes@[i].category@ == self.category@
                    } by {
                        let i2 = if i < k { i } else { i + 1 };
                        assert(self.lanes@[i] == before[i2]);
                    }
                }
            },
            None => {},
        }
    }

    /// Executes command `command_name` with `payload` on the stream named
    /// `stream_name`, through the stream's lane; see `Lane::execute`.
    pub fn execute(
        &mut self,
        store: &mut InMemoryEventStore,
        stream_name: &str,
        command_name: &str,
        payload: &str,
        command_id: Option<u128>,
        max_attempts: u16,
        time: i64,
    ) -> (r: Result<Vec<Message>, ExecuteError>)
        requires
            old(store).wf(),
            old(self).wf(old(store)@),
        ensures
            final(store).wf(),
            final(self).wf(final(store)@),
            final(self).category == old(self).category,
            final(self).commands == old(self).commands,
            match split_stream_name(stream_name@) {
                None => r matches Err(ExecuteError::InvalidStreamName) && final(store)@ == old(store)@,
                Some((category, id)) => if category != old(self).category@ || !takes_command(
                    old(self).commands@,
                    command_name@,
                ) {
                    r matches Err(ExecuteError::UnknownCommand) && final(store)@ == old(store)@
                } else if !payload_accepted(old(self).commands@, command_name@, payload@) {
                    r matches Err(ExecuteError::InvalidPayload) && final(store)@ == old(store)@
                } else if !has_lane(old(self).lanes(), id) && !history_decodes::<A>(
                    stream_of(old(store)@, category, id),
                ) {
                    r matches Err(ExecuteError::Rehydrate) && final(store)@ == old(store)@
                } else {
                    &&& execute_post(
                        old(store)@,
                        final(store)@,
                        category,
                        id,
                        fold(A::initial(), stream_of(old(store)@, category, id)),
                        lane_position(old(self).lanes(), old(store)@, category, id),
                        command_name,
                        payload,
                        command_id,
                        max_attempts,
                        time,
                        r,
                    )
                    &&& r is Ok ==> exists|k: int|
                        0 <= k < final(self).lanes().len() && (#[trigger] final(self).lanes()[k]).id@
                            == id && final(self).lanes()[k].in_sync(final(store)@)
                            && final(self).lanes()[k].state == fold(
                            A::initial(),
                            stream_of(final(store)@, category, id),
                        )
                },
            },
    {
        let name = match parse(stream_name) {
            Ok(n) => n,
            Err(_) => {
                return Err(ExecuteError::InvalidStreamName);
            },
        };
        if name.category != self.category {
            return Err(ExecuteError::UnknownCommand);
        }
        let c = match find_command(&self.commands, command_name) {
            Some(c) => c,
            None => {
                return Err(ExecuteError::UnknownCommand);
            },
        };
        proof {
            assert(self.commands@[c as int].wire_name@ == command_name@);
            assert(first_command(self.commands@, command_name@, c as int));
            assert forall|k: int| #[trigger] first_command(self.commands@, command_name@, k) implies k
                == c by {
                if k < c {
                    assert(self.commands@[k].wire_name@ != command_name@);
                } else if k > c {
                    assert(self.commands@[c as int].wire_name@ != command_name@);
                }
            }
        }
        if !payload_matches(&self.commands[c].fields, payload) {
            return Err(ExecuteError::InvalidPayload);
        }
        let ghost lanes0 = self.lanes@;
        let (k, fresh) = match self.find_lane(name.id.as_str()) {
            Some(k) => (k, false),
            None => {
                let lane = match Lane::rehydrate(
                    store,
                    self.category.as_str(),
                    name.id.as_str(),
                    A::new(),
                ) {
                    Ok(lane) => lane,
                    Err(e) => {
                        return Err(e);
                    },
                };
                self.lanes.push(lane);
                (self.lanes.len() - 1, true)
            },
        };
        let ghost lanes1 = self.lanes@;
        proof {
            assert(self.wf(store@)) by {
                if fresh {
                    assert forall|i: int| 0 <= i < lanes1.len() - 1 implies lanes1[i] == lanes0[i] by {}
                }
            }
        }
        let ghost before = store@;
        proof {
            let l = self.lanes@[k as int];
            assert(l.id@ == name.id@);
            if fresh {
                assert forall|j: int| 0 <= j < lanes0.len() implies (#[trigger] lanes0[j]).id@ != name.id@ by {
                    assert(lanes0[j] == lanes1[j]);
                }
                assert(!has_lane(lanes0, name.id@));
                assert(l.next_position == stream_length(store@, name.category@, name.id@));
            } else {
                assert(has_lane(lanes0, name.id@));
                let j = choose|j: int| 0 <= j < lanes0.len() && (#[trigger] lanes0[j]).id@ == name.id@;
                if j != k {
                    let a = if j < k { j } else { k as int };
                    let b = if j < k { k as int } else { j };
                    assert(lanes0[a].id@ != lanes0[b].id@);
                }
            }
            assert(l.next_position == lane_position(lanes0, store@, name.category@, name.id@));
            assert(stream_of(store@, name.category@, name.id@).take(
                stream_of(store@, name.category@, name.id@).len() as int,
            ) =~= stream_of(store@, name.category@, name.id@));
        }
        let mut lane = self.lanes.remove(k);
        let r = lane.execute(store, command_name, payload, command_id, max_attempts, time);
        proof {
            lemma_execute_extends(
                before,
                store@,
                self.category@,
                name.id@,
                fold(A::initial(), stream_of(before, self.category@, name.id@)),
                lane_position(lanes0, before, self.category@, name.id@),
                command_name,
                payload,
                command_id,
                max_attempts,
                time,
                r,
            );
        }
        self.lanes.insert(k, lane);
        proof {
            assert forall|i: int| 0 <= i < self.lanes@.len() && i != k implies self.lanes@[i]
                == lanes1[i] by {}
            assert forall|i: int| 0 <= i < self.lanes@.len() implies {
                &&& (#[trigger] self.lanes@[i]).consistent(store@)
                &&& self.lanes@[i].initial@ == A::initial()
                &&& self.lanes@[i].category@ == self.category@
            } by {
                if i != k {
                    lemma_consistent_grows(lanes1[i], before, store@);
                }
            }
            assert forall|i: int, j: int|
                0 <= i < j < self.lanes@.len() implies (#[trigger] self.lanes@[i]).id@
                != (#[trigger] self.lanes@[j]).id@ by {
                assert(self.lanes@[i].id == lanes1[i].id);
                assert(self.lanes@[j].id == lanes1[j].id);
            }
            let l = self.lanes@[k as int];
            assert(l.id@ == name.id@);
            if r is Ok {
                assert(stream_of(store@, l.category@, l.id@).take(l.next_position as int) =~= stream_of(
                    store@,
                    l.category@,
                    l.id@,
                ));
                assert(self.lanes()[k as int].state == fold(
                    A::initial(),
                    stream_of(store@, name.category@, name.id@),
                ));
            }
        }
        r
    }
}

} // verus!
