//! The local transport.

use std::collections::VecDeque;

use crate::location_map::LocationMap;
use crate::queues::{apply_op, pop_message, push_message};
use crate::transport::{
    lemma_take_push_contains, names_of, ChannelQueues, TransportChannel, TransportConfig,
};
use vstd::prelude::*;
use vstd::string::*;

verus! {

/// The queues of the local transport: for each sender, for each receiver,
/// the messages sent and not yet received, oldest first.
pub type LocalQueueMap = LocationMap<LocationMap<VecDeque<String>>>;

impl ChannelQueues for LocationMap<LocationMap<VecDeque<String>>> {
    /// Exactly the named locations send, and each sends to exactly them.
    open spec fn serves(&self, names: Seq<Seq<char>>) -> bool {
        &&& forall|a: Seq<char>| #[trigger] self@.dom().contains(a) <==> names.contains(a)
        &&& forall|a: Seq<char>, b: Seq<char>|
            self@.dom().contains(a) ==> (#[trigger] self@[a]@.dom().contains(b) <==> names.contains(
                b,
            ))
    }
}

/// The pending messages of each ordered pair `(sender, receiver)` that has a
/// queue.
pub open spec fn local_queues(q: LocalQueueMap) -> Map<(Seq<char>, Seq<char>), Seq<String>> {
    Map::new(
        |p: (Seq<char>, Seq<char>)| q@.dom().contains(p.0) && q@[p.0]@.dom().contains(p.1),
        |p: (Seq<char>, Seq<char>)| q@[p.0]@[p.1]@,
    )
}

/// An empty queue for each ordered pair of the given names.
pub open spec fn empty_pair_queues(names: Seq<Seq<char>>) -> Map<
    (Seq<char>, Seq<char>),
    Seq<String>,
> {
    Map::new(
        |p: (Seq<char>, Seq<char>)| names.contains(p.0) && names.contains(p.1),
        |p: (Seq<char>, Seq<char>)| Seq::<String>::empty(),
    )
}

/// The queues after `data` is sent from `from` to `to`: it joins the back
/// of their queue.
pub open spec fn enqueue(
    q: Map<(Seq<char>, Seq<char>), Seq<String>>,
    from: Seq<char>,
    to: Seq<char>,
    data: String,
) -> Map<(Seq<char>, Seq<char>), Seq<String>> {
    push_message(q, (from, to), data)
}

/// What `at` receives from `from`, and the queues afterwards: the oldest
/// pending message, or nothing where none is pending.
pub open spec fn dequeue(
    q: Map<(Seq<char>, Seq<char>), Seq<String>>,
    from: Seq<char>,
    at: Seq<char>,
) -> (Option<String>, Map<(Seq<char>, Seq<char>), Seq<String>>) {
    pop_message(q, (from, at))
}

/// Sending adds exactly one message, at the back of the pair's queue: the
/// queue grows by one, keeps what it held in front, and ends with `data`;
/// every other queue, and the set of pairs, stay as they were.
pub proof fn lemma_send_appends_one(
    q: Map<(Seq<char>, Seq<char>), Seq<String>>,
    from: Seq<char>,
    to: Seq<char>,
    data: String,
)
    requires
        q.dom().contains((from, to)),
    ensures
        enqueue(q, from, to, data).dom() == q.dom(),
        enqueue(q, from, to, data)[(from, to)].len() == q[(from, to)].len() + 1,
        enqueue(q, from, to, data)[(from, to)][q[(from, to)].len() as int] == data,
        forall|i: int|
            0 <= i < q[(from, to)].len() ==> #[trigger] enqueue(q, from, to, data)[(from, to)][i]
                == q[(from, to)][i],
        forall|p: (Seq<char>, Seq<char>)|
            q.dom().contains(p) && p != (from, to) ==> #[trigger] enqueue(q, from, to, data)[p]
                == q[p],
{
    assert(enqueue(q, from, to, data).dom() =~= q.dom());
}

/// Receiving from an empty queue gives nothing and changes nothing;
/// receiving from any other gives its oldest message and leaves exactly the
/// messages behind it, one fewer. No other queue changes.
pub proof fn lemma_receive_takes_oldest(
    q: Map<(Seq<char>, Seq<char>), Seq<String>>,
    from: Seq<char>,
    at: Seq<char>,
)
    requires
        q.dom().contains((from, at)),
    ensures
        dequeue(q, from, at).1.dom() == q.dom(),
        q[(from, at)].len() == 0 ==> dequeue(q, from, at) == (None::<String>, q),
        q[(from, at)].len() > 0 ==> {
            &&& dequeue(q, from, at).0 == Some(q[(from, at)][0])
            &&& dequeue(q, from, at).1[(from, at)].len() == q[(from, at)].len() - 1
            &&& forall|i: int|
                0 <= i < q[(from, at)].len() - 1 ==> #[trigger] dequeue(q, from, at).1[(
                    from,
                    at,
                )][i] == q[(from, at)][i + 1]
        },
        forall|p: (Seq<char>, Seq<char>)|
            q.dom().contains(p) && p != (from, at) ==> #[trigger] dequeue(q, from, at).1[p] == q[p],
{
    assert(dequeue(q, from, at).1.dom() =~= q.dom());
}

/// A send and a receive on the local transport are the operations of
/// `crate::queues` on the pair's queue, so every law there holds of any run
/// of sends and receives.
pub proof fn lemma_local_steps_are_queue_ops(
    q: Map<(Seq<char>, Seq<char>), Seq<String>>,
    from: Seq<char>,
    to: Seq<char>,
    data: String,
)
    ensures
        enqueue(q, from, to, data) == apply_op(q, ((from, to), Some(data))).1,
        dequeue(q, from, to) == apply_op(q, ((from, to), None::<String>)),
{
}

/// The local transport.
///
/// Every location uses the same queues, so the transport of one location
/// serves all of them: a message sent from one location to another waits in
/// the queue of that pair until the receiver takes it.
pub struct LocalTransport {
    internal_locations: Vec<String>,
    transport_channel: TransportChannel<LocalQueueMap>,
}

impl LocalTransport {
    /// The locations this transport serves.
    pub closed spec fn location_list(&self) -> Seq<String> {
        self.internal_locations@
    }

    /// The pending messages of each pair of locations.
    pub closed spec fn queues(&self) -> Map<(Seq<char>, Seq<char>), Seq<String>> {
        local_queues(self.transport_channel.queue_map)
    }

    /// Creates the queues for every ordered pair of the given locations,
    /// all empty.
    pub fn transport_channel(locations: &Vec<String>) -> (channel: TransportChannel<
        LocalQueueMap,
    >)
        ensures
            channel.location_list() == locations@,
            channel.queue_contents().serves(names_of(locations@)),
            local_queues(channel.queue_contents()) == empty_pair_queues(names_of(locations@)),
    {
        let ghost names = names_of(locations@);
        let mut queue_map: LocalQueueMap = LocationMap::new();
        let mut i: usize = 0;
        while i < locations.len()
            invariant
                i <= locations.len(),
                names == names_of(locations@),
                forall|a: Seq<char>| #[trigger]
                    queue_map@.dom().contains(a) <==> names.take(i as int).contains(a),
                forall|a: Seq<char>| #[trigger]
                    queue_map@.dom().contains(a) ==> local_row_empty(queue_map@[a], names),
            decreases locations.len() - i,
        {
            let row = Self::empty_row(locations);
            queue_map.insert(locations[i].clone(), row);
            proof {
                assert(names[i as int] == locations@[i as int]@);
                lemma_take_push_contains(names, i as int);
            }
            i = i + 1;
        }
        proof {
            assert(names.take(locations@.len() as int) =~= names);
            assert forall|p: (Seq<char>, Seq<char>)| #[trigger]
                local_queues(queue_map).dom().contains(p) implies local_queues(queue_map)[p]
                =~= Seq::<String>::empty() by {
                assert(local_row_empty(queue_map@[p.0], names));
            }
            assert(local_queues(queue_map) =~= empty_pair_queues(names));
        }
        TransportChannel { locations: locations.clone(), queue_map }
    }

    /// An empty queue for each receiver.
    fn empty_row(locations: &Vec<String>) -> (row: LocationMap<VecDeque<String>>)
        ensures
            local_row_empty(row, names_of(locations@)),
    {
        let ghost names = names_of(locations@);
        let mut row: LocationMap<VecDeque<String>> = LocationMap::new();
        let mut j: usize = 0;
        while j < locations.len()
            invariant
                j <= locations.len(),
                names == names_of(locations@),
                forall|b: Seq<char>| #[trigger]
                    row@.dom().contains(b) <==> names.take(j as int).contains(b),
                forall|b: Seq<char>| #[trigger] row@.dom().contains(b) ==> row@[b]@.len() == 0,
            decreases locations.len() - j,
        {
            row.insert(locations[j].clone(), VecDeque::new());
            proof {
                assert(names[j as int] == locations@[j as int]@);
                lemma_take_push_contains(names, j as int);
            }
            j = j + 1;
        }
        proof {
            assert(names.take(locations@.len() as int) =~= names);
        }
        row
    }

    /// Creates the transport of a location from its configuration and the
    /// shared channel; it serves the channel's locations.
    pub fn new(_local_config: &TransportConfig<(), ()>, transport_channel: TransportChannel<
        LocalQueueMap,
    >) -> (t: Self)
        ensures
            t.location_list() == transport_channel.location_list(),
            t.queues() == local_queues(transport_channel.queue_contents()),
            forall|p: (Seq<char>, Seq<char>)| #[trigger]
                t.queues().dom().contains(p) <==> names_of(t.location_list()).contains(p.0)
                    && names_of(t.location_list()).contains(p.1),
    {
        proof {
            use_type_invariant(&transport_channel);
        }
        let locations_list = &transport_channel.locations;
        let mut locations_vec: Vec<String> = Vec::new();
        let mut i: usize = 0;
        while i < locations_list.len()
            invariant
                i <= locations_list.len(),
                locations_vec@ == locations_list@.take(i as int),
            decreases locations_list.len() - i,
        {
            locations_vec.push(locations_list[i].clone());
            proof {
                assert(locations_list@.take(i + 1) =~= locations_list@.take(i as int).push(
                    locations_list@[i as int],
                ));
            }
            i = i + 1;
        }
        proof {
            assert(locations_list@.take(locations_list@.len() as int) =~= locations_list@);
        }
        LocalTransport { internal_locations: locations_vec, transport_channel }
    }

    /// The locations this transport serves, in order.
    pub fn locations(&self) -> (locs: Vec<String>)
        ensures
            locs@ == self.location_list(),
    {
        let mut locs: Vec<String> = Vec::new();
        let mut i: usize = 0;
        while i < self.internal_locations.len()
            invariant
                i <= self.internal_locations.len(),
                locs@ == self.internal_locations@.take(i as int),
            decreases self.internal_locations.len() - i,
        {
            locs.push(self.internal_locations[i].clone());
            proof {
                assert(self.internal_locations@.take(i + 1) =~= self.internal_locations@.take(
                    i as int,
                ).push(self.internal_locations@[i as int]));
            }
            i = i + 1;
        }
        proof {
            assert(self.internal_locations@.take(self.internal_locations@.len() as int)
                =~= self.internal_locations@);
        }
        locs
    }

    /// Whether messages from `from` to `to` have a queue.
    pub fn has_queue(&self, from: &str, to: &str) -> (b: bool)
        ensures
            b == self.queues().dom().contains((from@, to@)),
    {
        let from = String::from_str(from);
        let to = String::from_str(to);
        match self.transport_channel.queue_map.get(&from) {
            Some(row) => row.contains_key(&to),
            None => false,
        }
    }

    /// Takes the channel's parts out, leaving an empty channel in their place.
    fn take_channel(&mut self) -> (parts: (Vec<String>, LocalQueueMap))
        ensures
            parts.0@ == old(self).transport_channel.locations@,
            parts.1 == old(self).transport_channel.queue_map,
            parts.1.serves(names_of(parts.0@)),
            final(self).internal_locations == old(self).internal_locations,
    {
        let empty: LocalQueueMap = LocationMap::new();
        let no_locations: Vec<String> = Vec::new();
        proof {
            assert(names_of(no_locations@) =~= Seq::<Seq<char>>::empty());
        }
        let mut channel = TransportChannel { locations: no_locations, queue_map: empty };
        std::mem::swap(&mut channel, &mut self.transport_channel);
        proof {
            use_type_invariant(&channel);
        }
        let TransportChannel { locations, queue_map } = channel;
        (locations, queue_map)
    }

    /// Sends the serialized `data` from `from` to `to`: it joins the end of
    /// their queue.
    pub fn send(&mut self, from: &str, to: &str, data: String)
        requires
            old(self).queues().dom().contains((from@, to@)),
        ensures
            final(self).queues() == enqueue(old(self).queues(), from@, to@, data),
            final(self).queues().dom() == old(self).queues().dom(),
            final(self).queues()[(from@, to@)] == old(self).queues()[(from@, to@)].push(data),
            forall|p: (Seq<char>, Seq<char>)|
                old(self).queues().dom().contains(p) && p != (from@, to@) ==> #[trigger] final(self).queues()[p] == old(self).queues()[p],
            final(self).location_list() == old(self).location_list(),
    {
        let from = String::from_str(from);
        let to = String::from_str(to);
        let (locations, mut queue_map) = self.take_channel();
        let ghost q0 = queue_map;
        let mut row = queue_map.remove(&from).unwrap();
        let ghost row0 = row;
        let mut queue = row.remove(&to).unwrap();
        queue.push_back(data);
        row.insert(to, queue);
        queue_map.insert(from, row);
        proof {
            assert(queue_map@.dom() =~= q0@.dom());
        }
        self.transport_channel = TransportChannel { locations, queue_map };
        proof {
            let q1 = self.transport_channel.queue_map;
            assert(local_queues(q1) =~= enqueue(local_queues(q0), from@, to@, data)) by {
                assert(q1@ == q0@.insert(from@, row));
                assert(row@ == row0@.insert(to@, queue));
            }
        }
    }

    /// Receives at `at` the oldest message from `from` that is still
    /// pending, or nothing where none is.
    pub fn receive(&mut self, from: &str, at: &str) -> (r: Option<String>)
        requires
            old(self).queues().dom().contains((from@, at@)),
        ensures
            (r, final(self).queues()) == dequeue(old(self).queues(), from@, at@),
            final(self).queues().dom() == old(self).queues().dom(),
            match r {
                Some(m) => {
                    &&& old(self).queues()[(from@, at@)].len() > 0
                    &&& m == old(self).queues()[(from@, at@)][0]
                    &&& final(self).queues()[(from@, at@)] == old(self).queues()[(
                        from@,
                        at@,
                    )].drop_first()
                },
                None => {
                    &&& old(self).queues()[(from@, at@)].len() == 0
                    &&& final(self).queues()[(from@, at@)] == old(self).queues()[(from@, at@)]
                },
            },
            forall|p: (Seq<char>, Seq<char>)|
                old(self).queues().dom().contains(p) && p != (from@, at@) ==> #[trigger] final(self).queues()[p] == old(self).queues()[p],
            final(self).location_list() == old(self).location_list(),
    {
        let from = String::from_str(from);
        let at = String::from_str(at);
        let (locations, mut queue_map) = self.take_channel();
        let ghost q0 = queue_map;
        let mut row = queue_map.remove(&from).unwrap();
        let ghost row0 = row;
        let mut queue = row.remove(&at).unwrap();
        let ghost pending = queue@;
        let r = queue.pop_front();
        row.insert(at, queue);
        queue_map.insert(from, row);
        proof {
            assert(queue_map@.dom() =~= q0@.dom());
        }
        self.transport_channel = TransportChannel { locations, queue_map };
        proof {
            let q1 = self.transport_channel.queue_map;
            assert(q1@ == q0@.insert(from@, row));
            assert(row@ == row0@.insert(at@, queue));
            if pending.len() == 0 {
                assert(local_queues(q1) =~= local_queues(q0));
            } else {
                assert(queue@ =~= pending.drop_first());
                assert(local_queues(q1) =~= local_queues(q0).insert(
                    (from@, at@),
                    pending.drop_first(),
                ));
            }
        }
        r
    }
}

/// Every name has an empty queue in the row, and the row has no other name.
pub open spec fn local_row_empty(row: LocationMap<VecDeque<String>>, names: Seq<Seq<char>>) -> bool {
    &&& forall|b: Seq<char>| #[trigger] row@.dom().contains(b) <==> names.contains(b)
    &&& forall|b: Seq<char>| #[trigger] row@.dom().contains(b) ==> row@[b]@.len() == 0
}

} // verus!
