//! Built-in transports.

pub mod http;
pub mod local;

use crate::location_map::LocationMap;
use vstd::prelude::*;
use vstd::string::*;

verus! {

/// The configuration of a transport, as seen from one location.
///
/// `info` holds what the transport needs to know of every other location,
/// `target_info` names the location that runs this side of the choreography
/// together with its own information, and `location_set` lists every
/// location of the choreography in order.
pub struct TransportConfig<InfoType, TargetInfoType> {
    /// The information about the other locations.
    pub info: LocationMap<InfoType>,
    /// The location this configuration is for, with its information.
    pub target_info: (String, TargetInfoType),
    /// Every location of the choreography.
    pub location_set: Vec<String>,
}

/// What a kind of queue map says of the locations it serves.
pub trait ChannelQueues: Sized {
    /// The map holds the queues of exactly the locations with these names.
    spec fn serves(&self, names: Seq<Seq<char>>) -> bool;
}

/// The message queues that a transport delivers into, together with the
/// locations they serve; the queues are always those of exactly these
/// locations.
pub struct TransportChannel<Q: ChannelQueues> {
    pub(crate) locations: Vec<String>,
    pub(crate) queue_map: Q,
}

impl<Q: ChannelQueues> TransportChannel<Q> {
    #[verifier::type_invariant]
    spec fn queues_match_locations(self) -> bool {
        self.queue_map.serves(names_of(self.locations@))
    }

    /// The locations the channel serves, in order.
    pub closed spec fn location_list(self) -> Seq<String> {
        self.locations@
    }

    /// The queues of the channel.
    pub closed spec fn queue_contents(self) -> Q {
        self.queue_map
    }

    /// The locations the channel serves, in order.
    pub fn locations(&self) -> (locs: &Vec<String>)
        ensures
            locs@ == self.location_list(),
    {
        &self.locations
    }

    /// The queues of the channel, which serve exactly its locations.
    pub fn queue_map(&self) -> (q: &Q)
        ensures
            *q == self.queue_contents(),
            q.serves(names_of(self.location_list())),
    {
        proof {
            use_type_invariant(self);
        }
        &self.queue_map
    }
}

/// The names of a sequence of strings, each taken by its view.
pub open spec fn names_of(locations: Seq<String>) -> Seq<Seq<char>> {
    locations.map_values(|s: String| s@)
}

/// The information that a list of `(location, info)` entries gives the
/// locations other than `target`: a later entry for a name overrides an
/// earlier one.
pub open spec fn config_info<T>(target: Seq<char>, entries: Seq<(String, T)>) -> Map<
    Seq<char>,
    T,
>
    decreases entries.len(),
{
    if entries.len() == 0 {
        Map::empty()
    } else {
        let m = config_info(target, entries.drop_last());
        let e = entries.last();
        if e.0@ == target {
            m
        } else {
            m.insert(e.0@, e.1)
        }
    }
}

/// The information given to `target` by the last entry that names it.
pub open spec fn config_target<T>(target: Seq<char>, entries: Seq<(String, T)>) -> Option<T>
    decreases entries.len(),
{
    if entries.len() == 0 {
        None
    } else if entries.last().0@ == target {
        Some(entries.last().1)
    } else {
        config_target(target, entries.drop_last())
    }
}

/// Whether some entry names `target`.
pub open spec fn names_target<T>(target: Seq<char>, entries: Seq<(String, T)>) -> bool {
    exists|i: int| 0 <= i < entries.len() && #[trigger] entries[i].0@ == target
}

/// Read from the back, the first entry for each name is the one that counts.
spec fn info_from_back<T>(target: Seq<char>, entries: Seq<(String, T)>) -> Map<Seq<char>, T>
    decreases entries.len(),
{
    if entries.len() == 0 {
        Map::empty()
    } else {
        let m = info_from_back(target, entries.drop_first());
        let e = entries.first();
        if e.0@ == target || m.dom().contains(e.0@) {
            m
        } else {
            m.insert(e.0@, e.1)
        }
    }
}

spec fn target_from_back<T>(target: Seq<char>, entries: Seq<(String, T)>) -> Option<T>
    decreases entries.len(),
{
    if entries.len() == 0 {
        None
    } else {
        match target_from_back(target, entries.drop_first()) {
            Some(v) => Some(v),
            None => if entries.first().0@ == target {
                Some(entries.first().1)
            } else {
                None
            },
        }
    }
}

/// Reading from the back and reading from the front with later entries
/// overriding earlier ones agree.
proof fn lemma_from_back<T>(target: Seq<char>, entries: Seq<(String, T)>)
    ensures
        info_from_back(target, entries) == config_info(target, entries),
        target_from_back(target, entries) == config_target(target, entries),
        config_target(target, entries) is Some <==> names_target(target, entries),
    decreases entries.len(),
{
    if entries.len() == 0 {
    } else if entries.len() == 1 {
        assert(entries.drop_first().len() == 0);
        assert(entries.drop_last().len() == 0);
        assert(entries.last() == entries.first());
        assert(info_from_back(target, entries.drop_first()) == Map::<Seq<char>, T>::empty());
        assert(config_info(target, entries.drop_last()) == Map::<Seq<char>, T>::empty());
        assert(info_from_back(target, entries) =~= config_info(target, entries));
        if names_target(target, entries) {
            let i = choose|i: int| 0 <= i < entries.len() && #[trigger] entries[i].0@ == target;
            assert(i == 0);
        }
    } else {
        let mid = entries.drop_first().drop_last();
        assert(entries.drop_last().drop_first() =~= mid);
        assert(entries.drop_first().last() == entries.last());
        assert(entries.drop_last().first() == entries.first());
        lemma_from_back(target, entries.drop_first());
        lemma_from_back(target, entries.drop_last());
        lemma_from_back(target, mid);
        let e = entries.first();
        let l = entries.last();
        let m = config_info(target, mid);
        let m_e = info_from_back(target, entries.drop_last());
        assert(m_e == if e.0@ == target || m.dom().contains(e.0@) {
            m
        } else {
            m.insert(e.0@, e.1)
        });
        let m_l = config_info(target, entries.drop_first());
        assert(m_l == if l.0@ == target {
            m
        } else {
            m.insert(l.0@, l.1)
        });
        assert(config_info(target, entries) == if l.0@ == target {
            m_e
        } else {
            m_e.insert(l.0@, l.1)
        });
        assert(info_from_back(target, entries) == if e.0@ == target || m_l.dom().contains(e.0@) {
            m_l
        } else {
            m_l.insert(e.0@, e.1)
        });
        assert(info_from_back(target, entries) =~= config_info(target, entries));
        if names_target(target, entries) {
            let i = choose|i: int| 0 <= i < entries.len() && #[trigger] entries[i].0@ == target;
            if i < entries.len() - 1 {
                assert(entries.drop_last()[i].0@ == target);
            }
        }
        if names_target(target, entries.drop_last()) {
            let i = choose|i: int|
                0 <= i < entries.drop_last().len() && #[trigger] entries.drop_last()[i].0@
                    == target;
            assert(entries[i].0@ == target);
        }
    }
}

/// A configuration lists exactly the locations other than its own that some
/// entry names; in particular it never lists its own.
pub proof fn lemma_config_info_domain<T>(target: Seq<char>, entries: Seq<(String, T)>, k: Seq<char>)
    ensures
        config_info(target, entries).dom().contains(k) <==> (k != target && names_target(
            k,
            entries,
        )),
    decreases entries.len(),
{
    if entries.len() > 0 {
        let init = entries.drop_last();
        lemma_config_info_domain(target, init, k);
        if names_target(k, entries) && !names_target(k, init) {
            let i = choose|i: int| 0 <= i < entries.len() && #[trigger] entries[i].0@ == k;
            if i < init.len() {
                assert(init[i].0@ == k);
            }
        }
        if names_target(k, init) {
            let i = choose|i: int| 0 <= i < init.len() && #[trigger] init[i].0@ == k;
            assert(entries[i].0@ == k);
        }
        if entries.last().0@ == k {
            assert(entries[entries.len() - 1].0@ == k);
        }
    }
}

/// The first `n + 1` names hold what the first `n` hold, and the next one.
pub proof fn lemma_take_push_contains(names: Seq<Seq<char>>, n: int)
    requires
        0 <= n < names.len(),
    ensures
        forall|b: Seq<char>| #[trigger]
            names.take(n + 1).contains(b) <==> (names.take(n).contains(b) || b == names[n]),
{
    let s = names.take(n);
    let t = names.take(n + 1);
    assert forall|b: Seq<char>| #[trigger]
        t.contains(b) <==> (s.contains(b) || b == names[n]) by {
        if t.contains(b) {
            let k = choose|k: int| 0 <= k < t.len() && t[k] == b;
            if k < n {
                assert(s[k] == b);
            }
        }
        if s.contains(b) {
            let k = choose|k: int| 0 <= k < s.len() && s[k] == b;
            assert(t[k] == b);
        }
        if b == names[n] {
            assert(t[n] == b);
        }
    }
}

/// Builds the configuration of the location named `choreography_loc` from
/// the information of every location, listed in order.
///
/// The other locations get their entries in `info`; the entry that names
/// `choreography_loc` itself becomes `target_info`. Where a name occurs more
/// than once, its last entry counts.
pub fn transport_config<T>(choreography_loc: &str, entries: Vec<(String, T)>) -> (config:
    TransportConfig<T, T>)
    requires
        names_target(choreography_loc@, entries@),
    ensures
        config.info@ == config_info(choreography_loc@, entries@),
        config.target_info.0@ == choreography_loc@,
        Some(config.target_info.1) == config_target(choreography_loc@, entries@),
        names_of(config.location_set@) == entries@.map_values(|e: (String, T)| e.0@),
{
    let target = String::from_str(choreography_loc);
    let ghost all = entries@;
    let mut location_set: Vec<String> = Vec::new();
    let mut i: usize = 0;
    while i < entries.len()
        invariant
            i <= entries.len(),
            entries@ == all,
            location_set@.len() == i,
            forall|j: int| 0 <= j < i ==> #[trigger] location_set@[j]@ == entries@[j].0@,
        decreases entries.len() - i,
    {
        location_set.push(entries[i].0.clone());
        i = i + 1;
    }
    proof {
        assert(names_of(location_set@) =~= all.map_values(|e: (String, T)| e.0@));
        lemma_from_back(target@, all);
    }
    let mut rest = entries;
    let mut info: LocationMap<T> = LocationMap::new();
    let mut found: Option<T> = None;
    while rest.len() > 0
        invariant
            rest@ == all.take(rest@.len() as int),
            rest@.len() <= all.len(),
            info@ == info_from_back(target@, all.skip(rest@.len() as int)),
            found == target_from_back(target@, all.skip(rest@.len() as int)),
        decreases rest@.len(),
    {
        let ghost n = rest@.len();
        let e = rest.pop().unwrap();
        proof {
            assert(all.skip(n - 1).drop_first() =~= all.skip(n as int));
            assert(all.skip(n - 1).first() == e);
            assert(rest@ =~= all.take(n - 1));
        }
        let (name, value) = e;
        if name == target {
            if found.is_none() {
                found = Some(value);
            }
        } else if !info.contains_key(&name) {
            info.insert(name, value);
        }
    }
    proof {
        assert(all.skip(0) =~= all);
    }
    TransportConfig { info, target_info: (target, found.unwrap()), location_set }
}

} // verus!
