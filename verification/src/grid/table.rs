//! Index from layers to the servers that hold them.

use std::collections::HashMap;
use vstd::prelude::*;

use crate::grid::entry;
use crate::grid::entry::ServerEntry;

verus! {

broadcast use vstd::std_specs::hash::group_hash_axioms;

/// For each layer, the places of the servers that hold it.
pub struct LayerTable {
    pub slots: HashMap<u32, Vec<usize>>,
}

/// The places of the servers that serve a model and hold a layer, in order.
pub open spec fn covering(
    servers: Seq<ServerEntry>,
    model: Option<Seq<char>>,
    layer: u32,
) -> Seq<usize>
    decreases servers.len(),
{
    if servers.len() == 0 {
        Seq::empty()
    } else {
        let rest = covering(servers.drop_last(), model, layer);
        if servers.last().serves(model) && servers.last().covers(layer) {
            rest.push((servers.len() - 1) as usize)
        } else {
            rest
        }
    }
}

impl LayerTable {
    /// The places listed for a layer.
    pub open spec fn slot(&self, layer: u32) -> Seq<usize> {
        if self.slots@.contains_key(layer) {
            self.slots@[layer]@
        } else {
            Seq::empty()
        }
    }

    /// Whether this is the index of the given servers for a model. A layer that
    /// none of them holds has no entry.
    pub open spec fn indexes(&self, servers: Seq<ServerEntry>, model: Option<Seq<char>>) -> bool {
        &&& self.compact()
        &&& forall|layer: u32| #[trigger] self.slot(layer) == covering(servers, model, layer)
    }

    /// Whether every entry lists some place.
    pub open spec fn compact(&self) -> bool {
        forall|layer: u32| #[trigger]
            self.slots@.contains_key(layer) ==> self.slot(layer).len() > 0
    }

    /// An index without entries.
    pub fn empty() -> (t: LayerTable)
        ensures
            t.compact(),
            forall|layer: u32| #[trigger] t.slot(layer) == Seq::<usize>::empty(),
    {
        LayerTable { slots: HashMap::new() }
    }

    /// The places listed for a layer, or `None` where there are none.
    pub fn get(&self, layer: u32) -> (s: Option<&Vec<usize>>)
        ensures
            s is Some == self.slots@.contains_key(layer),
            s is None ==> self.slot(layer).len() == 0,
            s matches Some(v) ==> v@ == self.slot(layer),
    {
        self.slots.get(&layer)
    }

    /// Lists a place for a layer.
    fn add_one(&mut self, layer: u32, place: usize)
        requires
            old(self).compact(),
        ensures
            final(self).compact(),
            forall|l: u32| #[trigger]
                final(self).slot(l) == if l == layer {
                    old(self).slot(l).push(place)
                } else {
                    old(self).slot(l)
                },
    {
        let mut places: Vec<usize> = match self.slots.remove(&layer) {
            Some(places) => places,
            None => Vec::new(),
        };
        places.push(place);
        self.slots.insert(layer, places);
        assert forall|l: u32| #[trigger] self.slots@.contains_key(l) implies self.slot(l).len()
            > 0 by {
            if l != layer {
                assert(old(self).slots@.contains_key(l));
                assert(self.slot(l) == old(self).slot(l));
            }
        }
    }

    /// Lists a place for every layer of a range.
    fn add_range(&mut self, start: u32, end: u32, place: usize)
        requires
            old(self).compact(),
        ensures
            final(self).compact(),
            forall|l: u32| #[trigger]
                final(self).slot(l) == if start <= l <= end {
                    old(self).slot(l).push(place)
                } else {
                    old(self).slot(l)
                },
    {
        if start > end {
            return;
        }
        let mut layer: u32 = start;
        while layer < end
            invariant
                start <= layer <= end,
                self.compact(),
                forall|l: u32| #[trigger]
                    self.slot(l) == if start <= l < layer {
                        old(self).slot(l).push(place)
                    } else {
                        old(self).slot(l)
                    },
            decreases end - layer,
        {
            self.add_one(layer, place);
            layer += 1;
        }
        self.add_one(end, place);
    }

    /// Builds the index of the given servers for a model.
    pub fn build(servers: &Vec<ServerEntry>, model: Option<&String>) -> (t: LayerTable)
        ensures
            t.indexes(servers@, entry::named(model)),
    {
        let mut t: LayerTable = LayerTable::empty();
        for i in 0..servers.len()
            invariant
                t.indexes(servers@.take(i as int), entry::named(model)),
        {
            let ghost before: LayerTable = t;
            if servers[i].is_serving(model) {
                t.add_range(servers[i].layer_start, servers[i].layer_end, i);
            }
            proof {
                assert(servers@.take(i + 1).drop_last() =~= servers@.take(i as int));
                assert forall|layer: u32| #[trigger] t.slot(layer) == covering(
                    servers@.take(i + 1),
                    entry::named(model),
                    layer,
                ) by {
                    assert(before.slot(layer) == covering(
                        servers@.take(i as int),
                        entry::named(model),
                        layer,
                    ));
                }
            }
        }
        assert(servers@.take(servers@.len() as int) =~= servers@);
        t
    }
}

/// The places that `covering` lists are exactly those of the servers that serve
/// the model and hold the layer, and they increase.
pub proof fn lemma_covering(servers: Seq<ServerEntry>, model: Option<Seq<char>>, layer: u32)
    requires
        servers.len() <= usize::MAX,
    ensures
        forall|k: int|
            0 <= k < covering(servers, model, layer).len() ==> {
                let place = #[trigger] covering(servers, model, layer)[k];
                &&& place < servers.len()
                &&& servers[place as int].serves(model)
                &&& servers[place as int].covers(layer)
            },
        forall|i: int|
            0 <= i < servers.len() && (#[trigger] servers[i]).serves(model) && servers[i].covers(
                layer,
            ) ==> covering(servers, model, layer).contains(i as usize),
        forall|j: int, k: int|
            0 <= j < k < covering(servers, model, layer).len() ==> (#[trigger] covering(
                servers,
                model,
                layer,
            )[j]) < (#[trigger] covering(servers, model, layer)[k]),
    decreases servers.len(),
{
    if servers.len() > 0 {
        let fewer = servers.drop_last();
        lemma_covering(fewer, model, layer);
        let all = covering(servers, model, layer);
        let rest = covering(fewer, model, layer);
        assert forall|k: int| 0 <= k < all.len() implies {
            let place = #[trigger] all[k];
            &&& place < servers.len()
            &&& servers[place as int].serves(model)
            &&& servers[place as int].covers(layer)
        } by {
            if k < rest.len() {
                assert(all[k] == rest[k]);
                assert(fewer[rest[k] as int] == servers[rest[k] as int]);
            }
        }
        assert forall|i: int|
            0 <= i < servers.len() && (#[trigger] servers[i]).serves(model) && servers[i].covers(
                layer,
            ) implies all.contains(i as usize) by {
            if i < fewer.len() {
                assert(fewer[i] == servers[i]);
                assert(rest.contains(i as usize));
                let k = choose|k: int| 0 <= k < rest.len() && rest[k] == i as usize;
                assert(all[k] == i as usize);
            } else {
                assert(all[all.len() - 1] == i as usize);
            }
        }
        assert forall|j: int, k: int| 0 <= j < k < all.len() implies (#[trigger] all[j]) < (
        #[trigger] all[k]) by {
            assert(all[j] == rest[j]);
            if k < rest.len() {
                assert(all[k] == rest[k]);
            }
        }
    }
}

/// An index lists each server that serves the model and holds the layer exactly
/// once, and no other server. A layer that no such server holds has no entry.
pub proof fn law_each_server_is_listed_once(
    t: LayerTable,
    servers: Seq<ServerEntry>,
    model: Option<Seq<char>>,
    layer: u32,
)
    requires
        servers.len() <= usize::MAX,
        t.indexes(servers, model),
    ensures
        t.slot(layer).no_duplicates(),
        forall|i: int|
            0 <= i < servers.len() ==> t.slot(layer).contains(i as usize) == ((
            #[trigger] servers[i]).serves(model) && servers[i].covers(layer)),
        forall|k: int|
            0 <= k < t.slot(layer).len() ==> (#[trigger] t.slot(layer)[k]) < servers.len(),
        t.slots@.contains_key(layer) == exists|i: int|
            0 <= i < servers.len() && (#[trigger] servers[i]).serves(model) && servers[i].covers(
                layer,
            ),
{
    lemma_covering(servers, model, layer);
    let places = covering(servers, model, layer);
    assert(t.slot(layer) == places);
    assert forall|j: int, k: int|
        0 <= j < places.len() && 0 <= k < places.len() && j != k implies places[j]
        != places[k] by {
        if j < k {
            assert(places[j] < places[k]);
        } else {
            assert(places[k] < places[j]);
        }
    }
    assert forall|i: int| 0 <= i < servers.len() implies places.contains(i as usize) == ((
    #[trigger] servers[i]).serves(model) && servers[i].covers(layer)) by {
        if places.contains(i as usize) {
            let k = choose|k: int| 0 <= k < places.len() && places[k] == i as usize;
            assert(servers[places[k] as int].serves(model));
        }
    }
    if places.len() > 0 {
        let first = places[0] as int;
        assert(servers[first].serves(model) && servers[first].covers(layer));
        assert(t.slots@.contains_key(layer));
    }
}

/// An index is determined by the servers: two indices of the same servers have
/// the same entries.
pub proof fn law_index_is_determined(
    a: LayerTable,
    b: LayerTable,
    servers: Seq<ServerEntry>,
    model: Option<Seq<char>>,
    layer: u32,
)
    requires
        a.indexes(servers, model),
        b.indexes(servers, model),
    ensures
        a.slots@.contains_key(layer) == b.slots@.contains_key(layer),
        a.slot(layer) == b.slot(layer),
{
    assert(a.slot(layer) == covering(servers, model, layer));
    assert(b.slot(layer) == covering(servers, model, layer));
}

} // verus!
