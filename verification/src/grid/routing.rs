//! Which server a request goes to.

use std::cmp::Ordering;
use std::collections::HashMap;
use vstd::prelude::*;

use crate::grid::entry;
use crate::grid::entry::ServerEntry;
use crate::grid::state;
use crate::grid::state::{GridState, ModelTable};
use crate::grid::table;
use crate::metric::Metric;

verus! {

broadcast use vstd::std_specs::hash::group_hash_axioms;

/// The average latency of a server at a layer, where it is known.
pub open spec fn latency(e: ServerEntry, layer: u32) -> Option<Metric> {
    if e.layer_latencies@.contains_key(layer) {
        Some(e.layer_latencies@[layer].0)
    } else {
        None
    }
}

/// Whether a server is strictly preferred to another at a layer: by latency at
/// that layer, then by round-trip time, then by load. A server with a
/// measurement is preferred to one without. What is not a number decides
/// nothing.
pub open spec fn beats(a: ServerEntry, b: ServerEntry, layer: u32) -> bool {
    match (latency(a, layer), latency(b, layer)) {
        (Some(x), Some(y)) => x.below(y),
        (Some(_), None) => true,
        (None, Some(_)) => false,
        (None, None) => match (a.rtt_ms, b.rtt_ms) {
            (Some(x), Some(y)) => x.below(y),
            (Some(_), None) => true,
            (None, Some(_)) => false,
            (None, None) => a.requests_in_flight < b.requests_in_flight,
        },
    }
}

/// The average latency of a server at a layer, where it is known.
fn latency_at(e: &ServerEntry, layer: u32) -> (m: Option<Metric>)
    ensures
        m == latency(*e, layer),
{
    match e.layer_latencies.get(&layer) {
        Some(stats) => Some(stats.0),
        None => None,
    }
}

/// How two servers compare as targets for a layer; the lesser one is preferred.
pub fn compare_servers_for_route(a: &ServerEntry, b: &ServerEntry, layer: u32) -> (o: Ordering)
    ensures
        (o == Ordering::Less) == beats(*a, *b, layer),
        (o == Ordering::Greater) == beats(*b, *a, layer),
{
    match (latency_at(a, layer), latency_at(b, layer)) {
        (Some(x), Some(y)) => x.compare(y),
        (Some(_), None) => Ordering::Less,
        (None, Some(_)) => Ordering::Greater,
        (None, None) => match (a.rtt_ms, b.rtt_ms) {
            (Some(x), Some(y)) => x.compare(y),
            (Some(_), None) => Ordering::Less,
            (None, Some(_)) => Ordering::Greater,
            (None, None) => {
                if a.requests_in_flight < b.requests_in_flight {
                    Ordering::Less
                } else if b.requests_in_flight < a.requests_in_flight {
                    Ordering::Greater
                } else {
                    Ordering::Equal
                }
            },
        },
    }
}

/// Whether a later server displaces the one that was preferred so far.
fn displaces(later: &ServerEntry, best: &ServerEntry, layer: u32) -> (b: bool)
    ensures
        b == beats(*later, *best, layer),
{
    match compare_servers_for_route(best, later, layer) {
        Ordering::Greater => true,
        _ => false,
    }
}

/// The place that wins when places are tried in order and a later one displaces
/// the best so far only when it beats it.
pub open spec fn champion(servers: Seq<ServerEntry>, places: Seq<usize>, layer: u32) -> usize
    recommends
        places.len() > 0,
    decreases places.len(),
{
    if places.len() <= 1 {
        places[0]
    } else {
        let best = champion(servers, places.drop_last(), layer);
        if beats(servers[places.last() as int], servers[best as int], layer) {
            places.last()
        } else {
            best
        }
    }
}

/// Where a request for a layer goes.
pub open spec fn routed(
    servers: Seq<ServerEntry>,
    model: Option<Seq<char>>,
    layer: u32,
) -> Option<Seq<char>> {
    let places = table::covering(servers, model, layer);
    if places.len() == 0 {
        None
    } else {
        Some(servers[champion(servers, places, layer) as int].listen_url@)
    }
}

/// A model that a request names, if it names one.
pub open spec fn asked(model: Option<&str>) -> Option<Seq<char>> {
    match model {
        Some(m) => Some(m@),
        None => None,
    }
}

/// Where a request for a layer goes that is numbered without a limit. Servers
/// hold layers that are numbered in thirty-two bits, so nobody holds one beyond
/// that.
pub open spec fn routed_layer(
    servers: Seq<ServerEntry>,
    model: Option<Seq<char>>,
    layer: usize,
) -> Option<Seq<char>> {
    if layer > u32::MAX {
        None
    } else {
        routed(servers, model, layer as u32)
    }
}

/// Whether a plan sends each of the layers where a request for it goes, and
/// names no other layer.
pub open spec fn plan_of(
    plan: Map<usize, String>,
    servers: Seq<ServerEntry>,
    model: Option<Seq<char>>,
    layers: Seq<usize>,
) -> bool {
    &&& forall|l: usize| #[trigger] plan.contains_key(l) == layers.contains(l)
    &&& forall|l: usize| #[trigger]
        plan.contains_key(l) ==> routed_layer(servers, model, l) == Some(plan[l]@)
}

/// The best of the listed servers for a layer.
fn best_of(servers: &Vec<ServerEntry>, places: &Vec<usize>, layer: u32) -> (p: usize)
    requires
        places@.len() > 0,
        forall|k: int| 0 <= k < places@.len() ==> (#[trigger] places@[k]) < servers@.len(),
    ensures
        p == champion(servers@, places@, layer),
        p < servers@.len(),
{
    let mut best: usize = places[0];
    assert(places@.take(1).len() == 1);
    for k in 1..places.len()
        invariant
            forall|k: int| 0 <= k < places@.len() ==> (#[trigger] places@[k]) < servers@.len(),
            best < servers@.len(),
            best == champion(servers@, places@.take(k as int), layer),
    {
        let p: usize = places[k];
        assert(places@.take(k + 1).drop_last() =~= places@.take(k as int));
        if displaces(&servers[p], &servers[best], layer) {
            best = p;
        }
    }
    assert(places@.take(places@.len() as int) =~= places@);
    best
}

impl GridState {
    /// The places of the servers that a request for a layer may go to.
    fn candidates(&self, model_id: Option<&str>, layer: u32) -> (c: Option<&Vec<usize>>)
        requires
            self.wf(),
        ensures
            c is None ==> table::covering(self.servers@, asked(model_id), layer).len() == 0,
            c matches Some(v) ==> v@ == table::covering(self.servers@, asked(model_id), layer),
    {
        match model_id {
            Some(m) => {
                let wanted: String = m.to_owned();
                match state::model_place(&self.route_table, &wanted) {
                    Some(t) => {
                        let found: &ModelTable = &self.route_table[t];
                        assert(found.table.indexes(self.servers@, Some(wanted@)));
                        found.table.get(layer)
                    },
                    None => {
                        proof {
                            assert(self.servers.len() == self.servers@.len());
                            table::lemma_covering(self.servers@, Some(wanted@), layer);
                            let places = table::covering(self.servers@, Some(wanted@), layer);
                            if places.len() > 0 {
                                assert(places[0] < self.servers@.len());
                                assert(state::has_table(
                                    self.route_table@,
                                    self.servers@[places[0] as int].model_id@,
                                ));
                            }
                        }
                        None
                    },
                }
            },
            None => self.any_model_table.get(layer),
        }
    }

    /// The address of the server that a request for a layer goes to, or `None`
    /// where no server holds the layer.
    pub fn route(&self, model_id: Option<&str>, layer: u32) -> (url: Option<String>)
        requires
            self.wf(),
        ensures
            url is Some == routed(self.servers@, asked(model_id), layer) is Some,
            url matches Some(u) ==> routed(self.servers@, asked(model_id), layer) == Some(u@),
    {
        match self.candidates(model_id, layer) {
            Some(places) => {
                if places.len() == 0 {
                    return None;
                }
                proof {
                    assert(self.servers.len() == self.servers@.len());
                    table::lemma_covering(self.servers@, asked(model_id), layer);
                }
                let best: usize = best_of(&self.servers, places, layer);
                Some(self.servers[best].listen_url.clone())
            },
            None => None,
        }
    }

    /// Where requests for several layers go, or the first of the layers that no
    /// server holds.
    pub fn route_all(&self, model_id: Option<&str>, layers: &[usize]) -> (plan: Result<
        HashMap<usize, String>,
        usize,
    >)
        requires
            self.wf(),
        ensures
            plan is Ok == (forall|i: int|
                0 <= i < layers@.len() ==> routed_layer(self.servers@, asked(model_id), #[trigger] layers@[i]) is Some),
            plan matches Ok(m) ==> plan_of(m@, self.servers@, asked(model_id), layers@),
            plan matches Err(l) ==> exists|i: int|
                0 <= i < layers@.len() && #[trigger] layers@[i] == l && routed_layer(self.servers@, asked(model_id), l) is None && forall|j: int|
                    0 <= j < i ==> routed_layer(self.servers@, asked(model_id), #[trigger] layers@[j]) is Some,
    {
        let mut out: HashMap<usize, String> = HashMap::new();
        for i in 0..layers.len()
            invariant
                self.wf(),
                forall|j: int|
                    0 <= j < i ==> routed_layer(self.servers@, asked(model_id), #[trigger] layers@[j]) is Some,
                plan_of(out@, self.servers@, asked(model_id), layers@.take(i as int)),
        {
            let layer: usize = layers[i];
            let url: Option<String> = if layer > u32::MAX as usize {
                None
            } else {
                self.route(model_id, layer as u32)
            };
            match url {
                Some(url) => {
                    let ghost before: Map<usize, String> = out@;
                    out.insert(layer, url);
                    proof {
                        let some = layers@.take(i as int);
                        let more = layers@.take(i + 1);
                        assert(more =~= some.push(layer));
                        assert forall|l: usize| #[trigger]
                            out@.contains_key(l) == more.contains(l) by {
                            assert(before.contains_key(l) == some.contains(l));
                            if some.contains(l) {
                                let k = choose|k: int| 0 <= k < some.len() && some[k] == l;
                                assert(more[k] == l);
                            }
                            assert(more[i as int] == layer);
                        }
                        assert forall|l: usize| #[trigger] out@.contains_key(l) implies routed_layer(self.servers@, asked(model_id), l) == Some(out@[l]@) by {
                            if l != layer {
                                assert(before.contains_key(l));
                            }
                        }
                    }
                },
                None => {
                    assert(layers@[i as int] == layer);
                    return Err(layer);
                },
            }
        }
        assert(layers@.take(layers@.len() as int) =~= layers@);
        Ok(out)
    }
}

/// A request has somewhere to go exactly when some server of the model holds
/// the layer; both ends of a server's range count.
pub proof fn law_routed_iff_covered(
    servers: Seq<ServerEntry>,
    model: Option<Seq<char>>,
    layer: u32,
)
    requires
        servers.len() <= usize::MAX,
    ensures
        routed(servers, model, layer) is Some == exists|i: int|
            0 <= i < servers.len() && (#[trigger] servers[i]).serves(model) && servers[i].covers(
                layer,
            ),
{
    table::lemma_covering(servers, model, layer);
    let places = table::covering(servers, model, layer);
    if places.len() > 0 {
        let first = places[0] as int;
        assert(servers[first].serves(model) && servers[first].covers(layer));
    }
}

/// Preference is transitive, even where measurements are not numbers.
pub proof fn law_preference_is_transitive(
    a: ServerEntry,
    b: ServerEntry,
    c: ServerEntry,
    layer: u32,
)
    requires
        beats(a, b, layer),
        beats(b, c, layer),
    ensures
        beats(a, c, layer),
        !beats(b, a, layer),
{
}

pub proof fn lemma_champion_unbeaten(servers: Seq<ServerEntry>, places: Seq<usize>, layer: u32)
    requires
        places.len() > 0,
    ensures
        places.contains(champion(servers, places, layer)),
        forall|k: int|
            0 <= k < places.len() ==> !beats(
                servers[#[trigger] places[k] as int],
                servers[champion(servers, places, layer) as int],
                layer,
            ),
    decreases places.len(),
{
    let best = champion(servers, places, layer);
    if places.len() > 1 {
        let fewer = places.drop_last();
        lemma_champion_unbeaten(servers, fewer, layer);
        let previous = champion(servers, fewer, layer);
        let at = choose|k: int| 0 <= k < fewer.len() && fewer[k] == previous;
        assert(places[at] == previous);
        assert(places[places.len() - 1] == places.last());
        assert forall|k: int| 0 <= k < places.len() implies !beats(
            servers[#[trigger] places[k] as int],
            servers[best as int],
            layer,
        ) by {
            if k < fewer.len() {
                assert(fewer[k] == places[k]);
            }
        }
    } else {
        assert(places[0] == best);
    }
}

/// No server that holds the layer is preferred to the one that gets the
/// request.
pub proof fn law_target_is_unbeaten(
    servers: Seq<ServerEntry>,
    model: Option<Seq<char>>,
    layer: u32,
)
    requires
        servers.len() <= usize::MAX,
        routed(servers, model, layer) is Some,
    ensures
        exists|t: int|
            {
                &&& 0 <= t < servers.len()
                &&& (#[trigger] servers[t]).serves(model)
                &&& servers[t].covers(layer)
                &&& routed(servers, model, layer) == Some(servers[t].listen_url@)
                &&& forall|i: int|
                    0 <= i < servers.len() && (#[trigger] servers[i]).serves(model)
                        && servers[i].covers(layer) ==> !beats(servers[i], servers[t], layer)
            },
{
    let places = table::covering(servers, model, layer);
    table::lemma_covering(servers, model, layer);
    lemma_champion_unbeaten(servers, places, layer);
    let t = champion(servers, places, layer) as int;
    let at = choose|k: int| 0 <= k < places.len() && places[k] == t as usize;
    assert(places[at] < servers.len());
    assert(servers[t].serves(model));
    assert forall|i: int|
        0 <= i < servers.len() && (#[trigger] servers[i]).serves(model) && servers[i].covers(
            layer,
        ) implies !beats(servers[i], servers[t], layer) by {
        assert(places.contains(i as usize));
        let k = choose|k: int| 0 <= k < places.len() && places[k] == i as usize;
        assert(!beats(servers[places[k] as int], servers[t], layer));
    }
}

/// The order of preference: a known latency decides before anything else, a
/// known round-trip time decides where no latency is known, and the load
/// decides last.
pub proof fn law_measurements_come_first(a: ServerEntry, b: ServerEntry, layer: u32)
    ensures
        latency(a, layer) is Some && latency(b, layer) is None ==> beats(a, b, layer),
        latency(a, layer) is None && latency(b, layer) is None && a.rtt_ms is Some
            && b.rtt_ms is None ==> beats(a, b, layer),
        latency(a, layer) is None && latency(b, layer) is None && a.rtt_ms is None
            && b.rtt_ms is None ==> beats(a, b, layer) == (a.requests_in_flight
            < b.requests_in_flight),
{
}

/// Once a server has joined, every layer that it holds has somewhere to go, for
/// its model and for requests that name no model.
pub proof fn law_joined_server_is_reachable(
    servers: Seq<ServerEntry>,
    e: ServerEntry,
    layer: u32,
)
    requires
        state::distinct_servers(servers),
        servers.len() < usize::MAX,
        e.covers(layer),
    ensures
        routed(state::joined(servers, e), Some(e.model_id@), layer) is Some,
        routed(state::joined(servers, e), None, layer) is Some,
{
    state::law_join_adds_one_and_keeps_the_others(servers, e);
    let after = state::joined(servers, e);
    let i = choose|i: int| 0 <= i < after.len() && after[i] == e;
    state::lemma_joined_len(servers, e);
    assert(after[i].serves(Some(e.model_id@)) && after[i].serves(None));
    law_routed_iff_covered(after, Some(e.model_id@), layer);
    law_routed_iff_covered(after, None, layer);
}

} // verus!
