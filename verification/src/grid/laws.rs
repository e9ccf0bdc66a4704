//! What the grid promises, in terms of what servers, spares and messages hold.

use vstd::prelude::*;
use vstd::string::*;

use crate::grid::coverage;
use crate::grid::elevation;
use crate::grid::entry;
use crate::grid::entry::{AvailableEntry, ServerEntry};
use crate::grid::protocol;
use crate::grid::protocol::{
    AssignMsg, Delivery, Outbound, RouterMessage, RouterPayload, SendFailure,
};
use crate::grid::ranges;
use crate::grid::ranges::{Range, RangeKey};
use crate::grid::replication;
use crate::grid::replication::{Assignment, RangeCount};
use crate::grid::routing;
use crate::grid::state;
use crate::grid::state::GridState;
use crate::grid::table;
use crate::grid::table::LayerTable;
use crate::metric::Metric;
use crate::text;

verus! {

/// A lower average latency at the layer wins, whatever else is measured; the
/// other half of a latency entry has no say. A server with an entry wins over
/// one without. Where neither has one, the lower round-trip time wins, and a
/// probed server wins over an unprobed one. Where neither was probed, the one
/// with fewer requests in flight wins.
pub proof fn law_lower_average_latency_wins(a: ServerEntry, b: ServerEntry, layer: u32)
    ensures
        a.layer_latencies@.contains_key(layer) && b.layer_latencies@.contains_key(layer)
            ==> routing::beats(a, b, layer) == a.layer_latencies@[layer].0.below(
            b.layer_latencies@[layer].0,
        ),
        a.layer_latencies@.contains_key(layer) && !b.layer_latencies@.contains_key(layer)
            ==> routing::beats(a, b, layer) && !routing::beats(b, a, layer),
        !a.layer_latencies@.contains_key(layer) && !b.layer_latencies@.contains_key(layer) ==> {
            &&& a.rtt_ms is Some && b.rtt_ms is Some ==> routing::beats(a, b, layer)
                == a.rtt_ms->0.below(b.rtt_ms->0)
            &&& a.rtt_ms is Some && b.rtt_ms is None ==> routing::beats(a, b, layer)
                && !routing::beats(b, a, layer)
            &&& a.rtt_ms is None && b.rtt_ms is None ==> routing::beats(a, b, layer) == (
            a.requests_in_flight < b.requests_in_flight)
        },
{
}

/// Whether a server holds a layer of a model; any model will do where none is
/// named.
pub open spec fn holder(e: ServerEntry, model: Option<Seq<char>>, layer: u32) -> bool {
    &&& model is Some ==> e.model_id@ == model->0
    &&& e.layer_start <= layer
    &&& layer <= e.layer_end
}

/// Whether all that is measured of a server at a layer are numbers.
pub open spec fn measured_in_numbers(e: ServerEntry, layer: u32) -> bool {
    &&& e.layer_latencies@.contains_key(layer) ==> !e.layer_latencies@[layer].0.nan()
    &&& e.rtt_ms is Some ==> !e.rtt_ms->0.nan()
}

proof fn lemma_champion_beats_earlier(servers: Seq<ServerEntry>, places: Seq<usize>, layer: u32)
    requires
        places.len() > 0,
        forall|j: int, k: int| 0 <= j < k < places.len() ==> places[j] < places[k],
        forall|k: int|
            0 <= k < places.len() ==> measured_in_numbers(
                servers[#[trigger] places[k] as int],
                layer,
            ),
    ensures
        places.contains(routing::champion(servers, places, layer)),
        forall|k: int|
            0 <= k < places.len() ==> if places[k] < routing::champion(servers, places, layer) {
                routing::beats(
                    servers[routing::champion(servers, places, layer) as int],
                    servers[#[trigger] places[k] as int],
                    layer,
                )
            } else {
                !routing::beats(
                    servers[places[k] as int],
                    servers[routing::champion(servers, places, layer) as int],
                    layer,
                )
            },
    decreases places.len(),
{
    let best = routing::champion(servers, places, layer);
    if places.len() > 1 {
        let fewer = places.drop_last();
        assert forall|k: int| 0 <= k < fewer.len() implies measured_in_numbers(
            servers[#[trigger] fewer[k] as int],
            layer,
        ) by {
            assert(fewer[k] == places[k]);
        }
        lemma_champion_beats_earlier(servers, fewer, layer);
        let previous = routing::champion(servers, fewer, layer);
        let at = choose|k: int| 0 <= k < fewer.len() && fewer[k] == previous;
        assert(places[at] == previous);
        let last = places[places.len() - 1];
        assert(measured_in_numbers(servers[last as int], layer));
        assert(measured_in_numbers(servers[previous as int], layer));
        assert forall|k: int| 0 <= k < places.len() implies if places[k] < best {
            routing::beats(servers[best as int], servers[#[trigger] places[k] as int], layer)
        } else {
            !routing::beats(servers[places[k] as int], servers[best as int], layer)
        } by {
            let other = servers[places[k] as int];
            assert(measured_in_numbers(other, layer));
            if k < fewer.len() {
                assert(fewer[k] == places[k]);
                assert(places[k] < last);
                assert(!routing::beats(other, servers[previous as int], layer)) by {
                    if fewer[k] < previous {
                        assert(routing::beats(servers[previous as int], other, layer));
                    }
                }
            }
        }
    } else {
        assert(places[0] == best);
    }
}

/// A request goes to a server of the model that holds the layer, and has nowhere
/// to go exactly when there is none. No holder is preferred to the target. Where
/// all measurements are numbers, the target is the first of the best: it is
/// strictly preferred to every holder that joined before it.
pub proof fn law_request_goes_to_the_first_best_holder(
    servers: Seq<ServerEntry>,
    model: Option<Seq<char>>,
    layer: u32,
)
    requires
        servers.len() <= usize::MAX,
    ensures
        routing::routed(servers, model, layer) is None == (forall|i: int|
            0 <= i < servers.len() ==> !holder(#[trigger] servers[i], model, layer)),
        routing::routed(servers, model, layer) matches Some(url) ==> exists|t: int|
            {
                &&& 0 <= t < servers.len()
                &&& holder(#[trigger] servers[t], model, layer)
                &&& url == servers[t].listen_url@
                &&& forall|i: int|
                    0 <= i < servers.len() && holder(#[trigger] servers[i], model, layer)
                        ==> !routing::beats(servers[i], servers[t], layer)
                &&& (forall|i: int|
                    0 <= i < servers.len() && holder(#[trigger] servers[i], model, layer)
                        ==> measured_in_numbers(servers[i], layer)) ==> forall|i: int|
                    0 <= i < t && holder(#[trigger] servers[i], model, layer) ==> routing::beats(
                        servers[t],
                        servers[i],
                        layer,
                    )
            },
{
    let places = table::covering(servers, model, layer);
    table::lemma_covering(servers, model, layer);
    assert forall|i: int| 0 <= i < servers.len() && holder(#[trigger] servers[i], model, layer)
        implies places.contains(i as usize) by {
        assert(servers[i].serves(model) && servers[i].covers(layer));
    }
    if places.len() == 0 {
        assert forall|i: int| 0 <= i < servers.len() implies !holder(
            #[trigger] servers[i],
            model,
            layer,
        ) by {
            if holder(servers[i], model, layer) {
                assert(places.contains(i as usize));
            }
        }
    } else {
        routing::lemma_champion_unbeaten(servers, places, layer);
        let t = routing::champion(servers, places, layer) as int;
        let at = choose|k: int| 0 <= k < places.len() && places[k] == t as usize;
        assert(places[at] < servers.len());
        assert(servers[t].serves(model) && servers[t].covers(layer));
        assert(holder(servers[t], model, layer));
        assert forall|i: int|
            0 <= i < servers.len() && holder(#[trigger] servers[i], model, layer)
            implies !routing::beats(servers[i], servers[t], layer) by {
            assert(places.contains(i as usize));
            let k = choose|k: int| 0 <= k < places.len() && places[k] == i as usize;
            assert(!routing::beats(servers[places[k] as int], servers[t], layer));
        }
        if forall|i: int|
            0 <= i < servers.len() && holder(#[trigger] servers[i], model, layer)
                ==> measured_in_numbers(servers[i], layer) {
            assert forall|k: int| 0 <= k < places.len() implies measured_in_numbers(
                servers[#[trigger] places[k] as int],
                layer,
            ) by {
                let e = servers[places[k] as int];
                assert(e.serves(model) && e.covers(layer));
                assert(holder(e, model, layer));
            }
            lemma_champion_beats_earlier(servers, places, layer);
            assert forall|i: int| 0 <= i < t && holder(#[trigger] servers[i], model, layer)
                implies routing::beats(servers[t], servers[i], layer) by {
                assert(places.contains(i as usize));
                let k = choose|k: int| 0 <= k < places.len() && places[k] == i as usize;
                assert(places[k] < t as usize);
                assert(routing::beats(servers[t], servers[places[k] as int], layer));
            }
        }
    }
}

/// A layer number beyond thirty-two bits has nowhere to go; any other goes where
/// a request for that layer goes.
pub proof fn law_only_wide_layers_are_cut_off(
    servers: Seq<ServerEntry>,
    model: Option<Seq<char>>,
    layer: usize,
)
    ensures
        layer > 0xffff_ffff ==> routing::routed_layer(servers, model, layer) is None,
        forall|l: u32|
            l == layer ==> routing::routed_layer(servers, model, layer) == #[trigger] routing::routed(
                servers,
                model,
                l,
            ),
{
}

/// An index lists, in the order in which they joined, exactly the servers of the
/// model that hold the layer.
pub proof fn law_index_lists_the_holders(
    t: LayerTable,
    servers: Seq<ServerEntry>,
    model: Option<Seq<char>>,
    layer: u32,
)
    requires
        servers.len() <= usize::MAX,
        t.indexes(servers, model),
    ensures
        t.slots@.contains_key(layer) == exists|i: int|
            0 <= i < servers.len() && holder(#[trigger] servers[i], model, layer),
        t.slots@.contains_key(layer) ==> {
            let listed = t.slots@[layer]@;
            &&& forall|j: int, k: int| 0 <= j < k < listed.len() ==> listed[j] < listed[k]
            &&& forall|k: int|
                0 <= k < listed.len() ==> (#[trigger] listed[k]) < servers.len() && holder(
                    servers[listed[k] as int],
                    model,
                    layer,
                )
            &&& forall|i: int|
                0 <= i < servers.len() && holder(#[trigger] servers[i], model, layer)
                    ==> listed.contains(i as usize)
        },
{
    table::lemma_covering(servers, model, layer);
    table::law_each_server_is_listed_once(t, servers, model, layer);
    assert(t.slot(layer) == table::covering(servers, model, layer));
    assert forall|i: int| 0 <= i < servers.len() implies holder(#[trigger] servers[i], model, layer)
        == (servers[i].serves(model) && servers[i].covers(layer)) by {}
    if t.slots@.contains_key(layer) {
        let i = choose|i: int|
            0 <= i < servers.len() && (#[trigger] servers[i]).serves(model) && servers[i].covers(
                layer,
            );
        assert(holder(servers[i], model, layer));
        assert forall|k: int| 0 <= k < t.slot(layer).len() implies (#[trigger] t.slot(layer)[k])
            < servers.len() && holder(servers[t.slot(layer)[k] as int], model, layer) by {
            let place = table::covering(servers, model, layer)[k];
            assert(servers[place as int].serves(model));
        }
    }
}

/// The servers that hold exactly a range.
pub open spec fn replicas_of(servers: Seq<ServerEntry>, k: RangeKey) -> Seq<ServerEntry> {
    servers.filter(
        |e: ServerEntry|
            e.model_id@ == k.0 && e.layer_start == k.1 && e.layer_end == k.2,
    )
}

/// The replicas of a range are the servers with its model, its first and its
/// last layer.
pub proof fn law_replicas_are_counted(servers: Seq<ServerEntry>, k: RangeKey)
    ensures
        replication::replicas(servers, k) == replicas_of(servers, k).len(),
    decreases servers.len(),
{
    reveal(Seq::filter);
    if servers.len() > 0 {
        law_replicas_are_counted(servers.drop_last(), k);
    }
}

/// Whether a range is among the given ones.
pub open spec fn among(rs: Seq<Range>, k: RangeKey) -> bool {
    exists|i: int|
        0 <= i < rs.len() && (#[trigger] rs[i]).0@ == k.0 && rs[i].1 == k.1 && rs[i].2 == k.2
}

/// A range should have as many replicas as the target says, and exactly one more
/// while it is elevated.
pub proof fn law_elevation_raises_the_target_by_one(s: GridState, k: RangeKey)
    ensures
        among(s.elevated_ranges@, k) ==> s.effective_target(k) == s.target_replicas + 1,
        !among(s.elevated_ranges@, k) ==> s.effective_target(k) == s.target_replicas,
{
    if s.elevated(k) {
        let i = choose|i: int|
            0 <= i < s.elevated_ranges@.len() && ranges::key(
                #[trigger] s.elevated_ranges@[i],
            ) == k;
        assert(s.elevated_ranges@[i].0@ == k.0);
    }
    if among(s.elevated_ranges@, k) {
        let i = choose|i: int|
            0 <= i < s.elevated_ranges@.len() && (#[trigger] s.elevated_ranges@[i]).0@ == k.0
                && s.elevated_ranges@[i].1 == k.1 && s.elevated_ranges@[i].2 == k.2;
        assert(ranges::key(s.elevated_ranges@[i]) == k);
    }
}

/// A range that is over its target has as many replicas as the target and the
/// surplus together. A range that is served but under its target reaches the
/// target with its deficit. Otherwise both are zero.
pub proof fn law_surplus_and_deficit_bridge_the_target(s: GridState, k: RangeKey)
    ensures
        ({
            let count = replicas_of(s.servers@, k).len();
            let target = s.target_replicas + if among(s.elevated_ranges@, k) {
                1int
            } else {
                0int
            };
            &&& count > target ==> count == target + s.surplus(k) && s.deficit(k) == 0
            &&& 0 < count < target ==> count + s.deficit(k) == target && s.surplus(k) == 0
            &&& count == target || count == 0 ==> s.surplus(k) == 0 && s.deficit(k) == 0
        }),
{
    law_replicas_are_counted(s.servers@, k);
    law_elevation_raises_the_target_by_one(s, k);
}

/// One more replica of a range that is at or over its target makes its surplus
/// larger by exactly one.
pub proof fn law_one_more_replica_is_one_more_surplus(
    before: GridState,
    e: ServerEntry,
    after: GridState,
)
    requires
        before.wf(),
        replicas_of(before.servers@, (e.model_id@, e.layer_start, e.layer_end)).len()
            >= before.effective_target((e.model_id@, e.layer_start, e.layer_end)),
        forall|i: int|
            0 <= i < before.servers@.len() ==> (#[trigger] before.servers@[i]).server_id@
                != e.server_id@,
        after.servers@ == before.servers@.push(e),
        after.target_replicas == before.target_replicas,
        after.elevated_ranges == before.elevated_ranges,
    ensures
        after.surplus((e.model_id@, e.layer_start, e.layer_end)) == before.surplus(
            (e.model_id@, e.layer_start, e.layer_end),
        ) + 1,
{
    let k = (e.model_id@, e.layer_start, e.layer_end);
    law_replicas_are_counted(before.servers@, k);
    law_replicas_are_counted(after.servers@, k);
    assert(after.servers@.drop_last() =~= before.servers@);
    law_surplus_and_deficit_bridge_the_target(before, k);
    law_surplus_and_deficit_bridge_the_target(after, k);
    assert(after.elevated(k) == before.elevated(k));
}

/// Whether a report has an entry for a range.
pub open spec fn reported(rs: Seq<RangeCount>, k: RangeKey, amount: int) -> bool {
    exists|i: int|
        0 <= i < rs.len() && (#[trigger] rs[i]).0@ == k.0 && rs[i].1 == k.1 && rs[i].2 == k.2
            && rs[i].3 == amount
}

/// The over-replication report has, for every range, an entry with some amount
/// exactly when the range has that many replicas more than its target.
pub proof fn law_over_report_is_exact(s: GridState, rs: Seq<RangeCount>, k: RangeKey, amount: int)
    requires
        s.reports(true, rs),
    ensures
        reported(rs, k, amount) == (amount > 0 && replicas_of(s.servers@, k).len()
            == s.effective_target(k) + amount),
{
    law_surplus_and_deficit_bridge_the_target(s, k);
    law_elevation_raises_the_target_by_one(s, k);
    lemma_report_entry(s, true, rs, k, amount);
}

/// The under-replication report has, for every range, an entry with some amount
/// exactly when the range is served and lacks that many replicas.
pub proof fn law_under_report_is_exact(
    s: GridState,
    rs: Seq<RangeCount>,
    k: RangeKey,
    amount: int,
)
    requires
        s.reports(false, rs),
    ensures
        reported(rs, k, amount) == (amount > 0 && replicas_of(s.servers@, k).len() > 0
            && replicas_of(s.servers@, k).len() + amount == s.effective_target(k)),
{
    law_surplus_and_deficit_bridge_the_target(s, k);
    law_elevation_raises_the_target_by_one(s, k);
    lemma_report_entry(s, false, rs, k, amount);
}

proof fn lemma_report_entry(
    s: GridState,
    over: bool,
    rs: Seq<RangeCount>,
    k: RangeKey,
    amount: int,
)
    requires
        s.reports(over, rs),
    ensures
        reported(rs, k, amount) == (amount > 0 && s.off_target(over, k) == amount),
{
    if reported(rs, k, amount) {
        let i = choose|i: int|
            0 <= i < rs.len() && (#[trigger] rs[i]).0@ == k.0 && rs[i].1 == k.1 && rs[i].2 == k.2
                && rs[i].3 == amount;
        assert(replication::counted(rs[i]) == k);
    }
    if amount > 0 && s.off_target(over, k) == amount {
        assert(replication::counts_list(rs, k));
        let i = choose|i: int|
            0 <= i < rs.len() && replication::counted(#[trigger] rs[i]) == k;
        assert(rs[i].0@ == k.0);
    }
}

/// Whether a server could hand out a range: it serves the model and holds every
/// layer from the first to the last.
pub open spec fn could_hand_out(e: ServerEntry, k: RangeKey) -> bool {
    &&& e.model_id@ == k.0
    &&& e.layer_start <= k.1
    &&& k.2 <= e.layer_end
}

/// The origin of a range is the first server that could hand it out, and there
/// is none exactly when no server could.
pub proof fn law_origin_is_the_first_that_could(servers: Seq<ServerEntry>, k: RangeKey)
    ensures
        match replication::origin(servers, k.0, k.1, k.2) {
            Some(p) => {
                &&& 0 <= p < servers.len()
                &&& could_hand_out(servers[p], k)
                &&& forall|i: int| 0 <= i < p ==> !could_hand_out(#[trigger] servers[i], k)
            },
            None => forall|i: int|
                0 <= i < servers.len() ==> !could_hand_out(#[trigger] servers[i], k),
        },
    decreases servers.len(),
{
    if servers.len() > 0 {
        let fewer = servers.drop_last();
        law_origin_is_the_first_that_could(fewer, k);
        assert forall|i: int| 0 <= i < fewer.len() implies #[trigger] servers[i] == fewer[i] by {}
        if replication::origin(fewer, k.0, k.1, k.2) is None {
            assert forall|i: int| 0 <= i < fewer.len() implies !could_hand_out(
                #[trigger] servers[i],
                k,
            ) by {
                assert(!could_hand_out(fewer[i], k));
            }
        }
    }
}

/// The spare that is picked is the first with at least the memory asked for, and
/// none is picked exactly when every spare has less.
pub proof fn law_spare_is_the_first_with_room(spares: Seq<AvailableEntry>, min_ram_bytes: u64)
    ensures
        match replication::roomy_spare(spares, min_ram_bytes) {
            Some(p) => {
                &&& 0 <= p < spares.len()
                &&& spares[p].ram_bytes >= min_ram_bytes
                &&& forall|i: int| 0 <= i < p ==> (#[trigger] spares[i]).ram_bytes < min_ram_bytes
            },
            None => forall|i: int|
                0 <= i < spares.len() ==> (#[trigger] spares[i]).ram_bytes < min_ram_bytes,
        },
    decreases spares.len(),
{
    if spares.len() > 0 {
        let fewer = spares.drop_last();
        law_spare_is_the_first_with_room(fewer, min_ram_bytes);
        assert forall|i: int| 0 <= i < fewer.len() implies #[trigger] spares[i] == fewer[i] by {}
        if replication::roomy_spare(fewer, min_ram_bytes) is None {
            assert forall|i: int| 0 <= i < fewer.len() implies (#[trigger] spares[i]).ram_bytes
                < min_ram_bytes by {
                assert(fewer[i].ram_bytes < min_ram_bytes);
            }
        }
    }
}

/// What an assignment message holds.
pub open spec fn assignment_in(message: RouterMessage) -> Option<AssignMsg> {
    match message.payload {
        Some(RouterPayload::Assign(a)) => Some(a),
        None => None,
    }
}

/// The message of an assignment holds the model, both ends of the range, the
/// address to load it from and the hash, each in its own place.
pub proof fn law_message_holds_the_assignment(
    message: RouterMessage,
    model_id: Seq<char>,
    layer_start: u32,
    layer_end: u32,
    origin_url: Seq<char>,
    shard_hash: Seq<char>,
)
    requires
        protocol::assigns(message, model_id, layer_start, layer_end, origin_url, shard_hash),
    ensures
        assignment_in(message) is Some,
        assignment_in(message)->0.model_id@ == model_id,
        assignment_in(message)->0.layer_start == layer_start,
        assignment_in(message)->0.layer_end == layer_end,
        assignment_in(message)->0.origin_url@ == origin_url,
        assignment_in(message)->0.shard_hash@ == shard_hash,
{
}

/// Whether a message assigns a range, to be loaded from the first server that
/// could hand it out.
pub open spec fn loads_from_a_live_server(
    servers: Seq<ServerEntry>,
    message: RouterMessage,
    k: RangeKey,
) -> bool {
    exists|i: int|
        {
            &&& 0 <= i < servers.len()
            &&& could_hand_out(#[trigger] servers[i], k)
            &&& forall|j: int| 0 <= j < i ==> !could_hand_out(#[trigger] servers[j], k)
            &&& assignment_in(message) is Some
            &&& assignment_in(message)->0.model_id@ == k.0
            &&& assignment_in(message)->0.layer_start == k.1
            &&& assignment_in(message)->0.layer_end == k.2
            &&& assignment_in(message)->0.origin_url@ == servers[i].listen_url@
            &&& assignment_in(message)->0.shard_hash@ == servers[i].vindex_hash@
        }
}

/// An assignment that is planned for a range is loaded from the first live
/// server that holds all of the range.
pub proof fn law_assignment_loads_from_a_live_server(
    servers: Seq<ServerEntry>,
    message: RouterMessage,
    k: RangeKey,
)
    requires
        replication::assigns_from_origin(servers, message, k),
    ensures
        loads_from_a_live_server(servers, message, k),
{
    law_origin_is_the_first_that_could(servers, k);
    let p = replication::origin(servers, k.0, k.1, k.2)->0;
    law_message_holds_the_assignment(
        message,
        k.0,
        k.1,
        k.2,
        servers[p].listen_url@,
        servers[p].vindex_hash@,
    );
    assert(could_hand_out(servers[p], k));
}

/// The offers of a record that were taken, from a place on.
pub open spec fn taken_from(log: Seq<Delivery>, start: int) -> Seq<Delivery> {
    log.skip(start).filter(|d: Delivery| d.refusal is None)
}

/// When a plan is sent, every message is offered exactly once, to the channel of
/// the spare it was planned for, and nothing else is offered to anybody. The
/// number that is returned is that of the offers that were taken.
pub proof fn law_every_planned_message_is_offered_once(
    before: Seq<Delivery>,
    plan: Seq<Assignment>,
    after: Seq<Delivery>,
    sent: nat,
)
    requires
        replication::offered_each(before, plan, after),
        sent == replication::taken_since(after, before.len() as int),
    ensures
        after.len() == before.len() + plan.len(),
        forall|j: int| 0 <= j < before.len() ==> #[trigger] after[j] == before[j],
        forall|j: int|
            #![trigger plan[j]]
            0 <= j < plan.len() ==> after[before.len() + j].channel == plan[j].spare.sender
                && after[before.len() + j].message is Ok && after[before.len() + j].message->Ok_0
                == plan[j].message,
        sent == taken_from(after, before.len() as int).len(),
{
    assert forall|j: int| 0 <= j < before.len() implies #[trigger] after[j] == before[j] by {
        assert(after.take(before.len() as int)[j] == after[j]);
    }
    assert forall|j: int|
        #![trigger plan[j]]
        0 <= j < plan.len() implies after[before.len() + j].channel == plan[j].spare.sender
        && after[before.len() + j].message is Ok && after[before.len() + j].message->Ok_0
        == plan[j].message by {
        let d = after[before.len() + j];
    }
}

/// Replication offers one assignment for each range that lacks replicas, in the
/// order of ranges, to as many spares as there are: the first range to the first
/// spare, the second to the second, and so on, each through that spare's own
/// channel and nothing through any other. Each is to be loaded from a live
/// server that holds the range. What is returned is the number of offers taken.
pub proof fn law_each_lacking_range_is_offered_to_its_own_spare(
    before: GridState,
    rs: Seq<RangeCount>,
    sent: nat,
    log: Seq<Delivery>,
)
    requires
        before.reports(false, rs),
        replication::replicated_through(before, replication::counted_keys(rs), sent, log),
    ensures
        ({
            let start = before.outbox.log().len() as int;
            let spares = before.available_servers@;
            let offers = log.len() - start;
            &&& offers == rs.len() || offers == spares.len()
            &&& offers <= rs.len() && offers <= spares.len()
            &&& forall|j: int| 0 <= j < start ==> #[trigger] log[j] == before.outbox.log()[j]
            &&& forall|j: int|
                #![trigger rs[j]]
                0 <= j < offers ==> {
                    &&& log[start + j].channel == spares[j].sender
                    &&& log[start + j].message is Ok
                    &&& loads_from_a_live_server(
                        before.servers@,
                        log[start + j].message->Ok_0,
                        (rs[j].0@, rs[j].1, rs[j].2),
                    )
                }
            &&& sent == taken_from(log, start).len()
        }),
{
    let start = before.outbox.log().len() as int;
    assert forall|j: int| 0 <= j < start implies #[trigger] log[j] == before.outbox.log()[j] by {
        assert(log.take(start)[j] == log[j]);
    }
    assert forall|j: int| #![trigger rs[j]] 0 <= j < log.len() - start implies {
        &&& log[start + j].channel == before.available_servers@[j].sender
        &&& log[start + j].message is Ok
        &&& loads_from_a_live_server(
            before.servers@,
            log[start + j].message->Ok_0,
            (rs[j].0@, rs[j].1, rs[j].2),
        )
    } by {
        let d = log[start + j];
        assert(d.message is Ok);
        assert(replication::counted_keys(rs)[j] == (rs[j].0@, rs[j].1, rs[j].2));
        law_assignment_loads_from_a_live_server(
            before.servers@,
            d.message->Ok_0,
            (rs[j].0@, rs[j].1, rs[j].2),
        );
    }
}

/// An assignment to a named spare goes through the channel of the spare with
/// that id and through no other, once, with the five values that were given. It
/// succeeds exactly when the channel takes it. A refusal leaves every spare in
/// the pool; a success takes out the named one and keeps all others. Where no
/// spare has the id, nothing is offered.
pub proof fn law_named_spare_alone_gets_the_message(
    before: GridState,
    server_id: Seq<char>,
    model_id: Seq<char>,
    layer_start: u32,
    layer_end: u32,
    origin_url: Seq<char>,
    shard_hash: Seq<char>,
    r: Result<(), String>,
    after: GridState,
    p: int,
)
    requires
        before.wf(),
        replication::named_outcome(
            before,
            server_id,
            model_id,
            layer_start,
            layer_end,
            origin_url,
            shard_hash,
            r,
            after,
        ),
        0 <= p < before.available_servers@.len(),
        before.available_servers@[p].server_id@ == server_id,
    ensures
        after.outbox.log().len() == before.outbox.log().len() + 1,
        forall|j: int|
            0 <= j < before.outbox.log().len() ==> #[trigger] after.outbox.log()[j]
                == before.outbox.log()[j],
        ({
            let d = after.outbox.log()[before.outbox.log().len() as int];
            &&& d.channel == before.available_servers@[p].sender
            &&& d.message is Ok
            &&& assignment_in(d.message->Ok_0) is Some
            &&& assignment_in(d.message->Ok_0)->0.model_id@ == model_id
            &&& assignment_in(d.message->Ok_0)->0.layer_start == layer_start
            &&& assignment_in(d.message->Ok_0)->0.layer_end == layer_end
            &&& assignment_in(d.message->Ok_0)->0.origin_url@ == origin_url
            &&& assignment_in(d.message->Ok_0)->0.shard_hash@ == shard_hash
            &&& r is Ok == (d.refusal is None)
        }),
        r is Err ==> after.available_servers == before.available_servers,
        r is Ok ==> after.available_servers@.len() == before.available_servers@.len() - 1,
        r is Ok ==> forall|i: int|
            0 <= i < before.available_servers@.len() - 1 ==> #[trigger] after.available_servers@[i]
                == before.available_servers@[if i < p {
                i
            } else {
                i + 1
            }],
        after.servers == before.servers,
{
    assert(replication::pooled_at(before.available_servers@, server_id, p));
    assert forall|q: int| #[trigger]
        replication::pooled_at(before.available_servers@, server_id, q) implies q == p by {
        if q != p {
            assert(before.available_servers@[q].server_id@
                != before.available_servers@[p].server_id@);
        }
    }
    assert forall|j: int| 0 <= j < before.outbox.log().len() implies #[trigger] after.outbox.log()[j]
        == before.outbox.log()[j] by {
        assert(after.outbox.log().drop_last()[j] == after.outbox.log()[j]);
    }
}

/// A single offer leaves the earlier record alone and goes to the given channel.
pub proof fn law_one_offer_goes_to_one_channel(
    before: Seq<Delivery>,
    channel: protocol::ServerChannel,
    after: Seq<Delivery>,
)
    requires
        replication::one_offer(before, channel, after),
    ensures
        after.len() == before.len() + 1,
        forall|j: int| 0 <= j < before.len() ==> #[trigger] after[j] == before[j],
        after[before.len() as int].channel == channel,
{
    assert forall|j: int| 0 <= j < before.len() implies #[trigger] after[j] == before[j] by {
        assert(after.drop_last()[j] == after[j]);
    }
}

/// The server that is dropped from a range holds exactly that range, and no
/// other server with that range has fewer requests in flight; of equally loaded
/// ones it is the first.
pub proof fn law_least_loaded_has_the_fewest_requests(
    servers: Seq<ServerEntry>,
    k: RangeKey,
    p: int,
)
    requires
        replication::least_loaded(servers, k, p),
    ensures
        0 <= p < servers.len(),
        servers[p].model_id@ == k.0 && servers[p].layer_start == k.1 && servers[p].layer_end
            == k.2,
        forall|i: int|
            0 <= i < servers.len() && (#[trigger] servers[i]).model_id@ == k.0
                && servers[i].layer_start == k.1 && servers[i].layer_end == k.2
                ==> servers[p].requests_in_flight <= servers[i].requests_in_flight && (
            servers[p].requests_in_flight == servers[i].requests_in_flight ==> p <= i),
{
    assert forall|i: int|
        0 <= i < servers.len() && (#[trigger] servers[i]).model_id@ == k.0
            && servers[i].layer_start == k.1 && servers[i].layer_end == k.2
        implies servers[p].requests_in_flight <= servers[i].requests_in_flight && (
    servers[p].requests_in_flight == servers[i].requests_in_flight ==> p <= i) by {
        assert(servers[i].range() == k);
    }
}

/// A range is hot exactly when some server with its model, first and last layer
/// answers more requests per second than the threshold.
pub proof fn law_one_hot_replica_makes_a_range_hot(
    servers: Seq<ServerEntry>,
    threshold: Metric,
    k: RangeKey,
)
    ensures
        elevation::hot(servers, threshold, k) == exists|i: int|
            0 <= i < servers.len() && (#[trigger] servers[i]).model_id@ == k.0
                && servers[i].layer_start == k.1 && servers[i].layer_end == k.2
                && threshold.below(servers[i].req_per_sec),
{
    if elevation::hot(servers, threshold, k) {
        let i = choose|i: int|
            0 <= i < servers.len() && (#[trigger] servers[i]).range() == k && threshold.below(
                servers[i].req_per_sec,
            );
        assert(servers[i].model_id@ == k.0);
    }
    if exists|i: int|
        0 <= i < servers.len() && (#[trigger] servers[i]).model_id@ == k.0
            && servers[i].layer_start == k.1 && servers[i].layer_end == k.2 && threshold.below(
            servers[i].req_per_sec,
        ) {
        let i = choose|i: int|
            0 <= i < servers.len() && (#[trigger] servers[i]).model_id@ == k.0
                && servers[i].layer_start == k.1 && servers[i].layer_end == k.2
                && threshold.below(servers[i].req_per_sec);
        assert(servers[i].range() == k);
    }
}

/// A spare that comes is in the pool afterwards, and so are all the others with
/// other ids; the one with the same id, if there was one, is not.
pub proof fn law_coming_spare_keeps_the_others(
    spares: Seq<AvailableEntry>,
    e: AvailableEntry,
    x: AvailableEntry,
)
    ensures
        state::joined_spares(spares, e).contains(e),
        x.server_id@ != e.server_id@ ==> state::joined_spares(spares, e).contains(x)
            == spares.contains(x),
    decreases spares.len(),
{
    let after = state::joined_spares(spares, e);
    if spares.len() == 0 {
        assert(after[0] == e);
    } else if spares[0].server_id@ == e.server_id@ {
        assert(after[0] == e);
        if spares.contains(x) && x.server_id@ != e.server_id@ {
            let i = choose|i: int| 0 <= i < spares.len() && spares[i] == x;
            assert(after[i] == x);
        }
        if after.contains(x) && x.server_id@ != e.server_id@ {
            let i = choose|i: int| 0 <= i < after.len() && after[i] == x;
            assert(spares[i] == x);
        }
    } else {
        let rest = spares.drop_first();
        law_coming_spare_keeps_the_others(rest, e, x);
        let more = state::joined_spares(rest, e);
        assert forall|y: AvailableEntry| #[trigger] after.contains(y) == (y == spares[0]
            || more.contains(y)) by {
            assert(after[0] == spares[0]);
            if more.contains(y) {
                let i = choose|i: int| 0 <= i < more.len() && more[i] == y;
                assert(after[i + 1] == y);
            }
            if after.contains(y) {
                let i = choose|i: int| 0 <= i < after.len() && after[i] == y;
                if i > 0 {
                    assert(more[i - 1] == y);
                }
            }
        }
        assert(spares.contains(x) == (x == spares[0] || rest.contains(x))) by {
            if spares.contains(x) {
                let i = choose|i: int| 0 <= i < spares.len() && spares[i] == x;
                if i > 0 {
                    assert(rest[i - 1] == x);
                }
            }
            if rest.contains(x) {
                let i = choose|i: int| 0 <= i < rest.len() && rest[i] == x;
                assert(spares[i + 1] == x);
            }
            if x == spares[0] {
                assert(spares[0] == x);
            }
        }
    }
}

/// Whether some server of a model holds a layer.
pub open spec fn held(servers: Seq<ServerEntry>, model_id: Seq<char>, layer: int) -> bool {
    exists|i: int|
        0 <= i < servers.len() && (#[trigger] servers[i]).model_id@ == model_id
            && servers[i].layer_start <= layer && layer <= servers[i].layer_end
}

/// The layers of a gap are held by nobody, and its neighbours on both sides are
/// held.
pub proof fn law_gap_is_between_held_layers(servers: Seq<ServerEntry>, k: RangeKey)
    requires
        coverage::gap(servers, k),
    ensures
        k.1 <= k.2,
        held(servers, k.0, k.1 - 1),
        held(servers, k.0, k.2 + 1),
        forall|l: int| k.1 <= l <= k.2 ==> !#[trigger] held(servers, k.0, l),
{
    lemma_held(servers, k.0, k.1 - 1);
    lemma_held(servers, k.0, k.2 + 1);
    assert forall|l: int| k.1 <= l <= k.2 implies !#[trigger] held(servers, k.0, l) by {
        lemma_held(servers, k.0, l);
    }
}

proof fn lemma_held(servers: Seq<ServerEntry>, model_id: Seq<char>, layer: int)
    ensures
        held(servers, model_id, layer) == coverage::covered(servers, model_id, layer),
{
    if held(servers, model_id, layer) {
        let i = choose|i: int|
            0 <= i < servers.len() && (#[trigger] servers[i]).model_id@ == model_id
                && servers[i].layer_start <= layer && layer <= servers[i].layer_end;
        assert(servers[i].model_id@ == model_id);
    }
}

proof fn lemma_held_below(servers: Seq<ServerEntry>, model_id: Seq<char>, low: int, l: int) -> (
    s: int)
    requires
        low < l,
        held(servers, model_id, low),
        !held(servers, model_id, l),
    ensures
        low < s <= l,
        held(servers, model_id, s - 1),
        forall|x: int| s <= x <= l ==> !#[trigger] held(servers, model_id, x),
    decreases l - low,
{
    if held(servers, model_id, l - 1) {
        l
    } else {
        lemma_held_below(servers, model_id, low, l - 1)
    }
}

proof fn lemma_held_above(servers: Seq<ServerEntry>, model_id: Seq<char>, l: int, high: int) -> (
    e: int)
    requires
        l < high,
        held(servers, model_id, high),
        !held(servers, model_id, l),
    ensures
        l <= e < high,
        held(servers, model_id, e + 1),
        forall|x: int| l <= x <= e ==> !#[trigger] held(servers, model_id, x),
    decreases high - l,
{
    if held(servers, model_id, l + 1) {
        l
    } else {
        lemma_held_above(servers, model_id, l + 1, high)
    }
}

/// Every layer that nobody holds, but that has held layers somewhere on both
/// sides, lies in a gap.
pub proof fn law_every_hole_lies_in_a_gap(
    servers: Seq<ServerEntry>,
    model_id: Seq<char>,
    low: u32,
    layer: u32,
    high: u32,
)
    requires
        low < layer < high,
        held(servers, model_id, low as int),
        held(servers, model_id, high as int),
        !held(servers, model_id, layer as int),
    ensures
        exists|s: u32, e: u32| #[trigger]
            coverage::gap(servers, (model_id, s, e)) && s <= layer <= e,
{
    let s = lemma_held_below(servers, model_id, low as int, layer as int);
    let e = lemma_held_above(servers, model_id, layer as int, high as int);
    let k = (model_id, s as u32, e as u32);
    lemma_held(servers, model_id, s - 1);
    lemma_held(servers, model_id, e + 1);
    assert forall|l: int| k.1 <= l <= k.2 implies !#[trigger] coverage::covered(
        servers,
        model_id,
        l,
    ) by {
        lemma_held(servers, model_id, l);
        assert(!held(servers, model_id, l));
    }
    assert(coverage::gap(servers, (model_id, s as u32, e as u32)));
}

/// Ranges of one model are ordered by their first layer, and those with the same
/// first layer by their last one. Ranges of different models are ordered as the
/// names of the models are.
pub proof fn law_ranges_are_ordered(a: RangeKey, b: RangeKey)
    ensures
        a.0 == b.0 && a.1 != b.1 ==> ranges::range_lt(a, b) == (a.1 < b.1),
        a.0 == b.0 && a.1 == b.1 ==> ranges::range_lt(a, b) == (a.2 < b.2),
        a.0 != b.0 ==> ranges::range_lt(a, b) == text::text_lt(a.0, b.0),
{
    text::lemma_text_lt_irreflexive(a.0);
}

/// A report goes from the first model name to the last, within a model from the
/// lowest first layer up, and names no range twice.
pub proof fn law_report_is_in_order(
    s: GridState,
    over: bool,
    rs: Seq<RangeCount>,
    i: int,
    j: int,
)
    requires
        s.reports(over, rs),
        0 <= i < j < rs.len(),
    ensures
        rs[i].0@ == rs[j].0@ ==> rs[i].1 <= rs[j].1,
        rs[i].0@ == rs[j].0@ && rs[i].1 == rs[j].1 ==> rs[i].2 < rs[j].2,
        rs[i].0@ != rs[j].0@ ==> text::text_lt(rs[i].0@, rs[j].0@),
{
    assert(ranges::range_lt(replication::counted(rs[i]), replication::counted(rs[j])));
    law_ranges_are_ordered((rs[i].0@, rs[i].1, rs[i].2), (rs[j].0@, rs[j].1, rs[j].2));
}

/// After a check for hot ranges, a range is elevated exactly when some server
/// that holds it answers more requests per second than the threshold.
pub proof fn law_exactly_the_hot_ranges_are_elevated(s: GridState, threshold: Metric, k: RangeKey)
    requires
        s.in_line(threshold),
    ensures
        among(s.elevated_ranges@, k) == exists|i: int|
            {
                &&& 0 <= i < s.servers@.len()
                &&& (#[trigger] s.servers@[i]).model_id@ == k.0
                &&& s.servers@[i].layer_start == k.1
                &&& s.servers@[i].layer_end == k.2
                &&& threshold.below(s.servers@[i].req_per_sec)
            },
{
    assert(s.elevated(k) == elevation::hot(s.servers@, threshold, k));
    law_elevation_raises_the_target_by_one(s, k);
    if elevation::hot(s.servers@, threshold, k) {
        let i = choose|i: int|
            0 <= i < s.servers@.len() && (#[trigger] s.servers@[i]).range() == k
                && threshold.below(s.servers@[i].req_per_sec);
        assert(s.servers@[i].model_id@ == k.0);
    }
    if exists|i: int|
        {
            &&& 0 <= i < s.servers@.len()
            &&& (#[trigger] s.servers@[i]).model_id@ == k.0
            &&& s.servers@[i].layer_start == k.1
            &&& s.servers@[i].layer_end == k.2
            &&& threshold.below(s.servers@[i].req_per_sec)
        } {
        let i = choose|i: int|
            {
                &&& 0 <= i < s.servers@.len()
                &&& (#[trigger] s.servers@[i]).model_id@ == k.0
                &&& s.servers@[i].layer_start == k.1
                &&& s.servers@[i].layer_end == k.2
                &&& threshold.below(s.servers@[i].req_per_sec)
            };
        assert(s.servers@[i].range() == k);
    }
}

/// An assignment to a spare that is not in the pool fails, offers nothing to
/// anybody and changes nothing.
pub proof fn law_unknown_spare_is_refused(
    before: GridState,
    server_id: Seq<char>,
    model_id: Seq<char>,
    layer_start: u32,
    layer_end: u32,
    origin_url: Seq<char>,
    shard_hash: Seq<char>,
    r: Result<(), String>,
    after: GridState,
)
    requires
        replication::named_outcome(
            before,
            server_id,
            model_id,
            layer_start,
            layer_end,
            origin_url,
            shard_hash,
            r,
            after,
        ),
        forall|i: int|
            0 <= i < before.available_servers@.len() ==> (
            #[trigger] before.available_servers@[i]).server_id@ != server_id,
    ensures
        r is Err,
        after == before,
{
    if exists|p: int| #[trigger]
        replication::pooled_at(before.available_servers@, server_id, p) {
        let p = choose|p: int| #[trigger]
            replication::pooled_at(before.available_servers@, server_id, p);
        assert(before.available_servers@[p].server_id@ == server_id);
    }
}

/// Whether some server could hand out a range.
pub open spec fn obtainable(servers: Seq<ServerEntry>, k: RangeKey) -> bool {
    exists|i: int| 0 <= i < servers.len() && could_hand_out(#[trigger] servers[i], k)
}

/// Of the ranges that are asked for, those that some server could hand out are
/// planned, in the order in which they are asked for, and no others.
pub proof fn law_obtainable_ranges_are_planned(servers: Seq<ServerEntry>, wanted: Seq<Range>)
    ensures
        replication::with_origin(servers, wanted) == Seq::new(
            wanted.len(),
            |i: int| (wanted[i].0@, wanted[i].1, wanted[i].2),
        ).filter(|k: RangeKey| obtainable(servers, k)),
    decreases wanted.len(),
{
    reveal(Seq::filter);
    let keys = Seq::new(wanted.len(), |i: int| (wanted[i].0@, wanted[i].1, wanted[i].2));
    if wanted.len() > 0 {
        let fewer = wanted.drop_last();
        let fewer_keys = Seq::new(fewer.len(), |i: int| (fewer[i].0@, fewer[i].1, fewer[i].2));
        law_obtainable_ranges_are_planned(servers, fewer);
        assert(keys.drop_last() =~= fewer_keys);
        let last = (wanted.last().0@, wanted.last().1, wanted.last().2);
        assert(keys.last() == last);
        law_origin_is_the_first_that_could(servers, last);
        if replication::origin(servers, last.0, last.1, last.2) is Some {
            let p = replication::origin(servers, last.0, last.1, last.2)->0;
            assert(could_hand_out(servers[p], last));
            assert(obtainable(servers, last));
        } else {
            assert(!obtainable(servers, last));
        }
    } else {
        assert(keys =~= Seq::<RangeKey>::empty());
    }
}

/// A plan gives the first range to the first spare, the second to the second and
/// so on, until either run out, each to be loaded from a live server that holds
/// the range.
pub proof fn law_plan_pairs_ranges_with_spares(
    plan: Seq<Assignment>,
    servers: Seq<ServerEntry>,
    spares: Seq<AvailableEntry>,
    wanted: Seq<RangeKey>,
)
    requires
        replication::plan_for(plan, servers, spares, wanted),
    ensures
        plan.len() == wanted.len() || plan.len() == spares.len(),
        plan.len() <= wanted.len() && plan.len() <= spares.len(),
        forall|j: int|
            0 <= j < plan.len() ==> (#[trigger] plan[j]).spare == spares[j]
                && loads_from_a_live_server(servers, plan[j].message, wanted[j]),
{
    assert forall|j: int| 0 <= j < plan.len() implies (#[trigger] plan[j]).spare == spares[j]
        && loads_from_a_live_server(servers, plan[j].message, wanted[j]) by {
        law_assignment_loads_from_a_live_server(servers, plan[j].message, wanted[j]);
    }
}

/// A plan for several layers names each of them and no other, and gives for each
/// the address of a server that holds that very layer of the model and that no
/// other holder is preferred to.
pub proof fn law_plan_sends_each_layer_to_a_holder(
    plan: Map<usize, String>,
    servers: Seq<ServerEntry>,
    model: Option<Seq<char>>,
    layers: Seq<usize>,
    l: usize,
)
    requires
        servers.len() <= usize::MAX,
        routing::plan_of(plan, servers, model, layers),
    ensures
        plan.contains_key(l) == exists|i: int| 0 <= i < layers.len() && #[trigger] layers[i] == l,
        plan.contains_key(l) ==> l <= 0xffff_ffff && exists|t: int|
            {
                &&& 0 <= t < servers.len()
                &&& holder(#[trigger] servers[t], model, l as u32)
                &&& plan[l]@ == servers[t].listen_url@
                &&& forall|i: int|
                    0 <= i < servers.len() && holder(#[trigger] servers[i], model, l as u32)
                        ==> !routing::beats(servers[i], servers[t], l as u32)
            },
{
    assert(plan.contains_key(l) == layers.contains(l));
    if plan.contains_key(l) {
        law_only_wide_layers_are_cut_off(servers, model, l);
        assert(routing::routed_layer(servers, model, l) == Some(plan[l]@));
        law_request_goes_to_the_first_best_holder(servers, model, l as u32);
    }
}

/// A request that names a model is for that model, and one that names none is
/// for any. A server serves exactly the model that it holds, and every request
/// that names none.
pub proof fn law_named_model_counts(e: ServerEntry, name: String, asked: &str)
    ensures
        entry::named(Some(&name)) == Some(name@),
        entry::named(None) == None::<Seq<char>>,
        routing::asked(Some(asked)) == Some(asked@),
        routing::asked(None) == None::<Seq<char>>,
        e.serves(Some(name@)) == (e.model_id@ == name@),
        e.serves(None),
{
}

/// Elevating a range or ending its elevation leaves servers, spares, indices,
/// the target and the record of messages as they were.
pub proof fn law_elevation_changes_nothing_else(before: GridState, after: GridState)
    requires
        after.same_but_elevation(&before),
    ensures
        after == (GridState { elevated_ranges: after.elevated_ranges, ..before }),
{
}

/// Taking spares out of the pool leaves servers, indices, the target and the
/// elevated ranges as they were.
pub proof fn law_taking_spares_changes_nothing_else(before: GridState, after: GridState)
    requires
        after.same_but_spares(&before),
    ensures
        after == (GridState {
            available_servers: after.available_servers,
            outbox: after.outbox,
            ..before
        }),
{
}

/// An offer counts as refused exactly when the channel gave the message back,
/// and for the reason that the channel gave.
pub proof fn law_refusal_is_the_channels(r: Result<(), (SendFailure, Outbound)>)
    ensures
        protocol::refusal_of(r) is None == r is Ok,
        r matches Err(refused) ==> protocol::refusal_of(r) == Some(refused.0),
{
}

/// The text of a failed send starts by naming the spare and ends with the reason,
/// and the two reasons read differently. The text for a spare that is not in the
/// pool names it too.
pub proof fn law_errors_name_the_spare(server_id: Seq<char>, failure: SendFailure)
    ensures
        ({
            let name = protocol::debug_of(server_id);
            let failed = replication::failed_send_text(server_id, failure);
            let unknown = replication::unknown_spare_text(server_id);
            let reason = if failure is Full {
                "no available capacity"@
            } else {
                "channel closed"@
            };
            &&& failed.take(8) == "send to "@
            &&& failed.subrange(8, 8 + name.len() as int) == name
            &&& failed.skip(8 + name.len() as int) == " failed: "@ + reason
            &&& unknown.take(10) == "server_id "@
            &&& unknown.subrange(10, 10 + name.len() as int) == name
            &&& unknown.skip(10 + name.len() as int) == " is not in the available pool"@
        }),
{
    reveal_strlit("send to ");
    reveal_strlit("server_id ");
    let name = protocol::debug_of(server_id);
    let failed = replication::failed_send_text(server_id, failure);
    let unknown = replication::unknown_spare_text(server_id);
    assert(failed.take(8) =~= "send to "@);
    assert(failed.subrange(8, 8 + name.len() as int) =~= name);
    assert(failed.skip(8 + name.len() as int) =~= " failed: "@ + failure.words());
    assert(unknown.take(10) =~= "server_id "@);
    assert(unknown.subrange(10, 10 + name.len() as int) =~= name);
    assert(unknown.skip(10 + name.len() as int) =~= " is not in the available pool"@);
}

/// What is counted of a list of outcomes is how many of them are true.
pub proof fn law_true_outcomes_are_counted(taken: Seq<bool>)
    ensures
        replication::count_true(taken) == taken.filter(|b: bool| b).len(),
    decreases taken.len(),
{
    reveal(Seq::filter);
    if taken.len() > 0 {
        law_true_outcomes_are_counted(taken.drop_last());
    }
}

/// A sorted list of ranges goes from the first model name to the last, within a
/// model from the lowest first layer up, and names no range twice.
pub proof fn law_sorted_ranges_go_up(rs: Seq<Range>, i: int, j: int)
    requires
        ranges::sorted(rs),
        0 <= i < j < rs.len(),
    ensures
        rs[i].0@ == rs[j].0@ ==> rs[i].1 <= rs[j].1,
        rs[i].0@ == rs[j].0@ && rs[i].1 == rs[j].1 ==> rs[i].2 < rs[j].2,
        rs[i].0@ != rs[j].0@ ==> text::text_lt(rs[i].0@, rs[j].0@),
{
    assert(ranges::range_lt(ranges::key(rs[i]), ranges::key(rs[j])));
    law_ranges_are_ordered((rs[i].0@, rs[i].1, rs[i].2), (rs[j].0@, rs[j].1, rs[j].2));
}

} // verus!
