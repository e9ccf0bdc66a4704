//! How many replicas the ranges have, and how spares are assigned.

use vstd::prelude::*;
use vstd::string::*;

use crate::grid::entry::{AvailableEntry, ServerEntry};
use crate::grid::protocol;
use crate::grid::protocol::{
    Delivery, Outbound, Outbox, RouterMessage, SendFailure, ServerChannel,
};
use crate::grid::ranges;
use crate::grid::ranges::{Range, RangeKey};
use crate::grid::state;
use crate::grid::state::GridState;

verus! {

/// A range and by how much its replicas are off target.
pub type RangeCount = (String, u32, u32, u32);

/// A spare and the message that assigns a range to it.
pub struct Assignment {
    pub spare: AvailableEntry,
    pub message: RouterMessage,
}

/// The place of the first server that could hand out a range.
pub open spec fn origin(
    servers: Seq<ServerEntry>,
    model_id: Seq<char>,
    start: u32,
    end: u32,
) -> Option<int>
    decreases servers.len(),
{
    if servers.len() == 0 {
        None
    } else {
        let earlier = origin(servers.drop_last(), model_id, start, end);
        if earlier is Some {
            earlier
        } else if servers.last().originates(model_id, start, end) {
            Some(servers.len() - 1)
        } else {
            None
        }
    }
}

/// The place of the first spare with enough memory.
pub open spec fn roomy_spare(spares: Seq<AvailableEntry>, min_ram_bytes: u64) -> Option<int>
    decreases spares.len(),
{
    if spares.len() == 0 {
        None
    } else {
        let earlier = roomy_spare(spares.drop_last(), min_ram_bytes);
        if earlier is Some {
            earlier
        } else if spares.last().ram_bytes >= min_ram_bytes {
            Some(spares.len() - 1)
        } else {
            None
        }
    }
}

/// How many servers hold exactly a range.
pub open spec fn replicas(servers: Seq<ServerEntry>, k: RangeKey) -> nat
    decreases servers.len(),
{
    if servers.len() == 0 {
        0
    } else {
        replicas(servers.drop_last(), k) + if servers.last().range() == k {
            1nat
        } else {
            0nat
        }
    }
}

pub proof fn lemma_origin(
    servers: Seq<ServerEntry>,
    model_id: Seq<char>,
    start: u32,
    end: u32,
)
    ensures
        origin(servers, model_id, start, end) matches Some(p) ==> 0 <= p < servers.len()
            && servers[p].originates(model_id, start, end),
        origin(servers, model_id, start, end) is None ==> forall|i: int|
            0 <= i < servers.len() ==> !(#[trigger] servers[i]).originates(model_id, start, end),
    decreases servers.len(),
{
    if servers.len() > 0 {
        let fewer = servers.drop_last();
        lemma_origin(fewer, model_id, start, end);
        if origin(servers, model_id, start, end) is None {
            assert forall|i: int| 0 <= i < servers.len() implies !(
            #[trigger] servers[i]).originates(model_id, start, end) by {
                if i < fewer.len() {
                    assert(!fewer[i].originates(model_id, start, end));
                }
            }
        }
    }
}

proof fn lemma_origin_found(
    servers: Seq<ServerEntry>,
    model_id: Seq<char>,
    start: u32,
    end: u32,
    n: int,
)
    requires
        0 <= n <= servers.len(),
        origin(servers.take(n), model_id, start, end) is Some,
    ensures
        origin(servers, model_id, start, end) == origin(servers.take(n), model_id, start, end),
    decreases servers.len() - n,
{
    if n < servers.len() {
        assert(servers.take(n + 1).drop_last() =~= servers.take(n));
        lemma_origin_found(servers, model_id, start, end, n + 1);
    } else {
        assert(servers.take(n) =~= servers);
    }
}

proof fn lemma_roomy_spare_found(spares: Seq<AvailableEntry>, min_ram_bytes: u64, n: int)
    requires
        0 <= n <= spares.len(),
        roomy_spare(spares.take(n), min_ram_bytes) is Some,
    ensures
        roomy_spare(spares, min_ram_bytes) == roomy_spare(spares.take(n), min_ram_bytes),
    decreases spares.len() - n,
{
    if n < spares.len() {
        assert(spares.take(n + 1).drop_last() =~= spares.take(n));
        lemma_roomy_spare_found(spares, min_ram_bytes, n + 1);
    } else {
        assert(spares.take(n) =~= spares);
    }
}

proof fn lemma_any_spare(spares: Seq<AvailableEntry>)
    ensures
        roomy_spare(spares, 0) == if spares.len() == 0 {
            None::<int>
        } else {
            Some(0int)
        },
{
    if spares.len() > 0 {
        assert(spares.take(1).drop_last() =~= Seq::<AvailableEntry>::empty());
        assert(roomy_spare(spares.take(1).drop_last(), 0) is None);
        lemma_roomy_spare_found(spares, 0, 1);
    }
}

impl GridState {
    /// How many replicas a range should have: the target, and one more where
    /// the range is elevated.
    pub open spec fn effective_target(&self, k: RangeKey) -> nat {
        self.target_replicas as nat + if self.elevated(k) {
            1nat
        } else {
            0nat
        }
    }

    /// Whether replicas and targets of the served ranges can be counted in
    /// thirty-two bits.
    pub open spec fn countable(&self) -> bool {
        &&& self.servers@.len() <= u32::MAX
        &&& forall|k: RangeKey| #[trigger]
            replicas(self.servers@, k) > 0 ==> self.effective_target(k) <= u32::MAX
    }

    /// By how many replicas a range exceeds its target.
    pub open spec fn surplus(&self, k: RangeKey) -> nat {
        let n = replicas(self.servers@, k);
        if n > self.effective_target(k) {
            (n - self.effective_target(k)) as nat
        } else {
            0
        }
    }

    /// How many replicas a range that is served lacks. A range that nobody
    /// serves lacks none: it is a gap.
    pub open spec fn deficit(&self, k: RangeKey) -> nat {
        let n = replicas(self.servers@, k);
        if 0 < n < self.effective_target(k) {
            (self.effective_target(k) - n) as nat
        } else {
            0
        }
    }

    /// By how much a range is off target, on the given side.
    pub open spec fn off_target(&self, over: bool, k: RangeKey) -> nat {
        if over {
            self.surplus(k)
        } else {
            self.deficit(k)
        }
    }

    /// Whether a list holds exactly the ranges that are off target on the given
    /// side, each with the amount, in the order of ranges.
    pub open spec fn reports(&self, over: bool, rs: Seq<RangeCount>) -> bool {
        &&& forall|i: int, j: int|
            0 <= i < j < rs.len() ==> ranges::range_lt(
                counted(#[trigger] rs[i]),
                counted(#[trigger] rs[j]),
            )
        &&& forall|i: int|
            0 <= i < rs.len() ==> (#[trigger] rs[i]).3 > 0 && rs[i].3 == self.off_target(
                over,
                counted(rs[i]),
            )
        &&& forall|k: RangeKey| #[trigger]
            self.off_target(over, k) > 0 ==> counts_list(rs, k)
    }
}

/// What identifies the range of a count.
pub open spec fn counted(r: RangeCount) -> RangeKey {
    (r.0@, r.1, r.2)
}

/// The ranges of a list of counts.
pub open spec fn counted_keys(rs: Seq<RangeCount>) -> Seq<RangeKey> {
    Seq::new(rs.len(), |i: int| counted(rs[i]))
}

/// Whether a list of counts holds a range.
pub open spec fn counts_list(rs: Seq<RangeCount>, k: RangeKey) -> bool {
    exists|i: int| 0 <= i < rs.len() && counted(#[trigger] rs[i]) == k
}

/// The given ranges without those that no server could hand out.
pub open spec fn with_origin(servers: Seq<ServerEntry>, wanted: Seq<Range>) -> Seq<RangeKey>
    decreases wanted.len(),
{
    if wanted.len() == 0 {
        Seq::empty()
    } else {
        let rest = with_origin(servers, wanted.drop_last());
        let last = ranges::key(wanted.last());
        if origin(servers, last.0, last.1, last.2) is Some {
            rest.push(last)
        } else {
            rest
        }
    }
}

/// Whether a message assigns a range with the first server that could hand it
/// out as the origin.
pub open spec fn assigns_from_origin(
    servers: Seq<ServerEntry>,
    message: RouterMessage,
    k: RangeKey,
) -> bool {
    &&& origin(servers, k.0, k.1, k.2) is Some
    &&& {
        let from = servers[origin(servers, k.0, k.1, k.2)->0];
        protocol::assigns(message, k.0, k.1, k.2, from.listen_url@, from.vindex_hash@)
    }
}

/// Whether a plan gives the ranges that have an origin to the spares, in order,
/// one to each, until either run out.
pub open spec fn plan_for(
    plan: Seq<Assignment>,
    servers: Seq<ServerEntry>,
    spares: Seq<AvailableEntry>,
    wanted: Seq<RangeKey>,
) -> bool {
    &&& plan.len() == smaller(wanted.len(), spares.len())
    &&& forall|j: int|
        0 <= j < plan.len() ==> (#[trigger] plan[j]).spare == spares[j] && assigns_from_origin(
            servers,
            plan[j].message,
            wanted[j],
        )
}

/// The smaller of two numbers.
pub open spec fn smaller(a: nat, b: nat) -> nat {
    if a < b {
        a
    } else {
        b
    }
}

impl GridState {
    /// The address and the hash of a server that could hand out a range: the
    /// first one that holds all of it.
    pub fn find_origin_for(&self, model_id: &str, layer_start: u32, layer_end: u32) -> (o: Option<
        (String, String),
    >)
        ensures
            match origin(self.servers@, model_id@, layer_start, layer_end) {
                Some(p) => o is Some && (o->0).0@ == self.servers@[p].listen_url@ && (o->0).1@
                    == self.servers@[p].vindex_hash@,
                None => o is None,
            },
    {
        let wanted: String = model_id.to_owned();
        for i in 0..self.servers.len()
            invariant
                wanted@ == model_id@,
                origin(self.servers@.take(i as int), model_id@, layer_start, layer_end) is None,
        {
            let e: &ServerEntry = &self.servers[i];
            assert(self.servers@.take(i + 1).drop_last() =~= self.servers@.take(i as int));
            if e.model_id == wanted && e.layer_start <= layer_start && e.layer_end >= layer_end {
                proof {
                    lemma_origin_found(
                        self.servers@,
                        model_id@,
                        layer_start,
                        layer_end,
                        i + 1,
                    );
                }
                return Some((e.listen_url.clone(), e.vindex_hash.clone()));
            }
        }
        assert(self.servers@.take(self.servers@.len() as int) =~= self.servers@);
        None
    }

    /// Takes the first spare with enough memory out of the pool.
    pub fn take_spare(&mut self, min_ram_bytes: u64) -> (e: Option<AvailableEntry>)
        requires
            old(self).wf(),
        ensures
            final(self).wf(),
            match roomy_spare(old(self).available_servers@, min_ram_bytes) {
                Some(p) => {
                    &&& e == Some(old(self).available_servers@[p])
                    &&& final(self).same_but_spares(old(self))
                    &&& final(self).available_servers@ == old(self).available_servers@.remove(p)
                    &&& final(self).outbox == old(self).outbox
                },
                None => e is None && *final(self) == *old(self),
            },
    {
        let mut i: usize = 0;
        while i < self.available_servers.len()
            invariant
                *self == *old(self),
                old(self).wf(),
                i <= self.available_servers@.len(),
                roomy_spare(self.available_servers@.take(i as int), min_ram_bytes) is None,
            decreases self.available_servers@.len() - i,
        {
            assert(self.available_servers@.take(i + 1).drop_last()
                =~= self.available_servers@.take(i as int));
            if self.available_servers[i].ram_bytes >= min_ram_bytes {
                proof {
                    lemma_roomy_spare_found(self.available_servers@, min_ram_bytes, i + 1);
                }
                let e: AvailableEntry = self.available_servers.remove(i);
                return Some(e);
            }
            i += 1;
        }
        assert(self.available_servers@.take(i as int) =~= self.available_servers@);
        None
    }

    /// Takes the first spare with enough memory out of the pool and addresses
    /// an assignment to it, with the origin given by the caller.
    pub fn plan_assignment(
        &mut self,
        model_id: &str,
        layer_start: u32,
        layer_end: u32,
        origin_url: &str,
        shard_hash: &str,
        min_ram_bytes: u64,
    ) -> (a: Option<Assignment>)
        requires
            old(self).wf(),
        ensures
            final(self).wf(),
            match roomy_spare(old(self).available_servers@, min_ram_bytes) {
                Some(p) => {
                    &&& a is Some
                    &&& a->0.spare == old(self).available_servers@[p]
                    &&& protocol::assigns(
                        a->0.message,
                        model_id@,
                        layer_start,
                        layer_end,
                        origin_url@,
                        shard_hash@,
                    )
                    &&& final(self).same_but_spares(old(self))
                    &&& final(self).available_servers@ == old(self).available_servers@.remove(p)
                    &&& final(self).outbox == old(self).outbox
                },
                None => a is None && *final(self) == *old(self),
            },
    {
        match self.take_spare(min_ram_bytes) {
            None => None,
            Some(spare) => {
                let message: RouterMessage = protocol::assign_message(
                    model_id,
                    layer_start,
                    layer_end,
                    origin_url,
                    shard_hash,
                );
                Some(Assignment { spare, message })
            },
        }
    }

    /// Sends an assignment to the first spare with enough memory, with the
    /// origin given by the caller. Returns whether the message was sent. The
    /// spare leaves the pool even when its channel does not take the message;
    /// whether it takes it depends on the server at the other end.
    pub fn try_assign_gap_with_origin(
        &mut self,
        model_id: &str,
        layer_start: u32,
        layer_end: u32,
        origin_url: &str,
        shard_hash: &str,
        min_ram_bytes: u64,
    ) -> (sent: bool)
        requires
            old(self).wf(),
        ensures
            final(self).wf(),
            match roomy_spare(old(self).available_servers@, min_ram_bytes) {
                Some(p) => {
                    &&& final(self).same_but_spares(old(self))
                    &&& final(self).available_servers@ == old(self).available_servers@.remove(p)
                    &&& one_offer(
                        old(self).outbox.log(),
                        old(self).available_servers@[p].sender,
                        final(self).outbox.log(),
                    )
                    &&& sent == (final(self).outbox.log().last().refusal is None)
                    &&& final(self).outbox.log().last().message is Ok
                    &&& protocol::assigns(
                        final(self).outbox.log().last().message->Ok_0,
                        model_id@,
                        layer_start,
                        layer_end,
                        origin_url@,
                        shard_hash@,
                    )
                },
                None => !sent && *final(self) == *old(self),
            },
    {
        match self.plan_assignment(
            model_id,
            layer_start,
            layer_end,
            origin_url,
            shard_hash,
            min_ram_bytes,
        ) {
            None => false,
            Some(a) => send(&mut self.outbox, a).is_ok(),
        }
    }

    /// Takes the first spare with enough memory out of the pool and addresses
    /// an assignment to it, with a server that holds the range as the origin.
    /// Without an origin, or without such a spare, nothing happens.
    pub fn plan_gap(
        &mut self,
        model_id: &str,
        layer_start: u32,
        layer_end: u32,
        min_ram_bytes: u64,
    ) -> (a: Option<Assignment>)
        requires
            old(self).wf(),
        ensures
            final(self).wf(),
            match (
                origin(old(self).servers@, model_id@, layer_start, layer_end),
                roomy_spare(old(self).available_servers@, min_ram_bytes),
            ) {
                (Some(_), Some(p)) => {
                    &&& a is Some
                    &&& a->0.spare == old(self).available_servers@[p]
                    &&& assigns_from_origin(
                        old(self).servers@,
                        a->0.message,
                        (model_id@, layer_start, layer_end),
                    )
                    &&& final(self).same_but_spares(old(self))
                    &&& final(self).available_servers@ == old(self).available_servers@.remove(p)
                    &&& final(self).outbox == old(self).outbox
                },
                _ => a is None && *final(self) == *old(self),
            },
    {
        match self.find_origin_for(model_id, layer_start, layer_end) {
            Some((origin_url, shard_hash)) => self.plan_assignment(
                model_id,
                layer_start,
                layer_end,
                origin_url.as_str(),
                shard_hash.as_str(),
                min_ram_bytes,
            ),
            None => None,
        }
    }

    /// Sends an assignment to the first spare with enough memory, with a server
    /// that holds the range as the origin. Returns whether the message was
    /// sent. Without an origin, or without such a spare, nothing happens.
    pub fn try_assign_gap(
        &mut self,
        model_id: &str,
        layer_start: u32,
        layer_end: u32,
        min_ram_bytes: u64,
    ) -> (sent: bool)
        requires
            old(self).wf(),
        ensures
            final(self).wf(),
            match (
                origin(old(self).servers@, model_id@, layer_start, layer_end),
                roomy_spare(old(self).available_servers@, min_ram_bytes),
            ) {
                (Some(_), Some(p)) => {
                    &&& final(self).same_but_spares(old(self))
                    &&& final(self).available_servers@ == old(self).available_servers@.remove(p)
                    &&& one_offer(
                        old(self).outbox.log(),
                        old(self).available_servers@[p].sender,
                        final(self).outbox.log(),
                    )
                    &&& sent == (final(self).outbox.log().last().refusal is None)
                    &&& final(self).outbox.log().last().message is Ok
                    &&& assigns_from_origin(
                        old(self).servers@,
                        final(self).outbox.log().last().message->Ok_0,
                        (model_id@, layer_start, layer_end),
                    )
                },
                _ => !sent && *final(self) == *old(self),
            },
    {
        match self.plan_gap(model_id, layer_start, layer_end, min_ram_bytes) {
            None => false,
            Some(a) => send(&mut self.outbox, a).is_ok(),
        }
    }

    /// Sets how many replicas a range should have, at least one.
    pub fn set_target_replicas(&mut self, n: u32)
        ensures
            final(self).target_replicas == if n >= 1 {
                n
            } else {
                1
            },
            final(self).servers == old(self).servers,
            final(self).available_servers == old(self).available_servers,
            final(self).route_table == old(self).route_table,
            final(self).any_model_table == old(self).any_model_table,
            final(self).elevated_ranges == old(self).elevated_ranges,
            final(self).outbox == old(self).outbox,
            old(self).wf() ==> final(self).wf(),
    {
        self.target_replicas = if n >= 1 {
            n
        } else {
            1
        };
    }

    /// How many replicas a range should have.
    pub fn target_replicas(&self) -> (n: u32)
        ensures
            n == self.target_replicas,
    {
        self.target_replicas
    }

    /// How many replicas a given range should have: the target, and one more
    /// where the range is elevated.
    pub fn effective_target_for(&self, model_id: &str, layer_start: u32, layer_end: u32) -> (n: u32)
        requires
            self.effective_target((model_id@, layer_start, layer_end)) <= u32::MAX,
        ensures
            n == self.effective_target((model_id@, layer_start, layer_end)),
    {
        let wanted: String = model_id.to_owned();
        match ranges::position(&self.elevated_ranges, &wanted, layer_start, layer_end) {
            Some(_) => self.target_replicas + 1,
            None => self.target_replicas,
        }
    }

    /// The ranges that are served, in order.
    pub fn served_ranges(&self) -> (rs: Vec<Range>)
        ensures
            ranges::sorted(rs@),
            forall|k: RangeKey| #[trigger]
                ranges::lists(rs@, k) == (replicas(self.servers@, k) > 0),
    {
        let mut rs: Vec<Range> = Vec::new();
        for i in 0..self.servers.len()
            invariant
                ranges::sorted(rs@),
                forall|k: RangeKey| #[trigger]
                    ranges::lists(rs@, k) == (replicas(self.servers@.take(i as int), k) > 0),
        {
            let e: &ServerEntry = &self.servers[i];
            let ghost before: Seq<Range> = rs@;
            ranges::insert(&mut rs, &e.model_id, e.layer_start, e.layer_end);
            proof {
                assert(self.servers@.take(i + 1).drop_last() =~= self.servers@.take(i as int));
                assert forall|k: RangeKey| #[trigger]
                    ranges::lists(rs@, k) == (replicas(self.servers@.take(i + 1), k) > 0) by {
                    assert(ranges::lists(before, k) == (replicas(
                        self.servers@.take(i as int),
                        k,
                    ) > 0));
                }
            }
        }
        assert(self.servers@.take(self.servers@.len() as int) =~= self.servers@);
        rs
    }

    /// Counts the servers that hold exactly a range.
    fn count_replicas(&self, r: &Range) -> (n: u32)
        requires
            self.servers@.len() <= u32::MAX,
        ensures
            n == replicas(self.servers@, ranges::key(*r)),
    {
        let mut n: u32 = 0;
        for i in 0..self.servers.len()
            invariant
                self.servers@.len() <= u32::MAX,
                n == replicas(self.servers@.take(i as int), ranges::key(*r)),
                n <= i,
        {
            let e: &ServerEntry = &self.servers[i];
            assert(self.servers@.take(i + 1).drop_last() =~= self.servers@.take(i as int));
            if ranges::is_range(r, &e.model_id, e.layer_start, e.layer_end) {
                n += 1;
            }
        }
        assert(self.servers@.take(self.servers@.len() as int) =~= self.servers@);
        n
    }

    /// By how much a served range is off target, on the given side.
    fn amount_off(&self, over: bool, r: &Range) -> (n: u32)
        requires
            self.countable(),
            replicas(self.servers@, ranges::key(*r)) > 0,
        ensures
            n == self.off_target(over, ranges::key(*r)),
    {
        let count: u32 = self.count_replicas(r);
        let target: u32 = self.effective_target_for(r.0.as_str(), r.1, r.2);
        if over {
            if count > target {
                count - target
            } else {
                0
            }
        } else if count > 0 && count < target {
            target - count
        } else {
            0
        }
    }

    /// The ranges that are off target on the given side.
    fn off_target_ranges(&self, over: bool) -> (rs: Vec<RangeCount>)
        requires
            self.countable(),
        ensures
            self.reports(over, rs@),
    {
        let served: Vec<Range> = self.served_ranges();
        let mut out: Vec<RangeCount> = Vec::new();
        for i in 0..served.len()
            invariant
                self.countable(),
                ranges::sorted(served@),
                forall|k: RangeKey| #[trigger]
                    ranges::lists(served@, k) == (replicas(self.servers@, k) > 0),
                forall|a: int, b: int|
                    0 <= a < b < out@.len() ==> ranges::range_lt(
                        counted(#[trigger] out@[a]),
                        counted(#[trigger] out@[b]),
                    ),
                forall|a: int|
                    0 <= a < out@.len() ==> {
                        &&& (#[trigger] out@[a]).3 > 0
                        &&& out@[a].3 == self.off_target(over, counted(out@[a]))
                        &&& i < served@.len() ==> ranges::range_lt(
                            counted(out@[a]),
                            ranges::key(served@[i as int]),
                        )
                    },
                forall|j: int|
                    0 <= j < i && self.off_target(over, ranges::key(#[trigger] served@[j])) > 0
                        ==> counts_list(out@, ranges::key(served@[j])),
        {
            assert(ranges::lists(served@, ranges::key(served@[i as int])));
            let n: u32 = self.amount_off(over, &served[i]);
            let ghost before: Seq<RangeCount> = out@;
            let ghost here: RangeKey = ranges::key(served@[i as int]);
            if n > 0 {
                out.push((served[i].0.clone(), served[i].1, served[i].2, n));
            }
            proof {
                if i + 1 < served@.len() {
                    let next = ranges::key(served@[i + 1]);
                    assert(ranges::range_lt(here, next));
                    assert forall|a: int| 0 <= a < out@.len() implies ranges::range_lt(
                        counted(#[trigger] out@[a]),
                        next,
                    ) by {
                        if a < before.len() {
                            assert(out@[a] == before[a]);
                            ranges::lemma_range_lt_transitive(counted(before[a]), here, next);
                        }
                    }
                }
                assert forall|j: int|
                    0 <= j < i + 1 && self.off_target(over, ranges::key(#[trigger] served@[j])) > 0
                    implies counts_list(out@, ranges::key(served@[j])) by {
                    if j < i {
                        let k = ranges::key(served@[j]);
                        assert(counts_list(before, k));
                        let a = choose|a: int|
                            0 <= a < before.len() && counted(#[trigger] before[a]) == k;
                        assert(out@[a] == before[a]);
                    } else {
                        assert(counted(out@[out@.len() - 1]) == here);
                    }
                }
            }
        }
        proof {
            assert forall|k: RangeKey| #[trigger] self.off_target(over, k) > 0 implies counts_list(
                out@,
                k,
            ) by {
                assert(ranges::lists(served@, k));
                let j = choose|j: int|
                    0 <= j < served@.len() && ranges::key(#[trigger] served@[j]) == k;
                assert(ranges::key(served@[j]) == k);
            }
        }
        out
    }

    /// The ranges with more replicas than they should have, each with the
    /// surplus, in order.
    pub fn over_replicated_ranges(&self) -> (rs: Vec<RangeCount>)
        requires
            self.countable(),
        ensures
            self.reports(true, rs@),
    {
        self.off_target_ranges(true)
    }

    /// The ranges that are served by fewer replicas than they should be, each
    /// with the deficit, in order.
    pub fn under_replicated_ranges(&self) -> (rs: Vec<RangeCount>)
        requires
            self.countable(),
        ensures
            self.reports(false, rs@),
    {
        self.off_target_ranges(false)
    }
}

/// Whether a server holds exactly a range and no other such server has fewer
/// requests in flight, nor an earlier one as few.
pub open spec fn least_loaded(servers: Seq<ServerEntry>, k: RangeKey, p: int) -> bool {
    &&& 0 <= p < servers.len()
    &&& servers[p].range() == k
    &&& forall|i: int|
        0 <= i < servers.len() && (#[trigger] servers[i]).range() == k ==> if i < p {
            servers[p].requests_in_flight < servers[i].requests_in_flight
        } else {
            servers[p].requests_in_flight <= servers[i].requests_in_flight
        }
}

/// The text for a spare that is not in the pool.
pub open spec fn unknown_spare_text(server_id: Seq<char>) -> Seq<char> {
    "server_id "@ + protocol::debug_of(server_id) + " is not in the available pool"@
}

/// The text for a spare whose channel did not take a message.
pub open spec fn failed_send_text(server_id: Seq<char>, failure: SendFailure) -> Seq<char> {
    "send to "@ + protocol::debug_of(server_id) + " failed: "@ + failure.words()
}

/// Whether a spare with an id is in the pool, at the given place.
pub open spec fn pooled_at(spares: Seq<AvailableEntry>, server_id: Seq<char>, p: int) -> bool {
    0 <= p < spares.len() && spares[p].server_id@ == server_id
}

/// What becomes of a request to assign a range to a named spare. An unknown
/// spare is refused, and nothing is offered to anybody. Otherwise the assignment
/// is offered to that spare, once, and to nobody else. A failed send leaves
/// everything but the record of the offer as it was, so that it can be tried
/// again. A sent message takes the spare out of the pool.
pub open spec fn named_outcome(
    before: GridState,
    server_id: Seq<char>,
    model_id: Seq<char>,
    layer_start: u32,
    layer_end: u32,
    origin_url: Seq<char>,
    shard_hash: Seq<char>,
    r: Result<(), String>,
    after: GridState,
) -> bool {
    if exists|p: int| #[trigger] pooled_at(before.available_servers@, server_id, p) {
        &&& exists|p: int| #[trigger]
            pooled_at(before.available_servers@, server_id, p) && one_offer(
                before.outbox.log(),
                before.available_servers@[p].sender,
                after.outbox.log(),
            )
        &&& after.outbox.log().last().message is Ok
        &&& protocol::assigns(
            after.outbox.log().last().message->Ok_0,
            model_id,
            layer_start,
            layer_end,
            origin_url,
            shard_hash,
        )
        &&& match r {
            Ok(_) => after.same_but_spares(&before) && after.outbox.log().last().refusal is None
                && exists|p: int| #[trigger]
                pooled_at(before.available_servers@, server_id, p) && after.available_servers@
                    == before.available_servers@.remove(p),
            Err(text) => after == (GridState { outbox: after.outbox, ..before })
                && after.outbox.log().last().refusal is Some && text@ == failed_send_text(
                server_id,
                after.outbox.log().last().refusal->0,
            ),
        }
    } else {
        after == before && r is Err && (r->Err_0)@ == unknown_spare_text(server_id)
    }
}

/// Whether exactly one message was offered, and to the given channel.
pub open spec fn one_offer(
    before: Seq<Delivery>,
    channel: ServerChannel,
    after: Seq<Delivery>,
) -> bool {
    &&& after.len() == before.len() + 1
    &&& after.drop_last() == before
    &&& after.last().channel == channel
}

/// Whether each assignment of a plan was offered once to the channel of its own
/// spare, in order, and nothing else was offered.
pub open spec fn offered_each(
    before: Seq<Delivery>,
    plan: Seq<Assignment>,
    after: Seq<Delivery>,
) -> bool {
    &&& after.len() == before.len() + plan.len()
    &&& after.take(before.len() as int) == before
    &&& forall|j: int|
        0 <= j < plan.len() ==> {
            &&& (#[trigger] after[before.len() + j]).channel == plan[j].spare.sender
            &&& after[before.len() + j].message == Ok::<RouterMessage, tonic::Status>(
                plan[j].message,
            )
        }
}

/// How many of the messages that were offered from a place on were taken.
pub open spec fn taken_since(log: Seq<Delivery>, start: int) -> nat {
    log.skip(start).filter(|d: Delivery| d.refusal is None).len()
}

/// Whether the given ranges were offered to the spares, in order, one to each
/// until either ran out, and so many of the offers were taken.
pub open spec fn replicated_through(
    before: GridState,
    wanted: Seq<RangeKey>,
    sent: nat,
    log: Seq<Delivery>,
) -> bool {
    let start = before.outbox.log().len();
    &&& log.len() == start + smaller(wanted.len(), before.available_servers@.len())
    &&& log.take(start as int) == before.outbox.log()
    &&& forall|j: int|
        start <= j < log.len() ==> {
            &&& (#[trigger] log[j]).channel == before.available_servers@[j - start].sender
            &&& log[j].message is Ok
            &&& assigns_from_origin(before.servers@, log[j].message->Ok_0, wanted[j - start])
        }
    &&& sent == taken_since(log, start as int)
}

/// The text for an unknown spare.
fn unknown_spare(server_id: &str) -> (s: String)
    ensures
        s@ == unknown_spare_text(server_id@),
{
    let mut s: String = "server_id ".to_string();
    let id: String = protocol::debug_text(server_id);
    s.append(id.as_str());
    s.append(" is not in the available pool");
    s
}

/// The text for a failed send.
fn failed_send(server_id: &str, failure: SendFailure) -> (s: String)
    ensures
        s@ == failed_send_text(server_id@, failure),
{
    let mut s: String = "send to ".to_string();
    let id: String = protocol::debug_text(server_id);
    s.append(id.as_str());
    s.append(" failed: ");
    s.append(failure.text());
    s
}

impl GridState {
    /// The server with the fewest requests in flight among those that hold
    /// exactly a range.
    pub fn least_loaded_in_range(&self, model_id: &str, layer_start: u32, layer_end: u32) -> (e:
        Option<&ServerEntry>)
        ensures
            e is Some == (replicas(self.servers@, (model_id@, layer_start, layer_end)) > 0),
            e matches Some(e) ==> exists|p: int|
                #[trigger] least_loaded(self.servers@, (model_id@, layer_start, layer_end), p)
                    && *e == self.servers@[p],
    {
        let wanted: Range = (model_id.to_owned(), layer_start, layer_end);
        let ghost k: RangeKey = (model_id@, layer_start, layer_end);
        let mut best: Option<usize> = None;
        for i in 0..self.servers.len()
            invariant
                ranges::key(wanted) == k,
                best is None ==> replicas(self.servers@.take(i as int), k) == 0,
                best matches Some(b) ==> b < i && least_loaded(
                    self.servers@.take(i as int),
                    k,
                    b as int,
                ) && replicas(self.servers@.take(i as int), k) > 0,
        {
            let e: &ServerEntry = &self.servers[i];
            let ghost some: Seq<ServerEntry> = self.servers@.take(i as int);
            let ghost more: Seq<ServerEntry> = self.servers@.take(i + 1);
            let ghost previous: Option<usize> = best;
            assert(more.drop_last() =~= some);
            if ranges::is_range(&wanted, &e.model_id, e.layer_start, e.layer_end) {
                best = match best {
                    Some(b) => {
                        if e.requests_in_flight < self.servers[b].requests_in_flight {
                            Some(i)
                        } else {
                            Some(b)
                        }
                    },
                    None => Some(i),
                };
            }
            proof {
                if previous is None && best is Some {
                    lemma_no_replicas(some, k);
                }
                if best is Some {
                    let b = best->0 as int;
                    assert forall|j: int| 0 <= j < more.len() && (#[trigger] more[j]).range() == k
                        implies if j < b {
                        more[b].requests_in_flight < more[j].requests_in_flight
                    } else {
                        more[b].requests_in_flight <= more[j].requests_in_flight
                    } by {
                        if j < some.len() {
                            assert(some[j] == more[j]);
                            assert(some[j].range() == k);
                        }
                    }
                    assert(least_loaded(more, k, b));
                }
            }
        }
        assert(self.servers@.take(self.servers@.len() as int) =~= self.servers@);
        match best {
            Some(b) => {
                assert(least_loaded(self.servers@, k, b as int));
                Some(&self.servers[b])
            },
            None => None,
        }
    }

    /// Addresses an assignment for each of the given ranges to a spare, whatever
    /// its memory, and takes these spares out of the pool. A range that no
    /// server could hand out is passed over.
    pub fn plan_each(&mut self, wanted: &Vec<Range>) -> (plan: Vec<Assignment>)
        requires
            old(self).wf(),
        ensures
            final(self).wf(),
            final(self).same_but_spares(old(self)),
            final(self).available_servers@ == old(self).available_servers@.skip(
                plan@.len() as int,
            ),
            final(self).outbox == old(self).outbox,
            plan_for(
                plan@,
                old(self).servers@,
                old(self).available_servers@,
                with_origin(old(self).servers@, wanted@),
            ),
    {
        let mut plan: Vec<Assignment> = Vec::new();
        let ghost spares: Seq<AvailableEntry> = self.available_servers@;
        let ghost servers: Seq<ServerEntry> = self.servers@;
        assert(spares.skip(0) =~= spares);
        for i in 0..wanted.len()
            invariant
                self.wf(),
                self.same_but_spares(old(self)),
                self.outbox == old(self).outbox,
                spares == old(self).available_servers@,
                servers == self.servers@,
                self.available_servers@ == spares.skip(plan@.len() as int),
                plan_for(plan@, servers, spares, with_origin(servers, wanted@.take(i as int))),
        {
            let r: &Range = &wanted[i];
            let ghost before: Seq<Assignment> = plan@;
            let ghost some: Seq<RangeKey> = with_origin(servers, wanted@.take(i as int));
            let ghost more: Seq<RangeKey> = with_origin(servers, wanted@.take(i + 1));
            proof {
                assert(wanted@.take(i + 1).drop_last() =~= wanted@.take(i as int));
                assert(wanted@.take(i + 1).last() == *r);
                lemma_any_spare(self.available_servers@);
                if before.len() < spares.len() {
                    assert(spares.skip(before.len() as int)[0] == spares[before.len() as int]);
                    assert(spares.skip(before.len() as int).remove(0) =~= spares.skip(
                        before.len() as int + 1,
                    ));
                }
            }
            if let Some(a) = self.plan_gap(r.0.as_str(), r.1, r.2, 0) {
                plan.push(a);
            }
            proof {
                assert forall|j: int| 0 <= j < plan@.len() implies (#[trigger] plan@[j]).spare
                    == spares[j] && assigns_from_origin(servers, plan@[j].message, more[j]) by {
                    if j < before.len() {
                        assert(plan@[j] == before[j]);
                        assert(more[j] == some[j]);
                    } else {
                        assert(more[j] == ranges::key(*r));
                    }
                }
            }
        }
        assert(wanted@.take(wanted@.len() as int) =~= wanted@);
        plan
    }

    /// Addresses one assignment for each range that lacks replicas to a spare,
    /// as long as there are spares. One per range is enough at a time: a spare
    /// counts as a replica only once it serves.
    pub fn plan_replication(&mut self) -> (plan: Vec<Assignment>)
        requires
            old(self).wf(),
            old(self).countable(),
        ensures
            final(self).wf(),
            final(self).same_but_spares(old(self)),
            final(self).available_servers@ == old(self).available_servers@.skip(
                plan@.len() as int,
            ),
            final(self).outbox == old(self).outbox,
            exists|rs: Seq<RangeCount>| #[trigger]
                old(self).reports(false, rs) && plan_for(
                    plan@,
                    old(self).servers@,
                    old(self).available_servers@,
                    counted_keys(rs),
                ),
    {
        let lacking: Vec<RangeCount> = self.under_replicated_ranges();
        let mut wanted: Vec<Range> = Vec::new();
        for i in 0..lacking.len()
            invariant
                *self == *old(self),
                self.reports(false, lacking@),
                wanted@.len() == i,
                with_origin(self.servers@, wanted@) == counted_keys(lacking@.take(i as int)),
        {
            let r: &RangeCount = &lacking[i];
            let ghost before: Seq<Range> = wanted@;
            wanted.push((r.0.clone(), r.1, r.2));
            proof {
                assert(wanted@.drop_last() =~= before);
                assert(self.deficit(counted(lacking@[i as int])) > 0);
                lemma_replica_is_origin(self.servers@, counted(lacking@[i as int]));
                assert(counted_keys(lacking@.take(i + 1)) =~= counted_keys(
                    lacking@.take(i as int),
                ).push(counted(lacking@[i as int])));
            }
        }
        assert(lacking@.take(lacking@.len() as int) =~= lacking@);
        self.plan_each(&wanted)
    }

    /// Sends one assignment for each range that lacks replicas, as long as
    /// there are spares. Returns how many messages were sent.
    pub fn try_replicate_from_available(&mut self) -> (sent: usize)
        requires
            old(self).wf(),
            old(self).countable(),
        ensures
            final(self).wf(),
            final(self).same_but_spares(old(self)),
            exists|rs: Seq<RangeCount>| #[trigger]
                old(self).reports(false, rs) && final(self).available_servers@
                    == old(self).available_servers@.skip(
                    smaller(rs.len(), old(self).available_servers@.len()) as int,
                ) && sent <= smaller(rs.len(), old(self).available_servers@.len())
                    && replicated_through(
                    *old(self),
                    counted_keys(rs),
                    sent as nat,
                    final(self).outbox.log(),
                ),
    {
        let plan: Vec<Assignment> = self.plan_replication();
        let sent: usize = send_all(&mut self.outbox, plan);
        proof {
            let rs = choose|rs: Seq<RangeCount>| #[trigger]
                old(self).reports(false, rs) && plan_for(
                    plan@,
                    old(self).servers@,
                    old(self).available_servers@,
                    counted_keys(rs),
                );
            let log = self.outbox.log();
            let start = old(self).outbox.log().len();
            assert forall|j: int| start <= j < log.len() implies {
                &&& (#[trigger] log[j]).channel == old(self).available_servers@[j - start].sender
                &&& log[j].message is Ok
                &&& assigns_from_origin(
                    old(self).servers@,
                    log[j].message->Ok_0,
                    counted_keys(rs)[j - start],
                )
            } by {
                assert(log[start + (j - start)].channel == plan@[j - start].spare.sender);
            }
            assert(replicated_through(*old(self), counted_keys(rs), sent as nat, log));
        }
        sent
    }

    /// What comes of a message to a spare that is given by its id, once its
    /// channel has taken or refused it.
    pub fn settle_named_send(
        &mut self,
        server_id: &str,
        outcome: Result<(), SendFailure>,
    ) -> (r: Result<(), String>)
        requires
            old(self).wf(),
            exists|p: int| #[trigger] pooled_at(old(self).available_servers@, server_id@, p),
        ensures
            final(self).wf(),
            match outcome {
                Ok(_) => {
                    &&& r is Ok
                    &&& final(self).same_but_spares(old(self))
                    &&& exists|p: int| #[trigger]
                        pooled_at(old(self).available_servers@, server_id@, p)
                            && final(self).available_servers@ == old(
                            self,
                        ).available_servers@.remove(p)
                    &&& final(self).outbox == old(self).outbox
                },
                Err(failure) => {
                    &&& *final(self) == *old(self)
                    &&& r is Err
                    &&& (r->Err_0)@ == failed_send_text(server_id@, failure)
                },
            },
    {
        match outcome {
            Ok(()) => {
                let wanted: String = server_id.to_owned();
                let p: usize = state::spare_place(&self.available_servers, &wanted);
                proof {
                    let q = choose|q: int| #[trigger]
                        pooled_at(self.available_servers@, server_id@, q);
                    assert(p < self.available_servers@.len());
                    assert(pooled_at(self.available_servers@, server_id@, p as int));
                }
                let _sent: AvailableEntry = self.available_servers.remove(p);
                Ok(())
            },
            Err(failure) => Err(failed_send(server_id, failure)),
        }
    }

    /// The place of the spare that is given by its id, and the message that
    /// assigns the range to it. Where no such spare is in the pool there is
    /// nothing to send.
    pub fn plan_named(
        &self,
        server_id: &str,
        model_id: &str,
        layer_start: u32,
        layer_end: u32,
        origin_url: &str,
        shard_hash: &str,
    ) -> (a: Option<(usize, RouterMessage)>)
        ensures
            a is Some == exists|p: int| #[trigger]
                pooled_at(self.available_servers@, server_id@, p),
            a matches Some((p, m)) ==> pooled_at(self.available_servers@, server_id@, p as int)
                && protocol::assigns(
                m,
                model_id@,
                layer_start,
                layer_end,
                origin_url@,
                shard_hash@,
            ),
    {
        let wanted: String = server_id.to_owned();
        let p: usize = state::spare_place(&self.available_servers, &wanted);
        if p >= self.available_servers.len() {
            return None;
        }
        assert(pooled_at(self.available_servers@, server_id@, p as int));
        let message: RouterMessage = protocol::assign_message(
            model_id,
            layer_start,
            layer_end,
            origin_url,
            shard_hash,
        );
        Some((p, message))
    }

    /// Sends an assignment to a spare that is given by its id: the message that
    /// [`GridState::plan_named`] plans, through the channel of the spare at the
    /// planned place.
    pub fn send_assign_to_named_available(
        &mut self,
        server_id: &str,
        model_id: &str,
        layer_start: u32,
        layer_end: u32,
        origin_url: &str,
        shard_hash: &str,
    ) -> (r: Result<(), String>)
        requires
            old(self).wf(),
        ensures
            final(self).wf(),
            named_outcome(
                *old(self),
                server_id@,
                model_id@,
                layer_start,
                layer_end,
                origin_url@,
                shard_hash@,
                r,
                *final(self),
            ),
    {
        match self.plan_named(
            server_id,
            model_id,
            layer_start,
            layer_end,
            origin_url,
            shard_hash,
        ) {
            None => Err(unknown_spare(server_id)),
            Some((p, message)) => {
                let outbound: Outbound = Ok(message);
                assert(pooled_at(old(self).available_servers@, server_id@, p as int));
                let outcome: Result<(), SendFailure> = match protocol::try_send(
                    &mut self.outbox,
                    &self.available_servers[p].sender,
                    outbound,
                ) {
                    Ok(()) => Ok(()),
                    Err((failure, _)) => Err(failure),
                };
                proof {
                    assert(self.outbox.log().drop_last() =~= old(self).outbox.log());
                    assert(one_offer(
                        old(self).outbox.log(),
                        old(self).available_servers@[p as int].sender,
                        self.outbox.log(),
                    ));
                }
                self.settle_named_send(server_id, outcome)
            },
        }
    }
}

/// Sends an assignment to its spare. Whether the channel takes the message
/// depends on the server at the other end; one that it does not take comes back
/// with the reason, as it was planned.
fn send(outbox: &mut Outbox, a: Assignment) -> (r: Result<(), (SendFailure, Outbound)>)
    ensures
        r matches Err(refused) ==> refused.1 == Ok::<RouterMessage, tonic::Status>(a.message),
        one_offer(old(outbox).log(), a.spare.sender, final(outbox).log()),
        final(outbox).log().last().message == Ok::<RouterMessage, tonic::Status>(a.message),
        final(outbox).log().last().refusal == protocol::refusal_of(r),
{
    let outbound: Outbound = Ok(a.message);
    let r: Result<(), (SendFailure, Outbound)> = protocol::try_send(
        outbox,
        &a.spare.sender,
        outbound,
    );
    assert(outbox.log().drop_last() =~= old(outbox).log());
    r
}

/// Sends assignments in order, each once and through the channel of its own
/// spare. Returns for each whether its channel took it.
fn send_each(outbox: &mut Outbox, plan: Vec<Assignment>) -> (taken: Vec<bool>)
    ensures
        taken@.len() == plan@.len(),
        offered_each(old(outbox).log(), plan@, final(outbox).log()),
        forall|j: int|
            0 <= j < plan@.len() ==> (#[trigger] taken@[j]) == (final(outbox).log()[old(
                outbox,
            ).log().len() + j].refusal is None),
{
    let mut taken: Vec<bool> = Vec::new();
    let ghost start: Seq<Delivery> = outbox.log();
    assert(start.take(start.len() as int) =~= start);
    for a in it: plan
        invariant
            taken@.len() == it.index(),
            it.seq() == plan@,
            start == old(outbox).log(),
            offered_each(start, plan@.take(it.index() as int), outbox.log()),
            forall|j: int|
                0 <= j < taken@.len() ==> (#[trigger] taken@[j]) == (outbox.log()[start.len()
                    + j].refusal is None),
    {
        let ghost before: Seq<Delivery> = outbox.log();
        let ghost done: int = taken@.len() as int;
        taken.push(send(outbox, a).is_ok());
        proof {
            let after = outbox.log();
            assert forall|j: int| 0 <= j < before.len() implies after[j] == before[j] by {
                assert(after.drop_last()[j] == after[j]);
            }
            assert(after.take(start.len() as int) =~= before.take(start.len() as int));
            assert forall|j: int| 0 <= j < done + 1 implies {
                &&& (#[trigger] after[start.len() + j]).channel == plan@[j].spare.sender
                &&& after[start.len() + j].message == Ok::<RouterMessage, tonic::Status>(
                    plan@[j].message,
                )
            } by {
                if j < done {
                    assert(after[start.len() + j] == before[start.len() + j]);
                    assert(plan@.take(done)[j] == plan@[j]);
                } else {
                    assert(after[start.len() + j] == after.last());
                }
            }
        }
    }
    assert(plan@.take(plan@.len() as int) =~= plan@);
    taken
}

/// How many of the given are true.
pub open spec fn count_true(bs: Seq<bool>) -> nat
    decreases bs.len(),
{
    if bs.len() == 0 {
        0
    } else {
        count_true(bs.drop_last()) + if bs.last() {
            1nat
        } else {
            0nat
        }
    }
}

/// Counts the messages that were taken.
pub fn count_taken(taken: &Vec<bool>) -> (n: usize)
    ensures
        n == count_true(taken@),
        n <= taken@.len(),
{
    let mut n: usize = 0;
    for i in 0..taken.len()
        invariant
            n == count_true(taken@.take(i as int)),
            n <= i,
    {
        assert(taken@.take(i + 1).drop_last() =~= taken@.take(i as int));
        if taken[i] {
            n += 1;
        }
    }
    assert(taken@.take(taken@.len() as int) =~= taken@);
    n
}

/// Sends assignments in order, each once and through the channel of its own
/// spare. Returns how many were taken.
pub fn send_all(outbox: &mut Outbox, plan: Vec<Assignment>) -> (sent: usize)
    ensures
        sent <= plan@.len(),
        offered_each(old(outbox).log(), plan@, final(outbox).log()),
        sent == taken_since(final(outbox).log(), old(outbox).log().len() as int),
{
    let taken: Vec<bool> = send_each(outbox, plan);
    proof {
        let new = outbox.log().skip(old(outbox).log().len() as int);
        assert forall|j: int| 0 <= j < new.len() implies (#[trigger] new[j]).refusal is None
            == taken@[j] by {
            assert(new[j] == outbox.log()[old(outbox).log().len() + j]);
        }
        lemma_count_taken(new, taken@);
    }
    count_taken(&taken)
}

proof fn lemma_count_taken(log: Seq<Delivery>, taken: Seq<bool>)
    requires
        log.len() == taken.len(),
        forall|j: int| 0 <= j < log.len() ==> ((#[trigger] log[j]).refusal is None) == taken[j],
    ensures
        count_true(taken) == log.filter(|d: Delivery| d.refusal is None).len(),
    decreases log.len(),
{
    reveal(Seq::filter);
    if log.len() > 0 {
        assert forall|j: int| 0 <= j < log.drop_last().len() implies ((
        #[trigger] log.drop_last()[j]).refusal is None) == taken.drop_last()[j] by {
            assert(log[j].refusal is None == taken[j]);
        }
        lemma_count_taken(log.drop_last(), taken.drop_last());
        assert(log[log.len() - 1].refusal is None == taken[log.len() - 1]);
    }
}

proof fn lemma_no_replicas(servers: Seq<ServerEntry>, k: RangeKey)
    requires
        replicas(servers, k) == 0,
    ensures
        forall|i: int| 0 <= i < servers.len() ==> (#[trigger] servers[i]).range() != k,
    decreases servers.len(),
{
    if servers.len() > 0 {
        let fewer = servers.drop_last();
        lemma_no_replicas(fewer, k);
        assert forall|i: int| 0 <= i < servers.len() implies (#[trigger] servers[i]).range()
            != k by {
            if i < fewer.len() {
                assert(fewer[i] == servers[i]);
            }
        }
    }
}

/// A range that is served has an origin.
proof fn lemma_replica_is_origin(servers: Seq<ServerEntry>, k: RangeKey)
    requires
        replicas(servers, k) > 0,
    ensures
        origin(servers, k.0, k.1, k.2) is Some,
    decreases servers.len(),
{
    if servers.last().range() != k {
        lemma_replica_is_origin(servers.drop_last(), k);
    }
}

/// A report names each range once.
pub proof fn law_each_range_is_reported_once(
    s: GridState,
    over: bool,
    rs: Seq<RangeCount>,
    i: int,
    j: int,
)
    requires
        s.reports(over, rs),
        0 <= i < rs.len(),
        0 <= j < rs.len(),
        counted(rs[i]) == counted(rs[j]),
    ensures
        i == j,
{
    ranges::lemma_range_lt_total(counted(rs[i]), counted(rs[j]));
}

/// A server with a new id makes one replica more of its range, and changes no
/// other count.
pub proof fn law_new_server_adds_a_replica(
    servers: Seq<ServerEntry>,
    e: ServerEntry,
    k: RangeKey,
)
    requires
        forall|i: int| 0 <= i < servers.len() ==> (#[trigger] servers[i]).server_id@
            != e.server_id@,
    ensures
        replicas(state::joined(servers, e), k) == replicas(servers, k) + if e.range() == k {
            1nat
        } else {
            0nat
        },
{
    state::lemma_joined(servers, e, servers.len() as int);
    assert(servers.push(e).drop_last() =~= servers);
}

/// An assignment that is carried out brings its range closer to the target: the
/// deficit shrinks by one and no surplus appears.
pub proof fn law_assignment_shrinks_the_deficit(before: GridState, e: ServerEntry, after: GridState)
    requires
        before.deficit(e.range()) > 0,
        forall|i: int|
            0 <= i < before.servers@.len() ==> (#[trigger] before.servers@[i]).server_id@
                != e.server_id@,
        after.servers@ == state::joined(before.servers@, e),
        after.target_replicas == before.target_replicas,
        after.elevated_ranges == before.elevated_ranges,
    ensures
        after.deficit(e.range()) == before.deficit(e.range()) - 1,
        after.surplus(e.range()) == 0,
{
    law_new_server_adds_a_replica(before.servers@, e, e.range());
}

} // verus!
