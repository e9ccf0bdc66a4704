//! Layers that nobody holds.

use vstd::prelude::*;

use crate::grid::entry::ServerEntry;
use crate::grid::ranges;
use crate::grid::ranges::{Range, RangeKey};
use crate::grid::replication;
use crate::grid::replication::{send_all, Assignment};
use crate::grid::state::GridState;

verus! {

/// Whether some server of a model holds a layer.
pub open spec fn covered(servers: Seq<ServerEntry>, model_id: Seq<char>, layer: int) -> bool {
    exists|i: int|
        0 <= i < servers.len() && (#[trigger] servers[i]).model_id@ == model_id
            && servers[i].layer_start <= layer <= servers[i].layer_end
}

/// Whether a range is a gap: no server of the model holds any of its layers,
/// and the layers right before and right after it are held.
pub open spec fn gap(servers: Seq<ServerEntry>, k: RangeKey) -> bool {
    &&& k.1 <= k.2
    &&& covered(servers, k.0, k.1 - 1)
    &&& covered(servers, k.0, k.2 + 1)
    &&& forall|l: int| k.1 <= l <= k.2 ==> !#[trigger] covered(servers, k.0, l)
}

/// Whether some server of a model holds a layer.
fn is_covered(servers: &Vec<ServerEntry>, model_id: &String, layer: u32) -> (b: bool)
    ensures
        b == covered(servers@, model_id@, layer as int),
{
    for i in 0..servers.len()
        invariant
            forall|k: int|
                0 <= k < i ==> !((#[trigger] servers@[k]).model_id@ == model_id@
                    && servers@[k].layer_start <= layer <= servers@[k].layer_end),
    {
        let e: &ServerEntry = &servers[i];
        if e.model_id == *model_id && e.layer_start <= layer && layer <= e.layer_end {
            return true;
        }
    }
    false
}

/// The first layer above the given one at which some server of a model starts.
/// Servers whose range is empty do not count.
fn next_start(servers: &Vec<ServerEntry>, model_id: &String, layer: u32) -> (s: Option<u32>)
    ensures
        s matches Some(s) ==> {
            &&& layer < s
            &&& covered(servers@, model_id@, s as int)
        },
        forall|i: int|
            0 <= i < servers@.len() && (#[trigger] servers@[i]).model_id@ == model_id@ && layer
                < servers@[i].layer_start <= servers@[i].layer_end ==> s is Some && s->0
                <= servers@[i].layer_start,
{
    let mut found: Option<u32> = None;
    for i in 0..servers.len()
        invariant
            found matches Some(s) ==> layer < s && covered(servers@, model_id@, s as int),
            forall|k: int|
                0 <= k < i && (#[trigger] servers@[k]).model_id@ == model_id@ && layer
                    < servers@[k].layer_start <= servers@[k].layer_end ==> found is Some
                    && found->0 <= servers@[k].layer_start,
    {
        let e: &ServerEntry = &servers[i];
        if e.model_id == *model_id && layer < e.layer_start && e.layer_start <= e.layer_end {
            let closer: bool = match found {
                Some(s) => e.layer_start < s,
                None => true,
            };
            if closer {
                found = Some(e.layer_start);
            }
        }
    }
    found
}

/// The gap right after a server's range, if there is one.
fn gap_after(servers: &Vec<ServerEntry>, e: &ServerEntry) -> (g: Option<(u32, u32)>)
    requires
        servers@.contains(*e),
    ensures
        g matches Some((s, t)) ==> gap(servers@, (e.model_id@, s, t)) && s == e.layer_end + 1,
        e.layer_start <= e.layer_end ==> forall|t: u32|
            #![trigger gap(servers@, (e.model_id@, (e.layer_end + 1) as u32, t))]
            e.layer_end < u32::MAX && gap(
                servers@,
                (e.model_id@, (e.layer_end + 1) as u32, t),
            ) ==> g == Some(((e.layer_end + 1) as u32, t)),
{
    if e.layer_start > e.layer_end || e.layer_end == u32::MAX {
        return None;
    }
    let start: u32 = e.layer_end + 1;
    if is_covered(servers, &e.model_id, start) {
        return None;
    }
    let next: Option<u32> = next_start(servers, &e.model_id, e.layer_end);
    proof {
        let m = e.model_id@;
        let at = choose|i: int| 0 <= i < servers@.len() && servers@[i] == *e;
        assert(servers@[at].model_id@ == m);
        assert(covered(servers@, m, start - 1));
        // A server that holds a layer above `start` starts above `start` too.
        assert forall|i: int, l: int|
            0 <= i < servers@.len() && (#[trigger] servers@[i]).model_id@ == m
                && servers@[i].layer_start <= l <= servers@[i].layer_end && l >= start
            implies #[trigger] covered(servers@, m, l) && servers@[i].layer_start > e.layer_end by {
            assert(covered(servers@, m, l));
        }
        if next is Some {
            let s = next->0;
            assert forall|l: int| start <= l <= s - 1 implies !#[trigger] covered(
                servers@,
                m,
                l,
            ) by {
                if covered(servers@, m, l) {
                    let i = choose|i: int|
                        0 <= i < servers@.len() && (#[trigger] servers@[i]).model_id@ == m
                            && servers@[i].layer_start <= l <= servers@[i].layer_end;
                    assert(servers@[i].layer_start > e.layer_end);
                }
            }
            assert(s != start);
            assert(gap(servers@, (m, start, (s - 1) as u32)));
        }
        assert forall|t: u32| #[trigger] gap(servers@, (m, start, t)) implies next is Some
            && next->0 == t + 1 by {
            let i = choose|i: int|
                0 <= i < servers@.len() && (#[trigger] servers@[i]).model_id@ == m
                    && servers@[i].layer_start <= t + 1 <= servers@[i].layer_end;
            assert(covered(servers@, m, t + 1));
            assert(servers@[i].layer_start > e.layer_end);
            if servers@[i].layer_start <= t {
                assert(covered(servers@, m, t as int));
            }
            let s = next->0;
            if s <= t {
                assert(covered(servers@, m, s as int));
            }
        }
    }
    match next {
        Some(s) => Some((start, s - 1)),
        None => None,
    }
}

impl GridState {
    /// The gaps of the grid, each once.
    pub fn coverage_gaps(&self) -> (gaps: Vec<Range>)
        ensures
            ranges::sorted(gaps@),
            forall|k: RangeKey| #[trigger] ranges::lists(gaps@, k) == gap(self.servers@, k),
    {
        let mut gaps: Vec<Range> = Vec::new();
        for i in 0..self.servers.len()
            invariant
                ranges::sorted(gaps@),
                forall|k: RangeKey| #[trigger]
                    ranges::lists(gaps@, k) ==> gap(self.servers@, k),
                forall|j: int, k: RangeKey|
                    #![trigger self.servers@[j], gap(self.servers@, k)]
                    0 <= j < i && self.servers@[j].layer_start <= self.servers@[j].layer_end && gap(
                        self.servers@,
                        k,
                    ) && k.0 == self.servers@[j].model_id@ && k.1 == self.servers@[j].layer_end + 1
                        ==> ranges::lists(gaps@, k),
        {
            let e: &ServerEntry = &self.servers[i];
            let ghost before: Seq<Range> = gaps@;
            assert(self.servers@[i as int] == *e);
            let found: Option<(u32, u32)> = gap_after(&self.servers, e);
            if let Some((start, end)) = found {
                ranges::insert(&mut gaps, &e.model_id, start, end);
            }
            proof {
                assert forall|j: int, k: RangeKey|
                    #![trigger self.servers@[j], gap(self.servers@, k)]
                    0 <= j < i + 1 && self.servers@[j].layer_start <= self.servers@[j].layer_end
                        && gap(self.servers@, k) && k.0 == self.servers@[j].model_id@ && k.1
                        == self.servers@[j].layer_end + 1 implies ranges::lists(gaps@, k) by {
                    if j < i {
                        assert(ranges::lists(before, k));
                    } else {
                        assert(gap(self.servers@, (e.model_id@, (e.layer_end + 1) as u32, k.2)));
                    }
                }
            }
        }
        proof {
            assert forall|k: RangeKey| #[trigger] ranges::lists(gaps@, k) == gap(
                self.servers@,
                k,
            ) by {
                if gap(self.servers@, k) {
                    let j = choose|j: int|
                        0 <= j < self.servers@.len() && (#[trigger] self.servers@[j]).model_id@
                            == k.0 && self.servers@[j].layer_start <= k.1 - 1
                            <= self.servers@[j].layer_end;
                    if self.servers@[j].layer_end >= k.1 {
                        assert(covered(self.servers@, k.0, k.1 as int));
                    }
                    assert(self.servers@[j].layer_end + 1 == k.1);
                }
            }
        }
        gaps
    }

    /// Tries to fill every gap from the spares. Returns how many messages were
    /// sent: none, because a layer that nobody holds has no server to load it
    /// from.
    pub fn try_fill_all_gaps(&mut self) -> (sent: usize)
        requires
            old(self).wf(),
        ensures
            sent == 0,
            final(self).wf(),
            final(self).same_but_spares(old(self)),
            final(self).available_servers@ == old(self).available_servers@,
            final(self).outbox.log() == old(self).outbox.log(),
    {
        let gaps: Vec<Range> = self.coverage_gaps();
        proof {
            assert forall|i: int| 0 <= i < gaps@.len() implies gap(
                self.servers@,
                ranges::key(#[trigger] gaps@[i]),
            ) by {
                assert(ranges::lists(gaps@, ranges::key(gaps@[i])));
            }
            lemma_gaps_have_no_origin(self.servers@, gaps@);
            assert(self.available_servers@.skip(0) =~= self.available_servers@);
        }
        let plan: Vec<Assignment> = self.plan_each(&gaps);
        let sent: usize = send_all(&mut self.outbox, plan);
        proof {
            let log = self.outbox.log();
            assert(log.take(log.len() as int) =~= log);
        }
        sent
    }
}

/// No server could hand out a gap.
pub proof fn law_gap_has_no_origin(servers: Seq<ServerEntry>, k: RangeKey)
    requires
        gap(servers, k),
    ensures
        replication::origin(servers, k.0, k.1, k.2) is None,
{
    replication::lemma_origin(servers, k.0, k.1, k.2);
    if let Some(p) = replication::origin(servers, k.0, k.1, k.2) {
        assert(servers[p].originates(k.0, k.1, k.2));
        assert(covered(servers, k.0, k.1 as int));
    }
}

proof fn lemma_gaps_have_no_origin(servers: Seq<ServerEntry>, gaps: Seq<Range>)
    requires
        forall|i: int| 0 <= i < gaps.len() ==> gap(servers, ranges::key(#[trigger] gaps[i])),
    ensures
        replication::with_origin(servers, gaps).len() == 0,
    decreases gaps.len(),
{
    if gaps.len() > 0 {
        assert forall|i: int| 0 <= i < gaps.drop_last().len() implies gap(
            servers,
            ranges::key(#[trigger] gaps.drop_last()[i]),
        ) by {
            assert(gaps.drop_last()[i] == gaps[i]);
        }
        lemma_gaps_have_no_origin(servers, gaps.drop_last());
        assert(gap(servers, ranges::key(gaps[gaps.len() - 1])));
        law_gap_has_no_origin(servers, ranges::key(gaps.last()));
    }
}

} // verus!
