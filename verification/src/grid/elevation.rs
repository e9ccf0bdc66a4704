//! Ranges that should have one replica more while they are hot.

use vstd::prelude::*;

use crate::grid::entry::ServerEntry;
use crate::grid::ranges;
use crate::grid::ranges::{Range, RangeKey};
use crate::grid::replication;
use crate::grid::state::GridState;
use crate::metric::Metric;

verus! {

/// Whether some server that holds exactly a range answers more requests per
/// second than the threshold.
pub open spec fn hot(servers: Seq<ServerEntry>, threshold: Metric, k: RangeKey) -> bool {
    exists|i: int|
        0 <= i < servers.len() && (#[trigger] servers[i]).range() == k && threshold.below(
            servers[i].req_per_sec,
        )
}

impl GridState {
    /// Whether exactly the hot ranges are elevated.
    pub open spec fn in_line(&self, threshold: Metric) -> bool {
        forall|k: RangeKey| #[trigger] self.elevated(k) == hot(self.servers@, threshold, k)
    }

    /// Elevates a range. Returns whether it was not elevated before.
    pub fn mark_elevated(&mut self, model_id: &str, layer_start: u32, layer_end: u32) -> (added: bool)
        requires
            old(self).wf(),
        ensures
            final(self).wf(),
            final(self).same_but_elevation(old(self)),
            added == !old(self).elevated((model_id@, layer_start, layer_end)),
            forall|k: RangeKey| #[trigger]
                final(self).elevated(k) == (old(self).elevated(k) || k == (
                    model_id@,
                    layer_start,
                    layer_end,
                )),
    {
        let wanted: String = model_id.to_owned();
        let ghost new: RangeKey = (model_id@, layer_start, layer_end);
        if ranges::position(&self.elevated_ranges, &wanted, layer_start, layer_end).is_some() {
            return false;
        }
        let ghost before: Seq<Range> = self.elevated_ranges@;
        self.elevated_ranges.push((wanted, layer_start, layer_end));
        proof {
            let after = self.elevated_ranges@;
            assert forall|k: RangeKey| #[trigger]
                ranges::lists(after, k) == (ranges::lists(before, k) || k == new) by {
                if ranges::lists(before, k) {
                    let i = choose|i: int|
                        0 <= i < before.len() && ranges::key(#[trigger] before[i]) == k;
                    assert(after[i] == before[i]);
                }
                assert(ranges::key(after[after.len() - 1]) == new);
                if ranges::lists(after, k) {
                    let i = choose|i: int|
                        0 <= i < after.len() && ranges::key(#[trigger] after[i]) == k;
                    if i < before.len() {
                        assert(after[i] == before[i]);
                    }
                }
            }
            assert forall|i: int, j: int|
                0 <= i < after.len() && 0 <= j < after.len() && i != j implies ranges::key(
                #[trigger] after[i],
            ) != ranges::key(#[trigger] after[j]) by {
                if i < before.len() && j < before.len() {
                    assert(after[i] == before[i] && after[j] == before[j]);
                } else if i < before.len() {
                    assert(after[i] == before[i]);
                    assert(ranges::lists(before, ranges::key(before[i])));
                } else if j < before.len() {
                    assert(after[j] == before[j]);
                    assert(ranges::lists(before, ranges::key(before[j])));
                }
            }
        }
        true
    }

    /// Ends the elevation of a range. Returns whether it was elevated before.
    pub fn demote_elevated(&mut self, model_id: &str, layer_start: u32, layer_end: u32) -> (removed:
        bool)
        requires
            old(self).wf(),
        ensures
            final(self).wf(),
            final(self).same_but_elevation(old(self)),
            removed == old(self).elevated((model_id@, layer_start, layer_end)),
            forall|k: RangeKey| #[trigger]
                final(self).elevated(k) == (old(self).elevated(k) && k != (
                    model_id@,
                    layer_start,
                    layer_end,
                )),
    {
        let wanted: String = model_id.to_owned();
        let ghost gone: RangeKey = (model_id@, layer_start, layer_end);
        let ghost before: Seq<Range> = self.elevated_ranges@;
        match ranges::position(&self.elevated_ranges, &wanted, layer_start, layer_end) {
            None => false,
            Some(p) => {
                let _removed: Range = self.elevated_ranges.remove(p);
                proof {
                    let after = self.elevated_ranges@;
                    let at = p as int;
                    assert forall|k: RangeKey| #[trigger]
                        ranges::lists(after, k) == (ranges::lists(before, k) && k != gone) by {
                        if ranges::lists(after, k) {
                            let i = choose|i: int|
                                0 <= i < after.len() && ranges::key(#[trigger] after[i]) == k;
                            let j = if i < at {
                                i
                            } else {
                                i + 1
                            };
                            assert(before[j] == after[i]);
                            assert(ranges::key(before[j]) != ranges::key(before[at]));
                        }
                        if ranges::lists(before, k) && k != gone {
                            let i = choose|i: int|
                                0 <= i < before.len() && ranges::key(#[trigger] before[i]) == k;
                            let j = if i < at {
                                i
                            } else {
                                i - 1
                            };
                            assert(after[j] == before[i]);
                        }
                    }
                    assert forall|i: int, j: int|
                        0 <= i < after.len() && 0 <= j < after.len() && i != j implies ranges::key(
                        #[trigger] after[i],
                    ) != ranges::key(#[trigger] after[j]) by {
                        let i2 = if i < at {
                            i
                        } else {
                            i + 1
                        };
                        let j2 = if j < at {
                            j
                        } else {
                            j + 1
                        };
                        assert(after[i] == before[i2] && after[j] == before[j2]);
                    }
                }
                true
            },
        }
    }

    /// The elevated ranges, each once.
    pub fn elevated_ranges_snapshot(&self) -> (rs: Vec<Range>)
        requires
            self.wf(),
        ensures
            rs@.len() == self.elevated_ranges@.len(),
            forall|i: int|
                0 <= i < rs@.len() ==> ranges::key(#[trigger] rs@[i]) == ranges::key(
                    self.elevated_ranges@[i],
                ),
    {
        let mut rs: Vec<Range> = Vec::new();
        for i in 0..self.elevated_ranges.len()
            invariant
                rs@.len() == i,
                forall|k: int|
                    0 <= k < i ==> ranges::key(#[trigger] rs@[k]) == ranges::key(
                        self.elevated_ranges@[k],
                    ),
        {
            let r: &Range = &self.elevated_ranges[i];
            rs.push((r.0.clone(), r.1, r.2));
        }
        rs
    }

    /// The ranges that are hot, in order.
    pub fn hot_layer_ranges(&self, threshold: Metric) -> (rs: Vec<Range>)
        ensures
            ranges::sorted(rs@),
            forall|k: RangeKey| #[trigger]
                ranges::lists(rs@, k) == hot(self.servers@, threshold, k),
    {
        let mut rs: Vec<Range> = Vec::new();
        for i in 0..self.servers.len()
            invariant
                ranges::sorted(rs@),
                forall|k: RangeKey| #[trigger]
                    ranges::lists(rs@, k) == hot(self.servers@.take(i as int), threshold, k),
        {
            let e: &ServerEntry = &self.servers[i];
            let ghost before: Seq<Range> = rs@;
            let ghost some: Seq<ServerEntry> = self.servers@.take(i as int);
            let ghost more: Seq<ServerEntry> = self.servers@.take(i + 1);
            if e.req_per_sec.exceeds(threshold) {
                ranges::insert(&mut rs, &e.model_id, e.layer_start, e.layer_end);
            }
            proof {
                assert(more[i as int] == *e);
                assert forall|k: RangeKey| #[trigger]
                    ranges::lists(rs@, k) == hot(more, threshold, k) by {
                    assert(ranges::lists(before, k) == hot(some, threshold, k));
                    if hot(some, threshold, k) {
                        let j = choose|j: int|
                            0 <= j < some.len() && (#[trigger] some[j]).range() == k
                                && threshold.below(some[j].req_per_sec);
                        assert(more[j] == some[j]);
                    }
                    if hot(more, threshold, k) {
                        let j = choose|j: int|
                            0 <= j < more.len() && (#[trigger] more[j]).range() == k
                                && threshold.below(more[j].req_per_sec);
                        if j < i {
                            assert(some[j] == more[j]);
                        }
                    }
                }
            }
        }
        assert(self.servers@.take(self.servers@.len() as int) =~= self.servers@);
        rs
    }
}

/// Brings the elevated ranges in line with the hot ones: ranges that became hot
/// are elevated, and ranges that cooled are no longer.
pub fn check_hot_shards(state: &mut GridState, threshold: Metric)
    requires
        old(state).wf(),
    ensures
        final(state).wf(),
        final(state).same_but_elevation(old(state)),
        forall|k: RangeKey| #[trigger]
            final(state).elevated(k) == hot(old(state).servers@, threshold, k),
        old(state).in_line(threshold) ==> *final(state) == *old(state),
{
    let hot_now: Vec<Range> = state.hot_layer_ranges(threshold);
    let elevated: Vec<Range> = state.elevated_ranges_snapshot();
    proof {
        assert forall|k: RangeKey| ranges::lists(elevated@, k) == #[trigger] old(state).elevated(
            k,
        ) by {
            let listed = old(state).elevated_ranges@;
            if ranges::lists(elevated@, k) {
                let i = choose|i: int|
                    0 <= i < elevated@.len() && ranges::key(#[trigger] elevated@[i]) == k;
                assert(ranges::key(listed[i]) == k);
            }
            if ranges::lists(listed, k) {
                let i = choose|i: int|
                    0 <= i < listed.len() && ranges::key(#[trigger] listed[i]) == k;
                assert(ranges::key(elevated@[i]) == k);
            }
        }
    }
    for i in 0..hot_now.len()
        invariant
            state.wf(),
            state.same_but_elevation(old(state)),
            forall|k: RangeKey| #[trigger]
                state.elevated(k) == (old(state).elevated(k) || listed_before(
                    hot_now@,
                    i as int,
                    k,
                )),
            forall|k: RangeKey| ranges::lists(elevated@, k) == #[trigger] old(state).elevated(k),
            forall|k: RangeKey| #[trigger]
                ranges::lists(hot_now@, k) == hot(old(state).servers@, threshold, k),
            old(state).in_line(threshold) ==> *state == *old(state),
    {
        let r: &Range = &hot_now[i];
        assert(ranges::lists(hot_now@, ranges::key(hot_now@[i as int])));
        proof {
            assert forall|k: RangeKey| #[trigger] listed_before(hot_now@, i + 1, k) == (
            listed_before(hot_now@, i as int, k) || k == ranges::key(hot_now@[i as int])) by {
                lemma_listed_before(hot_now@, i as int, k);
            }
            assert(old(state).elevated(ranges::key(*r)) == ranges::lists(
                elevated@,
                ranges::key(*r),
            ));
        }
        if ranges::position(&elevated, &r.0, r.1, r.2).is_none() {
            state.mark_elevated(r.0.as_str(), r.1, r.2);
        }
    }
    proof {
        assert forall|k: RangeKey| listed_before(hot_now@, hot_now@.len() as int, k)
            == #[trigger] ranges::lists(hot_now@, k) by {}
    }
    for i in 0..elevated.len()
        invariant
            state.wf(),
            state.same_but_elevation(old(state)),
            forall|k: RangeKey| #[trigger]
                state.elevated(k) == ((old(state).elevated(k) || ranges::lists(hot_now@, k)) && !(
                listed_before(elevated@, i as int, k) && !ranges::lists(hot_now@, k))),
            forall|k: RangeKey| ranges::lists(elevated@, k) == #[trigger] old(state).elevated(k),
            forall|k: RangeKey| #[trigger]
                ranges::lists(hot_now@, k) == hot(old(state).servers@, threshold, k),
            old(state).in_line(threshold) ==> *state == *old(state),
    {
        let r: &Range = &elevated[i];
        assert(ranges::lists(elevated@, ranges::key(elevated@[i as int])));
        assert(old(state).elevated(ranges::key(elevated@[i as int])));
        proof {
            assert forall|k: RangeKey| #[trigger] listed_before(elevated@, i + 1, k) == (
            listed_before(elevated@, i as int, k) || k == ranges::key(elevated@[i as int])) by {
                lemma_listed_before(elevated@, i as int, k);
            }
        }
        if ranges::position(&hot_now, &r.0, r.1, r.2).is_none() {
            state.demote_elevated(r.0.as_str(), r.1, r.2);
        }
    }
    proof {
        assert forall|k: RangeKey| #[trigger] state.elevated(k) == hot(
            old(state).servers@,
            threshold,
            k,
        ) by {
            assert(listed_before(elevated@, elevated@.len() as int, k) == ranges::lists(
                elevated@,
                k,
            ));
            assert(ranges::lists(hot_now@, k) == hot(old(state).servers@, threshold, k));
        }
    }
}

/// Whether a range is among the first entries of a list.
spec fn listed_before(rs: Seq<Range>, n: int, k: RangeKey) -> bool {
    exists|i: int| 0 <= i < n && i < rs.len() && ranges::key(#[trigger] rs[i]) == k
}

proof fn lemma_listed_before(rs: Seq<Range>, n: int, k: RangeKey)
    requires
        0 <= n < rs.len(),
    ensures
        listed_before(rs, n + 1, k) == (listed_before(rs, n, k) || k == ranges::key(rs[n])),
{
}

/// Checking again changes nothing: what a check leaves behind is in line.
pub proof fn law_check_settles(before: GridState, after: GridState, threshold: Metric)
    requires
        after.same_but_elevation(&before),
        forall|k: RangeKey| #[trigger] after.elevated(k) == hot(before.servers@, threshold, k),
    ensures
        after.in_line(threshold),
{
}

/// A range at its target lacks one replica when it is elevated. Once it has
/// that replica it is neither over nor under target, and when the elevation
/// ends it has one replica too many.
pub proof fn law_hot_range_gains_and_loses_a_replica(s: GridState, k: RangeKey)
    requires
        s.wf(),
    ensures
        replication::replicas(s.servers@, k) == s.target_replicas && s.elevated(k) ==> s.deficit(k)
            == 1 && s.surplus(k) == 0,
        replication::replicas(s.servers@, k) == s.target_replicas + 1 && s.elevated(k)
            ==> s.deficit(k) == 0 && s.surplus(k) == 0,
        replication::replicas(s.servers@, k) == s.target_replicas + 1 && !s.elevated(k)
            ==> s.deficit(k) == 0 && s.surplus(k) == 1,
{
}

/// No range is both over and under target.
pub proof fn law_never_over_and_under(s: GridState, k: RangeKey)
    ensures
        s.surplus(k) == 0 || s.deficit(k) == 0,
{
}

} // verus!
