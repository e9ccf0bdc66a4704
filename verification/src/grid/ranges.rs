//! Ranges of layers of a model, in order.

use vstd::prelude::*;

use crate::text;

verus! {

/// A range of layers of a model, both ends included.
pub type Range = (String, u32, u32);

/// A range, as it is specified.
pub type RangeKey = (Seq<char>, u32, u32);

/// What identifies a range.
pub open spec fn key(r: Range) -> RangeKey {
    (r.0@, r.1, r.2)
}

/// Whether a list holds a range.
pub open spec fn lists(rs: Seq<Range>, k: RangeKey) -> bool {
    exists|i: int| 0 <= i < rs.len() && key(#[trigger] rs[i]) == k
}

/// Whether no range is listed twice.
pub open spec fn distinct(rs: Seq<Range>) -> bool {
    forall|i: int, j: int|
        0 <= i < rs.len() && 0 <= j < rs.len() && i != j ==> key(#[trigger] rs[i]) != key(
            #[trigger] rs[j],
        )
}

/// The order of ranges: by model, then by first layer, then by last layer.
pub open spec fn range_lt(a: RangeKey, b: RangeKey) -> bool {
    text::text_lt(a.0, b.0) || (a.0 == b.0 && (a.1 < b.1 || (a.1 == b.1 && a.2 < b.2)))
}

/// Whether a list is in order, so that no range is listed twice.
pub open spec fn sorted(rs: Seq<Range>) -> bool {
    forall|i: int, j: int|
        0 <= i < j < rs.len() ==> range_lt(key(#[trigger] rs[i]), key(#[trigger] rs[j]))
}

pub proof fn lemma_range_lt_total(a: RangeKey, b: RangeKey)
    ensures
        range_lt(a, b) || range_lt(b, a) || a == b,
        !range_lt(a, a),
{
    text::lemma_text_lt_total(a.0, b.0);
    text::lemma_text_lt_irreflexive(a.0);
}

pub proof fn lemma_range_lt_transitive(a: RangeKey, b: RangeKey, c: RangeKey)
    requires
        range_lt(a, b),
        range_lt(b, c),
    ensures
        range_lt(a, c),
{
    if text::text_lt(a.0, b.0) && text::text_lt(b.0, c.0) {
        text::lemma_text_lt_transitive(a.0, b.0, c.0);
    }
}

/// Whether a range is the given one.
pub fn is_range(r: &Range, model_id: &String, layer_start: u32, layer_end: u32) -> (b: bool)
    ensures
        b == (key(*r) == (model_id@, layer_start, layer_end)),
{
    r.0 == *model_id && r.1 == layer_start && r.2 == layer_end
}

/// Whether a range comes before the given one.
fn range_before(r: &Range, model_id: &String, layer_start: u32, layer_end: u32) -> (b: bool)
    ensures
        b == range_lt(key(*r), (model_id@, layer_start, layer_end)),
{
    if r.0 == *model_id {
        proof {
            text::lemma_text_lt_irreflexive(model_id@);
        }
        r.1 < layer_start || (r.1 == layer_start && r.2 < layer_end)
    } else {
        text::comes_before(r.0.as_str(), model_id.as_str())
    }
}

/// Where a list holds a range.
pub fn position(rs: &Vec<Range>, model_id: &String, layer_start: u32, layer_end: u32) -> (p: Option<
    usize,
>)
    ensures
        p is Some == lists(rs@, (model_id@, layer_start, layer_end)),
        p matches Some(i) ==> i < rs@.len() && key(rs@[i as int]) == (
            model_id@,
            layer_start,
            layer_end,
        ),
{
    for i in 0..rs.len()
        invariant
            forall|k: int|
                0 <= k < i ==> key(#[trigger] rs@[k]) != (model_id@, layer_start, layer_end),
    {
        if is_range(&rs[i], model_id, layer_start, layer_end) {
            return Some(i);
        }
    }
    None
}

/// Puts a range into its place in a sorted list, unless the list holds it.
pub fn insert(rs: &mut Vec<Range>, model_id: &String, layer_start: u32, layer_end: u32)
    requires
        sorted(old(rs)@),
    ensures
        sorted(final(rs)@),
        forall|k: RangeKey|
            lists(final(rs)@, k) == (lists(old(rs)@, k) || k == (
                model_id@,
                layer_start,
                layer_end,
            )),
{
    let ghost before: Seq<Range> = rs@;
    let ghost new: RangeKey = (model_id@, layer_start, layer_end);
    let mut p: usize = 0;
    while p < rs.len() && range_before(&rs[p], model_id, layer_start, layer_end)
        invariant
            rs@ == before,
            p <= rs@.len(),
            new == (model_id@, layer_start, layer_end),
            forall|i: int| 0 <= i < p ==> range_lt(key(#[trigger] rs@[i]), new),
        decreases rs@.len() - p,
    {
        p += 1;
    }
    if p < rs.len() && is_range(&rs[p], model_id, layer_start, layer_end) {
        assert(key(before[p as int]) == new);
        return;
    }
    rs.insert(p, (model_id.clone(), layer_start, layer_end));
    proof {
        let at = p as int;
        assert(key(rs@[at]) == new);
        assert forall|i: int| at < i < rs@.len() implies range_lt(
            new,
            key(#[trigger] rs@[i]),
        ) by {
            lemma_range_lt_total(key(before[at]), new);
            if i > at + 1 {
                lemma_range_lt_transitive(new, key(before[at]), key(before[i - 1]));
            }
        }
        assert forall|i: int, j: int| 0 <= i < j < rs@.len() implies range_lt(
            key(#[trigger] rs@[i]),
            key(#[trigger] rs@[j]),
        ) by {
            if i < at && j < at {
                assert(range_lt(key(before[i]), key(before[j])));
            } else if i < at && j > at {
                assert(range_lt(key(before[i]), key(before[j - 1])));
            } else if i > at {
                assert(range_lt(key(before[i - 1]), key(before[j - 1])));
            } else if i < at {
                assert(range_lt(key(before[i]), new));
            }
        }
        assert forall|k: RangeKey| lists(rs@, k) == (lists(before, k) || k == new) by {
            if lists(rs@, k) {
                let i = choose|i: int| 0 <= i < rs@.len() && key(#[trigger] rs@[i]) == k;
                if i < at {
                    assert(before[i] == rs@[i]);
                } else if i > at {
                    assert(before[i - 1] == rs@[i]);
                }
            }
            if lists(before, k) {
                let i = choose|i: int| 0 <= i < before.len() && key(#[trigger] before[i]) == k;
                if i < at {
                    assert(rs@[i] == before[i]);
                } else {
                    assert(rs@[i + 1] == before[i]);
                }
            }
        }
    }
}

} // verus!
