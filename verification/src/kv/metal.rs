//! The device backend.
//!
//! Fused passes run on the device, which also keeps the cache they fill. What
//! is decided here is which pass runs, how the per-layer rows that a pass hands
//! out become the state that an engine reads, and when a pass counts as failed.

use vstd::prelude::*;

use crate::kv::decode_state::{DecodeStateDump, PerLayerDecodeState};
use crate::kv::handle::{KvHandle, MetalCoarseHandle};
use crate::kv::matrix::{rows_of_flat, shape_fits, shape_takes, zero_row, zero_rows, Matrix};

verus! {

/// What the fused kernel returns for one token.
pub struct TokenStep {
    /// The last hidden state.
    pub hidden: Matrix,
    /// One flat row per layer and kind.
    pub dump: DecodeStateDump,
}

/// The three kinds of row that a pass captures per layer.
pub enum Captured {
    HiddenIn,
    NewKey,
    NewValue,
}

/// The row of the given kind that a dump holds for layer `l`.
pub open spec fn dump_row(dump: DecodeStateDump, kind: Captured, l: int) -> Seq<u32> {
    match kind {
        Captured::HiddenIn => dump.h_in_per_layer@[l]@,
        Captured::NewKey => dump.k_new_per_layer@[l]@,
        Captured::NewValue => dump.v_new_per_layer@[l]@,
    }
}

/// The matrices of the given kind that a state holds.
pub open spec fn state_part(state: PerLayerDecodeState, kind: Captured) -> Seq<Matrix> {
    match kind {
        Captured::HiddenIn => state.h_in_per_layer@,
        Captured::NewKey => state.k_new_per_layer@,
        Captured::NewValue => state.v_new_per_layer@,
    }
}

/// The width that a row of the given kind has at layer `l`.
pub open spec fn row_width(
    hidden_size: usize,
    kv_dims: Seq<usize>,
    kind: Captured,
    l: int,
) -> nat {
    match kind {
        Captured::HiddenIn => hidden_size as nat,
        _ => kv_dims[l] as nat,
    }
}

/// Whether the dump has rows of the right width for layer `l`.
pub open spec fn layer_fits(
    dump: DecodeStateDump,
    hidden_size: usize,
    kv_dims: Seq<usize>,
    l: int,
) -> bool {
    &&& dump.h_in_per_layer@[l]@.len() == hidden_size
    &&& dump.k_new_per_layer@[l]@.len() == kv_dims[l]
    &&& dump.v_new_per_layer@[l]@.len() == kv_dims[l]
}

/// Whether a kernel call succeeded and filled every layer.
pub open spec fn step_fits(
    step: Option<TokenStep>,
    hidden_size: usize,
    kv_dims: Seq<usize>,
) -> bool {
    &&& step is Some
    &&& forall|l: int|
        0 <= l < kv_dims.len() ==> #[trigger] layer_fits(step->0.dump, hidden_size, kv_dims, l)
}

/// Whether the rows of token `p` at layer `l` reach the state: every earlier
/// token was captured in full, and so was every layer of this token up to `l`.
pub open spec fn reaches_state(
    steps: Seq<Option<TokenStep>>,
    hidden_size: usize,
    kv_dims: Seq<usize>,
    p: int,
    l: int,
) -> bool {
    &&& forall|q: int| 0 <= q < p ==> step_fits(#[trigger] steps[q], hidden_size, kv_dims)
    &&& steps[p] is Some
    &&& forall|m: int|
        0 <= m <= l ==> #[trigger] layer_fits(steps[p]->0.dump, hidden_size, kv_dims, m)
}

/// The rows that a prefill leaves at layer `l`: those that reach the state,
/// and zeros elsewhere.
pub open spec fn prefill_rows(
    steps: Seq<Option<TokenStep>>,
    hidden_size: usize,
    kv_dims: Seq<usize>,
    kind: Captured,
    l: int,
) -> Seq<Seq<u32>> {
    Seq::new(
        steps.len(),
        |p: int|
            if reaches_state(steps, hidden_size, kv_dims, p, l) {
                dump_row(steps[p]->0.dump, kind, l)
            } else {
                zero_row(row_width(hidden_size, kv_dims, kind, l))
            },
    )
}

/// Whether the state has one matrix per layer and kind, of `tokens` rows and
/// the width of that layer.
pub open spec fn buffers_shaped(
    state: PerLayerDecodeState,
    tokens: nat,
    hidden_size: usize,
    kv_dims: Seq<usize>,
) -> bool {
    &&& state.complete_for(kv_dims.len())
    &&& forall|kind: Captured, l: int|
        0 <= l < kv_dims.len() ==> {
            &&& (#[trigger] state_part(state, kind)[l]).rows().len() == tokens
            &&& state_part(state, kind)[l].cols() == row_width(hidden_size, kv_dims, kind, l)
        }
}

/// The row widths of the key and value caches: heads times head size.
pub open spec fn kv_dims_of(kv_shapes: Seq<(usize, usize)>) -> Seq<usize> {
    Seq::new(kv_shapes.len(), |l: int| (kv_shapes[l].0 * kv_shapes[l].1) as usize)
}

/// Whether a prefill of `tokens` tokens can allocate its state.
pub open spec fn prefill_fits(
    tokens: nat,
    hidden_size: usize,
    kv_shapes: Seq<(usize, usize)>,
) -> bool {
    &&& shape_fits(tokens, hidden_size as nat)
    &&& forall|l: int|
        0 <= l < kv_shapes.len() ==> (#[trigger] kv_shapes[l]).0 * kv_shapes[l].1 <= usize::MAX
            && shape_fits(tokens, (kv_shapes[l].0 * kv_shapes[l].1) as nat)
}

/// Computes the row widths of the key and value caches.
fn kv_dims(kv_shapes: &Vec<(usize, usize)>) -> (dims: Vec<usize>)
    requires
        forall|l: int|
            0 <= l < kv_shapes@.len() ==> (#[trigger] kv_shapes@[l]).0 * kv_shapes@[l].1
                <= usize::MAX,
    ensures
        dims@ == kv_dims_of(kv_shapes@),
{
    let mut dims: Vec<usize> = Vec::with_capacity(kv_shapes.len());
    for l in 0..kv_shapes.len()
        invariant
            dims@ == kv_dims_of(kv_shapes@).take(l as int),
            forall|l: int|
                0 <= l < kv_shapes@.len() ==> (#[trigger] kv_shapes@[l]).0 * kv_shapes@[l].1
                    <= usize::MAX,
    {
        assert(kv_shapes@[l as int].0 * kv_shapes@[l as int].1 <= usize::MAX);
        dims.push(kv_shapes[l].0 * kv_shapes[l].1);
    }
    dims
}

/// Zeroed matrices of `tokens` rows, one per layer.
fn zeroed(tokens: usize, widths: &Vec<usize>) -> (ms: Vec<Matrix>)
    requires
        forall|l: int|
            0 <= l < widths@.len() ==> shape_fits(tokens as nat, #[trigger] widths@[l] as nat),
    ensures
        ms@.len() == widths@.len(),
        forall|l: int|
            0 <= l < widths@.len() ==> (#[trigger] ms@[l]).rows() == zero_rows(
                tokens as nat,
                widths@[l] as nat,
            ) && ms@[l].cols() == widths@[l],
{
    let mut ms: Vec<Matrix> = Vec::with_capacity(widths.len());
    for l in 0..widths.len()
        invariant
            forall|l: int|
                0 <= l < widths@.len() ==> shape_fits(tokens as nat, #[trigger] widths@[l] as nat),
            ms@.len() == l,
            forall|m: int|
                0 <= m < l ==> (#[trigger] ms@[m]).rows() == zero_rows(
                    tokens as nat,
                    widths@[m] as nat,
                ) && ms@[m].cols() == widths@[m],
    {
        ms.push(Matrix::zeros(tokens, widths[l]));
    }
    ms
}

/// Copies the rows of one token into row `pos` of the state, layer by layer,
/// and stops at the first layer whose rows have the wrong width. Returns
/// whether every layer was copied.
fn capture_token(
    state: &mut PerLayerDecodeState,
    pos: usize,
    hidden_size: usize,
    kv_dims: &Vec<usize>,
    dump: &DecodeStateDump,
) -> (done: bool)
    requires
        exists|tokens: nat|
            pos < tokens && #[trigger] buffers_shaped(*old(state), tokens, hidden_size, kv_dims@),
        dump.covers(kv_dims@.len()),
    ensures
        forall|tokens: nat|
            buffers_shaped(*old(state), tokens, hidden_size, kv_dims@) ==> #[trigger] buffers_shaped(
                *final(state),
                tokens,
                hidden_size,
                kv_dims@,
            ),
        done == forall|l: int|
            0 <= l < kv_dims@.len() ==> #[trigger] layer_fits(*dump, hidden_size, kv_dims@, l),
        forall|kind: Captured, l: int|
            0 <= l < kv_dims@.len() ==> (#[trigger] state_part(*final(state), kind)[l]).rows()
                == if forall|m: int|
                0 <= m <= l ==> #[trigger] layer_fits(*dump, hidden_size, kv_dims@, m) {
                state_part(*old(state), kind)[l].rows().update(
                    pos as int,
                    dump_row(*dump, kind, l),
                )
            } else {
                state_part(*old(state), kind)[l].rows()
            },
{
    let ghost tokens = choose|tokens: nat|
        pos < tokens && #[trigger] buffers_shaped(*old(state), tokens, hidden_size, kv_dims@);
    for layer in 0..kv_dims.len()
        invariant
            pos < tokens,
            buffers_shaped(*old(state), tokens, hidden_size, kv_dims@),
            buffers_shaped(*state, tokens, hidden_size, kv_dims@),
            dump.covers(kv_dims@.len()),
            forall|l: int|
                0 <= l < layer ==> #[trigger] layer_fits(*dump, hidden_size, kv_dims@, l),
            forall|kind: Captured, l: int|
                0 <= l < kv_dims@.len() ==> (#[trigger] state_part(*state, kind)[l]).rows() == if l
                    < layer {
                    state_part(*old(state), kind)[l].rows().update(
                        pos as int,
                        dump_row(*dump, kind, l),
                    )
                } else {
                    state_part(*old(state), kind)[l].rows()
                },
    {
        let h_row: &Vec<u32> = &dump.h_in_per_layer[layer];
        let k_row: &Vec<u32> = &dump.k_new_per_layer[layer];
        let v_row: &Vec<u32> = &dump.v_new_per_layer[layer];
        let width: usize = kv_dims[layer];
        if h_row.len() != hidden_size || k_row.len() != width || v_row.len() != width {
            assert(!layer_fits(*dump, hidden_size, kv_dims@, layer as int));
            return false;
        }
        let ghost before: PerLayerDecodeState = *state;
        assert(state_part(before, Captured::HiddenIn)[layer as int].rows().len() == tokens);
        assert(state_part(before, Captured::NewKey)[layer as int].rows().len() == tokens);
        assert(state_part(before, Captured::NewValue)[layer as int].rows().len() == tokens);
        state.h_in_per_layer[layer].set_row(pos, h_row);
        state.k_new_per_layer[layer].set_row(pos, k_row);
        state.v_new_per_layer[layer].set_row(pos, v_row);
        proof {
            assert forall|kind: Captured, l: int| 0 <= l < kv_dims@.len() implies {
                &&& (#[trigger] state_part(*state, kind)[l]).rows() == if l == layer {
                    state_part(before, kind)[l].rows().update(
                        pos as int,
                        dump_row(*dump, kind, l),
                    )
                } else {
                    state_part(before, kind)[l].rows()
                }
                &&& state_part(*state, kind)[l].cols() == state_part(before, kind)[l].cols()
            } by {
                assert(state_part(before, kind)[l].rows().len() == tokens);
                match kind {
                    Captured::HiddenIn => {},
                    Captured::NewKey => {},
                    Captured::NewValue => {},
                }
            }
        }
    }
    true
}

/// Which pass a prefill request leads to.
#[derive(Clone, Copy, PartialEq, Eq, Structural, Debug)]
pub enum PrefillPath {
    /// No pass runs and the request fails.
    Refused,
    /// One fused pass over the whole prompt, without captured state.
    Fused,
    /// One fused decode per prompt token, with captured state.
    Stepwise,
}

/// The pass that a prefill request leads to.
pub open spec fn prefill_path_of(has_index: bool, has_state: bool, tokens: nat) -> PrefillPath {
    if !has_index {
        PrefillPath::Refused
    } else if !has_state {
        PrefillPath::Fused
    } else if tokens == 0 {
        PrefillPath::Refused
    } else {
        PrefillPath::Stepwise
    }
}

/// Whether every kernel call of a prefill succeeded and filled every layer.
pub open spec fn all_steps_fit(
    steps: Seq<Option<TokenStep>>,
    hidden_size: usize,
    kv_dims: Seq<usize>,
) -> bool {
    forall|p: int| 0 <= p < steps.len() ==> step_fits(#[trigger] steps[p], hidden_size, kv_dims)
}

/// The device backend.
pub struct MetalBackend;

impl MetalBackend {
    /// Decides which pass a prefill request leads to.
    pub fn prefill_path(&self, has_index: bool, has_state: bool, token_ids: &[u32]) -> (path:
        PrefillPath)
        ensures
            path == prefill_path_of(has_index, has_state, token_ids@.len()),
    {
        if !has_index {
            PrefillPath::Refused
        } else if !has_state {
            PrefillPath::Fused
        } else if token_ids.len() == 0 {
            PrefillPath::Refused
        } else {
            PrefillPath::Stepwise
        }
    }

    /// Prefill without captured state. `fused` is what the fused prefill pass
    /// returned; without an index that pass is not consulted.
    pub fn coarse_prefill(&self, has_index: bool, fused: Option<Matrix>) -> (out: Option<
        (Matrix, KvHandle),
    >)
        ensures
            out is Some == (has_index && fused is Some),
            out is Some ==> (out->0).0 == fused->0 && (out->0).1 is MetalCoarse,
    {
        if !has_index {
            return None;
        }
        match fused {
            Some(hidden) => Some((hidden, KvHandle::MetalCoarse(MetalCoarseHandle))),
            None => None,
        }
    }

    /// Prefill with captured state. `steps` holds what the fused decode kernel
    /// returned for each prompt token, in order.
    ///
    /// The state ends up with one row per prompt token. The first kernel call
    /// that failed, or the first layer whose rows have the wrong width, ends
    /// the capture: what was copied before it stays, the rest is zero, and the
    /// prefill fails.
    pub fn coarse_prefill_with_state(
        &self,
        has_index: bool,
        token_ids: &[u32],
        hidden_size: usize,
        kv_shapes: &Vec<(usize, usize)>,
        steps: Vec<Option<TokenStep>>,
        state: &mut PerLayerDecodeState,
    ) -> (out: Option<(Matrix, KvHandle)>)
        requires
            has_index && token_ids@.len() > 0 ==> {
                &&& steps@.len() == token_ids@.len()
                &&& prefill_fits(token_ids@.len(), hidden_size, kv_shapes@)
                &&& forall|p: int|
                    0 <= p < steps@.len() && (#[trigger] steps@[p]) is Some
                        ==> steps@[p]->0.dump.covers(kv_shapes@.len())
            },
        ensures
            prefill_path_of(has_index, true, token_ids@.len()) is Refused ==> out is None
                && *final(state) == *old(state),
            prefill_path_of(has_index, true, token_ids@.len()) is Stepwise ==> {
                &&& buffers_shaped(
                    *final(state),
                    token_ids@.len(),
                    hidden_size,
                    kv_dims_of(kv_shapes@),
                )
                &&& forall|kind: Captured, l: int|
                    0 <= l < kv_shapes@.len() ==> (#[trigger] state_part(
                        *final(state),
                        kind,
                    )[l]).rows() == prefill_rows(
                        steps@,
                        hidden_size,
                        kv_dims_of(kv_shapes@),
                        kind,
                        l,
                    )
                &&& out is Some == all_steps_fit(steps@, hidden_size, kv_dims_of(kv_shapes@))
                &&& out is Some ==> (out->0).0 == steps@.last()->0.hidden && (out->0).1 is MetalCoarse
            },
    {
        if !has_index || token_ids.len() == 0 {
            return None;
        }
        let seq_len: usize = token_ids.len();
        let dims: Vec<usize> = kv_dims(kv_shapes);
        let mut h_widths: Vec<usize> = Vec::with_capacity(dims.len());
        for l in 0..dims.len()
            invariant
                h_widths@.len() == l,
                forall|m: int| 0 <= m < l ==> h_widths@[m] == hidden_size,
        {
            h_widths.push(hidden_size);
        }
        proof {
            assert forall|l: int| 0 <= l < dims@.len() implies shape_fits(
                seq_len as nat,
                #[trigger] dims@[l] as nat,
            ) by {
                assert(kv_shapes@[l].0 * kv_shapes@[l].1 <= usize::MAX);
            }
        }
        state.h_in_per_layer = zeroed(seq_len, &h_widths);
        state.k_new_per_layer = zeroed(seq_len, &dims);
        state.v_new_per_layer = zeroed(seq_len, &dims);
        proof {
            assert forall|kind: Captured, l: int| 0 <= l < dims@.len() implies {
                &&& (#[trigger] state_part(*state, kind)[l]).rows().len() == seq_len
                &&& state_part(*state, kind)[l].cols() == row_width(hidden_size, dims@, kind, l)
                &&& state_part(*state, kind)[l].rows() == zero_rows(
                    seq_len as nat,
                    row_width(hidden_size, dims@, kind, l),
                )
            } by {
                match kind {
                    Captured::HiddenIn => {},
                    Captured::NewKey => {},
                    Captured::NewValue => {},
                }
            }
        }
        for pos in 0..seq_len
            invariant
                seq_len == steps@.len(),
                dims@.len() == kv_shapes@.len(),
                forall|p: int|
                    0 <= p < steps@.len() && (#[trigger] steps@[p]) is Some
                        ==> steps@[p]->0.dump.covers(kv_shapes@.len()),
                dims@ == kv_dims_of(kv_shapes@),
                prefill_path_of(has_index, true, token_ids@.len()) is Stepwise,
                seq_len == token_ids@.len(),
                buffers_shaped(*state, seq_len as nat, hidden_size, dims@),
                forall|p: int|
                    0 <= p < pos ==> step_fits(#[trigger] steps@[p], hidden_size, dims@),
                forall|kind: Captured, l: int|
                    0 <= l < dims@.len() ==> (#[trigger] state_part(*state, kind)[l]).rows()
                        == rows_up_to(steps@, hidden_size, dims@, kind, l, pos as int),
        {
            match &steps[pos] {
                None => {
                    proof {
                        assert forall|kind: Captured, l: int| 0 <= l < dims@.len() implies (
                        #[trigger] state_part(*state, kind)[l]).rows() == prefill_rows(
                            steps@,
                            hidden_size,
                            dims@,
                            kind,
                            l,
                        ) by {
                            lemma_stopped_rows(steps@, hidden_size, dims@, kind, l, pos as int);
                        }
                    }
                    return None;
                },
                Some(step) => {
                    let ghost before: PerLayerDecodeState = *state;
                    let done: bool = capture_token(state, pos, hidden_size, &dims, &step.dump);
                    proof {
                        assert(buffers_shaped(*state, seq_len as nat, hidden_size, dims@));
                        if !done {
                            assert forall|kind: Captured, l: int| 0 <= l < dims@.len() implies (
                            #[trigger] state_part(*state, kind)[l]).rows() == prefill_rows(
                                steps@,
                                hidden_size,
                                dims@,
                                kind,
                                l,
                            ) by {
                                assert(state_part(before, kind)[l].rows() == rows_up_to(
                                    steps@,
                                    hidden_size,
                                    dims@,
                                    kind,
                                    l,
                                    pos as int,
                                ));
                                lemma_stopped_rows(steps@, hidden_size, dims@, kind, l, pos as int);
                            }
                        } else {
                            assert forall|kind: Captured, l: int| 0 <= l < dims@.len() implies (
                            #[trigger] state_part(*state, kind)[l]).rows() == rows_up_to(
                                steps@,
                                hidden_size,
                                dims@,
                                kind,
                                l,
                                pos + 1,
                            ) by {
                                assert(state_part(before, kind)[l].rows() == rows_up_to(
                                    steps@,
                                    hidden_size,
                                    dims@,
                                    kind,
                                    l,
                                    pos as int,
                                ));
                                assert(state_part(*state, kind)[l].rows() =~= rows_up_to(
                                    steps@,
                                    hidden_size,
                                    dims@,
                                    kind,
                                    l,
                                    pos + 1,
                                ));
                            }
                        }
                    }
                    if !done {
                        return None;
                    }
                },
            }
        }
        proof {
            assert forall|kind: Captured, l: int| 0 <= l < dims@.len() implies (
            #[trigger] state_part(*state, kind)[l]).rows() == prefill_rows(
                steps@,
                hidden_size,
                dims@,
                kind,
                l,
            ) by {
                assert(rows_up_to(steps@, hidden_size, dims@, kind, l, seq_len as int)
                    =~= prefill_rows(steps@, hidden_size, dims@, kind, l));
            }
        }
        let mut rest: Vec<Option<TokenStep>> = steps;
        match rest.pop() {
            Some(Some(step)) => Some(
                (step.hidden, KvHandle::MetalCoarse(MetalCoarseHandle)),
            ),
            _ => None,
        }
    }
}

/// Whether the rows of layer `l` turn into one-row matrices: the hidden row has
/// the hidden width, and the value row is as wide as the key row.
pub open spec fn layer_unflattens(dump: DecodeStateDump, hidden_size: usize, l: int) -> bool {
    forall|kind: Captured| #[trigger] row_unflattens(dump, hidden_size, kind, l)
}

/// Whether one row of layer `l` turns into a one-row matrix.
pub open spec fn row_unflattens(
    dump: DecodeStateDump,
    hidden_size: usize,
    kind: Captured,
    l: int,
) -> bool {
    match kind {
        Captured::HiddenIn => shape_takes(
            1,
            hidden_size as nat,
            dump.h_in_per_layer@[l]@.len(),
        ),
        Captured::NewKey => shape_takes(
            1,
            dump.k_new_per_layer@[l]@.len(),
            dump.k_new_per_layer@[l]@.len(),
        ),
        Captured::NewValue => shape_takes(
            1,
            dump.k_new_per_layer@[l]@.len(),
            dump.v_new_per_layer@[l]@.len(),
        ),
    }
}

/// How many of the first `n` layers come before the first one that does not
/// turn into matrices.
pub open spec fn leading_layers(dump: DecodeStateDump, hidden_size: usize, n: nat) -> nat
    decreases n,
{
    if n == 0 {
        0
    } else {
        let before = leading_layers(dump, hidden_size, (n - 1) as nat);
        if before == n - 1 && layer_unflattens(dump, hidden_size, n - 1) {
            n
        } else {
            before
        }
    }
}

/// How many matrices of the given kind a decode step adds. The rows of a layer
/// are added in the order hidden, key, value, up to the first that fails.
pub open spec fn rows_added(
    dump: DecodeStateDump,
    hidden_size: usize,
    kind: Captured,
    n: nat,
) -> nat {
    let full = leading_layers(dump, hidden_size, n);
    let reached = match kind {
        Captured::HiddenIn => row_unflattens(dump, hidden_size, Captured::HiddenIn, full as int),
        Captured::NewKey => row_unflattens(dump, hidden_size, Captured::HiddenIn, full as int)
            && row_unflattens(dump, hidden_size, Captured::NewKey, full as int),
        Captured::NewValue => false,
    };
    if full < n && reached {
        full + 1
    } else {
        full
    }
}

/// Whether `after` is `before` with the first `count` rows of the dump added,
/// each as a one-row matrix.
pub open spec fn extends_by_rows(
    before: Seq<Matrix>,
    after: Seq<Matrix>,
    dump: DecodeStateDump,
    kind: Captured,
    count: nat,
) -> bool {
    &&& after.len() == before.len() + count
    &&& after.take(before.len() as int) == before
    &&& forall|j: int|
        0 <= j < count ==> {
            &&& (#[trigger] after[before.len() + j]).rows() == seq![dump_row(dump, kind, j)]
            &&& after[before.len() + j].cols() == dump_row(dump, kind, j).len()
        }
}

proof fn lemma_leading_layers_bound(dump: DecodeStateDump, hidden_size: usize, n: nat)
    ensures
        leading_layers(dump, hidden_size, n) <= n,
    decreases n,
{
    if n > 0 {
        lemma_leading_layers_bound(dump, hidden_size, (n - 1) as nat);
    }
}

/// Once a layer fails, later layers do not count.
proof fn lemma_leading_layers_stop(dump: DecodeStateDump, hidden_size: usize, m: nat, n: nat)
    requires
        m < n,
        leading_layers(dump, hidden_size, m) == m,
        !layer_unflattens(dump, hidden_size, m as int),
    ensures
        leading_layers(dump, hidden_size, n) == m,
    decreases n,
{
    if n > m + 1 {
        lemma_leading_layers_stop(dump, hidden_size, m, (n - 1) as nat);
    }
}

/// Takes row `l` out and leaves an empty row in its place.
fn take_row(rows: &mut Vec<Vec<u32>>, l: usize) -> (row: Vec<u32>)
    requires
        l < old(rows)@.len(),
    ensures
        row@ == old(rows)@[l as int]@,
        final(rows)@.len() == old(rows)@.len(),
        forall|m: int| 0 <= m < old(rows)@.len() && m != l ==> final(rows)@[m] == old(rows)@[m],
{
    let mut row: Vec<u32> = Vec::new();
    std::mem::swap(&mut row, &mut rows[l]);
    row
}

/// The matrix whose only row is the given one, or `None` when the row does not
/// have the given width.
fn one_row(cols: usize, row: Vec<u32>) -> (m: Option<Matrix>)
    ensures
        m is Some == shape_takes(1, cols as nat, row@.len()),
        m is Some ==> m->0.rows() == seq![row@] && m->0.cols() == row@.len(),
{
    let ghost cells: Seq<u32> = row@;
    let m: Option<Matrix> = Matrix::from_shape_vec(1, cols, row);
    proof {
        if m is Some {
            assert(rows_of_flat(cells, 1, cols as nat)[0] =~= cells);
            assert(m->0.rows() =~= seq![cells]);
        }
    }
    m
}

proof fn lemma_extend_push(
    before: Seq<Matrix>,
    after: Seq<Matrix>,
    dump: DecodeStateDump,
    kind: Captured,
    count: nat,
    m: Matrix,
)
    requires
        extends_by_rows(before, after, dump, kind, count),
        m.rows() == seq![dump_row(dump, kind, count as int)],
        m.cols() == dump_row(dump, kind, count as int).len(),
    ensures
        extends_by_rows(before, after.push(m), dump, kind, count + 1),
{
    let grown = after.push(m);
    assert(grown.take(before.len() as int) =~= after.take(before.len() as int));
    assert forall|j: int| 0 <= j < count + 1 implies {
        &&& (#[trigger] grown[before.len() + j]).rows() == seq![dump_row(dump, kind, j)]
        &&& grown[before.len() + j].cols() == dump_row(dump, kind, j).len()
    } by {
        if j < count {
            assert(grown[before.len() + j] == after[before.len() + j]);
        }
    }
}

/// Adds the rows of a dump to the state, layer by layer, each as a one-row
/// matrix, and stops at the first row of the wrong width. Returns whether all
/// rows were added.
fn unflatten_dump(
    num_layers: usize,
    hidden_size: usize,
    dump: DecodeStateDump,
    state: &mut PerLayerDecodeState,
) -> (done: bool)
    requires
        dump.matches_layers(num_layers as nat),
    ensures
        forall|kind: Captured|
            extends_by_rows(
                #[trigger] state_part(*old(state), kind),
                state_part(*final(state), kind),
                dump,
                kind,
                rows_added(dump, hidden_size, kind, num_layers as nat),
            ),
        done == (leading_layers(dump, hidden_size, num_layers as nat) == num_layers),
{
    let mut h_rows: Vec<Vec<u32>> = dump.h_in_per_layer;
    let mut k_rows: Vec<Vec<u32>> = dump.k_new_per_layer;
    let mut v_rows: Vec<Vec<u32>> = dump.v_new_per_layer;
    proof {
        assert forall|kind: Captured| extends_by_rows(
            #[trigger] state_part(*old(state), kind),
            state_part(*state, kind),
            dump,
            kind,
            0,
        ) by {
            assert(state_part(*state, kind).take(state_part(*old(state), kind).len() as int)
                =~= state_part(*old(state), kind));
        }
    }
    for layer in 0..num_layers
        invariant
            dump.matches_layers(num_layers as nat),
            h_rows@.len() == num_layers,
            k_rows@.len() == num_layers,
            v_rows@.len() == num_layers,
            forall|l: int|
                layer <= l < num_layers ==> #[trigger] h_rows@[l] == dump.h_in_per_layer@[l],
            forall|l: int|
                layer <= l < num_layers ==> #[trigger] k_rows@[l] == dump.k_new_per_layer@[l],
            forall|l: int|
                layer <= l < num_layers ==> #[trigger] v_rows@[l] == dump.v_new_per_layer@[l],
            leading_layers(dump, hidden_size, layer as nat) == layer,
            forall|kind: Captured|
                extends_by_rows(
                    #[trigger] state_part(*old(state), kind),
                    state_part(*state, kind),
                    dump,
                    kind,
                    layer as nat,
                ),
    {
        let ghost before: PerLayerDecodeState = *state;
        let ghost at: int = layer as int;
        let h_row: Vec<u32> = take_row(&mut h_rows, layer);
        let k_row: Vec<u32> = take_row(&mut k_rows, layer);
        let v_row: Vec<u32> = take_row(&mut v_rows, layer);
        let kv_dim: usize = k_row.len();
        proof {
            assert(extends_by_rows(
                state_part(*old(state), Captured::HiddenIn),
                before.h_in_per_layer@,
                dump,
                Captured::HiddenIn,
                layer as nat,
            ));
            assert(extends_by_rows(
                state_part(*old(state), Captured::NewKey),
                before.k_new_per_layer@,
                dump,
                Captured::NewKey,
                layer as nat,
            ));
            assert(extends_by_rows(
                state_part(*old(state), Captured::NewValue),
                before.v_new_per_layer@,
                dump,
                Captured::NewValue,
                layer as nat,
            ));
        }
        match one_row(hidden_size, h_row) {
            Some(m) => {
                proof {
                    lemma_extend_push(
                        old(state).h_in_per_layer@,
                        before.h_in_per_layer@,
                        dump,
                        Captured::HiddenIn,
                        layer as nat,
                        m,
                    );
                }
                state.h_in_per_layer.push(m);
            },
            None => {
                proof {
                    assert(!row_unflattens(dump, hidden_size, Captured::HiddenIn, at));
                    lemma_leading_layers_stop(
                        dump,
                        hidden_size,
                        layer as nat,
                        num_layers as nat,
                    );
                }
                return false;
            },
        }
        match one_row(kv_dim, k_row) {
            Some(m) => {
                proof {
                    lemma_extend_push(
                        old(state).k_new_per_layer@,
                        before.k_new_per_layer@,
                        dump,
                        Captured::NewKey,
                        layer as nat,
                        m,
                    );
                }
                state.k_new_per_layer.push(m);
            },
            None => {
                proof {
                    assert(!row_unflattens(dump, hidden_size, Captured::NewKey, at));
                    lemma_leading_layers_stop(
                        dump,
                        hidden_size,
                        layer as nat,
                        num_layers as nat,
                    );
                }
                return false;
            },
        }
        match one_row(kv_dim, v_row) {
            Some(m) => {
                proof {
                    lemma_extend_push(
                        old(state).v_new_per_layer@,
                        before.v_new_per_layer@,
                        dump,
                        Captured::NewValue,
                        layer as nat,
                        m,
                    );
                }
                state.v_new_per_layer.push(m);
            },
            None => {
                proof {
                    assert(!row_unflattens(dump, hidden_size, Captured::NewValue, at));
                    lemma_leading_layers_stop(
                        dump,
                        hidden_size,
                        layer as nat,
                        num_layers as nat,
                    );
                }
                return false;
            },
        }
        proof {
            assert forall|kind: Captured| #[trigger]
                row_unflattens(dump, hidden_size, kind, at) by {
                match kind {
                    Captured::HiddenIn => {},
                    Captured::NewKey => {},
                    Captured::NewValue => {},
                }
            }
            assert(layer_unflattens(dump, hidden_size, at));
        }
    }
    true
}

/// Whether every matrix of a state has one row.
pub open spec fn single_rows(state: PerLayerDecodeState) -> bool {
    forall|kind: Captured, l: int|
        0 <= l < state_part(state, kind).len() ==> (#[trigger] state_part(
            state,
            kind,
        )[l]).rows().len() == 1
}

impl MetalBackend {
    /// One decode step without captured state. `fused` is what the fused
    /// decode pass returned; without an index that pass is not consulted.
    pub fn coarse_decode_step(&self, has_index: bool, fused: Option<Matrix>) -> (out: Option<
        Matrix,
    >)
        ensures
            out is Some == (has_index && fused is Some),
            out is Some ==> out == fused,
    {
        if has_index {
            fused
        } else {
            None
        }
    }

    /// One decode step with captured state. `step` is what the fused decode
    /// kernel returned; without an index the kernel is not consulted.
    ///
    /// Success means that every layer was captured. A dump that does not have
    /// exactly one row per layer fails the step and leaves the state alone.
    /// Otherwise each layer adds one matrix per kind, and the first row of the
    /// wrong width fails the step; what was added before it stays.
    pub fn coarse_decode_step_with_state(
        &self,
        has_index: bool,
        num_layers: usize,
        hidden_size: usize,
        step: Option<TokenStep>,
        state: &mut PerLayerDecodeState,
    ) -> (out: Option<Matrix>)
        ensures
            !has_index || step is None ==> out is None && *final(state) == *old(state),
            has_index && step is Some && !step->0.dump.matches_layers(num_layers as nat) ==> out
                is None && *final(state) == *old(state),
            has_index && step is Some && step->0.dump.matches_layers(num_layers as nat) ==> {
                &&& forall|kind: Captured|
                    extends_by_rows(
                        #[trigger] state_part(*old(state), kind),
                        state_part(*final(state), kind),
                        step->0.dump,
                        kind,
                        rows_added(step->0.dump, hidden_size, kind, num_layers as nat),
                    )
                &&& out is Some == (leading_layers(step->0.dump, hidden_size, num_layers as nat)
                    == num_layers)
                &&& out is Some ==> out == Some(step->0.hidden)
            },
            old(state).complete_for(0) && out is Some ==> final(state).complete_for(
                num_layers as nat,
            ) && single_rows(*final(state)),
    {
        if !has_index {
            return None;
        }
        match step {
            None => None,
            Some(step) => {
                if step.dump.h_in_per_layer.len() != num_layers || step.dump.k_new_per_layer.len()
                    != num_layers || step.dump.v_new_per_layer.len() != num_layers {
                    return None;
                }
                let ghost dump: DecodeStateDump = step.dump;
                if unflatten_dump(num_layers, hidden_size, step.dump, state) {
                    proof {
                        if old(state).complete_for(0) {
                            law_complete_iff_captured(
                                *old(state),
                                *state,
                                dump,
                                hidden_size,
                                num_layers as nat,
                            );
                        }
                    }
                    Some(step.hidden)
                } else {
                    None
                }
            },
        }
    }
}

/// A reader that starts from an empty state can tell a captured step from a
/// failed one: after a step whose dump has one row per layer, the state is
/// complete exactly when every row was turned into a matrix.
pub proof fn law_complete_iff_captured(
    before: PerLayerDecodeState,
    after: PerLayerDecodeState,
    dump: DecodeStateDump,
    hidden_size: usize,
    num_layers: nat,
)
    requires
        before.complete_for(0),
        forall|kind: Captured|
            extends_by_rows(
                #[trigger] state_part(before, kind),
                state_part(after, kind),
                dump,
                kind,
                rows_added(dump, hidden_size, kind, num_layers),
            ),
    ensures
        after.complete_for(num_layers) == (leading_layers(dump, hidden_size, num_layers)
            == num_layers),
        single_rows(after),
{
    lemma_leading_layers_bound(dump, hidden_size, num_layers);
    assert(state_part(before, Captured::HiddenIn).len() == 0);
    assert(state_part(before, Captured::NewKey).len() == 0);
    assert(state_part(before, Captured::NewValue).len() == 0);
    assert forall|kind: Captured, l: int|
        0 <= l < state_part(after, kind).len() implies (#[trigger] state_part(
        after,
        kind,
    )[l]).rows().len() == 1 by {
        let start = state_part(before, kind).len();
        assert(start == 0);
        assert(state_part(after, kind)[start + l].rows() == seq![dump_row(dump, kind, l)]);
    }
}

/// The rows at layer `l` once the first `upto` tokens are captured in full.
spec fn rows_up_to(
    steps: Seq<Option<TokenStep>>,
    hidden_size: usize,
    kv_dims: Seq<usize>,
    kind: Captured,
    l: int,
    upto: int,
) -> Seq<Seq<u32>> {
    Seq::new(
        steps.len(),
        |p: int|
            if p < upto {
                dump_row(steps[p]->0.dump, kind, l)
            } else {
                zero_row(row_width(hidden_size, kv_dims, kind, l))
            },
    )
}

/// A capture that stops at token `pos` leaves the earlier rows, the layers of
/// that token before the first misfit, and zeros.
proof fn lemma_stopped_rows(
    steps: Seq<Option<TokenStep>>,
    hidden_size: usize,
    kv_dims: Seq<usize>,
    kind: Captured,
    l: int,
    pos: int,
)
    requires
        0 <= pos < steps.len(),
        0 <= l < kv_dims.len(),
        forall|p: int| 0 <= p < pos ==> step_fits(#[trigger] steps[p], hidden_size, kv_dims),
        !step_fits(steps[pos], hidden_size, kv_dims),
    ensures
        prefill_rows(steps, hidden_size, kv_dims, kind, l) == if reaches_state(
            steps,
            hidden_size,
            kv_dims,
            pos,
            l,
        ) {
            rows_up_to(steps, hidden_size, kv_dims, kind, l, pos).update(
                pos,
                dump_row(steps[pos]->0.dump, kind, l),
            )
        } else {
            rows_up_to(steps, hidden_size, kv_dims, kind, l, pos)
        },
{
    assert forall|p: int| pos < p < steps.len() implies !reaches_state(
        steps,
        hidden_size,
        kv_dims,
        p,
        l,
    ) by {
        assert(!step_fits(steps[pos], hidden_size, kv_dims));
    }
    assert forall|p: int| 0 <= p < pos implies reaches_state(
        steps,
        hidden_size,
        kv_dims,
        p,
        l,
    ) by {
        assert(step_fits(steps[p], hidden_size, kv_dims));
    }
    let target = if reaches_state(steps, hidden_size, kv_dims, pos, l) {
        rows_up_to(steps, hidden_size, kv_dims, kind, l, pos).update(
            pos,
            dump_row(steps[pos]->0.dump, kind, l),
        )
    } else {
        rows_up_to(steps, hidden_size, kv_dims, kind, l, pos)
    };
    assert(prefill_rows(steps, hidden_size, kv_dims, kind, l) =~= target);
}

} // verus!
