//! The host backend.
//!
//! Attention and the forward passes are numeric kernels that run elsewhere;
//! they hand their results in. What happens here is the cache: rows are
//! appended, clipped to a window, replaced and read back.

use vstd::prelude::*;
use vstd::slice::slice_to_vec;

use crate::kv::decode_state::PerLayerDecodeState;
use crate::kv::handle::{CpuKvCache, CpuKvHandle, CpuQ4kCacheHandle, KvHandle, SharedKV};
use crate::kv::matrix::{lemma_fitting_cols, rows_of_flat, shape_fits, Matrix};

verus! {

/// A residual in host memory, cells row by row.
pub struct CpuResidualHandle {
    pub flat: Vec<u32>,
    pub shape: (usize, usize),
}

impl CpuResidualHandle {
    /// Positions and width.
    pub fn shape(&self) -> (s: (usize, usize))
        ensures
            s == self.shape,
    {
        self.shape
    }

    /// The name of the backend that mints this handle.
    pub fn backend_name(&self) -> (s: &'static str)
        ensures
            s@ == "cpu"@,
    {
        "cpu"
    }
}

/// What a decode kernel of the quantised path hands back.
pub struct DecodeRun {
    /// The hidden state, or `None` where the kernel failed.
    pub hidden: Option<Matrix>,
    /// The cache as the kernel left it.
    pub cache: CpuKvCache,
}

/// A residual handle of any backend.
pub enum ResidualHandle {
    Cpu(CpuResidualHandle),
}

/// The host backend.
pub struct CpuBackend;

/// How a decode step of the quantised path runs.
#[derive(Clone, Copy, PartialEq, Eq, Structural, Debug)]
pub enum DecodePath {
    /// No step runs and the request fails.
    Refused,
    /// Matrix-vector products straight off the quantised weights. The only
    /// path that captures per-layer state.
    Direct,
    /// Weights are expanded first. Captures no per-layer state.
    Dequantised,
}

impl DecodePath {
    /// Whether the path fills a per-layer state that is passed along.
    pub open spec fn captures(self) -> bool {
        self is Direct
    }

    /// Whether the path fills a per-layer state that is passed along.
    pub fn captures_state(self) -> (b: bool)
        ensures
            b == self.captures(),
    {
        match self {
            DecodePath::Direct => true,
            _ => false,
        }
    }
}

/// Keys and values of one layer, as rows.
pub type KvRows = (Seq<Seq<u32>>, Seq<Seq<u32>>);

/// What is left of keys and values when at most `window` keys may stay: the
/// last keys, and the values at the same places.
pub open spec fn clipped(kv: Option<KvRows>, window: nat) -> Option<KvRows> {
    match kv {
        Some(kv) if kv.0.len() > window => {
            let start = kv.0.len() - window;
            let end = kv.0.len() as int;
            Some((kv.0.subrange(start, end), kv.1.subrange(start, end)))
        },
        _ => kv,
    }
}

/// The keys and values of a single-layer handle, as rows.
pub open spec fn kv_rows(h: KvHandle) -> Option<KvRows> {
    match h {
        KvHandle::Cpu(h) => match h.state {
            Some(kv) => Some((kv.0.rows(), kv.1.rows())),
            None => None,
        },
        _ => None,
    }
}

/// Whether two handles are single-layer handles for the same layer and width.
pub open spec fn same_layer(a: KvHandle, b: KvHandle) -> bool {
    &&& a is Cpu
    &&& b is Cpu
    &&& a->Cpu_0.layer == b->Cpu_0.layer
    &&& a->Cpu_0.kv_dim == b->Cpu_0.kv_dim
}

/// The widths of the cached keys and values of a single-layer handle.
pub open spec fn kv_cols(h: KvHandle) -> Option<(nat, nat)> {
    match h {
        KvHandle::Cpu(h) => match h.state {
            Some(kv) => Some((kv.0.cols(), kv.1.cols())),
            None => None,
        },
        _ => None,
    }
}

/// The number of cached value rows of a single-layer handle.
pub open spec fn value_rows(h: KvHandle) -> nat {
    match kv_rows(h) {
        Some(kv) => kv.1.len(),
        None => 0,
    }
}

/// Whether a handle is a single-layer handle whose cached matrices are as wide
/// as it says.
pub open spec fn kv_sized(h: KvHandle) -> bool {
    h is Cpu && (kv_cols(h) matches Some(cols) ==> cols == (h.width(), h.width()))
}

/// Whether two handles serve the same layer with the same rows.
pub open spec fn same_cache(a: KvHandle, b: KvHandle) -> bool {
    &&& same_layer(a, b)
    &&& kv_rows(a) == kv_rows(b)
    &&& kv_cols(a) == kv_cols(b)
}

/// Whether a handle is a fresh one for a layer.
pub open spec fn allocated(h: KvHandle, layer: usize, kv_dim: usize) -> bool {
    &&& h is Cpu
    &&& h->Cpu_0.layer == layer
    &&& h->Cpu_0.kv_dim == kv_dim
    &&& h->Cpu_0.state is None
}

/// Whether one key row and one value row were added behind the cached ones.
pub open spec fn appended(
    before: KvHandle,
    k_row: Seq<u32>,
    v_row: Seq<u32>,
    after: KvHandle,
) -> bool {
    &&& same_layer(before, after)
    &&& kv_rows(after) == match kv_rows(before) {
        Some(kv) => Some((kv.0.push(k_row), kv.1.push(v_row))),
        None => Some((seq![k_row], seq![v_row])),
    }
    &&& kv_cols(after) == Some((k_row.len(), v_row.len()))
}

/// Whether all but the last keys of a window, and the values that go with the
/// dropped keys, were dropped.
pub open spec fn clipped_to(before: KvHandle, window: nat, after: KvHandle) -> bool {
    &&& same_layer(before, after)
    &&& kv_rows(after) == clipped(kv_rows(before), window)
    &&& kv_cols(after) == kv_cols(before)
}

/// Whether a copy shows what a single-layer handle holds.
pub open spec fn read_of(h: KvHandle, out: Option<SharedKV>) -> bool {
    match out {
        Some(kv) => {
            &&& kv_rows(h) == Some((kv.0.rows(), kv.1.rows()))
            &&& kv_cols(h) == Some((kv.0.cols(), kv.1.cols()))
        },
        None => kv_rows(h) is None,
    }
}

/// Whether the outcome of an attention step was taken in: the hidden state is
/// handed on and the keys and values replace the cached ones. A failed step
/// leaves the handle as it was.
pub open spec fn stepped(
    before: KvHandle,
    step: Option<(Matrix, SharedKV)>,
    out: Option<Matrix>,
    after: KvHandle,
) -> bool {
    &&& same_layer(before, after)
    &&& match step {
        Some(step) => out == Some(step.0) && after->Cpu_0.state == Some(step.1),
        None => out is None && after == before,
    }
}

/// Whether a window can be cut out of the keys and values of a step.
pub open spec fn step_cuttable(step: Option<(Matrix, SharedKV)>, window: usize) -> bool {
    step matches Some(s) ==> s.1.0.rows().len() > window ==> s.1.1.rows().len()
        >= s.1.0.rows().len()
}

/// Whether the outcome of an attention step was taken in and, where the step
/// succeeded, clipped to a window.
pub open spec fn stepped_in_window(
    before: KvHandle,
    window: usize,
    step: Option<(Matrix, SharedKV)>,
    out: Option<Matrix>,
    after: KvHandle,
) -> bool {
    &&& same_layer(before, after)
    &&& match step {
        Some(step) => {
            &&& out == Some(step.0)
            &&& kv_rows(after) == clipped(
                Some((step.1.0.rows(), step.1.1.rows())),
                window as nat,
            )
            &&& kv_cols(after) == Some((step.1.0.cols(), step.1.1.cols()))
        },
        None => out is None && after == before,
    }
}

/// Whether the outcome of a prompt pass was taken in: the hidden state is handed
/// on, and the keys and values are held by a fresh handle, as wide as the keys.
pub open spec fn prompt_taken(
    layer: usize,
    pass: Option<(Matrix, Matrix, Matrix)>,
    out: Option<(Matrix, KvHandle)>,
) -> bool {
    match pass {
        Some(pass) => {
            &&& out is Some
            &&& (out->0).0 == pass.0
            &&& (out->0).1 is Cpu
            &&& (out->0).1->Cpu_0.layer == layer
            &&& (out->0).1->Cpu_0.kv_dim == pass.1.cols()
            &&& (out->0).1->Cpu_0.state == Some((pass.1, pass.2))
        },
        None => out is None,
    }
}

/// The single-layer handle inside. A handle of another kind must not come here.
pub fn cpu_handle(h: &KvHandle) -> (c: &CpuKvHandle)
    requires
        h is Cpu,
    ensures
        *c == h->Cpu_0,
{
    match h {
        KvHandle::Cpu(c) => c,
        _ => vstd::pervasive::unreached(),
    }
}

/// The single-layer handle inside, for change.
pub fn cpu_handle_mut(h: &mut KvHandle) -> (c: &mut CpuKvHandle)
    requires
        (*old(h)) is Cpu,
    ensures
        *c == (*old(h))->Cpu_0,
        *final(h) == KvHandle::Cpu(*final(c)),
{
    match h {
        KvHandle::Cpu(c) => c,
        _ => vstd::pervasive::unreached(),
    }
}

/// The quantised cache inside, for change.
pub fn cpu_q4k_cache_mut(h: &mut KvHandle) -> (c: &mut CpuQ4kCacheHandle)
    requires
        (*old(h)) is CpuQ4k,
    ensures
        *c == (*old(h))->CpuQ4k_0,
        *final(h) == KvHandle::CpuQ4k(*final(c)),
{
    match h {
        KvHandle::CpuQ4k(c) => c,
        _ => vstd::pervasive::unreached(),
    }
}

/// The host residual inside.
pub fn cpu_residual(r: &ResidualHandle) -> (c: &CpuResidualHandle)
    ensures
        *c == r->Cpu_0,
{
    match r {
        ResidualHandle::Cpu(c) => c,
    }
}

impl CpuBackend {
    /// A single-layer handle without rows. The buffer grows as rows arrive, so
    /// `max_tokens` has no effect.
    pub fn alloc_kv_buffer(&self, layer: usize, max_tokens: usize, kv_dim: usize) -> (h: KvHandle)
        ensures
            allocated(h, layer, kv_dim),
    {
        KvHandle::Cpu(CpuKvHandle::new(layer, kv_dim))
    }

    /// Appends one key row and one value row. Rows are kept in the order in
    /// which they arrive, whatever their absolute position.
    pub fn append_kv(
        &self,
        handle: &mut KvHandle,
        k_row: &[u32],
        v_row: &[u32],
        abs_position: usize,
    )
        requires
            kv_sized(*old(handle)),
            k_row@.len() == old(handle).width(),
            v_row@.len() == old(handle).width(),
            shape_fits(old(handle).len() + 1, old(handle).width()),
            shape_fits(value_rows(*old(handle)) + 1, old(handle).width()),
        ensures
            appended(*old(handle), k_row@, v_row@, *final(handle)),
    {
        let h: &mut CpuKvHandle = cpu_handle_mut(handle);
        proof {
            lemma_fitting_cols(old(handle).len() + 1, old(handle).width());
        }
        let new_k: Option<Matrix> = row_matrix(k_row);
        let new_v: Option<Matrix> = row_matrix(v_row);
        match (new_k, new_v) {
            (Some(new_k), Some(new_v)) => {
                match h.state.take() {
                    Some(kv) => {
                        let mut k: Matrix = kv.0;
                        let mut v: Matrix = kv.1;
                        k.append_rows(&new_k);
                        v.append_rows(&new_v);
                        proof {
                            assert(k.rows() =~= kv.0.rows().push(k_row@));
                            assert(v.rows() =~= kv.1.rows().push(v_row@));
                        }
                        h.state = Some((k, v));
                    },
                    None => {
                        h.state = Some((new_k, new_v));
                    },
                }
            },
            _ => {},
        }
    }

    /// Drops all but the last `window_size` key rows, and the value rows that
    /// go with the dropped keys.
    pub fn clip_kv(&self, handle: &mut KvHandle, window_size: usize)
        requires
            (*old(handle)) is Cpu,
            kv_rows(*old(handle)) matches Some(kv) ==> kv.0.len() > window_size ==> kv.1.len()
                >= kv.0.len(),
        ensures
            clipped_to(*old(handle), window_size as nat, *final(handle)),
    {
        let h: &mut CpuKvHandle = cpu_handle_mut(handle);
        if let Some(kv) = h.state.take() {
            let rows: usize = kv.0.shape().0;
            if rows > window_size {
                let start: usize = rows - window_size;
                h.state = Some((kv.0.rows_between(start, rows), kv.1.rows_between(start, rows)));
            } else {
                h.state = Some(kv);
            }
        }
    }

    /// Copies of the cached keys and values.
    pub fn read_kv_to_host(&self, handle: &KvHandle) -> (out: Option<SharedKV>)
        requires
            handle is Cpu,
        ensures
            read_of(*handle, out),
    {
        let h: &CpuKvHandle = cpu_handle(handle);
        match h.as_shared_kv() {
            Some(kv) => Some((kv.0.duplicate(), kv.1.duplicate())),
            None => None,
        }
    }

    /// Takes in what the attention kernel computed for one token: the hidden
    /// state to hand on, and the keys and values that replace the cached ones.
    /// When the kernel failed, the cache stays as it is.
    pub fn attention_step(&self, kv: &mut KvHandle, step: Option<(Matrix, SharedKV)>) -> (out:
        Option<Matrix>)
        requires
            (*old(kv)) is Cpu,
        ensures
            stepped(*old(kv), step, out, *final(kv)),
    {
        let h: &mut CpuKvHandle = cpu_handle_mut(kv);
        match step {
            Some((hidden, new_kv)) => {
                h.replace_state(new_kv);
                Some(hidden)
            },
            None => None,
        }
    }

    /// An attention step, followed by a clip to the window when the step
    /// succeeded.
    pub fn attention_step_windowed(
        &self,
        kv: &mut KvHandle,
        window: usize,
        step: Option<(Matrix, SharedKV)>,
    ) -> (out: Option<Matrix>)
        requires
            (*old(kv)) is Cpu,
            step_cuttable(step, window),
        ensures
            stepped_in_window(*old(kv), window, step, out, *final(kv)),
    {
        match self.attention_step(kv, step) {
            Some(hidden) => {
                self.clip_kv(kv, window);
                Some(hidden)
            },
            None => None,
        }
    }

    /// Takes in what the attention kernel computed for a prompt: the hidden
    /// state, the keys and the values. Returns the hidden state and a fresh
    /// handle, as wide as the keys are.
    pub fn attention_prefill(&self, layer: usize, pass: Option<(Matrix, Matrix, Matrix)>) -> (out:
        Option<(Matrix, KvHandle)>)
        ensures
            prompt_taken(layer, pass, out),
    {
        match pass {
            Some((hidden, k, v)) => {
                let kv_dim: usize = k.shape().1;
                let mut handle: CpuKvHandle = CpuKvHandle::new(layer, kv_dim);
                handle.replace_state((k, v));
                Some((hidden, KvHandle::Cpu(handle)))
            },
            None => None,
        }
    }

    /// A host copy of a residual.
    pub fn upload_boundary_residual(&self, residual: &Matrix) -> (out: Option<ResidualHandle>)
        ensures
            out is Some,
            (out->0)->Cpu_0.flat@ == residual.rows().flatten(),
            (out->0)->Cpu_0.shape.0 == residual.rows().len(),
            (out->0)->Cpu_0.shape.1 == residual.cols(),
    {
        let shape: (usize, usize) = residual.shape();
        Some(ResidualHandle::Cpu(CpuResidualHandle { flat: residual.to_flat(), shape }))
    }

    /// The hidden state of the last position, out of those of all positions.
    pub fn forward_from_layer(&self, h_pre_norm: &Matrix) -> (out: Option<Matrix>)
        requires
            h_pre_norm.rows().len() > 0,
        ensures
            out is Some,
            out->0.rows() == seq![h_pre_norm.rows().last()],
            out->0.cols() == h_pre_norm.cols(),
    {
        Some(last_row(h_pre_norm))
    }

    /// Whether a prefill of the quantised path runs: there are tokens, there is
    /// an index, and the model supports cached decoding.
    pub fn coarse_prefill_runs(&self, token_ids: &[u32], has_index: bool, supported: bool) -> (b:
        bool)
        ensures
            b == (token_ids@.len() > 0 && has_index && supported),
    {
        token_ids.len() > 0 && has_index && supported
    }

    /// Prefill of the quantised path without per-layer state. `run` is what the
    /// kernel computed, the hidden states of all positions and the cache; it is
    /// not consulted when the prefill does not run.
    pub fn coarse_prefill(
        &self,
        token_ids: &[u32],
        has_index: bool,
        supported: bool,
        run: Option<(Matrix, CpuKvCache)>,
    ) -> (out: Option<(Matrix, KvHandle)>)
        requires
            token_ids@.len() > 0 && has_index && supported ==> run is Some
                && (run->0).0.rows().len() > 0,
        ensures
            out is Some == (token_ids@.len() > 0 && has_index && supported),
            out is Some ==> {
                &&& (out->0).0.rows() == seq![(run->0).0.rows().last()]
                &&& (out->0).0.cols() == (run->0).0.cols()
                &&& (out->0).1 == KvHandle::CpuQ4k(CpuQ4kCacheHandle { cache: (run->0).1 })
            },
    {
        if !self.coarse_prefill_runs(token_ids, has_index, supported) {
            return None;
        }
        match run {
            Some((h_full, cache)) => {
                let hidden: Matrix = last_row(&h_full);
                Some((hidden, KvHandle::CpuQ4k(CpuQ4kCacheHandle { cache })))
            },
            None => None,
        }
    }

    /// Prefill of the quantised path that also captures per-layer state.
    /// `captured` is the state as the kernel left it; a prefill that does not
    /// run leaves the state alone.
    pub fn coarse_prefill_with_state(
        &self,
        token_ids: &[u32],
        has_index: bool,
        supported: bool,
        run: Option<(Matrix, CpuKvCache)>,
        captured: PerLayerDecodeState,
        state: &mut PerLayerDecodeState,
    ) -> (out: Option<(Matrix, KvHandle)>)
        requires
            token_ids@.len() > 0 && has_index && supported ==> run is Some
                && (run->0).0.rows().len() > 0,
        ensures
            out is Some == (token_ids@.len() > 0 && has_index && supported),
            out is Some ==> {
                &&& (out->0).0.rows() == seq![(run->0).0.rows().last()]
                &&& (out->0).0.cols() == (run->0).0.cols()
                &&& (out->0).1 == KvHandle::CpuQ4k(CpuQ4kCacheHandle { cache: (run->0).1 })
            },
            *final(state) == if out is Some {
                captured
            } else {
                *old(state)
            },
    {
        let out: Option<(Matrix, KvHandle)> = self.coarse_prefill(
            token_ids,
            has_index,
            supported,
            run,
        );
        if out.is_some() {
            *state = captured;
        }
        out
    }

    /// Decides how a decode step of the quantised path runs: directly where
    /// the model and the index support that.
    pub fn coarse_decode_path(&self, has_index: bool, direct_supported: bool) -> (path: DecodePath)
        ensures
            path == if !has_index {
                DecodePath::Refused
            } else if direct_supported {
                DecodePath::Direct
            } else {
                DecodePath::Dequantised
            },
    {
        if !has_index {
            DecodePath::Refused
        } else if direct_supported {
            DecodePath::Direct
        } else {
            DecodePath::Dequantised
        }
    }

    /// A decode step of the quantised path. `run` is what the kernel of the
    /// chosen path did; it is not consulted when the step is refused.
    pub fn coarse_decode_step(
        &self,
        path: DecodePath,
        handle: &mut KvHandle,
        run: Option<DecodeRun>,
    ) -> (out: Option<Matrix>)
        requires
            path !is Refused ==> (*old(handle)) is CpuQ4k && run is Some,
        ensures
            path is Refused ==> out is None && *final(handle) == *old(handle),
            path !is Refused ==> {
                &&& out == (run->0).hidden
                &&& *final(handle) == KvHandle::CpuQ4k(
                    CpuQ4kCacheHandle { cache: (run->0).cache },
                )
            },
    {
        match (path, run) {
            (DecodePath::Refused, _) => None,
            (_, Some(run)) => {
                let inner: &mut CpuQ4kCacheHandle = cpu_q4k_cache_mut(handle);
                inner.cache = run.cache;
                run.hidden
            },
            (_, None) => None,
        }
    }

    /// A decode step of the quantised path that also captures per-layer state.
    /// `captured` is the state as the kernel of the direct path left it; the
    /// other paths leave the state alone.
    pub fn coarse_decode_step_with_state(
        &self,
        path: DecodePath,
        handle: &mut KvHandle,
        run: Option<DecodeRun>,
        captured: PerLayerDecodeState,
        state: &mut PerLayerDecodeState,
    ) -> (out: Option<Matrix>)
        requires
            path !is Refused ==> (*old(handle)) is CpuQ4k && run is Some,
        ensures
            path is Refused ==> out is None && *final(handle) == *old(handle),
            path !is Refused ==> {
                &&& out == (run->0).hidden
                &&& *final(handle) == KvHandle::CpuQ4k(
                    CpuQ4kCacheHandle { cache: (run->0).cache },
                )
            },
            *final(state) == if path.captures() {
                captured
            } else {
                *old(state)
            },
    {
        if path.captures_state() {
            *state = captured;
        }
        self.coarse_decode_step(path, handle, run)
    }
}

/// The matrix whose only row is the given one.
fn row_matrix(row: &[u32]) -> (m: Option<Matrix>)
    ensures
        row@.len() <= isize::MAX ==> m is Some,
        m is Some ==> m->0.rows() == seq![row@] && m->0.cols() == row@.len(),
{
    let m: Option<Matrix> = Matrix::from_shape_vec(1, row.len(), slice_to_vec(row));
    proof {
        if m is Some {
            assert(rows_of_flat(row@, 1, row@.len())[0] =~= row@);
            assert(m->0.rows() =~= seq![row@]);
        }
    }
    m
}

/// The matrix whose only row is the last one of the given matrix.
fn last_row(m: &Matrix) -> (r: Matrix)
    requires
        m.rows().len() > 0,
    ensures
        r.rows() == seq![m.rows().last()],
        r.cols() == m.cols(),
{
    let n: usize = m.shape().0;
    let r: Matrix = m.rows_between(n - 1, n);
    assert(r.rows() =~= seq![m.rows().last()]);
    r
}

/// Reading after an append gives what reading before it gave, with the two rows
/// added last. The length grows by one and the width stays.
pub proof fn law_read_after_append(
    before: KvHandle,
    k_row: Seq<u32>,
    v_row: Seq<u32>,
    after: KvHandle,
    was: Option<SharedKV>,
    is_now: Option<SharedKV>,
)
    requires
        appended(before, k_row, v_row, after),
        read_of(before, was),
        read_of(after, is_now),
    ensures
        is_now is Some,
        (is_now->0).0.rows() == if was is Some {
            (was->0).0.rows().push(k_row)
        } else {
            seq![k_row]
        },
        (is_now->0).1.rows() == if was is Some {
            (was->0).1.rows().push(v_row)
        } else {
            seq![v_row]
        },
        after.len() == before.len() + 1,
        after.width() == before.width(),
{
}

/// What is appended to handles that hold the same ends up in handles that hold
/// the same.
pub proof fn law_append_keeps_caches_same(
    a: KvHandle,
    b: KvHandle,
    k_row: Seq<u32>,
    v_row: Seq<u32>,
    a2: KvHandle,
    b2: KvHandle,
)
    requires
        same_cache(a, b),
        appended(a, k_row, v_row, a2),
        appended(b, k_row, v_row, b2),
    ensures
        same_cache(a2, b2),
        a2.len() == b2.len(),
        a2.width() == b2.width(),
{
}

/// Handles that hold the same hold the same after the same clip.
pub proof fn law_clip_keeps_caches_same(
    a: KvHandle,
    b: KvHandle,
    window: nat,
    a2: KvHandle,
    b2: KvHandle,
)
    requires
        same_cache(a, b),
        clipped_to(a, window, a2),
        clipped_to(b, window, b2),
    ensures
        same_cache(a2, b2),
        a2.len() == b2.len(),
{
}

/// Handles that hold the same hold the same after the same step, and the same
/// hidden state is handed on.
pub proof fn law_step_keeps_caches_same(
    a: KvHandle,
    b: KvHandle,
    step: Option<(Matrix, SharedKV)>,
    out_a: Option<Matrix>,
    out_b: Option<Matrix>,
    a2: KvHandle,
    b2: KvHandle,
)
    requires
        same_cache(a, b),
        stepped(a, step, out_a, a2),
        stepped(b, step, out_b, b2),
    ensures
        same_cache(a2, b2),
        out_a == out_b,
{
}

} // verus!
