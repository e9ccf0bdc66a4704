//! Single-layer work on the device backend.
//!
//! The device has no single-layer kernels of its own. Its single-layer handles
//! live in host memory, and every operation on them is the host backend's.

use vstd::prelude::*;

use crate::kv::cpu;
use crate::kv::cpu::{CpuBackend, ResidualHandle};
use crate::kv::handle::{KvHandle, SharedKV};
use crate::kv::matrix;
use crate::kv::matrix::Matrix;
use crate::kv::metal::MetalBackend;

verus! {

/// The outcome of work that was started earlier. Host work is done when it is
/// started, so the outcome is already there.
pub struct AttentionHandle {
    pub outcome: Option<Matrix>,
}

/// An upload that was started earlier. Host uploads are done when they are
/// started.
pub struct ResidualUploadHandle {
    pub done: bool,
}

impl AttentionHandle {
    /// The outcome: a hidden state, or `None` where the work failed.
    pub fn wait(self) -> (out: Option<Matrix>)
        ensures
            out == self.outcome,
    {
        self.outcome
    }
}

impl MetalBackend {
    /// A single-layer handle without rows, in host memory.
    pub fn alloc_kv_buffer(&self, layer: usize, max_tokens: usize, kv_dim: usize) -> (h: KvHandle)
        ensures
            cpu::allocated(h, layer, kv_dim),
    {
        CpuBackend.alloc_kv_buffer(layer, max_tokens, kv_dim)
    }

    /// Appends one key row and one value row, in order of arrival.
    pub fn append_kv(
        &self,
        handle: &mut KvHandle,
        k_row: &[u32],
        v_row: &[u32],
        abs_position: usize,
    )
        requires
            cpu::kv_sized(*old(handle)),
            k_row@.len() == old(handle).width(),
            v_row@.len() == old(handle).width(),
            matrix::shape_fits(old(handle).len() + 1, old(handle).width()),
            matrix::shape_fits(cpu::value_rows(*old(handle)) + 1, old(handle).width()),
        ensures
            cpu::appended(*old(handle), k_row@, v_row@, *final(handle)),
    {
        CpuBackend.append_kv(handle, k_row, v_row, abs_position)
    }

    /// Drops all but the last `window_size` key rows, and the value rows that
    /// go with the dropped keys.
    pub fn clip_kv(&self, handle: &mut KvHandle, window_size: usize)
        requires
            (*old(handle)) is Cpu,
            cpu::kv_rows(*old(handle)) matches Some(kv) ==> kv.0.len() > window_size
                ==> kv.1.len() >= kv.0.len(),
        ensures
            cpu::clipped_to(*old(handle), window_size as nat, *final(handle)),
    {
        CpuBackend.clip_kv(handle, window_size)
    }

    /// Copies of the cached keys and values.
    pub fn read_kv_to_host(&self, handle: &KvHandle) -> (out: Option<SharedKV>)
        requires
            handle is Cpu,
        ensures
            cpu::read_of(*handle, out),
    {
        CpuBackend.read_kv_to_host(handle)
    }

    /// Takes in what the attention kernel computed for one token.
    pub fn attention_step(&self, kv: &mut KvHandle, step: Option<(Matrix, SharedKV)>) -> (out:
        Option<Matrix>)
        requires
            (*old(kv)) is Cpu,
        ensures
            cpu::stepped(*old(kv), step, out, *final(kv)),
    {
        CpuBackend.attention_step(kv, step)
    }

    /// An attention step, followed by a clip to the window when the step
    /// succeeded.
    pub fn attention_step_windowed(
        &self,
        kv: &mut KvHandle,
        window: usize,
        step: Option<(Matrix, SharedKV)>,
    ) -> (out: Option<Matrix>)
        requires
            (*old(kv)) is Cpu,
            cpu::step_cuttable(step, window),
        ensures
            cpu::stepped_in_window(*old(kv), window, step, out, *final(kv)),
    {
        CpuBackend.attention_step_windowed(kv, window, step)
    }

    /// Takes in what the attention kernel computed for a prompt.
    pub fn attention_prefill(&self, layer: usize, pass: Option<(Matrix, Matrix, Matrix)>) -> (out:
        Option<(Matrix, KvHandle)>)
        ensures
            cpu::prompt_taken(layer, pass, out),
    {
        CpuBackend.attention_prefill(layer, pass)
    }

    /// A host copy of a residual.
    pub fn upload_boundary_residual(&self, residual: &Matrix) -> (out: Option<ResidualHandle>)
        ensures
            out is Some,
            (out->0)->Cpu_0.flat@ == residual.rows().flatten(),
            (out->0)->Cpu_0.shape.0 == residual.rows().len(),
            (out->0)->Cpu_0.shape.1 == residual.cols(),
    {
        CpuBackend.upload_boundary_residual(residual)
    }

    /// The hidden state of the last position, out of those of all positions.
    pub fn forward_from_layer(&self, h_pre_norm: &Matrix) -> (out: Option<Matrix>)
        requires
            h_pre_norm.rows().len() > 0,
        ensures
            out is Some,
            out->0.rows() == seq![h_pre_norm.rows().last()],
            out->0.cols() == h_pre_norm.cols(),
    {
        CpuBackend.forward_from_layer(h_pre_norm)
    }

    /// [`MetalBackend::attention_step`], with the outcome to be waited for.
    pub fn attention_step_async(
        &self,
        kv: &mut KvHandle,
        step: Option<(Matrix, SharedKV)>,
    ) -> (out: AttentionHandle)
        requires
            (*old(kv)) is Cpu,
        ensures
            cpu::stepped(*old(kv), step, out.outcome, *final(kv)),
    {
        AttentionHandle { outcome: self.attention_step(kv, step) }
    }

    /// [`MetalBackend::attention_step_windowed`], with the outcome to be waited
    /// for.
    pub fn attention_step_windowed_async(
        &self,
        kv: &mut KvHandle,
        window: usize,
        step: Option<(Matrix, SharedKV)>,
    ) -> (out: AttentionHandle)
        requires
            (*old(kv)) is Cpu,
            cpu::step_cuttable(step, window),
        ensures
            cpu::stepped_in_window(*old(kv), window, step, out.outcome, *final(kv)),
    {
        AttentionHandle { outcome: self.attention_step_windowed(kv, window, step) }
    }

    /// [`MetalBackend::attention_prefill`], with the hidden state to be waited
    /// for.
    pub fn attention_prefill_async(&self, layer: usize, pass: (Matrix, Matrix, Matrix)) -> (out: (
        AttentionHandle,
        KvHandle,
    ))
        ensures
            out.0.outcome == Some(pass.0),
            out.1 is Cpu,
            out.1->Cpu_0.layer == layer,
            out.1->Cpu_0.kv_dim == pass.1.cols(),
            out.1->Cpu_0.state == Some((pass.1, pass.2)),
    {
        match self.attention_prefill(layer, Some(pass)) {
            Some((hidden, handle)) => (AttentionHandle { outcome: Some(hidden) }, handle),
            None => vstd::pervasive::unreached(),
        }
    }

    /// [`MetalBackend::upload_boundary_residual`], with the upload to be waited
    /// for.
    pub fn upload_boundary_residual_async(&self, residual: &Matrix) -> (out: (
        ResidualUploadHandle,
        ResidualHandle,
    ))
        ensures
            out.0.done,
            out.1->Cpu_0.flat@ == residual.rows().flatten(),
            out.1->Cpu_0.shape.0 == residual.rows().len(),
            out.1->Cpu_0.shape.1 == residual.cols(),
    {
        match self.upload_boundary_residual(residual) {
            Some(handle) => (ResidualUploadHandle { done: true }, handle),
            None => vstd::pervasive::unreached(),
        }
    }

    /// [`MetalBackend::forward_from_layer`], with the outcome to be waited for.
    pub fn forward_from_layer_async(&self, h_pre_norm: &Matrix) -> (out: AttentionHandle)
        requires
            h_pre_norm.rows().len() > 0,
        ensures
            out.outcome is Some,
            out.outcome->0.rows() == seq![h_pre_norm.rows().last()],
            out.outcome->0.cols() == h_pre_norm.cols(),
    {
        AttentionHandle { outcome: self.forward_from_layer(h_pre_norm) }
    }
}

} // verus!
