//! What a decode pass leaves behind, layer by layer.

use vstd::prelude::*;

use crate::kv::matrix::Matrix;

verus! {

/// Per-layer state of one decode or prefill pass, as engines see it.
#[derive(Debug)]
pub struct PerLayerDecodeState {
    /// The residual that enters the attention block of each layer.
    pub h_in_per_layer: Vec<Matrix>,
    /// The new key rows of each layer.
    pub k_new_per_layer: Vec<Matrix>,
    /// The new value rows of each layer.
    pub v_new_per_layer: Vec<Matrix>,
}

/// Per-layer state of one decoded token, as the kernels hand it out: one flat
/// row per layer.
pub struct DecodeStateDump {
    pub h_in_per_layer: Vec<Vec<u32>>,
    pub k_new_per_layer: Vec<Vec<u32>>,
    pub v_new_per_layer: Vec<Vec<u32>>,
}

/// Whether two lists hold matrices with the same contents.
pub open spec fn same_matrices(a: Seq<Matrix>, b: Seq<Matrix>) -> bool {
    &&& a.len() == b.len()
    &&& forall|i: int|
        0 <= i < a.len() ==> (#[trigger] a[i]).rows() == b[i].rows() && a[i].cols()
            == b[i].cols()
}

/// Copies of matrices.
fn copies(ms: &Vec<Matrix>) -> (cs: Vec<Matrix>)
    ensures
        same_matrices(cs@, ms@),
{
    let mut cs: Vec<Matrix> = Vec::with_capacity(ms.len());
    for i in 0..ms.len()
        invariant
            cs@.len() == i,
            forall|k: int|
                0 <= k < i ==> (#[trigger] cs@[k]).rows() == ms@[k].rows() && cs@[k].cols()
                    == ms@[k].cols(),
    {
        cs.push(ms[i].duplicate());
    }
    cs
}

impl Default for PerLayerDecodeState {
    /// An empty state.
    fn default() -> (s: Self)
        ensures
            s.complete_for(0),
    {
        PerLayerDecodeState::with_capacity(0)
    }
}

impl Clone for PerLayerDecodeState {
    fn clone(&self) -> (s: Self)
        ensures
            same_matrices(s.h_in_per_layer@, self.h_in_per_layer@),
            same_matrices(s.k_new_per_layer@, self.k_new_per_layer@),
            same_matrices(s.v_new_per_layer@, self.v_new_per_layer@),
    {
        PerLayerDecodeState {
            h_in_per_layer: copies(&self.h_in_per_layer),
            k_new_per_layer: copies(&self.k_new_per_layer),
            v_new_per_layer: copies(&self.v_new_per_layer),
        }
    }
}

impl PerLayerDecodeState {
    /// Whether every vector has one entry per layer.
    pub open spec fn complete_for(&self, num_layers: nat) -> bool {
        &&& self.h_in_per_layer@.len() == num_layers
        &&& self.k_new_per_layer@.len() == num_layers
        &&& self.v_new_per_layer@.len() == num_layers
    }

    /// An empty state with room for `num_layers` layers.
    pub fn with_capacity(num_layers: usize) -> (s: Self)
        ensures
            s.complete_for(0),
    {
        PerLayerDecodeState {
            h_in_per_layer: Vec::with_capacity(num_layers),
            k_new_per_layer: Vec::with_capacity(num_layers),
            v_new_per_layer: Vec::with_capacity(num_layers),
        }
    }

    /// Whether the state was populated for every layer.
    pub fn is_complete_for(&self, num_layers: usize) -> (b: bool)
        ensures
            b == self.complete_for(num_layers as nat),
    {
        self.h_in_per_layer.len() == num_layers && self.k_new_per_layer.len() == num_layers
            && self.v_new_per_layer.len() == num_layers
    }

    /// Drops all entries and keeps the room.
    pub fn reset(&mut self)
        ensures
            final(self).complete_for(0),
    {
        self.h_in_per_layer.clear();
        self.k_new_per_layer.clear();
        self.v_new_per_layer.clear();
    }
}

impl DecodeStateDump {
    /// Whether every vector has at least one entry per layer.
    pub open spec fn covers(&self, num_layers: nat) -> bool {
        &&& self.h_in_per_layer@.len() >= num_layers
        &&& self.k_new_per_layer@.len() >= num_layers
        &&& self.v_new_per_layer@.len() >= num_layers
    }

    /// Whether every vector has exactly one entry per layer.
    pub open spec fn matches_layers(&self, num_layers: nat) -> bool {
        &&& self.h_in_per_layer@.len() == num_layers
        &&& self.k_new_per_layer@.len() == num_layers
        &&& self.v_new_per_layer@.len() == num_layers
    }
}

} // verus!
