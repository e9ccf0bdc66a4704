//! Handles to cached keys and values.
//!
//! A handle is minted by one backend and must come back to the same backend.
//! [`CpuKvHandle`] holds a single layer; [`CpuQ4kCacheHandle`] holds every
//! layer of the quantised decode path; [`MetalCoarseHandle`] holds nothing,
//! because the device keeps that cache itself.

use vstd::prelude::*;

use crate::kv::matrix::Matrix;

verus! {

/// The keys and the values of one layer, one row per cached token.
pub type SharedKV = (Matrix, Matrix);

/// The keys and values of all layers; `None` where a layer has none yet.
pub type CpuKvCache = Vec<Option<SharedKV>>;

/// Single-layer cache in host memory.
pub struct CpuKvHandle {
    /// The layer that this handle was minted for.
    pub layer: usize,
    /// The width of a key row and of a value row.
    pub kv_dim: usize,
    /// `None` before the first row arrives.
    pub state: Option<SharedKV>,
}

/// Cache of all layers for the quantised decode path: one handle per engine.
pub struct CpuQ4kCacheHandle {
    pub cache: CpuKvCache,
}

/// Sentinel for a cache that lives on the device.
pub struct MetalCoarseHandle;

/// A cache handle of any backend.
pub enum KvHandle {
    Cpu(CpuKvHandle),
    CpuQ4k(CpuQ4kCacheHandle),
    MetalCoarse(MetalCoarseHandle),
}

/// The keys and values of the first layer that has some.
pub open spec fn first_layer(cache: Seq<Option<SharedKV>>) -> Option<SharedKV>
    decreases cache.len(),
{
    if cache.len() == 0 {
        None
    } else if cache[0] is Some {
        cache[0]
    } else {
        first_layer(cache.drop_first())
    }
}

/// The number of key rows, none where nothing is cached.
pub open spec fn key_rows(kv: Option<SharedKV>) -> nat {
    match kv {
        Some(kv) => kv.0.rows().len(),
        None => 0,
    }
}

/// The width of the key rows, zero where nothing is cached.
pub open spec fn key_cols(kv: Option<SharedKV>) -> nat {
    match kv {
        Some(kv) => kv.0.cols(),
        None => 0,
    }
}

impl CpuKvHandle {
    /// A handle without rows.
    pub fn new(layer: usize, kv_dim: usize) -> (h: Self)
        ensures
            h.layer == layer,
            h.kv_dim == kv_dim,
            h.state is None,
    {
        CpuKvHandle { layer, kv_dim, state: None }
    }

    /// Replaces everything that is cached.
    pub fn replace_state(&mut self, kv: SharedKV)
        ensures
            final(self).state == Some(kv),
            final(self).layer == old(self).layer,
            final(self).kv_dim == old(self).kv_dim,
    {
        self.state = Some(kv);
    }

    /// What is cached.
    pub fn as_shared_kv(&self) -> (kv: Option<&SharedKV>)
        ensures
            kv is Some == self.state is Some,
            kv is Some ==> *kv->0 == self.state->0,
    {
        self.state.as_ref()
    }

    /// The number of cached tokens.
    pub fn cached_len(&self) -> (n: usize)
        ensures
            n == key_rows(self.state),
    {
        match &self.state {
            Some(kv) => kv.0.shape().0,
            None => 0,
        }
    }

    /// The width of a row.
    pub fn kv_dim(&self) -> (n: usize)
        ensures
            n == self.kv_dim,
    {
        self.kv_dim
    }

    /// The name of the backend that mints this handle.
    pub fn backend_name(&self) -> (s: &'static str)
        ensures
            s@ == "cpu"@,
    {
        "cpu"
    }
}

impl CpuQ4kCacheHandle {
    /// The shape of the first layer that has keys, or zeros.
    fn first_shape(&self) -> (s: (usize, usize))
        ensures
            s.0 == key_rows(first_layer(self.cache@)),
            s.1 == key_cols(first_layer(self.cache@)),
    {
        assert(self.cache@.skip(0) =~= self.cache@);
        for i in 0..self.cache.len()
            invariant
                first_layer(self.cache@) == first_layer(self.cache@.skip(i as int)),
        {
            if let Some(kv) = &self.cache[i] {
                return kv.0.shape();
            }
            assert(self.cache@.skip(i as int).drop_first() =~= self.cache@.skip(i + 1));
        }
        (0, 0)
    }

    /// The number of cached tokens, read off the first layer that has keys.
    pub fn cached_len(&self) -> (n: usize)
        ensures
            n == key_rows(first_layer(self.cache@)),
    {
        self.first_shape().0
    }

    /// The width of a row, read off the first layer that has keys.
    pub fn kv_dim(&self) -> (n: usize)
        ensures
            n == key_cols(first_layer(self.cache@)),
    {
        self.first_shape().1
    }

    /// The name of the backend path that mints this handle.
    pub fn backend_name(&self) -> (s: &'static str)
        ensures
            s@ == "cpu-q4k"@,
    {
        "cpu-q4k"
    }
}

impl MetalCoarseHandle {
    /// Always zero: the device knows the length, the handle does not.
    pub fn cached_len(&self) -> (n: usize)
        ensures
            n == 0,
    {
        0
    }

    /// Always zero: the device knows the width, the handle does not.
    pub fn kv_dim(&self) -> (n: usize)
        ensures
            n == 0,
    {
        0
    }

    /// The name of the backend path that mints this handle.
    pub fn backend_name(&self) -> (s: &'static str)
        ensures
            s@ == "metal-coarse"@,
    {
        "metal-coarse"
    }
}

impl KvHandle {
    /// The number of cached tokens that the handle shows.
    pub open spec fn len(&self) -> nat {
        match self {
            KvHandle::Cpu(h) => key_rows(h.state),
            KvHandle::CpuQ4k(h) => key_rows(first_layer(h.cache@)),
            KvHandle::MetalCoarse(_) => 0,
        }
    }

    /// The row width that the handle shows.
    pub open spec fn width(&self) -> nat {
        match self {
            KvHandle::Cpu(h) => h.kv_dim as nat,
            KvHandle::CpuQ4k(h) => key_cols(first_layer(h.cache@)),
            KvHandle::MetalCoarse(_) => 0,
        }
    }

    /// The name of the backend that minted the handle.
    pub open spec fn minted_by(&self) -> Seq<char> {
        match self {
            KvHandle::Cpu(_) => "cpu"@,
            KvHandle::CpuQ4k(_) => "cpu-q4k"@,
            KvHandle::MetalCoarse(_) => "metal-coarse"@,
        }
    }

    /// The number of cached tokens that the handle shows.
    pub fn cached_len(&self) -> (n: usize)
        ensures
            n == self.len(),
    {
        match self {
            KvHandle::Cpu(h) => h.cached_len(),
            KvHandle::CpuQ4k(h) => h.cached_len(),
            KvHandle::MetalCoarse(h) => h.cached_len(),
        }
    }

    /// The row width that the handle shows.
    pub fn kv_dim(&self) -> (n: usize)
        ensures
            n == self.width(),
    {
        match self {
            KvHandle::Cpu(h) => h.kv_dim(),
            KvHandle::CpuQ4k(h) => h.kv_dim(),
            KvHandle::MetalCoarse(h) => h.kv_dim(),
        }
    }

    /// The name of the backend that minted the handle.
    pub fn backend_name(&self) -> (s: &'static str)
        ensures
            s@ == self.minted_by(),
    {
        match self {
            KvHandle::Cpu(h) => h.backend_name(),
            KvHandle::CpuQ4k(h) => h.backend_name(),
            KvHandle::MetalCoarse(h) => h.backend_name(),
        }
    }
}

} // verus!
