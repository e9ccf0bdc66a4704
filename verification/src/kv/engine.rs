//! The production cache engine: one single-layer handle per layer, optionally
//! clipped to a sliding window.
//!
//! The numeric passes run elsewhere and hand in the hidden state together with
//! the keys and values of each layer. The engine keeps the handles, the window
//! and the position of the next token.

use vstd::prelude::*;
use vstd::string::*;

use crate::kv::cpu;
use crate::kv::cpu::{CpuBackend, KvRows};
use crate::kv::handle::{KvHandle, SharedKV};
use crate::kv::matrix::Matrix;
use crate::text;

verus! {

/// A backend that finishes work before it returns.
pub struct EngineBackend {
    pub name: String,
}

/// A backend whose work is waited for.
pub struct AsyncComputeBackend {
    pub name: String,
}

/// The backend that an engine drives.
pub enum BackendSlot {
    Sync(EngineBackend),
    Async(AsyncComputeBackend),
}

/// The host backend, as an engine backend.
pub fn cpu_engine_backend() -> (b: EngineBackend)
    ensures
        b.name@ == "cpu (BLAS + C Q4 kernel)"@,
{
    EngineBackend { name: "cpu (BLAS + C Q4 kernel)".to_string() }
}

/// The host backend, as a backend whose work is waited for.
pub fn cpu_async_backend() -> (b: AsyncComputeBackend)
    ensures
        b.name@ == "cpu (BLAS + C Q4 kernel)"@,
{
    AsyncComputeBackend { name: "cpu (BLAS + C Q4 kernel)".to_string() }
}

impl BackendSlot {
    /// The name of the backend, whichever way it is driven.
    pub open spec fn label(&self) -> Seq<char> {
        match self {
            BackendSlot::Sync(b) => b.name@,
            BackendSlot::Async(b) => b.name@,
        }
    }

    /// The name of the backend.
    pub fn name(&self) -> (s: &String)
        ensures
            s@ == self.label(),
    {
        match self {
            BackendSlot::Sync(b) => &b.name,
            BackendSlot::Async(b) => &b.name,
        }
    }
}

/// What an engine says of itself.
pub struct EngineInfo {
    pub name: String,
    pub description: String,
    pub backend: String,
    pub config: String,
}

/// What the prompt pass hands in.
pub struct PrefillPass {
    /// The hidden state after the last layer.
    pub hidden: Matrix,
    /// The keys and values of each layer, one row per prompt token.
    pub layers: Vec<SharedKV>,
}

/// What the pass over one token hands in.
pub struct DecodePass {
    /// The hidden state after the last layer, or `None` where a layer failed.
    pub hidden: Option<Matrix>,
    /// The keys and values of the layers that ran, the new token included.
    pub layers: Vec<SharedKV>,
}

/// The abstract state of an engine.
pub struct EngineView {
    pub window: Option<usize>,
    /// One handle per layer once a prompt is in.
    pub handles: Option<Seq<KvHandle>>,
    /// The absolute position of the next token.
    pub position: nat,
    pub backend: Seq<char>,
    /// Whether the work of the backend is waited for.
    pub asynchronous: bool,
}

/// The production cache engine. Without a window the cache grows with every
/// token; with a window it keeps the most recent tokens.
pub struct StandardEngine {
    window_size: Option<usize>,
    handles: Option<Vec<KvHandle>>,
    abs_position: usize,
    backend: BackendSlot,
}

/// The rows that stay cached of the given keys and values.
pub open spec fn kept(kv: SharedKV, window: Option<usize>) -> KvRows {
    match window {
        Some(w) => cpu::clipped(Some((kv.0.rows(), kv.1.rows())), w as nat)->0,
        None => (kv.0.rows(), kv.1.rows()),
    }
}

/// Whether a window can be cut out of the given keys and values.
pub open spec fn cuttable(kv: SharedKV, window: Option<usize>) -> bool {
    window matches Some(w) ==> kv.0.rows().len() > w ==> kv.1.rows().len() >= kv.0.rows().len()
}

/// Whether a handle is the single-layer handle for `layer`, of the given width,
/// and holds what stays of the given keys and values.
pub open spec fn holds(
    h: KvHandle,
    layer: nat,
    width: nat,
    kv: SharedKV,
    window: Option<usize>,
) -> bool {
    &&& h is Cpu
    &&& h->Cpu_0.layer == layer
    &&& h->Cpu_0.kv_dim == width
    &&& cpu::kv_rows(h) == Some(kept(kv, window))
    &&& cpu::kv_cols(h) == Some((kv.0.cols(), kv.1.cols()))
}

/// How a prompt pass changes an engine.
pub open spec fn prefilled(
    before: EngineView,
    tokens: nat,
    pass: Option<PrefillPass>,
    after: EngineView,
) -> bool {
    match pass {
        None => after == before,
        Some(pass) => {
            &&& after.window == before.window
            &&& after.backend == before.backend
            &&& after.asynchronous == before.asynchronous
            &&& after.position == tokens
            &&& after.handles is Some
            &&& after.handles->0.len() == pass.layers@.len()
            &&& forall|i: int|
                0 <= i < pass.layers@.len() ==> holds(
                    #[trigger] after.handles->0[i],
                    i as nat,
                    pass.layers@[i].0.cols(),
                    pass.layers@[i],
                    before.window,
                )
        },
    }
}

/// How the pass over one token changes an engine. The layers that ran are
/// replaced even when a later layer failed; the position moves only on success.
pub open spec fn decoded(before: EngineView, pass: DecodePass, after: EngineView) -> bool {
    match before.handles {
        None => after == before,
        Some(handles) => {
            &&& after.window == before.window
            &&& after.backend == before.backend
            &&& after.asynchronous == before.asynchronous
            &&& after.position == before.position + if pass.hidden is Some {
                1nat
            } else {
                0nat
            }
            &&& after.handles is Some
            &&& after.handles->0.len() == handles.len()
            &&& forall|i: int|
                0 <= i < handles.len() ==> if i < pass.layers@.len() {
                    holds(
                        #[trigger] after.handles->0[i],
                        handles[i]->Cpu_0.layer as nat,
                        handles[i]->Cpu_0.kv_dim as nat,
                        pass.layers@[i],
                        before.window,
                    )
                } else {
                    after.handles->0[i] == handles[i]
                }
        },
    }
}

/// The bytes of the keys and values that the handles show, four per number.
pub open spec fn cache_bytes(handles: Seq<KvHandle>) -> nat
    decreases handles.len(),
{
    if handles.len() == 0 {
        0
    } else {
        cache_bytes(handles.drop_last()) + handles.last().len() * handles.last().width() * 2 * 4
    }
}

/// The tenths of a mebibyte nearest to the given number of bytes; of two that
/// are equally near, the even one.
pub open spec fn tenths_of_mebibyte(bytes: nat) -> nat {
    let whole = bytes * 10 / 1048576;
    let rest = bytes * 10 % 1048576;
    if rest > 524288 || (rest == 524288 && whole % 2 == 1) {
        whole + 1
    } else {
        whole
    }
}

/// A number of mebibytes with one decimal place.
pub open spec fn mebibytes_text(bytes: nat) -> Seq<char> {
    let tenths = tenths_of_mebibyte(bytes);
    text::decimal(tenths / 10) + "."@ + text::decimal(tenths % 10)
}

/// The description of an engine that holds so many bytes.
pub open spec fn description_text(bytes: nat) -> Seq<char> {
    "production K/V tensor cache — full FP32 K/V per layer (mem="@ + mebibytes_text(bytes)
        + "MB)"@
}

/// The configuration text for a window.
pub open spec fn config_text(window: Option<usize>) -> Seq<char> {
    match window {
        Some(w) => "window="@ + text::decimal(w as nat),
        None => "window=full"@,
    }
}

impl EngineView {
    /// Whether every handle is a single-layer handle.
    pub open spec fn single_layer(&self) -> bool {
        self.handles matches Some(hs) ==> forall|i: int|
            0 <= i < hs.len() ==> (#[trigger] hs[i]) is Cpu
    }

    /// The bytes that the cache holds.
    pub open spec fn bytes(&self) -> nat {
        match self.handles {
            Some(hs) => cache_bytes(hs),
            None => 0,
        }
    }

    /// The tokens that the first layer holds.
    pub open spec fn tokens(&self) -> nat {
        match self.handles {
            Some(hs) if hs.len() > 0 => hs[0].len(),
            _ => 0,
        }
    }
}

impl View for StandardEngine {
    type V = EngineView;

    closed spec fn view(&self) -> EngineView {
        EngineView {
            window: self.window_size,
            handles: match self.handles {
                Some(hs) => Some(hs@),
                None => None,
            },
            position: self.abs_position as nat,
            backend: self.backend.label(),
            asynchronous: self.backend is Async,
        }
    }
}

/// Stores the keys and values of the first layers in their handles.
fn store_layers(handles: &mut Vec<KvHandle>, layers: Vec<SharedKV>, window: Option<usize>)
    requires
        layers@.len() <= old(handles)@.len(),
        forall|i: int| 0 <= i < old(handles)@.len() ==> (#[trigger] old(handles)@[i]) is Cpu,
        forall|i: int| 0 <= i < layers@.len() ==> cuttable(#[trigger] layers@[i], window),
    ensures
        final(handles)@.len() == old(handles)@.len(),
        forall|i: int|
            0 <= i < old(handles)@.len() ==> if i < layers@.len() {
                holds(
                    #[trigger] final(handles)@[i],
                    old(handles)@[i]->Cpu_0.layer as nat,
                    old(handles)@[i]->Cpu_0.kv_dim as nat,
                    layers@[i],
                    window,
                )
            } else {
                final(handles)@[i] == old(handles)@[i]
            },
{
    let ghost all: Seq<SharedKV> = layers@;
    let ghost start: Seq<KvHandle> = handles@;
    let mut rest: Vec<SharedKV> = layers;
    while rest.len() > 0
        invariant
            rest@ == all.take(rest@.len() as int),
            rest@.len() <= all.len() <= start.len(),
            handles@.len() == start.len(),
            forall|i: int| 0 <= i < start.len() ==> (#[trigger] start[i]) is Cpu,
            forall|i: int| 0 <= i < all.len() ==> cuttable(#[trigger] all[i], window),
            forall|i: int|
                0 <= i < start.len() ==> if rest@.len() <= i < all.len() {
                    holds(
                        #[trigger] handles@[i],
                        start[i]->Cpu_0.layer as nat,
                        start[i]->Cpu_0.kv_dim as nat,
                        all[i],
                        window,
                    )
                } else {
                    handles@[i] == start[i]
                },
        decreases rest@.len(),
    {
        let i: usize = rest.len() - 1;
        assert(rest@[i as int] == all[i as int]);
        assert(handles@[i as int] == start[i as int]);
        assert(cuttable(all[i as int], window));
        if let Some(kv) = rest.pop() {
            let h: &mut KvHandle = &mut handles[i];
            cpu::cpu_handle_mut(h).replace_state(kv);
            if let Some(w) = window {
                CpuBackend.clip_kv(h, w);
            }
        }
        assert(rest@ =~= all.take(i as int));
    }
}

impl StandardEngine {
    /// An engine on the host backend.
    pub fn new(window_size: Option<usize>) -> (e: Self)
        ensures
            e@.window == window_size,
            e@.handles is None,
            e@.position == 0,
            e@.backend == "cpu (BLAS + C Q4 kernel)"@,
            !e@.asynchronous,
    {
        Self::with_backend(window_size, cpu_engine_backend())
    }

    /// An engine on the given backend.
    pub fn with_backend(window_size: Option<usize>, backend: EngineBackend) -> (e: Self)
        ensures
            e@.window == window_size,
            e@.handles is None,
            e@.position == 0,
            e@.backend == backend.name@,
            !e@.asynchronous,
    {
        StandardEngine {
            window_size,
            handles: None,
            abs_position: 0,
            backend: BackendSlot::Sync(backend),
        }
    }

    /// An engine on a backend whose work is waited for.
    pub fn with_async_backend(window_size: Option<usize>, backend: AsyncComputeBackend) -> (e: Self)
        ensures
            e@.window == window_size,
            e@.handles is None,
            e@.position == 0,
            e@.backend == backend.name@,
            e@.asynchronous,
    {
        StandardEngine {
            window_size,
            handles: None,
            abs_position: 0,
            backend: BackendSlot::Async(backend),
        }
    }

    /// Whether prompt and token passes are dispatched to be waited for.
    pub fn is_async(&self) -> (b: bool)
        ensures
            b == self@.asynchronous,
    {
        match &self.backend {
            BackendSlot::Sync(_) => false,
            BackendSlot::Async(_) => true,
        }
    }

    /// The handles, one per layer, once a prompt is in.
    pub fn handles(&self) -> (hs: Option<&Vec<KvHandle>>)
        ensures
            hs is Some == self@.handles is Some,
            hs is Some ==> hs->0@ == self@.handles->0,
    {
        self.handles.as_ref()
    }

    /// The absolute position of the next token.
    pub fn abs_position(&self) -> (p: usize)
        ensures
            p == self@.position,
    {
        self.abs_position
    }

    /// The window, if there is one.
    pub fn window_size(&self) -> (w: Option<usize>)
        ensures
            w == self@.window,
    {
        self.window_size
    }

    fn cache_memory_bytes(&self) -> (n: usize)
        requires
            self@.bytes() <= usize::MAX,
        ensures
            n == self@.bytes(),
    {
        match &self.handles {
            None => 0,
            Some(handles) => {
                let mut total: usize = 0;
                for i in 0..handles.len()
                    invariant
                        total == cache_bytes(handles@.take(i as int)),
                        cache_bytes(handles@) <= usize::MAX,
                {
                    proof {
                        lemma_cache_bytes_grow(handles@, i + 1);
                        assert(handles@.take(i + 1).drop_last() =~= handles@.take(i as int));
                    }
                    let rows: usize = handles[i].cached_len();
                    let width: usize = handles[i].kv_dim();
                    total = total + rows * width * 2 * 4;
                }
                assert(handles@.take(handles@.len() as int) =~= handles@);
                total
            },
        }
    }

    /// The name of this kind of engine.
    pub fn name(&self) -> (s: &'static str)
        ensures
            s@ == "standard"@,
    {
        "standard"
    }

    /// A description of the engine and its settings.
    pub fn info(&self) -> (info: EngineInfo)
        requires
            self@.bytes() <= usize::MAX,
        ensures
            info.name@ == "standard"@,
            info.description@ == description_text(self@.bytes()),
            info.backend@ == self@.backend,
            info.config@ == config_text(self@.window),
    {
        let config: String = match self.window_size {
            Some(w) => {
                let mut s: String = "window=".to_string();
                text::push_decimal(&mut s, w as u128);
                s
            },
            None => "window=full".to_string(),
        };
        let mem: usize = self.cache_memory_bytes();
        let mut description: String =
            "production K/V tensor cache — full FP32 K/V per layer (mem=".to_string();
        push_mebibytes(&mut description, mem);
        description.append("MB)");
        EngineInfo {
            name: "standard".to_string(),
            description,
            backend: self.backend.name().clone(),
            config,
        }
    }

    /// Takes in a prompt pass and returns its hidden state. A failed pass
    /// leaves the engine as it was.
    pub fn prefill(&mut self, token_ids: &[u32], pass: Option<PrefillPass>) -> (out: Option<Matrix>)
        requires
            pass matches Some(p) ==> forall|i: int|
                0 <= i < p.layers@.len() ==> cuttable(#[trigger] p.layers@[i], old(self)@.window),
        ensures
            prefilled(old(self)@, token_ids@.len(), pass, final(self)@),
            out is Some == pass is Some,
            pass matches Some(p) ==> out == Some(p.hidden),
            old(self)@.single_layer() ==> final(self)@.single_layer(),
    {
        match pass {
            None => None,
            Some(pass) => {
                let mut handles: Vec<KvHandle> = Vec::new();
                for i in 0..pass.layers.len()
                    invariant
                        handles@.len() == i,
                        forall|j: int|
                            0 <= j < i ==> {
                                &&& (#[trigger] handles@[j]) is Cpu
                                &&& handles@[j]->Cpu_0.layer == j
                                &&& handles@[j]->Cpu_0.kv_dim == pass.layers@[j].0.cols()
                            },
                {
                    let width: usize = pass.layers[i].0.shape().1;
                    handles.push(CpuBackend.alloc_kv_buffer(i, 0, width));
                }
                store_layers(&mut handles, pass.layers, self.window_size);
                self.handles = Some(handles);
                self.abs_position = token_ids.len();
                Some(pass.hidden)
            },
        }
    }

    /// Takes in the pass over one token and returns its hidden state, if it has
    /// one. Before a prompt is in, nothing happens.
    pub fn decode_step(&mut self, pass: DecodePass) -> (out: Option<Matrix>)
        requires
            old(self)@.single_layer(),
            old(self)@.handles matches Some(hs) ==> {
                &&& pass.layers@.len() <= hs.len()
                &&& old(self)@.position < usize::MAX
                &&& forall|i: int|
                    0 <= i < pass.layers@.len() ==> cuttable(
                        #[trigger] pass.layers@[i],
                        old(self)@.window,
                    )
            },
        ensures
            decoded(old(self)@, pass, final(self)@),
            out is Some == (old(self)@.handles is Some && pass.hidden is Some),
            out is Some ==> out == pass.hidden,
            final(self)@.single_layer(),
    {
        match self.handles.take() {
            None => None,
            Some(handles) => {
                let mut handles: Vec<KvHandle> = handles;
                store_layers(&mut handles, pass.layers, self.window_size);
                self.handles = Some(handles);
                match pass.hidden {
                    Some(hidden) => {
                        self.abs_position = self.abs_position + 1;
                        Some(hidden)
                    },
                    None => None,
                }
            },
        }
    }

    /// The bytes that the cache holds.
    pub fn memory_bytes(&self) -> (n: usize)
        requires
            self@.bytes() <= usize::MAX,
        ensures
            n == self@.bytes(),
    {
        self.cache_memory_bytes()
    }

    /// The tokens that the first layer holds.
    pub fn window_tokens(&self) -> (n: usize)
        ensures
            n == self@.tokens(),
    {
        match &self.handles {
            Some(handles) => {
                if handles.len() > 0 {
                    handles[0].cached_len()
                } else {
                    0
                }
            },
            None => 0,
        }
    }

    /// The bytes of the cold tier. There is none: what leaves the window is
    /// dropped.
    pub fn cold_bytes(&self) -> (n: usize)
        ensures
            n == 0,
    {
        0
    }
}

proof fn lemma_cache_bytes_grow(handles: Seq<KvHandle>, n: int)
    requires
        0 <= n <= handles.len(),
    ensures
        cache_bytes(handles.take(n)) <= cache_bytes(handles),
    decreases handles.len() - n,
{
    if n < handles.len() {
        lemma_cache_bytes_grow(handles, n + 1);
        assert(handles.take(n + 1).drop_last() =~= handles.take(n));
    } else {
        assert(handles.take(n) =~= handles);
    }
}

/// Appends a number of mebibytes with one decimal place.
fn push_mebibytes(out: &mut String, bytes: usize)
    ensures
        final(out)@ == old(out)@ + mebibytes_text(bytes as nat),
{
    let scaled: u128 = (bytes as u128) * 10;
    let whole: u128 = scaled / 1048576;
    let rest: u128 = scaled % 1048576;
    let tenths: u128 = if rest > 524288 || (rest == 524288 && whole % 2 == 1) {
        whole + 1
    } else {
        whole
    };
    text::push_decimal(out, tenths / 10);
    out.append(".");
    text::push_decimal(out, tenths % 10);
    assert(out@ =~= old(out)@ + mebibytes_text(bytes as nat));
}

/// How many rows stay of `rows` rows under a window.
pub open spec fn within(rows: nat, window: Option<usize>) -> nat {
    match window {
        Some(w) if rows > w => w as nat,
        _ => rows,
    }
}

/// A window keeps the most recent rows and never more than its size. Keys that
/// pair up with values stay paired up.
pub proof fn law_window_keeps_the_latest(kv: SharedKV, window: Option<usize>)
    requires
        kv.0.rows().len() == kv.1.rows().len(),
    ensures
        kept(kv, window).0.len() == within(kv.0.rows().len(), window),
        kept(kv, window).0 == kv.0.rows().skip(
            kv.0.rows().len() - within(kv.0.rows().len(), window),
        ),
        kept(kv, window).1 == kv.1.rows().skip(
            kv.1.rows().len() - within(kv.1.rows().len(), window),
        ),
{
    let n = kv.0.rows().len();
    assert(kept(kv, window).0 =~= kv.0.rows().skip(n - within(n, window)));
    assert(kept(kv, window).1 =~= kv.1.rows().skip(n - within(n, window)));
}

/// After a prompt, the engine shows as many tokens as the prompt has, or as
/// many as the window allows.
pub proof fn law_prompt_fills_the_window(
    before: EngineView,
    tokens: nat,
    pass: PrefillPass,
    after: EngineView,
)
    requires
        prefilled(before, tokens, Some(pass), after),
        pass.layers@.len() > 0,
        pass.layers@[0].0.rows().len() == pass.layers@[0].1.rows().len(),
    ensures
        after.tokens() == within(pass.layers@[0].0.rows().len(), before.window),
{
    assert(holds(
        after.handles->0[0],
        0,
        pass.layers@[0].0.cols(),
        pass.layers@[0],
        before.window,
    ));
    law_window_keeps_the_latest(pass.layers@[0], before.window);
}

/// A decode step adds one token, up to the size of the window.
pub proof fn law_step_adds_one_token(before: EngineView, pass: DecodePass, after: EngineView)
    requires
        decoded(before, pass, after),
        before.handles is Some,
        before.handles->0.len() > 0,
        pass.layers@.len() > 0,
        pass.layers@[0].0.rows().len() == before.tokens() + 1,
        pass.layers@[0].0.rows().len() == pass.layers@[0].1.rows().len(),
    ensures
        after.tokens() == within(before.tokens() + 1, before.window),
{
    let first = before.handles->0[0];
    assert(holds(
        after.handles->0[0],
        first->Cpu_0.layer as nat,
        first->Cpu_0.kv_dim as nat,
        pass.layers@[0],
        before.window,
    ));
    law_window_keeps_the_latest(pass.layers@[0], before.window);
}

/// Whether two engines hold the same rows at the same position under the same
/// window. Which backend they drive, and how, is left out.
pub open spec fn same_contents(a: EngineView, b: EngineView) -> bool {
    &&& a.window == b.window
    &&& a.position == b.position
    &&& a.handles is Some == b.handles is Some
    &&& a.handles is Some ==> {
        &&& a.handles->0.len() == b.handles->0.len()
        &&& forall|i: int|
            0 <= i < a.handles->0.len() ==> cpu::same_cache(
                #[trigger] a.handles->0[i],
                b.handles->0[i],
            )
    }
}

/// Engines with the same contents have the same contents after the same prompt
/// pass, whatever their backends are and however those are driven.
pub proof fn law_prefill_ignores_the_backend(
    a: EngineView,
    b: EngineView,
    tokens: nat,
    pass: Option<PrefillPass>,
    a2: EngineView,
    b2: EngineView,
)
    requires
        same_contents(a, b),
        prefilled(a, tokens, pass, a2),
        prefilled(b, tokens, pass, b2),
    ensures
        same_contents(a2, b2),
{
    if let Some(p) = pass {
        assert forall|i: int| 0 <= i < a2.handles->0.len() implies cpu::same_cache(
            #[trigger] a2.handles->0[i],
            b2.handles->0[i],
        ) by {
            assert(holds(
                b2.handles->0[i],
                i as nat,
                p.layers@[i].0.cols(),
                p.layers@[i],
                b.window,
            ));
        }
    }
}

/// Engines with the same contents have the same contents after the same token
/// pass, whatever their backends are and however those are driven.
pub proof fn law_decode_ignores_the_backend(
    a: EngineView,
    b: EngineView,
    pass: DecodePass,
    a2: EngineView,
    b2: EngineView,
)
    requires
        same_contents(a, b),
        decoded(a, pass, a2),
        decoded(b, pass, b2),
    ensures
        same_contents(a2, b2),
{
    if a.handles is Some {
        assert forall|i: int| 0 <= i < a2.handles->0.len() implies cpu::same_cache(
            #[trigger] a2.handles->0[i],
            b2.handles->0[i],
        ) by {
            let (x, y) = (a.handles->0[i], b.handles->0[i]);
            assert(cpu::same_cache(x, y));
            if i < pass.layers@.len() {
                assert(holds(
                    b2.handles->0[i],
                    y->Cpu_0.layer as nat,
                    y->Cpu_0.kv_dim as nat,
                    pass.layers@[i],
                    b.window,
                ));
            } else {
                assert(b2.handles->0[i] == y);
            }
        }
    }
}

/// The bytes of one more token in every layer.
pub open spec fn token_bytes(handles: Seq<KvHandle>) -> nat
    decreases handles.len(),
{
    if handles.len() == 0 {
        0
    } else {
        token_bytes(handles.drop_last()) + handles.last().width() * 2 * 4
    }
}

proof fn lemma_one_more_row(before: Seq<KvHandle>, after: Seq<KvHandle>)
    requires
        before.len() == after.len(),
        forall|i: int|
            0 <= i < before.len() ==> (#[trigger] after[i]).len() == before[i].len() + 1
                && after[i].width() == before[i].width(),
    ensures
        cache_bytes(after) == cache_bytes(before) + token_bytes(before),
    decreases before.len(),
{
    if before.len() > 0 {
        lemma_one_more_row(before.drop_last(), after.drop_last());
        let n = before.last().len();
        let w = before.last().width();
        assert(after.last().len() == n + 1 && after.last().width() == w);
        assert((n + 1) * w * 2 * 4 == n * w * 2 * 4 + w * 2 * 4) by (nonlinear_arith);
    }
}

/// Without a window, a token pass through all layers makes the cache larger by
/// exactly one row of keys and one row of values per layer.
pub proof fn law_unbounded_cache_grows(before: EngineView, pass: DecodePass, after: EngineView)
    requires
        decoded(before, pass, after),
        before.window is None,
        before.single_layer(),
        before.handles is Some,
        pass.layers@.len() == before.handles->0.len(),
        forall|i: int|
            0 <= i < pass.layers@.len() ==> (#[trigger] pass.layers@[i]).0.rows().len()
                == before.handles->0[i].len() + 1,
    ensures
        after.bytes() == before.bytes() + token_bytes(before.handles->0),
        forall|i: int|
            0 <= i < before.handles->0.len() && (#[trigger] before.handles->0[i]).width() > 0
                ==> after.bytes() > before.bytes(),
{
    let old_handles = before.handles->0;
    let new_handles = after.handles->0;
    assert forall|i: int| 0 <= i < old_handles.len() implies (#[trigger] new_handles[i]).len()
        == old_handles[i].len() + 1 && new_handles[i].width() == old_handles[i].width() by {
        assert(old_handles[i] is Cpu);
        assert(pass.layers@[i].0.rows().len() == old_handles[i].len() + 1);
        assert(holds(
            new_handles[i],
            old_handles[i]->Cpu_0.layer as nat,
            old_handles[i]->Cpu_0.kv_dim as nat,
            pass.layers@[i],
            before.window,
        ));
    }
    lemma_one_more_row(old_handles, new_handles);
    assert forall|i: int|
        0 <= i < old_handles.len() && (#[trigger] old_handles[i]).width() > 0 implies token_bytes(
        old_handles,
    ) > 0 by {
        lemma_token_bytes_positive(old_handles, i);
    }
}

proof fn lemma_token_bytes_positive(handles: Seq<KvHandle>, i: int)
    requires
        0 <= i < handles.len(),
        handles[i].width() > 0,
    ensures
        token_bytes(handles) > 0,
    decreases handles.len(),
{
    if i < handles.len() - 1 {
        lemma_token_bytes_positive(handles.drop_last(), i);
    }
}

/// Whether an engine goes through the given views as it takes in the given
/// token passes.
pub open spec fn run_of(views: Seq<EngineView>, passes: Seq<DecodePass>) -> bool {
    &&& views.len() == passes.len() + 1
    &&& forall|i: int|
        0 <= i < passes.len() ==> decoded(views[i], #[trigger] passes[i], views[i + 1])
}

/// How many token passes succeeded.
pub open spec fn successes(passes: Seq<DecodePass>) -> nat
    decreases passes.len(),
{
    if passes.len() == 0 {
        0
    } else {
        successes(passes.drop_last()) + if passes.last().hidden is Some {
            1nat
        } else {
            0nat
        }
    }
}

/// After a prompt, every token pass meets the engine at the position that is
/// the length of the prompt plus the number of passes that succeeded since, and
/// under the window that the engine was made with. Passes that failed do not
/// count.
pub proof fn law_position_counts_successes(
    start: EngineView,
    tokens: nat,
    prompt: PrefillPass,
    views: Seq<EngineView>,
    passes: Seq<DecodePass>,
    i: int,
)
    requires
        run_of(views, passes),
        prefilled(start, tokens, Some(prompt), views[0]),
        0 <= i < views.len(),
    ensures
        views[i].position == tokens + successes(passes.take(i)),
        views[i].window == start.window,
        views[i].handles is Some,
    decreases i,
{
    if i > 0 {
        law_position_counts_successes(start, tokens, prompt, views, passes, i - 1);
        assert(decoded(views[i - 1], passes[i - 1], views[i - 1 + 1]));
        assert(passes.take(i).drop_last() =~= passes.take(i - 1));
        assert(passes.take(i).last() == passes[i - 1]);
    }
}

/// Whether a token pass went through all layers and found one row more in each.
pub open spec fn adds_a_row(before: EngineView, pass: DecodePass) -> bool {
    &&& before.handles is Some
    &&& pass.layers@.len() == before.handles->0.len()
    &&& forall|l: int|
        0 <= l < pass.layers@.len() ==> (#[trigger] pass.layers@[l]).0.rows().len()
            == before.handles->0[l].len() + 1
}

proof fn lemma_run_keeps_layers(
    start: EngineView,
    tokens: nat,
    prompt: PrefillPass,
    views: Seq<EngineView>,
    passes: Seq<DecodePass>,
    i: int,
)
    requires
        run_of(views, passes),
        prefilled(start, tokens, Some(prompt), views[0]),
        0 <= i < views.len(),
        forall|j: int|
            0 <= j < passes.len() ==> (#[trigger] passes[j]).layers@.len()
                <= prompt.layers@.len(),
    ensures
        views[i].handles is Some,
        views[i].handles->0.len() == prompt.layers@.len(),
        views[i].single_layer(),
        forall|l: int|
            0 <= l < prompt.layers@.len() ==> (#[trigger] views[i].handles->0[l]).width()
                == prompt.layers@[l].0.cols(),
    decreases i,
{
    let now = views[i].handles->0;
    if i == 0 {
        assert forall|l: int| 0 <= l < now.len() implies (#[trigger] now[l]) is Cpu && now[l].width()
            == prompt.layers@[l].0.cols() by {
            assert(holds(
                now[l],
                l as nat,
                prompt.layers@[l].0.cols(),
                prompt.layers@[l],
                start.window,
            ));
        }
    } else {
        lemma_run_keeps_layers(start, tokens, prompt, views, passes, i - 1);
        let was = views[i - 1].handles->0;
        let pass = passes[i - 1];
        assert(decoded(views[i - 1], pass, views[i - 1 + 1]));
        assert forall|l: int| 0 <= l < now.len() implies (#[trigger] now[l]) is Cpu && now[l].width()
            == prompt.layers@[l].0.cols() by {
            assert(was[l] is Cpu);
            assert(was[l].width() == prompt.layers@[l].0.cols());
        }
    }
}

/// After a prompt through at least one layer whose rows are not empty, and
/// without a window, every token pass that goes through all layers makes the
/// cache larger.
pub proof fn law_every_success_grows_an_unbounded_cache(
    start: EngineView,
    tokens: nat,
    prompt: PrefillPass,
    views: Seq<EngineView>,
    passes: Seq<DecodePass>,
    i: int,
)
    requires
        run_of(views, passes),
        prefilled(start, tokens, Some(prompt), views[0]),
        start.window is None,
        prompt.layers@.len() > 0,
        prompt.layers@[0].0.cols() > 0,
        forall|j: int|
            0 <= j < passes.len() ==> (#[trigger] passes[j]).layers@.len()
                <= prompt.layers@.len(),
        0 <= i < passes.len(),
        adds_a_row(views[i], passes[i]),
    ensures
        views[i + 1].bytes() > views[i].bytes(),
{
    lemma_run_keeps_layers(start, tokens, prompt, views, passes, i);
    law_position_counts_successes(start, tokens, prompt, views, passes, i);
    assert(decoded(views[i], passes[i], views[i + 1]));
    law_unbounded_cache_grows(views[i], passes[i], views[i + 1]);
    assert(views[i].handles->0[0].width() > 0);
}

} // verus!
