//! What the caches promise, in terms of the rows that are held.

use vstd::prelude::*;
use vstd::string::*;

use crate::arith::alu;
use crate::arith::readback;
use crate::kv::cpu;
use crate::kv::cpu::DecodePath;
use crate::kv::decode_state;
use crate::kv::decode_state::{DecodeStateDump, PerLayerDecodeState};
use crate::kv::engine;
use crate::kv::engine::{BackendSlot, DecodePass, EngineView, PrefillPass};
use crate::kv::handle;
use crate::kv::handle::{CpuKvHandle, KvHandle, SharedKV};
use crate::kv::matrix;
use crate::kv::matrix::Matrix;
use crate::kv::metal;
use crate::kv::metal::{Captured, TokenStep};
use crate::text;

verus! {

/// The single-layer cache inside a handle.
pub open spec fn host(h: KvHandle) -> CpuKvHandle
    recommends
        h is Cpu,
{
    h->Cpu_0
}

/// The keys that a single-layer handle holds.
pub open spec fn held_keys(h: KvHandle) -> Matrix
    recommends
        h is Cpu && host(h).state is Some,
{
    (host(h).state->0).0
}

/// The values that a single-layer handle holds.
pub open spec fn held_values(h: KvHandle) -> Matrix
    recommends
        h is Cpu && host(h).state is Some,
{
    (host(h).state->0).1
}

/// Whether rows are the last ones of others: as many as there are, but at most
/// `window`, with the newest last.
pub open spec fn latest(rows: Seq<Seq<u32>>, window: nat, left: Seq<Seq<u32>>) -> bool {
    &&& rows.len() <= window ==> left == rows
    &&& rows.len() > window ==> left.len() == window
    &&& forall|j: int|
        0 <= j < left.len() ==> (#[trigger] left[j]) == rows[rows.len() - left.len() + j]
}

/// A clip leaves the layer and the width of a handle alone, and keeps the last
/// rows: at most as many keys as the window allows, and the values at the same
/// places. An empty handle stays empty.
pub proof fn law_clip_keeps_the_last_rows(before: KvHandle, window: nat, after: KvHandle)
    requires
        cpu::clipped_to(before, window, after),
        before is Cpu,
        host(before).state matches Some(kv) ==> kv.0.rows().len() == kv.1.rows().len(),
    ensures
        after is Cpu,
        host(after).layer == host(before).layer,
        host(after).kv_dim == host(before).kv_dim,
        host(after).state is Some == host(before).state is Some,
        host(before).state matches Some(was) ==> {
            let now = host(after).state->0;
            &&& latest(was.0.rows(), window, now.0.rows())
            &&& latest(was.1.rows(), window, now.1.rows())
            &&& now.0.cols() == was.0.cols()
            &&& now.1.cols() == was.1.cols()
        },
{
    assert(cpu::kv_rows(after) == cpu::clipped(cpu::kv_rows(before), window));
    assert(cpu::kv_cols(after) == cpu::kv_cols(before));
}

/// Two clips are as good as one with the smaller window.
pub proof fn law_clips_add_up(
    first: KvHandle,
    a: nat,
    second: KvHandle,
    b: nat,
    third: KvHandle,
    once: KvHandle,
)
    requires
        first is Cpu,
        host(first).state matches Some(kv) ==> kv.0.rows().len() == kv.1.rows().len(),
        cpu::clipped_to(first, a, second),
        cpu::clipped_to(second, b, third),
        cpu::clipped_to(
            first,
            if a < b {
                a
            } else {
                b
            },
            once,
        ),
    ensures
        cpu::same_cache(third, once),
{
    let w = if a < b {
        a
    } else {
        b
    };
    assert(cpu::kv_rows(second) == cpu::clipped(cpu::kv_rows(first), a));
    assert(cpu::kv_rows(third) == cpu::clipped(cpu::kv_rows(second), b));
    assert(cpu::kv_rows(once) == cpu::clipped(cpu::kv_rows(first), w));
    if let Some(kv) = host(first).state {
        assert((cpu::kv_rows(third)->0).0 =~= (cpu::kv_rows(once)->0).0);
        assert((cpu::kv_rows(third)->0).1 =~= (cpu::kv_rows(once)->0).1);
    }
}

/// An append leaves every cached row where it was and puts the key row behind
/// the keys and the value row behind the values.
pub proof fn law_append_adds_one_row_of_each(
    before: KvHandle,
    k_row: Seq<u32>,
    v_row: Seq<u32>,
    after: KvHandle,
)
    requires
        cpu::appended(before, k_row, v_row, after),
    ensures
        after is Cpu,
        host(after).layer == host(before).layer,
        host(after).kv_dim == host(before).kv_dim,
        host(after).state is Some,
        held_keys(after).rows().last() == k_row,
        held_values(after).rows().last() == v_row,
        host(before).state matches Some(was) ==> {
            &&& held_keys(after).rows().drop_last() == was.0.rows()
            &&& held_values(after).rows().drop_last() == was.1.rows()
            &&& held_keys(after).rows().len() == was.0.rows().len() + 1
            &&& held_values(after).rows().len() == was.1.rows().len() + 1
        },
        host(before).state is None ==> held_keys(after).rows().len() == 1
            && held_values(after).rows().len() == 1,
{
    let now = cpu::kv_rows(after)->0;
    assert(now == (held_keys(after).rows(), held_values(after).rows()));
    if let Some(was) = host(before).state {
        assert(now.0 == was.0.rows().push(k_row));
        assert(now.1 == was.1.rows().push(v_row));
        assert(now.0.drop_last() =~= was.0.rows());
        assert(now.1.drop_last() =~= was.1.rows());
    } else {
        assert(now.0 == seq![k_row]);
        assert(now.1 == seq![v_row]);
    }
}

/// What is read is what is held: keys as keys and values as values, and nothing
/// exactly where nothing is held.
pub proof fn law_read_gives_what_is_held(h: KvHandle, out: Option<SharedKV>)
    requires
        h is Cpu,
        cpu::read_of(h, out),
    ensures
        out is Some == host(h).state is Some,
        out matches Some(kv) ==> {
            &&& kv.0.rows() == held_keys(h).rows()
            &&& kv.1.rows() == held_values(h).rows()
            &&& kv.0.cols() == held_keys(h).cols()
            &&& kv.1.cols() == held_values(h).cols()
        },
{
}

/// A step that succeeded hands on its hidden state and leaves its own keys and
/// values in the handle. One that failed hands on nothing, and a read gives what
/// a read before it gave.
pub proof fn law_step_is_all_or_nothing(
    before: KvHandle,
    step: Option<(Matrix, SharedKV)>,
    out: Option<Matrix>,
    after: KvHandle,
)
    requires
        cpu::stepped(before, step, out, after),
    ensures
        out is Some == step is Some,
        step matches Some(s) ==> out->0 == s.0 && host(after).state == Some(s.1),
        step is None ==> host(after).state == host(before).state,
        host(after).layer == host(before).layer,
        host(after).kv_dim == host(before).kv_dim,
{
}

/// A step under a window is a step with its keys and values cut down to their
/// last rows; one that failed changes nothing.
pub proof fn law_windowed_step_keeps_the_last_rows(
    before: KvHandle,
    window: usize,
    step: Option<(Matrix, SharedKV)>,
    out: Option<Matrix>,
    after: KvHandle,
)
    requires
        cpu::stepped_in_window(before, window, step, out, after),
        step matches Some(s) ==> s.1.0.rows().len() == s.1.1.rows().len(),
    ensures
        out is Some == step is Some,
        step matches Some(s) ==> {
            &&& out->0 == s.0
            &&& host(after).state is Some
            &&& latest(s.1.0.rows(), window as nat, held_keys(after).rows())
            &&& latest(s.1.1.rows(), window as nat, held_values(after).rows())
        },
        step is None ==> after == before,
        host(after).layer == host(before).layer,
        host(after).kv_dim == host(before).kv_dim,
{
    if let Some(s) = step {
        assert(cpu::kv_rows(after) == cpu::clipped(
            Some((s.1.0.rows(), s.1.1.rows())),
            window as nat,
        ));
    }
}

/// A prompt pass that succeeded is handed on with a handle for its layer that
/// holds its keys and values and is as wide as the keys. One that failed gives
/// nothing.
pub proof fn law_prompt_pass_is_held(
    layer: usize,
    pass: Option<(Matrix, Matrix, Matrix)>,
    out: Option<(Matrix, KvHandle)>,
)
    requires
        cpu::prompt_taken(layer, pass, out),
    ensures
        out is Some == pass is Some,
        pass matches Some(p) ==> {
            &&& (out->0).0 == p.0
            &&& (out->0).1 is Cpu
            &&& host((out->0).1).layer == layer
            &&& host((out->0).1).state == Some((p.1, p.2))
            &&& host((out->0).1).kv_dim == p.1.cols()
        },
{
}

/// A fresh handle serves the layer and the width that were asked for and shows
/// no tokens.
pub proof fn law_fresh_handle_is_empty(h: KvHandle, layer: usize, kv_dim: usize)
    requires
        cpu::allocated(h, layer, kv_dim),
    ensures
        h is Cpu,
        host(h).layer == layer,
        h.width() == kv_dim,
        h.len() == 0,
        host(h).state is None,
{
}

/// How many rows a window lets stay: all without a window.
pub open spec fn room(window: Option<usize>, rows: nat) -> nat {
    match window {
        Some(w) => w as nat,
        None => rows,
    }
}

/// Whether a handle has the last rows of the given keys and values that a window
/// lets stay.
pub open spec fn has_latest(h: KvHandle, kv: SharedKV, window: Option<usize>) -> bool {
    &&& h is Cpu
    &&& host(h).state is Some
    &&& latest(kv.0.rows(), room(window, kv.0.rows().len()), held_keys(h).rows())
    &&& latest(kv.1.rows(), room(window, kv.1.rows().len()), held_values(h).rows())
}

proof fn lemma_holds_latest(
    h: KvHandle,
    layer: nat,
    width: nat,
    kv: SharedKV,
    window: Option<usize>,
)
    requires
        engine::holds(h, layer, width, kv, window),
        kv.0.rows().len() == kv.1.rows().len(),
    ensures
        has_latest(h, kv, window),
{
    assert(cpu::kv_rows(h) == Some(engine::kept(kv, window)));
}

/// After a prompt, the engine stands at the number of its tokens and has one
/// handle per layer, in the order of layers, each as wide as the keys of its
/// layer and with the last rows of that layer's keys and values. A prompt pass
/// that failed changes nothing.
pub proof fn law_prompt_fills_every_layer(
    before: EngineView,
    tokens: nat,
    pass: Option<PrefillPass>,
    after: EngineView,
    l: int,
)
    requires
        engine::prefilled(before, tokens, pass, after),
        pass matches Some(p) ==> 0 <= l < p.layers@.len() && p.layers@[l].0.rows().len()
            == p.layers@[l].1.rows().len(),
    ensures
        pass is None ==> after == before,
        pass matches Some(p) ==> {
            &&& after.position == tokens
            &&& after.window == before.window
            &&& after.handles is Some
            &&& after.handles->0.len() == p.layers@.len()
            &&& host(after.handles->0[l]).layer == l
            &&& host(after.handles->0[l]).kv_dim == p.layers@[l].0.cols()
            &&& has_latest(after.handles->0[l], p.layers@[l], before.window)
        },
{
    if let Some(p) = pass {
        assert(engine::holds(
            after.handles->0[l],
            l as nat,
            p.layers@[l].0.cols(),
            p.layers@[l],
            before.window,
        ));
        lemma_holds_latest(
            after.handles->0[l],
            l as nat,
            p.layers@[l].0.cols(),
            p.layers@[l],
            before.window,
        );
    }
}

/// After a token pass, each layer that ran has the last rows of the keys and
/// values that the pass gave for it, and every other layer has what it had. The
/// position moves by one exactly when the pass succeeded. Without a prompt,
/// nothing changes.
pub proof fn law_token_pass_touches_the_layers_that_ran(
    before: EngineView,
    pass: DecodePass,
    after: EngineView,
    l: int,
)
    requires
        engine::decoded(before, pass, after),
        before.handles is Some ==> 0 <= l < before.handles->0.len(),
        before.handles is Some && l < pass.layers@.len() ==> pass.layers@[l].0.rows().len()
            == pass.layers@[l].1.rows().len(),
    ensures
        before.handles is None ==> after == before,
        before.handles is Some ==> {
            &&& pass.hidden is Some ==> after.position == before.position + 1
            &&& pass.hidden is None ==> after.position == before.position
            &&& after.window == before.window
            &&& after.handles is Some
            &&& after.handles->0.len() == before.handles->0.len()
            &&& l < pass.layers@.len() ==> {
                &&& has_latest(after.handles->0[l], pass.layers@[l], before.window)
                &&& host(after.handles->0[l]).layer == host(before.handles->0[l]).layer
                &&& host(after.handles->0[l]).kv_dim == host(before.handles->0[l]).kv_dim
            }
            &&& l >= pass.layers@.len() ==> after.handles->0[l] == before.handles->0[l]
        },
{
    if before.handles is Some {
        let was = before.handles->0[l];
        let now = after.handles->0[l];
        if l < pass.layers@.len() {
            assert(engine::holds(
                now,
                was->Cpu_0.layer as nat,
                was->Cpu_0.kv_dim as nat,
                pass.layers@[l],
                before.window,
            ));
            lemma_holds_latest(
                now,
                was->Cpu_0.layer as nat,
                was->Cpu_0.kv_dim as nat,
                pass.layers@[l],
                before.window,
            );
        } else {
            assert(now == was);
        }
    }
}

/// Each layer that holds keys adds eight bytes for every token and every column:
/// four for the key and four for the value. An empty layer adds nothing.
pub proof fn law_bytes_add_up(handles: Seq<KvHandle>, h: KvHandle)
    requires
        h is Cpu,
    ensures
        engine::cache_bytes(Seq::empty()) == 0,
        engine::cache_bytes(handles.push(h)) == engine::cache_bytes(handles)
            + match host(h).state {
            Some(kv) => 8 * (kv.0.rows().len() * host(h).kv_dim),
            None => 0,
        },
{
    assert(handles.push(h).drop_last() =~= handles);
    let n = h.len();
    let w = h.width();
    assert(n * w * 2 * 4 == 8 * (n * w)) by (nonlinear_arith);
    if host(h).state is None {
        assert(n * w == 0) by (nonlinear_arith)
            requires
                n == 0,
        ;
    }
}

/// An engine without a prompt holds no bytes and no tokens. One with a prompt
/// holds the bytes of its handles, and as many tokens as its first layer has key
/// rows.
pub proof fn law_engine_counts_its_handles(e: EngineView)
    ensures
        e.handles is None ==> e.bytes() == 0 && e.tokens() == 0,
        e.handles matches Some(hs) ==> {
            &&& e.bytes() == engine::cache_bytes(hs)
            &&& hs.len() == 0 ==> e.tokens() == 0
            &&& hs.len() > 0 && hs[0] is Cpu ==> e.tokens() == match host(hs[0]).state {
                Some(kv) => kv.0.rows().len(),
                None => 0,
            }
        },
{
}

/// The tenths of a mebibyte that are shown are at most half a tenth off, and are
/// even where two are equally near.
pub proof fn law_tenths_are_nearest(bytes: nat)
    ensures
        ({
            let shown = engine::tenths_of_mebibyte(bytes) * 1048576;
            &&& -524288 <= bytes * 10 - shown <= 524288
            &&& bytes * 10 - shown == 524288 || bytes * 10 - shown == -524288
                ==> engine::tenths_of_mebibyte(bytes) % 2 == 0
        }),
{
}

/// A size is shown as its whole mebibytes, a point and one digit.
pub proof fn law_size_is_shown_with_one_place(bytes: nat)
    ensures
        ({
            let shown = engine::mebibytes_text(bytes);
            let n = shown.len() as int;
            &&& n >= 3
            &&& shown[n - 2] == '.'
            &&& 10 * alu::spelled(shown.take(n - 2)) + (shown[n - 1] as int - 48)
                == engine::tenths_of_mebibyte(bytes)
        }),
{
    reveal_strlit(".");
    let tenths = engine::tenths_of_mebibyte(bytes);
    let whole = text::decimal(tenths / 10);
    let part = text::decimal(tenths % 10);
    let shown = engine::mebibytes_text(bytes);
    let n = shown.len() as int;
    readback::law_digits_spell_the_number(tenths / 10);
    assert(part =~= seq![text::digit_char(tenths % 10)]);
    assert(n == whole.len() + 2);
    assert(shown.take(n - 2) =~= whole);
    assert(shown[n - 2] == '.');
    assert(shown[n - 1] == text::digit_char(tenths % 10));
}

/// The configuration names the window by its number, and says `full` where there
/// is none.
pub proof fn law_config_names_the_window(window: Option<usize>)
    ensures
        engine::config_text(window).take(7) == "window="@,
        window matches Some(w) ==> alu::spells_number(engine::config_text(window).skip(7))
            && alu::spelled(engine::config_text(window).skip(7)) == w,
        window is None ==> engine::config_text(window).skip(7) == "full"@,
{
    reveal_strlit("window=");
    reveal_strlit("window=full");
    reveal_strlit("full");
    let shown = engine::config_text(window);
    assert(shown.take(7) =~= "window="@);
    match window {
        Some(w) => {
            readback::law_digits_spell_the_number(w as nat);
            assert(shown.skip(7) =~= text::decimal(w as nat));
        },
        None => {
            assert(shown.skip(7) =~= "full"@);
        },
    }
}

/// The first layer of a cache is the one with the lowest number that has keys
/// and values, and there is none exactly when no layer has.
pub proof fn law_first_layer_is_the_lowest(cache: Seq<Option<SharedKV>>)
    ensures
        match handle::first_layer(cache) {
            Some(kv) => exists|i: int|
                {
                    &&& 0 <= i < cache.len()
                    &&& #[trigger] cache[i] == Some(kv)
                    &&& forall|j: int| 0 <= j < i ==> (#[trigger] cache[j]) is None
                },
            None => forall|i: int| 0 <= i < cache.len() ==> (#[trigger] cache[i]) is None,
        },
    decreases cache.len(),
{
    if cache.len() > 0 {
        let rest = cache.drop_first();
        law_first_layer_is_the_lowest(rest);
        match handle::first_layer(cache) {
            Some(kv) => {
                if cache[0] is Some {
                    assert(cache[0] == Some(kv));
                } else {
                    let i = choose|i: int|
                        {
                            &&& 0 <= i < rest.len()
                            &&& #[trigger] rest[i] == Some(kv)
                            &&& forall|j: int| 0 <= j < i ==> (#[trigger] rest[j]) is None
                        };
                    assert(cache[i + 1] == rest[i]);
                    assert forall|j: int| 0 <= j < i + 1 implies (#[trigger] cache[j]) is None by {
                        if j > 0 {
                            assert(rest[j - 1] is None);
                        }
                    }
                }
            },
            None => {
                assert forall|i: int| 0 <= i < cache.len() implies (#[trigger] cache[i]) is None by {
                    if i > 0 {
                        assert(rest[i - 1] is None);
                    }
                }
            },
        }
    }
}

/// A single-layer handle shows as many tokens as it has key rows and the width
/// that it was made with. A handle for all layers shows the shape of the keys of
/// its first layer. A device handle shows nothing.
pub proof fn law_handle_shows_its_keys(h: KvHandle)
    ensures
        h matches KvHandle::Cpu(c) ==> {
            &&& h.width() == c.kv_dim
            &&& c.state matches Some(kv) ==> h.len() == kv.0.rows().len()
            &&& c.state is None ==> h.len() == 0
        },
        h matches KvHandle::CpuQ4k(c) ==> match handle::first_layer(c.cache@) {
            Some(kv) => h.len() == kv.0.rows().len() && h.width() == kv.0.cols(),
            None => h.len() == 0 && h.width() == 0,
        },
        h is MetalCoarse ==> h.len() == 0 && h.width() == 0,
{
}

/// The name that a handle gives tells which kind it is.
pub proof fn law_names_tell_handles_apart(h: KvHandle)
    ensures
        (h.minted_by() == "cpu"@) == h is Cpu,
        (h.minted_by() == "cpu-q4k"@) == h is CpuQ4k,
        (h.minted_by() == "metal-coarse"@) == h is MetalCoarse,
{
    reveal_strlit("cpu");
    reveal_strlit("cpu-q4k");
    reveal_strlit("metal-coarse");
    assert("cpu"@.len() == 3);
    assert("cpu-q4k"@.len() == 7);
    assert("metal-coarse"@.len() == 12);
}

/// A state counts as complete only where all three lists have one entry per
/// layer.
pub proof fn law_complete_state_has_all_three(state: PerLayerDecodeState, n: nat)
    ensures
        state.complete_for(n) == (state.h_in_per_layer@.len() == n && state.k_new_per_layer@.len()
            == n && state.v_new_per_layer@.len() == n),
{
}

/// The cell in row `i` and column `j` is the one that comes after `i` full rows
/// and `j` cells.
pub proof fn law_cells_come_row_by_row(cells: Seq<u32>, rows: nat, cols: nat, i: int, j: int)
    requires
        cells.len() == rows * cols,
        0 <= i < rows,
        0 <= j < cols,
    ensures
        matrix::rows_of_flat(cells, rows, cols).len() == rows,
        matrix::rows_of_flat(cells, rows, cols)[i].len() == cols,
        matrix::rows_of_flat(cells, rows, cols)[i][j] == cells[i * cols + j],
{
    assert(0 <= i * cols && i * cols + cols <= rows * cols) by (nonlinear_arith)
        requires
            0 <= i < rows,
            cols >= 0,
    ;
}

/// Whether a kernel call left a hidden row of the hidden size for a layer, and
/// key and value rows of heads times head size.
pub open spec fn layer_in_full(
    dump: DecodeStateDump,
    hidden_size: usize,
    shape: (usize, usize),
    l: int,
) -> bool {
    &&& dump.h_in_per_layer@[l]@.len() == hidden_size
    &&& dump.k_new_per_layer@[l]@.len() == shape.0 * shape.1
    &&& dump.v_new_per_layer@[l]@.len() == shape.0 * shape.1
}

/// Whether a kernel call succeeded and left rows of the right width for every
/// layer.
pub open spec fn captured_in_full(
    step: Option<TokenStep>,
    hidden_size: usize,
    kv_shapes: Seq<(usize, usize)>,
) -> bool {
    &&& step is Some
    &&& forall|l: int|
        0 <= l < kv_shapes.len() ==> layer_in_full(
            step->0.dump,
            hidden_size,
            #[trigger] kv_shapes[l],
            l,
        )
}

proof fn lemma_captured_in_full(
    step: Option<TokenStep>,
    hidden_size: usize,
    kv_shapes: Seq<(usize, usize)>,
)
    requires
        forall|l: int|
            0 <= l < kv_shapes.len() ==> (#[trigger] kv_shapes[l]).0 * kv_shapes[l].1
                <= usize::MAX,
    ensures
        captured_in_full(step, hidden_size, kv_shapes) == metal::step_fits(
            step,
            hidden_size,
            metal::kv_dims_of(kv_shapes),
        ),
{
    let dims = metal::kv_dims_of(kv_shapes);
    assert forall|l: int| 0 <= l < kv_shapes.len() && step is Some implies layer_in_full(
        step->0.dump,
        hidden_size,
        #[trigger] kv_shapes[l],
        l,
    ) == metal::layer_fits(step->0.dump, hidden_size, dims, l) by {
        assert(kv_shapes[l].0 * kv_shapes[l].1 <= usize::MAX);
        assert(dims[l] == kv_shapes[l].0 * kv_shapes[l].1);
    }
    if captured_in_full(step, hidden_size, kv_shapes) {
        assert forall|l: int| 0 <= l < dims.len() implies #[trigger] metal::layer_fits(
            step->0.dump,
            hidden_size,
            dims,
            l,
        ) by {
            assert(layer_in_full(step->0.dump, hidden_size, kv_shapes[l], l));
        }
    }
}

/// A prefill with captured state succeeds exactly when every kernel call left
/// rows of the right width for every layer.
pub proof fn law_prefill_succeeds_when_all_is_captured(
    steps: Seq<Option<TokenStep>>,
    hidden_size: usize,
    kv_shapes: Seq<(usize, usize)>,
)
    requires
        forall|l: int|
            0 <= l < kv_shapes.len() ==> (#[trigger] kv_shapes[l]).0 * kv_shapes[l].1
                <= usize::MAX,
    ensures
        metal::all_steps_fit(steps, hidden_size, metal::kv_dims_of(kv_shapes)) == (forall|p: int|
            0 <= p < steps.len() ==> captured_in_full(
                #[trigger] steps[p],
                hidden_size,
                kv_shapes,
            )),
{
    let dims = metal::kv_dims_of(kv_shapes);
    assert forall|p: int| 0 <= p < steps.len() implies captured_in_full(
        #[trigger] steps[p],
        hidden_size,
        kv_shapes,
    ) == metal::step_fits(steps[p], hidden_size, dims) by {
        lemma_captured_in_full(steps[p], hidden_size, kv_shapes);
    }
}

/// The row that a prefill leaves for a token at a layer, when that token and all
/// before it were captured in full, is the row of the same kind that the kernel
/// gave for that token and that layer. When an earlier token was not captured in
/// full, it is zero in every cell and as wide as its layer asks for.
pub proof fn law_prefill_leaves_the_kernels_rows(
    steps: Seq<Option<TokenStep>>,
    hidden_size: usize,
    kv_shapes: Seq<(usize, usize)>,
    p: int,
    l: int,
)
    requires
        forall|m: int|
            0 <= m < kv_shapes.len() ==> (#[trigger] kv_shapes[m]).0 * kv_shapes[m].1
                <= usize::MAX,
        0 <= p < steps.len(),
        0 <= l < kv_shapes.len(),
    ensures
        ({
            let dims = metal::kv_dims_of(kv_shapes);
            let hidden = metal::prefill_rows(steps, hidden_size, dims, Captured::HiddenIn, l);
            let keys = metal::prefill_rows(steps, hidden_size, dims, Captured::NewKey, l);
            let values = metal::prefill_rows(steps, hidden_size, dims, Captured::NewValue, l);
            &&& hidden.len() == steps.len() && keys.len() == steps.len() && values.len()
                == steps.len()
            &&& (forall|q: int|
                0 <= q <= p ==> captured_in_full(#[trigger] steps[q], hidden_size, kv_shapes))
                ==> {
                &&& hidden[p] == steps[p]->0.dump.h_in_per_layer@[l]@
                &&& keys[p] == steps[p]->0.dump.k_new_per_layer@[l]@
                &&& values[p] == steps[p]->0.dump.v_new_per_layer@[l]@
            }
            &&& (exists|q: int|
                0 <= q < p && !captured_in_full(#[trigger] steps[q], hidden_size, kv_shapes))
                ==> {
                &&& hidden[p].len() == hidden_size
                &&& keys[p].len() == kv_shapes[l].0 * kv_shapes[l].1
                &&& values[p].len() == kv_shapes[l].0 * kv_shapes[l].1
                &&& forall|c: int| 0 <= c < hidden[p].len() ==> #[trigger] hidden[p][c] == 0
                &&& forall|c: int| 0 <= c < keys[p].len() ==> #[trigger] keys[p][c] == 0
                &&& forall|c: int| 0 <= c < values[p].len() ==> #[trigger] values[p][c] == 0
            }
        }),
{
    let dims = metal::kv_dims_of(kv_shapes);
    assert(kv_shapes[l].0 * kv_shapes[l].1 <= usize::MAX);
    assert(dims[l] == kv_shapes[l].0 * kv_shapes[l].1);
    assert forall|q: int| 0 <= q < steps.len() implies captured_in_full(
        #[trigger] steps[q],
        hidden_size,
        kv_shapes,
    ) == metal::step_fits(steps[q], hidden_size, dims) by {
        lemma_captured_in_full(steps[q], hidden_size, kv_shapes);
    }
    if forall|q: int|
        0 <= q <= p ==> captured_in_full(#[trigger] steps[q], hidden_size, kv_shapes) {
        assert(metal::step_fits(steps[p], hidden_size, dims));
        assert(metal::reaches_state(steps, hidden_size, dims, p, l));
    }
    if exists|q: int|
        0 <= q < p && !captured_in_full(#[trigger] steps[q], hidden_size, kv_shapes) {
        let q = choose|q: int|
            0 <= q < p && !captured_in_full(#[trigger] steps[q], hidden_size, kv_shapes);
        assert(!metal::step_fits(steps[q], hidden_size, dims));
        assert(!metal::reaches_state(steps, hidden_size, dims, p, l));
    }
}

/// Of the first token that a prefill did not capture in full, the layers before
/// the first misfit reach the state, and the others stay zero.
pub proof fn law_misfit_stops_the_capture(
    steps: Seq<Option<TokenStep>>,
    hidden_size: usize,
    kv_dims: Seq<usize>,
    kind: Captured,
    p: int,
    bad: int,
    l: int,
)
    requires
        0 <= p < steps.len(),
        0 <= l < kv_dims.len(),
        0 <= bad < kv_dims.len(),
        forall|q: int| 0 <= q < p ==> metal::step_fits(#[trigger] steps[q], hidden_size, kv_dims),
        steps[p] is Some,
        forall|m: int|
            0 <= m < bad ==> {
                &&& steps[p]->0.dump.h_in_per_layer@[m]@.len() == hidden_size
                &&& steps[p]->0.dump.k_new_per_layer@[m]@.len() == #[trigger] kv_dims[m]
                &&& steps[p]->0.dump.v_new_per_layer@[m]@.len() == kv_dims[m]
            },
        steps[p]->0.dump.h_in_per_layer@[bad]@.len() != hidden_size
            || steps[p]->0.dump.k_new_per_layer@[bad]@.len() != kv_dims[bad]
            || steps[p]->0.dump.v_new_per_layer@[bad]@.len() != kv_dims[bad],
    ensures
        l < bad ==> metal::prefill_rows(steps, hidden_size, kv_dims, kind, l)[p] == match kind {
            Captured::HiddenIn => steps[p]->0.dump.h_in_per_layer@[l]@,
            Captured::NewKey => steps[p]->0.dump.k_new_per_layer@[l]@,
            Captured::NewValue => steps[p]->0.dump.v_new_per_layer@[l]@,
        },
        l >= bad ==> forall|c: int|
            0 <= c < metal::prefill_rows(steps, hidden_size, kv_dims, kind, l)[p].len()
                ==> #[trigger] metal::prefill_rows(steps, hidden_size, kv_dims, kind, l)[p][c]
                == 0,
{
    let dump = steps[p]->0.dump;
    if l < bad {
        assert forall|m: int| 0 <= m <= l implies #[trigger] metal::layer_fits(
            dump,
            hidden_size,
            kv_dims,
            m,
        ) by {
            assert(dump.k_new_per_layer@[m]@.len() == kv_dims[m]);
        }
        assert(metal::reaches_state(steps, hidden_size, kv_dims, p, l));
    } else {
        assert(!metal::layer_fits(dump, hidden_size, kv_dims, bad));
        assert(!metal::reaches_state(steps, hidden_size, kv_dims, p, l));
    }
}

/// A prefill is refused without an index, and also where state is asked for but
/// there are no tokens. Otherwise it goes token by token exactly when state is
/// asked for.
pub proof fn law_state_is_captured_token_by_token(has_index: bool, has_state: bool, tokens: nat)
    ensures
        (metal::prefill_path_of(has_index, has_state, tokens) is Refused) == (!has_index || (
        has_state && tokens == 0)),
        (metal::prefill_path_of(has_index, has_state, tokens) is Fused) == (has_index
            && !has_state),
        (metal::prefill_path_of(has_index, has_state, tokens) is Stepwise) == (has_index
            && has_state && tokens > 0),
{
}

/// Whether the rows of a layer fit a decode step: the hidden row has the hidden
/// size, the value row is as long as the key row, and neither is too long for
/// a matrix.
pub open spec fn fits_a_step(dump: DecodeStateDump, hidden_size: usize, l: int) -> bool {
    &&& dump.h_in_per_layer@[l]@.len() == hidden_size
    &&& dump.v_new_per_layer@[l]@.len() == dump.k_new_per_layer@[l]@.len()
    &&& hidden_size <= isize::MAX
    &&& dump.k_new_per_layer@[l]@.len() <= isize::MAX
}

proof fn lemma_fits_a_step(dump: DecodeStateDump, hidden_size: usize, l: int)
    ensures
        fits_a_step(dump, hidden_size, l) == metal::layer_unflattens(dump, hidden_size, l),
{
    if fits_a_step(dump, hidden_size, l) {
        assert forall|kind: Captured| #[trigger]
            metal::row_unflattens(dump, hidden_size, kind, l) by {
            match kind {
                Captured::HiddenIn => {},
                Captured::NewKey => {},
                Captured::NewValue => {},
            }
        }
    }
    if metal::layer_unflattens(dump, hidden_size, l) {
        assert(metal::row_unflattens(dump, hidden_size, Captured::HiddenIn, l));
        assert(metal::row_unflattens(dump, hidden_size, Captured::NewKey, l));
        assert(metal::row_unflattens(dump, hidden_size, Captured::NewValue, l));
    }
}

/// The leading layers of a dump are those before the first that does not fit: all
/// of them fit, and the next one, if there is one, does not.
pub proof fn law_leading_layers_fit(dump: DecodeStateDump, hidden_size: usize, n: nat)
    ensures
        metal::leading_layers(dump, hidden_size, n) <= n,
        forall|l: int|
            0 <= l < metal::leading_layers(dump, hidden_size, n) ==> #[trigger] fits_a_step(
                dump,
                hidden_size,
                l,
            ),
        metal::leading_layers(dump, hidden_size, n) < n ==> !fits_a_step(
            dump,
            hidden_size,
            metal::leading_layers(dump, hidden_size, n) as int,
        ),
    decreases n,
{
    if n > 0 {
        law_leading_layers_fit(dump, hidden_size, (n - 1) as nat);
        lemma_fits_a_step(dump, hidden_size, n - 1);
    }
}

/// A decode step adds, behind what the state had, one matrix per kind for every
/// layer before the first misfit, each with the kernel's row as its only row.
/// Of the misfit layer, the hidden row is added when it has the hidden size, the
/// key row then too, and the value row never.
pub proof fn law_step_adds_the_kernels_rows(
    before: PerLayerDecodeState,
    after: PerLayerDecodeState,
    dump: DecodeStateDump,
    hidden_size: usize,
    n: nat,
    bad: nat,
)
    requires
        forall|kind: Captured|
            metal::extends_by_rows(
                #[trigger] metal::state_part(before, kind),
                metal::state_part(after, kind),
                dump,
                kind,
                metal::rows_added(dump, hidden_size, kind, n),
            ),
        bad <= n,
        hidden_size <= isize::MAX,
        forall|l: int| 0 <= l < bad ==> #[trigger] fits_a_step(dump, hidden_size, l),
        bad < n ==> dump.k_new_per_layer@[bad as int]@.len() <= isize::MAX && !fits_a_step(
            dump,
            hidden_size,
            bad as int,
        ),
    ensures
        ({
            let h = before.h_in_per_layer@.len();
            let k = before.k_new_per_layer@.len();
            let v = before.v_new_per_layer@.len();
            let hidden_ok = bad < n && dump.h_in_per_layer@[bad as int]@.len() == hidden_size;
            let more = if hidden_ok {
                1nat
            } else {
                0nat
            };
            &&& after.h_in_per_layer@.len() == h + bad + more
            &&& after.k_new_per_layer@.len() == k + bad + more
            &&& after.v_new_per_layer@.len() == v + bad
            &&& forall|i: int|
                0 <= i < h ==> #[trigger] after.h_in_per_layer@[i] == before.h_in_per_layer@[i]
            &&& forall|i: int|
                0 <= i < k ==> #[trigger] after.k_new_per_layer@[i] == before.k_new_per_layer@[i]
            &&& forall|i: int|
                0 <= i < v ==> #[trigger] after.v_new_per_layer@[i] == before.v_new_per_layer@[i]
            &&& forall|l: int|
                #![trigger dump.h_in_per_layer@[l]]
                0 <= l < bad + more ==> after.h_in_per_layer@[h + l].rows()
                    == seq![dump.h_in_per_layer@[l]@]
            &&& forall|l: int|
                #![trigger dump.k_new_per_layer@[l]]
                0 <= l < bad + more ==> after.k_new_per_layer@[k + l].rows()
                    == seq![dump.k_new_per_layer@[l]@]
            &&& forall|l: int|
                #![trigger dump.v_new_per_layer@[l]]
                0 <= l < bad ==> after.v_new_per_layer@[v + l].rows()
                    == seq![dump.v_new_per_layer@[l]@]
        }),
{
    let full = metal::leading_layers(dump, hidden_size, n);
    law_leading_layers_fit(dump, hidden_size, n);
    assert(full == bad) by {
        if full < bad {
            assert(fits_a_step(dump, hidden_size, full as int));
        }
        if bad < full {
            assert(fits_a_step(dump, hidden_size, bad as int));
        }
    }
    let hidden = Captured::HiddenIn;
    let key = Captured::NewKey;
    let value = Captured::NewValue;
    assert(metal::extends_by_rows(
        metal::state_part(before, hidden),
        metal::state_part(after, hidden),
        dump,
        hidden,
        metal::rows_added(dump, hidden_size, hidden, n),
    ));
    assert(metal::extends_by_rows(
        metal::state_part(before, key),
        metal::state_part(after, key),
        dump,
        key,
        metal::rows_added(dump, hidden_size, key, n),
    ));
    assert(metal::extends_by_rows(
        metal::state_part(before, value),
        metal::state_part(after, value),
        dump,
        value,
        metal::rows_added(dump, hidden_size, value, n),
    ));
    let h = before.h_in_per_layer@.len();
    let k = before.k_new_per_layer@.len();
    let v = before.v_new_per_layer@.len();
    assert forall|i: int| 0 <= i < h implies #[trigger] after.h_in_per_layer@[i]
        == before.h_in_per_layer@[i] by {
        assert(after.h_in_per_layer@.take(h as int)[i] == after.h_in_per_layer@[i]);
    }
    assert forall|i: int| 0 <= i < k implies #[trigger] after.k_new_per_layer@[i]
        == before.k_new_per_layer@[i] by {
        assert(after.k_new_per_layer@.take(k as int)[i] == after.k_new_per_layer@[i]);
    }
    assert forall|i: int| 0 <= i < v implies #[trigger] after.v_new_per_layer@[i]
        == before.v_new_per_layer@[i] by {
        assert(after.v_new_per_layer@.take(v as int)[i] == after.v_new_per_layer@[i]);
    }
}

/// The description ends with the size that the cache has and its unit.
pub proof fn law_description_tells_the_size(bytes: nat)
    ensures
        ({
            let tail = engine::mebibytes_text(bytes) + "MB)"@;
            let shown = engine::description_text(bytes);
            &&& shown.len() > tail.len()
            &&& shown.skip(shown.len() - tail.len()) == tail
            &&& shown.take(shown.len() - tail.len())
                == "production K/V tensor cache — full FP32 K/V per layer (mem="@
        }),
{
    reveal_strlit("production K/V tensor cache — full FP32 K/V per layer (mem=");
    let opening = "production K/V tensor cache — full FP32 K/V per layer (mem="@;
    let tail = engine::mebibytes_text(bytes) + "MB)"@;
    let shown = engine::description_text(bytes);
    assert(shown =~= opening + tail);
    assert(shown.skip(opening.len() as int) =~= tail);
    assert(shown.take(opening.len() as int) =~= opening);
}

/// A slot goes by the name of the backend in it, however that is driven.
pub proof fn law_slot_has_the_backends_name(slot: BackendSlot)
    ensures
        slot matches BackendSlot::Sync(b) ==> slot.label() == b.name@,
        slot matches BackendSlot::Async(b) ==> slot.label() == b.name@,
{
}

/// Of the ways in which a decode step can run, only the direct one captures.
pub proof fn law_only_the_direct_path_captures(path: DecodePath)
    ensures
        path.captures() == (path == DecodePath::Direct),
        !DecodePath::Refused.captures(),
        !DecodePath::Dequantised.captures(),
{
}

/// A copy of a list of matrices has as many, with the same cells at the same
/// places.
pub proof fn law_copies_agree_in_every_cell(
    a: Seq<Matrix>,
    b: Seq<Matrix>,
    i: int,
    r: int,
    c: int,
)
    requires
        decode_state::same_matrices(a, b),
        0 <= i < a.len(),
    ensures
        a.len() == b.len(),
        a[i].rows().len() == b[i].rows().len(),
        a[i].cols() == b[i].cols(),
        a[i].rows()[r][c] == b[i].rows()[r][c],
{
}

/// A state of one decode step has exactly one row in every matrix.
pub proof fn law_step_state_has_single_rows(state: PerLayerDecodeState, l: int)
    requires
        metal::single_rows(state),
        0 <= l,
    ensures
        l < state.h_in_per_layer@.len() ==> state.h_in_per_layer@[l].rows().len() == 1,
        l < state.k_new_per_layer@.len() ==> state.k_new_per_layer@[l].rows().len() == 1,
        l < state.v_new_per_layer@.len() ==> state.v_new_per_layer@[l].rows().len() == 1,
{
    let h = metal::state_part(state, Captured::HiddenIn);
    let k = metal::state_part(state, Captured::NewKey);
    let v = metal::state_part(state, Captured::NewValue);
    assert(l < h.len() ==> h[l].rows().len() == 1);
    assert(l < k.len() ==> k[l].rows().len() == 1);
    assert(l < v.len() ==> v[l].rows().len() == 1);
}

/// After a prefill with captured state, every layer has one hidden, one key and
/// one value matrix with a row per token, the first as wide as the hidden size
/// and the others as heads times head size.
pub proof fn law_prefill_state_is_shaped(
    state: PerLayerDecodeState,
    tokens: nat,
    hidden_size: usize,
    kv_shapes: Seq<(usize, usize)>,
    l: int,
)
    requires
        metal::buffers_shaped(state, tokens, hidden_size, metal::kv_dims_of(kv_shapes)),
        0 <= l < kv_shapes.len(),
        kv_shapes[l].0 * kv_shapes[l].1 <= usize::MAX,
    ensures
        state.h_in_per_layer@.len() == kv_shapes.len(),
        state.k_new_per_layer@.len() == kv_shapes.len(),
        state.v_new_per_layer@.len() == kv_shapes.len(),
        state.h_in_per_layer@[l].rows().len() == tokens,
        state.k_new_per_layer@[l].rows().len() == tokens,
        state.v_new_per_layer@[l].rows().len() == tokens,
        state.h_in_per_layer@[l].cols() == hidden_size,
        state.k_new_per_layer@[l].cols() == kv_shapes[l].0 * kv_shapes[l].1,
        state.v_new_per_layer@[l].cols() == kv_shapes[l].0 * kv_shapes[l].1,
{
    let h = metal::state_part(state, Captured::HiddenIn);
    let k = metal::state_part(state, Captured::NewKey);
    let v = metal::state_part(state, Captured::NewValue);
    assert(h[l].rows().len() == tokens);
    assert(k[l].rows().len() == tokens);
    assert(v[l].rows().len() == tokens);
}

} // verus!
