use larql::kv::cpu::CpuBackend;
use larql::kv::engine::{
    cpu_async_backend, AsyncComputeBackend, DecodePass, EngineBackend, PrefillPass, StandardEngine,
};
use larql::kv::handle::SharedKV;
use larql::kv::matrix::Matrix;
use larql::kv::metal::MetalBackend;

const LAYERS: usize = 2;
const HIDDEN: usize = 4;
const KV: usize = 3;
const VOCAB: u32 = 32;

type Rows = Vec<Vec<f32>>;

fn matrix(rows: &Rows, cols: usize) -> Matrix {
    let cells: Vec<u32> = rows.iter().flatten().map(|x| x.to_bits()).collect();
    Matrix::from_shape_vec(rows.len(), cols, cells).unwrap()
}

fn rows(m: &Matrix) -> Rows {
    let (_, cols) = m.shape();
    let flat: Vec<f32> = m.to_flat().into_iter().map(f32::from_bits).collect();
    flat.chunks(cols).map(|r| r.to_vec()).collect()
}

fn embed(token: u32) -> Vec<f32> {
    (0..HIDDEN as u32)
        .map(|j| ((token * 7 + j * 3 + 1) % 11) as f32 / 11.0)
        .collect()
}

fn project(h: &[f32], layer: usize, kind: usize) -> Vec<f32> {
    (0..KV)
        .map(|c| {
            h.iter()
                .enumerate()
                .map(|(j, x)| x * (((layer * 5 + kind * 3 + c * 2 + j) % 7) as f32 - 3.0))
                .sum()
        })
        .collect()
}

fn attend(h: &[f32], layer: usize, keys: &Rows, values: &Rows) -> Vec<f32> {
    let q = project(h, layer, 0);
    let scores: Vec<f32> = keys
        .iter()
        .map(|k| k.iter().zip(&q).map(|(a, b)| a * b).sum::<f32>().exp())
        .collect();
    let total: f32 = scores.iter().sum();
    (0..HIDDEN)
        .map(|j| {
            let mixed: f32 = values
                .iter()
                .zip(&scores)
                .map(|(v, s)| v[j % KV] * s / total)
                .sum();
            (h[j] + mixed).tanh()
        })
        .collect()
}

fn next_token(h: &[f32]) -> u32 {
    let logit = |t: u32| -> f32 { embed(t).iter().zip(h).map(|(a, b)| a * b).sum() };
    (0..VOCAB).fold(0, |best, t| if logit(t) > logit(best) { t } else { best })
}

/// The prompt pass: the last hidden state and the keys and values of each layer.
fn prompt_pass(tokens: &[u32]) -> (Vec<f32>, Vec<(Rows, Rows)>) {
    let mut hidden: Rows = tokens.iter().map(|t| embed(*t)).collect();
    let mut layers = Vec::new();
    for layer in 0..LAYERS {
        let keys: Rows = hidden.iter().map(|h| project(h, layer, 1)).collect();
        let values: Rows = hidden.iter().map(|h| project(h, layer, 2)).collect();
        hidden = (0..hidden.len())
            .map(|i| {
                attend(&hidden[i], layer, &keys[..=i].to_vec(), &values[..=i].to_vec())
            })
            .collect();
        layers.push((keys, values));
    }
    (hidden.pop().unwrap(), layers)
}

/// The pass over one token, on top of what is cached.
fn token_pass(token: u32, cache: Vec<(Rows, Rows)>) -> (Vec<f32>, Vec<(Rows, Rows)>) {
    let mut h = embed(token);
    let mut layers = Vec::new();
    for (layer, (mut keys, mut values)) in cache.into_iter().enumerate() {
        keys.push(project(&h, layer, 1));
        values.push(project(&h, layer, 2));
        h = attend(&h, layer, &keys, &values);
        layers.push((keys, values));
    }
    (h, layers)
}

fn clip(layers: &mut [(Rows, Rows)], window: Option<usize>) {
    if let Some(w) = window {
        for (keys, values) in layers {
            if keys.len() > w {
                let start = keys.len() - w;
                keys.drain(..start);
                values.drain(..start);
            }
        }
    }
}

fn shared(layers: &[(Rows, Rows)]) -> Vec<SharedKV> {
    layers
        .iter()
        .map(|(k, v)| (matrix(k, KV), matrix(v, KV)))
        .collect()
}

/// A prompt pass that is dispatched layer by layer on the device and waited
/// for: keys and values come out of the handles that the device mints.
fn waited_prompt_pass(tokens: &[u32]) -> PrefillPass {
    let (h, layers) = prompt_pass(tokens);
    let mut hidden = None;
    let mut out = Vec::new();
    for (i, (k, v)) in layers.iter().enumerate() {
        let carried = matrix(&vec![h.clone()], HIDDEN);
        let (pending, handle) =
            MetalBackend.attention_prefill_async(i, (carried, matrix(k, KV), matrix(v, KV)));
        hidden = pending.wait();
        out.push(MetalBackend.read_kv_to_host(&handle).unwrap());
    }
    PrefillPass {
        hidden: hidden.unwrap(),
        layers: out,
    }
}

/// A token pass that is dispatched layer by layer on the device and waited for.
fn waited_token_pass(token: u32, cache: Vec<(Rows, Rows)>) -> DecodePass {
    let (h, layers) = token_pass(token, cache);
    let mut hidden = None;
    let mut out = Vec::new();
    for (i, kv) in shared(&layers).into_iter().enumerate() {
        let mut handle = MetalBackend.alloc_kv_buffer(i, 0, KV);
        let carried = matrix(&vec![h.clone()], HIDDEN);
        let pending = MetalBackend.attention_step_async(&mut handle, Some((carried, kv)));
        hidden = pending.wait();
        out.push(MetalBackend.read_kv_to_host(&handle).unwrap());
    }
    DecodePass {
        hidden,
        layers: out,
    }
}

fn prefill(engine: &mut StandardEngine, tokens: &[u32]) -> Option<Matrix> {
    if engine.is_async() {
        return engine.prefill(tokens, Some(waited_prompt_pass(tokens)));
    }
    let (h, layers) = prompt_pass(tokens);
    let pass = PrefillPass {
        hidden: matrix(&vec![h], HIDDEN),
        layers: shared(&layers),
    };
    engine.prefill(tokens, Some(pass))
}

fn cached(engine: &StandardEngine) -> Vec<(Rows, Rows)> {
    match engine.handles() {
        Some(handles) => handles
            .iter()
            .map(|h| {
                let (k, v) = CpuBackend.read_kv_to_host(h).unwrap();
                (rows(&k), rows(&v))
            })
            .collect(),
        None => vec![],
    }
}

fn decode(engine: &mut StandardEngine, token: u32) -> Option<Matrix> {
    if engine.is_async() {
        let pass = waited_token_pass(token, cached(engine));
        return engine.decode_step(pass);
    }
    let (h, layers) = token_pass(token, cached(engine));
    engine.decode_step(DecodePass {
        hidden: Some(matrix(&vec![h], HIDDEN)),
        layers: shared(&layers),
    })
}

fn run_legacy(prompt: &[u32], max: usize, window: Option<usize>) -> Vec<u32> {
    let (mut h, mut layers) = prompt_pass(prompt);
    clip(&mut layers, window);
    let mut out = Vec::new();
    for _ in 0..max {
        let token = next_token(&h);
        out.push(token);
        (h, layers) = token_pass(token, layers);
        clip(&mut layers, window);
    }
    out
}

fn drive(engine: &mut StandardEngine, prompt: &[u32], max: usize) -> Vec<u32> {
    let mut h = prefill(engine, prompt).unwrap();
    let mut out = Vec::new();
    for _ in 0..max {
        let token = next_token(&rows(&h)[0]);
        out.push(token);
        h = decode(engine, token).unwrap();
    }
    out
}

fn run_engine(prompt: &[u32], max: usize, window: Option<usize>) -> Vec<u32> {
    drive(&mut StandardEngine::new(window), prompt, max)
}

fn run_engine_async(prompt: &[u32], max: usize, window: Option<usize>) -> Vec<u32> {
    let mut engine = StandardEngine::with_async_backend(window, cpu_async_backend());
    drive(&mut engine, prompt, max)
}

#[test]
fn engine_name() {
    assert_eq!(StandardEngine::new(None).name(), "standard");
}

#[test]
fn engine_info_unbounded() {
    let info = StandardEngine::new(None).info();
    assert!(info.config.contains("full"));
}

#[test]
fn engine_info_windowed() {
    let info = StandardEngine::new(Some(128)).info();
    assert!(info.config.contains("128"));
}

#[test]
fn memory_zero_before_prefill() {
    let eng = StandardEngine::new(None);
    assert_eq!(eng.memory_bytes(), 0);
    assert_eq!(eng.window_tokens(), 0);
    assert_eq!(eng.cold_bytes(), 0);
}

#[test]
fn prefill_populates_cache_and_returns_hidden() {
    let mut engine = StandardEngine::new(None);
    let h = prefill(&mut engine, &[0u32, 1, 2]).expect("prefill");
    assert_eq!(h.shape(), (1, HIDDEN));
    assert!(engine.memory_bytes() > 0, "cache should be populated");
    assert!(engine.window_tokens() >= 3);
}

#[test]
fn decode_step_produces_finite_logits() {
    let mut engine = StandardEngine::new(None);
    prefill(&mut engine, &[0u32, 1]).expect("prefill");
    let h = decode(&mut engine, 2).expect("decode");
    assert_eq!(h.shape(), (1, HIDDEN));
    assert!(rows(&h)[0].iter().all(|v| v.is_finite()));
}

#[test]
fn cache_grows_with_decode_steps() {
    let mut engine = StandardEngine::new(None);
    prefill(&mut engine, &[0u32]).expect("prefill");
    let after_prefill = engine.memory_bytes();
    decode(&mut engine, 1).expect("decode 1");
    let after_one = engine.memory_bytes();
    decode(&mut engine, 2).expect("decode 2");
    let after_two = engine.memory_bytes();
    assert!(after_one > after_prefill);
    assert!(after_two > after_one);
}

#[test]
fn sliding_window_clips_cache() {
    let window = 2usize;
    let mut engine = StandardEngine::new(Some(window));
    prefill(&mut engine, &[0u32, 1, 2, 3]).expect("prefill 4 tokens");
    assert!(
        engine.window_tokens() <= window,
        "expected window_tokens ≤ {window}, got {}",
        engine.window_tokens()
    );
}

#[test]
fn decode_step_without_prefill_returns_none() {
    let mut engine = StandardEngine::new(None);
    assert!(decode(&mut engine, 0).is_none());
}

#[test]
fn parity_standard_unbounded_matches_legacy() {
    let prompt = &[2u32, 3, 5, 7];
    let max = 6;
    let legacy = run_legacy(prompt, max, None);
    let engine = run_engine(prompt, max, None);
    assert_eq!(engine, legacy);
}

#[test]
fn parity_standard_windowed_matches_legacy() {
    let prompt = &[1u32, 2, 3, 4, 5];
    let max = 5;
    let window = Some(3);
    let legacy = run_legacy(prompt, max, window);
    let engine = run_engine(prompt, max, window);
    assert_eq!(engine, legacy);
}

#[test]
fn parity_standard_short_prompt_long_window_matches_legacy() {
    let prompt = &[0u32, 1];
    let max = 4;
    let window = Some(64);
    let legacy = run_legacy(prompt, max, window);
    let engine = run_engine(prompt, max, window);
    assert_eq!(engine, legacy);
}

#[test]
fn async_parity_standard_unbounded_matches_sync_engine() {
    let prompt = &[2u32, 3, 5, 7];
    let max = 6;
    let sync = run_engine(prompt, max, None);
    let asynch = run_engine_async(prompt, max, None);
    assert_eq!(sync, asynch);
}

#[test]
fn async_parity_standard_windowed_matches_sync_engine() {
    let prompt = &[1u32, 2, 3, 4, 5];
    let max = 5;
    let window = Some(3);
    let sync = run_engine(prompt, max, window);
    let asynch = run_engine_async(prompt, max, window);
    assert_eq!(sync, asynch);
}

#[test]
fn async_engine_reports_backend_name() {
    let engine = StandardEngine::with_async_backend(None, cpu_async_backend());
    assert!(
        engine.info().backend.starts_with("cpu"),
        "expected backend name to start with \"cpu\", got {:?}",
        engine.info().backend
    );
}

#[test]
fn memory_counts_four_bytes_per_number() {
    let mut engine = StandardEngine::new(None);
    prefill(&mut engine, &[0u32, 1, 2, 3, 4]).unwrap();
    assert_eq!(engine.memory_bytes(), LAYERS * 5 * KV * 2 * 4);
    decode(&mut engine, 5).unwrap();
    assert_eq!(engine.memory_bytes(), LAYERS * 6 * KV * 2 * 4);
    assert_eq!(engine.abs_position(), 6);
}

#[test]
fn window_keeps_the_most_recent_rows() {
    let mut full = StandardEngine::new(None);
    let mut windowed = StandardEngine::new(Some(2));
    prefill(&mut full, &[4, 3, 2, 1]).unwrap();
    prefill(&mut windowed, &[4, 3, 2, 1]).unwrap();
    for ((k, v), (wk, wv)) in cached(&full).iter().zip(cached(&windowed).iter()) {
        assert_eq!(&k[2..], &wk[..]);
        assert_eq!(&v[2..], &wv[..]);
    }
    for _ in 0..3 {
        decode(&mut windowed, 9).unwrap();
        assert_eq!(windowed.window_tokens(), 2);
    }
    assert_eq!(windowed.abs_position(), 7);
    assert_eq!(windowed.window_size(), Some(2));
}

#[test]
fn failed_passes_do_not_move_the_position() {
    let mut engine = StandardEngine::new(None);
    assert!(engine.prefill(&[1, 2], None).is_none());
    assert!(engine.handles().is_none());
    assert_eq!(engine.abs_position(), 0);

    prefill(&mut engine, &[1, 2]).unwrap();
    let (_, layers) = token_pass(3, cached(&engine));
    let failed = DecodePass {
        hidden: None,
        layers: shared(&layers[..1]),
    };
    assert!(engine.decode_step(failed).is_none());
    assert_eq!(engine.abs_position(), 2);
    let lens: Vec<usize> = engine.handles().unwrap().iter().map(|h| h.cached_len()).collect();
    assert_eq!(lens, vec![3, 2]);

    let stale = engine.prefill(&[1, 2, 3], None);
    assert!(stale.is_none());
    assert_eq!(engine.abs_position(), 2);
}

#[test]
fn description_rounds_as_the_formatter_does() {
    let kib = 1024usize;
    for rows in [1usize, 3, 51, 52, 64, 100, 500, 1024, 5000] {
        // A layer of `rows` rows, 128 wide, takes `rows` kibibytes.
        let mut engine = StandardEngine::with_backend(
            None,
            EngineBackend { name: "other".into() },
        );
        let zeros = || Matrix::zeros(rows, 128);
        let pass = PrefillPass {
            hidden: Matrix::zeros(1, 1),
            layers: vec![(zeros(), zeros())],
        };
        engine.prefill(&[0], Some(pass)).unwrap();
        assert_eq!(engine.memory_bytes(), rows * kib);
        let info = engine.info();
        assert_eq!(
            info.description,
            format!(
                "production K/V tensor cache — full FP32 K/V per layer (mem={:.1}MB)",
                (rows * kib) as f64 / 1_048_576.0
            )
        );
        assert_eq!(info.name, "standard");
        assert_eq!(info.backend, "other");
        assert_eq!(info.config, "window=full");
    }
    let info = StandardEngine::new(Some(10)).info();
    assert_eq!(info.config, "window=10");
    assert_eq!(info.backend, "cpu (BLAS + C Q4 kernel)");
    let named = AsyncComputeBackend { name: "metal".into() };
    assert_eq!(
        StandardEngine::with_async_backend(None, named).info().backend,
        "metal"
    );
}

#[test]
fn exact_halves_round_to_even() {
    // 51.2 KiB are a twentieth of a mebibyte; 256 KiB are a quarter of one.
    for (rows, text) in [(256usize, "0.2"), (768, "0.8"), (1280, "1.2")] {
        let mut engine = StandardEngine::new(None);
        let zeros = || Matrix::zeros(rows, 128);
        let pass = PrefillPass {
            hidden: Matrix::zeros(1, 1),
            layers: vec![(zeros(), zeros())],
        };
        engine.prefill(&[0], Some(pass)).unwrap();
        let shown = format!("{:.1}", (rows * 1024) as f64 / 1_048_576.0);
        assert_eq!(shown, text);
        assert!(engine.info().description.contains(&format!("mem={text}MB")));
    }
}

#[test]
fn an_engine_knows_how_its_backend_is_driven() {
    assert!(!StandardEngine::new(None).is_async());
    let sync = EngineBackend { name: "b".into() };
    assert!(!StandardEngine::with_backend(None, sync).is_async());
    let mut engine = StandardEngine::with_async_backend(Some(2), cpu_async_backend());
    assert!(engine.is_async());
    prefill(&mut engine, &[1, 2, 3]).unwrap();
    decode(&mut engine, 4).unwrap();
    assert!(engine.is_async());
}

#[test]
fn position_is_prompt_length_plus_successes() {
    let mut engine = StandardEngine::new(None);
    prefill(&mut engine, &[5, 6, 7]).unwrap();
    let mut k = 0;
    for i in 0..6u32 {
        assert_eq!(engine.abs_position(), 3 + k);
        let bytes = engine.memory_bytes();
        if i % 3 == 2 {
            let failed = DecodePass {
                hidden: None,
                layers: vec![],
            };
            assert!(engine.decode_step(failed).is_none());
            assert_eq!(engine.memory_bytes(), bytes);
        } else {
            decode(&mut engine, i).unwrap();
            assert!(engine.memory_bytes() > bytes);
            k += 1;
        }
    }
    assert_eq!(engine.abs_position(), 3 + k);
}
