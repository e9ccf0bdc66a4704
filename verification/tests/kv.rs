use larql::kv::cpu::{
    cpu_handle, cpu_handle_mut, cpu_residual, CpuBackend, DecodePath, DecodeRun, ResidualHandle,
};
use larql::kv::decode_state::{DecodeStateDump, PerLayerDecodeState};
use larql::kv::handle::{CpuQ4kCacheHandle, KvHandle, MetalCoarseHandle};
use larql::kv::matrix::Matrix;
use larql::kv::metal::{MetalBackend, PrefillPath, TokenStep};

fn m(rows: usize, cols: usize, cells: &[u32]) -> Matrix {
    Matrix::from_shape_vec(rows, cols, cells.to_vec()).unwrap()
}

#[test]
fn with_capacity_returns_empty_vectors() {
    let s = PerLayerDecodeState::with_capacity(4);
    assert!(s.h_in_per_layer.is_empty());
    assert!(s.k_new_per_layer.is_empty());
    assert!(s.v_new_per_layer.is_empty());
    assert!(!s.is_complete_for(4));
}

#[test]
fn is_complete_for_pins_per_layer_count() {
    let mut s = PerLayerDecodeState::with_capacity(2);
    s.h_in_per_layer.push(Matrix::zeros(1, 4));
    s.k_new_per_layer.push(Matrix::zeros(1, 2));
    s.v_new_per_layer.push(Matrix::zeros(1, 2));
    assert!(!s.is_complete_for(2));
    s.h_in_per_layer.push(Matrix::zeros(1, 4));
    s.k_new_per_layer.push(Matrix::zeros(1, 2));
    s.v_new_per_layer.push(Matrix::zeros(1, 2));
    assert!(s.is_complete_for(2));
}

#[test]
fn reset_clears_without_freeing_capacity() {
    let mut s = PerLayerDecodeState::with_capacity(4);
    for _ in 0..4 {
        s.h_in_per_layer.push(Matrix::zeros(1, 8));
    }
    s.reset();
    assert!(s.h_in_per_layer.is_empty());
    assert!(s.h_in_per_layer.capacity() >= 4);
}

#[test]
fn matrices_hold_rows() {
    let mut a = m(2, 3, &[1, 2, 3, 4, 5, 6]);
    assert_eq!(a.shape(), (2, 3));
    assert_eq!(a.to_flat(), vec![1, 2, 3, 4, 5, 6]);
    let copy = a.duplicate();
    a.append_rows(&m(1, 3, &[7, 8, 9]));
    assert_eq!(a.shape(), (3, 3));
    assert_eq!(a.to_flat(), vec![1, 2, 3, 4, 5, 6, 7, 8, 9]);
    assert_eq!(copy.to_flat(), vec![1, 2, 3, 4, 5, 6]);
    let part = a.rows_between(1, 3);
    assert_eq!(part.shape(), (2, 3));
    assert_eq!(part.to_flat(), vec![4, 5, 6, 7, 8, 9]);
    assert_eq!(a.rows_between(2, 2).shape(), (0, 3));
    a.set_row(0, &vec![0, 10, 20]);
    assert_eq!(a.to_flat(), vec![0, 10, 20, 4, 5, 6, 7, 8, 9]);
    assert_eq!(Matrix::zeros(2, 2).to_flat(), vec![0, 0, 0, 0]);
}

#[test]
fn matrices_take_exactly_the_cells_of_their_shape() {
    assert!(Matrix::from_shape_vec(2, 2, vec![1, 2, 3]).is_none());
    assert!(Matrix::from_shape_vec(2, 2, vec![1, 2, 3, 4, 5]).is_none());
    assert!(Matrix::from_shape_vec(0, 4, vec![]).is_some());
    assert!(Matrix::from_shape_vec(usize::MAX, 2, vec![]).is_none());
}

#[test]
fn rows_are_appended_and_clipped() {
    let cpu = CpuBackend;
    let mut h = cpu.alloc_kv_buffer(3, 100, 2);
    assert_eq!(h.cached_len(), 0);
    assert_eq!(h.kv_dim(), 2);
    assert_eq!(h.backend_name(), "cpu");
    assert!(cpu.read_kv_to_host(&h).is_none());
    for i in 0..4u32 {
        cpu.append_kv(&mut h, &[i, i + 10], &[i + 20, i + 30], 7);
    }
    assert_eq!(h.cached_len(), 4);
    cpu.clip_kv(&mut h, 9);
    assert_eq!(h.cached_len(), 4);
    cpu.clip_kv(&mut h, 2);
    let (k, v) = cpu.read_kv_to_host(&h).unwrap();
    assert_eq!(k.to_flat(), vec![2, 12, 3, 13]);
    assert_eq!(v.to_flat(), vec![22, 32, 23, 33]);
    cpu.clip_kv(&mut h, 0);
    assert_eq!(h.cached_len(), 0);
    assert_eq!(cpu_handle(&h).layer, 3);
    assert_eq!(cpu_handle_mut(&mut h).kv_dim, 2);
}

#[test]
fn attention_replaces_the_cache_only_on_success() {
    let cpu = CpuBackend;
    let pass = (m(2, 1, &[1, 2]), m(2, 2, &[1, 2, 3, 4]), m(2, 2, &[5, 6, 7, 8]));
    let (hidden, mut h) = cpu.attention_prefill(1, Some(pass)).unwrap();
    assert_eq!(hidden.to_flat(), vec![1, 2]);
    assert_eq!((h.cached_len(), h.kv_dim()), (2, 2));
    assert!(cpu.attention_prefill(1, None).is_none());

    assert!(cpu.attention_step(&mut h, None).is_none());
    assert_eq!(h.cached_len(), 2);
    let grown = || (m(3, 2, &[1, 2, 3, 4, 5, 6]), m(3, 2, &[9, 8, 7, 6, 5, 4]));
    let out = cpu.attention_step(&mut h, Some((m(1, 1, &[42]), grown()))).unwrap();
    assert_eq!(out.to_flat(), vec![42]);
    assert_eq!(h.cached_len(), 3);
    let out = cpu
        .attention_step_windowed(&mut h, 2, Some((m(1, 1, &[43]), grown())))
        .unwrap();
    assert_eq!(out.to_flat(), vec![43]);
    let (k, v) = cpu.read_kv_to_host(&h).unwrap();
    assert_eq!(k.to_flat(), vec![3, 4, 5, 6]);
    assert_eq!(v.to_flat(), vec![7, 6, 5, 4]);
}

#[test]
fn residuals_are_stored_flat() {
    let up = CpuBackend
        .upload_boundary_residual(&m(2, 2, &[1, 2, 3, 4]))
        .unwrap();
    let r = cpu_residual(&up);
    assert_eq!(r.flat, vec![1, 2, 3, 4]);
    assert_eq!(r.shape(), (2, 2));
    assert_eq!(r.backend_name(), "cpu");
    assert!(matches!(up, ResidualHandle::Cpu(_)));
    let last = CpuBackend.forward_from_layer(&m(2, 2, &[1, 2, 3, 4])).unwrap();
    assert_eq!(last.to_flat(), vec![3, 4]);
}

#[test]
fn quantised_prefill_needs_tokens_an_index_and_support() {
    let cpu = CpuBackend;
    let run = || {
        let cache = vec![None, Some((m(2, 3, &[0; 6]), m(2, 3, &[0; 6])))];
        Some((m(2, 2, &[1, 2, 3, 4]), cache))
    };
    let captured = || PerLayerDecodeState {
        h_in_per_layer: vec![m(2, 1, &[1, 2])],
        k_new_per_layer: vec![m(2, 1, &[3, 4])],
        v_new_per_layer: vec![m(2, 1, &[5, 6])],
    };
    assert!(cpu.coarse_prefill(&[], true, true, run()).is_none());
    assert!(cpu.coarse_prefill(&[1], false, true, run()).is_none());
    let mut state = PerLayerDecodeState::default();
    assert!(cpu
        .coarse_prefill_with_state(&[1], true, false, run(), captured(), &mut state)
        .is_none());
    assert!(state.is_complete_for(0));
    let (h, handle) = cpu
        .coarse_prefill_with_state(&[1, 2], true, true, run(), captured(), &mut state)
        .unwrap();
    assert_eq!(h.to_flat(), vec![3, 4]);
    assert_eq!(handle.backend_name(), "cpu-q4k");
    // The first layer that has keys tells the shape.
    assert_eq!((handle.cached_len(), handle.kv_dim()), (2, 3));
    assert!(state.is_complete_for(1));
    assert_eq!(state.k_new_per_layer[0].to_flat(), vec![3, 4]);
    let copy = state.clone();
    state.reset();
    assert_eq!(copy.v_new_per_layer[0].to_flat(), vec![5, 6]);
    let (h, _) = cpu.coarse_prefill(&[1, 2], true, true, run()).unwrap();
    assert_eq!(h.to_flat(), vec![3, 4]);
}

#[test]
fn rows_are_appended_behind_uneven_caches() {
    let cpu = CpuBackend;
    let pass = (m(1, 1, &[1]), m(1, 2, &[1, 2]), m(2, 2, &[3, 4, 5, 6]));
    let (_, mut h) = cpu.attention_prefill(0, Some(pass)).unwrap();
    cpu.append_kv(&mut h, &[7, 8], &[9, 10], 0);
    let (k, v) = cpu.read_kv_to_host(&h).unwrap();
    assert_eq!(k.to_flat(), vec![1, 2, 7, 8]);
    assert_eq!(v.to_flat(), vec![3, 4, 5, 6, 9, 10]);
    cpu.clip_kv(&mut h, 0);
    let (k, v) = cpu.read_kv_to_host(&h).unwrap();
    assert_eq!((k.shape(), v.shape()), ((0, 2), (0, 2)));
}

#[test]
fn quantised_decode_prefers_the_direct_path() {
    let cpu = CpuBackend;
    assert_eq!(cpu.coarse_decode_path(false, true), DecodePath::Refused);
    assert_eq!(cpu.coarse_decode_path(true, true), DecodePath::Direct);
    assert_eq!(cpu.coarse_decode_path(true, false), DecodePath::Dequantised);

    let mut h = KvHandle::CpuQ4k(CpuQ4kCacheHandle { cache: vec![] });
    let run = || DecodeRun {
        hidden: Some(m(1, 1, &[5])),
        cache: vec![Some((m(1, 2, &[1, 2]), m(1, 2, &[3, 4])))],
    };
    assert!(cpu.coarse_decode_step(DecodePath::Refused, &mut h, None).is_none());
    assert_eq!(h.cached_len(), 0);
    let out = cpu.coarse_decode_step(DecodePath::Direct, &mut h, Some(run())).unwrap();
    assert_eq!(out.to_flat(), vec![5]);
    assert_eq!(h.cached_len(), 1);

    let captured = || PerLayerDecodeState {
        h_in_per_layer: vec![m(1, 1, &[1])],
        k_new_per_layer: vec![m(1, 1, &[2])],
        v_new_per_layer: vec![m(1, 1, &[3])],
    };
    let mut state = PerLayerDecodeState::with_capacity(1);
    cpu.coarse_decode_step_with_state(
        DecodePath::Dequantised,
        &mut h,
        Some(run()),
        captured(),
        &mut state,
    );
    assert!(state.is_complete_for(0));
    cpu.coarse_decode_step_with_state(
        DecodePath::Direct,
        &mut h,
        Some(run()),
        captured(),
        &mut state,
    );
    assert!(state.is_complete_for(1));
}

fn step(hidden: u32, rows: &[(Vec<u32>, Vec<u32>, Vec<u32>)]) -> TokenStep {
    TokenStep {
        hidden: m(1, 1, &[hidden]),
        dump: DecodeStateDump {
            h_in_per_layer: rows.iter().map(|r| r.0.clone()).collect(),
            k_new_per_layer: rows.iter().map(|r| r.1.clone()).collect(),
            v_new_per_layer: rows.iter().map(|r| r.2.clone()).collect(),
        },
    }
}

#[test]
fn device_prefill_paths() {
    let metal = MetalBackend;
    assert!(matches!(metal.prefill_path(false, true, &[1]), PrefillPath::Refused));
    assert!(matches!(metal.prefill_path(true, false, &[]), PrefillPath::Fused));
    assert!(matches!(metal.prefill_path(true, true, &[]), PrefillPath::Refused));
    assert!(matches!(metal.prefill_path(true, true, &[1]), PrefillPath::Stepwise));
    assert!(metal.coarse_prefill(false, Some(m(1, 1, &[1]))).is_none());
    let (h, handle) = metal.coarse_prefill(true, Some(m(1, 1, &[1]))).unwrap();
    assert_eq!(h.to_flat(), vec![1]);
    assert_eq!(handle.backend_name(), "metal-coarse");
    assert_eq!((handle.cached_len(), handle.kv_dim()), (0, 0));
    assert_eq!(MetalCoarseHandle.cached_len(), 0);
}

#[test]
fn device_prefill_gathers_rows_per_layer() {
    let metal = MetalBackend;
    let steps = vec![
        Some(step(7, &[(vec![1, 2], vec![3], vec![4]), (vec![5, 6], vec![7], vec![8])])),
        Some(step(9, &[(vec![11, 12], vec![13], vec![14]), (vec![15, 16], vec![17], vec![18])])),
    ];
    let mut state = PerLayerDecodeState::with_capacity(2);
    let (h, handle) = metal
        .coarse_prefill_with_state(true, &[3, 4], 2, &vec![(1, 1), (1, 1)], steps, &mut state)
        .unwrap();
    assert_eq!(h.to_flat(), vec![9]);
    assert_eq!(handle.backend_name(), "metal-coarse");
    assert!(state.is_complete_for(2));
    assert_eq!(state.h_in_per_layer[0].to_flat(), vec![1, 2, 11, 12]);
    assert_eq!(state.k_new_per_layer[1].to_flat(), vec![7, 17]);
    assert_eq!(state.v_new_per_layer[0].to_flat(), vec![4, 14]);
}

#[test]
fn device_decode_adds_one_row_per_layer() {
    let metal = MetalBackend;
    let mut state = PerLayerDecodeState::with_capacity(2);
    let good = step(7, &[(vec![1, 2], vec![3], vec![4]), (vec![5, 6], vec![7], vec![8])]);
    let out = metal.coarse_decode_step_with_state(true, 2, 2, Some(good), &mut state);
    assert_eq!(out.unwrap().to_flat(), vec![7]);
    assert!(state.is_complete_for(2));
    assert_eq!(state.h_in_per_layer[1].to_flat(), vec![5, 6]);

    assert!(state.k_new_per_layer.iter().all(|m| m.shape().0 == 1));

    // A dump for another number of layers fails the step.
    let mut state = PerLayerDecodeState::with_capacity(2);
    let short = step(7, &[(vec![1, 2], vec![3], vec![4])]);
    let out = metal.coarse_decode_step_with_state(true, 2, 2, Some(short), &mut state);
    assert!(out.is_none());
    assert!(state.is_complete_for(0));

    // A row of the wrong width fails the step and leaves what came before it.
    let wrong = step(7, &[(vec![1, 2], vec![3], vec![4]), (vec![5, 6], vec![7], vec![8, 9])]);
    let out = metal.coarse_decode_step_with_state(true, 2, 2, Some(wrong), &mut state);
    assert!(out.is_none());
    assert!(!state.is_complete_for(2));
    assert_eq!(state.h_in_per_layer.len(), 2);
    assert_eq!(state.k_new_per_layer.len(), 2);
    assert_eq!(state.v_new_per_layer.len(), 1);

    let mut state = PerLayerDecodeState::with_capacity(2);
    let good = step(7, &[(vec![1, 2], vec![3], vec![4])]);
    let out = metal.coarse_decode_step_with_state(false, 1, 2, Some(good), &mut state);
    assert!(out.is_none());
    assert!(metal.coarse_decode_step(true, Some(m(1, 1, &[1]))).is_some());
    assert!(metal.coarse_decode_step(false, Some(m(1, 1, &[1]))).is_none());
}

#[test]
fn device_single_layer_work_is_the_hosts() {
    let metal = MetalBackend;
    let mut a = metal.alloc_kv_buffer(0, 8, 1);
    let mut b = CpuBackend.alloc_kv_buffer(0, 8, 1);
    assert_eq!(a.backend_name(), b.backend_name());
    for i in 0..3u32 {
        metal.append_kv(&mut a, &[i], &[i + 5], 0);
        CpuBackend.append_kv(&mut b, &[i], &[i + 5], 0);
    }
    metal.clip_kv(&mut a, 2);
    CpuBackend.clip_kv(&mut b, 2);
    let (ka, va) = metal.read_kv_to_host(&a).unwrap();
    let (kb, vb) = CpuBackend.read_kv_to_host(&b).unwrap();
    assert_eq!(ka.to_flat(), kb.to_flat());
    assert_eq!(va.to_flat(), vb.to_flat());

    let kv = || (m(3, 1, &[1, 2, 3]), m(3, 1, &[4, 5, 6]));
    let waited = metal
        .attention_step_windowed_async(&mut a, 1, Some((m(1, 1, &[9]), kv())))
        .wait();
    assert_eq!(waited.unwrap().to_flat(), vec![9]);
    assert_eq!(a.cached_len(), 1);
    assert!(metal.attention_step_async(&mut a, None).wait().is_none());
    let (pending, handle) =
        metal.attention_prefill_async(4, (m(1, 1, &[8]), m(1, 2, &[1, 2]), m(1, 2, &[3, 4])));
    assert_eq!(pending.wait().unwrap().to_flat(), vec![8]);
    assert_eq!(cpu_handle(&handle).layer, 4);
    let last = metal.forward_from_layer_async(&m(2, 1, &[1, 2])).wait();
    assert_eq!(last.unwrap().to_flat(), vec![2]);
    let (upload, residual) = metal.upload_boundary_residual_async(&m(1, 2, &[1, 2]));
    assert!(upload.done);
    assert_eq!(cpu_residual(&residual).flat, vec![1, 2]);
}
