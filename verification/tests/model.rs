use gpt2::model::{
    load_weights, weight_entry, Generation, GenerationStep, KvCache, DIM, END_OF_TEXT, MAX_POS,
    N_LAYER,
};
use gpt2::safetensors::{SafeTensors, SafeTensorsError, TensorInfo};

#[test]
fn new_cache_is_empty() {
    let cache: KvCache<f32> = KvCache::new();
    assert_eq!(cache.len(), 0);
    for l in 0..N_LAYER {
        assert!(cache.layer_keys(l).is_empty());
        assert!(cache.layer_values(l).is_empty());
    }
}

fn row(first: i32) -> Vec<i32> {
    (0..DIM as i32).map(|i| first + i).collect()
}

#[test]
fn cache_appends_rows_per_layer() {
    let mut cache: KvCache<i32> = KvCache::new();
    assert!(cache.holds_rows(0));
    cache.append(3, &row(1), &row(2));
    assert!(!cache.holds_rows(1));
    cache.append(3, &row(5), &row(7));
    cache.append(0, &row(9), &row(10));
    let mut keys3 = row(1);
    keys3.extend(row(5));
    let mut values3 = row(2);
    values3.extend(row(7));
    assert_eq!(cache.layer_keys(3), &keys3);
    assert_eq!(cache.layer_values(3), &values3);
    assert_eq!(cache.layer_keys(0), &row(9));
    assert!(cache.layer_keys(1).is_empty());
    assert_eq!(cache.len(), 0);
}

#[test]
fn cache_counts_complete_tokens() {
    let mut cache: KvCache<i32> = KvCache::new();
    for l in 0..N_LAYER {
        cache.append(l, &row(0), &row(0));
        cache.append(l, &row(1), &row(1));
    }
    assert!(cache.holds_rows(2));
    cache.advance(2);
    assert_eq!(cache.len(), 2);
    assert!(cache.holds_rows(2));
}

#[test]
fn cache_room_is_bounded() {
    let cache: KvCache<f32> = KvCache::new();
    assert!(!cache.has_room(0));
    assert!(cache.has_room(MAX_POS));
    assert!(!cache.has_room(MAX_POS + 1));
}

#[test]
fn generation_stops_at_end_of_text() {
    let mut g = Generation::new(5, 3);
    assert!(g.wants_token());
    assert_eq!(g.expected_cache_len(), 3);
    assert_eq!(g.accept(7, 3), GenerationStep::Emit(7));
    assert_eq!(g.expected_cache_len(), 4);
    assert_eq!(g.accept(END_OF_TEXT, 4), GenerationStep::Stop);
    assert!(!g.wants_token());
    assert_eq!(g.into_ids(), vec![7]);
}

#[test]
fn generation_respects_the_limit() {
    let mut g = Generation::new(2, 1);
    assert_eq!(g.accept(1, 1), GenerationStep::Emit(1));
    assert!(g.wants_token());
    assert_eq!(g.accept(2, 2), GenerationStep::Emit(2));
    assert!(!g.wants_token());
    assert_eq!(g.into_ids(), vec![1, 2]);
}

#[test]
fn generation_stops_when_cache_is_full() {
    // a prompt of 1022 tokens leaves room for 1025 - 1022 = 3 new ids
    let mut g = Generation::new(10, MAX_POS - 2);
    assert_eq!(g.accept(4, MAX_POS - 2), GenerationStep::Emit(4));
    assert_eq!(g.accept(5, MAX_POS - 1), GenerationStep::Emit(5));
    assert_eq!(g.accept(6, MAX_POS), GenerationStep::EmitLast(6));
    assert!(!g.wants_token());
    let ids = g.into_ids();
    assert_eq!(ids, vec![4, 5, 6]);
    assert!(ids.len() <= MAX_POS + 1 - (MAX_POS - 2));
}

#[test]
fn full_prompt_gives_one_token() {
    let mut g = Generation::new(10, MAX_POS);
    assert_eq!(g.accept(9, MAX_POS), GenerationStep::EmitLast(9));
    assert_eq!(g.into_ids(), vec![9]);
}

#[test]
fn weight_layout_follows_the_checkpoint() {
    assert_eq!(weight_entry(0), ("h.0.ln_1.weight".to_string(), vec![768]));
    assert_eq!(weight_entry(2), ("h.0.attn.c_attn.weight".to_string(), vec![768, 2304]));
    assert_eq!(weight_entry(21), ("h.1.mlp.c_fc.bias".to_string(), vec![3072]));
    assert_eq!(weight_entry(130), ("h.10.mlp.c_proj.weight".to_string(), vec![3072, 768]));
    assert_eq!(weight_entry(143), ("h.11.mlp.c_proj.bias".to_string(), vec![768]));
    assert_eq!(weight_entry(144), ("wte.weight".to_string(), vec![50257, 768]));
    assert_eq!(weight_entry(145), ("wpe.weight".to_string(), vec![1024, 768]));
    assert_eq!(weight_entry(147), ("ln_f.bias".to_string(), vec![768]));
}

fn checkpoint(entries: Vec<(String, Result<TensorInfo, String>)>, data_len: usize) -> SafeTensors {
    let mut f = vec![2, 0, 0, 0, 0, 0, 0, 0];
    f.extend_from_slice(b"{}");
    f.resize(10 + data_len, 0);
    SafeTensors::from_header(f, entries).unwrap()
}

fn f32_info(shape: &[usize], start: usize, end: usize) -> TensorInfo {
    TensorInfo { dtype: "F32".to_string(), shape: shape.to_vec(), data_offsets: [start, end] }
}

#[test]
fn loading_stops_at_the_first_missing_weight() {
    let empty = checkpoint(vec![], 0);
    match load_weights(&empty) {
        Err(SafeTensorsError::NotFound(name)) => assert_eq!(name, "h.0.ln_1.weight"),
        _ => panic!("expected the first weight to be missing"),
    }

    let one = checkpoint(
        vec![("h.0.ln_1.weight".to_string(), Ok(f32_info(&[768], 0, 3072)))],
        3072,
    );
    match load_weights(&one) {
        Err(SafeTensorsError::NotFound(name)) => assert_eq!(name, "h.0.ln_1.bias"),
        _ => panic!("expected the second weight to be missing"),
    }
}

#[test]
fn loading_checks_each_shape() {
    let wrong = checkpoint(
        vec![("h.0.ln_1.weight".to_string(), Ok(f32_info(&[2, 384], 0, 3072)))],
        3072,
    );
    match load_weights(&wrong) {
        Err(SafeTensorsError::WrongShape(name, want, got)) => {
            assert_eq!(name, "h.0.ln_1.weight");
            assert_eq!(want, vec![768]);
            assert_eq!(got, vec![2, 384]);
        }
        _ => panic!("expected a shape mismatch"),
    }
}
