use gpt2::sampler::{top_k, Rng};

/// A `u32` that orders as `f32::total_cmp` orders the scores.
fn order_key(x: f32) -> u32 {
    let b = x.to_bits();
    if b & 0x8000_0000 != 0 {
        !b
    } else {
        b | 0x8000_0000
    }
}

fn next_f32(rng: &mut Rng) -> f32 {
    rng.next_u24() as f32 / (1u64 << 24) as f32
}

fn softmax(x: &mut [f32]) {
    let mut max = f32::NEG_INFINITY;
    for i in 0..x.len() {
        if x[i] > max {
            max = x[i];
        }
    }
    let mut sum = 0.0;
    for i in 0..x.len() {
        x[i] = (x[i] - max).exp();
        sum += x[i];
    }
    for i in 0..x.len() {
        x[i] /= sum;
    }
}

/// Top-k sampling as the generator does it: rank with the library, then
/// roll the die over the softmax of the k best scores.
fn sample_top_k(logits: &[f32], k: usize, temperature: f32, rng: &mut Rng) -> u32 {
    assert!(k >= 1 && k <= logits.len(), "k must be 1..=vocab size");
    assert!(temperature > 0.0, "temperature must be above 0");
    let keys: Vec<u32> = logits.iter().map(|&x| order_key(x)).collect();
    let order = top_k(&keys, k);
    if k == 1 {
        return order[0] as u32;
    }
    let mut probs: Vec<f32> = order.iter().map(|&id| logits[id] / temperature).collect();
    softmax(&mut probs);
    let r = next_f32(rng);
    let mut total = 0.0;
    for (i, &p) in probs.iter().enumerate() {
        total += p;
        if r < total {
            return order[i] as u32;
        }
    }
    order[k - 1] as u32
}

#[test]
fn k1_is_greedy() {
    let mut rng = Rng::new(1);
    assert_eq!(sample_top_k(&[0.1, 3.0, -2.0, 2.9], 1, 1.0, &mut rng), 1);
}

#[test]
fn only_top_k_are_picked() {
    let mut rng = Rng::new(42);
    let logits = [5.0, 4.0, -1.0, 0.0, 4.5];
    for _ in 0..1000 {
        let id = sample_top_k(&logits, 2, 1.0, &mut rng);
        assert!(id == 0 || id == 4, "picked {id}, which is not in the top 2");
    }
}

#[test]
fn picks_follow_the_percentages() {
    // scores ln(3) and 0 -> softmax gives 75% and 25%
    let mut rng = Rng::new(7);
    let logits = [3.0f32.ln(), 0.0];
    let mut count0 = 0;
    for _ in 0..10000 {
        if sample_top_k(&logits, 2, 1.0, &mut rng) == 0 {
            count0 += 1;
        }
    }
    assert!((7200..7800).contains(&count0), "token 0 picked {count0}/10000 times");
}

#[test]
fn same_seed_same_numbers() {
    let mut a = Rng::new(123);
    let mut b = Rng::new(123);
    for _ in 0..10 {
        let x = next_f32(&mut a);
        assert_eq!(x, next_f32(&mut b));
        assert!((0.0..1.0).contains(&x));
    }
}

#[test]
fn xorshift_from_one() {
    let mut rng = Rng::new(1);
    assert_eq!(rng.next_u64(), 1082269761);
    assert_eq!(rng.next_u64(), 1152992998833853505);
}

#[test]
fn zero_seed_is_replaced() {
    let mut rng = Rng::new(0);
    assert_eq!(rng.next_u64(), 15860402102123842989);
}

#[test]
fn next_u24_is_the_top_bits() {
    let mut a = Rng::new(99);
    let mut b = Rng::new(99);
    for _ in 0..100 {
        let bits = a.next_u24();
        assert_eq!(bits as u64, b.next_u64() >> 40);
        assert!(bits < (1 << 24));
    }
}

#[test]
fn top_k_ranks_by_key_then_index() {
    let keys = [5, 9, 9, 1, 7];
    assert_eq!(top_k(&keys, 3), vec![1, 2, 4]);
    assert_eq!(top_k(&keys, 5), vec![1, 2, 4, 0, 3]);
    assert_eq!(top_k(&keys, 1), vec![1]);
}

#[test]
fn top_k_follows_float_order() {
    let logits = [0.0f32, -0.0, f32::NEG_INFINITY, -3.5, 2.25, 2.25];
    let keys: Vec<u32> = logits.iter().map(|&x| order_key(x)).collect();
    assert_eq!(top_k(&keys, 6), vec![4, 5, 0, 1, 3, 2]);
}
