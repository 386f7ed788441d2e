use rand::{rngs::StdRng, RngCore, SeedableRng};
use random_picker::{le, locate, tally, Draw, Error, Walker};

#[test]
fn le_follows_float_order() {
    let vals = [f64::NEG_INFINITY, -3.5, -0.0, 0.0, 1e-310, 0.25, 2.0, f64::INFINITY, f64::NAN];
    for &a in &vals {
        for &b in &vals {
            assert_eq!(le(a.to_bits(), b.to_bits()), a <= b, "{a} <= {b}");
        }
    }
}

#[test]
fn locate_finds_first_cell_at_or_above() {
    let grid: Vec<u64> = [0.1f64, 0.3, 0.6, 1.0].iter().map(|v| v.to_bits()).collect();
    assert_eq!(locate(&grid, 0.0f64.to_bits()), 0);
    assert_eq!(locate(&grid, 0.1f64.to_bits()), 0);
    assert_eq!(locate(&grid, 0.2f64.to_bits()), 1);
    assert_eq!(locate(&grid, 0.6f64.to_bits()), 2);
    assert_eq!(locate(&grid, 0.99f64.to_bits()), 3);
    // above the grid, or not a number: the last cell
    assert_eq!(locate(&grid, 1.5f64.to_bits()), 3);
    assert_eq!(locate(&grid, f64::NAN.to_bits()), 3);
}

#[test]
fn draw_refuses_amount_over_table_without_repetition() {
    assert!(matches!(Draw::start(3, false, 4), Err(Error::InvalidAmount)));
    assert!(Draw::start(3, true, 4).is_ok());
    assert!(Draw::start(3, false, 3).is_ok());
}

#[test]
fn draw_rejects_repeats_without_repetition() {
    let mut d = Draw::start(4, false, 3).unwrap();
    assert!(d.offer(2));
    assert!(!d.offer(2));
    assert!(d.offer(0));
    assert!(!d.is_complete());
    assert!(!d.offer(0));
    assert!(d.offer(3));
    assert!(d.is_complete());
    assert_eq!(d.picked(), &vec![2, 0, 3]);
}

#[test]
fn draw_accepts_repeats_with_repetition() {
    let mut d = Draw::start(2, true, 3).unwrap();
    assert!(d.offer(1));
    assert!(d.offer(1));
    assert!(d.offer(1));
    assert!(d.is_complete());
    assert_eq!(d.picked(), &vec![1, 1, 1]);
}

#[test]
fn draw_of_nothing_is_complete() {
    let d = Draw::start(0, false, 0).unwrap();
    assert!(d.is_complete());
    assert!(d.picked().is_empty());
}

#[test]
fn tally_counts_each_index_once() {
    let mut freq = vec![0usize, 5, 0, 1];
    tally(&mut freq, &vec![1, 3, 1, 1]);
    assert_eq!(freq, vec![0, 6, 0, 2]);
    tally(&mut freq, &vec![]);
    assert_eq!(freq, vec![0, 6, 0, 2]);
}

fn inclusion(w: &[f64], amount: usize) -> Vec<f64> {
    let n = w.len();
    let mut result = w.to_vec();
    for first in 0..n {
        let mut walker = Walker::branch(n, first, amount);
        let mut rem = 0.0f64;
        for (i, v) in w.iter().enumerate() {
            if i != first {
                rem += v;
            }
        }
        let mut probs: Vec<f64> = Vec::new();
        let mut sub = vec![0.0f64; n];
        while let Some(mv) = walker.step() {
            for &p in &mv.popped {
                probs.pop();
                rem += w[p];
            }
            let parent = probs.last().copied().unwrap_or(1.0);
            let prob = parent * w[mv.pushed] / rem;
            probs.push(prob);
            rem -= w[mv.pushed];
            sub[mv.pushed] += prob;
        }
        for i in 0..n {
            result[i] += w[first] * sub[i];
        }
    }
    result
}

#[test]
fn sampled_frequencies_match_exact_probabilities() {
    let weights = [
        856.0, 139.0, 297.0, 378.0, 1304.0, 289.0, 199.0, 528.0, 627.0, 13.0, 42.0, 339.0, 249.0,
        707.0, 797.0, 199.0, 12.0, 677.0, 607.0, 1045.0, 249.0, 92.0, 149.0, 17.0, 199.0, 8.0,
    ];
    let total: f64 = weights.iter().sum();
    let w: Vec<f64> = weights.iter().map(|v| v / total).collect();
    let exact = inclusion(&w, 3);

    let mut grid = Vec::new();
    let mut cur = 0.0f64;
    for v in &w {
        cur += v;
        grid.push(cur);
    }
    let width = *grid.last().unwrap();
    let grid_bits: Vec<u64> = grid.iter().map(|v| v.to_bits()).collect();

    let mut rng = StdRng::seed_from_u64(7);
    let times = 1_000_000usize;
    let mut freq = vec![0usize; w.len()];
    for _ in 0..times {
        let mut d = Draw::start(w.len(), false, 3).unwrap();
        while !d.is_complete() {
            let val = (rng.next_u32() as f64) / (u32::MAX as f64) * width;
            d.offer(locate(&grid_bits, val.to_bits()));
        }
        tally(&mut freq, d.picked());
    }
    for i in 0..w.len() {
        let f = freq[i] as f64 / times as f64;
        assert!((f - exact[i]).abs() < 0.005, "item {i}: {f} vs {}", exact[i]);
    }
}

#[test]
fn seeded_draws_repeat() {
    let run = || {
        let mut rng = StdRng::seed_from_u64(42);
        let grid: Vec<u64> = [0.5f64, 0.75, 1.0].iter().map(|v| v.to_bits()).collect();
        let mut d = Draw::start(3, false, 3).unwrap();
        while !d.is_complete() {
            let val = (rng.next_u32() as f64) / (u32::MAX as f64);
            d.offer(locate(&grid, val.to_bits()));
        }
        d.picked().clone()
    };
    assert_eq!(run(), run());
}
