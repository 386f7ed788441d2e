use random_picker::{plan, Error, Method, Walker};

fn bits(ws: &[f64]) -> Vec<u64> {
    ws.iter().map(|w| w.to_bits()).collect()
}

/// Follows the walk of each first-level branch with the path probabilities.
fn inclusion(weights: &[f64], amount: usize) -> Vec<f64> {
    let total: f64 = weights.iter().sum();
    let w: Vec<f64> = weights.iter().map(|v| v / total).collect();
    let n = w.len();
    let mut result = w.clone();
    for first in 0..n {
        let mut walker = Walker::branch(n, first, amount);
        let mut rem = 0.0f64;
        for (i, v) in w.iter().enumerate() {
            if i != first {
                rem += v;
            }
        }
        let mut probs: Vec<f64> = Vec::new();
        let mut sub = vec![0.0f64; n];
        while let Some(mv) = walker.step() {
            for &p in &mv.popped {
                probs.pop();
                rem += w[p];
            }
            let parent = probs.last().copied().unwrap_or(1.0);
            let prob = parent * w[mv.pushed] / rem;
            probs.push(prob);
            rem -= w[mv.pushed];
            sub[mv.pushed] += prob;
        }
        for i in 0..n {
            result[i] += w[first] * sub[i];
        }
    }
    result
}

#[test]
fn zero_amount_gives_zero_method() {
    assert_eq!(plan(&bits(&[1.0, 2.0, 3.0]), false, false, 0).unwrap(), Method::Zero);
    assert_eq!(plan(&bits(&[1.0, 2.0, 3.0]), false, true, 0).unwrap(), Method::Zero);
}

#[test]
fn full_amount_gives_one_method() {
    assert_eq!(plan(&bits(&[1.0, 2.0, 3.0]), false, false, 3).unwrap(), Method::One);
}

#[test]
fn too_large_amount_is_invalid() {
    assert!(matches!(plan(&bits(&[1.0, 2.0, 3.0]), false, false, 4), Err(Error::InvalidAmount)));
    assert_eq!(plan(&bits(&[1.0, 2.0, 3.0]), false, true, 4).unwrap(), Method::Independent);
}

#[test]
fn invalid_tables_are_refused() {
    assert!(matches!(plan(&bits(&[1.0, -2.0, 3.0]), false, false, 2), Err(Error::InvalidTable)));
    assert!(matches!(plan(&bits(&[1.0, 0.0, 3.0]), true, true, 2), Err(Error::InvalidTable)));
    assert!(matches!(plan(&Vec::new(), false, true, 1), Err(Error::InvalidTable)));
}

#[test]
fn shortcuts_in_order() {
    assert_eq!(plan(&bits(&[2.0, 2.0, 2.0, 2.0]), false, false, 2).unwrap(), Method::Uniform);
    assert_eq!(plan(&bits(&[2.0, 2.0, 2.0, 2.0]), false, true, 2).unwrap(), Method::Independent);
    assert_eq!(plan(&bits(&[1.0, 2.0, 3.0]), false, false, 1).unwrap(), Method::Weight);
    assert_eq!(plan(&bits(&[1.0, 2.0, 3.0]), false, true, 1).unwrap(), Method::Weight);
    assert_eq!(plan(&bits(&[1.0, 2.0, 3.0]), false, false, 2).unwrap(), Method::Enumerate);
    assert_eq!(plan(&bits(&[1.0, 2.0, 3.0]), true, false, 2).unwrap(), Method::Enumerate);
}

#[test]
fn enumeration_matches_hand_computed_values() {
    let p = inclusion(&[1.0, 2.0, 3.0], 2);
    assert!((p[0] - 5.0 / 12.0).abs() < 1e-12);
    assert!((p[1] - 11.0 / 15.0).abs() < 1e-12);
    assert!((p[2] - 17.0 / 20.0).abs() < 1e-12);
}

#[test]
fn enumeration_sums_to_amount() {
    let weights = [856.0, 139.0, 297.0, 378.0, 1304.0, 289.0, 199.0, 528.0, 627.0, 13.0];
    for amount in 1..weights.len() {
        let p = inclusion(&weights, amount);
        let sum: f64 = p.iter().sum();
        assert!((sum - amount as f64).abs() < 1e-9 * weights.len() as f64);
    }
}

#[test]
fn enumeration_agrees_with_uniform_shortcut() {
    let weights = [3.0; 7];
    assert_eq!(plan(&bits(&weights), false, false, 3).unwrap(), Method::Uniform);
    let p = inclusion(&weights, 3);
    for v in p {
        assert!((v - 3.0 / 7.0).abs() < 1e-12);
    }
}

#[test]
fn enumeration_is_deterministic() {
    let weights = [5.0, 1.0, 2.5, 7.0, 0.25];
    let a = inclusion(&weights, 3);
    let b = inclusion(&weights, 3);
    for (x, y) in a.iter().zip(b.iter()) {
        assert_eq!(x.to_bits(), y.to_bits());
    }
}
