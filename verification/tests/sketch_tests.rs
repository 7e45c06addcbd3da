//! End-to-end tests that drive the verified core the way a real-number
//! caller does: values are mapped to bucket keys with the logarithmic
//! mapping and to order codes with the monotone bit encoding, and
//! quantile estimates are decoded back from the keys the core returns.

use ddsketch::Config;
use ddsketch::DDSketch;
use ddsketch::DDSketchError;
use ddsketch::Store;

/// Float-domain mapping parameters, mirroring the classic construction:
/// `gamma = 1 + 2a/(1-a)`, keys assigned by `ceil(ln(v)/ln(gamma))` plus
/// an offset pinning the smallest distinguishable magnitude.
struct FloatCfg {
    gamma: f64,
    gamma_ln: f64,
    min_value: f64,
    max_num_bins: u32,
    offset: i32,
}

fn new_cfg(alpha: f64, max_num_bins: u32, min_value: f64) -> FloatCfg {
    let gamma_ln = ((2.0 * alpha) / (1.0 - alpha)).ln_1p();
    FloatCfg {
        gamma: 1.0 + (2.0 * alpha) / (1.0 - alpha),
        gamma_ln,
        min_value,
        max_num_bins,
        offset: 1 - ((min_value.ln() / gamma_ln) as i32),
    }
}

fn defaults() -> FloatCfg {
    new_cfg(0.01, 2048, 1.0e-9)
}

fn to_config(c: &FloatCfg) -> Config {
    Config::new(
        c.max_num_bins,
        c.gamma.to_bits(),
        c.gamma_ln.to_bits(),
        c.min_value.to_bits(),
        c.offset,
    )
}

fn key_of(c: &FloatCfg, v: f64) -> i32 {
    if v < -c.min_value {
        -(((-v).ln() / c.gamma_ln).ceil() as i32) - c.offset
    } else if v > c.min_value {
        ((v.ln() / c.gamma_ln).ceil() as i32) + c.offset
    } else {
        0
    }
}

/// Monotone embedding of (non-NaN) floats into `u64` order codes.
fn code_of(v: f64) -> u64 {
    let b = v.to_bits();
    if b & 0x8000_0000_0000_0000 != 0 {
        !b
    } else {
        b | 0x8000_0000_0000_0000
    }
}

fn value_of(code: u64) -> f64 {
    if code & 0x8000_0000_0000_0000 != 0 {
        f64::from_bits(code & 0x7fff_ffff_ffff_ffff)
    } else {
        f64::from_bits(!code)
    }
}

/// The point estimate for a bucket: the midpoint under the log mapping.
fn representative(c: &FloatCfg, key: i32) -> f64 {
    if key < 0 {
        -2.0 * ((-(key + c.offset)) as f64 * c.gamma_ln).exp() / (1.0 + c.gamma)
    } else if key > 0 {
        2.0 * (((key - c.offset) as f64) * c.gamma_ln).exp() / (1.0 + c.gamma)
    } else {
        0.0
    }
}

fn add_val(s: &mut DDSketch, c: &FloatCfg, v: f64) {
    s.add(key_of(c, v), code_of(v));
}

fn quantile(s: &DDSketch, c: &FloatCfg, q: f64) -> Option<f64> {
    if s.is_empty() {
        return None;
    }
    if q <= 0.0 {
        return s.min().map(value_of);
    }
    if q >= 1.0 {
        return s.max().map(value_of);
    }
    let rank = (q * ((s.count() - 1) as f64) + 1.0) as u64;
    let key = s.key_at_rank(rank);
    let est = representative(c, key);
    Some(value_of(s.clamp_code(code_of(est))))
}

#[test]
fn test_simple_quantile() {
    let c = defaults();
    let mut dd = DDSketch::new(to_config(&c));

    for i in 1..101 {
        add_val(&mut dd, &c, i as f64);
    }

    assert_eq!(quantile(&dd, &c, 0.95).map(|n| n.ceil()), Some(95.0));
    assert_eq!(quantile(&dd, &c, -1.01), dd.min().map(value_of));
    assert_eq!(quantile(&dd, &c, 1.01), dd.max().map(value_of));
    assert_eq!(dd.min().map(value_of), Some(1.0));
    assert_eq!(dd.max().map(value_of), Some(100.0));
}

#[test]
fn test_empty_sketch() {
    let c = defaults();
    let dd = DDSketch::new(to_config(&c));

    assert_eq!(quantile(&dd, &c, 0.98), None);
    assert_eq!(dd.max(), None);
    assert_eq!(dd.min(), None);
    assert_eq!(dd.count(), 0);
    assert!(dd.is_empty());
    assert_eq!(dd.len(), 0);
}

#[test]
fn test_basic_histogram_data() {
    let values: &[f64] = &[
        0.754225035,
        0.752900282,
        0.752812246,
        0.752602367,
        0.754310155,
        0.753525981,
        0.752981082,
        0.752715536,
        0.751667941,
        0.755079054,
        0.753528150,
        0.755188464,
        0.752508723,
        0.750064549,
        0.753960428,
        0.751139298,
        0.752523560,
        0.753253428,
        0.753498342,
        0.751858358,
        0.752104636,
        0.753841300,
        0.754467374,
        0.753814334,
        0.750881719,
        0.753182556,
        0.752576884,
        0.753945708,
        0.753571911,
        0.752314573,
        0.752586651,
    ];

    let c = defaults();
    let mut dd = DDSketch::new(to_config(&c));
    for v in values {
        add_val(&mut dd, &c, *v);
    }

    assert_eq!(dd.max().map(value_of), Some(0.755188464));
    assert_eq!(dd.min().map(value_of), Some(0.750064549));
    assert_eq!(dd.count(), 31);

    // The estimates exist and respect the relative-error bound against
    // the true order statistics.
    let mut sorted = values.to_vec();
    sorted.sort_by(|a, b| a.partial_cmp(b).unwrap());
    for q in [0.25, 0.5, 0.75] {
        let est = quantile(&dd, &c, q).unwrap();
        let rank = (q * ((values.len() - 1) as f64) + 1.0) as usize;
        let truth = sorted[rank - 1];
        assert!((est - truth).abs() <= 0.01 * truth.abs());
    }
}

#[test]
fn test_relative_error_bound() {
    let c = defaults();
    let mut dd = DDSketch::new(to_config(&c));
    let mut values: Vec<f64> = Vec::new();
    for i in 0..200 {
        values.push(1.5_f64.powi(i % 40) * (1.0 + (i as f64) * 0.001));
    }
    for v in &values {
        add_val(&mut dd, &c, *v);
    }
    let mut sorted = values.clone();
    sorted.sort_by(|a, b| a.partial_cmp(b).unwrap());
    for q in [0.01, 0.1, 0.25, 0.5, 0.75, 0.9, 0.95, 0.99] {
        let est = quantile(&dd, &c, q).unwrap();
        let rank = (q * ((values.len() - 1) as f64) + 1.0) as usize;
        let truth = sorted[rank - 1];
        assert!(
            (est - truth).abs() <= 0.01 * truth.abs(),
            "q={} est={} truth={}",
            q,
            est,
            truth
        );
    }
}

#[test]
fn test_merge_partition_totals() {
    // Split a sample set in two, sketch both halves independently, merge,
    // and compare against a single sketch of everything.
    let c = defaults();
    let cfg = to_config(&c);
    let mut whole = DDSketch::new(cfg);
    let mut evens = DDSketch::new(cfg);
    let mut odds = DDSketch::new(cfg);
    for i in 1..101 {
        let v = i as f64;
        add_val(&mut whole, &c, v);
        if i % 2 == 0 {
            add_val(&mut evens, &c, v);
        } else {
            add_val(&mut odds, &c, v);
        }
    }
    let mut merged = evens;
    merged.merge(&odds).unwrap();
    assert_eq!(merged.count(), whole.count());
    assert_eq!(merged.min(), whole.min());
    assert_eq!(merged.max(), whole.max());
    // Per-key totals agree: every rank resolves to the same bucket.
    for r in 1..101u64 {
        assert_eq!(merged.key_at_rank(r), whole.key_at_rank(r));
    }
    for q in [0.1, 0.5, 0.9] {
        assert_eq!(quantile(&merged, &c, q), quantile(&whole, &c, q));
    }
}

#[test]
fn test_merge_order_independent() {
    let c = defaults();
    let cfg = to_config(&c);
    let mut a = DDSketch::new(cfg);
    let mut b = DDSketch::new(cfg);
    for i in 1..40 {
        add_val(&mut a, &c, (i * 3) as f64);
        add_val(&mut b, &c, (i * 7) as f64 * 0.25);
    }
    let mut ab = a.clone();
    ab.merge(&b).unwrap();
    let mut ba = b.clone();
    ba.merge(&a).unwrap();
    assert_eq!(ab.count(), ba.count());
    assert_eq!(ab.min(), ba.min());
    assert_eq!(ab.max(), ba.max());
    for r in 1..(ab.count() as u64 + 1) {
        assert_eq!(ab.key_at_rank(r), ba.key_at_rank(r));
    }
}

#[test]
fn test_merge_incompatible() {
    let c1 = defaults();
    let c2 = new_cfg(0.02, 2048, 1.0e-9);
    let mut a = DDSketch::new(to_config(&c1));
    let mut b = DDSketch::new(to_config(&c2));
    add_val(&mut a, &c1, 1.0);
    add_val(&mut b, &c2, 2.0);
    let before_count = a.count();
    let before_min = a.min();
    let before_max = a.max();
    let before_len = a.len();
    let r = a.merge(&b);
    assert_eq!(r, Err(DDSketchError::Merge));
    assert_eq!(a.count(), before_count);
    assert_eq!(a.min(), before_min);
    assert_eq!(a.max(), before_max);
    assert_eq!(a.len(), before_len);
    assert_eq!(b.count(), 1);
}

#[test]
fn test_merge_empty_operands() {
    let c = defaults();
    let cfg = to_config(&c);

    // Merging an empty sketch into a full one must not clobber extremes.
    let mut full = DDSketch::new(cfg);
    add_val(&mut full, &c, 5.0);
    add_val(&mut full, &c, 9.0);
    let empty = DDSketch::new(cfg);
    full.merge(&empty).unwrap();
    assert_eq!(full.count(), 2);
    assert_eq!(full.min().map(value_of), Some(5.0));
    assert_eq!(full.max().map(value_of), Some(9.0));

    // Merging a full sketch into an empty one adopts its extremes.
    let mut target = DDSketch::new(cfg);
    target.merge(&full).unwrap();
    assert_eq!(target.count(), 2);
    assert_eq!(target.min().map(value_of), Some(5.0));
    assert_eq!(target.max().map(value_of), Some(9.0));
}

#[test]
fn test_boundary_clamp() {
    let c = defaults();
    let mut dd = DDSketch::new(to_config(&c));
    for i in 1..11 {
        add_val(&mut dd, &c, i as f64);
    }
    assert_eq!(quantile(&dd, &c, 0.0), Some(1.0));
    assert_eq!(quantile(&dd, &c, -3.5), Some(1.0));
    assert_eq!(quantile(&dd, &c, 1.0), Some(10.0));
    assert_eq!(quantile(&dd, &c, 7.0), Some(10.0));
}

#[test]
fn test_add_n_counts() {
    let c = defaults();
    let mut dd = DDSketch::new(to_config(&c));
    dd.add_n(key_of(&c, 4.0), code_of(4.0), 10);
    dd.add_n(key_of(&c, 8.0), code_of(8.0), 5);
    assert_eq!(dd.count(), 15);
    assert_eq!(dd.min().map(value_of), Some(4.0));
    assert_eq!(dd.max().map(value_of), Some(8.0));
    // Ten of the fifteen samples sit in the bucket of 4.0.
    let key_mid = dd.key_at_rank(10);
    assert_eq!(key_mid, key_of(&c, 4.0));
    assert_eq!(dd.key_at_rank(11), key_of(&c, 8.0));
}

#[test]
fn test_collapsing_keeps_count_and_capacity() {
    // A tiny capacity with samples spanning many orders of magnitude:
    // collapsing must keep the count exact and the bin array bounded.
    let c = new_cfg(0.01, 8, 1.0e-9);
    let mut dd = DDSketch::new(to_config(&c));
    let mut v = 1.0e-6_f64;
    let mut total = 0u64;
    while v < 1.0e6 {
        add_val(&mut dd, &c, v);
        total += 1;
        v *= 10.0;
    }
    assert_eq!(dd.count(), total);
    assert!(dd.len() <= 8);
    assert_eq!(dd.min().map(value_of), Some(1.0e-6));
    // Quantile queries still answer.
    assert!(quantile(&dd, &c, 0.5).is_some());
}

#[test]
fn test_store_growth_and_rank() {
    let mut s = Store::new(16);
    for k in 1..6 {
        s.add(k, 1);
    }
    assert_eq!(s.count(), 5);
    assert_eq!(s.length(), 5);
    assert_eq!(s.min_key(), 1);
    assert_eq!(s.max_key(), 5);
    for r in 1..6u64 {
        assert_eq!(s.key_at_rank(r), r as i32);
    }
    // A rank past the total count resolves to the top of the interval.
    assert_eq!(s.key_at_rank(99), 5);
    for k in 1..6 {
        assert_eq!(s.bin_count(k), 1);
    }
    assert_eq!(s.bin_count(0), 0);
    assert_eq!(s.bin_count(6), 0);
}

#[test]
fn test_store_collapse_pins_low_end() {
    let mut s = Store::new(4);
    s.add(5, 2);
    s.add(7, 1);
    // Growing to key 10 exceeds the capacity of 4: keys up to 7 collapse
    // into the pinned low bucket at 10 - 4 + 1 = 7.
    s.add(10, 1);
    assert_eq!(s.min_key(), 7);
    assert_eq!(s.max_key(), 10);
    assert_eq!(s.bin_count(7), 3);
    assert_eq!(s.bin_count(10), 1);
    assert_eq!(s.count(), 4);
    assert!(s.length() <= 4);
    // A sample below the pinned bound also collapses into it.
    s.add(-3, 5);
    assert_eq!(s.min_key(), 7);
    assert_eq!(s.bin_count(7), 8);
    assert_eq!(s.count(), 9);
}

#[test]
fn test_store_merge_totals() {
    let mut a = Store::new(32);
    let mut b = Store::new(32);
    a.add(1, 3);
    a.add(4, 2);
    b.add(2, 1);
    b.add(4, 5);
    a.merge(&b);
    assert_eq!(a.count(), 11);
    assert_eq!(a.bin_count(1), 3);
    assert_eq!(a.bin_count(2), 1);
    assert_eq!(a.bin_count(3), 0);
    assert_eq!(a.bin_count(4), 7);
}

#[test]
fn test_negative_values() {
    // Mixed-sign samples span both sign-mirrored halves of the key
    // space, which needs more buckets than the default to avoid
    // collapsing.
    let c = new_cfg(0.01, 4096, 1.0e-9);
    let mut dd = DDSketch::new(to_config(&c));
    for v in [-5.0, -1.0, 3.0] {
        add_val(&mut dd, &c, v);
    }
    assert_eq!(dd.count(), 3);
    assert_eq!(dd.min().map(value_of), Some(-5.0));
    assert_eq!(dd.max().map(value_of), Some(3.0));
    assert_eq!(quantile(&dd, &c, 0.0), Some(-5.0));
    assert_eq!(quantile(&dd, &c, 1.0), Some(3.0));
    let mid = quantile(&dd, &c, 0.5).unwrap();
    // -1.0 sits exactly on a bucket boundary, so the estimate is off by
    // exactly alpha (up to float rounding).
    assert!((mid - (-1.0)).abs() <= 0.0100001, "mid={}", mid);
}

#[test]
fn test_error_kinds_distinct() {
    assert_ne!(DDSketchError::Quantile, DDSketchError::Merge);
    assert_eq!(DDSketchError::Merge, DDSketchError::Merge);
}
