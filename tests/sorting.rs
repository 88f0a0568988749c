use float_sort::float_bits::{float_ge, float_lt, is_nan_bits};
use float_sort::sort::sorted;

fn sort_floats(xs: Vec<f64>) -> Vec<f64> {
    let bits: Vec<u64> = xs.iter().map(|x| x.to_bits()).collect();
    sorted(bits).into_iter().map(f64::from_bits).collect()
}

fn as_bits(xs: &[f64]) -> Vec<u64> {
    xs.iter().map(|x| x.to_bits()).collect()
}

fn counts_match(a: &[f64], b: &[f64]) -> bool {
    let mut a_bits = as_bits(a);
    let mut b_bits = as_bits(b);
    a_bits.sort();
    b_bits.sort();
    a_bits == b_bits
}

fn specials() -> Vec<f64> {
    vec![
        0.0,
        -0.0,
        1.0,
        -1.0,
        0.1,
        -0.1,
        1.5e300,
        -1.5e300,
        f64::MIN_POSITIVE,
        -f64::MIN_POSITIVE,
        f64::from_bits(1),
        f64::from_bits(1 | 0x8000_0000_0000_0000),
        f64::MAX,
        f64::MIN,
        f64::INFINITY,
        f64::NEG_INFINITY,
        f64::NAN,
        -f64::NAN,
        f64::from_bits(0x7ff0_0000_0000_0001),
    ]
}

#[test]
fn simple_tests() {
    assert_eq!(sort_floats([].to_vec()), [].to_vec());
    assert_eq!(sort_floats([0.1].to_vec()), [0.1].to_vec());
    assert_eq!(
        sort_floats([2.0, 1.8, 1.56, 1.10].to_vec()),
        [1.1, 1.56, 1.8, 2.0].to_vec()
    );
}

#[test]
fn empty_input_gives_empty_output() {
    assert_eq!(sorted(Vec::new()), Vec::<u64>::new());
}

#[test]
fn singleton_is_unchanged() {
    assert_eq!(sorted(vec![0.1f64.to_bits()]), vec![0.1f64.to_bits()]);
}

#[test]
fn known_sequence_exact_bits() {
    let input = as_bits(&[2.0, 1.8, 1.56, 1.10]);
    assert_eq!(sorted(input), as_bits(&[1.10, 1.56, 1.8, 2.0]));
}

#[test]
fn result_is_a_permutation() {
    let xs = vec![3.5, -2.0, 0.0, 3.5, -0.0, 7.25, -2.0, 1e-310, -1e10, 3.5];
    let r = sort_floats(xs.clone());
    assert_eq!(r.len(), xs.len());
    assert!(counts_match(&xs, &r));
}

#[test]
fn adjacent_pairs_are_in_order() {
    let mut xs = Vec::new();
    let mut seed: u64 = 12345;
    for _ in 0..300 {
        seed = seed.wrapping_mul(6364136223846793005).wrapping_add(1442695040888963407);
        let v = ((seed >> 11) % 2001) as f64 / 8.0 - 125.0;
        xs.push(v);
    }
    let r = sort_floats(xs.clone());
    assert_eq!(r.len(), xs.len());
    for w in r.windows(2) {
        assert!(w[0] <= w[1]);
    }
    assert!(counts_match(&xs, &r));
}

#[test]
fn sorting_twice_changes_nothing() {
    let xs = vec![4.0, -1.0, 0.0, -0.0, 4.0, 2.5, -7.5, 0.0];
    let once = sorted(as_bits(&xs));
    let twice = sorted(once.clone());
    assert_eq!(once, twice);
}

#[test]
fn input_binding_is_unchanged() {
    let xs = vec![0.3, 0.2, 0.1];
    let kept = xs.clone();
    let r = sort_floats(xs.clone());
    assert_eq!(r, vec![0.1, 0.2, 0.3]);
    assert_eq!(xs.len(), 3);
    assert_eq!(as_bits(&xs), as_bits(&kept));
}

#[test]
fn reverse_sorted_thousand_values() {
    let xs: Vec<f64> = (0..1000).rev().map(|i| i as f64 * 0.5 - 100.0).collect();
    let r = sort_floats(xs);
    let expected: Vec<f64> = (0..1000).map(|i| i as f64 * 0.5 - 100.0).collect();
    assert_eq!(r, expected);
}

#[test]
fn already_sorted_thousand_values() {
    let xs: Vec<f64> = (0..1000).map(|i| i as f64).collect();
    assert_eq!(sort_floats(xs.clone()), xs);
}

#[test]
fn equal_values_keep_input_order() {
    let neg = (-0.0f64).to_bits();
    let pos = 0.0f64.to_bits();
    assert_eq!(sorted(vec![pos, neg]), vec![pos, neg]);
    assert_eq!(sorted(vec![neg, pos]), vec![neg, pos]);
    let one = 1.0f64.to_bits();
    assert_eq!(sorted(vec![one, pos, neg, pos]), vec![pos, neg, pos, one]);
}

#[test]
fn duplicates_and_negatives() {
    assert_eq!(
        sort_floats(vec![1.0, -1.0, 1.0, -3.0, 0.0, -1.0]),
        vec![-3.0, -1.0, -1.0, 0.0, 1.0, 1.0]
    );
}

#[test]
fn infinities_sort_to_the_ends() {
    assert_eq!(
        sort_floats(vec![f64::INFINITY, 2.0, f64::NEG_INFINITY, -f64::MAX]),
        vec![f64::NEG_INFINITY, -f64::MAX, 2.0, f64::INFINITY]
    );
}

#[test]
fn nan_input_is_dropped_as_partitioning_does() {
    let r = sort_floats(vec![1.0, f64::NAN, 0.5]);
    assert_eq!(r, vec![0.5, 1.0]);
    let r = sort_floats(vec![f64::NAN, 1.0, 0.5]);
    assert_eq!(r.len(), 1);
    assert!(r[0].is_nan());
}

#[test]
fn comparisons_match_floating_point() {
    let vals = specials();
    for a in &vals {
        for b in &vals {
            assert_eq!(float_lt(a.to_bits(), b.to_bits()), a < b, "{:?} < {:?}", a, b);
            assert_eq!(float_ge(a.to_bits(), b.to_bits()), a >= b, "{:?} >= {:?}", a, b);
        }
    }
}

#[test]
fn nan_detection_matches_floating_point() {
    for a in specials() {
        assert_eq!(is_nan_bits(a.to_bits()), a.is_nan(), "{:?}", a);
    }
}
