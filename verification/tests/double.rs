use mini_lsm::double::{is_larger, quotient_larger, to_double};

/// A fixed stream of numbers of all sizes.
fn numbers(count: usize) -> Vec<u64> {
    let mut x: u64 = 0x9e37_79b9_7f4a_7c15;
    let mut r = Vec::new();
    for i in 0..count {
        x ^= x << 13;
        x ^= x >> 7;
        x ^= x << 17;
        r.push(x >> (i % 64));
    }
    r
}

fn edges() -> Vec<u64> {
    let two_53: u64 = 1 << 53;
    let mut r = vec![0, 1, 2, 3, 99, 100, 101, 150, 200, u64::MAX, u64::MAX - 1, u64::MAX - 1023];
    for d in 0..6 {
        r.push(two_53 - 3 + d);
        r.push(2 * two_53 - 5 + 2 * d);
        r.push((1 << 62) - 600 + 200 * d);
    }
    r
}

#[test]
fn integers_round_as_doubles() {
    let mut all = numbers(4000);
    all.extend(edges());
    for n in all {
        assert_eq!(to_double(n as u128), (n as f64) as u128, "{}", n);
    }
    let mut n: u128 = 1 << 64;
    n -= 1;
    assert_eq!(to_double(n), 1 << 64);
}

#[test]
fn sizes_compare_as_doubles() {
    let mut all = numbers(300);
    all.extend(edges());
    for &a in &all {
        for &b in &all {
            let expected = a as f64 / b as f64 > 1.0;
            assert_eq!(is_larger(a as u128, b as u128), expected, "{} {}", a, b);
            assert_eq!(quotient_larger(a as u128, b as u128, 1, 1), expected, "{} {}", a, b);
        }
    }
}

#[test]
fn small_sizes_compare_as_integers() {
    for a in 0..200u128 {
        for b in 0..200u128 {
            assert_eq!(is_larger(a, b), a > b);
        }
    }
    assert!(!is_larger((1 << 53) + 1, 1 << 53));
    assert!(is_larger((1 << 53) + 2, 1 << 53));
}

#[test]
fn percentages_compare_as_doubles() {
    for a in 0..120u64 {
        for b in 0..40u64 {
            for &p in &[0u64, 1, 7, 29, 57, 58, 99, 100, 101, 113, 200, 300] {
                let expected = (a as f64 / b as f64) > (p as f64 / 100.0);
                assert_eq!(
                    quotient_larger(a as u128, b as u128, p as u128, 100),
                    expected,
                    "{} {} {}",
                    a,
                    b,
                    p
                );
            }
        }
    }
    let all = numbers(4000);
    for w in all.windows(3) {
        let expected = (w[0] as f64 / w[1] as f64) > (w[2] as f64 / 100.0);
        let got = quotient_larger(w[0] as u128, w[1] as u128, w[2] as u128, 100);
        assert_eq!(got, expected, "{:?}", w);
    }
}

#[test]
fn quotients_of_neighbours_compare_as_doubles() {
    for w in edges().windows(4) {
        let expected = (w[0] as f64 / w[1] as f64) > (w[2] as f64 / (w[3].max(1)) as f64);
        let got = quotient_larger(
            w[0] as u128,
            w[1] as u128,
            w[2] as u128,
            w[3].max(1) as u128,
        );
        assert_eq!(got, expected, "{:?}", w);
    }
    assert!(quotient_larger(1, 0, u64::MAX as u128, 100));
    assert!(!quotient_larger(0, 0, 0, 100));
}

#[test]
fn rounding_keeps_the_order() {
    let mut all = numbers(2000);
    all.extend(edges());
    all.sort();
    for w in all.windows(2) {
        assert!(to_double(w[0] as u128) <= to_double(w[1] as u128));
    }
}

#[test]
fn small_quotients_compare_as_fractions() {
    for a in 0..40u128 {
        for b in 1..40u128 {
            for c in 0..12u128 {
                for d in 1..12u128 {
                    assert_eq!(quotient_larger(a, b, c, d), a * d > c * b);
                }
            }
        }
    }
    let top: u128 = 0x3ff_ffff;
    assert!(!quotient_larger(top, top - 1, top - 1, top - 2));
    assert!(quotient_larger(top - 1, top - 2, top, top - 1));
}
