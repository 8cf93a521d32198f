use lhl::util::num::{log2ceil, round_up};

#[test]
pub fn log2ceil_computes_correctly() {
    assert_eq!(log2ceil(9), 4);
    assert_eq!(log2ceil(15), 4);
    assert_eq!(log2ceil(8), 3);
    assert_eq!(log2ceil(0), 1);
    assert_eq!(log2ceil(1), 1);
    assert_eq!(log2ceil(2), 1);
}

#[test]
fn log2ceil_of_large_values() {
    assert_eq!(log2ceil(3), 2);
    assert_eq!(log2ceil(1 << 40), 40);
    assert_eq!(log2ceil((1 << 40) + 1), 41);
    assert_eq!(log2ceil(u64::MAX), 64);
    assert_eq!(log2ceil(1 << 63), 63);
}

#[test]
fn log2ceil_is_least_power_of_two_above() {
    for n in 2u64..2000 {
        let r = log2ceil(n);
        assert!(n <= 1u64 << r);
        assert!((1u64 << (r - 1)) < n);
    }
}

#[test]
fn round_up_to_multiples() {
    assert_eq!(round_up(0, 8), 0);
    assert_eq!(round_up(1, 8), 8);
    assert_eq!(round_up(8, 8), 8);
    assert_eq!(round_up(9, 8), 16);
    assert_eq!(round_up(100, 4096), 4096);
    assert_eq!(round_up(13, 1), 13);
    assert_eq!(round_up(usize::MAX - 8, 8), usize::MAX - 7);
    assert_eq!(round_up(usize::MAX - 7, 8), usize::MAX - 7);
    assert_eq!(round_up(usize::MAX, 1), usize::MAX);
}

#[test]
fn round_up_is_least_multiple_not_below() {
    for to in 1usize..20 {
        for n in 0usize..100 {
            let r = round_up(n, to);
            assert!(r >= n);
            assert!(r < n + to);
            assert_eq!(r % to, 0);
        }
    }
}
