use radix_fft::digits::{checked_padded_len, padded_exponent, padded_len, pow4_exec, reverse_digits};
use radix_fft::fft::{digit_reversal, zero_pad};

#[test]
fn padded_len_rounds_up_to_power_of_four() {
    assert_eq!(padded_len(0), 1);
    assert_eq!(padded_len(1), 1);
    assert_eq!(padded_len(2), 4);
    assert_eq!(padded_len(4), 4);
    assert_eq!(padded_len(5), 16);
    assert_eq!(padded_len(16), 16);
    assert_eq!(padded_len(17), 64);
    assert_eq!(padded_len(1 << 62), 1 << 62);
}

#[test]
fn padded_exponent_is_smallest() {
    assert_eq!(padded_exponent(0), 0);
    assert_eq!(padded_exponent(1), 0);
    assert_eq!(padded_exponent(3), 1);
    assert_eq!(padded_exponent(4), 1);
    assert_eq!(padded_exponent(5), 2);
    assert_eq!(padded_exponent(64), 3);
    assert_eq!(padded_exponent(65), 4);
}

#[test]
fn pow4_values() {
    assert_eq!(pow4_exec(0), 1);
    assert_eq!(pow4_exec(1), 4);
    assert_eq!(pow4_exec(3), 64);
    assert_eq!(pow4_exec(31), 1 << 62);
}

#[test]
fn reverse_digits_values() {
    assert_eq!(reverse_digits(0, 0), 0);
    assert_eq!(reverse_digits(3, 1), 3);
    assert_eq!(reverse_digits(1, 2), 4);
    assert_eq!(reverse_digits(6, 2), 9);
    // digits 1, 2, 3 from the lowest become 3, 2, 1
    assert_eq!(reverse_digits(1 + 2 * 4 + 3 * 16, 3), 3 + 2 * 4 + 16);
    // only the lowest d digits are read
    assert_eq!(reverse_digits(17, 1), 1);
}

#[test]
fn reverse_digits_is_its_own_inverse() {
    for d in 0..5u32 {
        let n = pow4_exec(d);
        let mut seen = vec![false; n];
        for i in 0..n {
            let r = reverse_digits(i, d);
            assert!(r < n);
            assert!(!seen[r]);
            seen[r] = true;
            assert_eq!(reverse_digits(r, d), i);
        }
    }
}

#[test]
fn digit_reversal_of_sixteen_transposes() {
    let data: Vec<u32> = (0..16).collect();
    let r = digit_reversal(&data, 2);
    let expected: Vec<u32> = vec![0, 4, 8, 12, 1, 5, 9, 13, 2, 6, 10, 14, 3, 7, 11, 15];
    assert_eq!(r, expected);
}

#[test]
fn digit_reversal_of_small_lengths_is_identity() {
    assert_eq!(digit_reversal(&vec![7u32], 0), vec![7u32]);
    assert_eq!(digit_reversal(&vec![1u32, 2, 3, 4], 1), vec![1u32, 2, 3, 4]);
}

#[test]
fn digit_reversal_of_sixty_four() {
    let data: Vec<usize> = (0..64).collect();
    let r = digit_reversal(&data, 3);
    for k in 0..64usize {
        let rev = (k % 4) * 16 + ((k / 4) % 4) * 4 + k / 16;
        assert_eq!(r[k], rev);
        assert_eq!(r[rev], k);
    }
}

#[test]
fn zero_pad_appends_zeros() {
    let r = zero_pad(&vec![5i64, 6, 7], 0, 8);
    assert_eq!(r, vec![5i64, 6, 7, 0, 0, 0, 0, 0]);
    let r = zero_pad(&Vec::<i64>::new(), -1, 2);
    assert_eq!(r, vec![-1i64, -1]);
    let r = zero_pad(&vec![1i64, 2], 0, 2);
    assert_eq!(r, vec![1i64, 2]);
}

#[test]
fn checked_padded_len_limits() {
    assert_eq!(checked_padded_len(0), Some(1));
    assert_eq!(checked_padded_len(5), Some(16));
    assert_eq!(checked_padded_len(64), Some(64));
    assert_eq!(checked_padded_len(1 << 62), Some(1 << 62));
    assert_eq!(checked_padded_len((1 << 62) + 1), None);
    assert_eq!(checked_padded_len(usize::MAX), None);
}
