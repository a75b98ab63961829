use eggs_dee::{compress_base, expand_base, modulo};

#[test]
fn expand_zero_is_single_zero_digit() {
    assert_eq!(expand_base(8, 0), vec![0]);
    assert_eq!(expand_base(2, 0), vec![0]);
}

#[test]
fn expand_binary_digits() {
    assert_eq!(expand_base(2, 13), vec![1, 1, 0, 1]);
    assert_eq!(expand_base(2, 1), vec![1]);
    assert_eq!(expand_base(2, 8), vec![1, 0, 0, 0]);
}

#[test]
fn expand_decimal_digits() {
    assert_eq!(expand_base(10, 4092), vec![4, 0, 9, 2]);
    assert_eq!(expand_base(10, 7), vec![7]);
}

#[test]
fn compress_reads_most_significant_first() {
    assert_eq!(compress_base(2, vec![1, 1, 0, 1]), 13);
    assert_eq!(compress_base(10, vec![4, 0, 9, 2]), 4092);
    assert_eq!(compress_base(8, vec![0]), 0);
}

#[test]
fn compress_ignores_leading_zeros() {
    assert_eq!(compress_base(8, vec![0, 0, 7, 3]), 7 * 8 + 3);
}

#[test]
fn compress_inverts_expand() {
    for base in [2usize, 3, 8, 16, 42] {
        for v in [0usize, 1, 5, 76, 77, 255, 4096] {
            assert_eq!(compress_base(base, expand_base(base, v)), v);
        }
    }
}

#[test]
fn modulo_is_always_non_negative() {
    assert_eq!(modulo(7, 3), 1);
    assert_eq!(modulo(-5, 3), 1);
    assert_eq!(modulo(-6, 3), 0);
    assert_eq!(modulo(-1, 43), 42);
    assert_eq!(modulo(0, 43), 0);
    assert_eq!(modulo(85, 43), 42);
}
