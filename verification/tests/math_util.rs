use bfcrunch::cruncher::modinv256;
use bfcrunch::math::lower_bound;

#[test]
fn lower_bound_empty_returns_zero() {
    assert_eq!(lower_bound(&[], 5), 0);
}

#[test]
fn lower_bound_all_less_returns_len() {
    assert_eq!(lower_bound(&[1, 2, 3], 10), 3);
    assert_eq!(lower_bound(&[-5, 0, 9], 10), 3);
}

#[test]
fn lower_bound_finds_first_not_less() {
    assert_eq!(lower_bound(&[1, 3, 5, 7], 4), 2);
    assert_eq!(lower_bound(&[1, 3, 5, 7], 3), 1);
    assert_eq!(lower_bound(&[1, 3, 5, 7], 0), 0);
    assert_eq!(lower_bound(&[1, 3, 5, 7], 7), 3);
    assert_eq!(lower_bound(&[1, 3, 5, 7], 8), 4);
    assert_eq!(lower_bound(&[2, 2, 2], 2), 0);
}

#[test]
fn modinv256_inverts_odd_residues() {
    // every odd q up to 39 multiplies with its table entry to 1 mod 256
    for q in (1usize..40).step_by(2) {
        let m = modinv256(q) as u32;
        assert_eq!((q as u32 * m) % 256, 1, "q = {}", q);
    }
    // even residues have no inverse and hold zero
    for q in (0usize..40).step_by(2) {
        assert_eq!(modinv256(q), 0);
    }
}
