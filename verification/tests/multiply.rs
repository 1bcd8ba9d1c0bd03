use dyadra::Dyadra;

#[test]
fn mult() {
    assert_eq!(Dyadra(0).mul(Dyadra(0)).0, 0);
    assert_eq!(Dyadra(0b101).mul(Dyadra(0b1011)).0, 0b1001010);
}

#[test]
fn checked_mul_agrees_on_concrete_product() {
    // 3/8 * 7/16 == 21/128, re-encoded.
    let p = Dyadra(0b101).checked_mul(Dyadra(0b1011)).unwrap();
    assert_eq!(p.0, 0b1001010);
    assert_eq!(p.leading_one(), 7);
    assert_eq!(p.mantissa(), 21);
}

#[test]
fn max_is_multiplicative_identity_at_max() {
    // 1.0 * 1.0 == 1.0, as raw-word equality 0 * 0 == 0.
    let m = Dyadra::max();
    assert!(m.mul(m) == m);
}

#[test]
fn max_leaves_other_factor_unchanged() {
    for w in [1u64, 0b101, 0xdead_beef, (1 << 63) - 1] {
        let p = Dyadra::max().checked_mul(Dyadra(w)).unwrap();
        assert_eq!(p.0, w);
    }
}

#[test]
fn overflowing_exponents_give_no_result() {
    // Bit positions summing to >= 64 have no representable product.
    assert!(Dyadra::min().checked_mul(Dyadra::min()).is_none());
    assert!(Dyadra::min().checked_mul(Dyadra(1)).is_none());
    assert!(Dyadra::min().checked_mul(Dyadra::max()).is_none());
    assert!(Dyadra(1 << 31).checked_mul(Dyadra(1 << 32)).is_none());
}

#[test]
fn boundary_exponents_still_multiply() {
    // Bit positions summing to 63 are the last that stay representable.
    let p = Dyadra(1 << 30).checked_mul(Dyadra(1 << 31)).unwrap();
    assert_eq!(p.0, 1 << 62);
    assert_eq!(p.leading_one(), 63);
    assert_eq!(p.mantissa(), 1);
}
