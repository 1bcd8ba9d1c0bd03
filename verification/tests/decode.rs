use dyadra::Dyadra;

// The float value a word decodes to: numerator / 2^exponent, with the
// lossy mantissa-to-float cast the library itself leaves to its callers.
fn to_float(d: Dyadra) -> f64 {
    d.mantissa() as f64 / (d.leading_one() as f64).exp2()
}

#[test]
fn it_works() {
    let d = Dyadra(0b101);
    assert_eq!(to_float(d), 0.375);
}

#[test]
fn edge_cases() {
    assert_eq!(to_float(Dyadra(0)), 1.0);
    assert_eq!(to_float(Dyadra(1)), 0.5);
    assert_eq!(to_float(Dyadra(2)), 0.25);
    assert_eq!(to_float(Dyadra(3)), 0.75);
    assert_eq!(to_float(Dyadra(4)), 0.125);
}

#[test]
fn single_set_bit_decodes_to_power_of_two() {
    // A word with one set bit at 0-based position k decodes to 2^-(k+1).
    for k in 0..64u32 {
        let d = Dyadra(1u64 << k);
        assert_eq!(d.leading_one(), u64::from(k) + 1);
        assert_eq!(d.mantissa(), 1);
    }
    assert_eq!(to_float(Dyadra(1 << 3)), 0.0625);
}

#[test]
fn mantissa_is_always_odd() {
    for w in [0u64, 1, 2, 3, 4, 0b101, 0xdead_beef, u64::MAX - 1, u64::MAX] {
        assert_eq!(Dyadra(w).mantissa() % 2, 1);
    }
}

#[test]
fn zero_word_decodes_to_one() {
    assert_eq!(Dyadra::max().0, 0);
    assert_eq!(Dyadra(0).leading_one(), 0);
    assert_eq!(Dyadra(0).mantissa(), 1);
    assert_eq!(to_float(Dyadra(0)), 1.0);
}

#[test]
fn min_word_decodes_to_smallest_value() {
    let d = Dyadra::min();
    assert_eq!(d.0, 1 << 63);
    assert_eq!(d.leading_one(), 64);
    assert_eq!(d.mantissa(), 1);
}
