use dyadra::Dyadra;

#[test]
fn debug() {
    assert_eq!(Dyadra(0b101).debug_string(), "Dyadra(3/2^3)");
    assert_eq!(Dyadra::min().debug_string(), "Dyadra(1/2^64)");
    assert_eq!(Dyadra::max().debug_string(), "Dyadra(1/2^0)");
}

#[test]
fn renders_many_digit_numerators() {
    assert_eq!(
        Dyadra(u64::MAX).debug_string(),
        "Dyadra(18446744073709551615/2^64)",
    );
    assert_eq!(Dyadra(0b110010).debug_string(), "Dyadra(37/2^6)");
}
