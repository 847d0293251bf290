use llama_node::request::DEFAULT_MIROSTAT_ETA_BITS;
use llama_node::request::DEFAULT_MIROSTAT_TAU_BITS;
use llama_node::request::DEFAULT_REPEAT_PENALTY_BITS;
use llama_node::request::DEFAULT_TEMPERATURE_BITS;
use llama_node::request::DEFAULT_TOP_P_BITS;
use llama_node::scalar::Scalar;
use llama_node::scalar::INFINITY_MAGNITUDE;
use llama_node::scalar::MINUS_ONE_BITS;
use llama_node::scalar::NAN_RANK;
use llama_node::scalar::ONE_BITS;

fn s(x: f32) -> Scalar {
    Scalar::from_bits(x.to_bits())
}

fn samples() -> Vec<f32> {
    vec![
        f32::NEG_INFINITY,
        f32::MIN,
        -1.0e10,
        -2.5,
        -1.0,
        -f32::MIN_POSITIVE,
        -1.0e-45,
        -0.0,
        0.0,
        1.0e-45,
        f32::MIN_POSITIVE,
        0.5,
        1.0,
        1.0000001,
        3.75,
        1.0e10,
        f32::MAX,
        f32::INFINITY,
    ]
}

#[test]
fn bits_are_kept() {
    assert_eq!(Scalar::from_bits(0x1234_5678).to_bits(), 0x1234_5678);
    assert_eq!(s(1.0).to_bits(), ONE_BITS);
    assert_eq!(s(-1.0).to_bits(), MINUS_ONE_BITS);
    assert_eq!(f32::INFINITY.to_bits(), INFINITY_MAGNITUDE);
}

#[test]
fn rank_orders_as_the_numbers_are_ordered() {
    let xs = samples();
    for a in xs.iter() {
        for b in xs.iter() {
            let ra = s(*a).rank_key();
            let rb = s(*b).rank_key();
            assert_eq!(a < b, ra < rb, "{} < {}", a, b);
            assert_eq!(a == b, ra == rb, "{} == {}", a, b);
            assert_eq!(a < b, s(*a).is_less_than(&s(*b)), "{} < {}", a, b);
        }
    }
}

#[test]
fn rank_of_chosen_values() {
    assert_eq!(s(0.0).rank_key(), 0);
    assert_eq!(s(-0.0).rank_key(), 0);
    assert_eq!(s(1.0).rank_key(), 0x3f80_0000);
    assert_eq!(s(-1.0).rank_key(), -0x3f80_0000);
    assert_eq!(s(f32::INFINITY).rank_key(), 0x7f80_0000);
    assert_eq!(s(f32::NEG_INFINITY).rank_key(), -0x7f80_0000);
    assert_eq!(s(f32::NAN).rank_key(), NAN_RANK);
    assert_eq!(Scalar::from_bits(0xffff_ffff).rank_key(), NAN_RANK);
    assert_eq!(Scalar::from_bits(0x7f80_0001).rank_key(), NAN_RANK);
}

#[test]
fn not_a_number_ranks_below_every_number() {
    let nan = s(f32::NAN);
    assert!(nan.is_nan());
    for a in samples().iter() {
        assert!(!s(*a).is_nan());
        assert!(nan.rank_key() < s(*a).rank_key());
        assert!(!nan.is_less_than(&s(*a)));
        assert!(!s(*a).is_less_than(&nan));
    }
    assert!(!nan.is_less_than(&nan));
}

#[test]
fn at_most_zero_agrees_with_the_numbers() {
    for a in samples().iter() {
        assert_eq!(s(*a).is_at_most_zero(), *a <= 0.0, "{}", a);
    }
    assert!(!s(f32::NAN).is_at_most_zero());
    assert!(!Scalar::from_bits(0xffc0_0000).is_at_most_zero());
}

#[test]
fn zero_and_one() {
    assert!(s(0.0).is_zero());
    assert!(s(-0.0).is_zero());
    assert!(!s(1.0e-45).is_zero());
    assert!(s(1.0).is_one());
    assert!(!s(-1.0).is_one());
    assert!(!s(1.0000001).is_one());
}

#[test]
fn default_bit_patterns_are_the_documented_numbers() {
    assert_eq!(DEFAULT_TOP_P_BITS, 0.95f32.to_bits());
    assert_eq!(DEFAULT_TEMPERATURE_BITS, 0.8f32.to_bits());
    assert_eq!(DEFAULT_REPEAT_PENALTY_BITS, 1.1f32.to_bits());
    assert_eq!(DEFAULT_MIROSTAT_TAU_BITS, 5.0f32.to_bits());
    assert_eq!(DEFAULT_MIROSTAT_ETA_BITS, 0.1f32.to_bits());
}
