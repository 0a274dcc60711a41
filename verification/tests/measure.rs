use game_records::measure::{Measure, INFINITY_BITS, SIGN_BIT};
use game_records::record::{compare_measure, Behavior};
use game_records::text::Order;

fn number(value: f64) -> Measure {
    Measure::from_bits(value.to_bits())
}

fn samples() -> Vec<f64> {
    vec![
        f64::NEG_INFINITY,
        f64::MIN,
        -1.0e300,
        -2.0,
        -1.5,
        -1.0,
        -f64::MIN_POSITIVE,
        -5.0e-324,
        -0.0,
        0.0,
        5.0e-324,
        f64::MIN_POSITIVE,
        0.1,
        1.0,
        1.0000000000000002,
        1.5,
        2.0,
        3.5,
        1.0e300,
        f64::MAX,
        f64::INFINITY,
        f64::NAN,
        -f64::NAN,
        f64::from_bits(0x7ff0_0000_0000_0001),
        f64::from_bits(0xffff_ffff_ffff_ffff),
    ]
}

#[test]
fn bits_go_in_and_out_unchanged() {
    for value in samples() {
        assert_eq!(number(value).to_bits(), value.to_bits());
    }
    assert_eq!(Measure::zero().to_bits(), 0.0f64.to_bits());
}

#[test]
fn constants_are_the_sign_and_infinity() {
    assert_eq!(SIGN_BIT, (-0.0f64).to_bits());
    assert_eq!(INFINITY_BITS, f64::INFINITY.to_bits());
}

#[test]
fn not_a_number_is_told_apart() {
    for value in samples() {
        assert_eq!(number(value).not_a_number(), value.is_nan(), "{:?}", value);
    }
}

#[test]
fn equality_is_that_of_the_numbers() {
    for a in samples() {
        for b in samples() {
            assert_eq!(number(a).equals(&number(b)), a == b, "{:?} == {:?}", a, b);
        }
    }
}

#[test]
fn order_is_that_of_the_numbers() {
    for a in samples() {
        for b in samples() {
            assert_eq!(number(a).less_than(&number(b)), a < b, "{:?} < {:?}", a, b);
        }
    }
}

#[test]
fn the_two_zeros_are_equal() {
    assert!(number(0.0).equals(&number(-0.0)));
    assert!(!number(0.0).less_than(&number(-0.0)));
    assert!(!number(-0.0).less_than(&number(0.0)));
}

#[test]
fn comparator_follows_the_cascade_of_the_numbers() {
    for a in samples() {
        for b in samples() {
            let expected = if a == b {
                Order::Equal
            } else if a < b {
                Order::Less
            } else {
                Order::Greater
            };
            assert_eq!(compare_measure(number(a), number(b)), expected, "{:?} ? {:?}", a, b);
        }
    }
}

#[test]
fn not_a_number_is_greater_both_ways() {
    let nan = number(f64::NAN);
    assert_eq!(compare_measure(nan, number(1.0)), Order::Greater);
    assert_eq!(compare_measure(number(1.0), nan), Order::Greater);
    assert_eq!(compare_measure(nan, nan), Order::Greater);
}

#[test]
fn behaviours_have_their_positions() {
    assert_eq!(Behavior::Play.position(), 0);
    assert_eq!(Behavior::Purchase.position(), 1);
    assert_eq!(Behavior::Error.position(), 2);
}
