use order_stats::{array_max, array_min, bounds, classify, gen_max, gen_min, validate};
use order_stats::{relate_integer_to_float, Element, ElementKind, Relation, StatsError};

fn ints(values: &[i64]) -> Vec<Element> {
    values.iter().map(|v| Element::Integer(*v)).collect()
}

fn floats(values: &[f64]) -> Vec<Element> {
    values.iter().map(|v| Element::Float(v.to_bits())).collect()
}

fn float(value: f64) -> Element {
    Element::Float(value.to_bits())
}

#[test]
fn max_of_integer_array() {
    assert_eq!(array_max(&ints(&[2, 3, 4, 5])), Ok(Element::Integer(5)));
}

#[test]
fn min_of_integer_array() {
    assert_eq!(array_min(&ints(&[2, 3, 4, 5])), Ok(Element::Integer(2)));
}

#[test]
fn bounds_of_integer_array() {
    assert_eq!(bounds(&ints(&[2, 3, 4, 5])), Ok(ints(&[2, 5])));
}

#[test]
fn extrema_of_unsorted_integers() {
    let s = ints(&[32, 15, -7, 10, 1000, 41, 42]);
    assert_eq!(array_max(&s), Ok(Element::Integer(1000)));
    assert_eq!(array_min(&s), Ok(Element::Integer(-7)));
    assert_eq!(bounds(&s), Ok(ints(&[-7, 1000])));
}

#[test]
fn max_of_integer_pair() {
    assert_eq!(gen_max(Element::Integer(2), Element::Integer(3)), Ok(Element::Integer(3)));
    assert_eq!(gen_max(Element::Integer(3), Element::Integer(2)), Ok(Element::Integer(3)));
}

#[test]
fn max_of_float_pair() {
    assert_eq!(gen_max(float(2.0), float(3.0)), Ok(float(3.0)));
    assert_eq!(gen_max(float(3.0), float(2.0)), Ok(float(3.0)));
}

#[test]
fn min_of_integer_pair() {
    assert_eq!(gen_min(Element::Integer(2), Element::Integer(3)), Ok(Element::Integer(2)));
    assert_eq!(gen_min(Element::Integer(3), Element::Integer(2)), Ok(Element::Integer(2)));
}

#[test]
fn min_of_float_pair() {
    assert_eq!(gen_min(float(2.0), float(3.0)), Ok(float(2.0)));
    assert_eq!(gen_min(float(-2.5), float(-3.5)), Ok(float(-3.5)));
}

#[test]
fn max_of_integer_and_float() {
    assert_eq!(gen_max(Element::Integer(2), float(3.5)), Ok(float(3.5)));
    assert_eq!(gen_max(float(3.5), Element::Integer(2)), Ok(float(3.5)));
    assert_eq!(gen_max(Element::Integer(4), float(3.5)), Ok(Element::Integer(4)));
    assert_eq!(gen_max(float(3.5), Element::Integer(4)), Ok(Element::Integer(4)));
    assert_eq!(gen_max(Element::Integer(2), float(3.0)), Ok(float(3.0)));
    assert_eq!(gen_max(Element::Integer(-3), float(-3.5)), Ok(Element::Integer(-3)));
}

#[test]
fn min_of_integer_and_float() {
    assert_eq!(gen_min(Element::Integer(2), float(3.5)), Ok(Element::Integer(2)));
    assert_eq!(gen_min(float(2.0), Element::Integer(3)), Ok(float(2.0)));
    assert_eq!(gen_min(Element::Integer(4), float(3.5)), Ok(float(3.5)));
    assert_eq!(gen_min(float(-0.5), Element::Integer(-1)), Ok(Element::Integer(-1)));
    assert_eq!(gen_min(float(-0.5), Element::Integer(0)), Ok(float(-0.5)));
}

#[test]
fn equal_integer_and_float_give_second_as_max_and_first_as_min() {
    assert_eq!(gen_max(Element::Integer(2), float(2.0)), Ok(float(2.0)));
    assert_eq!(gen_max(float(2.0), Element::Integer(2)), Ok(Element::Integer(2)));
    assert_eq!(gen_min(Element::Integer(2), float(2.0)), Ok(Element::Integer(2)));
    assert_eq!(gen_min(float(2.0), Element::Integer(2)), Ok(float(2.0)));
    assert_eq!(gen_max(Element::Integer(0), float(-0.0)), Ok(float(-0.0)));
    assert_eq!(gen_min(Element::Integer(0), float(-0.0)), Ok(Element::Integer(0)));
}

#[test]
fn integer_and_float_at_the_integer_limits() {
    let two_to_63 = 9223372036854775808.0f64;
    let below_two_to_63 = 9223372036854774784.0f64;
    assert_eq!(gen_max(Element::Integer(i64::MAX), float(two_to_63)), Ok(float(two_to_63)));
    assert_eq!(
        gen_max(Element::Integer(i64::MAX), float(below_two_to_63)),
        Ok(Element::Integer(i64::MAX))
    );
    assert_eq!(
        gen_min(Element::Integer(i64::MAX - 1023), float(below_two_to_63)),
        Ok(Element::Integer(i64::MAX - 1023))
    );
    assert_eq!(
        gen_min(Element::Integer(i64::MAX - 1024), float(below_two_to_63)),
        Ok(Element::Integer(i64::MAX - 1024))
    );
    assert_eq!(
        gen_max(Element::Integer(i64::MAX - 1024), float(below_two_to_63)),
        Ok(float(below_two_to_63))
    );
    assert_eq!(gen_min(Element::Integer(i64::MIN), float(-two_to_63)), Ok(Element::Integer(i64::MIN)));
    assert_eq!(gen_max(Element::Integer(i64::MIN), float(-two_to_63)), Ok(float(-two_to_63)));
    assert_eq!(
        gen_min(Element::Integer(i64::MIN), float(-9223372036854777856.0)),
        Ok(float(-9223372036854777856.0))
    );
    assert_eq!(gen_max(Element::Integer(i64::MAX), float(1.0e300)), Ok(float(1.0e300)));
    assert_eq!(gen_min(Element::Integer(i64::MIN), float(-1.0e300)), Ok(float(-1.0e300)));
}

#[test]
fn integer_and_tiny_or_infinite_float() {
    assert_eq!(gen_max(Element::Integer(0), float(5.0e-324)), Ok(float(5.0e-324)));
    assert_eq!(gen_min(Element::Integer(0), float(-5.0e-324)), Ok(float(-5.0e-324)));
    assert_eq!(gen_min(Element::Integer(1), float(5.0e-324)), Ok(float(5.0e-324)));
    assert_eq!(gen_max(Element::Integer(-1), float(-1.0e-200)), Ok(float(-1.0e-200)));
    assert_eq!(
        gen_max(Element::Integer(i64::MAX), float(f64::INFINITY)),
        Ok(float(f64::INFINITY))
    );
    assert_eq!(
        gen_min(Element::Integer(i64::MIN), float(f64::NEG_INFINITY)),
        Ok(float(f64::NEG_INFINITY))
    );
    assert_eq!(gen_max(Element::Integer(5), float(f64::NEG_INFINITY)), Ok(Element::Integer(5)));
}

fn exact_relation(i: i64, f: f64) -> Relation {
    if f >= 9223372036854775808.0 {
        Relation::Below
    } else if f < -9223372036854775808.0 {
        Relation::Above
    } else {
        let whole = f.floor();
        let w = whole as i64;
        if i < w {
            Relation::Below
        } else if i > w {
            Relation::Above
        } else if f > whole {
            Relation::Below
        } else {
            Relation::Same
        }
    }
}

#[test]
fn integer_to_float_relation_is_exact() {
    let integers: Vec<i64> = vec![
        i64::MIN, i64::MIN + 1, -9007199254740993, -9007199254740992, -4503599627370497, -1025,
        -3, -2, -1, 0, 1, 2, 3, 1024, 4503599627370496, 4503599627370497, 9007199254740992,
        9007199254740993, i64::MAX - 1024, i64::MAX - 1023, i64::MAX - 1, i64::MAX,
    ];
    let reals: Vec<f64> = vec![
        f64::NEG_INFINITY, f64::MIN, -1.0e19, -9223372036854777856.0, -9223372036854775808.0,
        -9223372036854774784.0, -9007199254740994.0, -9007199254740992.0, -4503599627370496.5,
        -1024.5, -3.0, -2.5, -1.0, -0.5, -5.0e-324, -0.0, 0.0, 5.0e-324, 2.2e-308, 0.5, 1.0,
        1.5, 2.0, 2.9999999999999996, 3.0, 1024.0, 4503599627370496.0, 4503599627370496.5,
        9007199254740992.0, 9007199254740994.0, 9223372036854774784.0, 9223372036854775808.0,
        9223372036854777856.0, 1.0e19, f64::MAX, f64::INFINITY,
    ];
    for i in integers.iter() {
        for f in reals.iter() {
            assert_eq!(relate_integer_to_float(*i, f.to_bits()), exact_relation(*i, *f));
        }
    }
}

#[test]
fn pair_with_a_non_numeric_value_is_a_type_error() {
    assert_eq!(gen_max(Element::Integer(1), Element::Other), Err(StatsError::Type));
    assert_eq!(gen_min(float(1.0), Element::Other), Err(StatsError::Type));
    assert_eq!(gen_max(Element::Other, float(1.0)), Err(StatsError::Type));
}

#[test]
fn pair_of_one_kind_agrees_with_the_sequence_form() {
    let pairs = vec![
        (Element::Integer(2), Element::Integer(3)),
        (Element::Integer(7), Element::Integer(-7)),
        (float(2.5), float(-2.5)),
        (float(-0.0), float(0.0)),
        (float(0.0), float(-0.0)),
    ];
    for (a, b) in pairs {
        assert_eq!(gen_max(a, b), array_max(&vec![a, b]));
        assert_eq!(gen_min(a, b), array_min(&vec![a, b]));
    }
}

#[test]
fn pair_with_non_numeric_first_is_type_error() {
    assert_eq!(gen_max(Element::Other, Element::Integer(1)), Err(StatsError::Type));
    assert_eq!(gen_min(Element::Other, Element::Other), Err(StatsError::Type));
}

#[test]
fn extrema_of_floats() {
    let s = floats(&[1.5, -2.25, 1.0e300, -1.0e-300, 0.0, 7.0]);
    assert_eq!(array_max(&s), Ok(float(1.0e300)));
    assert_eq!(array_min(&s), Ok(float(-2.25)));
    assert_eq!(bounds(&s), Ok(floats(&[-2.25, 1.0e300])));
}

#[test]
fn extrema_of_floats_with_infinities() {
    let s = floats(&[3.0, f64::NEG_INFINITY, f64::MAX, f64::INFINITY, f64::MIN]);
    assert_eq!(array_max(&s), Ok(float(f64::INFINITY)));
    assert_eq!(array_min(&s), Ok(float(f64::NEG_INFINITY)));
}

#[test]
fn extrema_of_integer_limits() {
    let s = ints(&[0, i64::MAX, -1, i64::MIN, 1]);
    assert_eq!(array_max(&s), Ok(Element::Integer(i64::MAX)));
    assert_eq!(array_min(&s), Ok(Element::Integer(i64::MIN)));
}

#[test]
fn single_element_is_both_extrema() {
    let s = ints(&[9]);
    assert_eq!(array_max(&s), Ok(Element::Integer(9)));
    assert_eq!(array_min(&s), Ok(Element::Integer(9)));
    assert_eq!(bounds(&s), Ok(ints(&[9, 9])));
}

#[test]
fn repeated_values_keep_their_value() {
    let s = ints(&[4, 4, 1, 1, 4]);
    assert_eq!(array_max(&s), Ok(Element::Integer(4)));
    assert_eq!(array_min(&s), Ok(Element::Integer(1)));
}

#[test]
fn empty_sequence_is_refused_by_reducers() {
    let s: Vec<Element> = Vec::new();
    assert_eq!(array_max(&s), Err(StatsError::EmptyInput));
    assert_eq!(array_min(&s), Err(StatsError::EmptyInput));
    assert_eq!(bounds(&s), Err(StatsError::EmptyInput));
}

#[test]
fn non_numeric_sequence_is_a_type_error() {
    let s = vec![Element::Other, Element::Other];
    assert_eq!(array_max(&s), Err(StatsError::Type));
    assert_eq!(array_min(&s), Err(StatsError::Type));
    assert_eq!(bounds(&s), Err(StatsError::Type));
}

#[test]
fn mixed_sequence_is_heterogeneous() {
    let s = vec![Element::Integer(1), Element::Integer(2), float(3.0)];
    assert_eq!(array_max(&s), Err(StatsError::HeterogeneousInput));
    assert_eq!(array_min(&s), Err(StatsError::HeterogeneousInput));
    assert_eq!(bounds(&s), Err(StatsError::HeterogeneousInput));
    let t = vec![float(1.0), Element::Other];
    assert_eq!(array_max(&t), Err(StatsError::HeterogeneousInput));
}

#[test]
fn classify_reads_only_the_first_element() {
    assert_eq!(classify(&ints(&[1, 2])), Ok(ElementKind::Integer));
    assert_eq!(classify(&floats(&[1.0])), Ok(ElementKind::Float));
    assert_eq!(classify(&vec![Element::Integer(1), Element::Other]), Ok(ElementKind::Integer));
    assert_eq!(classify(&vec![float(1.0), Element::Integer(1)]), Ok(ElementKind::Float));
    assert_eq!(classify(&vec![Element::Other, Element::Integer(1)]), Err(StatsError::Type));
    assert_eq!(classify(&Vec::new()), Err(StatsError::EmptyInput));
}

#[test]
fn validate_reads_every_element() {
    assert_eq!(validate(&ints(&[1, 2, 3])), Ok(ElementKind::Integer));
    assert_eq!(validate(&floats(&[1.0, 2.0])), Ok(ElementKind::Float));
    assert_eq!(
        validate(&vec![Element::Integer(1), Element::Integer(2), Element::Other]),
        Err(StatsError::HeterogeneousInput)
    );
    assert_eq!(validate(&vec![Element::Other]), Err(StatsError::Type));
    assert_eq!(validate(&Vec::new()), Err(StatsError::EmptyInput));
}

#[test]
fn extrema_enclose_every_element_on_values() {
    let s = ints(&[5, -3, 12, 0, 7, -3]);
    let low = array_min(&s).unwrap();
    let high = array_max(&s).unwrap();
    assert!(s.contains(&low));
    assert!(s.contains(&high));
    for e in s.iter() {
        assert!(low.precedes(e));
        assert!(e.precedes(&high));
    }
}

#[test]
fn bounds_pair_the_two_extrema() {
    let s = floats(&[0.5, -0.5, 8.0, 2.0]);
    let pair = bounds(&s).unwrap();
    assert_eq!(pair, vec![array_min(&s).unwrap(), array_max(&s).unwrap()]);
}

#[test]
fn repeated_calls_agree_and_leave_the_input() {
    let s = ints(&[32, 15, -7, 10, 1000, 41, 42]);
    let before = s.clone();
    assert_eq!(array_max(&s), array_max(&s));
    assert_eq!(array_min(&s), array_min(&s));
    assert_eq!(bounds(&s), bounds(&s));
    assert_eq!(s, before);
}
