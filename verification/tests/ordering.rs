use order_stats::Element;

fn samples() -> Vec<f64> {
    vec![
        f64::NEG_INFINITY,
        f64::MIN,
        -1.0e100,
        -2.5,
        -1.0,
        -f64::MIN_POSITIVE,
        -5.0e-324,
        0.0,
        5.0e-324,
        f64::MIN_POSITIVE,
        0.1,
        1.0,
        1.0000000000000002,
        2.5,
        1.0e100,
        f64::MAX,
        f64::INFINITY,
    ]
}

#[test]
fn float_order_is_the_numeric_order() {
    let all = samples();
    for a in all.iter() {
        for b in all.iter() {
            let x = Element::Float(a.to_bits());
            let y = Element::Float(b.to_bits());
            assert_eq!(x.precedes(&y), a <= b);
        }
    }
}

#[test]
fn negative_zero_comes_directly_below_zero() {
    let negative = Element::Float((-0.0f64).to_bits());
    let positive = Element::Float(0.0f64.to_bits());
    let below = Element::Float((-5.0e-324f64).to_bits());
    assert!(negative.precedes(&positive));
    assert!(!positive.precedes(&negative));
    assert!(below.precedes(&negative));
    assert!(!negative.precedes(&below));
}

#[test]
fn integer_order_is_the_numeric_order() {
    let all: Vec<i64> = vec![i64::MIN, -7, -1, 0, 1, 41, 42, i64::MAX];
    for a in all.iter() {
        for b in all.iter() {
            assert_eq!(Element::Integer(*a).precedes(&Element::Integer(*b)), a <= b);
        }
    }
}

#[test]
fn order_is_total_on_samples() {
    let mut all: Vec<Element> = samples().iter().map(|v| Element::Float(v.to_bits())).collect();
    all.push(Element::Integer(-3));
    all.push(Element::Integer(8));
    all.push(Element::Other);
    for a in all.iter() {
        assert!(a.precedes(a));
        for b in all.iter() {
            assert!(a.precedes(b) || b.precedes(a));
            if a.precedes(b) && b.precedes(a) {
                assert_eq!(a, b);
            }
        }
    }
}

#[test]
fn kind_of_each_representation() {
    assert_eq!(Element::Integer(1).kind_of(), Some(order_stats::ElementKind::Integer));
    assert_eq!(Element::Float(0).kind_of(), Some(order_stats::ElementKind::Float));
    assert_eq!(Element::Other.kind_of(), None);
}
