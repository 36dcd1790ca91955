use r7rs::env::Environment;
use r7rs::value::{Decimal, Number, Pair, Port, Procedure, Real, Value};
use std::rc::Rc;

fn dec(mantissa: i64, scale: i32) -> Decimal {
    Decimal {
        mantissa,
        exponent: -scale,
    }
}

fn finite(mantissa: i64, scale: i32) -> Real {
    Real::Finite(dec(mantissa, scale))
}

#[test]
fn test_display() {
    assert_eq!(Value::Boolean(true).to_text(), "#t");
    assert_eq!(Value::Boolean(false).to_text(), "#f");
    assert_eq!(Value::Character('a').to_text(), "#\\a");
    assert_eq!(Value::Null.to_text(), "()");
    assert_eq!(
        Value::Pair(Box::new(Pair {
            car: Value::Boolean(true),
            cdr: Value::Boolean(false)
        }))
        .to_text(),
        "(#t . #f)"
    );
    assert_eq!(
        Value::Procedure(Box::new(Procedure {
            env: Environment::new(),
            params: vec!["a".to_string(), "b".to_string()],
            body: vec![Value::Boolean(true), Value::Boolean(false)]
        }))
        .to_text(),
        "(lambda (a b)\n    #t\n    #f\n    )"
    );
    assert_eq!(Value::Symbol("a".to_string()).to_text(), "a");
    assert_eq!(Value::Bytevector(vec![1, 2, 3]).to_text(), "#u8(1 2 3)");
    assert_eq!(Value::EofObject.to_text(), "#<eof>");
    assert_eq!(Value::Number(Number::Integer(1)).to_text(), "1");
    assert_eq!(Value::Number(Number::Real(finite(10, 1))).to_text(), "1");
    assert_eq!(Value::Number(Number::Real(finite(123, 2))).to_text(), "1.23");
    assert_eq!(
        Value::Number(Number::Rational {
            numerator: 1,
            denominator: 2
        })
        .to_text(),
        "1/2"
    );
    assert_eq!(
        Value::Number(Number::Rational {
            numerator: -1,
            denominator: 2
        })
        .to_text(),
        "-1/2"
    );
    assert_eq!(
        Value::Number(Number::Complex {
            real: finite(1, 0),
            imaginary: finite(2, 0)
        })
        .to_text(),
        "1+2i"
    );
    assert_eq!(
        Value::Number(Number::Complex {
            real: finite(10, 1),
            imaginary: finite(-20, 1)
        })
        .to_text(),
        "1-2i"
    );
    assert_eq!(Value::Port(Box::new(Port)).to_text(), "#<port>");
    assert_eq!(Value::String("a".to_string()).to_text(), "\"a\"");
    assert_eq!(
        Value::Vector(vec![Value::Boolean(true), Value::Boolean(false)]).to_text(),
        "#(#t #f)"
    );
}

#[test]
fn nested_pairs_stay_dotted() {
    let inner = Value::Pair(Box::new(Pair {
        car: Value::Number(Number::Integer(2)),
        cdr: Value::Null,
    }));
    let outer = Pair {
        car: Value::Number(Number::Integer(1)),
        cdr: inner,
    };
    assert_eq!(outer.to_text(), "(1 . (2 . ()))");
    assert_eq!(Value::Pair(Box::new(outer)).to_text(), "(1 . (2 . ()))");
}

#[test]
fn decimals_are_written_shortest() {
    assert_eq!(Number::Real(finite(-5, 1)).to_text(), "-0.5");
    assert_eq!(Number::Real(finite(1500, 3)).to_text(), "1.5");
    assert_eq!(Number::Real(finite(7, 3)).to_text(), "0.007");
    assert_eq!(Number::Real(finite(0, 4)).to_text(), "0");
    assert_eq!(Number::Real(finite(-120, 0)).to_text(), "-120");
    assert_eq!(
        Number::Complex {
            real: finite(0, 0),
            imaginary: finite(0, 0)
        }
        .to_text(),
        "0+0i"
    );
}

#[test]
fn integer_extremes() {
    assert_eq!(Number::Integer(i64::MIN).to_text(), "-9223372036854775808");
    assert_eq!(Number::Integer(i64::MAX).to_text(), "9223372036854775807");
    assert_eq!(
        Number::Rational {
            numerator: 3,
            denominator: u64::MAX
        }
        .to_text(),
        "3/18446744073709551615"
    );
}

#[test]
fn empty_collections() {
    assert_eq!(Value::Vector(vec![]).to_text(), "#()");
    assert_eq!(Value::Bytevector(vec![]).to_text(), "#u8()");
    assert_eq!(Value::Bytevector(vec![0, 255]).to_text(), "#u8(0 255)");
    assert_eq!(
        Value::Procedure(Box::new(Procedure {
            env: Environment::new(),
            params: vec![],
            body: vec![]
        }))
        .to_text(),
        "(lambda ()\n    )"
    );
    assert_eq!(Port.to_text(), "#<port>");
}

#[test]
fn child_frame_shadows_parent() {
    let mut parent = Environment::new();
    parent.define("x".to_string(), Value::Number(Number::Integer(2)));
    parent.define("y".to_string(), Value::Symbol("from-parent".to_string()));
    let parent = Rc::new(parent);
    let mut child = Environment::with_parent(parent.clone());
    child.define("x".to_string(), Value::Number(Number::Integer(1)));
    assert_eq!(child.get("x").unwrap().value.to_text(), "1");
    assert_eq!(parent.get("x").unwrap().value.to_text(), "2");
    assert_eq!(child.get("y").unwrap().value.to_text(), "from-parent");
    assert!(child.get("z").is_none());
    assert_eq!(child.keys(), vec!["x".to_string()]);
    let sibling = Environment::with_parent(parent.clone());
    assert_eq!(sibling.get("x").unwrap().value.to_text(), "2");
    assert!(sibling.keys().is_empty());
}

#[test]
fn define_replaces_in_the_same_frame() {
    let mut env = Environment::new();
    env.define("a".to_string(), Value::Boolean(true));
    env.define("b".to_string(), Value::Boolean(true));
    env.define("a".to_string(), Value::Boolean(false));
    assert_eq!(env.keys(), vec!["a".to_string(), "b".to_string()]);
    let v = env.get("a").unwrap();
    assert_eq!(v.name, "a");
    assert_eq!(v.value.to_text(), "#f");
}

#[test]
fn procedure_debug_form_lists_captured_bindings() {
    let mut env = Environment::new();
    env.define("n".to_string(), Value::Number(Number::Integer(3)));
    env.define("flag".to_string(), Value::Boolean(true));
    let p = Procedure {
        env,
        params: vec!["a".to_string()],
        body: vec![Value::Symbol("a".to_string())],
    };
    assert_eq!(p.to_text(), "(lambda (a)\n    a\n    )");
    assert_eq!(
        p.debug_text(),
        "(lambda (a)\n; n: 3\n    ; flag: #t\n    a\n    )"
    );
}

#[test]
fn variable_forms() {
    let mut env = Environment::new();
    env.define("x".to_string(), Value::String("hi".to_string()));
    let v = env.get("x").unwrap();
    assert_eq!(v.to_text(), "\"hi\"");
    assert_eq!(v.debug_text(), "(\"x\" . \"hi\")");
}

#[test]
fn decimal_from_plain_text() {
    assert_eq!(Decimal::from_text("1.23"), Some(dec(123, 2)));
    assert_eq!(Decimal::from_text("-0.5"), Some(dec(-5, 1)));
    assert_eq!(Decimal::from_text("42"), Some(dec(42, 0)));
    assert_eq!(Decimal::from_text("-7"), Some(dec(-7, 0)));
    assert_eq!(Decimal::from_text("1.50"), Some(dec(150, 2)));
    assert_eq!(Decimal::from_text("9223372036854775807"), Some(dec(i64::MAX, 0)));
    assert_eq!(Decimal::from_text("9223372036854775808"), None);
    assert_eq!(Decimal::from_text(""), None);
    assert_eq!(Decimal::from_text("-"), None);
    assert_eq!(Decimal::from_text("1."), None);
    assert_eq!(Decimal::from_text(".5"), None);
    assert_eq!(Decimal::from_text("1.2.3"), None);
    assert_eq!(Decimal::from_text("1e5"), None);
}

#[test]
fn float_text_round_trips_through_decimal() {
    for x in [1.0f64, 1.23, -2.0, 0.1, 1e-7, 123456.789] {
        let text = format!("{}", x);
        let d = Decimal::from_text(&text).unwrap();
        assert_eq!(Number::Real(Real::Finite(d)).to_text(), text);
    }
}

#[test]
fn reals_beyond_the_mantissa_and_special_values() {
    let big = Decimal::from_text("1").unwrap().shifted(20).unwrap();
    assert_eq!(Number::Real(Real::Finite(big)).to_text(), "100000000000000000000");
    let tiny = Decimal::from_text("5").unwrap().shifted(-324).unwrap();
    let text = Number::Real(Real::Finite(tiny)).to_text();
    assert_eq!(text, format!("{}", 5e-324f64));
    assert_eq!(Number::Real(Real::NaN).to_text(), "NaN");
    assert_eq!(Number::Real(Real::Infinity).to_text(), "inf");
    assert_eq!(Number::Real(Real::NegativeInfinity).to_text(), "-inf");
    assert_eq!(Number::Real(Real::NegativeZero).to_text(), "-0");
    assert_eq!(
        Number::Complex {
            real: finite(1, 0),
            imaginary: Real::NegativeZero
        }
        .to_text(),
        "1+-0i"
    );
    assert_eq!(
        Number::Complex {
            real: finite(1, 0),
            imaginary: Real::NegativeInfinity
        }
        .to_text(),
        "1-infi"
    );
    assert_eq!(
        Number::Complex {
            real: Real::NaN,
            imaginary: Real::NaN
        }
        .to_text(),
        "NaN+NaNi"
    );
    assert_eq!(dec(2, -1).shifted(i32::MAX), None);
}

#[test]
fn scientific_parts_match_float_text() {
    for x in [1e20f64, 1.5e300, 2.5e-10, 123.456, -7.0e22] {
        let sci = format!("{:e}", x);
        let (sig, exp) = sci.split_once('e').unwrap();
        let d = Decimal::from_text(sig)
            .unwrap()
            .shifted(exp.parse().unwrap())
            .unwrap();
        assert_eq!(Number::Real(Real::Finite(d)).to_text(), format!("{}", x));
    }
}
