use pcoretempf::unit::Unit;

const UNITS: [Unit; 3] = [Unit::Celcius, Unit::Fahrenheit, Unit::Kelvin];

#[test]
fn celsius_zero_in_fahrenheit_and_kelvin() {
    assert_eq!(Unit::convert(&Unit::Celcius, &Unit::Fahrenheit, 0), 32000);
    assert_eq!(Unit::convert(&Unit::Celcius, &Unit::Kelvin, 0), 273150);
    assert_eq!(Unit::convert(&Unit::Fahrenheit, &Unit::Celcius, 32000), 0);
}

#[test]
fn identity_conversion_is_exact() {
    for u in UNITS.iter() {
        for x in [-40000i64, 0, 1, 53320, 100000, 273150].iter() {
            assert_eq!(Unit::convert(u, u, *x), *x);
        }
    }
}

#[test]
fn conversion_round_trip_stays_within_a_millidegree() {
    for a in UNITS.iter() {
        for b in UNITS.iter() {
            for x in [0i64, 100000, -40000, 53321, 1, -1].iter() {
                let back = Unit::convert(b, a, Unit::convert(a, b, *x));
                assert!((back - x).abs() <= 1, "{:?} -> {:?} -> {:?}: {} gave {}", a, b, a, x, back);
            }
        }
    }
}

#[test]
fn minus_forty_is_the_same_in_celsius_and_fahrenheit() {
    assert_eq!(Unit::convert(&Unit::Celcius, &Unit::Fahrenheit, -40000), -40000);
    assert_eq!(Unit::convert(&Unit::Fahrenheit, &Unit::Celcius, -40000), -40000);
}

#[test]
fn conversions_between_fahrenheit_and_kelvin() {
    assert_eq!(Unit::convert(&Unit::Fahrenheit, &Unit::Kelvin, 32000), 273150);
    assert_eq!(Unit::convert(&Unit::Kelvin, &Unit::Fahrenheit, 273150), 32000);
    assert_eq!(Unit::convert(&Unit::Kelvin, &Unit::Celcius, 0), -273150);
    assert_eq!(Unit::convert(&Unit::Fahrenheit, &Unit::Celcius, 100000), 37778);
    assert_eq!(Unit::Celcius.convert_to(&Unit::Fahrenheit, 100000), 212000);
}

#[test]
fn unit_names() {
    assert_eq!(Unit::Celcius.to_str_glyph(), "°C");
    assert_eq!(Unit::Fahrenheit.to_str_glyph(), "°F");
    assert_eq!(Unit::Kelvin.to_str_glyph(), "°K");
    assert_eq!(Unit::Celcius.to_str_long(), "Celcius");
    assert_eq!(Unit::Fahrenheit.to_str_long(), "Fahrenheit");
    assert_eq!(Unit::Kelvin.to_str_long(), "Kelvin");
    assert_eq!(Unit::Celcius.to_str_short(), "C");
    assert_eq!(Unit::Fahrenheit.to_str_short(), "F");
    assert_eq!(Unit::Kelvin.to_str_short(), "K");
}

#[test]
fn unit_tokens() {
    for t in ["°C", "c", "C", "celcius", "Celcius"].iter() {
        assert_eq!(Unit::from_str(t), Some(Unit::Celcius));
    }
    for t in ["°F", "f", "F", "fahrenheit", "Fahrenheit"].iter() {
        assert_eq!(Unit::from_str(t), Some(Unit::Fahrenheit));
    }
    for t in ["°K", "k", "K", "kelvin", "Kelvin"].iter() {
        assert_eq!(Unit::from_str(t), Some(Unit::Kelvin));
    }
    for t in ["celsius", "CELCIUS", "", "°c", "x"].iter() {
        assert_eq!(Unit::from_str(t), None);
    }
}
