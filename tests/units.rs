use furlong::base_unit::standard_graph;
use furlong::conversion::{ConversionError, ConversionFactor};
use furlong::dimension::{Get, GetOr, Sort, TEntry, TMap, LENGTH, MASS, TIME};
use furlong::notation::push_decimal;
use furlong::rational::Rational;
use furlong::system::{
    area_dimension, feet, imperial_system, kilometers, length_dimension, meters, seconds,
    si_system, standard_unit, velocity_dimension, volume_dimension, yards,
};
use furlong::unit::{operand_in, product_unit, quotient_unit, resolve, SystemUnit, Unit, UnitInfo};

fn value_of(f: &ConversionFactor) -> f64 {
    f.numer as f64 / f.denom as f64
}

/// The value `v` of `from`, expressed in `to`.
fn convert(v: f64, from: &Unit, to: &Unit) -> f64 {
    v * value_of(&resolve(&standard_graph(), from, to).unwrap())
}

fn system_unit(u: &Unit) -> &SystemUnit {
    u.root_unit()
}

#[test]
fn to_f32() {
    let r = Rational::new(3, 2);
    assert_eq!(r.numer as f32 / r.denom as f32, 1.5);
    assert_eq!(r.to_string(), "3/2");
}

#[test]
fn equal() {
    assert_eq!(Rational::new(3, 2).reduced(), Rational::new(6, 4).reduced());
    assert_ne!(Rational::new(3, 2).reduced(), Rational::new(6, 5).reduced());
}

#[test]
fn add() {
    let sum = Rational::new(3, 4).add(&Rational::new(2, 3)).unwrap();
    assert_eq!(sum.numer as f32 / sum.denom as f32, 17.0 / 12.0);
    assert_eq!(sum.to_string(), "17/12");
}

#[test]
fn sub() {
    let diff = Rational::new(3, 4).sub(&Rational::new(2, 3)).unwrap();
    assert_eq!(diff.numer as f32 / diff.denom as f32, 1.0 / 12.0);
    assert_eq!(diff.to_string(), "1/12");
}

#[test]
fn display() {
    let rat = Rational::new(-2, 3);
    assert_eq!(rat.to_string(), "-2/3");
    assert_eq!(format!("{}", rat.to_string()), "-2/3");
}

#[test]
fn rational_lowest_terms_and_overflow() {
    assert_eq!(Rational::new(-6, 4).reduced(), Rational::new(-3, 2));
    assert_eq!(Rational::new(0, 7).reduced(), Rational::new(0, 1));
    assert_eq!(Rational::new(i64::MIN, 1).reduced(), Rational::new(i64::MIN, 1));
    assert_eq!(Rational::from_integer(i64::MAX).add(&Rational::from_integer(1)), None);
    assert_eq!(Rational::new(i64::MIN, 3).to_string(), "-9223372036854775808/3");
}

#[test]
fn decimal_text() {
    let mut s = String::from("x=");
    push_decimal(&mut s, -1205);
    assert_eq!(s, "x=-1205");
    let mut z = String::new();
    push_decimal(&mut z, 0);
    assert_eq!(z, "0");
}

#[test]
fn unit_info() {
    let m = meters();
    assert_eq!(system_unit(&m).abbr(), "m");
    assert_eq!(format!("{:.3} {}", 3.0, system_unit(&m).abbr()), "3.000 m");
}

#[test]
fn generic_unit_info() {
    let ft = feet();
    assert_eq!(format!("{} {}", 2, system_unit(&ft).abbr()), "2 ft");
}

#[test]
fn abbreviations_follow_key_order_and_exponents() {
    let si = si_system();
    assert_eq!(SystemUnit::new(si_system(), area_dimension()).abbr(), "m^2");
    assert_eq!(SystemUnit::new(si_system(), volume_dimension()).abbr(), "m^3");
    // An exponent of magnitude one prints the bare symbol.
    assert_eq!(SystemUnit::new(si_system(), velocity_dimension()).abbr(), "ms");
    let dim = TMap::from_entries(&vec![
        TEntry { key: TIME, value: -2 },
        TEntry { key: MASS, value: 1 },
        TEntry { key: LENGTH, value: 0 },
    ]);
    assert_eq!(SystemUnit::new(si, dim).abbr(), "kgs^-2");
    assert_eq!(SystemUnit::new(imperial_system(), TMap::new()).abbr(), "");
}

#[test]
fn scaled_units() {
    assert_eq!(convert(1.0, &kilometers(), &meters()), 1_000.0);
    assert_eq!(convert(1.0, &yards(), &feet()), 3.0);
    let f = resolve(&standard_graph(), &kilometers(), &meters()).unwrap();
    assert_eq!(1 * f.numer / f.denom, 1_000);
}

#[test]
fn add_same_unit() {
    let sum = 2.0 + convert(1.5, &meters(), &meters());
    assert_eq!(sum, 3.5);
}

#[test]
fn add_different_units() {
    let sum = 2.0 + convert(1.0, &meters(), &feet());
    assert!((sum - (2.0 + 3.0 / 0.9144)).abs() < 1e-9);
}

#[test]
fn subtract_units() {
    let diff = 3.0 - convert(3.0, &feet(), &meters());
    assert!((diff - (3.0 - 0.9144)).abs() < 1e-9);
}

#[test]
fn multiply_units() {
    let (unit, f) = product_unit(&standard_graph(), &meters(), &feet()).unwrap();
    let area = Unit::System(unit);
    let square_meters = standard_unit(si_system(), area_dimension());
    assert_eq!(resolve(&standard_graph(), &area, &square_meters), Ok(ConversionFactor::one()));
    let v = 2.0 * 3.0 * value_of(&f);
    assert!((v - 2.0 * 0.9144).abs() < 1e-12);
    assert_eq!(f, ConversionFactor { numer: 381, denom: 1250 });
}

#[test]
fn divide_units() {
    let (unit, f) = quotient_unit(&standard_graph(), &meters(), &seconds(si_system())).unwrap();
    assert_eq!(2.0 / 1.0 * value_of(&f), 2.0);
    assert!(unit.dim.same_dimension(&velocity_dimension()));
    assert_eq!(unit.dim.get(LENGTH), 1);
    assert_eq!(unit.dim.get(TIME), -1);
    let velocity = standard_unit(si_system(), velocity_dimension());
    assert_eq!(resolve(&standard_graph(), &Unit::System(unit), &velocity), Ok(ConversionFactor::one()));
}

#[test]
fn copy() {
    let a = kilometers();
    let b = a.copy();
    assert_eq!(resolve(&standard_graph(), &a, &b), Ok(ConversionFactor::one()));
}

#[test]
fn quotient_in_left_system() {
    let g = standard_graph();
    let (unit, f) = quotient_unit(&g, &feet(), &Unit::System(SystemUnit::new(si_system(), area_dimension()))).unwrap();
    // ft / m^2 in the imperial system is ft^-1, and 1 m^2 = (1250/381)^2 ft^2.
    assert_eq!(unit.dim.get(LENGTH), -1);
    assert_eq!(f, ConversionFactor { numer: 145161, denom: 1562500 });
    assert_eq!(unit.abbr(), "ft");
}

#[test]
fn product_of_incompatible_systems_is_unresolved() {
    let g = furlong::base_unit::BaseUnitGraph::new();
    assert_eq!(product_unit(&g, &meters(), &feet()).unwrap_err(), ConversionError::UnresolvedConversion);
    let f = operand_in(&g, &kilometers(), &si_system()).unwrap();
    assert_eq!(f, ConversionFactor { numer: 1000, denom: 1 });
}

#[test]
fn lookup_traits() {
    let d = length_dimension().mul(2);
    assert_eq!(d.entry(LENGTH), Some(2));
    assert_eq!(d.entry(TIME), None);
    assert_eq!(d.entry_or(TIME, 7), 7);
    assert_eq!(d.entry_or(LENGTH, 7), 2);
    let raw = vec![TEntry { key: 2, value: 1 }, TEntry { key: 0, value: -1 }, TEntry { key: 2, value: 2 }];
    assert_eq!(raw.sorted().entries, vec![TEntry { key: 0, value: -1 }, TEntry { key: 2, value: 3 }]);
}

#[test]
fn add_int_units() {
    let l2: i32 = 2;
    let sum = 1.5f64 + convert(l2 as f64, &meters(), &meters());
    assert_eq!(sum, 3.5);
}

#[test]
fn add_different_types() {
    let l_i32: i32 = 1;
    let mut l_f64 = 2.0f64;
    l_f64 += convert(l_i32 as f64, &feet(), &feet());
    assert_eq!(l_f64, 3.0);
}

#[test]
fn with_vectors() {
    let f = value_of(&resolve(&standard_graph(), &feet(), &feet()).unwrap());
    let length_v = [1.0f64, 2.0, 3.0];
    let width_v = length_v;
    let perimeter_v: Vec<f64> = length_v.iter().zip(width_v.iter()).map(|(a, b)| a + b * f).collect();
    assert_eq!(perimeter_v, vec![2.0, 4.0, 6.0]);
}
