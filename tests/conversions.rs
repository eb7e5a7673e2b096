use furlong::base_unit::{
    standard_graph, BaseUnit, BaseUnitGraph, BaseUnitInfo, FootBaseUnit, GramBaseUnit,
    KilogramBaseUnit, MeterBaseUnit, PoundMassBaseUnit, SecondBaseUnit, SlugBaseUnit,
    YardBaseUnit,
};
use furlong::conversion::{ConversionError, ConversionFactor};
use furlong::dimension::{TMap, LENGTH, TIME};
use furlong::system::{
    area_dimension, centimeters, feet, hours, imperial_system, kilometers, length_dimension,
    meters, miles, minutes, seconds, si_system, standard_unit, time_dimension,
    velocity_dimension, yards,
};
use furlong::unit::{resolve, MakeSystem, Unit};

fn as_f64(f: &ConversionFactor) -> f64 {
    f.numer as f64 / f.denom as f64
}

fn close(a: f64, b: f64) -> bool {
    let diff = (a - b).abs();
    diff <= f32::EPSILON as f64 || diff <= f64::EPSILON * a.abs().max(b.abs())
}

fn conv(from: &Unit, to: &Unit) -> f64 {
    as_f64(&resolve(&standard_graph(), from, to).unwrap())
}

/// `v1` of `from` is `v2` of `to`, both ways.
fn assert_conv(v1: f64, from: &Unit, v2: f64, to: &Unit) {
    assert!(close(conv(from, to), v2 / v1), "{} vs {}", conv(from, to), v2 / v1);
    assert!(close(conv(to, from), v1 / v2), "{} vs {}", conv(to, from), v1 / v2);
}

fn base_conv(from: &BaseUnit, to: &BaseUnit) -> f64 {
    as_f64(&standard_graph().base_factor(from, to).unwrap())
}

fn assert_base_conv(v1: f64, from: &BaseUnit, v2: f64, to: &BaseUnit) {
    assert!(close(base_conv(from, to), v2 / v1));
    assert!(close(base_conv(to, from), v1 / v2));
}

#[test]
fn base_unit_conversions() {
    let foot = FootBaseUnit::base_unit();
    let meter = MeterBaseUnit::base_unit();
    let yard = YardBaseUnit::base_unit();
    assert_base_conv(1.0, &foot, 1.0, &foot);
    assert_base_conv(1.0, &meter, 1.0, &meter);
    assert_base_conv(3.0, &foot, 0.9144, &meter);
    assert_base_conv(1.0, &yard, 0.9144, &meter);
}

#[test]
fn conversion_impl() {
    let f = resolve(&standard_graph(), &meters(), &meters()).unwrap();
    assert_eq!(as_f64(&f), 1.0);
}

#[test]
fn simple_conversions() {
    let si = si_system;
    let imp = imperial_system;
    assert_conv(1.0, &meters(), 1.0, &meters());
    assert_conv(1.0, &kilometers(), 1000.0, &meters());
    assert_conv(1.0, &meters(), 1000.0, &centimeters());

    assert_conv(0.9144, &meters(), 3.0, &feet());
    assert_conv(0.9144, &meters(), 1.0, &yards());
    assert_conv(1.0, &yards(), 3.0, &feet());
    assert_conv(1.0, &miles(), 5280.0, &feet());

    assert_conv(1.0, &hours(si()), 3600.0, &seconds(si()));
    assert_conv(1.0, &hours(imp()), 3600.0, &seconds(imp()));
    assert_conv(1.0, &hours(imp()), 3600.0, &seconds(si()));
    assert_conv(1.0, &hours(si()), 3600.0, &seconds(imp()));
}

#[test]
fn nontrivial_conversions() {
    let square_meters = standard_unit(si_system(), area_dimension());
    let square_feet = standard_unit(imperial_system(), area_dimension());
    assert_conv(1.0, &square_meters, 10.763910416, &square_feet);
}

#[test]
fn convert_self() {
    assert_conv(1.0, &meters(), 1.0, &meters());
    assert_conv(1.0, &feet(), 1.0, &feet());
}

#[test]
fn conversions() {
    let f32_of = |from: &Unit, to: &Unit| {
        let f = resolve(&standard_graph(), from, to).unwrap();
        f.numer as f32 / f.denom as f32
    };
    assert_eq!(f32_of(&centimeters(), &meters()), 1.0 / 1_000.0);
    assert_eq!(f32_of(&meters(), &centimeters()), 1_000.0);
    assert_eq!(f32_of(&meters(), &kilometers()), 1.0 / 1_000.0);
    assert_eq!(f32_of(&hours(si_system()), &seconds(si_system())), 3_600.0);
}

#[test]
fn system_conversions() {
    let f32_of = |from: &Unit, to: &Unit| {
        let f = resolve(&standard_graph(), from, to).unwrap();
        f.numer as f32 / f.denom as f32
    };
    assert_eq!(f32_of(&feet(), &yards()), 1.0 / 3.0);
    assert_eq!(f32_of(&miles(), &feet()), 5_280.0);
    assert_eq!(f32_of(&hours(imperial_system()), &seconds(imperial_system())), 3_600.0);
}

#[test]
fn kilometer_to_meters_is_exactly_one_thousand() {
    let f = resolve(&standard_graph(), &kilometers(), &meters()).unwrap();
    assert_eq!(f, ConversionFactor { numer: 1000, denom: 1 });
    assert_eq!(2.0 * as_f64(&f), 2000.0);
}

#[test]
fn three_feet_make_a_yard_and_0_9144_meters() {
    let g = standard_graph();
    assert_eq!(resolve(&g, &yards(), &feet()).unwrap(), ConversionFactor { numer: 3, denom: 1 });
    assert_eq!(resolve(&g, &feet(), &meters()).unwrap(), ConversionFactor { numer: 381, denom: 1250 });
    assert_eq!(resolve(&g, &yards(), &meters()).unwrap(), ConversionFactor { numer: 1143, denom: 1250 });
    assert!(close(3.0 * conv(&feet(), &meters()), 0.9144));
}

#[test]
fn square_meter_in_square_feet_is_exact_square() {
    let square_meters = standard_unit(si_system(), area_dimension());
    let square_feet = standard_unit(imperial_system(), area_dimension());
    let f = resolve(&standard_graph(), &square_meters, &square_feet).unwrap();
    // (1250 / 381)^2 in lowest terms.
    assert_eq!(f, ConversionFactor { numer: 1562500, denom: 145161 });
    assert!((as_f64(&f) - 10.763910416).abs() < 1e-9);
}

#[test]
fn two_meters_plus_three_feet() {
    let to_meters = conv(&feet(), &meters());
    let sum = 2.0 + 3.0 * to_meters;
    assert!((sum - 2.9144).abs() < 1e-12);
}

#[test]
fn reverse_edge_alone_does_not_resolve() {
    let a = MeterBaseUnit::base_unit().root_tag();
    let b = YardBaseUnit::base_unit().root_tag();
    let mut g = BaseUnitGraph::new();
    g.declare_edge(b, a, ConversionFactor::from_ratio(1143, 1250));
    assert_eq!(
        g.base_factor(&BaseUnit::Tag(a), &BaseUnit::Tag(b)),
        Err(ConversionError::UnresolvedConversion)
    );
    assert_eq!(
        g.base_factor(&BaseUnit::Tag(b), &BaseUnit::Tag(a)),
        Ok(ConversionFactor { numer: 1143, denom: 1250 })
    );
    assert_eq!(g.edge_between(a, a), Some(ConversionFactor::one()));
    assert_eq!(resolve(&g, &meters(), &feet()).unwrap_err(), ConversionError::UnresolvedConversion);
    assert_eq!(resolve(&g, &feet(), &meters()).unwrap(), ConversionFactor { numer: 381, denom: 1250 });
}

#[test]
fn later_declaration_replaces_earlier() {
    let a = MeterBaseUnit::base_unit().root_tag();
    let b = YardBaseUnit::base_unit().root_tag();
    let mut g = BaseUnitGraph::new();
    g.declare_edge(a, b, ConversionFactor::from_ratio(1, 1));
    g.declare_edge(a, b, ConversionFactor::from_ratio(1250, 1143));
    assert_eq!(g.edge_between(a, b), Some(ConversionFactor { numer: 1250, denom: 1143 }));
}

#[test]
fn length_over_time_matches_velocity() {
    let speed = standard_unit(si_system(), length_dimension().sub(&time_dimension()));
    let velocity = standard_unit(si_system(), velocity_dimension());
    assert_eq!(resolve(&standard_graph(), &speed, &velocity), Ok(ConversionFactor::one()));
    let mph = standard_unit(imperial_system(), velocity_dimension());
    let f = resolve(&standard_graph(), &speed, &mph).unwrap();
    assert_eq!(f, ConversionFactor { numer: 1250, denom: 381 });
}

#[test]
fn incompatible_dimensions_are_rejected() {
    let g = standard_graph();
    assert_eq!(resolve(&g, &meters(), &seconds(si_system())), Err(ConversionError::IncompatibleDimension));
    let area = standard_unit(si_system(), area_dimension());
    assert_eq!(resolve(&g, &area, &meters()), Err(ConversionError::IncompatibleDimension));
}

#[test]
fn resolving_a_unit_to_itself_is_one() {
    let g = standard_graph();
    for u in [meters(), kilometers(), feet(), yards(), miles(), hours(si_system())] {
        assert_eq!(resolve(&g, &u, &u), Ok(ConversionFactor::one()));
    }
    let square_feet = standard_unit(imperial_system(), area_dimension());
    assert_eq!(resolve(&g, &square_feet, &square_feet), Ok(ConversionFactor::one()));
}

#[test]
fn there_and_back_multiplies_to_one() {
    let g = standard_graph();
    let pairs = [(meters(), feet()), (kilometers(), miles()), (yards(), centimeters())];
    for (a, b) in pairs.iter() {
        let f = resolve(&g, a, b).unwrap();
        let h = resolve(&g, b, a).unwrap();
        assert_eq!(f.numer as u128 * h.numer as u128, f.denom as u128 * h.denom as u128);
        let q = 7.25;
        assert!(close(q * as_f64(&f) * as_f64(&h), q));
    }
}

#[test]
fn exponent_law_with_negative_exponent() {
    let g = standard_graph();
    let per_meter = standard_unit(si_system(), length_dimension().neg());
    let per_foot = standard_unit(imperial_system(), length_dimension().neg());
    let base = g.base_factor(&MeterBaseUnit::base_unit(), &FootBaseUnit::base_unit()).unwrap();
    assert_eq!(base, ConversionFactor { numer: 3750, denom: 1143 });
    let f = resolve(&g, &per_meter, &per_foot).unwrap();
    assert_eq!(f, base.reciprocal().reduced());
    let cubic_m = standard_unit(si_system(), length_dimension().mul(3));
    let cubic_ft = standard_unit(imperial_system(), length_dimension().mul(3));
    let f3 = resolve(&g, &cubic_m, &cubic_ft).unwrap();
    assert_eq!(f3, base.power(3).unwrap().reduced());
}

#[test]
fn mass_conversions() {
    let g = standard_graph();
    let slug = SlugBaseUnit::base_unit();
    let kg = KilogramBaseUnit::base_unit();
    let lbm = PoundMassBaseUnit::base_unit();
    assert_eq!(g.base_factor(&slug, &kg).unwrap().reduced(), ConversionFactor { numer: 1459, denom: 100 });
    assert_eq!(g.base_factor(&lbm, &slug).unwrap().reduced(), ConversionFactor { numer: 16087, denom: 500 });
    assert_eq!(g.base_factor(&GramBaseUnit::base_unit(), &kg).unwrap().reduced(), ConversionFactor { numer: 1, denom: 1000 });
    assert_eq!(GramBaseUnit::symbol(), "g");
    assert_eq!(KilogramBaseUnit::name(), "kilo");
    assert_eq!(SecondBaseUnit::symbol(), "s");
}

#[test]
fn missing_base_unit_does_not_resolve() {
    let g = standard_graph();
    let mass_and_length = || {
        MakeSystem::new(vec![KilogramBaseUnit::base_unit(), MeterBaseUnit::base_unit()], vec!["kg", "m"])
    };
    let length_there = Unit::System(furlong::unit::SystemUnit::new(mass_and_length(), TMap::primitive(LENGTH)));
    assert_eq!(resolve(&g, &meters(), &length_there), Ok(ConversionFactor::one()));
    assert_eq!(
        furlong::unit::operand_in(&g, &seconds(si_system()), &mass_and_length()),
        Err(ConversionError::UnresolvedConversion)
    );
    let time_si = standard_unit(si_system(), TMap::primitive(TIME));
    assert_eq!(resolve(&g, &time_si, &minutes(si_system())).unwrap(), ConversionFactor { numer: 1, denom: 60 });
}

#[test]
fn overflowing_factor_is_reported() {
    let g = standard_graph();
    let mut big = meters();
    for _ in 0..3 {
        big = furlong::system::scaled(big, 1_000_000, 1);
    }
    let mut tiny = meters();
    for _ in 0..3 {
        tiny = furlong::system::scaled(tiny, 1, 1_000_000);
    }
    assert_eq!(resolve(&g, &big, &meters()).unwrap(), ConversionFactor { numer: 1_000_000_000_000_000_000, denom: 1 });
    assert_eq!(resolve(&g, &big, &tiny), Err(ConversionError::NumericOverflow));
}
