use furlong::dimension::{
    BaseDimension, LengthBaseDimension, MassBaseDimension, TEntry, TMap, TimeBaseDimension, LENGTH,
    MASS, TIME,
};
use furlong::system::{length_dimension, time_dimension, velocity_dimension};

fn tmap(entries: &[(u32, i32)]) -> TMap {
    let v: Vec<TEntry> = entries.iter().map(|&(key, value)| TEntry { key, value }).collect();
    TMap::from_entries(&v)
}

#[test]
fn dim_list() {
    let dlist = tmap(&[(MASS, 1), (LENGTH, 2)]);
    assert_eq!(dlist.get(MASS), 1);
    assert_eq!(dlist.get(LENGTH), 2);

    // No time dimension given, so it defaults to zero.
    assert_eq!(dlist.get(TIME), 0);
}

#[test]
fn dim_list_operations() {
    let dim1 = tmap(&[(MASS, 1), (LENGTH, 2), (TIME, 1)]);
    let dim2 = tmap(&[(MASS, 0), (LENGTH, -1), (TIME, -1)]);
    assert!(dim1.add(&dim2).same_dimension(&tmap(&[(MASS, 1), (LENGTH, 1), (TIME, 0)])));
    assert!(dim1.sub(&dim2).same_dimension(&tmap(&[(MASS, 1), (LENGTH, 3), (TIME, 2)])));
    assert!(dim1.mul(2).same_dimension(&tmap(&[(MASS, 2), (LENGTH, 4), (TIME, 2)])));
    assert!(dim2.mul(2).same_dimension(&tmap(&[(MASS, 0), (LENGTH, -2), (TIME, -2)])));
}

#[test]
fn same_dimension() {
    let a = tmap(&[(MASS, 1), (LENGTH, 2)]);
    let b = tmap(&[(MASS, 1), (LENGTH, 2)]);
    assert!(a.same_dimension(&b));
}

#[test]
fn tmap_add() {
    let m1 = tmap(&[(1, 2)]);
    let m2 = tmap(&[(2, 3)]);
    let m3 = m1.add(&m2);
    assert!(m3.same_dimension(&tmap(&[(1, 2), (2, 3)])));
    assert_eq!(m3.get(2), 3);
}

#[test]
fn tmap_sub() {
    let m1 = tmap(&[(1, 2)]);
    let m2 = tmap(&[(2, 3)]);
    let m3 = m1.sub(&m2);
    assert!(m3.same_dimension(&tmap(&[(1, 2), (2, -3)])));
    assert_eq!(m3.get(2), -3);

    let m4 = tmap(&[(1, 2), (2, 2)]);
    let m5 = tmap(&[(1, 2), (2, 2)]);
    let m6 = m4.sub(&m5);
    assert!(m6.same_dimension(&tmap(&[(1, 0), (2, 0)])));
    assert_eq!(m6.get(2), 0);
}

#[test]
fn map_tmap_add() {
    let m1 = tmap(&[(1, 2)]);
    let m2 = tmap(&[(2, 3)]);
    let m3 = m1.add(&m2);
    assert_eq!(m3.entries, vec![TEntry { key: 1, value: 2 }, TEntry { key: 2, value: 3 }]);
    assert_eq!(m3.get(2), 3);
}

#[test]
fn map_tmap_sub() {
    let m1 = tmap(&[(1, 2)]);
    let m2 = tmap(&[(2, 3)]);
    let m3 = m1.sub(&m2);
    assert_eq!(m3.entries, vec![TEntry { key: 1, value: 2 }, TEntry { key: 2, value: -3 }]);
    assert_eq!(m3.get(2), -3);

    let m4 = tmap(&[(1, 2), (2, 2)]);
    let m5 = tmap(&[(1, 2), (2, 2)]);
    let m6 = m4.sub(&m5);
    assert!(m6.entries.is_empty());
    assert_eq!(m6.get(2), 0);
}

#[test]
fn canonical_form_sorts_merges_and_drops_zeros() {
    let m = tmap(&[(2, 1), (0, 3), (2, -1), (1, 4), (0, -1)]);
    assert_eq!(m.entries, vec![TEntry { key: 0, value: 2 }, TEntry { key: 1, value: 4 }]);
}

#[test]
fn netted_zero_equals_missing_key() {
    let netted = tmap(&[(MASS, 1), (TIME, 2)]).add(&tmap(&[(TIME, -2)]));
    let plain = tmap(&[(MASS, 1)]);
    assert!(netted.same_dimension(&plain));
    assert_eq!(netted.get(TIME), 0);
    assert!(!netted.same_dimension(&tmap(&[(MASS, 2)])));
    assert!(!netted.same_dimension(&tmap(&[(MASS, 1), (LENGTH, 1)])));
}

#[test]
fn add_is_commutative_and_associative_on_examples() {
    let a = tmap(&[(0, 1), (2, -3)]);
    let b = tmap(&[(1, 5), (2, 3)]);
    let c = tmap(&[(0, -1), (7, 2)]);
    assert_eq!(a.add(&b).entries, b.add(&a).entries);
    assert_eq!(a.add(&b).add(&c).entries, a.add(&b.add(&c)).entries);
    assert_eq!(a.add(&b).add(&c).entries, vec![TEntry { key: 1, value: 5 }, TEntry { key: 7, value: 2 }]);
}

#[test]
fn negation_and_dimensionless() {
    let a = tmap(&[(0, 1), (2, -3)]);
    assert_eq!(a.neg().entries, vec![TEntry { key: 0, value: -1 }, TEntry { key: 2, value: 3 }]);
    assert!(a.mul(0).same_dimension(&TMap::new()));
    assert!(a.add(&a.neg()).same_dimension(&TMap::new()));
}

#[test]
fn velocity_is_length_over_time() {
    let v = length_dimension().sub(&time_dimension());
    assert_eq!(v.get(LENGTH), 1);
    assert_eq!(v.get(TIME), -1);
    assert!(v.same_dimension(&velocity_dimension()));
    assert_eq!(v.entries, vec![TEntry { key: LENGTH, value: 1 }, TEntry { key: TIME, value: -1 }]);
}

#[test]
fn base_dimension_keys() {
    assert_eq!(MassBaseDimension::ordinal(), 0);
    assert_eq!(LengthBaseDimension::ordinal(), 1);
    assert_eq!(TimeBaseDimension::ordinal(), 2);
    assert!(TMap::primitive(LengthBaseDimension::ordinal()).same_dimension(&length_dimension()));
}
