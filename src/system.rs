//! The standard dimensions, the SI and imperial unit systems, and their named units.
use crate::base_unit::{
    BaseUnit, BaseUnitInfo, FootBaseUnit, KilogramBaseUnit, MeterBaseUnit, SecondBaseUnit, SlugBaseUnit,
};
use crate::conversion::ConversionFactor;
use crate::dimension::{LENGTH, MASS, TIME, TMap, exp_in, fits_i32, lemma_entry_keys, lemma_view_exp};
use crate::unit::{MakeSystem, ScaledUnit, SystemUnit, Unit};
use vstd::prelude::*;

verus! {

/// Mass: exponent one on mass.
pub fn mass_dimension() -> (r: TMap)
    ensures
        r.wf(),
        r@ == map![MASS => 1int],
{
    TMap::primitive(MASS)
}

/// Length: exponent one on length.
pub fn length_dimension() -> (r: TMap)
    ensures
        r.wf(),
        r@ == map![LENGTH => 1int],
{
    TMap::primitive(LENGTH)
}

/// Time: exponent one on time.
pub fn time_dimension() -> (r: TMap)
    ensures
        r.wf(),
        r@ == map![TIME => 1int],
{
    TMap::primitive(TIME)
}

/// Area: length squared.
pub fn area_dimension() -> (r: TMap)
    ensures
        r.wf(),
        r@ == map![LENGTH => 2int],
{
    let l = length_dimension();
    proof {
        lemma_view_exp(l);
        assert forall|k: u32| fits_i32(#[trigger] l.exp(k) * 2) by {
            assert(exp_in(l@, k) == l.exp(k));
        }
    }
    let r = l.mul(2);
    assert(r@ =~= map![LENGTH => 2int]);
    r
}

/// Volume: length cubed.
pub fn volume_dimension() -> (r: TMap)
    ensures
        r.wf(),
        r@ == map![LENGTH => 3int],
{
    let l = length_dimension();
    proof {
        lemma_view_exp(l);
        assert forall|k: u32| fits_i32(#[trigger] l.exp(k) * 3) by {
            assert(exp_in(l@, k) == l.exp(k));
        }
    }
    let r = l.mul(3);
    assert(r@ =~= map![LENGTH => 3int]);
    r
}

/// Velocity: length over time.
pub fn velocity_dimension() -> (r: TMap)
    ensures
        r.wf(),
        r@ == map![LENGTH => 1int, TIME => -1int],
{
    let l = length_dimension();
    let t = time_dimension();
    proof {
        lemma_view_exp(l);
        lemma_view_exp(t);
        assert forall|k: u32| fits_i32(#[trigger] l.exp(k) - t.exp(k)) by {
            assert(exp_in(l@, k) == l.exp(k));
            assert(exp_in(t@, k) == t.exp(k));
        }
    }
    let r = l.sub(&t);
    assert(r@ =~= map![LENGTH => 1int, TIME => -1int]);
    r
}

/// The SI base units: kilogram, meter, second.
pub open spec fn si_bases() -> Seq<BaseUnit> {
    seq![KilogramBaseUnit::unit(), MeterBaseUnit::unit(), SecondBaseUnit::unit()]
}

/// The imperial base units: slug, foot, second.
pub open spec fn imperial_bases() -> Seq<BaseUnit> {
    seq![SlugBaseUnit::unit(), FootBaseUnit::unit(), SecondBaseUnit::unit()]
}

/// `u` is `numer/denom` of the unit of dimension `dim` in a system with base units
/// `bases`.
pub open spec fn measures(u: Unit, bases: Seq<BaseUnit>, dim: Map<u32, int>, numer: int, denom: int) -> bool {
    &&& u.root().system.bases@ == bases
    &&& u.root().dim@ == dim
    &&& u.root_numer() == numer
    &&& u.root_denom() == denom
}

/// The SI system: kilogram, meter, second.
pub fn si_system() -> (r: MakeSystem)
    ensures
        r.wf(),
        r.bases@ == si_bases(),
{
    let bases = vec![KilogramBaseUnit::base_unit(), MeterBaseUnit::base_unit(), SecondBaseUnit::base_unit()];
    assert(bases@ =~= si_bases());
    MakeSystem::new(bases, vec![KilogramBaseUnit::symbol(), MeterBaseUnit::symbol(), SecondBaseUnit::symbol()])
}

/// The imperial system: slug, foot, second.
pub fn imperial_system() -> (r: MakeSystem)
    ensures
        r.wf(),
        r.bases@ == imperial_bases(),
{
    let bases = vec![SlugBaseUnit::base_unit(), FootBaseUnit::base_unit(), SecondBaseUnit::base_unit()];
    assert(bases@ =~= imperial_bases());
    MakeSystem::new(bases, vec![SlugBaseUnit::symbol(), FootBaseUnit::symbol(), SecondBaseUnit::symbol()])
}

/// The unit of `dim` in a system of the three standard dimensions.
pub fn standard_unit(system: MakeSystem, dim: TMap) -> (r: Unit)
    requires
        system.wf(),
        system.bases.len() == 3,
        dim.wf(),
        dim@.dom().subset_of(set![MASS, LENGTH, TIME]),
    ensures
        r.wf(),
        r == Unit::System(SystemUnit { system, dim }),
{
    proof {
        lemma_entry_keys(dim);
        assert forall|i: int| 0 <= i < dim.entries.len() implies (#[trigger] dim.entries@[i]).key
            < system.bases.len() by {
            assert(dim@.dom().contains(dim.entries@[i].key));
        }
    }
    Unit::System(SystemUnit::new(system, dim))
}

/// `numer / denom` of `unit`.
pub fn scaled(unit: Unit, numer: u64, denom: u64) -> (r: Unit)
    requires
        unit.wf(),
        numer >= 1,
        denom >= 1,
    ensures
        r.wf(),
        r.root() == unit.root(),
        r.root_numer() == numer * unit.root_numer(),
        r.root_denom() == denom * unit.root_denom(),
{
    Unit::Scaled(ScaledUnit::new(unit, ConversionFactor::from_ratio(numer, denom)))
}

/// Meters.
pub fn meters() -> (r: Unit)
    ensures
        r.wf(),
        measures(r, si_bases(), map![LENGTH => 1int], 1, 1),
{
    standard_unit(si_system(), length_dimension())
}

/// Centimeters as this catalog defines them: a thousandth of a meter.
pub fn centimeters() -> (r: Unit)
    ensures
        r.wf(),
        measures(r, si_bases(), map![LENGTH => 1int], 1, 1000),
{
    scaled(meters(), 1, 1000)
}

/// Kilometers: a thousand meters.
pub fn kilometers() -> (r: Unit)
    ensures
        r.wf(),
        measures(r, si_bases(), map![LENGTH => 1int], 1000, 1),
{
    scaled(meters(), 1000, 1)
}

/// Seconds in `system`.
pub fn seconds(system: MakeSystem) -> (r: Unit)
    requires
        system.wf(),
        system.bases.len() == 3,
    ensures
        r.wf(),
        measures(r, system.bases@, map![TIME => 1int], 1, 1),
{
    standard_unit(system, time_dimension())
}

/// Minutes in `system`: sixty seconds.
pub fn minutes(system: MakeSystem) -> (r: Unit)
    requires
        system.wf(),
        system.bases.len() == 3,
    ensures
        r.wf(),
        measures(r, system.bases@, map![TIME => 1int], 60, 1),
{
    scaled(seconds(system), 60, 1)
}

/// Hours in `system`: sixty minutes.
pub fn hours(system: MakeSystem) -> (r: Unit)
    requires
        system.wf(),
        system.bases.len() == 3,
    ensures
        r.wf(),
        measures(r, system.bases@, map![TIME => 1int], 3600, 1),
{
    scaled(minutes(system), 60, 1)
}

/// Feet.
pub fn feet() -> (r: Unit)
    ensures
        r.wf(),
        measures(r, imperial_bases(), map![LENGTH => 1int], 1, 1),
{
    standard_unit(imperial_system(), length_dimension())
}

/// Yards: three feet.
pub fn yards() -> (r: Unit)
    ensures
        r.wf(),
        measures(r, imperial_bases(), map![LENGTH => 1int], 3, 1),
{
    scaled(feet(), 3, 1)
}

/// Miles: 5280 feet.
pub fn miles() -> (r: Unit)
    ensures
        r.wf(),
        measures(r, imperial_bases(), map![LENGTH => 1int], 5280, 1),
{
    scaled(feet(), 5280, 1)
}

} // verus!
