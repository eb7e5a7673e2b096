//! Units and the conversion resolver.
//!
//! A unit system assigns one base unit to each base dimension. A system unit is a
//! system together with a dimension vector: for each key, the system's base unit
//! raised to that key's exponent. A scaled unit is a rational multiple of another
//! unit. The resolver computes the exact factor between two units of the same
//! dimension.
use crate::arith::gcd;
use crate::base_unit::{BaseUnit, BaseUnitGraph, BaseUnitInfo, lemma_declared_wf, reciprocal_edges};
use crate::conversion::{ConversionError, ConversionFactor};
use crate::dimension::{
    LENGTH, MASS, TIME, TEntry, TMap, canonical, dim_add, dim_sub, exp_in, exp_of, fits_i32,
    lemma_canonical_unique, lemma_exp_at, lemma_exp_present, lemma_view_exp,
};
use crate::notation::{decimal, push_decimal};
use vstd::arithmetic::mul::*;
use vstd::arithmetic::power::*;
use vstd::prelude::*;
use vstd::string::*;

verus! {

/// A unit system: `bases[k]` is the base unit of base dimension `k`, and
/// `symbols[k]` the symbol it is printed with.
#[derive(Clone, Debug)]
pub struct MakeSystem {
    pub bases: Vec<BaseUnit>,
    pub symbols: Vec<&'static str>,
}

/// The system's base unit raised, for each key, to that key's exponent in `dim`.
#[derive(Clone, Debug)]
pub struct SystemUnit {
    pub system: MakeSystem,
    pub dim: TMap,
}

/// `ratio` of `unit`: one of this unit holds `ratio` of `unit`.
#[derive(Debug)]
pub struct ScaledUnit {
    pub unit: Box<Unit>,
    pub ratio: ConversionFactor,
}

/// A unit: a system unit, or a multiple of another unit.
#[derive(Debug)]
pub enum Unit {
    System(SystemUnit),
    Scaled(ScaledUnit),
}

/// A unit system: one base unit for each base dimension it covers.
pub trait UnitSystem {
    /// The system is well formed.
    spec fn valid(&self) -> bool;

    /// The base unit of dimension `k`, if the system has one.
    spec fn base(&self, k: u32) -> Option<BaseUnit>;

    /// The base unit of dimension `k`, if the system has one.
    fn base_for(&self, k: u32) -> (r: Option<BaseUnit>)
        requires
            self.valid(),
        ensures
            r == self.base(k),
            r matches Some(b) ==> b.wf() && b.dim() == k,
    ;
}

impl UnitSystem for MakeSystem {
    open spec fn valid(&self) -> bool {
        self.wf()
    }

    open spec fn base(&self, k: u32) -> Option<BaseUnit> {
        if k < self.bases.len() {
            Some(self.bases@[k as int])
        } else {
            None
        }
    }

    fn base_for(&self, k: u32) -> (r: Option<BaseUnit>) {
        if (k as usize) < self.bases.len() {
            Some(self.bases[k as usize])
        } else {
            None
        }
    }
}

impl MakeSystem {
    /// Each base unit is valid and measures the dimension of its position.
    pub open spec fn wf(&self) -> bool {
        &&& self.symbols.len() == self.bases.len()
        &&& forall|k: int|
            0 <= k < self.bases.len() ==> (#[trigger] self.bases@[k]).wf() && self.bases@[k].dim()
                == k
    }

    /// The system with base unit `bases[k]`, printed as `symbols[k]`, for
    /// dimension `k`.
    pub fn new(bases: Vec<BaseUnit>, symbols: Vec<&'static str>) -> (r: MakeSystem)
        requires
            symbols.len() == bases.len(),
            forall|k: int| 0 <= k < bases.len() ==> (#[trigger] bases@[k]).wf() && bases@[k].dim() == k,
        ensures
            r.wf(),
            r.bases@ == bases@,
            r.symbols@ == symbols@,
    {
        MakeSystem { bases, symbols }
    }

    /// The system of the three standard dimensions with base units `M`, `L` and
    /// `T` for mass, length and time; `None` when one of them measures another
    /// dimension.
    pub fn of<M: BaseUnitInfo, L: BaseUnitInfo, T: BaseUnitInfo>() -> (r: Option<MakeSystem>)
        ensures
            r is Some <==> (M::unit().dim() == MASS && L::unit().dim() == LENGTH && T::unit().dim()
                == TIME),
            r matches Some(s) ==> s.wf() && s.bases@ == seq![M::unit(), L::unit(), T::unit()],
    {
        let (m, l, t) = (M::base_unit(), L::base_unit(), T::base_unit());
        if m.root_tag().dimension == MASS && l.root_tag().dimension == LENGTH && t.root_tag().dimension == TIME {
            let bases = vec![m, l, t];
            assert(bases@ =~= seq![M::unit(), L::unit(), T::unit()]);
            Some(MakeSystem { bases, symbols: vec![M::symbol(), L::symbol(), T::symbol()] })
        } else {
            None
        }
    }

    /// A copy of this system.
    pub fn copy(&self) -> (r: MakeSystem)
        ensures
            r.bases@ == self.bases@,
            r.symbols@ == self.symbols@,
    {
        let mut syms: Vec<&'static str> = Vec::new();
        let mut i: usize = 0;
        while i < self.symbols.len()
            invariant
                i <= self.symbols.len(),
                syms@ == self.symbols@.subrange(0, i as int),
            decreases self.symbols.len() - i,
        {
            syms.push(self.symbols[i]);
            i = i + 1;
        }
        assert(syms@ =~= self.symbols@);
        let mut v: Vec<BaseUnit> = Vec::new();
        let mut i: usize = 0;
        while i < self.bases.len()
            invariant
                i <= self.bases.len(),
                v@ == self.bases@.subrange(0, i as int),
            decreases self.bases.len() - i,
        {
            v.push(self.bases[i]);
            i = i + 1;
        }
        assert(v@ =~= self.bases@);
        MakeSystem { bases: v, symbols: syms }
    }
}

/// `system` has a base unit for every key of `dim`.
pub open spec fn covers(system: MakeSystem, dim: TMap) -> bool {
    forall|i: int| 0 <= i < dim.entries.len() ==> (#[trigger] dim.entries@[i]).key < system.bases.len()
}

impl SystemUnit {
    /// The system and the dimension are valid, and the system has a base unit for
    /// every key of the dimension.
    pub open spec fn wf(&self) -> bool {
        self.system.wf() && self.dim.wf() && covers(self.system, self.dim)
    }

    /// The unit of dimension `dim` in `system`.
    pub fn new(system: MakeSystem, dim: TMap) -> (r: SystemUnit)
        requires
            system.wf(),
            dim.wf(),
            covers(system, dim),
        ensures
            r.wf(),
            r.system == system,
            r.dim == dim,
    {
        SystemUnit { system, dim }
    }
}

impl ScaledUnit {
    /// `ratio` of `unit`.
    pub fn new(unit: Unit, ratio: ConversionFactor) -> (r: ScaledUnit)
        requires
            unit.wf(),
            ratio.wf(),
        ensures
            *r.unit == unit,
            r.ratio == ratio,
    {
        ScaledUnit { unit: Box::new(unit), ratio }
    }
}

impl Unit {
    /// Every ratio is valid and the root system unit is well formed.
    pub open spec fn wf(&self) -> bool
        decreases self,
    {
        match self {
            Unit::System(s) => s.wf(),
            Unit::Scaled(s) => s.ratio.wf() && s.unit.wf(),
        }
    }

    /// The system unit under every scaling.
    pub open spec fn root(&self) -> SystemUnit
        decreases self,
    {
        match self {
            Unit::System(s) => *s,
            Unit::Scaled(s) => s.unit.root(),
        }
    }

    /// Numerator of the product of the ratios met on the way to the root.
    pub open spec fn root_numer(&self) -> int
        decreases self,
    {
        match self {
            Unit::System(_) => 1,
            Unit::Scaled(s) => s.ratio.numer * s.unit.root_numer(),
        }
    }

    /// Denominator of the product of the ratios met on the way to the root.
    pub open spec fn root_denom(&self) -> int
        decreases self,
    {
        match self {
            Unit::System(_) => 1,
            Unit::Scaled(s) => s.ratio.denom * s.unit.root_denom(),
        }
    }

    /// The system unit under every scaling.
    pub fn root_unit(&self) -> (r: &SystemUnit)
        requires
            self.wf(),
        ensures
            *r == self.root(),
            r.wf(),
        decreases self,
    {
        match self {
            Unit::System(s) => s,
            Unit::Scaled(s) => s.unit.root_unit(),
        }
    }

    /// The product of the ratios met on the way to the root: how many root units
    /// one of this unit holds. `None` when it does not fit.
    pub fn root_ratio(&self) -> (r: Option<ConversionFactor>)
        requires
            self.wf(),
        ensures
            r is Some <==> (self.root_numer() <= u64::MAX && self.root_denom() <= u64::MAX),
            r matches Some(f) ==> f.wf() && f.numer == self.root_numer() && f.denom == self.root_denom(),
        decreases self,
    {
        proof {
            lemma_root_ratio_positive(*self);
        }
        match self {
            Unit::System(_) => Some(ConversionFactor::one()),
            Unit::Scaled(s) => {
                proof {
                    lemma_root_ratio_positive(*s.unit);
                    lemma_mul_increases(s.ratio.numer as int, s.unit.root_numer());
                    lemma_mul_increases(s.ratio.denom as int, s.unit.root_denom());
                }
                match s.unit.root_ratio() {
                    Some(inner) => s.ratio.product(&inner),
                    None => None,
                }
            },
        }
    }
}

/// The ratio to the root is positive.
pub proof fn lemma_root_ratio_positive(u: Unit)
    requires
        u.wf(),
    ensures
        u.root_numer() >= 1,
        u.root_denom() >= 1,
    decreases u,
{
    if let Unit::Scaled(s) = u {
        lemma_root_ratio_positive(*s.unit);
        lemma_mul_strictly_positive(s.ratio.numer as int, s.unit.root_numer());
        lemma_mul_strictly_positive(s.ratio.denom as int, s.unit.root_denom());
    }
}

/// The fraction `p` raised to the integer power `e`; numerator and denominator
/// swap roles for negative `e`.
pub open spec fn pow_pair(p: (int, int), e: int) -> (int, int) {
    if e >= 0 {
        (pow(p.0, e as nat), pow(p.1, e as nat))
    } else {
        (pow(p.1, (-e) as nat), pow(p.0, (-e) as nat))
    }
}

/// The factor that dimension entry `e` contributes when converting from system
/// `sa` to system `sb`: the factor between the two systems' base units of that
/// dimension, raised to the entry's exponent.
pub open spec fn key_factor(g: BaseUnitGraph, sa: MakeSystem, sb: MakeSystem, e: TEntry) -> Option<(int, int)> {
    match (sa.base(e.key), sb.base(e.key)) {
        (Some(x), Some(y)) => match g.factor(x, y) {
            Some(p) => Some(pow_pair(p, e.value as int)),
            None => None,
        },
        _ => None,
    }
}

/// The product of the factors of all entries of `s`; `None` if one has none.
pub open spec fn dims_factor(g: BaseUnitGraph, sa: MakeSystem, sb: MakeSystem, s: Seq<TEntry>) -> Option<(int, int)>
    decreases s.len(),
{
    if s.len() == 0 {
        Some((1, 1))
    } else {
        match (dims_factor(g, sa, sb, s.drop_last()), key_factor(g, sa, sb, s.last())) {
            (Some(p), Some(q)) => Some((p.0 * q.0, p.1 * q.1)),
            _ => None,
        }
    }
}

/// The exact factor from unit `a` to unit `b`, as an unreduced fraction:
/// `ratio(a) / ratio(b)` times, for every key of `a`'s dimension, the factor
/// between the two systems' base units raised to that key's exponent.
pub open spec fn resolution(g: BaseUnitGraph, a: Unit, b: Unit) -> Result<(int, int), ConversionError> {
    if a.root().dim@ != b.root().dim@ {
        Err(ConversionError::IncompatibleDimension)
    } else {
        match dims_factor(g, a.root().system, b.root().system, a.root().dim.entries@) {
            None => Err(ConversionError::UnresolvedConversion),
            Some(p) => Ok(
                (
                    a.root_numer() * b.root_denom() * p.0,
                    a.root_denom() * b.root_numer() * p.1,
                ),
            ),
        }
    }
}

/// The fraction `n/d` in lowest terms.
pub open spec fn lowest_terms(n: int, d: int) -> (int, int) {
    (n / gcd(n as nat, d as nat) as int, d / gcd(n as nat, d as nat) as int)
}

proof fn lemma_factor_positive(g: BaseUnitGraph, x: BaseUnit, y: BaseUnit)
    requires
        g.wf(),
        x.wf(),
        y.wf(),
    ensures
        g.factor(x, y) matches Some(p) ==> p.0 >= 1 && p.1 >= 1,
{
    lemma_declared_wf(g.edges@, x.root(), y.root());
    if let Some(e) = g.edge(x.root(), y.root()) {
        let (a, b) = (x.ratio(), y.ratio());
        lemma_mul_strictly_positive(a.numer as int, e.numer as int);
        lemma_mul_strictly_positive(a.numer * e.numer, b.denom as int);
        lemma_mul_strictly_positive(a.denom as int, e.denom as int);
        lemma_mul_strictly_positive(a.denom * e.denom, b.numer as int);
    }
}

/// An entry's factor is positive, and each part of the base-unit factor it comes
/// from is at most one of its parts.
proof fn lemma_key_factor_bounds(g: BaseUnitGraph, sa: MakeSystem, sb: MakeSystem, e: TEntry)
    requires
        g.wf(),
        sa.wf(),
        sb.wf(),
    ensures
        key_factor(g, sa, sb, e) matches Some(q) ==> q.0 >= 1 && q.1 >= 1,
        key_factor(g, sa, sb, e) matches Some(q) ==> e.value != 0 ==> {
            let p = g.factor(sa.base(e.key).unwrap(), sb.base(e.key).unwrap()).unwrap();
            (e.value > 0 && p.0 <= q.0 && p.1 <= q.1) || (e.value < 0 && p.0 <= q.1 && p.1 <= q.0)
        },
{
    if let (Some(x), Some(y)) = (sa.base(e.key), sb.base(e.key)) {
        assert(sa.bases@[e.key as int].wf());
        assert(sb.bases@[e.key as int].wf());
        lemma_factor_positive(g, x, y);
        if let Some(p) = g.factor(x, y) {
            let m: nat = if e.value >= 0 { e.value as nat } else { (-e.value) as nat };
            lemma_pow_positive(p.0, m);
            lemma_pow_positive(p.1, m);
            if m >= 1 {
                lemma_pow_increases(p.0 as nat, 1, m);
                lemma_pow_increases(p.1 as nat, 1, m);
                lemma_pow1(p.0);
                lemma_pow1(p.1);
            }
        }
    }
}

/// The factor of a prefix of the entries is positive and at most that of all.
proof fn lemma_dims_factor_prefix(g: BaseUnitGraph, sa: MakeSystem, sb: MakeSystem, s: Seq<TEntry>, j: int)
    requires
        g.wf(),
        sa.wf(),
        sb.wf(),
        0 <= j <= s.len(),
        dims_factor(g, sa, sb, s) is Some,
    ensures
        dims_factor(g, sa, sb, s.subrange(0, j)) matches Some(p) && p.0 >= 1 && p.1 >= 1 && p.0
            <= dims_factor(g, sa, sb, s).unwrap().0 && p.1 <= dims_factor(g, sa, sb, s).unwrap().1,
    decreases s.len(),
{
    if s.len() == 0 {
        assert(s.subrange(0, j) =~= s);
    } else {
        let t = s.drop_last();
        lemma_key_factor_bounds(g, sa, sb, s.last());
        let p = dims_factor(g, sa, sb, t).unwrap();
        let q = key_factor(g, sa, sb, s.last()).unwrap();
        lemma_dims_factor_prefix(g, sa, sb, t, t.len() as int);
        assert(t.subrange(0, t.len() as int) =~= t);
        lemma_mul_increases(q.0, p.0);
        lemma_mul_increases(q.1, p.1);
        lemma_mul_is_commutative(q.0, p.0);
        lemma_mul_is_commutative(q.1, p.1);
        lemma_mul_strictly_positive(p.0, q.0);
        lemma_mul_strictly_positive(p.1, q.1);
        if j == s.len() {
            assert(s.subrange(0, j) =~= s);
        } else {
            lemma_dims_factor_prefix(g, sa, sb, t, j);
            assert(t.subrange(0, j) =~= s.subrange(0, j));
        }
    }
}

/// An entry list with an unresolved prefix is unresolved.
proof fn lemma_prefix_unresolved(g: BaseUnitGraph, sa: MakeSystem, sb: MakeSystem, s: Seq<TEntry>, j: int)
    requires
        g.wf(),
        sa.wf(),
        sb.wf(),
        0 <= j <= s.len(),
        dims_factor(g, sa, sb, s.subrange(0, j)) is None,
    ensures
        dims_factor(g, sa, sb, s) is None,
{
    if dims_factor(g, sa, sb, s) is Some {
        lemma_dims_factor_prefix(g, sa, sb, s, j);
    }
}

proof fn lemma_step_bounds(r: int, p: int, q: int, full: int)
    requires
        r >= 1,
        p >= 1,
        q >= 1,
        p * q <= full,
    ensures
        q <= r * full,
        r * p * q <= r * full,
        p <= full,
{
    assert(q <= p * q) by (nonlinear_arith)
        requires
            p >= 1,
            q >= 1,
    ;
    assert(p <= p * q) by (nonlinear_arith)
        requires
            p >= 1,
            q >= 1,
    ;
    assert(full <= r * full) by (nonlinear_arith)
        requires
            r >= 1,
            full >= 1,
    ;
    assert(r * p * q <= r * full) by (nonlinear_arith)
        requires
            r >= 1,
            p * q <= full,
    ;
}

proof fn lemma_le_product(x: int, y: int, z: int)
    requires
        x >= 1,
        y >= 1,
        z >= 1,
    ensures
        x <= x * y * z,
        x * y <= x * y * z,
        y <= x * y * z,
{
    assert(x <= x * y * z && x * y <= x * y * z && y <= x * y * z) by (nonlinear_arith)
        requires
            x >= 1,
            y >= 1,
            z >= 1,
    ;
}

/// The factor that one dimension entry contributes when converting a unit of one
/// system into another system.
pub trait InnerSystemConversionTo: UnitSystem {
    /// The unreduced factor for entry `e` from `self` to `to`; `None` when a base
    /// unit or the edge between the two base units is missing.
    spec fn entry_factor(&self, g: BaseUnitGraph, to: MakeSystem, e: TEntry) -> Option<(int, int)>;

    /// The factor for entry `e`: the factor between the two systems' base units of
    /// its dimension, raised to its exponent. Fails with `UnresolvedConversion` when
    /// that factor is undefined, and with `NumericOverflow` exactly when it does not fit.
    fn entry_conversion(&self, g: &BaseUnitGraph, to: &MakeSystem, e: TEntry) -> (r: Result<
        ConversionFactor,
        ConversionError,
    >)
        requires
            self.valid(),
            to.wf(),
            g.wf(),
            e.value != 0,
        ensures
            self.entry_factor(*g, *to, e) is None <==> r == Err::<ConversionFactor, ConversionError>(
                ConversionError::UnresolvedConversion,
            ),
            self.entry_factor(*g, *to, e) matches Some(q) ==> {
                &&& r is Ok <==> (q.0 <= u64::MAX && q.1 <= u64::MAX)
                &&& r is Err ==> r == Err::<ConversionFactor, ConversionError>(ConversionError::NumericOverflow)
                &&& r matches Ok(f) ==> f.wf() && f.numer == q.0 && f.denom == q.1
            },
    ;
}

/// The factor for a whole dimension vector when converting a unit of one system
/// into another system.
pub trait SystemConversionTo: InnerSystemConversionTo {
    /// The unreduced product of the factors of the entries `s`; `None` when one is
    /// undefined.
    spec fn system_factor(&self, g: BaseUnitGraph, to: MakeSystem, s: Seq<TEntry>) -> Option<(int, int)>;

    /// The product over the entries of `dim` of their factors. Fails with
    /// `UnresolvedConversion` when one is undefined, and otherwise with
    /// `NumericOverflow` exactly when the product does not fit.
    fn conversion_to(&self, g: &BaseUnitGraph, to: &MakeSystem, dim: &TMap) -> (r: Result<
        ConversionFactor,
        ConversionError,
    >)
        requires
            self.valid(),
            to.wf(),
            g.wf(),
            dim.wf(),
        ensures
            self.system_factor(*g, *to, dim.entries@) is None <==> r == Err::<
                ConversionFactor,
                ConversionError,
            >(ConversionError::UnresolvedConversion),
            self.system_factor(*g, *to, dim.entries@) matches Some(p) ==> {
                &&& r is Ok <==> (p.0 <= u64::MAX && p.1 <= u64::MAX)
                &&& r is Err ==> r == Err::<ConversionFactor, ConversionError>(ConversionError::NumericOverflow)
                &&& r matches Ok(f) ==> f.wf() && f.numer == p.0 && f.denom == p.1
            },
    ;
}

impl InnerSystemConversionTo for MakeSystem {
    open spec fn entry_factor(&self, g: BaseUnitGraph, to: MakeSystem, e: TEntry) -> Option<(int, int)> {
        key_factor(g, *self, to, e)
    }

    fn entry_conversion(&self, g: &BaseUnitGraph, to: &MakeSystem, e: TEntry) -> (r: Result<
        ConversionFactor,
        ConversionError,
    >) {
        proof {
            lemma_key_factor_bounds(*g, *self, *to, e);
        }
        let x = match self.base_for(e.key) {
            Some(x) => x,
            None => {
                return Err(ConversionError::UnresolvedConversion);
            },
        };
        let y = match to.base_for(e.key) {
            Some(y) => y,
            None => {
                return Err(ConversionError::UnresolvedConversion);
            },
        };
        let f = match g.base_factor(&x, &y) {
            Ok(f) => f,
            Err(err) => {
                return Err(err);
            },
        };
        match f.power(e.value) {
            Some(p) => Ok(p),
            None => Err(ConversionError::NumericOverflow),
        }
    }
}

impl SystemConversionTo for MakeSystem {
    open spec fn system_factor(&self, g: BaseUnitGraph, to: MakeSystem, s: Seq<TEntry>) -> Option<(int, int)> {
        dims_factor(g, *self, to, s)
    }

    fn conversion_to(&self, g: &BaseUnitGraph, to: &MakeSystem, dim: &TMap) -> (r: Result<
        ConversionFactor,
        ConversionError,
    >) {
        let entries = &dim.entries;
        let ghost sa = *self;
        let ghost sb = *to;
        assert(self.system_factor(*g, *to, dim.entries@) == dims_factor(*g, sa, sb, entries@));
        let mut j: usize = 0;
        assert(entries@.subrange(0, 0) =~= Seq::<TEntry>::empty());
        while j < entries.len()
            invariant
                j <= entries.len(),
                g.wf(),
                self.wf(),
                to.wf(),
                sa == *self,
                sb == *to,
                entries == dim.entries,
                self.system_factor(*g, *to, dim.entries@) == dims_factor(*g, sa, sb, entries@),
                dims_factor(*g, sa, sb, entries@.subrange(0, j as int)) is Some,
            decreases entries.len() - j,
        {
            let e = entries[j];
            proof {
                assert(entries@.subrange(0, j + 1).drop_last() =~= entries@.subrange(0, j as int));
                assert(entries@.subrange(0, j + 1).last() == e);
            }
            let x = match self.base_for(e.key) {
                Some(x) => x,
                None => {
                    proof {
                        lemma_prefix_unresolved(*g, sa, sb, entries@, j + 1);
                    }
                    return Err(ConversionError::UnresolvedConversion);
                },
            };
            let y = match to.base_for(e.key) {
                Some(y) => y,
                None => {
                    proof {
                        lemma_prefix_unresolved(*g, sa, sb, entries@, j + 1);
                    }
                    return Err(ConversionError::UnresolvedConversion);
                },
            };
            if g.edge_between(x.root_tag(), y.root_tag()).is_none() {
                proof {
                    lemma_prefix_unresolved(*g, sa, sb, entries@, j + 1);
                }
                return Err(ConversionError::UnresolvedConversion);
            }
            j = j + 1;
        }
        assert(entries@.subrange(0, entries.len() as int) =~= entries@);
        let ghost full = dims_factor(*g, sa, sb, entries@).unwrap();
        proof {
            lemma_dims_factor_prefix(*g, sa, sb, entries@, 0);
            assert(entries@.subrange(0, 0) =~= Seq::<TEntry>::empty());
        }
        let mut factor = ConversionFactor::one();
        let mut j: usize = 0;
        while j < entries.len()
            invariant
                j <= entries.len(),
                g.wf(),
                self.wf(),
                to.wf(),
                sa == *self,
                sb == *to,
                entries == dim.entries,
                self.system_factor(*g, *to, dim.entries@) == dims_factor(*g, sa, sb, entries@),
                canonical(entries@),
                dims_factor(*g, sa, sb, entries@) is Some,
                full == dims_factor(*g, sa, sb, entries@).unwrap(),
                factor.wf(),
                factor.numer == dims_factor(*g, sa, sb, entries@.subrange(0, j as int)).unwrap().0,
                factor.denom == dims_factor(*g, sa, sb, entries@.subrange(0, j as int)).unwrap().1,
            decreases entries.len() - j,
        {
            let e = entries[j];
            let ghost pre = dims_factor(*g, sa, sb, entries@.subrange(0, j as int)).unwrap();
            let ghost q = key_factor(*g, sa, sb, e).unwrap();
            proof {
                assert(entries@.subrange(0, j + 1).drop_last() =~= entries@.subrange(0, j as int));
                assert(entries@.subrange(0, j + 1).last() == e);
                lemma_dims_factor_prefix(*g, sa, sb, entries@, j as int);
                lemma_dims_factor_prefix(*g, sa, sb, entries@, j + 1);
                lemma_key_factor_bounds(*g, sa, sb, e);
                assert(e.value != 0);
                lemma_step_bounds(1, pre.0, q.0, full.0);
                lemma_step_bounds(1, pre.1, q.1, full.1);
            }
            let f = match self.entry_conversion(g, to, e) {
                Ok(f) => f,
                Err(_) => {
                    return Err(ConversionError::NumericOverflow);
                },
            };
            factor = match factor.product(&f) {
                Some(v) => v,
                None => {
                    return Err(ConversionError::NumericOverflow);
                },
            };
            j = j + 1;
        }
        assert(entries@.subrange(0, entries.len() as int) =~= entries@);
        Ok(factor)
    }
}

/// The exact factor from unit `a` to unit `b`, in lowest terms: a value measured
/// in `a`, multiplied by it, measures the same quantity in `b`.
///
/// Fails with `IncompatibleDimension` when the two dimensions differ, with
/// `UnresolvedConversion` when a base unit or a declared edge that the conversion
/// needs is missing, and otherwise with `NumericOverflow` exactly when the
/// unreduced exact fraction does not fit `u64`.
pub fn resolve(g: &BaseUnitGraph, a: &Unit, b: &Unit) -> (r: Result<ConversionFactor, ConversionError>)
    requires
        g.wf(),
        a.wf(),
        b.wf(),
    ensures
        resolution(*g, *a, *b) matches Err(e) ==> r == Err::<ConversionFactor, ConversionError>(e),
        resolution(*g, *a, *b) matches Ok(p) ==> {
            &&& r is Ok <==> (p.0 <= u64::MAX && p.1 <= u64::MAX)
            &&& r is Err ==> r == Err::<ConversionFactor, ConversionError>(ConversionError::NumericOverflow)
            &&& r matches Ok(f) ==> f.wf() && (f.numer as int, f.denom as int) == lowest_terms(p.0, p.1)
        },
{
    let ra = a.root_unit();
    let rb = b.root_unit();
    if !ra.dim.same_dimension(&rb.dim) {
        return Err(ConversionError::IncompatibleDimension);
    }
    let sys = match ra.system.conversion_to(g, &rb.system, &ra.dim) {
        Ok(f) => f,
        Err(e) => {
            proof {
                if let Some(p) = dims_factor(*g, ra.system, rb.system, ra.dim.entries@) {
                    lemma_dims_factor_prefix(*g, ra.system, rb.system, ra.dim.entries@, 0);
                    lemma_root_ratio_positive(*a);
                    lemma_root_ratio_positive(*b);
                    lemma_le_product(a.root_numer(), b.root_denom(), p.0);
                    lemma_le_product(a.root_denom(), b.root_numer(), p.1);
                    lemma_le_product(b.root_denom(), a.root_numer(), p.0);
                    lemma_le_product(b.root_numer(), a.root_denom(), p.1);
                    lemma_mul_is_commutative(a.root_numer(), b.root_denom());
                    lemma_mul_is_commutative(a.root_denom(), b.root_numer());
                    lemma_dims_factor_full_positive(*g, ra.system, rb.system, ra.dim.entries@);
                    assert(p.0 <= a.root_numer() * b.root_denom() * p.0) by (nonlinear_arith)
                        requires
                            a.root_numer() * b.root_denom() >= 1,
                            p.0 >= 1,
                    ;
                    assert(p.1 <= a.root_denom() * b.root_numer() * p.1) by (nonlinear_arith)
                        requires
                            a.root_denom() * b.root_numer() >= 1,
                            p.1 >= 1,
                    ;
                }
            }
            return Err(e);
        },
    };
    let ghost full = dims_factor(*g, ra.system, rb.system, ra.dim.entries@).unwrap();
    proof {
        lemma_dims_factor_full_positive(*g, ra.system, rb.system, ra.dim.entries@);
        lemma_root_ratio_positive(*a);
        lemma_root_ratio_positive(*b);
        lemma_le_product(a.root_numer(), b.root_denom(), full.0);
        lemma_le_product(a.root_denom(), b.root_numer(), full.1);
        lemma_le_product(b.root_denom(), a.root_numer(), full.0);
        lemma_le_product(b.root_numer(), a.root_denom(), full.1);
        lemma_mul_is_commutative(a.root_numer(), b.root_denom());
        lemma_mul_is_commutative(a.root_denom(), b.root_numer());
    }
    let fa = match a.root_ratio() {
        Some(f) => f,
        None => {
            return Err(ConversionError::NumericOverflow);
        },
    };
    let fb = match b.root_ratio() {
        Some(f) => f,
        None => {
            return Err(ConversionError::NumericOverflow);
        },
    };
    let ratio = match fa.quotient(&fb) {
        Some(f) => f,
        None => {
            return Err(ConversionError::NumericOverflow);
        },
    };
    match ratio.product(&sys) {
        Some(f) => Ok(f.reduced()),
        None => Err(ConversionError::NumericOverflow),
    }
}

/// The factor of a resolvable entry list is positive.
proof fn lemma_dims_factor_full_positive(g: BaseUnitGraph, sa: MakeSystem, sb: MakeSystem, s: Seq<TEntry>)
    requires
        g.wf(),
        sa.wf(),
        sb.wf(),
    ensures
        dims_factor(g, sa, sb, s) matches Some(p) ==> p.0 >= 1 && p.1 >= 1,
{
    if dims_factor(g, sa, sb, s) is Some {
        lemma_dims_factor_prefix(g, sa, sb, s, s.len() as int);
        assert(s.subrange(0, s.len() as int) =~= s);
    }
}

proof fn lemma_dims_factor_self(g: BaseUnitGraph, sys: MakeSystem, s: Seq<TEntry>)
    requires
        g.wf(),
        sys.wf(),
        forall|i: int| 0 <= i < s.len() ==> (#[trigger] s[i]).key < sys.bases.len(),
    ensures
        dims_factor(g, sys, sys, s) matches Some(p) && p.0 == p.1 && p.0 >= 1,
    decreases s.len(),
{
    if s.len() > 0 {
        let t = s.drop_last();
        assert forall|i: int| 0 <= i < t.len() implies (#[trigger] t[i]).key < sys.bases.len() by {
            assert(t[i] == s[i]);
        }
        lemma_dims_factor_self(g, sys, t);
        let e = s.last();
        assert(e == s[s.len() - 1]);
        let x = sys.bases@[e.key as int];
        assert(x.wf());
        let r = x.ratio();
        assert(r.numer * 1 * r.denom == r.denom * 1 * r.numer) by (nonlinear_arith);
        lemma_key_factor_bounds(g, sys, sys, e);
        let p = dims_factor(g, sys, sys, t).unwrap();
        let q = key_factor(g, sys, sys, e).unwrap();
        lemma_mul_strictly_positive(p.0, q.0);
    }
}

/// Resolving a unit to itself gives exactly one: the exact fraction has equal
/// parts, so in lowest terms it is `1/1`.
pub proof fn lemma_resolve_self(g: BaseUnitGraph, u: Unit)
    requires
        g.wf(),
        u.wf(),
    ensures
        resolution(g, u, u) matches Ok(p) && p.0 == p.1 && p.0 >= 1,
        resolution(g, u, u) matches Ok(p) && lowest_terms(p.0, p.1) == (1int, 1int),
{
    let root = u.root();
    lemma_root_unit_wf(u);
    lemma_dims_factor_self(g, root.system, root.dim.entries@);
    lemma_root_ratio_positive(u);
    let p = dims_factor(g, root.system, root.system, root.dim.entries@).unwrap();
    let (a, b) = (u.root_numer(), u.root_denom());
    assert(a * b * p.0 == b * a * p.1) by (nonlinear_arith)
        requires
            p.0 == p.1,
    ;
    let n = a * b * p.0;
    lemma_le_product(a, b, p.0);
    assert(gcd(n as nat, 0) == n);
    assert((n as nat) % (n as nat) == 0) by (nonlinear_arith)
        requires
            n >= 1,
    ;
    assert(gcd(n as nat, n as nat) == n);
    assert(n / n == 1) by (nonlinear_arith)
        requires
            n >= 1,
    ;
}

/// The root of a valid unit is a valid system unit.
pub proof fn lemma_root_unit_wf(u: Unit)
    requires
        u.wf(),
    ensures
        u.root().wf(),
    decreases u,
{
    if let Unit::Scaled(s) = u {
        lemma_root_unit_wf(*s.unit);
    }
}

proof fn lemma_mul_swap(a: int, b: int, c: int, d: int)
    ensures
        (a * b) * (c * d) == (a * c) * (b * d),
{
    assert((a * b) * (c * d) == (a * c) * (b * d)) by (nonlinear_arith);
}

proof fn lemma_pow_pair_reciprocal(p: (int, int), q: (int, int), e: int)
    requires
        p.0 * q.0 == p.1 * q.1,
    ensures
        pow_pair(p, e).0 * pow_pair(q, e).0 == pow_pair(p, e).1 * pow_pair(q, e).1,
{
    let m: nat = if e >= 0 { e as nat } else { (-e) as nat };
    lemma_pow_distributes(p.0, q.0, m);
    lemma_pow_distributes(p.1, q.1, m);
}

proof fn lemma_dims_factor_round_trip(g: BaseUnitGraph, sa: MakeSystem, sb: MakeSystem, s: Seq<TEntry>)
    requires
        g.wf(),
        sa.wf(),
        sb.wf(),
        reciprocal_edges(g),
        dims_factor(g, sa, sb, s) is Some,
        dims_factor(g, sb, sa, s) is Some,
    ensures
        dims_factor(g, sa, sb, s).unwrap().0 * dims_factor(g, sb, sa, s).unwrap().0
            == dims_factor(g, sa, sb, s).unwrap().1 * dims_factor(g, sb, sa, s).unwrap().1,
    decreases s.len(),
{
    if s.len() > 0 {
        let t = s.drop_last();
        lemma_dims_factor_round_trip(g, sa, sb, t);
        let e = s.last();
        let x = sa.base(e.key).unwrap();
        let y = sb.base(e.key).unwrap();
        let ex = g.edge(x.root(), y.root()).unwrap();
        let ey = g.edge(y.root(), x.root()).unwrap();
        assert(ex.numer * ey.numer == ex.denom * ey.denom);
        let (rx, ry) = (x.ratio(), y.ratio());
        let f = g.factor(x, y).unwrap();
        let h = g.factor(y, x).unwrap();
        assert(f.0 * h.0 == f.1 * h.1) by (nonlinear_arith)
            requires
                f.0 == rx.numer * ex.numer * ry.denom,
                f.1 == rx.denom * ex.denom * ry.numer,
                h.0 == ry.numer * ey.numer * rx.denom,
                h.1 == ry.denom * ey.denom * rx.numer,
                ex.numer * ey.numer == ex.denom * ey.denom,
        ;
        lemma_pow_pair_reciprocal(f, h, e.value as int);
        let p = dims_factor(g, sa, sb, t).unwrap();
        let pr = dims_factor(g, sb, sa, t).unwrap();
        let q = key_factor(g, sa, sb, e).unwrap();
        let qr = key_factor(g, sb, sa, e).unwrap();
        lemma_mul_swap(p.0, q.0, pr.0, qr.0);
        lemma_mul_swap(p.1, q.1, pr.1, qr.1);
    }
}

/// Where opposite declared edges are reciprocal, converting from `a` to `b` and
/// back multiplies to exactly one.
pub proof fn lemma_resolve_round_trip(g: BaseUnitGraph, a: Unit, b: Unit)
    requires
        g.wf(),
        a.wf(),
        b.wf(),
        reciprocal_edges(g),
        resolution(g, a, b) is Ok,
        resolution(g, b, a) is Ok,
    ensures
        resolution(g, a, b).unwrap().0 * resolution(g, b, a).unwrap().0 == resolution(g, a, b).unwrap().1
            * resolution(g, b, a).unwrap().1,
{
    let (ra, rb) = (a.root(), b.root());
    lemma_root_unit_wf(a);
    lemma_root_unit_wf(b);
    lemma_view_exp(ra.dim);
    lemma_view_exp(rb.dim);
    assert forall|k: u32| #[trigger] exp_of(ra.dim.entries@, k) == exp_of(rb.dim.entries@, k) by {
        assert(exp_in(ra.dim@, k) == exp_in(rb.dim@, k));
    }
    lemma_canonical_unique(ra.dim.entries@, rb.dim.entries@);
    let s = ra.dim.entries@;
    lemma_dims_factor_round_trip(g, ra.system, rb.system, s);
    let p = dims_factor(g, ra.system, rb.system, s).unwrap();
    let q = dims_factor(g, rb.system, ra.system, s).unwrap();
    let (an, ad, bn, bd) = (a.root_numer(), a.root_denom(), b.root_numer(), b.root_denom());
    assert((an * bd * p.0) * (bn * ad * q.0) == (ad * bn * p.1) * (bd * an * q.1)) by (nonlinear_arith)
        requires
            p.0 * q.0 == p.1 * q.1,
    ;
}

/// The system unit of dimension `dim` in `system`, as a unit.
pub open spec fn system_unit(system: MakeSystem, dim: TMap) -> Unit {
    Unit::System(SystemUnit { system, dim })
}

/// Converting between two system units whose dimension has exponent `n` on key `k`
/// alone gives the factor between the two systems' base units of `k` raised to
/// `n`; for negative `n` numerator and denominator trade places.
pub proof fn lemma_resolve_exponent(g: BaseUnitGraph, sa: MakeSystem, sb: MakeSystem, dim: TMap, k: u32, n: i32)
    requires
        g.wf(),
        system_unit(sa, dim).wf(),
        system_unit(sb, dim).wf(),
        dim@ == map![k => n as int],
        g.factor(sa.base(k).unwrap(), sb.base(k).unwrap()) is Some,
    ensures
        resolution(g, system_unit(sa, dim), system_unit(sb, dim)) == Ok::<(int, int), ConversionError>(
            pow_pair(g.factor(sa.base(k).unwrap(), sb.base(k).unwrap()).unwrap(), n as int),
        ),
{
    let e = TEntry { key: k, value: n };
    let single = seq![e];
    lemma_view_exp(dim);
    assert(dim@.contains_key(k));
    assert(dim@[k] == n as int);
    assert(dim@[k] == exp_of(dim.entries@, k));
    assert(n != 0);
    assert forall|j: u32| #[trigger] exp_of(dim.entries@, j) == exp_of(single, j) by {
        assert(exp_in(dim@, j) == dim.exp(j));
        assert(single.drop_last() =~= Seq::<TEntry>::empty());
        assert(exp_of(Seq::<TEntry>::empty(), j) == 0);
    }
    lemma_canonical_unique(dim.entries@, single);
    assert(single.drop_last() =~= Seq::<TEntry>::empty());
    assert(single[0].key < sa.bases.len());
    assert(single[0].key < sb.bases.len());
    assert(dims_factor(g, sa, sb, Seq::<TEntry>::empty()) == Some((1int, 1int)));
    assert(single.last() == e);
    assert(sa.base(k) is Some && sb.base(k) is Some);
    let q = key_factor(g, sa, sb, e).unwrap();
    assert(dims_factor(g, sa, sb, single) == Some((1 * q.0, 1 * q.1)));
}

/// How one dimension entry prints: the base unit's symbol, followed by `^n` when the
/// exponent's magnitude exceeds one.
pub open spec fn entry_notation(symbol: Seq<char>, n: int) -> Seq<char> {
    if n > 1 || n < -1 {
        symbol + seq!['^'] + decimal(n)
    } else {
        symbol
    }
}

/// The entries' notations concatenated in key order.
pub open spec fn abbreviation(symbols: Seq<&'static str>, s: Seq<TEntry>) -> Seq<char>
    decreases s.len(),
{
    if s.len() == 0 {
        Seq::<char>::empty()
    } else {
        abbreviation(symbols, s.drop_last()) + entry_notation(
            symbols[s.last().key as int]@,
            s.last().value as int,
        )
    }
}

/// A unit with a printed abbreviation.
pub trait UnitInfo {
    /// The unit is well formed.
    spec fn inv(&self) -> bool;

    /// The abbreviation.
    spec fn notation(&self) -> Seq<char>;

    /// The abbreviation, such as `m`, `ft` or `m^2`.
    fn abbr(&self) -> (r: String)
        requires
            self.inv(),
        ensures
            r@ == self.notation(),
    ;
}

impl UnitInfo for SystemUnit {
    open spec fn inv(&self) -> bool {
        self.wf()
    }

    /// Each base unit of the dimension, in key order; a key with exponent zero
    /// has no entry and prints nothing.
    open spec fn notation(&self) -> Seq<char> {
        abbreviation(self.system.symbols@, self.dim.entries@)
    }

    fn abbr(&self) -> (r: String) {
        let entries = &self.dim.entries;
        let symbols = &self.system.symbols;
        let mut s = String::new();
        let mut j: usize = 0;
        proof {
            reveal_strlit("^");
            assert(entries@.subrange(0, 0) =~= Seq::<TEntry>::empty());
        }
        while j < entries.len()
            invariant
                j <= entries.len(),
                self.wf(),
                entries == self.dim.entries,
                symbols == self.system.symbols,
                s@ == abbreviation(symbols@, entries@.subrange(0, j as int)),
            decreases entries.len() - j,
        {
            let e = entries[j];
            proof {
                assert(entries@.subrange(0, j + 1).drop_last() =~= entries@.subrange(0, j as int));
                assert(entries@.subrange(0, j + 1).last() == e);
                assert(e.key < self.system.bases.len());
            }
            let symbol = symbols[e.key as usize];
            let ghost before = s@;
            assert(abbreviation(symbols@, entries@.subrange(0, j + 1)) == before + entry_notation(
                symbol@,
                e.value as int,
            ));
            s.append(symbol);
            if e.value > 1 || e.value < -1 {
                proof {
                    reveal_strlit("^");
                }
                s.append("^");
                push_decimal(&mut s, e.value as i64);
                assert(s@ =~= before + symbol@ + seq!['^'] + decimal(e.value as int));
            } else {
                assert(s@ =~= before + symbol@);
            }
            assert(s@ =~= abbreviation(symbols@, entries@.subrange(0, j + 1)));
            j = j + 1;
        }
        assert(entries@.subrange(0, entries.len() as int) =~= entries@);
        s
    }
}

/// The exact factor that expresses a value measured in `u` in the unit of `u`'s
/// dimension in `system`.
pub open spec fn operand_factor(g: BaseUnitGraph, u: Unit, system: MakeSystem) -> Result<(int, int), ConversionError> {
    resolution(g, u, system_unit(system, u.root().dim))
}

/// Both parts fit a `u64`.
pub open spec fn fits_u64(p: (int, int)) -> bool {
    p.0 <= u64::MAX && p.1 <= u64::MAX
}

proof fn lemma_dims_factor_views(g: BaseUnitGraph, sa: MakeSystem, sb1: MakeSystem, sb2: MakeSystem, s: Seq<TEntry>)
    requires
        sb1.bases@ == sb2.bases@,
    ensures
        dims_factor(g, sa, sb1, s) == dims_factor(g, sa, sb2, s),
    decreases s.len(),
{
    if s.len() > 0 {
        lemma_dims_factor_views(g, sa, sb1, sb2, s.drop_last());
        assert(sb1.base(s.last().key) == sb2.base(s.last().key));
    }
}

/// The resolution into a unit depends only on the target's base units, dimension
/// entries and ratio.
proof fn lemma_resolution_views(g: BaseUnitGraph, a: Unit, t1: Unit, t2: Unit)
    requires
        t1.root().system.bases@ == t2.root().system.bases@,
        t1.root().dim.entries@ == t2.root().dim.entries@,
        t1.root_numer() == t2.root_numer(),
        t1.root_denom() == t2.root_denom(),
    ensures
        resolution(g, a, t1) == resolution(g, a, t2),
{
    lemma_dims_factor_views(g, a.root().system, t1.root().system, t2.root().system, a.root().dim.entries@);
}

/// Whether `system` has a base unit for every key of `dim`.
pub fn covers_dim(system: &MakeSystem, dim: &TMap) -> (r: bool)
    ensures
        r == covers(*system, *dim),
{
    let mut i: usize = 0;
    while i < dim.entries.len()
        invariant
            i <= dim.entries.len(),
            forall|t: int| 0 <= t < i ==> (#[trigger] dim.entries@[t]).key < system.bases.len(),
        decreases dim.entries.len() - i,
    {
        if dim.entries[i].key as usize >= system.bases.len() {
            return false;
        }
        i = i + 1;
    }
    true
}

/// The factor that expresses a value measured in `u` in the unit of `u`'s
/// dimension in `system`; it fails as [`resolve`] does.
pub fn operand_in(g: &BaseUnitGraph, u: &Unit, system: &MakeSystem) -> (r: Result<ConversionFactor, ConversionError>)
    requires
        g.wf(),
        u.wf(),
        system.wf(),
    ensures
        operand_factor(*g, *u, *system) matches Err(e) ==> r == Err::<ConversionFactor, ConversionError>(e),
        operand_factor(*g, *u, *system) matches Ok(p) ==> {
            &&& r is Ok <==> fits_u64(p)
            &&& r is Err ==> r == Err::<ConversionFactor, ConversionError>(ConversionError::NumericOverflow)
            &&& r matches Ok(f) ==> f.wf() && (f.numer as int, f.denom as int) == lowest_terms(p.0, p.1)
        },
{
    let ru = u.root_unit();
    if !covers_dim(system, &ru.dim) {
        proof {
            let s = ru.dim.entries@;
            let i = choose|i: int| 0 <= i < s.len() && !(s[i].key < system.bases.len());
            assert(s.subrange(0, i + 1).drop_last() =~= s.subrange(0, i));
            assert(s.subrange(0, i + 1).last() == s[i]);
            lemma_prefix_unresolved(*g, ru.system, *system, s, i + 1);
        }
        return Err(ConversionError::UnresolvedConversion);
    }
    let target = Unit::System(SystemUnit::new(system.copy(), ru.dim.copy_entries()));
    proof {
        lemma_resolution_views(*g, *u, target, system_unit(*system, u.root().dim));
    }
    resolve(g, u, &target)
}

proof fn lemma_sum_covered(system: MakeSystem, a: TMap, b: TMap, r: TMap)
    requires
        a.wf(),
        b.wf(),
        r.wf(),
        covers(system, a),
        covers(system, b),
        forall|k: u32| #[trigger] r.exp(k) != 0 ==> a.exp(k) != 0 || b.exp(k) != 0,
    ensures
        covers(system, r),
{
    assert forall|i: int| 0 <= i < r.entries.len() implies (#[trigger] r.entries@[i]).key < system.bases.len() by {
        let k = r.entries@[i].key;
        lemma_exp_at(r.entries@, i);
        assert(r.exp(k) != 0);
        if a.exp(k) != 0 {
            lemma_exp_present(a.entries@, k);
        } else {
            lemma_exp_present(b.entries@, k);
        }
    }
}

/// The unit of the product of a value in `a` and a value in `b`, with the factor
/// that the product of the two values is multiplied by. The unit is in `a`'s
/// system, with the sum of the two dimensions; each operand is first expressed in
/// `a`'s system.
pub fn product_unit(g: &BaseUnitGraph, a: &Unit, b: &Unit) -> (r: Result<(SystemUnit, ConversionFactor), ConversionError>)
    requires
        g.wf(),
        a.wf(),
        b.wf(),
        forall|k: u32| fits_i32(#[trigger] a.root().dim.exp(k) + b.root().dim.exp(k)),
    ensures
        ({
            let pa = operand_factor(*g, *a, a.root().system);
            let pb = operand_factor(*g, *b, a.root().system);
            &&& r is Ok <==> (pa is Ok && fits_u64(pa.unwrap()) && pb is Ok && fits_u64(pb.unwrap())
                && lowest_terms(pa.unwrap().0, pa.unwrap().1).0 * lowest_terms(pb.unwrap().0, pb.unwrap().1).0
                <= u64::MAX && lowest_terms(pa.unwrap().0, pa.unwrap().1).1 * lowest_terms(
                pb.unwrap().0,
                pb.unwrap().1,
            ).1 <= u64::MAX)
            &&& pa matches Err(e) ==> r == Err::<(SystemUnit, ConversionFactor), ConversionError>(e)
            &&& (pa is Ok && !fits_u64(pa.unwrap())) ==> r == Err::<
                (SystemUnit, ConversionFactor),
                ConversionError,
            >(ConversionError::NumericOverflow)
            &&& (pa is Ok && fits_u64(pa.unwrap())) ==> (pb matches Err(e) ==> r == Err::<
                (SystemUnit, ConversionFactor),
                ConversionError,
            >(e))
            &&& (pa is Ok && pb is Ok && r is Err) ==> r == Err::<(SystemUnit, ConversionFactor), ConversionError>(
                ConversionError::NumericOverflow,
            )
            &&& r matches Ok((u, f)) ==> {
                &&& u.wf()
                &&& u.system.bases@ == a.root().system.bases@
                &&& u.system.symbols@ == a.root().system.symbols@
                &&& u.dim@ == dim_add(a.root().dim@, b.root().dim@)
                &&& f.wf()
                &&& (f.numer as int, f.denom as int) == lowest_terms(
                    lowest_terms(pa.unwrap().0, pa.unwrap().1).0 * lowest_terms(pb.unwrap().0, pb.unwrap().1).0,
                    lowest_terms(pa.unwrap().0, pa.unwrap().1).1 * lowest_terms(pb.unwrap().0, pb.unwrap().1).1,
                )
            }
        }),
{
    let ra = a.root_unit();
    let rb = b.root_unit();
    let fa = match operand_in(g, a, &ra.system) {
        Ok(f) => f,
        Err(e) => {
            return Err(e);
        },
    };
    let fb = match operand_in(g, b, &ra.system) {
        Ok(f) => f,
        Err(e) => {
            return Err(e);
        },
    };
    let f = match fa.product(&fb) {
        Some(f) => f,
        None => {
            return Err(ConversionError::NumericOverflow);
        },
    };
    proof {
        lemma_root_unit_wf(*b);
        assert(covers(ra.system, rb.dim)) by {
            lemma_covered_if_resolved(*g, *b, ra.system);
        }
    }
    let dim = ra.dim.add(&rb.dim);
    proof {
        lemma_view_exp(ra.dim);
        lemma_view_exp(rb.dim);
        lemma_view_exp(dim);
        assert forall|k: u32| #[trigger] dim.exp(k) != 0 implies ra.dim.exp(k) != 0 || rb.dim.exp(k) != 0 by {
            assert(exp_in(dim@, k) == dim.exp(k));
        }
        lemma_sum_covered(ra.system, ra.dim, rb.dim, dim);
    }
    let system = ra.system.copy();
    proof {
        assert(covers(system, dim));
    }
    Ok((SystemUnit::new(system, dim), f.reduced()))
}

/// The unit of the quotient of a value in `a` by a value in `b`, with the factor
/// that the quotient of the two values is multiplied by. The unit is in `a`'s
/// system, with the difference of the two dimensions; each operand is first
/// expressed in `a`'s system.
pub fn quotient_unit(g: &BaseUnitGraph, a: &Unit, b: &Unit) -> (r: Result<(SystemUnit, ConversionFactor), ConversionError>)
    requires
        g.wf(),
        a.wf(),
        b.wf(),
        forall|k: u32| fits_i32(#[trigger] a.root().dim.exp(k) - b.root().dim.exp(k)),
    ensures
        ({
            let pa = operand_factor(*g, *a, a.root().system);
            let pb = operand_factor(*g, *b, a.root().system);
            &&& r is Ok <==> (pa is Ok && fits_u64(pa.unwrap()) && pb is Ok && fits_u64(pb.unwrap())
                && lowest_terms(pa.unwrap().0, pa.unwrap().1).0 * lowest_terms(pb.unwrap().0, pb.unwrap().1).1
                <= u64::MAX && lowest_terms(pa.unwrap().0, pa.unwrap().1).1 * lowest_terms(
                pb.unwrap().0,
                pb.unwrap().1,
            ).0 <= u64::MAX)
            &&& pa matches Err(e) ==> r == Err::<(SystemUnit, ConversionFactor), ConversionError>(e)
            &&& (pa is Ok && !fits_u64(pa.unwrap())) ==> r == Err::<
                (SystemUnit, ConversionFactor),
                ConversionError,
            >(ConversionError::NumericOverflow)
            &&& (pa is Ok && fits_u64(pa.unwrap())) ==> (pb matches Err(e) ==> r == Err::<
                (SystemUnit, ConversionFactor),
                ConversionError,
            >(e))
            &&& (pa is Ok && pb is Ok && r is Err) ==> r == Err::<(SystemUnit, ConversionFactor), ConversionError>(
                ConversionError::NumericOverflow,
            )
            &&& r matches Ok((u, f)) ==> {
                &&& u.wf()
                &&& u.system.bases@ == a.root().system.bases@
                &&& u.system.symbols@ == a.root().system.symbols@
                &&& u.dim@ == dim_sub(a.root().dim@, b.root().dim@)
                &&& f.wf()
                &&& (f.numer as int, f.denom as int) == lowest_terms(
                    lowest_terms(pa.unwrap().0, pa.unwrap().1).0 * lowest_terms(pb.unwrap().0, pb.unwrap().1).1,
                    lowest_terms(pa.unwrap().0, pa.unwrap().1).1 * lowest_terms(pb.unwrap().0, pb.unwrap().1).0,
                )
            }
        }),
{
    let ra = a.root_unit();
    let rb = b.root_unit();
    let fa = match operand_in(g, a, &ra.system) {
        Ok(f) => f,
        Err(e) => {
            return Err(e);
        },
    };
    let fb = match operand_in(g, b, &ra.system) {
        Ok(f) => f,
        Err(e) => {
            return Err(e);
        },
    };
    let f = match fa.quotient(&fb) {
        Some(f) => f,
        None => {
            return Err(ConversionError::NumericOverflow);
        },
    };
    proof {
        lemma_root_unit_wf(*b);
        assert(covers(ra.system, rb.dim)) by {
            lemma_covered_if_resolved(*g, *b, ra.system);
        }
    }
    let dim = ra.dim.sub(&rb.dim);
    proof {
        lemma_view_exp(ra.dim);
        lemma_view_exp(rb.dim);
        lemma_view_exp(dim);
        assert forall|k: u32| #[trigger] dim.exp(k) != 0 implies ra.dim.exp(k) != 0 || rb.dim.exp(k) != 0 by {
            assert(exp_in(dim@, k) == dim.exp(k));
        }
        lemma_sum_covered(ra.system, ra.dim, rb.dim, dim);
    }
    let system = ra.system.copy();
    proof {
        assert(covers(system, dim));
    }
    Ok((SystemUnit::new(system, dim), f.reduced()))
}

/// A unit that resolves into `system` has every key of its dimension covered by it.
proof fn lemma_covered_if_resolved(g: BaseUnitGraph, u: Unit, system: MakeSystem)
    requires
        g.wf(),
        u.wf(),
        system.wf(),
        operand_factor(g, u, system) is Ok,
    ensures
        covers(system, u.root().dim),
{
    let s = u.root().dim.entries@;
    lemma_root_unit_wf(u);
    assert forall|i: int| 0 <= i < s.len() implies (#[trigger] s[i]).key < system.bases.len() by {
        if !(s[i].key < system.bases.len()) {
            assert(s.subrange(0, i + 1).drop_last() =~= s.subrange(0, i));
            assert(s.subrange(0, i + 1).last() == s[i]);
            lemma_prefix_unresolved(g, u.root().system, system, s, i + 1);
        }
    }
}

/// `a` and `b` have the same structure, ratios, base units, symbols and dimension
/// entries.
pub open spec fn same_unit(a: Unit, b: Unit) -> bool
    decreases a,
{
    match (a, b) {
        (Unit::System(x), Unit::System(y)) => x.system.bases@ == y.system.bases@ && x.system.symbols@
            == y.system.symbols@ && x.dim.entries@ == y.dim.entries@,
        (Unit::Scaled(x), Unit::Scaled(y)) => x.ratio == y.ratio && same_unit(*x.unit, *y.unit),
        _ => false,
    }
}

impl Unit {
    /// A copy of this unit.
    pub fn copy(&self) -> (r: Unit)
        requires
            self.wf(),
        ensures
            r.wf(),
            same_unit(*self, r),
        decreases self,
    {
        match self {
            Unit::System(s) => Unit::System(SystemUnit { system: s.system.copy(), dim: s.dim.copy_entries() }),
            Unit::Scaled(s) => Unit::Scaled(ScaledUnit { unit: Box::new(s.unit.copy()), ratio: s.ratio }),
        }
    }
}

} // verus!
