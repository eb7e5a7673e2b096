//! Base units and the graph of declared conversions between them.
//!
//! A base-unit tag names one concrete unit of one base dimension (the gram, the
//! yard). A base unit is a tag or a rational multiple of one. Conversions between
//! different tags are never inferred: each one is declared as a directed edge with
//! its factor, and only direct edges resolve. Every tag converts to itself with
//! factor one without any declaration.
use crate::conversion::{ConversionError, ConversionFactor};
use crate::dimension::{LENGTH, MASS, TIME};
use vstd::arithmetic::mul::*;
use vstd::prelude::*;

verus! {

/// The identity of one concrete base unit within base dimension `dimension`.
#[derive(Clone, Copy, Debug, PartialEq, Eq, Structural)]
pub struct BaseUnitTag {
    pub dimension: u32,
    pub id: u32,
}

impl BaseUnitTag {
    /// Whether `self` and `other` name the same unit.
    pub fn same_as(&self, other: &BaseUnitTag) -> (r: bool)
        ensures
            r == (*self == *other),
    {
        self.dimension == other.dimension && self.id == other.id
    }
}

/// `scale` units of `base` (one of this unit holds `scale` of `base`).
#[derive(Clone, Copy, Debug, PartialEq, Eq, Structural)]
pub struct ScaledBaseUnit {
    pub base: BaseUnitTag,
    pub scale: ConversionFactor,
}

/// A base unit: a tag itself, or a multiple of a tag.
#[derive(Clone, Copy, Debug, PartialEq, Eq, Structural)]
pub enum BaseUnit {
    Tag(BaseUnitTag),
    Scaled(ScaledBaseUnit),
}

impl BaseUnit {
    /// A scaled unit carries a valid factor.
    pub open spec fn wf(&self) -> bool {
        match self {
            BaseUnit::Tag(_) => true,
            BaseUnit::Scaled(s) => s.scale.wf(),
        }
    }

    /// The tag this unit is measured against.
    pub open spec fn root(&self) -> BaseUnitTag {
        match self {
            BaseUnit::Tag(t) => *t,
            BaseUnit::Scaled(s) => s.base,
        }
    }

    /// How many root units one of this unit holds.
    pub open spec fn ratio(&self) -> ConversionFactor {
        match self {
            BaseUnit::Tag(_) => ConversionFactor { numer: 1, denom: 1 },
            BaseUnit::Scaled(s) => s.scale,
        }
    }

    /// The base dimension this unit measures.
    pub open spec fn dim(&self) -> u32 {
        self.root().dimension
    }

    /// The tag this unit is measured against.
    pub fn root_tag(&self) -> (r: BaseUnitTag)
        ensures
            r == self.root(),
    {
        match self {
            BaseUnit::Tag(t) => *t,
            BaseUnit::Scaled(s) => s.base,
        }
    }

    /// How many root units one of this unit holds.
    pub fn scale_of(&self) -> (r: ConversionFactor)
        requires
            self.wf(),
        ensures
            r == self.ratio(),
            r.wf(),
    {
        match self {
            BaseUnit::Tag(_) => ConversionFactor::one(),
            BaseUnit::Scaled(s) => s.scale,
        }
    }

    /// `n/d` of this unit, as a multiple of its root tag; `None` when the
    /// combined factor does not fit.
    pub fn scaled(&self, n: u64, d: u64) -> (r: Option<BaseUnit>)
        requires
            self.wf(),
            n >= 1,
            d >= 1,
        ensures
            r is Some <==> (n * self.ratio().numer <= u64::MAX && d * self.ratio().denom
                <= u64::MAX),
            r matches Some(u) ==> u.wf() && u.root() == self.root() && u.ratio().numer == n
                * self.ratio().numer && u.ratio().denom == d * self.ratio().denom,
    {
        let f = ConversionFactor::from_ratio(n, d);
        match f.product(&self.scale_of()) {
            Some(scale) => Some(BaseUnit::Scaled(ScaledBaseUnit { base: self.root_tag(), scale })),
            None => None,
        }
    }
}

/// A declared conversion: one `from` holds `factor` of `to`.
#[derive(Clone, Copy, Debug, PartialEq, Eq, Structural)]
pub struct Edge {
    pub from: BaseUnitTag,
    pub to: BaseUnitTag,
    pub factor: ConversionFactor,
}

/// The declared conversion edges between base-unit tags.
#[derive(Clone, Debug)]
pub struct BaseUnitGraph {
    pub edges: Vec<Edge>,
}

/// The factor of the last edge declared from `a` to `b` in `s`, if any.
pub open spec fn declared(s: Seq<Edge>, a: BaseUnitTag, b: BaseUnitTag) -> Option<ConversionFactor>
    decreases s.len(),
{
    if s.len() == 0 {
        None
    } else if s.last().from == a && s.last().to == b {
        Some(s.last().factor)
    } else {
        declared(s.drop_last(), a, b)
    }
}

/// Every declared edge joins two distinct tags of one dimension with a valid factor.
pub open spec fn edges_wf(s: Seq<Edge>) -> bool {
    forall|i: int|
        0 <= i < s.len() ==> (#[trigger] s[i]).factor.wf() && s[i].from != s[i].to
            && s[i].from.dimension == s[i].to.dimension
}

/// Numerator of `scale(a) * edge / scale(b)`.
pub open spec fn chain_numer(a: ConversionFactor, e: ConversionFactor, b: ConversionFactor) -> int {
    a.numer * e.numer * b.denom
}

/// Denominator of `scale(a) * edge / scale(b)`.
pub open spec fn chain_denom(a: ConversionFactor, e: ConversionFactor, b: ConversionFactor) -> int {
    a.denom * e.denom * b.numer
}

/// A declared edge carries a valid factor and joins distinct tags.
pub proof fn lemma_declared_wf(s: Seq<Edge>, a: BaseUnitTag, b: BaseUnitTag)
    requires
        edges_wf(s),
    ensures
        declared(s, a, b) matches Some(f) ==> f.wf() && a != b,
    decreases s.len(),
{
    if s.len() > 0 {
        assert(s.last() == s[s.len() - 1]);
        lemma_declared_wf(s.drop_last(), a, b);
    }
}

impl BaseUnitGraph {
    /// Every declared edge is well formed.
    pub open spec fn wf(&self) -> bool {
        edges_wf(self.edges@)
    }

    /// The factor from tag `a` to tag `b`: one from a tag to itself, else the
    /// declared edge, if any.
    pub open spec fn edge(&self, a: BaseUnitTag, b: BaseUnitTag) -> Option<ConversionFactor> {
        if a == b {
            Some(ConversionFactor { numer: 1, denom: 1 })
        } else {
            declared(self.edges@, a, b)
        }
    }

    /// The factor from base unit `a` to base unit `b`: `scale(a) * edge / scale(b)`,
    /// over the edge between their roots.
    pub open spec fn factor(&self, a: BaseUnit, b: BaseUnit) -> Option<(int, int)> {
        match self.edge(a.root(), b.root()) {
            Some(e) => Some((chain_numer(a.ratio(), e, b.ratio()), chain_denom(a.ratio(), e, b.ratio()))),
            None => None,
        }
    }

    /// A graph with no declared edge.
    pub fn new() -> (r: BaseUnitGraph)
        ensures
            r.wf(),
            r.edges@.len() == 0,
    {
        BaseUnitGraph { edges: Vec::new() }
    }

    /// Declares that one `a` holds `factor` of `b`. The edge goes one way only;
    /// a later declaration for the same pair replaces an earlier one.
    pub fn declare_edge(&mut self, a: BaseUnitTag, b: BaseUnitTag, factor: ConversionFactor)
        requires
            old(self).wf(),
            factor.wf(),
            a != b,
            a.dimension == b.dimension,
        ensures
            final(self).wf(),
            final(self).edge(a, b) == Some(factor),
            forall|x: BaseUnitTag, y: BaseUnitTag|
                !(x == a && y == b) ==> #[trigger] final(self).edge(x, y) == old(self).edge(x, y),
    {
        let ghost before = self.edges@;
        self.edges.push(Edge { from: a, to: b, factor });
        assert(self.edges@.drop_last() =~= before);
    }

    /// The edge from tag `a` to tag `b`, if one resolves.
    pub fn edge_between(&self, a: BaseUnitTag, b: BaseUnitTag) -> (r: Option<ConversionFactor>)
        requires
            self.wf(),
        ensures
            r == self.edge(a, b),
            r matches Some(f) ==> f.wf(),
    {
        proof {
            lemma_declared_wf(self.edges@, a, b);
        }
        if a.same_as(&b) {
            return Some(ConversionFactor::one());
        }
        let mut i: usize = self.edges.len();
        assert(self.edges@.subrange(0, i as int) =~= self.edges@);
        while i > 0
            invariant
                a != b,
                self.wf(),
                i <= self.edges.len(),
                declared(self.edges@, a, b) == declared(self.edges@.subrange(0, i as int), a, b),
            decreases i,
        {
            let e = self.edges[i - 1];
            assert(self.edges@.subrange(0, i as int).drop_last() =~= self.edges@.subrange(0, i - 1));
            assert(self.edges@.subrange(0, i as int).last() == e);
            if e.from.same_as(&a) && e.to.same_as(&b) {
                assert(declared(self.edges@.subrange(0, i as int), a, b) == Some(e.factor));
                return Some(e.factor);
            }
            i = i - 1;
        }
        None
    }

    /// The factor from base unit `a` to base unit `b`.
    ///
    /// Fails with `UnresolvedConversion` when no edge joins their roots, and with
    /// `NumericOverflow` when the exact factor does not fit.
    pub fn base_factor(&self, a: &BaseUnit, b: &BaseUnit) -> (r: Result<ConversionFactor, ConversionError>)
        requires
            self.wf(),
            a.wf(),
            b.wf(),
        ensures
            self.factor(*a, *b) is None <==> r == Err::<ConversionFactor, ConversionError>(
                ConversionError::UnresolvedConversion,
            ),
            self.factor(*a, *b) matches Some(p) ==> (r is Ok <==> (p.0 <= u64::MAX && p.1
                <= u64::MAX)),
            r matches Ok(f) ==> f.wf() && self.factor(*a, *b) == Some((f.numer as int, f.denom as int)),
            r matches Err(e) ==> e != ConversionError::IncompatibleDimension,
    {
        let e = match self.edge_between(a.root_tag(), b.root_tag()) {
            Some(e) => e,
            None => {
                return Err(ConversionError::UnresolvedConversion);
            },
        };
        let sa = a.scale_of();
        let sb = b.scale_of();
        proof {
            lemma_mul_strictly_positive(sa.numer as int, e.numer as int);
            lemma_mul_strictly_positive(sa.denom as int, e.denom as int);
            lemma_mul_increases(sb.denom as int, sa.numer * e.numer);
            lemma_mul_increases(sb.numer as int, sa.denom * e.denom);
            lemma_mul_is_commutative(sb.denom as int, sa.numer * e.numer);
            lemma_mul_is_commutative(sb.numer as int, sa.denom * e.denom);
        }
        let through = match sa.product(&e) {
            Some(f) => f,
            None => {
                return Err(ConversionError::NumericOverflow);
            },
        };
        match through.quotient(&sb) {
            Some(f) => Ok(f),
            None => Err(ConversionError::NumericOverflow),
        }
    }
}

/// A concrete base unit of the catalog: its unit value, its name and its symbol.
pub trait BaseUnitInfo {
    /// The base unit.
    spec fn unit() -> BaseUnit;

    /// The base unit.
    fn base_unit() -> (r: BaseUnit)
        ensures
            r == Self::unit(),
            r.wf(),
    ;

    /// Its name.
    spec fn name_text() -> Seq<char>;

    /// Its symbol.
    spec fn symbol_text() -> Seq<char>;

    /// Its name.
    fn name() -> (r: &'static str)
        ensures
            r@ == Self::name_text(),
    ;

    /// Its symbol.
    fn symbol() -> (r: &'static str)
        ensures
            r@ == Self::symbol_text(),
    ;
}

/// The gram, mass tag 0.
#[derive(Clone, Copy, Debug, Default)]
pub struct GramBaseUnit;

/// The kilogram: 1000 grams.
#[derive(Clone, Copy, Debug, Default)]
pub struct KilogramBaseUnit;

/// The slug, mass tag 1.
#[derive(Clone, Copy, Debug, Default)]
pub struct SlugBaseUnit;

/// The pound (mass): 16087/500 slugs.
#[derive(Clone, Copy, Debug, Default)]
pub struct PoundMassBaseUnit;

/// The meter, length tag 0.
#[derive(Clone, Copy, Debug, Default)]
pub struct MeterBaseUnit;

/// The yard, length tag 1.
#[derive(Clone, Copy, Debug, Default)]
pub struct YardBaseUnit;

/// The foot: a third of a yard.
#[derive(Clone, Copy, Debug, Default)]
pub struct FootBaseUnit;

/// The second, time tag 0.
#[derive(Clone, Copy, Debug, Default)]
pub struct SecondBaseUnit;

/// The minute: 60 seconds.
#[derive(Clone, Copy, Debug, Default)]
pub struct MinuteBaseUnit;

/// The tag with dimension `dimension` and identity `id`.
pub open spec fn tag(dimension: u32, id: u32) -> BaseUnitTag {
    BaseUnitTag { dimension, id }
}

/// The factor `numer / denom`.
pub open spec fn fraction(numer: u64, denom: u64) -> ConversionFactor {
    ConversionFactor { numer, denom }
}

/// The gram's tag.
pub fn gram() -> (r: BaseUnitTag)
    ensures
        r == tag(MASS, 0),
{
    BaseUnitTag { dimension: MASS, id: 0 }
}

/// The slug's tag.
pub fn slug() -> (r: BaseUnitTag)
    ensures
        r == tag(MASS, 1),
{
    BaseUnitTag { dimension: MASS, id: 1 }
}

/// The meter's tag.
pub fn meter() -> (r: BaseUnitTag)
    ensures
        r == tag(LENGTH, 0),
{
    BaseUnitTag { dimension: LENGTH, id: 0 }
}

/// The yard's tag.
pub fn yard() -> (r: BaseUnitTag)
    ensures
        r == tag(LENGTH, 1),
{
    BaseUnitTag { dimension: LENGTH, id: 1 }
}

/// The second's tag.
pub fn second() -> (r: BaseUnitTag)
    ensures
        r == tag(TIME, 0),
{
    BaseUnitTag { dimension: TIME, id: 0 }
}

impl BaseUnitInfo for GramBaseUnit {
    open spec fn unit() -> BaseUnit {
        BaseUnit::Tag(tag(MASS, 0))
    }

    fn base_unit() -> (r: BaseUnit) {
        BaseUnit::Tag(gram())
    }

    open spec fn name_text() -> Seq<char> {
        "gram"@
    }

    open spec fn symbol_text() -> Seq<char> {
        "g"@
    }

    fn name() -> (r: &'static str) {
        "gram"
    }

    fn symbol() -> (r: &'static str) {
        "g"
    }
}

impl BaseUnitInfo for KilogramBaseUnit {
    open spec fn unit() -> BaseUnit {
        BaseUnit::Scaled(ScaledBaseUnit { base: tag(MASS, 0), scale: fraction(1000, 1) })
    }

    fn base_unit() -> (r: BaseUnit) {
        BaseUnit::Scaled(ScaledBaseUnit { base: gram(), scale: ConversionFactor::from_integer(1000) })
    }

    open spec fn name_text() -> Seq<char> {
        "kilo"@
    }

    open spec fn symbol_text() -> Seq<char> {
        "kg"@
    }

    fn name() -> (r: &'static str) {
        "kilo"
    }

    fn symbol() -> (r: &'static str) {
        "kg"
    }
}

impl BaseUnitInfo for SlugBaseUnit {
    open spec fn unit() -> BaseUnit {
        BaseUnit::Tag(tag(MASS, 1))
    }

    fn base_unit() -> (r: BaseUnit) {
        BaseUnit::Tag(slug())
    }

    open spec fn name_text() -> Seq<char> {
        "slug"@
    }

    open spec fn symbol_text() -> Seq<char> {
        "slug"@
    }

    fn name() -> (r: &'static str) {
        "slug"
    }

    fn symbol() -> (r: &'static str) {
        "slug"
    }
}

impl BaseUnitInfo for PoundMassBaseUnit {
    open spec fn unit() -> BaseUnit {
        BaseUnit::Scaled(ScaledBaseUnit { base: tag(MASS, 1), scale: fraction(16087, 500) })
    }

    fn base_unit() -> (r: BaseUnit) {
        BaseUnit::Scaled(ScaledBaseUnit { base: slug(), scale: ConversionFactor::from_ratio(16087, 500) })
    }

    open spec fn name_text() -> Seq<char> {
        "pound"@
    }

    open spec fn symbol_text() -> Seq<char> {
        "lbm"@
    }

    fn name() -> (r: &'static str) {
        "pound"
    }

    fn symbol() -> (r: &'static str) {
        "lbm"
    }
}

impl BaseUnitInfo for MeterBaseUnit {
    open spec fn unit() -> BaseUnit {
        BaseUnit::Tag(tag(LENGTH, 0))
    }

    fn base_unit() -> (r: BaseUnit) {
        BaseUnit::Tag(meter())
    }

    open spec fn name_text() -> Seq<char> {
        "meter"@
    }

    open spec fn symbol_text() -> Seq<char> {
        "m"@
    }

    fn name() -> (r: &'static str) {
        "meter"
    }

    fn symbol() -> (r: &'static str) {
        "m"
    }
}

impl BaseUnitInfo for YardBaseUnit {
    open spec fn unit() -> BaseUnit {
        BaseUnit::Tag(tag(LENGTH, 1))
    }

    fn base_unit() -> (r: BaseUnit) {
        BaseUnit::Tag(yard())
    }

    open spec fn name_text() -> Seq<char> {
        "yard"@
    }

    open spec fn symbol_text() -> Seq<char> {
        "yd"@
    }

    fn name() -> (r: &'static str) {
        "yard"
    }

    fn symbol() -> (r: &'static str) {
        "yd"
    }
}

impl BaseUnitInfo for FootBaseUnit {
    open spec fn unit() -> BaseUnit {
        BaseUnit::Scaled(ScaledBaseUnit { base: tag(LENGTH, 1), scale: fraction(1, 3) })
    }

    fn base_unit() -> (r: BaseUnit) {
        BaseUnit::Scaled(ScaledBaseUnit { base: yard(), scale: ConversionFactor::from_ratio(1, 3) })
    }

    open spec fn name_text() -> Seq<char> {
        "feet"@
    }

    open spec fn symbol_text() -> Seq<char> {
        "ft"@
    }

    fn name() -> (r: &'static str) {
        "feet"
    }

    fn symbol() -> (r: &'static str) {
        "ft"
    }
}

impl BaseUnitInfo for SecondBaseUnit {
    open spec fn unit() -> BaseUnit {
        BaseUnit::Tag(tag(TIME, 0))
    }

    fn base_unit() -> (r: BaseUnit) {
        BaseUnit::Tag(second())
    }

    open spec fn name_text() -> Seq<char> {
        "second"@
    }

    open spec fn symbol_text() -> Seq<char> {
        "s"@
    }

    fn name() -> (r: &'static str) {
        "second"
    }

    fn symbol() -> (r: &'static str) {
        "s"
    }
}

impl BaseUnitInfo for MinuteBaseUnit {
    open spec fn unit() -> BaseUnit {
        BaseUnit::Scaled(ScaledBaseUnit { base: tag(TIME, 0), scale: fraction(60, 1) })
    }

    fn base_unit() -> (r: BaseUnit) {
        BaseUnit::Scaled(ScaledBaseUnit { base: second(), scale: ConversionFactor::from_integer(60) })
    }

    open spec fn name_text() -> Seq<char> {
        "minute"@
    }

    open spec fn symbol_text() -> Seq<char> {
        "min"@
    }

    fn name() -> (r: &'static str) {
        "minute"
    }

    fn symbol() -> (r: &'static str) {
        "min"
    }
}

/// Every declared edge whose reverse is declared too is its reciprocal.
pub open spec fn reciprocal_edges(g: BaseUnitGraph) -> bool {
    forall|x: BaseUnitTag, y: BaseUnitTag|
        #![trigger g.edge(x, y), g.edge(y, x)]
        g.edge(x, y) is Some && g.edge(y, x) is Some ==> g.edge(x, y).unwrap().numer * g.edge(
            y,
            x,
        ).unwrap().numer == g.edge(x, y).unwrap().denom * g.edge(y, x).unwrap().denom
}

/// The graph of the catalog's declared edges, each declared in both directions:
/// one slug holds 14590 grams, one yard holds 1143/1250 meters.
pub fn standard_graph() -> (r: BaseUnitGraph)
    ensures
        r.wf(),
        r.edge(tag(MASS, 1), tag(MASS, 0)) == Some(fraction(14590, 1)),
        r.edge(tag(MASS, 0), tag(MASS, 1)) == Some(fraction(1, 14590)),
        r.edge(tag(LENGTH, 1), tag(LENGTH, 0)) == Some(fraction(1143, 1250)),
        r.edge(tag(LENGTH, 0), tag(LENGTH, 1)) == Some(fraction(1250, 1143)),
        reciprocal_edges(r),
{
    let mut g = BaseUnitGraph::new();
    let ghost g0 = g;
    g.declare_edge(slug(), gram(), ConversionFactor::from_integer(14590));
    let ghost g1 = g;
    g.declare_edge(gram(), slug(), ConversionFactor::from_ratio(1, 14590));
    let ghost g2 = g;
    g.declare_edge(yard(), meter(), ConversionFactor::from_ratio(1143, 1250));
    let ghost g3 = g;
    g.declare_edge(meter(), yard(), ConversionFactor::from_ratio(1250, 1143));
    proof {
        assert forall|x: BaseUnitTag, y: BaseUnitTag|
            #![trigger g.edge(x, y), g.edge(y, x)]
            g.edge(x, y) is Some && g.edge(y, x) is Some implies g.edge(x, y).unwrap().numer * g.edge(
                y,
                x,
            ).unwrap().numer == g.edge(x, y).unwrap().denom * g.edge(y, x).unwrap().denom by {
            let (sg, gs, ym, my) = (
                (tag(MASS, 1), tag(MASS, 0)),
                (tag(MASS, 0), tag(MASS, 1)),
                (tag(LENGTH, 1), tag(LENGTH, 0)),
                (tag(LENGTH, 0), tag(LENGTH, 1)),
            );
            assert(g.edge(sg.0, sg.1) == Some(fraction(14590, 1)));
            assert(g.edge(gs.0, gs.1) == Some(fraction(1, 14590)));
            assert(g.edge(ym.0, ym.1) == Some(fraction(1143, 1250)));
            assert(g.edge(my.0, my.1) == Some(fraction(1250, 1143)));
            let prod_ok = |e: ConversionFactor, f: ConversionFactor| e.numer * f.numer == e.denom * f.denom;
            if x != y && (x, y) != sg && (x, y) != gs && (x, y) != ym && (x, y) != my {
                assert(g.edge(x, y) == g3.edge(x, y));
                assert(g3.edge(x, y) == g2.edge(x, y));
                assert(g2.edge(x, y) == g1.edge(x, y));
                assert(g1.edge(x, y) == g0.edge(x, y));
                assert(g0.edge(x, y) is None);
            } else if x == y {
                assert(g.edge(x, y) == Some(fraction(1, 1)));
                assert(prod_ok(fraction(1, 1), fraction(1, 1)));
            } else if (x, y) == sg {
                assert(g.edge(x, y) == Some(fraction(14590, 1)));
                assert(g.edge(y, x) == Some(fraction(1, 14590)));
                assert(prod_ok(fraction(14590, 1), fraction(1, 14590)));
            } else if (x, y) == gs {
                assert(g.edge(x, y) == Some(fraction(1, 14590)));
                assert(g.edge(y, x) == Some(fraction(14590, 1)));
                assert(prod_ok(fraction(1, 14590), fraction(14590, 1)));
            } else if (x, y) == ym {
                assert(g.edge(x, y) == Some(fraction(1143, 1250)));
                assert(g.edge(y, x) == Some(fraction(1250, 1143)));
                assert(prod_ok(fraction(1143, 1250), fraction(1250, 1143)));
            } else {
                assert(g.edge(x, y) == Some(fraction(1250, 1143)));
                assert(g.edge(y, x) == Some(fraction(1143, 1250)));
                assert(prod_ok(fraction(1250, 1143), fraction(1143, 1250)));
            }
        }
    }
    g
}

} // verus!
