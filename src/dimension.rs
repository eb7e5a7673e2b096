//! Dimension vectors.
//!
//! A dimension vector maps base-dimension keys to integer exponents. It is kept
//! canonical: entries sorted by key, one entry per key, and no entry with exponent
//! zero. A missing key stands for exponent zero, so two vectors are equal exactly
//! when every key has the same exponent in both.
use vstd::prelude::*;

verus! {

/// One base dimension: an axis of measurement with an ordering key.
pub trait BaseDimension {
    /// The key under which this dimension appears in a dimension vector.
    spec fn key() -> u32;

    /// The key under which this dimension appears in a dimension vector.
    fn ordinal() -> (r: u32)
        ensures
            r == Self::key(),
    ;
}

/// Mass, key 0.
#[derive(Clone, Copy, Debug, Default)]
pub struct MassBaseDimension;

/// Length, key 1.
#[derive(Clone, Copy, Debug, Default)]
pub struct LengthBaseDimension;

/// Time, key 2.
#[derive(Clone, Copy, Debug, Default)]
pub struct TimeBaseDimension;

/// Key of the mass dimension.
pub const MASS: u32 = 0;

/// Key of the length dimension.
pub const LENGTH: u32 = 1;

/// Key of the time dimension.
pub const TIME: u32 = 2;

impl BaseDimension for MassBaseDimension {
    open spec fn key() -> u32 {
        MASS
    }

    fn ordinal() -> (r: u32) {
        MASS
    }
}

impl BaseDimension for LengthBaseDimension {
    open spec fn key() -> u32 {
        LENGTH
    }

    fn ordinal() -> (r: u32) {
        LENGTH
    }
}

impl BaseDimension for TimeBaseDimension {
    open spec fn key() -> u32 {
        TIME
    }

    fn ordinal() -> (r: u32) {
        TIME
    }
}

/// One entry of a dimension vector: a base-dimension key and its exponent.
#[derive(Clone, Copy, Debug, PartialEq, Eq, Structural)]
pub struct TEntry {
    pub key: u32,
    pub value: i32,
}

/// A dimension vector, stored as its canonical list of entries.
#[derive(Clone, Debug)]
pub struct TMap {
    pub entries: Vec<TEntry>,
}

/// Sum of the exponents that `s` gives to `k` (entries need not be canonical).
pub open spec fn exp_of(s: Seq<TEntry>, k: u32) -> int
    decreases s.len(),
{
    if s.len() == 0 {
        0
    } else {
        exp_of(s.drop_last(), k) + if s.last().key == k {
            s.last().value as int
        } else {
            0
        }
    }
}

/// Keys strictly increasing, no zero exponent.
pub open spec fn canonical(s: Seq<TEntry>) -> bool {
    &&& forall|i: int, j: int| 0 <= i < j < s.len() ==> s[i].key < s[j].key
    &&& forall|i: int| 0 <= i < s.len() ==> s[i].value != 0
}

/// The exponent that the model `m` gives to `k`: zero where `m` has no entry.
pub open spec fn exp_in(m: Map<u32, int>, k: u32) -> int {
    if m.contains_key(k) {
        m[k]
    } else {
        0
    }
}

/// The model with exponents `f`: it holds exactly the keys with a nonzero exponent.
pub open spec fn dim_from(f: spec_fn(u32) -> int) -> Map<u32, int> {
    Map::new(|k: u32| f(k) != 0, |k: u32| f(k))
}

/// Key-wise sum of exponents.
pub open spec fn dim_add(a: Map<u32, int>, b: Map<u32, int>) -> Map<u32, int> {
    dim_from(|k: u32| exp_in(a, k) + exp_in(b, k))
}

/// Key-wise negation of exponents.
pub open spec fn dim_neg(a: Map<u32, int>) -> Map<u32, int> {
    dim_from(|k: u32| -exp_in(a, k))
}

/// Key-wise difference of exponents.
pub open spec fn dim_sub(a: Map<u32, int>, b: Map<u32, int>) -> Map<u32, int> {
    dim_from(|k: u32| exp_in(a, k) - exp_in(b, k))
}

/// Every exponent multiplied by `n`.
pub open spec fn dim_scale(a: Map<u32, int>, n: int) -> Map<u32, int> {
    dim_from(|k: u32| exp_in(a, k) * n)
}

/// The value fits an `i32`.
pub open spec fn fits_i32(x: int) -> bool {
    i32::MIN <= x <= i32::MAX
}

impl View for TMap {
    type V = Map<u32, int>;

    /// Key to exponent, for the keys with a nonzero exponent.
    open spec fn view(&self) -> Map<u32, int> {
        dim_from(|k: u32| exp_of(self.entries@, k))
    }
}

/// Every entry's key is in the model.
pub proof fn lemma_entry_keys(m: TMap)
    requires
        m.wf(),
    ensures
        forall|i: int| 0 <= i < m.entries.len() ==> m@.contains_key(#[trigger] m.entries@[i].key),
{
    assert forall|i: int| 0 <= i < m.entries.len() implies m@.contains_key(#[trigger] m.entries@[i].key) by {
        lemma_exp_at(m.entries@, i);
    }
}

/// Models built from pointwise equal exponent functions are equal.
pub proof fn lemma_dim_from_ext(f: spec_fn(u32) -> int, g: spec_fn(u32) -> int)
    requires
        forall|k: u32| #[trigger] f(k) == g(k),
    ensures
        dim_from(f) == dim_from(g),
{
    assert(dim_from(f) =~= dim_from(g));
}

/// The model's exponent of a key is the sum that the entries give it.
pub proof fn lemma_view_exp(m: TMap)
    ensures
        forall|k: u32| #[trigger] exp_in(m@, k) == m.exp(k),
{
}

/// Splitting a list splits the exponent sums.
pub proof fn lemma_exp_concat(s1: Seq<TEntry>, s2: Seq<TEntry>, k: u32)
    ensures
        exp_of(s1 + s2, k) == exp_of(s1, k) + exp_of(s2, k),
    decreases s2.len(),
{
    if s2.len() > 0 {
        lemma_exp_concat(s1, s2.drop_last(), k);
        assert((s1 + s2).drop_last() =~= s1 + s2.drop_last());
    } else {
        assert(s1 + s2 =~= s1);
    }
}

/// A key that no entry holds has exponent zero.
pub proof fn lemma_exp_absent(s: Seq<TEntry>, k: u32)
    requires
        forall|i: int| 0 <= i < s.len() ==> s[i].key != k,
    ensures
        exp_of(s, k) == 0,
    decreases s.len(),
{
    if s.len() > 0 {
        lemma_exp_absent(s.drop_last(), k);
    }
}

proof fn lemma_exp_single(e: TEntry, k: u32)
    ensures
        exp_of(seq![e], k) == if e.key == k {
            e.value as int
        } else {
            0
        },
{
    assert(seq![e].drop_last() =~= Seq::<TEntry>::empty());
    assert(exp_of(Seq::<TEntry>::empty(), k) == 0);
}

/// In a canonical list the exponent of an entry's key is that entry's value.
pub proof fn lemma_exp_at(s: Seq<TEntry>, i: int)
    requires
        canonical(s),
        0 <= i < s.len(),
    ensures
        exp_of(s, s[i].key) == s[i].value,
{
    let k = s[i].key;
    let pre = s.subrange(0, i);
    let post = s.subrange(i + 1, s.len() as int);
    assert(s =~= pre + seq![s[i]] + post);
    lemma_exp_concat(pre + seq![s[i]], post, k);
    lemma_exp_concat(pre, seq![s[i]], k);
    lemma_exp_single(s[i], k);
    lemma_exp_absent(pre, k);
    lemma_exp_absent(post, k);
}

/// A key with a nonzero exponent is held by some entry.
pub proof fn lemma_exp_present(s: Seq<TEntry>, k: u32)
    requires
        exp_of(s, k) != 0,
    ensures
        exists|i: int| 0 <= i < s.len() && s[i].key == k,
{
    if !(exists|i: int| 0 <= i < s.len() && s[i].key == k) {
        lemma_exp_absent(s, k);
    }
}

/// A canonical list is determined by its exponents.
pub proof fn lemma_canonical_unique(s1: Seq<TEntry>, s2: Seq<TEntry>)
    requires
        canonical(s1),
        canonical(s2),
        forall|k: u32| #[trigger] exp_of(s1, k) == exp_of(s2, k),
    ensures
        s1 == s2,
    decreases s1.len() + s2.len(),
{
    if s1.len() == 0 && s2.len() == 0 {
        assert(s1 =~= s2);
    } else if s1.len() == 0 {
        lemma_exp_at(s2, 0);
        lemma_exp_absent(s1, s2[0].key);
    } else if s2.len() == 0 {
        lemma_exp_at(s1, 0);
        lemma_exp_absent(s2, s1[0].key);
    } else {
        let l1 = s1.len() - 1;
        let l2 = s2.len() - 1;
        let k1 = s1[l1].key;
        let k2 = s2[l2].key;
        lemma_exp_at(s1, l1);
        lemma_exp_at(s2, l2);
        assert(exp_of(s2, k1) != 0);
        lemma_exp_present(s2, k1);
        assert(exp_of(s1, k2) != 0);
        lemma_exp_present(s1, k2);
        let i2 = choose|i: int| 0 <= i < s2.len() && s2[i].key == k1;
        let i1 = choose|i: int| 0 <= i < s1.len() && s1[i].key == k2;
        assert(k1 <= k2) by {
            if i2 < l2 {
                assert(s2[i2].key < s2[l2].key);
            }
        }
        assert(k2 <= k1) by {
            if i1 < l1 {
                assert(s1[i1].key < s1[l1].key);
            }
        }
        assert(s1[l1] == s2[l2]);
        let t1 = s1.drop_last();
        let t2 = s2.drop_last();
        assert forall|k: u32| #[trigger] exp_of(t1, k) == exp_of(t2, k) by {
            assert(s1.last() == s1[l1] && s2.last() == s2[l2]);
            assert(exp_of(s1, k) == exp_of(s2, k));
        }
        lemma_canonical_unique(t1, t2);
        assert(s1 =~= t1.push(s1[l1]));
        assert(s2 =~= t2.push(s2[l2]));
    }
}

impl TMap {
    /// The entries are canonical.
    pub open spec fn wf(&self) -> bool {
        canonical(self.entries@)
    }

    /// The exponent of `k`.
    pub open spec fn exp(&self, k: u32) -> int {
        exp_of(self.entries@, k)
    }

    /// The dimensionless vector: no entries.
    pub fn new() -> (r: TMap)
        ensures
            r.wf(),
            r.entries@.len() == 0,
            r@ == Map::<u32, int>::empty(),
    {
        let r = TMap { entries: Vec::new() };
        assert(r@ =~= Map::<u32, int>::empty());
        r
    }

    /// Exponent one on `key`, zero elsewhere.
    pub fn primitive(key: u32) -> (r: TMap)
        ensures
            r.wf(),
            r@ == map![key => 1int],
    {
        let r = TMap { entries: vec![TEntry { key, value: 1 }] };
        proof {
            assert forall|k: u32| #[trigger] exp_of(r.entries@, k) == if k == key { 1int } else { 0 } by {
                lemma_exp_single(TEntry { key, value: 1 }, k);
                assert(r.entries@ =~= seq![TEntry { key, value: 1 }]);
            }
        }
        assert(r@ =~= map![key => 1int]);
        r
    }

    /// Position of the first entry whose key is at least `key`.
    fn position(&self, key: u32) -> (p: usize)
        requires
            self.wf(),
        ensures
            p <= self.entries.len(),
            forall|i: int| 0 <= i < p ==> self.entries[i].key < key,
            p < self.entries.len() ==> self.entries[p as int].key >= key,
    {
        let mut p: usize = 0;
        while p < self.entries.len() && self.entries[p].key < key
            invariant
                p <= self.entries.len(),
                forall|i: int| 0 <= i < p ==> self.entries[i].key < key,
            decreases self.entries.len() - p,
        {
            p = p + 1;
        }
        p
    }

    /// The exponent of `key`.
    pub fn get(&self, key: u32) -> (r: i32)
        requires
            self.wf(),
        ensures
            r == self.exp(key),
            r == exp_in(self@, key),
    {
        let p = self.position(key);
        proof {
            let s = self.entries@;
            if p < s.len() && s[p as int].key == key {
                lemma_exp_at(s, p as int);
            } else {
                assert forall|i: int| 0 <= i < s.len() implies s[i].key != key by {
                    if i >= p {
                        assert(s[i].key >= s[p as int].key);
                    }
                }
                lemma_exp_absent(s, key);
            }
        }
        if p < self.entries.len() && self.entries[p].key == key {
            self.entries[p].value
        } else {
            0
        }
    }

    /// Adds `value` to the exponent of `key`, keeping the entries canonical.
    fn insert_add(&mut self, key: u32, value: i64)
        requires
            old(self).wf(),
            fits_i32(old(self).exp(key) + value),
        ensures
            final(self).wf(),
            forall|k: u32|
                #[trigger] final(self).exp(k) == old(self).exp(k) + if k == key {
                    value as int
                } else {
                    0
                },
    {
        let ghost s = self.entries@;
        let p = self.position(key);
        if p < self.entries.len() && self.entries[p].key == key {
            proof {
                lemma_exp_at(s, p as int);
            }
            let nv = self.entries[p].value as i64 + value;
            if nv == 0 {
                self.entries.remove(p);
                proof {
                    lemma_remove_entry(s, p as int);
                }
            } else {
                let ne = TEntry { key, value: nv as i32 };
                self.entries.set(p, ne);
                proof {
                    lemma_update_entry(s, p as int, ne);
                }
            }
        } else if value != 0 {
            proof {
                lemma_exp_absent_sorted(s, p as int, key);
            }
            let ne = TEntry { key, value: value as i32 };
            self.entries.insert(p, ne);
            proof {
                lemma_insert_entry(s, p as int, ne);
            }
        } else {
            assert forall|k: u32| #[trigger] exp_of(self.entries@, k) == exp_of(s, k) by {}
        }
    }
}

impl TMap {
    /// A copy of this vector.
    pub fn copy_entries(&self) -> (r: TMap)
        requires
            self.wf(),
        ensures
            r.wf(),
            r.entries@ == self.entries@,
    {
        let mut v: Vec<TEntry> = Vec::new();
        let mut i: usize = 0;
        while i < self.entries.len()
            invariant
                i <= self.entries.len(),
                v@ == self.entries@.subrange(0, i as int),
            decreases self.entries.len() - i,
        {
            v.push(self.entries[i]);
            i = i + 1;
        }
        assert(v@ =~= self.entries@);
        TMap { entries: v }
    }

    /// Adds the exponents of `entries` to those of `self`.
    fn add_entries(&mut self, entries: &Vec<TEntry>, negate: bool)
        requires
            old(self).wf(),
            canonical(entries@),
            forall|k: u32|
                fits_i32(
                    #[trigger] old(self).exp(k) + if negate {
                        -exp_of(entries@, k)
                    } else {
                        exp_of(entries@, k)
                    },
                ),
        ensures
            final(self).wf(),
            forall|k: u32|
                #[trigger] final(self).exp(k) == old(self).exp(k) + if negate {
                    -exp_of(entries@, k)
                } else {
                    exp_of(entries@, k)
                },
    {
        let ghost start = *self;
        let mut j: usize = 0;
        while j < entries.len()
            invariant
                j <= entries.len(),
                self.wf(),
                canonical(entries@),
                forall|k: u32|
                    fits_i32(
                        #[trigger] start.exp(k) + if negate {
                            -exp_of(entries@, k)
                        } else {
                            exp_of(entries@, k)
                        },
                    ),
                forall|k: u32|
                    #[trigger] self.exp(k) == start.exp(k) + if negate {
                        -exp_of(entries@.subrange(0, j as int), k)
                    } else {
                        exp_of(entries@.subrange(0, j as int), k)
                    },
            decreases entries.len() - j,
        {
            let e = entries[j];
            let ghost s = entries@;
            proof {
                lemma_exp_at(s, j as int);
                lemma_exp_absent_sorted(s.subrange(0, j as int), j as int, e.key);
                assert(s.subrange(0, j + 1).drop_last() =~= s.subrange(0, j as int));
            }
            let delta: i64 = if negate {
                -(e.value as i64)
            } else {
                e.value as i64
            };
            self.insert_add(e.key, delta);
            j = j + 1;
        }
        assert(entries@.subrange(0, entries.len() as int) =~= entries@);
    }

    /// Key-wise sum: `self * other` as dimensions.
    pub fn add(&self, other: &TMap) -> (r: TMap)
        requires
            self.wf(),
            other.wf(),
            forall|k: u32| fits_i32(#[trigger] self.exp(k) + other.exp(k)),
        ensures
            r.wf(),
            r@ == dim_add(self@, other@),
    {
        let mut r = self.copy_entries();
        assert forall|k: u32| fits_i32(#[trigger] r.exp(k) + exp_of(other.entries@, k)) by {
            assert(fits_i32(self.exp(k) + other.exp(k)));
        }
        r.add_entries(&other.entries, false);
        proof {
            lemma_view_exp(*self);
            lemma_view_exp(*other);
        }
        proof {
            assert forall|k: u32| exp_of(r.entries@, k) == #[trigger] exp_in(self@, k) + exp_in(other@, k) by {
                assert(r.exp(k) == self.exp(k) + other.exp(k));
            }
            lemma_dim_from_ext(
                |k: u32| exp_of(r.entries@, k),
                |k: u32| exp_in(self@, k) + exp_in(other@, k),
            );
        }
        r
    }

    /// Key-wise difference: `self / other` as dimensions.
    pub fn sub(&self, other: &TMap) -> (r: TMap)
        requires
            self.wf(),
            other.wf(),
            forall|k: u32| fits_i32(#[trigger] self.exp(k) - other.exp(k)),
        ensures
            r.wf(),
            r@ == dim_sub(self@, other@),
    {
        let mut r = self.copy_entries();
        assert forall|k: u32| fits_i32(#[trigger] r.exp(k) + -exp_of(other.entries@, k)) by {
            assert(fits_i32(self.exp(k) - other.exp(k)));
        }
        r.add_entries(&other.entries, true);
        proof {
            lemma_view_exp(*self);
            lemma_view_exp(*other);
        }
        proof {
            assert forall|k: u32| exp_of(r.entries@, k) == #[trigger] exp_in(self@, k) - exp_in(other@, k) by {
                assert(r.exp(k) == self.exp(k) + -other.exp(k));
            }
            lemma_dim_from_ext(
                |k: u32| exp_of(r.entries@, k),
                |k: u32| exp_in(self@, k) - exp_in(other@, k),
            );
        }
        r
    }

    /// Every exponent multiplied by `n`; the dimensionless vector when `n` is zero.
    pub fn mul(&self, n: i32) -> (r: TMap)
        requires
            self.wf(),
            forall|k: u32| fits_i32(#[trigger] self.exp(k) * n),
        ensures
            r.wf(),
            r@ == dim_scale(self@, n as int),
    {
        let mut v: Vec<TEntry> = Vec::new();
        if n != 0 {
            let mut i: usize = 0;
            while i < self.entries.len()
                invariant
                    n != 0,
                    i <= self.entries.len(),
                    self.wf(),
                    forall|k: u32| fits_i32(#[trigger] self.exp(k) * n),
                    v@.len() == i,
                    canonical(v@),
                    forall|t: int|
                        0 <= t < i ==> (#[trigger] v@[t]).key == self.entries@[t].key && v@[t].value
                            == self.entries@[t].value * n,
                decreases self.entries.len() - i,
            {
                let e = self.entries[i];
                proof {
                    lemma_exp_at(self.entries@, i as int);
                    assert(fits_i32(self.exp(e.key) * n));
                    assert(e.value * n != 0) by (nonlinear_arith)
                        requires
                            e.value != 0,
                            n != 0,
                    ;
                }
                let ghost before = v@;
                v.push(TEntry { key: e.key, value: e.value * n });
                proof {
                    assert forall|a: int, b: int| 0 <= a < b < v@.len() implies v@[a].key < v@[b].key by {
                        if b == i {
                            assert(v@[a].key == self.entries@[a].key);
                        } else {
                            assert(v@[a] == before[a] && v@[b] == before[b]);
                        }
                    }
                }
                i = i + 1;
            }
            proof {
                lemma_exp_scaled(self.entries@, v@, n as int);
            }
        }
        let r = TMap { entries: v };
        proof {
            if n == 0 {
                assert forall|k: u32| #[trigger] r.exp(k) == self.exp(k) * n by {
                    assert(r.entries@ =~= Seq::<TEntry>::empty());
                }
            }
            lemma_view_exp(*self);
        }
        assert(r@ =~= dim_scale(self@, n as int));
        r
    }

    /// Every exponent negated.
    pub fn neg(&self) -> (r: TMap)
        requires
            self.wf(),
            forall|k: u32| fits_i32(-#[trigger] self.exp(k)),
        ensures
            r.wf(),
            r@ == dim_neg(self@),
    {
        assert forall|k: u32| fits_i32(#[trigger] self.exp(k) * -1) by {}
        let r = self.mul(-1);
        proof {
            lemma_view_exp(*self);
            lemma_view_exp(r);
        }
        assert(r@ =~= dim_neg(self@));
        r
    }

    /// Canonical form of an arbitrary list of entries: duplicate keys merged by
    /// summing their exponents, zero exponents dropped, keys sorted.
    pub fn from_entries(entries: &Vec<TEntry>) -> (r: TMap)
        requires
            forall|i: int, k: u32|
                0 <= i <= entries.len() ==> fits_i32(#[trigger] exp_of(entries@.subrange(0, i), k)),
        ensures
            r.wf(),
            r@ == dim_from(|k: u32| exp_of(entries@, k)),
    {
        let mut r = TMap::new();
        let mut j: usize = 0;
        assert(entries@.subrange(0, 0) =~= Seq::<TEntry>::empty());
        assert(r.entries@ =~= Seq::<TEntry>::empty());
        while j < entries.len()
            invariant
                j <= entries.len(),
                r.wf(),
                forall|i: int, k: u32|
                    0 <= i <= entries.len() ==> fits_i32(#[trigger] exp_of(entries@.subrange(0, i), k)),
                forall|k: u32| #[trigger] r.exp(k) == exp_of(entries@.subrange(0, j as int), k),
            decreases entries.len() - j,
        {
            let e = entries[j];
            proof {
                assert(entries@.subrange(0, j + 1).drop_last() =~= entries@.subrange(0, j as int));
                assert(fits_i32(exp_of(entries@.subrange(0, j + 1), e.key)));
            }
            r.insert_add(e.key, e.value as i64);
            j = j + 1;
        }
        assert(entries@.subrange(0, entries.len() as int) =~= entries@);
        proof {
            assert forall|k: u32| #[trigger] exp_of(r.entries@, k) == exp_of(entries@, k) by {
                assert(r.exp(k) == exp_of(entries@.subrange(0, entries.len() as int), k));
            }
            lemma_dim_from_ext(|k: u32| exp_of(r.entries@, k), |k: u32| exp_of(entries@, k));
        }
        r
    }

    /// Whether `self` and `other` give every key the same exponent.
    pub fn same_dimension(&self, other: &TMap) -> (r: bool)
        requires
            self.wf(),
            other.wf(),
        ensures
            r == (self@ == other@),
    {
        proof {
            lemma_view_exp(*self);
            lemma_view_exp(*other);
            if self@ == other@ {
                assert forall|k: u32| #[trigger] self.exp(k) == other.exp(k) by {
                    assert(exp_in(self@, k) == exp_in(other@, k));
                }
            }
        }
        let mut i: usize = 0;
        while i < self.entries.len()
            invariant
                i <= self.entries.len(),
                self.wf(),
                other.wf(),
                forall|t: int| 0 <= t < i ==> other.exp(#[trigger] self.entries@[t].key) == self.entries@[t].value,
            decreases self.entries.len() - i,
        {
            proof {
                lemma_exp_at(self.entries@, i as int);
            }
            if other.get(self.entries[i].key) != self.entries[i].value {
                return false;
            }
            i = i + 1;
        }
        let mut j: usize = 0;
        while j < other.entries.len()
            invariant
                j <= other.entries.len(),
                self.wf(),
                other.wf(),
                forall|t: int| 0 <= t < self.entries.len() ==> other.exp(#[trigger] self.entries@[t].key) == self.entries@[t].value,
                forall|t: int| 0 <= t < j ==> self.exp(#[trigger] other.entries@[t].key) == other.entries@[t].value,
            decreases other.entries.len() - j,
        {
            proof {
                lemma_exp_at(other.entries@, j as int);
            }
            if self.get(other.entries[j].key) != other.entries[j].value {
                return false;
            }
            j = j + 1;
        }
        proof {
            assert forall|k: u32| #[trigger] self.exp(k) == other.exp(k) by {
                if exists|t: int| 0 <= t < self.entries.len() && self.entries@[t].key == k {
                    let t = choose|t: int| 0 <= t < self.entries.len() && self.entries@[t].key == k;
                    lemma_exp_at(self.entries@, t);
                } else if exists|t: int| 0 <= t < other.entries.len() && other.entries@[t].key == k {
                    let t = choose|t: int| 0 <= t < other.entries.len() && other.entries@[t].key == k;
                    lemma_exp_at(other.entries@, t);
                } else {
                    lemma_exp_absent(self.entries@, k);
                    lemma_exp_absent(other.entries@, k);
                }
            }
            assert forall|k: u32| #[trigger] exp_of(self.entries@, k) == exp_of(other.entries@, k) by {
                assert(self.exp(k) == other.exp(k));
            }
            lemma_dim_from_ext(
                |k: u32| exp_of(self.entries@, k),
                |k: u32| exp_of(other.entries@, k),
            );
        }
        true
    }
}

/// In a sorted list, a key smaller than the entry at `p` and larger than all
/// before it has exponent zero.
proof fn lemma_exp_absent_sorted(s: Seq<TEntry>, p: int, key: u32)
    requires
        0 <= p <= s.len(),
        forall|i: int| 0 <= i < p ==> s[i].key < key,
        forall|i: int, j: int| 0 <= i < j < s.len() ==> s[i].key < s[j].key,
        p < s.len() ==> s[p].key > key,
    ensures
        exp_of(s, key) == 0,
{
    assert forall|i: int| 0 <= i < s.len() implies s[i].key != key by {
        if i > p {
            assert(s[i].key > s[p].key);
        }
    }
    lemma_exp_absent(s, key);
}

/// Scaling each entry's exponent scales every key's exponent.
proof fn lemma_exp_scaled(s: Seq<TEntry>, t: Seq<TEntry>, n: int)
    requires
        s.len() == t.len(),
        forall|i: int| 0 <= i < s.len() ==> (#[trigger] t[i]).key == s[i].key && t[i].value == s[i].value * n,
    ensures
        forall|k: u32| #[trigger] exp_of(t, k) == exp_of(s, k) * n,
    decreases s.len(),
{
    if s.len() > 0 {
        lemma_exp_scaled(s.drop_last(), t.drop_last(), n);
        let l = s.len() - 1;
        assert(t.last() == t[l] && s.last() == s[l]);
        assert(t[l].key == s[l].key && t[l].value == s[l].value * n);
        assert forall|k: u32| #[trigger] exp_of(t, k) == exp_of(s, k) * n by {
            let a = exp_of(s.drop_last(), k);
            let b: int = if s.last().key == k { s.last().value as int } else { 0 };
            assert(exp_of(t.drop_last(), k) == a * n);
            assert(exp_of(s, k) == a + b);
            assert((a + b) * n == a * n + b * n) by (nonlinear_arith);
        }
    }
}

/// Adding dimension vectors is commutative.
pub proof fn lemma_add_commutative(a: TMap, b: TMap)
    requires
        a.wf(),
        b.wf(),
    ensures
        dim_add(a@, b@) == dim_add(b@, a@),
{
    assert(dim_add(a@, b@) =~= dim_add(b@, a@));
}

/// Adding dimension vectors is associative.
pub proof fn lemma_add_associative(a: TMap, b: TMap, c: TMap)
    requires
        a.wf(),
        b.wf(),
        c.wf(),
    ensures
        dim_add(dim_add(a@, b@), c@) == dim_add(a@, dim_add(b@, c@)),
{
    assert(dim_add(dim_add(a@, b@), c@) =~= dim_add(a@, dim_add(b@, c@)));
}

proof fn lemma_remove_entry(s: Seq<TEntry>, p: int)
    requires
        canonical(s),
        0 <= p < s.len(),
    ensures
        canonical(s.remove(p)),
        forall|k: u32|
            #[trigger] exp_of(s.remove(p), k) == exp_of(s, k) - if k == s[p].key {
                s[p].value as int
            } else {
                0
            },
{
    let pre = s.subrange(0, p);
    let post = s.subrange(p + 1, s.len() as int);
    assert(s =~= pre + seq![s[p]] + post);
    assert(s.remove(p) =~= pre + post);
    assert forall|k: u32|
        #[trigger] exp_of(s.remove(p), k) == exp_of(s, k) - if k == s[p].key {
            s[p].value as int
        } else {
            0
        } by {
        lemma_exp_concat(pre + seq![s[p]], post, k);
        lemma_exp_concat(pre, seq![s[p]], k);
        lemma_exp_concat(pre, post, k);
        lemma_exp_single(s[p], k);
    }
}

proof fn lemma_update_entry(s: Seq<TEntry>, p: int, ne: TEntry)
    requires
        canonical(s),
        0 <= p < s.len(),
        s[p].key == ne.key,
        ne.value != 0,
    ensures
        canonical(s.update(p, ne)),
        forall|k: u32|
            #[trigger] exp_of(s.update(p, ne), k) == exp_of(s, k) + if k == ne.key {
                ne.value - s[p].value
            } else {
                0
            },
{
    let pre = s.subrange(0, p);
    let post = s.subrange(p + 1, s.len() as int);
    assert(s =~= pre + seq![s[p]] + post);
    assert(s.update(p, ne) =~= pre + seq![ne] + post);
    assert forall|k: u32|
        #[trigger] exp_of(s.update(p, ne), k) == exp_of(s, k) + if k == ne.key {
            ne.value - s[p].value
        } else {
            0
        } by {
        lemma_exp_concat(pre + seq![s[p]], post, k);
        lemma_exp_concat(pre, seq![s[p]], k);
        lemma_exp_concat(pre + seq![ne], post, k);
        lemma_exp_concat(pre, seq![ne], k);
        lemma_exp_single(s[p], k);
        lemma_exp_single(ne, k);
    }
}

proof fn lemma_insert_entry(s: Seq<TEntry>, p: int, ne: TEntry)
    requires
        canonical(s),
        0 <= p <= s.len(),
        forall|i: int| 0 <= i < p ==> s[i].key < ne.key,
        p < s.len() ==> s[p].key > ne.key,
        ne.value != 0,
    ensures
        canonical(s.insert(p, ne)),
        forall|k: u32|
            #[trigger] exp_of(s.insert(p, ne), k) == exp_of(s, k) + if k == ne.key {
                ne.value as int
            } else {
                0
            },
{
    let pre = s.subrange(0, p);
    let post = s.subrange(p, s.len() as int);
    assert(s =~= pre + post);
    assert(s.insert(p, ne) =~= pre + seq![ne] + post);
    let t = s.insert(p, ne);
    assert forall|i: int, j: int| 0 <= i < j < t.len() implies t[i].key < t[j].key by {
        if j > p && i < p {
            assert(s[i].key < ne.key);
            assert(s[p].key > ne.key);
        }
        if j > p && i == p {
            assert(s[p].key > ne.key);
        }
    }
    assert forall|k: u32|
        #[trigger] exp_of(s.insert(p, ne), k) == exp_of(s, k) + if k == ne.key {
            ne.value as int
        } else {
            0
        } by {
        lemma_exp_concat(pre, post, k);
        lemma_exp_concat(pre + seq![ne], post, k);
        lemma_exp_concat(pre, seq![ne], k);
        lemma_exp_single(ne, k);
    }
}

/// Lookup of a key that must be present.
pub trait Get {
    /// The value is well formed.
    spec fn inv(&self) -> bool;

    /// The value stored under `key`, if one is.
    spec fn lookup(&self, key: u32) -> Option<int>;

    /// The value stored under `key`; `None` when the key is absent.
    fn entry(&self, key: u32) -> (r: Option<i32>)
        requires
            self.inv(),
        ensures
            r matches Some(v) ==> self.lookup(key) == Some(v as int),
            r is None ==> self.lookup(key) is None,
    ;
}

/// Lookup of a key with a default for an absent one.
pub trait GetOr: Get {
    /// The value stored under `key`, or `default` when the key is absent.
    fn entry_or(&self, key: u32, default: i32) -> (r: i32)
        requires
            self.inv(),
        ensures
            r == match self.lookup(key) {
                Some(v) => v,
                None => default as int,
            },
    ;
}

/// Bringing a list of entries into canonical form.
pub trait Sort {
    /// Every prefix's exponent sums fit an `i32`.
    spec fn sortable(&self) -> bool;

    /// The exponent sum the list gives to `k`.
    spec fn exponent(&self, k: u32) -> int;

    /// The canonical dimension vector with the list's exponent sums.
    fn sorted(&self) -> (r: TMap)
        requires
            self.sortable(),
        ensures
            r.wf(),
            r@ == dim_from(|k: u32| self.exponent(k)),
    ;
}

impl Get for TMap {
    open spec fn inv(&self) -> bool {
        self.wf()
    }

    open spec fn lookup(&self, key: u32) -> Option<int> {
        if self@.contains_key(key) {
            Some(self@[key])
        } else {
            None
        }
    }

    fn entry(&self, key: u32) -> (r: Option<i32>) {
        let v = self.get(key);
        if v == 0 {
            None
        } else {
            Some(v)
        }
    }
}

impl GetOr for TMap {
    fn entry_or(&self, key: u32, default: i32) -> (r: i32) {
        match self.entry(key) {
            Some(v) => v,
            None => default,
        }
    }
}

impl Sort for Vec<TEntry> {
    open spec fn sortable(&self) -> bool {
        forall|i: int, k: u32| 0 <= i <= self.len() ==> fits_i32(#[trigger] exp_of(self@.subrange(0, i), k))
    }

    open spec fn exponent(&self, k: u32) -> int {
        exp_of(self@, k)
    }

    fn sorted(&self) -> (r: TMap) {
        let r = TMap::from_entries(self);
        proof {
            lemma_dim_from_ext(|k: u32| exp_of(self@, k), |k: u32| self.exponent(k));
        }
        r
    }
}

} // verus!
