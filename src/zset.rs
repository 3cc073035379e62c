//! Weighted, ordered, immutable batches of `(key, value, weight)` tuples.
use vstd::prelude::*;

use crate::order::{
    lemma_pair_lt_asymmetric, lemma_pair_lt_transitive, lemma_pair_lt_trichotomy,
    lemma_seq_lt_asymmetric, lemma_seq_lt_trichotomy, pair_lt, seq_lt, DBData,
};

verus! {

/// The integer weight type.
pub type ZWeight = i64;

/// The model of one tuple: the key's and the value's representations and
/// the weight.
pub type ZTuple = (Seq<int>, Seq<int>, ZWeight);

pub open spec fn tuple_view<K: DBData, V: DBData>(t: (K, V, ZWeight)) -> ZTuple {
    (t.0.repr(), t.1.repr(), t.2)
}

pub open spec fn tuples_view<K: DBData, V: DBData>(s: Seq<(K, V, ZWeight)>) -> Seq<ZTuple> {
    s.map_values(|t: (K, V, ZWeight)| tuple_view(t))
}

/// The `(key, value)` part of a tuple.
pub open spec fn kv_of(t: ZTuple) -> (Seq<int>, Seq<int>) {
    (t.0, t.1)
}

/// Pairs strictly ascending: keys ascending, values ascending within a key.
pub open spec fn is_sorted(s: Seq<ZTuple>) -> bool {
    forall|i: int, j: int| 0 <= i < j < s.len() ==> #[trigger] pair_lt(kv_of(s[i]), kv_of(s[j]))
}

pub open spec fn has_no_zero(s: Seq<ZTuple>) -> bool {
    forall|i: int| 0 <= i < s.len() ==> #[trigger] s[i].2 != 0
}

/// A proper batch: strictly ordered pairs, none of weight zero.
pub open spec fn is_zset(s: Seq<ZTuple>) -> bool {
    is_sorted(s) && has_no_zero(s)
}

/// Addition in the ring of 64-bit weights (wrapping).
pub open spec fn wadd(a: ZWeight, b: ZWeight) -> ZWeight {
    if a + b > i64::MAX {
        (a + b - 0x1_0000_0000_0000_0000) as i64
    } else if a + b < i64::MIN {
        (a + b + 0x1_0000_0000_0000_0000) as i64
    } else {
        (a + b) as i64
    }
}

/// Negation in the ring of 64-bit weights (wrapping).
pub open spec fn wneg(a: ZWeight) -> ZWeight {
    if a == i64::MIN {
        a
    } else {
        (-a) as i64
    }
}

/// The total weight of the pair `(k, v)` in a sequence of tuples.
pub open spec fn weight_of(s: Seq<ZTuple>, k: Seq<int>, v: Seq<int>) -> ZWeight
    decreases s.len(),
{
    if s.len() == 0 {
        0
    } else {
        let w = weight_of(s.drop_last(), k, v);
        if s.last().0 == k && s.last().1 == v {
            wadd(w, s.last().2)
        } else {
            w
        }
    }
}

pub proof fn lemma_wadd_zero(a: ZWeight)
    ensures
        wadd(0, a) == a,
        wadd(a, 0) == a,
{
}

pub proof fn lemma_weight_push(s: Seq<ZTuple>, t: ZTuple, k: Seq<int>, v: Seq<int>)
    ensures
        weight_of(s.push(t), k, v) == if kv_of(t) == (k, v) {
            wadd(weight_of(s, k, v), t.2)
        } else {
            weight_of(s, k, v)
        },
{
    assert(s.push(t).drop_last() =~= s);
}

pub proof fn lemma_weight_absent(s: Seq<ZTuple>, k: Seq<int>, v: Seq<int>)
    requires
        forall|i: int| 0 <= i < s.len() ==> kv_of(#[trigger] s[i]) != (k, v),
    ensures
        weight_of(s, k, v) == 0,
    decreases s.len(),
{
    if s.len() > 0 {
        assert(kv_of(s[s.len() - 1]) != (k, v));
        lemma_weight_absent(s.drop_last(), k, v);
    }
}

pub proof fn lemma_weight_present(s: Seq<ZTuple>, i: int)
    requires
        is_sorted(s),
        0 <= i < s.len(),
    ensures
        weight_of(s, s[i].0, s[i].1) == s[i].2,
    decreases s.len(),
{
    let n = s.len() - 1;
    if i == n {
        assert forall|j: int| 0 <= j < s.drop_last().len() implies kv_of(
            #[trigger] s.drop_last()[j],
        ) != (s[i].0, s[i].1) by {
            assert(pair_lt(kv_of(s[j]), kv_of(s[i])));
            lemma_pair_lt_asymmetric(kv_of(s[j]), kv_of(s[i]));
        }
        lemma_weight_absent(s.drop_last(), s[i].0, s[i].1);
        lemma_wadd_zero(s[i].2);
    } else {
        assert(pair_lt(kv_of(s[i]), kv_of(s[n])));
        lemma_pair_lt_asymmetric(kv_of(s[i]), kv_of(s[n]));
        assert(s.drop_last()[i] == s[i]);
        lemma_weight_present(s.drop_last(), i);
    }
}

/// The weight of a pair in a sorted sequence: that of its entry, or zero.
pub proof fn lemma_weight_lookup(s: Seq<ZTuple>, k: Seq<int>, v: Seq<int>)
    requires
        is_sorted(s),
    ensures
        (exists|i: int| 0 <= i < s.len() && kv_of(#[trigger] s[i]) == (k, v)) || weight_of(s, k, v)
            == 0,
        forall|i: int|
            0 <= i < s.len() && kv_of(#[trigger] s[i]) == (k, v) ==> weight_of(s, k, v) == s[i].2,
{
    if !(exists|i: int| 0 <= i < s.len() && kv_of(#[trigger] s[i]) == (k, v)) {
        lemma_weight_absent(s, k, v);
    }
    assert forall|i: int|
        0 <= i < s.len() && kv_of(#[trigger] s[i]) == (k, v) implies weight_of(s, k, v)
        == s[i].2 by {
        lemma_weight_present(s, i);
    }
}

/// Three-way comparison of a stored tuple's pair with `(k, v)`.
fn compare_pair<K: DBData, V: DBData>(t: &(K, V, ZWeight), k: &K, v: &V) -> (r:
    core::cmp::Ordering)
    ensures
        (r == core::cmp::Ordering::Less) == pair_lt(
            kv_of(tuple_view(*t)),
            (k.repr(), v.repr()),
        ),
        (r == core::cmp::Ordering::Equal) == (kv_of(tuple_view(*t)) == (k.repr(), v.repr())),
        (r == core::cmp::Ordering::Greater) == pair_lt(
            (k.repr(), v.repr()),
            kv_of(tuple_view(*t)),
        ),
{
    let ghost a = (t.0.repr(), t.1.repr());
    let ghost b = (k.repr(), v.repr());
    proof {
        lemma_pair_lt_trichotomy(a, b);
        if pair_lt(a, b) {
            lemma_pair_lt_asymmetric(a, b);
        }
        if pair_lt(b, a) {
            lemma_pair_lt_asymmetric(b, a);
        }
    }
    match t.0.compare(k) {
        core::cmp::Ordering::Equal => t.1.compare(v),
        c => c,
    }
}

/// An immutable batch of `(key, value, weight)` tuples: pairs strictly
/// ascending, no weight zero.  A plain Z-set has `()` values.
pub struct OrdZSet<K, V> {
    tuples: Vec<(K, V, ZWeight)>,
}

/// An indexed Z-set: the same batch, with nontrivial values.
pub type OrdIndexedZSet<K, V> = OrdZSet<K, V>;

impl<K: DBData, V: DBData> View for OrdZSet<K, V> {
    type V = Seq<ZTuple>;

    closed spec fn view(&self) -> Seq<ZTuple> {
        tuples_view(self.tuples@)
    }
}

impl<K: DBData, V: DBData> OrdZSet<K, V> {
    pub open spec fn well_formed(&self) -> bool {
        is_zset(self@)
    }

    /// The weight of `(k, v)` in this batch (zero where absent).
    pub open spec fn weight(&self, k: Seq<int>, v: Seq<int>) -> ZWeight {
        weight_of(self@, k, v)
    }

    /// The empty batch.
    pub fn empty() -> (r: Self)
        ensures
            r.well_formed(),
            r@ == Seq::<ZTuple>::empty(),
    {
        let r = OrdZSet { tuples: Vec::new() };
        assert(r@ =~= Seq::<ZTuple>::empty());
        r
    }

    /// Adds `t` to the batch: its weight is added to that of its pair, and
    /// the pair leaves the batch where the sum is zero.
    fn insert_tuple(&mut self, t: (K, V, ZWeight))
        requires
            old(self).well_formed(),
        ensures
            final(self).well_formed(),
            forall|k: Seq<int>, v: Seq<int>|
                #[trigger] weight_of(final(self)@, k, v) == if (k, v) == kv_of(tuple_view(t)) {
                    wadd(weight_of(old(self)@, k, v), t.2)
                } else {
                    weight_of(old(self)@, k, v)
                },
    {
        let ghost s = self@;
        let ghost tv = tuple_view(t);
        let n = self.tuples.len();
        let mut p = n;
        while p > 0 && matches!(compare_pair(&self.tuples[p - 1], &t.0, &t.1), core::cmp::Ordering::Greater)
            invariant
                p <= n,
                n == self.tuples.len(),
                self@ == s,
                is_zset(s),
                tv == tuple_view(t),
                forall|i: int| p <= i < n ==> #[trigger] pair_lt(kv_of(tv), kv_of(s[i])),
            decreases p,
        {
            assert(s[p - 1] == tuple_view(self.tuples@[p - 1]));
            p = p - 1;
        }
        let ghost below = p > 0 ==> !pair_lt(kv_of(tv), kv_of(s[p - 1]));
        assert(p > 0 ==> s[p - 1] == tuple_view(self.tuples@[p - 1]));
        if p > 0 && matches!(compare_pair(&self.tuples[p - 1], &t.0, &t.1), core::cmp::Ordering::Equal) {
            let old_t = self.tuples.remove(p - 1);
            let w = old_t.2.wrapping_add(t.2);
            let ghost s1 = self@;
            assert(s1 =~= s.remove(p - 1));
            if w != 0 {
                self.tuples.insert(p - 1, (old_t.0, old_t.1, w));
                proof {
                    let s2 = self@;
                    assert(s2 =~= s.update(p - 1, (s[p - 1].0, s[p - 1].1, w)));
                    assert forall|k: Seq<int>, v: Seq<int>|
                        #[trigger] weight_of(s2, k, v) == if (k, v) == kv_of(tv) {
                            wadd(weight_of(s, k, v), t.2)
                        } else {
                            weight_of(s, k, v)
                        } by {
                        lemma_weight_lookup(s, k, v);
                        lemma_weight_lookup(s2, k, v);
                        if (k, v) == kv_of(tv) {
                            assert(kv_of(s2[p - 1]) == (k, v));
                            assert(kv_of(s[p - 1]) == (k, v));
                        } else {
                            if exists|i: int| 0 <= i < s.len() && kv_of(#[trigger] s[i]) == (k, v) {
                                let i = choose|i: int|
                                    0 <= i < s.len() && kv_of(#[trigger] s[i]) == (k, v);
                                assert(kv_of(s2[i]) == (k, v));
                            }
                            if exists|i: int|
                                0 <= i < s2.len() && kv_of(#[trigger] s2[i]) == (k, v) {
                                let i = choose|i: int|
                                    0 <= i < s2.len() && kv_of(#[trigger] s2[i]) == (k, v);
                                assert(kv_of(s[i]) == (k, v));
                            }
                        }
                    }
                }
            } else {
                proof {
                    assert forall|i: int, j: int| 0 <= i < j < s1.len() implies #[trigger] pair_lt(
                        kv_of(s1[i]),
                        kv_of(s1[j]),
                    ) by {
                        if i < p - 1 && j >= p - 1 {
                            assert(s1[j] == s[j + 1]);
                        } else if i >= p - 1 {
                            assert(s1[i] == s[i + 1] && s1[j] == s[j + 1]);
                        }
                    }
                    assert forall|k: Seq<int>, v: Seq<int>|
                        #[trigger] weight_of(s1, k, v) == if (k, v) == kv_of(tv) {
                            wadd(weight_of(s, k, v), t.2)
                        } else {
                            weight_of(s, k, v)
                        } by {
                        lemma_weight_lookup(s, k, v);
                        lemma_weight_lookup(s1, k, v);
                        if (k, v) == kv_of(tv) {
                            assert(kv_of(s[p - 1]) == (k, v));
                            assert forall|i: int| 0 <= i < s1.len() implies kv_of(#[trigger] s1[i])
                                != (k, v) by {
                                if i < p - 1 {
                                    assert(pair_lt(kv_of(s[i]), kv_of(s[p - 1])));
                                    lemma_pair_lt_asymmetric(kv_of(s[i]), kv_of(s[p - 1]));
                                } else {
                                    assert(s1[i] == s[i + 1]);
                                    assert(pair_lt(kv_of(s[p - 1]), kv_of(s[i + 1])));
                                    lemma_pair_lt_asymmetric(kv_of(s[p - 1]), kv_of(s[i + 1]));
                                }
                            }
                            lemma_weight_absent(s1, k, v);
                        } else {
                            if exists|i: int| 0 <= i < s.len() && kv_of(#[trigger] s[i]) == (k, v) {
                                let i = choose|i: int|
                                    0 <= i < s.len() && kv_of(#[trigger] s[i]) == (k, v);
                                if i < p - 1 {
                                    assert(kv_of(s1[i]) == (k, v));
                                } else {
                                    assert(i != p - 1);
                                    assert(kv_of(s1[i - 1]) == (k, v));
                                }
                            }
                            if exists|i: int|
                                0 <= i < s1.len() && kv_of(#[trigger] s1[i]) == (k, v) {
                                let i = choose|i: int|
                                    0 <= i < s1.len() && kv_of(#[trigger] s1[i]) == (k, v);
                                if i < p - 1 {
                                    assert(kv_of(s[i]) == (k, v));
                                } else {
                                    assert(kv_of(s[i + 1]) == (k, v));
                                }
                            }
                        }
                    }
                }
            }
        } else if t.2 != 0 {
            let ghost tv2 = tuple_view(t);
            self.tuples.insert(p, t);
            proof {
                let s2 = self@;
                assert(s2 =~= s.insert(p as int, tv2));
                if p > 0 {
                    lemma_pair_lt_trichotomy(kv_of(tv), kv_of(s[p - 1]));
                }
                assert forall|i: int, j: int| 0 <= i < j < s2.len() implies #[trigger] pair_lt(
                    kv_of(s2[i]),
                    kv_of(s2[j]),
                ) by {
                    if j < p {
                    } else if j == p {
                        if i < p - 1 {
                            lemma_pair_lt_transitive(kv_of(s[i]), kv_of(s[p - 1]), kv_of(tv));
                        }
                    } else if i < p {
                        assert(s2[j] == s[j - 1]);
                        if i < p - 1 {
                            lemma_pair_lt_transitive(kv_of(s[i]), kv_of(s[p - 1]), kv_of(tv));
                        }
                        lemma_pair_lt_transitive(kv_of(s[i]), kv_of(tv), kv_of(s[j - 1]));
                    } else if i == p {
                        assert(s2[j] == s[j - 1]);
                    } else {
                        assert(s2[i] == s[i - 1] && s2[j] == s[j - 1]);
                    }
                }
                assert forall|k: Seq<int>, v: Seq<int>|
                    #[trigger] weight_of(s2, k, v) == if (k, v) == kv_of(tv) {
                        wadd(weight_of(s, k, v), t.2)
                    } else {
                        weight_of(s, k, v)
                    } by {
                    lemma_weight_lookup(s, k, v);
                    lemma_weight_lookup(s2, k, v);
                    if (k, v) == kv_of(tv) {
                        assert(kv_of(s2[p as int]) == (k, v));
                        assert forall|i: int| 0 <= i < s.len() implies kv_of(#[trigger] s[i]) != (
                            k,
                            v,
                        ) by {
                            if i < p {
                                assert(pair_lt(kv_of(s2[i]), kv_of(s2[p as int])));
                                assert(s2[i] == s[i]);
                                lemma_pair_lt_asymmetric(kv_of(s[i]), kv_of(tv));
                            } else {
                                assert(pair_lt(kv_of(tv), kv_of(s[i])));
                                lemma_pair_lt_asymmetric(kv_of(tv), kv_of(s[i]));
                            }
                        }
                        lemma_weight_absent(s, k, v);
                        lemma_wadd_zero(t.2);
                    } else {
                        if exists|i: int| 0 <= i < s.len() && kv_of(#[trigger] s[i]) == (k, v) {
                            let i = choose|i: int|
                                0 <= i < s.len() && kv_of(#[trigger] s[i]) == (k, v);
                            if i < p {
                                assert(kv_of(s2[i]) == (k, v));
                            } else {
                                assert(kv_of(s2[i + 1]) == (k, v));
                            }
                        }
                        if exists|i: int| 0 <= i < s2.len() && kv_of(#[trigger] s2[i]) == (k, v) {
                            let i = choose|i: int|
                                0 <= i < s2.len() && kv_of(#[trigger] s2[i]) == (k, v);
                            if i < p {
                                assert(kv_of(s[i]) == (k, v));
                            } else {
                                assert(i != p);
                                assert(kv_of(s[i - 1]) == (k, v));
                            }
                        }
                    }
                }
            }
        } else {
            proof {
                assert forall|k: Seq<int>, v: Seq<int>|
                    #[trigger] weight_of(s, k, v) == if (k, v) == kv_of(tv) {
                        wadd(weight_of(s, k, v), t.2)
                    } else {
                        weight_of(s, k, v)
                    } by {
                    lemma_wadd_zero(weight_of(s, k, v));
                }
            }
        }
    }

    /// Builds a batch from unordered tuples: the weights of equal pairs are
    /// summed, and pairs whose sum is zero are dropped.
    pub fn from_tuples(tuples: Vec<(K, V, ZWeight)>) -> (r: Self)
        ensures
            r.well_formed(),
            forall|k: Seq<int>, v: Seq<int>|
                #[trigger] r.weight(k, v) == weight_of(tuples_view(tuples@), k, v),
    {
        let ghost input = tuples_view(tuples@);
        let mut r = Self::empty();
        let mut rest = tuples;
        proof {
            assert(input.subrange(0, 0) =~= Seq::<ZTuple>::empty());
        }
        let mut stack: Vec<(K, V, ZWeight)> = Vec::new();
        assert(input.len() == rest.len());
        while rest.len() > 0
            invariant
                input == tuples_view(tuples@),
                input.len() <= usize::MAX,
                rest@.len() + stack@.len() == input.len(),
                forall|i: int| 0 <= i < rest@.len() ==> tuple_view(#[trigger] rest@[i]) == input[i],
                forall|i: int|
                    0 <= i < stack@.len() ==> tuple_view(#[trigger] stack@[i]) == input[input.len()
                        - 1 - i],
            decreases rest.len(),
        {
            let t = rest.pop().unwrap();
            stack.push(t);
        }
        let mut i: usize = 0;
        while stack.len() > 0
            invariant
                input == tuples_view(tuples@),
                input.len() <= usize::MAX,
                stack@.len() + i == input.len(),
                forall|j: int|
                    0 <= j < stack@.len() ==> tuple_view(#[trigger] stack@[j]) == input[input.len()
                        - 1 - j],
                r.well_formed(),
                forall|k: Seq<int>, v: Seq<int>|
                    #[trigger] r.weight(k, v) == weight_of(input.subrange(0, i as int), k, v),
            decreases stack.len(),
        {
            let t = stack.pop().unwrap();
            let ghost r_prev = r;
            let ghost r_old = r@;
            r.insert_tuple(t);
            proof {
                assert(tuple_view(t) == input[i as int]);
                assert(input.subrange(0, i + 1) =~= input.subrange(0, i as int).push(input[i as int]));
                assert forall|k: Seq<int>, v: Seq<int>|
                    #[trigger] r.weight(k, v) == weight_of(input.subrange(0, i + 1), k, v) by {
                    lemma_weight_push(input.subrange(0, i as int), input[i as int], k, v);
                    assert(r_prev.weight(k, v) == weight_of(input.subrange(0, i as int), k, v));
                    assert(weight_of(r@, k, v) == if (k, v) == kv_of(tuple_view(t)) {
                        wadd(weight_of(r_old, k, v), t.2)
                    } else {
                        weight_of(r_old, k, v)
                    });
                }
            }
            i = i + 1;
        }
        proof {
            assert(input.subrange(0, i as int) =~= input);
        }
        r
    }


    /// Starts an incremental merge of `self` and `other`.
    pub fn begin_merge(&self, other: &Self) -> (r: OrdZSetMerger<K, V>)
        requires
            self.well_formed(),
            other.well_formed(),
        ensures
            r.well_formed(),
            r.sources() == (self@, other@),
            r.consumed() == 0,
            r.pushed() == 0,
    {
        OrdZSetMerger::new_merger(self, other)
    }

    /// The sum of two batches: the weights of equal pairs are added, and
    /// pairs whose sum is zero are dropped.
    pub fn add_by_ref(&self, other: &Self) -> (r: Self)
        requires
            self.well_formed(),
            other.well_formed(),
        ensures
            r.well_formed(),
            forall|k: Seq<int>, v: Seq<int>|
                #[trigger] r.weight(k, v) == wadd(self.weight(k, v), other.weight(k, v)),
    {
        let mut merger = self.begin_merge(other);
        while !merger.is_complete(self, other)
            invariant
                merger.well_formed(),
                merger.sources() == (self@, other@),
            decreases merger.total() - merger.consumed(),
        {
            merger.step(self, other);
        }
        merger.done()
    }

    /// The sum of two batches, taking both.
    pub fn add(self, other: Self) -> (r: Self)
        requires
            self.well_formed(),
            other.well_formed(),
        ensures
            r.well_formed(),
            forall|k: Seq<int>, v: Seq<int>|
                #[trigger] r.weight(k, v) == wadd(self.weight(k, v), other.weight(k, v)),
    {
        self.add_by_ref(&other)
    }

    /// Adds `other`, taken, into `self`.
    pub fn add_assign(&mut self, other: Self)
        requires
            old(self).well_formed(),
            other.well_formed(),
        ensures
            final(self).well_formed(),
            forall|k: Seq<int>, v: Seq<int>|
                #[trigger] final(self).weight(k, v) == wadd(old(self).weight(k, v), other.weight(k, v)),
    {
        self.add_assign_by_ref(&other);
    }

    /// Adds `other` into `self`.
    pub fn add_assign_by_ref(&mut self, other: &Self)
        requires
            old(self).well_formed(),
            other.well_formed(),
        ensures
            final(self).well_formed(),
            forall|k: Seq<int>, v: Seq<int>|
                #[trigger] final(self).weight(k, v) == wadd(old(self).weight(k, v), other.weight(k, v)),
    {
        let sum = self.add_by_ref(other);
        *self = sum;
    }


    /// The pairs of positive weight, each with weight 1.
    pub fn distinct(&self) -> (r: Self)
        requires
            self.well_formed(),
        ensures
            r.well_formed(),
            r@ == distinct_of(self@),
    {
        let ghost s = self@;
        let mut out: Vec<(K, V, ZWeight)> = Vec::new();
        let n = self.tuples.len();
        let mut i: usize = 0;
        while i < n
            invariant
                n == s.len(),
                s == self@,
                i <= n,
                tuples_view(out@) == distinct_of(s.subrange(0, i as int)),
            decreases n - i,
        {
            let t = &self.tuples[i];
            proof {
                assert(s.subrange(0, i + 1).drop_last() =~= s.subrange(0, i as int));
                assert(s[i as int] == tuple_view(*t));
            }
            if t.2 > 0 {
                let x = (t.0.duplicate(), t.1.duplicate(), 1i64);
                out.push(x);
                assert(tuples_view(out@) =~= distinct_of(s.subrange(0, i as int)).push(
                    tuple_view(x),
                ));
            }
            i = i + 1;
        }
        proof {
            assert(s.subrange(0, n as int) =~= s);
            lemma_distinct_is_zset(s);
        }
        OrdZSet { tuples: out }
    }

    /// Like `distinct`, on an owned batch.
    pub fn distinct_owned(self) -> (r: Self)
        requires
            self.well_formed(),
        ensures
            r.well_formed(),
            r@ == distinct_of(self@),
    {
        self.distinct()
    }

    /// The batch with every weight negated.
    pub fn neg_by_ref(&self) -> (r: Self)
        requires
            self.well_formed(),
        ensures
            r.well_formed(),
            r@ == negated(self@),
    {
        let ghost s = self@;
        let mut out: Vec<(K, V, ZWeight)> = Vec::new();
        let n = self.tuples.len();
        let mut i: usize = 0;
        while i < n
            invariant
                n == s.len(),
                s == self@,
                i <= n,
                tuples_view(out@) == negated(s).subrange(0, i as int),
            decreases n - i,
        {
            let t = &self.tuples[i];
            let x = (t.0.duplicate(), t.1.duplicate(), 0i64.wrapping_sub(t.2));
            let ghost prev = out@;
            out.push(x);
            proof {
                assert(tuples_view(out@) =~= tuples_view(prev).push(tuple_view(x)));
                assert(s[i as int] == tuple_view(*t));
                assert(tuple_view(x) == (s[i as int].0, s[i as int].1, wneg(s[i as int].2)));
                assert(tuples_view(out@) =~= negated(s).subrange(0, i + 1));
            }
            i = i + 1;
        }
        proof {
            let ng = negated(s);
            assert(ng.subrange(0, n as int) =~= ng);
            assert forall|i: int, j: int| 0 <= i < j < ng.len() implies #[trigger] pair_lt(
                kv_of(ng[i]),
                kv_of(ng[j]),
            ) by {
                assert(pair_lt(kv_of(s[i]), kv_of(s[j])));
            }
            assert forall|i: int| 0 <= i < ng.len() implies #[trigger] ng[i].2 != 0 by {
                assert(s[i].2 != 0);
            }
        }
        OrdZSet { tuples: out }
    }

    /// The batch with every weight negated.
    pub fn neg(self) -> (r: Self)
        requires
            self.well_formed(),
        ensures
            r.well_formed(),
            r@ == negated(self@),
    {
        self.neg_by_ref()
    }

    /// Stores in `sum` the sum of all weights of the batch.
    pub fn weighted_count(&self, sum: &mut ZWeight)
        ensures
            *final(sum) == total_weight(self@),
    {
        let ghost s = self@;
        *sum = 0;
        let n = self.tuples.len();
        let mut i: usize = 0;
        while i < n
            invariant
                n == s.len(),
                s == self@,
                i <= n,
                *sum == total_weight(s.subrange(0, i as int)),
            decreases n - i,
        {
            proof {
                assert(s.subrange(0, i + 1) =~= s.subrange(0, i as int).push(s[i as int]));
                lemma_total_weight_push(s.subrange(0, i as int), s[i as int]);
                assert(s[i as int] == tuple_view(self.tuples@[i as int]));
            }
            *sum = sum.wrapping_add(self.tuples[i].2);
            i = i + 1;
        }
        proof {
            assert(s.subrange(0, n as int) =~= s);
        }
    }

    /// Batches have no time to coalesce: this leaves the batch unchanged.
    pub fn recede_to(&mut self, frontier: &())
        ensures
            *final(self) == *old(self),
    {
    }


    /// A cursor at the first key of the batch.
    pub fn cursor(&self) -> (r: OrdZSetCursor<'_, K, V>)
        requires
            self.well_formed(),
        ensures
            r.well_formed(),
            r.data() == self@,
            r.key_index() == 0,
            r.val_index() == 0,
    {
        OrdZSetCursor::at_key(self, 0)
    }

    /// An iterator over all tuples of the batch, in order.
    pub fn iter(&self) -> (r: IndexedZSetIterator<'_, K, V>)
        requires
            self.well_formed(),
        ensures
            r.well_formed(),
            r.data() == self@,
            r.position() == 0,
    {
        let c = self.cursor();
        proof {
            if self@.len() > 0 {
                lemma_group_end(self@, 0);
            }
        }
        IndexedZSetIterator::new(c)
    }


    /// A walk that takes ownership of the tuples, in order.
    pub fn consumer(self) -> (r: OrdZSetConsumer<K, V>)
        ensures
            r.remaining() == self@,
    {
        let ghost s = self@;
        let mut tuples = self.tuples;
        let mut stack: Vec<(K, V, ZWeight)> = Vec::new();
        while tuples.len() > 0
            invariant
                s.len() == tuples@.len() + stack@.len(),
                forall|i: int| 0 <= i < tuples@.len() ==> tuple_view(#[trigger] tuples@[i]) == s[i],
                forall|i: int|
                    0 <= i < stack@.len() ==> tuple_view(#[trigger] stack@[i]) == s[s.len() - 1
                        - i],
            decreases tuples.len(),
        {
            let t = tuples.pop().unwrap();
            stack.push(t);
        }
        let r = OrdZSetConsumer { stack };
        assert(r.remaining() =~= s);
        r
    }

    /// The number of distinct keys.
    pub fn key_count(&self) -> (r: usize)
        requires
            self.well_formed(),
        ensures
            r == distinct_keys(self@),
    {
        let n = self.tuples.len();
        let mut count: usize = 0;
        let mut i: usize = 0;
        while i < n
            invariant
                n == self@.len(),
                i <= n,
                count == distinct_keys(self@.subrange(0, i as int)),
                count <= i,
            decreases n - i,
        {
            let fresh = i == 0 || !matches!(self.tuples[i - 1].0.compare(&self.tuples[i].0), core::cmp::Ordering::Equal);
            proof {
                let s = self@;
                assert(s.subrange(0, i + 1).drop_last() =~= s.subrange(0, i as int));
                assert(s[i as int] == tuple_view(self.tuples@[i as int]));
                if i > 0 {
                    assert(s[i - 1] == tuple_view(self.tuples@[i - 1]));
                }
            }
            if fresh {
                count = count + 1;
            }
            i = i + 1;
        }
        proof {
            assert(self@.subrange(0, n as int) =~= self@);
        }
        count
    }

    /// The number of tuples.
    pub fn len(&self) -> (r: usize)
        ensures
            r == self@.len(),
    {
        self.tuples.len()
    }

    pub fn is_empty(&self) -> (r: bool)
        ensures
            r == (self@.len() == 0),
    {
        self.tuples.len() == 0
    }
}


/// The state of a merge between `a` and `b` after consuming `a[..c1]` and
/// `b[..c2]` into `r`.
pub open spec fn merge_inv(r: Seq<ZTuple>, a: Seq<ZTuple>, b: Seq<ZTuple>, c1: int, c2: int) -> bool {
    &&& is_zset(a)
    &&& is_zset(b)
    &&& 0 <= c1 <= a.len()
    &&& 0 <= c2 <= b.len()
    &&& is_zset(r)
    &&& forall|k: Seq<int>, v: Seq<int>|
        #[trigger] weight_of(r, k, v) == wadd(
            weight_of(a.subrange(0, c1), k, v),
            weight_of(b.subrange(0, c2), k, v),
        )
    &&& forall|i: int, j: int|
        0 <= i < r.len() && c1 <= j < a.len() ==> #[trigger] pair_lt(kv_of(r[i]), kv_of(a[j]))
    &&& forall|i: int, j: int|
        0 <= i < r.len() && c2 <= j < b.len() ==> #[trigger] pair_lt(kv_of(r[i]), kv_of(b[j]))
    &&& forall|i: int, j: int|
        0 <= i < c1 && c2 <= j < b.len() ==> #[trigger] pair_lt(kv_of(a[i]), kv_of(b[j]))
    &&& forall|i: int, j: int|
        0 <= i < c2 && c1 <= j < a.len() ==> #[trigger] pair_lt(kv_of(b[i]), kv_of(a[j]))
}

/// Pushing the next tuple of a merge keeps the state consistent.
proof fn lemma_merge_push(
    r: Seq<ZTuple>,
    a: Seq<ZTuple>,
    b: Seq<ZTuple>,
    c1: int,
    c2: int,
    q1: int,
    q2: int,
    t: Option<ZTuple>,
)
    requires
        merge_inv(r, a, b, c1, c2),
        (q1 == c1 + 1 && q2 == c2 && c1 < a.len() && (c2 < b.len() ==> pair_lt(
            kv_of(a[c1]),
            kv_of(b[c2]),
        )) && t == Some(a[c1])) || (q1 == c1 && q2 == c2 + 1 && c2 < b.len() && (c1 < a.len()
            ==> pair_lt(kv_of(b[c2]), kv_of(a[c1]))) && t == Some(b[c2])) || (q1 == c1 + 1 && q2
            == c2 + 1 && c1 < a.len() && c2 < b.len() && kv_of(a[c1]) == kv_of(b[c2]) && t == (if wadd(
            a[c1].2,
            b[c2].2,
        ) == 0 {
            None::<ZTuple>
        } else {
            Some((a[c1].0, a[c1].1, wadd(a[c1].2, b[c2].2)))
        })),
    ensures
        merge_inv(
            match t {
                Some(x) => r.push(x),
                None => r,
            },
            a,
            b,
            q1,
            q2,
        ),
{
    let r2 = match t {
        Some(x) => r.push(x),
        None => r,
    };
    let a1 = a.subrange(0, c1);
    let b1 = b.subrange(0, c2);
    let a2 = a.subrange(0, q1);
    let b2 = b.subrange(0, q2);
    // the pair being consumed
    let c = if q1 == c1 + 1 {
        a[c1]
    } else {
        b[c2]
    };
    let kc = kv_of(c);
    // consumed prefixes hold no entry for the pair being consumed
    assert forall|i: int| 0 <= i < a1.len() implies kv_of(#[trigger] a1[i]) != kc by {
        if q1 == c1 + 1 {
            assert(pair_lt(kv_of(a[i]), kv_of(a[c1])));
            lemma_pair_lt_asymmetric(kv_of(a[i]), kv_of(a[c1]));
        } else {
            assert(pair_lt(kv_of(a[i]), kv_of(b[c2])));
            lemma_pair_lt_asymmetric(kv_of(a[i]), kv_of(b[c2]));
        }
    }
    assert forall|i: int| 0 <= i < b1.len() implies kv_of(#[trigger] b1[i]) != kc by {
        if q2 == c2 + 1 {
            assert(pair_lt(kv_of(b[i]), kv_of(b[c2])));
            lemma_pair_lt_asymmetric(kv_of(b[i]), kv_of(b[c2]));
        } else {
            assert(pair_lt(kv_of(b[i]), kv_of(a[c1])));
            lemma_pair_lt_asymmetric(kv_of(b[i]), kv_of(a[c1]));
        }
    }
    lemma_weight_absent(a1, kc.0, kc.1);
    lemma_weight_absent(b1, kc.0, kc.1);
    if q1 == c1 + 1 {
        assert(a2 =~= a1.push(a[c1]));
    } else {
        assert(a2 =~= a1);
    }
    if q2 == c2 + 1 {
        assert(b2 =~= b1.push(b[c2]));
    } else {
        assert(b2 =~= b1);
    }
    assert forall|k: Seq<int>, v: Seq<int>|
        #[trigger] weight_of(r2, k, v) == wadd(weight_of(a2, k, v), weight_of(b2, k, v)) by {
        if q1 == c1 + 1 {
            lemma_weight_push(a1, a[c1], k, v);
        }
        if q2 == c2 + 1 {
            lemma_weight_push(b1, b[c2], k, v);
        }
        if let Some(x) = t {
            lemma_weight_push(r, x, k, v);
        }
        assert(weight_of(r, k, v) == wadd(weight_of(a1, k, v), weight_of(b1, k, v)));
        if (k, v) == kc {
            lemma_wadd_zero(0);
            lemma_wadd_zero(a[c1].2);
            lemma_wadd_zero(b[c2].2);
            lemma_wadd_zero(weight_of(a2, k, v));
            lemma_wadd_zero(weight_of(b2, k, v));
        }
    }
    // ordering of the result
    if let Some(x) = t {
        assert(kv_of(x) == kc);
        assert forall|i: int, j: int| 0 <= i < j < r2.len() implies #[trigger] pair_lt(
            kv_of(r2[i]),
            kv_of(r2[j]),
        ) by {
            if j == r.len() {
                assert(r2[i] == r[i]);
                if q1 == c1 + 1 {
                    assert(pair_lt(kv_of(r[i]), kv_of(a[c1])));
                } else {
                    assert(pair_lt(kv_of(r[i]), kv_of(b[c2])));
                }
            }
        }
    }
    assert forall|i: int, j: int| 0 <= i < r2.len() && q1 <= j < a.len() implies #[trigger] pair_lt(
        kv_of(r2[i]),
        kv_of(a[j]),
    ) by {
        if i < r.len() {
            assert(r2[i] == r[i]);
        } else {
            if q1 == c1 + 1 {
                assert(pair_lt(kv_of(a[c1]), kv_of(a[j])));
            } else {
                assert(pair_lt(kv_of(b[c2]), kv_of(a[c1])));
                if j > c1 {
                    lemma_pair_lt_transitive(kv_of(b[c2]), kv_of(a[c1]), kv_of(a[j]));
                }
            }
        }
    }
    assert forall|i: int, j: int| 0 <= i < r2.len() && q2 <= j < b.len() implies #[trigger] pair_lt(
        kv_of(r2[i]),
        kv_of(b[j]),
    ) by {
        if i < r.len() {
            assert(r2[i] == r[i]);
        } else {
            if q2 == c2 + 1 {
                assert(pair_lt(kv_of(b[c2]), kv_of(b[j])));
            } else {
                assert(pair_lt(kv_of(a[c1]), kv_of(b[c2])));
                if j > c2 {
                    lemma_pair_lt_transitive(kv_of(a[c1]), kv_of(b[c2]), kv_of(b[j]));
                }
            }
        }
    }
    assert forall|i: int, j: int| 0 <= i < q1 && q2 <= j < b.len() implies #[trigger] pair_lt(
        kv_of(a[i]),
        kv_of(b[j]),
    ) by {
        if i == c1 && q1 == c1 + 1 {
            if q2 == c2 {
                if j > c2 {
                    lemma_pair_lt_transitive(kv_of(a[c1]), kv_of(b[c2]), kv_of(b[j]));
                }
            } else {
                assert(pair_lt(kv_of(b[c2]), kv_of(b[j])));
            }
        }
    }
    assert forall|i: int, j: int| 0 <= i < q2 && q1 <= j < a.len() implies #[trigger] pair_lt(
        kv_of(b[i]),
        kv_of(a[j]),
    ) by {
        if i == c2 && q2 == c2 + 1 {
            if q1 == c1 {
                if j > c1 {
                    lemma_pair_lt_transitive(kv_of(b[c2]), kv_of(a[c1]), kv_of(a[j]));
                }
            } else {
                assert(pair_lt(kv_of(a[c1]), kv_of(a[j])));
            }
        }
    }
}

/// An in-progress merge of two batches.
pub struct OrdZSetMerger<K, V> {
    result: Vec<(K, V, ZWeight)>,
    pos1: usize,
    pos2: usize,
    sources: Ghost<(Seq<ZTuple>, Seq<ZTuple>)>,
}

impl<K: DBData, V: DBData> OrdZSetMerger<K, V> {
    /// The two batches being merged.
    pub closed spec fn sources(&self) -> (Seq<ZTuple>, Seq<ZTuple>) {
        self.sources@
    }

    /// The number of tuples pushed into the result so far.
    pub closed spec fn pushed(&self) -> int {
        self.result@.len() as int
    }

    /// The number of source tuples consumed so far.
    pub closed spec fn consumed(&self) -> int {
        self.pos1 + self.pos2
    }

    pub closed spec fn well_formed(&self) -> bool {
        merge_inv(
            tuples_view(self.result@),
            self.sources@.0,
            self.sources@.1,
            self.pos1 as int,
            self.pos2 as int,
        )
    }

    pub open spec fn total(&self) -> int {
        self.sources().0.len() + self.sources().1.len() as int
    }

    /// Starts merging `batch1` and `batch2`.
    pub fn new_merger(batch1: &OrdZSet<K, V>, batch2: &OrdZSet<K, V>) -> (r: Self)
        requires
            batch1.well_formed(),
            batch2.well_formed(),
        ensures
            r.well_formed(),
            r.sources() == (batch1@, batch2@),
            r.consumed() == 0,
            r.pushed() == 0,
    {
        let r = OrdZSetMerger {
            result: Vec::new(),
            pos1: 0,
            pos2: 0,
            sources: Ghost((batch1@, batch2@)),
        };
        proof {
            assert(tuples_view(r.result@) =~= Seq::<ZTuple>::empty());
            assert(batch1@.subrange(0, 0) =~= Seq::<ZTuple>::empty());
            assert(batch2@.subrange(0, 0) =~= Seq::<ZTuple>::empty());
            assert forall|k: Seq<int>, v: Seq<int>|
                #[trigger] weight_of(tuples_view(r.result@), k, v) == wadd(
                    weight_of(batch1@.subrange(0, 0), k, v),
                    weight_of(batch2@.subrange(0, 0), k, v),
                ) by {
                lemma_wadd_zero(0);
            }
        }
        r
    }

    /// Whether every source tuple has been consumed.
    pub fn is_complete(&self, source1: &OrdZSet<K, V>, source2: &OrdZSet<K, V>) -> (r: bool)
        requires
            self.well_formed(),
            self.sources() == (source1@, source2@),
        ensures
            r == (self.consumed() == self.total()),
    {
        self.pos1 == source1.tuples.len() && self.pos2 == source2.tuples.len()
    }

    /// Consumes one tuple of either source, or a pair of equal ones.
    fn step(&mut self, source1: &OrdZSet<K, V>, source2: &OrdZSet<K, V>)
        requires
            old(self).well_formed(),
            old(self).sources() == (source1@, source2@),
            old(self).consumed() < old(self).total(),
        ensures
            final(self).well_formed(),
            final(self).sources() == old(self).sources(),
            old(self).consumed() < final(self).consumed() <= old(self).consumed() + 2,
            old(self).pushed() <= final(self).pushed() <= old(self).pushed() + 1,
    {
        let ghost r = tuples_view(self.result@);
        let ghost a = source1@;
        let ghost b = source2@;
        let ghost c1 = self.pos1 as int;
        let ghost c2 = self.pos2 as int;
        let n1 = source1.tuples.len();
        let n2 = source2.tuples.len();
        if self.pos1 < n1 {
            assert(a[c1] == tuple_view(source1.tuples@[c1]));
        }
        if self.pos2 < n2 {
            assert(b[c2] == tuple_view(source2.tuples@[c2]));
        }
        let choice: u8 = if self.pos1 == n1 {
            2
        } else if self.pos2 == n2 {
            1
        } else {
            let t2 = &source2.tuples[self.pos2];
            match compare_pair(&source1.tuples[self.pos1], &t2.0, &t2.1) {
                core::cmp::Ordering::Less => 1,
                core::cmp::Ordering::Greater => 2,
                core::cmp::Ordering::Equal => 3,
            }
        };
        if choice == 1 {
            let t = &source1.tuples[self.pos1];
            let x = (t.0.duplicate(), t.1.duplicate(), t.2);
            proof {
                lemma_merge_push(r, a, b, c1, c2, c1 + 1, c2, Some(tuple_view(x)));
            }
            self.result.push(x);
            self.pos1 = self.pos1 + 1;
            assert(tuples_view(self.result@) =~= r.push(tuple_view(x)));
        } else if choice == 2 {
            let t = &source2.tuples[self.pos2];
            let x = (t.0.duplicate(), t.1.duplicate(), t.2);
            proof {
                lemma_merge_push(r, a, b, c1, c2, c1, c2 + 1, Some(tuple_view(x)));
            }
            self.result.push(x);
            self.pos2 = self.pos2 + 1;
            assert(tuples_view(self.result@) =~= r.push(tuple_view(x)));
        } else {
            let t = &source1.tuples[self.pos1];
            let w = t.2.wrapping_add(source2.tuples[self.pos2].2);
            if w == 0 {
                proof {
                    lemma_merge_push(r, a, b, c1, c2, c1 + 1, c2 + 1, None);
                }
            } else {
                let x = (t.0.duplicate(), t.1.duplicate(), w);
                proof {
                    lemma_merge_push(r, a, b, c1, c2, c1 + 1, c2 + 1, Some(tuple_view(x)));
                }
                self.result.push(x);
                assert(tuples_view(self.result@) =~= r.push(tuple_view(x)));
            }
            self.pos1 = self.pos1 + 1;
            self.pos2 = self.pos2 + 1;
        }
    }

    /// Performs a bounded amount of merging.  `fuel` is decreased by the
    /// number of tuples pushed into the result, and never drops below 1.
    pub fn work(&mut self, source1: &OrdZSet<K, V>, source2: &OrdZSet<K, V>, fuel: &mut isize)
        requires
            old(self).well_formed(),
            old(self).sources() == (source1@, source2@),
        ensures
            final(self).well_formed(),
            final(self).sources() == old(self).sources(),
            old(self).consumed() <= final(self).consumed(),
            old(self).pushed() <= final(self).pushed(),
            final(self).consumed() == final(self).total() || final(self).pushed() - old(
                self,
            ).pushed() >= *old(fuel),
            *final(fuel) == if *old(fuel) - (final(self).pushed() - old(self).pushed()) < 1 {
                1
            } else {
                *old(fuel) - (final(self).pushed() - old(self).pushed())
            },
    {
        let start: usize = self.result.len();
        let budget: isize = *fuel;
        let mut used: usize = 0;
        while (used as i128) < budget as i128 && !(self.pos1 == source1.tuples.len() && self.pos2
            == source2.tuples.len())
            invariant
                self.well_formed(),
                self.sources() == (source1@, source2@),
                self.pushed() == start + used,
                start == old(self).pushed(),
                old(self).consumed() <= self.consumed(),
                budget == *old(fuel),
                self.pos1 <= self.sources().0.len(),
                self.pos2 <= self.sources().1.len(),
            decreases self.total() - self.consumed(),
        {
            self.step(source1, source2);
            used = self.result.len() - start;
        }
        let rest: i128 = budget as i128 - used as i128;
        *fuel = if rest < 1 {
            1
        } else {
            rest as isize
        };
    }

    /// Finishes a complete merge.
    pub fn done(self) -> (r: OrdZSet<K, V>)
        requires
            self.well_formed(),
            self.consumed() == self.total(),
        ensures
            r.well_formed(),
            forall|k: Seq<int>, v: Seq<int>|
                #[trigger] r.weight(k, v) == wadd(
                    weight_of(self.sources().0, k, v),
                    weight_of(self.sources().1, k, v),
                ),
    {
        proof {
            assert(self.sources@.0.subrange(0, self.pos1 as int) =~= self.sources@.0);
            assert(self.sources@.1.subrange(0, self.pos2 as int) =~= self.sources@.1);
        }
        OrdZSet { tuples: self.result }
    }
}


/// The pairs of positive weight, each with weight 1.
pub open spec fn distinct_of(s: Seq<ZTuple>) -> Seq<ZTuple>
    decreases s.len(),
{
    if s.len() == 0 {
        s
    } else {
        let r = distinct_of(s.drop_last());
        if s.last().2 > 0 {
            r.push((s.last().0, s.last().1, 1))
        } else {
            r
        }
    }
}

/// The weights of a sequence negated.
pub open spec fn negated(s: Seq<ZTuple>) -> Seq<ZTuple> {
    s.map_values(|t: ZTuple| (t.0, t.1, wneg(t.2)))
}

/// The sum of all weights of a sequence.
pub open spec fn total_weight(s: Seq<ZTuple>) -> ZWeight
    decreases s.len(),
{
    if s.len() == 0 {
        0
    } else {
        wadd(total_weight(s.drop_last()), s.last().2)
    }
}

proof fn lemma_distinct_members(s: Seq<ZTuple>)
    ensures
        forall|i: int|
            0 <= i < distinct_of(s).len() ==> (#[trigger] distinct_of(s)[i]).2 == 1 && exists|j: int|
                0 <= j < s.len() && kv_of(#[trigger] s[j]) == kv_of(distinct_of(s)[i]),
        distinct_of(s).len() <= s.len(),
    decreases s.len(),
{
    if s.len() > 0 {
        let p = s.drop_last();
        lemma_distinct_members(p);
        let r = distinct_of(p);
        assert forall|i: int| 0 <= i < distinct_of(s).len() implies (#[trigger] distinct_of(
            s,
        )[i]).2 == 1 && exists|j: int|
            0 <= j < s.len() && kv_of(#[trigger] s[j]) == kv_of(distinct_of(s)[i]) by {
            if i < r.len() {
                assert(distinct_of(s)[i] == r[i]);
                let j = choose|j: int| 0 <= j < p.len() && kv_of(#[trigger] p[j]) == kv_of(r[i]);
                assert(s[j] == p[j]);
            } else {
                assert(kv_of(s[s.len() - 1]) == kv_of(distinct_of(s)[i]));
            }
        }
    }
}

proof fn lemma_distinct_is_zset(s: Seq<ZTuple>)
    requires
        is_sorted(s),
    ensures
        is_zset(distinct_of(s)),
    decreases s.len(),
{
    lemma_distinct_members(s);
    if s.len() > 0 {
        let p = s.drop_last();
        assert(is_sorted(p));
        lemma_distinct_is_zset(p);
        lemma_distinct_members(p);
        let r = distinct_of(p);
        let d = distinct_of(s);
        assert forall|i: int, j: int| 0 <= i < j < d.len() implies #[trigger] pair_lt(
            kv_of(d[i]),
            kv_of(d[j]),
        ) by {
            if j >= r.len() {
                assert(d[i] == r[i]);
                let m = choose|m: int| 0 <= m < p.len() && kv_of(#[trigger] p[m]) == kv_of(r[i]);
                assert(pair_lt(kv_of(s[m]), kv_of(s[s.len() - 1])));
            } else {
                assert(d[i] == r[i] && d[j] == r[j]);
            }
        }
    }
}

/// Distinct is idempotent, and every weight it leaves is 1.
pub proof fn lemma_distinct_idempotent(s: Seq<ZTuple>)
    ensures
        distinct_of(distinct_of(s)) == distinct_of(s),
        forall|i: int| 0 <= i < distinct_of(s).len() ==> (#[trigger] distinct_of(s)[i]).2 == 1,
    decreases s.len(),
{
    lemma_distinct_members(s);
    if s.len() > 0 {
        let p = s.drop_last();
        lemma_distinct_idempotent(p);
        let r = distinct_of(p);
        if s.last().2 > 0 {
            let t = (s.last().0, s.last().1, 1i64);
            assert(r.push(t).drop_last() =~= r);
        }
    }
}

/// Distinct keeps exactly the pairs of positive weight, with weight 1.
pub proof fn lemma_distinct_weights(s: Seq<ZTuple>, k: Seq<int>, v: Seq<int>)
    requires
        is_sorted(s),
    ensures
        weight_of(distinct_of(s), k, v) == if weight_of(s, k, v) > 0 {
            1i64
        } else {
            0i64
        },
    decreases s.len(),
{
    if s.len() > 0 {
        let p = s.drop_last();
        let t = s.last();
        assert(is_sorted(p));
        lemma_distinct_weights(p, k, v);
        let r = distinct_of(p);
        if (k, v) == kv_of(t) {
            assert forall|i: int| 0 <= i < p.len() implies kv_of(#[trigger] p[i]) != (k, v) by {
                assert(pair_lt(kv_of(s[i]), kv_of(s[s.len() - 1])));
                lemma_pair_lt_asymmetric(kv_of(s[i]), kv_of(s[s.len() - 1]));
            }
            lemma_weight_absent(p, k, v);
            lemma_wadd_zero(t.2);
            if t.2 > 0 {
                lemma_weight_push(r, (t.0, t.1, 1i64), k, v);
                lemma_wadd_zero(1);
            }
        } else if t.2 > 0 {
            lemma_weight_push(r, (t.0, t.1, 1i64), k, v);
        }
    }
}

proof fn lemma_total_weight_push(s: Seq<ZTuple>, t: ZTuple)
    ensures
        total_weight(s.push(t)) == wadd(total_weight(s), t.2),
{
    assert(s.push(t).drop_last() =~= s);
}


/// One past the last index of the key group that starts at `i`.
pub open spec fn group_end(s: Seq<ZTuple>, i: int) -> int
    decreases s.len() - i,
{
    if i + 1 >= s.len() {
        s.len() as int
    } else if s[i + 1].0 != s[i].0 {
        i + 1
    } else {
        group_end(s, i + 1)
    }
}

pub proof fn lemma_group_end(s: Seq<ZTuple>, i: int)
    requires
        0 <= i < s.len(),
    ensures
        i < group_end(s, i) <= s.len(),
        forall|j: int| i <= j < group_end(s, i) ==> (#[trigger] s[j]).0 == s[i].0,
        group_end(s, i) < s.len() ==> s[group_end(s, i)].0 != s[i].0,
    decreases s.len() - i,
{
    if i + 1 < s.len() && s[i + 1].0 == s[i].0 {
        lemma_group_end(s, i + 1);
    }
}

/// `i` is the first index of its key group.
pub open spec fn group_start(s: Seq<ZTuple>, i: int) -> bool {
    i == 0 || i >= s.len() || s[i - 1].0 != s[i].0
}


/// A cursor over a batch: a current key, and a current value of that key.
pub struct OrdZSetCursor<'a, K, V> {
    batch: &'a OrdZSet<K, V>,
    key_start: usize,
    key_end: usize,
    val_pos: usize,
}

impl<'a, K: DBData, V: DBData> OrdZSetCursor<'a, K, V> {
    /// The tuples of the batch under the cursor.
    pub closed spec fn data(&self) -> Seq<ZTuple> {
        self.batch@
    }

    /// Index of the first tuple of the current key.
    pub closed spec fn key_index(&self) -> int {
        self.key_start as int
    }

    /// One past the index of the last tuple of the current key.
    pub closed spec fn key_limit(&self) -> int {
        self.key_end as int
    }

    /// Index of the current tuple.
    pub closed spec fn val_index(&self) -> int {
        self.val_pos as int
    }

    pub closed spec fn well_formed(&self) -> bool {
        let s = self.batch@;
        &&& is_zset(s)
        &&& self.key_start <= self.val_pos <= self.key_end <= s.len()
        &&& self.key_start < s.len() ==> self.key_end == group_end(s, self.key_start as int)
        &&& self.key_start == s.len() ==> self.key_end == s.len()
        &&& group_start(s, self.key_start as int)
    }

    /// Positions the cursor at tuple `i`, the start of a key group.
    fn at_key(batch: &'a OrdZSet<K, V>, i: usize) -> (r: Self)
        requires
            batch.well_formed(),
            i <= batch@.len(),
            group_start(batch@, i as int),
        ensures
            r.well_formed(),
            r.data() == batch@,
            r.key_index() == i,
            r.val_index() == i,
    {
        let n = batch.tuples.len();
        let mut e = i;
        if i < n {
            e = i + 1;
            while e < n && matches!(batch.tuples[e].0.compare(&batch.tuples[i].0), core::cmp::Ordering::Equal)
                invariant
                    i < e <= n,
                    n == batch@.len(),
                    forall|j: int| i <= j < e ==> (#[trigger] batch@[j]).0 == batch@[i as int].0,
                    e < n ==> group_end(batch@, i as int) == group_end(batch@, e - 1),
                    e == n ==> group_end(batch@, i as int) == n,
                decreases n - e,
            {
                proof {
                    assert(batch@[e as int] == tuple_view(batch.tuples@[e as int]));
                    assert(batch@[i as int] == tuple_view(batch.tuples@[i as int]));
                    assert(batch@[e - 1].0 == batch@[i as int].0);
                    assert(group_end(batch@, e - 1) == group_end(batch@, e as int));
                    if e + 1 == n {
                        assert(group_end(batch@, e as int) == n);
                    }
                }
                e = e + 1;
            }
            proof {
                lemma_group_end(batch@, i as int);
                if e < n {
                    assert(batch@[e as int] == tuple_view(batch.tuples@[e as int]));
                    assert(batch@[i as int] == tuple_view(batch.tuples@[i as int]));
                }
            }
        }
        OrdZSetCursor { batch, key_start: i, key_end: e, val_pos: i }
    }

    /// Whether the cursor is at a key.
    pub fn key_valid(&self) -> (r: bool)
        requires
            self.well_formed(),
        ensures
            r == (self.key_index() < self.data().len()),
    {
        self.key_start < self.batch.tuples.len()
    }

    /// Whether the cursor is at a value of the current key.
    pub fn val_valid(&self) -> (r: bool)
        requires
            self.well_formed(),
        ensures
            r == (self.val_index() < self.key_limit()),
    {
        self.val_pos < self.key_end
    }

    /// The current key.
    pub fn key(&self) -> (r: &K)
        requires
            self.well_formed(),
            self.key_index() < self.data().len(),
        ensures
            r.repr() == self.data()[self.key_index()].0,
    {
        &self.batch.tuples[self.key_start].0
    }

    /// The current value.
    pub fn val(&self) -> (r: &V)
        requires
            self.well_formed(),
            self.val_index() < self.key_limit(),
        ensures
            r.repr() == self.data()[self.val_index()].1,
    {
        &self.batch.tuples[self.val_pos].1
    }

    /// The current key, if any.
    pub fn get_key(&self) -> (r: Option<&K>)
        requires
            self.well_formed(),
        ensures
            r.is_some() == (self.key_index() < self.data().len()),
            r.is_some() ==> r.unwrap().repr() == self.data()[self.key_index()].0,
    {
        if self.key_valid() {
            Some(self.key())
        } else {
            None
        }
    }

    /// The current value, if any.
    pub fn get_val(&self) -> (r: Option<&V>)
        requires
            self.well_formed(),
        ensures
            r.is_some() == (self.val_index() < self.key_limit()),
            r.is_some() ==> r.unwrap().repr() == self.data()[self.val_index()].1,
    {
        if self.val_valid() {
            Some(self.val())
        } else {
            None
        }
    }

    /// The weight of the current key/value pair.
    pub fn weight(&self) -> (r: ZWeight)
        requires
            self.well_formed(),
            self.val_index() < self.key_limit(),
        ensures
            r == self.data()[self.val_index()].2,
    {
        self.batch.tuples[self.val_pos].2
    }

    /// Moves to the next key, at its first value.
    pub fn step_key(&mut self)
        requires
            old(self).well_formed(),
        ensures
            final(self).well_formed(),
            final(self).data() == old(self).data(),
            old(self).key_index() < old(self).data().len() ==> final(self).key_index() == old(
                self,
            ).key_limit(),
            old(self).key_index() == old(self).data().len() ==> final(self).key_index() == old(
                self,
            ).key_index(),
            final(self).val_index() == final(self).key_index(),
    {
        if self.key_start < self.batch.tuples.len() {
            proof {
                lemma_group_end(self.batch@, self.key_start as int);
            }
            *self = Self::at_key(self.batch, self.key_end);
        } else {
            self.val_pos = self.key_start;
        }
    }

    /// Moves forward to the first key not less than `key`.
    pub fn seek_key(&mut self, key: &K)
        requires
            old(self).well_formed(),
        ensures
            final(self).well_formed(),
            final(self).data() == old(self).data(),
            old(self).key_index() <= final(self).key_index(),
            forall|j: int|
                old(self).key_index() <= j < final(self).key_index() ==> seq_lt(
                    (#[trigger] final(self).data()[j]).0,
                    key.repr(),
                ),
            final(self).key_index() < final(self).data().len() ==> !seq_lt(
                final(self).data()[final(self).key_index()].0,
                key.repr(),
            ),
            final(self).val_index() == final(self).key_index(),
    {
        let ghost start = self.key_start as int;
        let ghost s = self.batch@;
        self.val_pos = self.key_start;
        while self.key_start < self.batch.tuples.len() && matches!(self.batch.tuples[self.key_start].0.compare(key), core::cmp::Ordering::Less)
            invariant
                self.well_formed(),
                self.data() == s,
                start <= self.key_start,
                self.val_pos == self.key_start,
                forall|j: int| start <= j < self.key_start ==> seq_lt((#[trigger] s[j]).0, key.repr()),
            decreases s.len() - self.key_start,
        {
            proof {
                lemma_group_end(s, self.key_start as int);
                assert(s[self.key_start as int] == tuple_view(self.batch.tuples@[self.key_start as int]));
            }
            self.step_key();
        }
        proof {
            if self.key_start < s.len() {
                assert(s[self.key_start as int] == tuple_view(self.batch.tuples@[self.key_start as int]));
            }
        }
    }

    /// The last key of the batch, if any.
    pub fn last_key(&self) -> (r: Option<&K>)
        requires
            self.well_formed(),
        ensures
            r.is_some() == (self.data().len() > 0),
            r.is_some() ==> r.unwrap().repr() == self.data().last().0,
    {
        let n = self.batch.tuples.len();
        if n == 0 {
            None
        } else {
            Some(&self.batch.tuples[n - 1].0)
        }
    }

    /// Moves to the next value of the current key.
    pub fn step_val(&mut self)
        requires
            old(self).well_formed(),
        ensures
            final(self).well_formed(),
            final(self).data() == old(self).data(),
            final(self).key_index() == old(self).key_index(),
            final(self).val_index() == if old(self).val_index() < old(self).key_limit() {
                old(self).val_index() + 1
            } else {
                old(self).val_index()
            },
    {
        if self.val_pos < self.key_end {
            self.val_pos = self.val_pos + 1;
        }
    }

    /// Moves forward, within the current key, to the first value not less
    /// than `val`.
    pub fn seek_val(&mut self, val: &V)
        requires
            old(self).well_formed(),
        ensures
            final(self).well_formed(),
            final(self).data() == old(self).data(),
            final(self).key_index() == old(self).key_index(),
            old(self).val_index() <= final(self).val_index(),
            forall|j: int|
                old(self).val_index() <= j < final(self).val_index() ==> seq_lt(
                    (#[trigger] final(self).data()[j]).1,
                    val.repr(),
                ),
            final(self).val_index() < final(self).key_limit() ==> !seq_lt(
                final(self).data()[final(self).val_index()].1,
                val.repr(),
            ),
    {
        let ghost start = self.val_pos as int;
        let ghost s = self.batch@;
        while self.val_pos < self.key_end && matches!(self.batch.tuples[self.val_pos].1.compare(val), core::cmp::Ordering::Less)
            invariant
                self.well_formed(),
                self.data() == s,
                self.key_start == old(self).key_start,
                self.key_end == old(self).key_end,
                start <= self.val_pos,
                forall|j: int| start <= j < self.val_pos ==> seq_lt((#[trigger] s[j]).1, val.repr()),
            decreases self.key_end - self.val_pos,
        {
            proof {
                assert(s[self.val_pos as int] == tuple_view(self.batch.tuples@[self.val_pos as int]));
            }
            self.val_pos = self.val_pos + 1;
        }
        proof {
            if self.val_pos < self.key_end {
                assert(s[self.val_pos as int] == tuple_view(self.batch.tuples@[self.val_pos as int]));
            }
        }
    }

    /// Moves to the first key.
    pub fn rewind_keys(&mut self)
        requires
            old(self).well_formed(),
        ensures
            final(self).well_formed(),
            final(self).data() == old(self).data(),
            final(self).key_index() == 0,
            final(self).val_index() == 0,
    {
        *self = Self::at_key(self.batch, 0);
    }


    /// Rewinds the cursor and lists every pair with its `(time, weight)`
    /// list (one entry: batches have no time).
    pub fn to_vec(&mut self) -> (r: Vec<((K, V), Vec<((), ZWeight)>)>)
        requires
            old(self).well_formed(),
        ensures
            final(self).well_formed(),
            final(self).data() == old(self).data(),
            final(self).key_index() == final(self).data().len(),
            r@.len() == old(self).data().len(),
            forall|i: int| 0 <= i < r@.len() ==> {
                &&& (#[trigger] r@[i]).0.0.repr() == old(self).data()[i].0
                &&& r@[i].0.1.repr() == old(self).data()[i].1
                &&& r@[i].1@ == seq![((), old(self).data()[i].2)]
            },
    {
        self.rewind_keys();
        let n = self.batch.tuples.len();
        let mut out: Vec<((K, V), Vec<((), ZWeight)>)> = Vec::new();
        let mut i: usize = 0;
        while i < n
            invariant
                i <= n,
                n == self.batch@.len(),
                out@.len() == i,
                forall|j: int| 0 <= j < i ==> {
                    &&& (#[trigger] out@[j]).0.0.repr() == self.batch@[j].0
                    &&& out@[j].0.1.repr() == self.batch@[j].1
                    &&& out@[j].1@ == seq![((), self.batch@[j].2)]
                },
            decreases n - i,
        {
            let t = &self.batch.tuples[i];
            proof {
                assert(self.batch@[i as int] == tuple_view(*t));
            }
            let times = vec![((), t.2)];
            out.push(((t.0.duplicate(), t.1.duplicate()), times));
            i = i + 1;
        }
        *self = Self::at_key(self.batch, n);
        out
    }

    /// Lists the values of the current key from the current one on, each
    /// with its `(time, weight)` list, and leaves the values exhausted.
    pub fn val_to_vec(&mut self) -> (r: Vec<(V, Vec<((), ZWeight)>)>)
        requires
            old(self).well_formed(),
        ensures
            final(self).well_formed(),
            final(self).data() == old(self).data(),
            final(self).key_index() == old(self).key_index(),
            final(self).val_index() == old(self).key_limit(),
            r@.len() == old(self).key_limit() - old(self).val_index(),
            forall|i: int| 0 <= i < r@.len() ==> {
                &&& (#[trigger] r@[i]).0.repr() == old(self).data()[old(self).val_index() + i].1
                &&& r@[i].1@ == seq![((), old(self).data()[old(self).val_index() + i].2)]
            },
    {
        let start = self.val_pos;
        let mut out: Vec<(V, Vec<((), ZWeight)>)> = Vec::new();
        while self.val_pos < self.key_end
            invariant
                self.well_formed(),
                self.batch == old(self).batch,
                self.key_start == old(self).key_start,
                self.key_end == old(self).key_end,
                start == old(self).val_pos,
                start <= self.val_pos,
                out@.len() == self.val_pos - start,
                forall|j: int| 0 <= j < out@.len() ==> {
                    &&& (#[trigger] out@[j]).0.repr() == self.batch@[start + j].1
                    &&& out@[j].1@ == seq![((), self.batch@[start + j].2)]
                },
            decreases self.key_end - self.val_pos,
        {
            let t = &self.batch.tuples[self.val_pos];
            proof {
                assert(self.batch@[self.val_pos as int] == tuple_view(*t));
            }
            out.push((t.1.duplicate(), vec![((), t.2)]));
            self.val_pos = self.val_pos + 1;
        }
        out
    }

    /// Moves to the first value of the current key.
    pub fn rewind_vals(&mut self)
        requires
            old(self).well_formed(),
        ensures
            final(self).well_formed(),
            final(self).data() == old(self).data(),
            final(self).key_index() == old(self).key_index(),
            final(self).val_index() == old(self).key_index(),
    {
        self.val_pos = self.key_start;
    }
}

/// The position of a walk over all tuples that a cursor makes.
pub open spec fn walk_position(data_len: int, val_index: int, key_limit: int) -> int {
    if val_index < key_limit {
        val_index
    } else {
        key_limit
    }
}

/// Iterates over the `(key, value, weight)` tuples that a cursor visits.
pub struct IndexedZSetIterator<'a, K, V> {
    cursor: OrdZSetCursor<'a, K, V>,
}

impl<'a, K: DBData, V: DBData> IndexedZSetIterator<'a, K, V> {
    /// The tuples iterated over.
    pub closed spec fn data(&self) -> Seq<ZTuple> {
        self.cursor.data()
    }

    /// Index of the next tuple to be returned.
    pub closed spec fn position(&self) -> int {
        walk_position(
            self.cursor.data().len() as int,
            self.cursor.val_index(),
            self.cursor.key_limit(),
        )
    }

    pub closed spec fn well_formed(&self) -> bool {
        self.cursor.well_formed()
    }

    /// Iterates from the cursor's current tuple to the end.
    pub fn new(cursor: OrdZSetCursor<'a, K, V>) -> (r: Self)
        requires
            cursor.well_formed(),
        ensures
            r.well_formed(),
            r.data() == cursor.data(),
            r.position() == walk_position(
                cursor.data().len() as int,
                cursor.val_index(),
                cursor.key_limit(),
            ),
    {
        IndexedZSetIterator { cursor }
    }

    /// The next tuple, or `None` at the end.
    pub fn next(&mut self) -> (r: Option<(K, V, ZWeight)>)
        requires
            old(self).well_formed(),
        ensures
            final(self).well_formed(),
            final(self).data() == old(self).data(),
            old(self).position() <= old(self).data().len(),
            match r {
                Some(t) => old(self).position() < old(self).data().len() && tuple_view(t) == old(
                    self,
                ).data()[old(self).position()] && final(self).position() == old(self).position()
                    + 1,
                None => old(self).position() == old(self).data().len() && final(self).position()
                    == old(self).position(),
            },
    {
        let ghost start_pos = self.position();
        proof {
            if self.cursor.key_start < self.cursor.batch@.len() {
                lemma_group_end(self.cursor.batch@, self.cursor.key_start as int);
            }
        }
        while self.cursor.key_valid()
            invariant
                self.well_formed(),
                self.data() == old(self).data(),
                self.position() == start_pos,
                start_pos == old(self).position(),
                start_pos <= self.data().len(),
            decreases self.data().len() - self.cursor.key_index(), self.cursor.key_limit()
                - self.cursor.val_index(),
        {
            proof {
                lemma_group_end(self.cursor.batch@, self.cursor.key_start as int);
            }
            if self.cursor.val_valid() {
                let w = self.cursor.weight();
                let r = (self.cursor.key().duplicate(), self.cursor.val().duplicate(), w);
                let ghost vp = self.cursor.val_pos as int;
                proof {
                    assert(self.cursor.batch@[vp].0 == self.cursor.batch@[self.cursor.key_start as int].0);
                    assert(self.position() == vp);
                    assert(tuple_view(r) == self.data()[vp]);
                }
                self.cursor.step_val();
                assert(self.position() == vp + 1);
                return Some(r);
            }
            self.cursor.step_key();
            proof {
                if self.cursor.key_start < self.cursor.batch@.len() {
                    lemma_group_end(self.cursor.batch@, self.cursor.key_start as int);
                }
            }
        }
        None
    }
}


/// Collects tuples in any order and seals them into a batch.
pub struct OrdZSetBuilder<K, V> {
    tuples: Vec<(K, V, ZWeight)>,
}

impl<K: DBData, V: DBData> OrdZSetBuilder<K, V> {
    /// The tuples pushed so far.
    pub closed spec fn pushed(&self) -> Seq<ZTuple> {
        tuples_view(self.tuples@)
    }

    pub fn new_builder() -> (r: Self)
        ensures
            r.pushed() == Seq::<ZTuple>::empty(),
    {
        let r = OrdZSetBuilder { tuples: Vec::new() };
        assert(r.pushed() =~= Seq::<ZTuple>::empty());
        r
    }

    pub fn with_capacity(capacity: usize) -> (r: Self)
        ensures
            r.pushed() == Seq::<ZTuple>::empty(),
    {
        let r = OrdZSetBuilder { tuples: Vec::with_capacity(capacity) };
        assert(r.pushed() =~= Seq::<ZTuple>::empty());
        r
    }

    pub fn reserve(&mut self, additional: usize)
        ensures
            final(self).pushed() == old(self).pushed(),
    {
        self.tuples.reserve(additional);
    }

    pub fn push(&mut self, t: (K, V, ZWeight))
        ensures
            final(self).pushed() == old(self).pushed().push(tuple_view(t)),
    {
        let ghost prev = self.tuples@;
        self.tuples.push(t);
        assert(tuples_view(self.tuples@) =~= tuples_view(prev).push(tuple_view(t)));
    }

    /// Seals the batch: pairs strictly ascending, weights of equal pairs
    /// summed, and no pair of weight zero.
    pub fn done(self) -> (r: OrdZSet<K, V>)
        ensures
            r.well_formed(),
            forall|k: Seq<int>, v: Seq<int>|
                #[trigger] r.weight(k, v) == weight_of(self.pushed(), k, v),
    {
        OrdZSet::from_tuples(self.tuples)
    }
}

/// The tuples that remain in a stack that holds the first one last.
pub open spec fn stack_view<K: DBData, V: DBData>(st: Seq<(K, V, ZWeight)>) -> Seq<ZTuple> {
    Seq::new(st.len(), |i: int| tuple_view(st[st.len() - 1 - i]))
}

/// A walk that takes ownership of the tuples of a batch, key by key.
pub struct OrdZSetConsumer<K, V> {
    stack: Vec<(K, V, ZWeight)>,
}

/// Takes ownership of the values and weights of one key.
pub struct OrdZSetValueConsumer<V> {
    stack: Vec<(V, ZWeight)>,
}

impl<V: DBData> OrdZSetValueConsumer<V> {
    /// The `(value, weight)` pairs that remain, in order.
    pub closed spec fn remaining(&self) -> Seq<(Seq<int>, ZWeight)> {
        Seq::new(
            self.stack@.len(),
            |i: int|
                (
                    self.stack@[self.stack@.len() - 1 - i].0.repr(),
                    self.stack@[self.stack@.len() - 1 - i].1,
                ),
        )
    }

    pub fn value_valid(&self) -> (r: bool)
        ensures
            r == (self.remaining().len() > 0),
    {
        self.stack.len() > 0
    }

    /// Takes the next value and its weight.
    pub fn next_value(&mut self) -> (r: (V, ZWeight))
        requires
            old(self).remaining().len() > 0,
        ensures
            (r.0.repr(), r.1) == old(self).remaining()[0],
            final(self).remaining() == old(self).remaining().drop_first(),
    {
        let r = self.stack.pop().unwrap();
        assert(self.remaining() =~= old(self).remaining().drop_first());
        r
    }

    /// The number of values that remain.
    pub fn remaining_values(&self) -> (r: usize)
        ensures
            r == self.remaining().len(),
    {
        self.stack.len()
    }
}

impl<K: DBData, V: DBData> OrdZSetConsumer<K, V> {
    /// The tuples that remain, in order.
    pub closed spec fn remaining(&self) -> Seq<ZTuple> {
        stack_view(self.stack@)
    }

    pub fn key_valid(&self) -> (r: bool)
        ensures
            r == (self.remaining().len() > 0),
    {
        self.stack.len() > 0
    }

    /// The next key.
    pub fn peek_key(&self) -> (r: &K)
        requires
            self.remaining().len() > 0,
        ensures
            r.repr() == self.remaining()[0].0,
    {
        &self.stack[self.stack.len() - 1].0
    }

    /// Takes the next key, with a consumer for its values.
    pub fn next_key(&mut self) -> (r: (K, OrdZSetValueConsumer<V>))
        requires
            old(self).remaining().len() > 0,
        ensures
            r.0.repr() == old(self).remaining()[0].0,
            ({
                let g = group_end(old(self).remaining(), 0);
                &&& final(self).remaining() == old(self).remaining().subrange(
                    g,
                    old(self).remaining().len() as int,
                )
                &&& r.1.remaining() == old(self).remaining().subrange(0, g).map_values(
                    |t: ZTuple| (t.1, t.2),
                )
            }),
    {
        let ghost rem = self.remaining();
        let ghost n = rem.len();
        let len0 = self.stack.len();
        assert(n == len0);
        proof {
            lemma_group_end(rem, 0);
        }
        let first = self.stack.pop().unwrap();
        assert(self.remaining() =~= rem.subrange(1, n as int));
        let mut vals: Vec<(V, ZWeight)> = Vec::new();
        let key = first.0;
        vals.push((first.1, first.2));
        let mut taken: usize = 1;
        while self.stack.len() > 0 && matches!(self.stack[self.stack.len() - 1].0.compare(&key), core::cmp::Ordering::Equal)
            invariant
                1 <= taken <= group_end(rem, 0),
                n == rem.len(),
                n <= usize::MAX,
                key.repr() == rem[0].0,
                self.remaining() == rem.subrange(taken as int, n as int),
                vals@.len() == taken,
                forall|i: int|
                    0 <= i < taken ==> ((#[trigger] vals@[i]).0.repr(), vals@[i].1) == (
                        rem[i].1,
                        rem[i].2,
                    ),
                taken < group_end(rem, 0) ==> group_end(rem, 0) <= n,
                forall|j: int| 0 <= j < group_end(rem, 0) ==> (#[trigger] rem[j]).0 == rem[0].0,
                group_end(rem, 0) < n ==> rem[group_end(rem, 0)].0 != rem[0].0,
                group_end(rem, 0) <= n,
            decreases self.stack.len(),
        {
            proof {
                assert(self.remaining().len() == self.stack@.len());
                assert(rem.subrange(taken as int, n as int)[0] == rem[taken as int]);
                assert(self.remaining()[0] == rem[taken as int]);
                assert(self.remaining()[0] == tuple_view(self.stack@[self.stack@.len() - 1]));
                if taken == group_end(rem, 0) && taken < n {
                    assert(rem[taken as int].0 != rem[0].0);
                }
            }
            let ghost prev = self.remaining();
            let t = self.stack.pop().unwrap();
            vals.push((t.1, t.2));
            taken = taken + 1;
            assert(self.remaining() =~= prev.drop_first());
            assert(self.remaining() =~= rem.subrange(taken as int, n as int));
        }
        proof {
            if taken < group_end(rem, 0) {
                assert(self.remaining()[0] == rem[taken as int]);
                assert(self.remaining()[0] == tuple_view(self.stack@[self.stack@.len() - 1]));
            }
        }
        // the values in reverse order, so that the first is popped first
        let mut stack: Vec<(V, ZWeight)> = Vec::new();
        let ghost all = vals@;
        while vals.len() > 0
            invariant
                vals@ == all.subrange(0, vals@.len() as int),
                stack@.len() + vals@.len() == all.len(),
                forall|i: int|
                    0 <= i < stack@.len() ==> #[trigger] stack@[i] == all[all.len() - 1 - i],
            decreases vals.len(),
        {
            let ghost l = vals@.len();
            let v = vals.pop().unwrap();
            stack.push(v);
            assert(vals@ =~= all.subrange(0, vals@.len() as int));
        }
        let values = OrdZSetValueConsumer { stack };
        proof {
            let g = group_end(rem, 0);
            assert(values.remaining() =~= rem.subrange(0, g).map_values(|t: ZTuple| (t.1, t.2)));
        }
        (key, values)
    }

    /// Skips the tuples whose keys are less than `key`.
    pub fn seek_key(&mut self, key: &K)
        ensures
            exists|d: int|
                0 <= d <= old(self).remaining().len() && final(self).remaining() == old(
                    self,
                ).remaining().subrange(d, old(self).remaining().len() as int) && (forall|j: int|
                    0 <= j < d ==> seq_lt((#[trigger] old(self).remaining()[j]).0, key.repr()))
                    && (d < old(self).remaining().len() ==> !seq_lt(
                    old(self).remaining()[d].0,
                    key.repr(),
                )),
    {
        let ghost rem = self.remaining();
        let ghost n = rem.len();
        let len0 = self.stack.len();
        assert(n == len0);
        let mut d: usize = 0;
        assert(rem.subrange(0, n as int) =~= rem);
        while self.stack.len() > 0 && matches!(self.stack[self.stack.len() - 1].0.compare(key), core::cmp::Ordering::Less)
            invariant
                d <= n,
                n == rem.len(),
                n <= usize::MAX,
                self.remaining() == rem.subrange(d as int, n as int),
                forall|j: int| 0 <= j < d ==> seq_lt((#[trigger] rem[j]).0, key.repr()),
            decreases self.stack.len(),
        {
            proof {
                assert(self.remaining().len() == self.stack@.len());
                assert(rem.subrange(d as int, n as int)[0] == rem[d as int]);
                assert(self.remaining()[0] == rem[d as int]);
                assert(self.remaining()[0] == tuple_view(self.stack@[self.stack@.len() - 1]));
            }
            let ghost prev = self.remaining();
            self.stack.pop();
            d = d + 1;
            assert(self.remaining() =~= prev.drop_first());
            assert(self.remaining() =~= rem.subrange(d as int, n as int));
        }
        proof {
            if d < n {
                assert(self.remaining()[0] == rem[d as int]);
                assert(self.remaining()[0] == tuple_view(self.stack@[self.stack@.len() - 1]));
            }
        }
    }
}

/// Keys with weights, as tuples with the unit value.
pub open spec fn unit_tuples<K: DBData>(s: Seq<(K, ZWeight)>) -> Seq<ZTuple> {
    s.map_values(|t: (K, ZWeight)| (t.0.repr(), Seq::<int>::empty(), t.1))
}

impl<K: DBData> OrdZSet<K, ()> {

    /// In a plain Z-set every stored value is the unit value; keys are then
    /// strictly ascending and each key holds exactly one tuple.
    pub proof fn lemma_unit_values(&self)
        ensures
            forall|i: int| 0 <= i < self@.len() ==> (#[trigger] self@[i]).1 == Seq::<int>::empty(),
            self.well_formed() ==> forall|i: int, j: int|
                0 <= i < j < self@.len() ==> #[trigger] seq_lt(self@[i].0, self@[j].0),
            self.well_formed() ==> forall|i: int| 0 <= i < self@.len() ==> #[trigger] group_end(self@, i) == i + 1,
    {
        let s = self@;
        assert forall|i: int| 0 <= i < s.len() implies (#[trigger] s[i]).1 == Seq::<int>::empty() by {
            assert(s[i] == tuple_view(self.tuples@[i]));
        }
        if self.well_formed() {
            assert forall|i: int, j: int| 0 <= i < j < s.len() implies #[trigger] seq_lt(s[i].0, s[j].0) by {
                assert(pair_lt(kv_of(s[i]), kv_of(s[j])));
                assert(s[i].1 == Seq::<int>::empty() && s[j].1 == Seq::<int>::empty());
                crate::order::lemma_seq_lt_irreflexive(Seq::<int>::empty());
            }
            lemma_single_value_groups(s);
        }
    }

    /// Builds a plain Z-set from unordered keys with weights: the weights
    /// of equal keys are summed, and keys whose sum is zero are dropped.
    pub fn from_keys(keys: Vec<(K, ZWeight)>) -> (r: Self)
        ensures
            r.well_formed(),
            forall|k: Seq<int>, v: Seq<int>|
                #[trigger] r.weight(k, v) == weight_of(unit_tuples(keys@), k, v),
    {
        let ghost input = unit_tuples(keys@);
        let mut rest = keys;
        let mut rev: Vec<(K, (), ZWeight)> = Vec::new();
        while rest.len() > 0
            invariant
                input == unit_tuples(keys@),
                rest@.len() + rev@.len() == input.len(),
                forall|i: int| 0 <= i < rest@.len() ==> (#[trigger] rest@[i]).0.repr() == input[i].0 && rest@[i].1 == input[i].2,
                forall|i: int| 0 <= i < rev@.len() ==> tuple_view(#[trigger] rev@[i]) == input[input.len() - 1 - i],
            decreases rest.len(),
        {
            let (k, w) = rest.pop().unwrap();
            rev.push((k, (), w));
        }
        let mut tuples: Vec<(K, (), ZWeight)> = Vec::new();
        while rev.len() > 0
            invariant
                rev@.len() + tuples@.len() == input.len(),
                forall|i: int| 0 <= i < rev@.len() ==> tuple_view(#[trigger] rev@[i]) == input[input.len() - 1 - i],
                tuples_view(tuples@) == input.subrange(0, tuples@.len() as int),
            decreases rev.len(),
        {
            let t = rev.pop().unwrap();
            let ghost before = tuples@;
            tuples.push(t);
            assert(tuples_view(tuples@) =~= input.subrange(0, tuples@.len() as int));
        }
        assert(input.subrange(0, input.len() as int) =~= input);
        Self::from_tuples(tuples)
    }
}

/// With strictly ascending keys, every key group holds one tuple.
pub proof fn lemma_single_value_groups(s: Seq<ZTuple>)
    requires
        forall|i: int, j: int| 0 <= i < j < s.len() ==> #[trigger] seq_lt(s[i].0, s[j].0),
    ensures
        forall|i: int| 0 <= i < s.len() ==> #[trigger] group_end(s, i) == i + 1,
{
    assert forall|i: int| 0 <= i < s.len() implies #[trigger] group_end(s, i) == i + 1 by {
        if i + 1 < s.len() {
            assert(seq_lt(s[i].0, s[i + 1].0));
            lemma_seq_lt_asymmetric(s[i].0, s[i + 1].0);
        }
    }
}

/// A batch is determined by its weights: two proper batches with the same
/// weight for every pair are equal.
pub proof fn lemma_zset_unique(a: Seq<ZTuple>, b: Seq<ZTuple>)
    requires
        is_zset(a),
        is_zset(b),
        forall|k: Seq<int>, v: Seq<int>| #[trigger] weight_of(a, k, v) == weight_of(b, k, v),
    ensures
        a == b,
    decreases a.len() + b.len(),
{
    if a.len() == 0 && b.len() == 0 {
        assert(a =~= b);
    } else if a.len() == 0 || b.len() == 0 {
        // the last tuple of the nonempty one has a nonzero weight
        let (x, y) = if a.len() == 0 { (b, a) } else { (a, b) };
        let t = x.last();
        lemma_weight_present(x, x.len() - 1);
        lemma_weight_absent(y, t.0, t.1);
        assert(weight_of(a, t.0, t.1) == weight_of(b, t.0, t.1));
        assert(false);
    } else {
        let ta = a.last();
        let tb = b.last();
        lemma_weight_present(a, a.len() - 1);
        lemma_weight_present(b, b.len() - 1);
        lemma_weight_lookup(a, tb.0, tb.1);
        lemma_weight_lookup(b, ta.0, ta.1);
        // the last tuple of `a` is in `b`, and that of `b` in `a`
        assert(weight_of(b, ta.0, ta.1) == ta.2);
        assert(weight_of(a, tb.0, tb.1) == tb.2);
        let j = choose|j: int| 0 <= j < b.len() && kv_of(#[trigger] b[j]) == (ta.0, ta.1);
        let i = choose|i: int| 0 <= i < a.len() && kv_of(#[trigger] a[i]) == (tb.0, tb.1);
        if j < b.len() - 1 {
            assert(pair_lt(kv_of(b[j]), kv_of(b[b.len() - 1])));
            if i < a.len() - 1 {
                assert(pair_lt(kv_of(a[i]), kv_of(a[a.len() - 1])));
                lemma_pair_lt_asymmetric(kv_of(ta), kv_of(tb));
            }
            lemma_pair_lt_asymmetric(kv_of(b[j]), kv_of(b[b.len() - 1]));
        }
        assert(kv_of(ta) == kv_of(tb));
        assert(ta.2 == tb.2);
        assert(ta == tb);
        let pa = a.drop_last();
        let pb = b.drop_last();
        assert forall|k: Seq<int>, v: Seq<int>| #[trigger] weight_of(pa, k, v) == weight_of(pb, k, v) by {
            if (k, v) == kv_of(ta) {
                assert forall|m: int| 0 <= m < pa.len() implies kv_of(#[trigger] pa[m]) != (k, v) by {
                    assert(pair_lt(kv_of(a[m]), kv_of(a[a.len() - 1])));
                    lemma_pair_lt_asymmetric(kv_of(a[m]), kv_of(a[a.len() - 1]));
                }
                assert forall|m: int| 0 <= m < pb.len() implies kv_of(#[trigger] pb[m]) != (k, v) by {
                    assert(pair_lt(kv_of(b[m]), kv_of(b[b.len() - 1])));
                    lemma_pair_lt_asymmetric(kv_of(b[m]), kv_of(b[b.len() - 1]));
                }
                lemma_weight_absent(pa, k, v);
                lemma_weight_absent(pb, k, v);
            } else {
                assert(weight_of(a, k, v) == weight_of(pa, k, v));
                assert(weight_of(b, k, v) == weight_of(pb, k, v));
            }
        }
        lemma_zset_unique(pa, pb);
        assert(a =~= pa.push(ta));
        assert(b =~= pb.push(tb));
    }
}

/// The number of key changes along a sequence of tuples.
pub open spec fn distinct_keys(s: Seq<ZTuple>) -> nat
    decreases s.len(),
{
    if s.len() == 0 {
        0
    } else if s.len() == 1 || s[s.len() - 2].0 != s.last().0 {
        distinct_keys(s.drop_last()) + 1
    } else {
        distinct_keys(s.drop_last())
    }
}

} // verus!
