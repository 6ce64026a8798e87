//! Indexed Z-sets: Z-sets over (key, value) pairs grouped by key.
//!
//! The representation reuses the canonical pair-sorted Z-set, so the
//! entries of one key are a contiguous run sorted by value.

use vstd::prelude::*;
use crate::data::DBData;
use crate::zset::{OrdZSet, lemma_canonical_eq, lemma_pm_wf_entry, models, pm_wf, zadd, zset_wf, zweight};

verus! {

/// A Z-set over `(K, V)` pairs, viewed as a mapping from keys to Z-sets
/// of values.
pub struct OrdIndexedZSet<K: DBData, V: DBData> {
    pub zs: OrdZSet<(K, V)>,
}

impl<K: DBData, V: DBData> View for OrdIndexedZSet<K, V> {
    type V = Map<(K::V, V::V), int>;

    open spec fn view(&self) -> Map<(K::V, V::V), int> {
        self.zs@
    }
}

impl<K: DBData, V: DBData> OrdIndexedZSet<K, V> {
    pub open spec fn wf(&self) -> bool {
        self.zs.wf()
    }

    pub open spec fn model_seq(&self) -> Seq<((K::V, V::V), int)> {
        self.zs.model_seq()
    }

    pub fn empty() -> (r: Self)
        ensures
            r.wf(),
            r@ == Map::<(K::V, V::V), int>::empty(),
    {
        OrdIndexedZSet { zs: OrdZSet::empty() }
    }

    /// Number of (key, value) entries.
    pub fn len(&self) -> (r: usize)
        requires
            self.wf(),
        ensures
            r == self@.dom().len(),
    {
        self.zs.len()
    }

    pub fn is_empty(&self) -> (r: bool)
        requires
            self.wf(),
        ensures
            r == (self@ == Map::<(K::V, V::V), int>::empty()),
    {
        self.zs.is_empty()
    }

    pub fn dup(&self) -> (r: Self)
        requires
            self.wf(),
        ensures
            r.wf(),
            r@ == self@,
            r.model_seq() == self.model_seq(),
    {
        OrdIndexedZSet { zs: self.zs.dup() }
    }

    pub fn plus(&self, other: &Self) -> (r: Self)
        requires
            self.wf(),
            other.wf(),
            forall|q: (K::V, V::V)|
                i64::MIN <= #[trigger] zweight(self@, q) + zweight(other@, q) <= i64::MAX,
        ensures
            r.wf(),
            r@ == zadd(self@, other@),
    {
        proof {
            assert forall|q: (K::V, V::V)|
                i64::MIN <= #[trigger] zweight(self.zs@, q) + zweight(other.zs@, q)
                    <= i64::MAX by {
                assert(zweight(self@, q) + zweight(other@, q) == zweight(self.zs@, q) + zweight(
                    other.zs@,
                    q,
                ));
            }
        }
        OrdIndexedZSet { zs: self.zs.plus(&other.zs) }
    }
}

/// A Z-set of keys seen as an indexed Z-set with a unit value column.
pub open spec fn unit_lift<KM>(m: Map<KM, int>) -> Map<(KM, crate::data::NoVal), int> {
    Map::new(
        |p: (KM, crate::data::NoVal)| m.contains_key(p.0),
        |p: (KM, crate::data::NoVal)| m[p.0],
    )
}

/// Attaches the unit value to every key of a Z-set.
pub fn attach_unit<K: DBData>(z: &OrdZSet<K>) -> (r: OrdIndexedZSet<K, crate::data::NoVal>)
    requires
        z.wf(),
    ensures
        r.wf(),
        r@ == unit_lift(z@),
{
    let ghost s = z.model_seq();
    let mut pairs: Vec<((K, crate::data::NoVal), i64)> = Vec::new();
    let n = z.pairs.len();
    let mut i: usize = 0;
    proof {
        z.lemma_view();
    }
    while i < n
        invariant
            i <= n,
            n == z.pairs@.len(),
            z.wf(),
            s == z.model_seq(),
            pairs@.len() == i as int,
            forall|j: int|
                0 <= j < i as int ==> #[trigger] pairs@[j].0.0.deep_view() == s[j].0 && pairs@[
                    j
                ].1 as int == s[j].1,
        decreases n - i,
    {
        let p = &z.pairs[i];
        let ghost before = pairs@;
        pairs.push(((p.0.dup(), crate::data::NoVal), p.1));
        proof {
            assert(s[i as int] == (z.pairs@[i as int].0.deep_view(),
            z.pairs@[i as int].1 as int));
            assert forall|j: int| 0 <= j < i as int + 1 implies #[trigger] pairs@[
                j
            ].0.0.deep_view() == s[j].0 && pairs@[j].1 as int == s[j].1 by {
                if j < i as int {
                    assert(pairs@[j] == before[j]);
                    assert(before[j].0.0.deep_view() == s[j].0);
                    assert(before[j].1 as int == s[j].1);
                }
            }
        }
        i = i + 1;
    }
    let r = OrdIndexedZSet { zs: OrdZSet { pairs } };
    proof {
        let ls = models(r.zs.pairs@);
        let target = unit_lift(z@);
        assert forall|j: int| 0 <= j < ls.len() implies #[trigger] ls[j] == ((s[j].0,
        crate::data::NoVal), s[j].1) by {
            assert(ls[j].0 == r.zs.pairs@[j].0.deep_view());
        }
        assert forall|x: int, y: int| 0 <= x < y < ls.len() implies <(K,
        crate::data::NoVal) as DBData>::mlt(ls[x].0, ls[y].0) by {
            lemma_pm_wf_entry::<K>(s, x, y);
            assert(crate::data::pair_mlt::<K, crate::data::NoVal>(ls[x].0, ls[y].0));
        }
        assert(pm_wf::<(K, crate::data::NoVal)>(ls));
        assert(zset_wf(target)) by {
            z.lemma_view();
            assert forall|p: (K::V, crate::data::NoVal)| target.dom().contains(p) implies z@
                .dom().map(|k: K::V| (k, crate::data::NoVal)).contains(p) by {
                assert(z@.dom().contains(p.0));
                assert((|k: K::V| (k, crate::data::NoVal))(p.0) == p);
            }
            assert(target.dom().subset_of(z@.dom().map(|k: K::V| (k, crate::data::NoVal))));
            z@.dom().lemma_map_finite(|k: K::V| (k, crate::data::NoVal));
            vstd::set_lib::lemma_set_subset_finite(
                z@.dom().map(|k: K::V| (k, crate::data::NoVal)),
                target.dom(),
            );
        }
        assert forall|j: int| 0 <= j < ls.len() implies target.contains_key(
            #[trigger] ls[j].0,
        ) && target[ls[j].0] == ls[j].1 by {
            z.lemma_view();
            assert(z@.contains_key(s[j].0) && z@[s[j].0] == s[j].1);
        }
        assert forall|q: (K::V, crate::data::NoVal)| target.contains_key(q) implies exists|
            j: int,
        |
            0 <= j < ls.len() && ls[j].0 == q by {
            z.lemma_view();
            let j = choose|j: int| 0 <= j < s.len() && s[j].0 == q.0;
            assert(ls[j].0 == (s[j].0, crate::data::NoVal));
            assert(ls[j].0 == q);
        }
        lemma_canonical_eq::<(K, crate::data::NoVal)>(ls, target);
    }
    r
}

/// Groups a Z-set of pairs by its first column.
///
/// The canonical pair order is already grouped by key, so indexing does
/// not change the content.
pub fn index_zset<K: DBData, V: DBData>(z: OrdZSet<(K, V)>) -> (r: OrdIndexedZSet<K, V>)
    requires
        z.wf(),
    ensures
        r.wf(),
        r@ == z@,
{
    OrdIndexedZSet { zs: z }
}

} // verus!
