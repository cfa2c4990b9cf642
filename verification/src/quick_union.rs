use vstd::prelude::*;

use crate::model::UfModel;
use crate::slot::{clone_slots, copy_all, take_at};
use crate::traits::{Union, UnionFind, UnionResult};
use vstd::pervasive::unreached;

verus! {

// ---------------------------------------------------------------------------
// The parent forest.
//
// `pa` is a parent-pointer array: `pa[i] == i` marks a root.  The ghost
// measure `d` witnesses that the pointers are acyclic: it strictly decreases
// along every parent edge, so following parents from any element reaches a
// root.  The measure is bookkeeping only; it never constrains which tree
// shapes arise.
// ---------------------------------------------------------------------------

/// The parent array stays inside the universe and `d` decreases along every
/// parent edge.
pub(crate) open spec fn parents_ok(pa: Seq<usize>, d: Seq<nat>) -> bool {
    &&& pa.len() == d.len()
    &&& forall|i: int| 0 <= i < pa.len() ==> (#[trigger] pa[i]) < pa.len()
    &&& forall|i: int|
        0 <= i < pa.len() && (#[trigger] pa[i]) as int != i ==> d[pa[i] as int] < d[i]
}

/// The root reached by following parent pointers from `i`.
pub(crate) open spec fn root_in(pa: Seq<usize>, d: Seq<nat>, i: int) -> int
    decreases d[i] when parents_ok(pa, d) && 0 <= i < pa.len()
{
    if pa[i] as int == i {
        i
    } else {
        root_in(pa, d, pa[i] as int)
    }
}

/// Following parents lands on a self-parented index inside the universe.
pub(crate) proof fn lemma_root_in_props(pa: Seq<usize>, d: Seq<nat>, i: int)
    requires
        parents_ok(pa, d),
        0 <= i < pa.len(),
    ensures
        0 <= root_in(pa, d, i) < pa.len(),
        pa[root_in(pa, d, i)] as int == root_in(pa, d, i),
    decreases d[i],
{
    if pa[i] as int != i {
        lemma_root_in_props(pa, d, pa[i] as int);
    }
}

/// Path halving keeps the measure valid: rewiring a non-root `k` to its
/// grandparent still points it at a strictly smaller measure.
pub(crate) proof fn lemma_halve_ok(pa: Seq<usize>, d: Seq<nat>, k: int, pa2: Seq<usize>)
    requires
        parents_ok(pa, d),
        0 <= k < pa.len(),
        pa[k] as int != k,
        pa2 == pa.update(k, pa[pa[k] as int]),
    ensures
        parents_ok(pa2, d),
{
    let p = pa[k] as int;
    assert forall|i: int|
        0 <= i < pa2.len() && (#[trigger] pa2[i]) as int != i implies d[pa2[i] as int] < d[i] by {
        if i == k {
            assert(d[p] < d[k]);
            if pa[p] as int != p {
                assert(d[pa[p] as int] < d[p]);
            }
        }
    }
}

/// Path halving never changes which root an element resolves to.
pub(crate) proof fn lemma_halve_root(pa: Seq<usize>, d: Seq<nat>, k: int, pa2: Seq<usize>, j: int)
    requires
        parents_ok(pa, d),
        0 <= k < pa.len(),
        pa[k] as int != k,
        pa2 == pa.update(k, pa[pa[k] as int]),
        0 <= j < pa.len(),
    ensures
        root_in(pa2, d, j) == root_in(pa, d, j),
    decreases d[j],
{
    lemma_halve_ok(pa, d, k, pa2);
    let p = pa[k] as int;
    let pp = pa[p] as int;
    if j == k {
        assert(d[p] < d[k]);
        if pa[p] as int != p {
            assert(d[pp] < d[p]);
        }
        lemma_halve_root(pa, d, k, pa2, pp);
        assert(pa2[k] as int == pp);
        assert(pp != k);
        assert(root_in(pa2, d, k) == root_in(pa2, d, pp));
        if pa[p] as int == p {
            assert(root_in(pa, d, p) == p);
            assert(root_in(pa, d, k) == root_in(pa, d, p));
        } else {
            assert(root_in(pa, d, p) == root_in(pa, d, pp));
            assert(root_in(pa, d, k) == root_in(pa, d, p));
        }
    } else {
        if pa[j] as int != j {
            lemma_halve_root(pa, d, k, pa2, pa[j] as int);
        }
    }
}

/// After hanging the root `l` under the root `w`, bumping the measure of
/// everything in `l`'s tree keeps the measure valid.
pub(crate) proof fn lemma_link_ok(
    pa: Seq<usize>,
    d: Seq<nat>,
    l: int,
    w: int,
    pa2: Seq<usize>,
    d2: Seq<nat>,
)
    requires
        parents_ok(pa, d),
        0 <= l < pa.len(),
        0 <= w < pa.len(),
        l != w,
        pa[l] as int == l,
        pa[w] as int == w,
        pa2 == pa.update(l, w as usize),
        d2 == Seq::new(
            d.len(),
            |i: int| if root_in(pa, d, i) == l { (d[i] + d[w] + 1) as nat } else { d[i] },
        ),
    ensures
        parents_ok(pa2, d2),
{
    assert forall|i: int|
        0 <= i < pa2.len() && (#[trigger] pa2[i]) as int != i implies d2[pa2[i] as int] < d2[i] by {
        if i == l {
            assert(root_in(pa, d, l) == l);
            assert(root_in(pa, d, w) == w);
        } else {
            // `i` and its parent share a root, so both measures moved together.
            assert(root_in(pa, d, i) == root_in(pa, d, pa[i] as int));
        }
    }
}

/// Hanging the root `l` under the root `w` redirects exactly `l`'s tree.
pub(crate) proof fn lemma_link_root(
    pa: Seq<usize>,
    d: Seq<nat>,
    l: int,
    w: int,
    pa2: Seq<usize>,
    d2: Seq<nat>,
    j: int,
)
    requires
        parents_ok(pa, d),
        0 <= l < pa.len(),
        0 <= w < pa.len(),
        l != w,
        pa[l] as int == l,
        pa[w] as int == w,
        pa2 == pa.update(l, w as usize),
        d2 == Seq::new(
            d.len(),
            |i: int| if root_in(pa, d, i) == l { (d[i] + d[w] + 1) as nat } else { d[i] },
        ),
        0 <= j < pa.len(),
    ensures
        root_in(pa2, d2, j) == (if root_in(pa, d, j) == l {
            w
        } else {
            root_in(pa, d, j)
        }),
    decreases d[j],
{
    lemma_link_ok(pa, d, l, w, pa2, d2);
    if j == l {
        assert(root_in(pa2, d2, w) == w);
    } else if pa[j] as int == j {
    } else {
        lemma_link_root(pa, d, l, w, pa2, d2, pa[j] as int);
        assert(root_in(pa, d, j) == root_in(pa, d, pa[j] as int));
    }
}

/// Appending a fresh self-parented element leaves every old root in place.
pub(crate) proof fn lemma_push_root(
    pa: Seq<usize>,
    d: Seq<nat>,
    pa2: Seq<usize>,
    d2: Seq<nat>,
    j: int,
)
    requires
        parents_ok(pa, d),
        pa.len() < usize::MAX,
        pa2 == pa.push(pa.len() as usize),
        d2 == d.push(0nat),
        0 <= j < pa.len(),
    ensures
        parents_ok(pa2, d2),
        root_in(pa2, d2, j) == root_in(pa, d, j),
    decreases d[j],
{
    assert forall|i: int|
        0 <= i < pa2.len() && (#[trigger] pa2[i]) as int != i implies d2[pa2[i] as int] < d2[i] by {
        if i < pa.len() {
            assert(pa2[i] == pa[i]);
        }
    }
    if pa[j] as int != j {
        lemma_push_root(pa, d, pa2, d2, pa[j] as int);
    }
}

// ---------------------------------------------------------------------------
// The engine.
// ---------------------------------------------------------------------------

/// What the parent array, the measure and the payload slots abstract to.
pub(crate) open spec fn qu_model<V>(pa: Seq<usize>, d: Seq<nat>, pl: Seq<Option<V>>) -> UfModel<V> {
    UfModel {
        roots: Seq::new(pa.len(), |i: int| root_in(pa, d, i)),
        payloads: Map::new(
            |r: int| 0 <= r < pa.len() && pa[r] as int == r,
            |r: int| pl[r].unwrap(),
        ),
    }
}

/// The engine's invariant over its raw state: a valid forest, and a payload
/// stored exactly at each root.
pub(crate) open spec fn qu_wf<V>(pa: Seq<usize>, d: Seq<nat>, pl: Seq<Option<V>>) -> bool {
    &&& parents_ok(pa, d)
    &&& pl.len() == pa.len()
    &&& forall|i: int|
        0 <= i < pa.len() ==> ((#[trigger] pl[i]) is Some <==> pa[i] as int == i)
}

/// Union-Find implementation with a quick union operation.
///
/// Classes are trees of parent pointers; `union` rewires one root under the
/// other in constant time, while `find` walks to the root and halves the path
/// as it goes, so repeated lookups approach constant time as well.
pub struct QuickUnionUf<V> {
    link_parent: Vec<usize>,
    payload: Vec<Option<V>>,
    depth: Ghost<Seq<nat>>,
}

impl<V> View for QuickUnionUf<V> {
    type V = UfModel<V>;

    closed spec fn view(&self) -> UfModel<V> {
        qu_model(self.link_parent@, self.depth@, self.payload@)
    }
}

impl<V: Union> QuickUnionUf<V> {
    /// Appends one singleton class for each value in `items`, in order: the
    /// value at position `j` becomes the payload of new element `n + j`,
    /// where `n` is the element count from before the call.
    pub fn extend_with(&mut self, items: Vec<V>)
        requires
            old(self).wf(),
            old(self)@.n() + items@.len() <= usize::MAX,
        ensures
            final(self).wf(),
            final(self)@.n() == old(self)@.n() + items@.len(),
            forall|k: int|
                0 <= k < old(self)@.n() ==> #[trigger] final(self)@.roots[k] == old(self)@.roots[k],
            forall|j: int|
                0 <= j < items@.len() ==> #[trigger] final(self)@.roots[old(self)@.n() + j]
                    == old(self)@.n() + j,
            forall|j: int|
                0 <= j < items@.len() ==> #[trigger] final(self)@.payloads[old(self)@.n() + j]
                    == items@[j],
            forall|r: int|
                0 <= r < old(self)@.n() && old(self)@.payloads.dom().contains(r)
                    ==> #[trigger] final(self)@.payloads[r] == old(self)@.payloads[r],
    {
        let ghost m = old(self)@;
        let ghost items0 = items@;
        let mut items = items;
        let mut i: usize = 0;
        while items.len() > 0
            invariant
                self.wf(),
                i <= items0.len(),
                i + items@.len() == items0.len(),
                items@ == items0.subrange(i as int, items0.len() as int),
                m.n() + items0.len() <= usize::MAX,
                self@.n() == m.n() + i,
                forall|k: int| 0 <= k < m.n() ==> #[trigger] self@.roots[k] == m.roots[k],
                forall|j: int| 0 <= j < i ==> #[trigger] self@.roots[m.n() + j] == m.n() + j,
                forall|j: int| 0 <= j < i ==> #[trigger] self@.payloads[m.n() + j] == items0[j],
                forall|r: int|
                    0 <= r < m.n() && m.payloads.dom().contains(r)
                        ==> #[trigger] self@.payloads[r] == m.payloads[r],
            decreases items0.len() - i,
        {
            let v = items.remove(0);
            proof {
                assert(v == items0[i as int]);
                assert(items@ =~= items0.subrange(i + 1, items0.len() as int));
            }
            let ghost prev = self@;
            let _ = self.insert(v);
            proof {
                assert(self@ == prev.grown(items0[i as int]));
            }
            i += 1;
        }
    }

    /// Builds a structure whose elements are exactly the given payload
    /// values: element `k` starts as a singleton class holding `items[k]`.
    pub fn from_items(items: Vec<V>) -> (uf: Self)
        requires
            items@.len() <= usize::MAX,
        ensures
            uf.wf(),
            uf@.n() == items@.len(),
            forall|k: int| 0 <= k < items@.len() ==> #[trigger] uf@.root_of(k) == k,
            forall|k: int| 0 <= k < items@.len() ==> #[trigger] uf@.payloads[k] == items@[k],
    {
        let mut uf = QuickUnionUf {
            link_parent: Vec::new(),
            payload: Vec::new(),
            depth: Ghost(Seq::empty()),
        };
        let ghost m = uf@;
        proof {
            assert(m.n() == 0);
        }
        uf.extend_with(items);
        proof {
            assert forall|k: int| 0 <= k < items@.len() implies #[trigger] uf@.root_of(k)
                == k by {
                assert(uf@.roots[m.n() + k] == m.n() + k);
            }
            assert forall|k: int| 0 <= k < items@.len() implies #[trigger] uf@.payloads[k]
                == items@[k] by {
                assert(uf@.payloads[m.n() + k] == items@[k]);
            }
        }
        uf
    }
}

impl<V: Union + Clone> Clone for QuickUnionUf<V> {
    /// A fully independent deep copy: the clone shows the same partition,
    /// each class payload is a clone of its counterpart, and mutating either
    /// side never affects the other.
    fn clone(&self) -> (r: Self)
        ensures
            r@.roots == self@.roots,
            r@.payloads.dom() == self@.payloads.dom(),
            self.wf() ==> forall|k: int|
                #[trigger] r@.payloads.dom().contains(k) ==> cloned::<V>(
                    self@.payloads[k],
                    r@.payloads[k],
                ),
            self.wf() ==> r.wf(),
    {
        let r = QuickUnionUf {
            link_parent: copy_all(&self.link_parent),
            payload: clone_slots(&self.payload),
            depth: Ghost(self.depth@),
        };
        proof {
            assert(r@.roots =~= self@.roots);
            assert(r@.payloads.dom() =~= self@.payloads.dom());
            if self.wf() {
                assert forall|k: int| #[trigger] r@.payloads.dom().contains(k) implies cloned::<V>(
                    self@.payloads[k],
                    r@.payloads[k],
                ) by {
                    assert(self.payload@[k] is Some);
                }
            }
        }
        r
    }
}

impl<V: Union> UnionFind<V> for QuickUnionUf<V> {
    closed spec fn wf(&self) -> bool {
        qu_wf(self.link_parent@, self.depth@, self.payload@)
    }

    proof fn lemma_wf_model(&self) {
        let pa = self.link_parent@;
        let d = self.depth@;
        assert forall|k: int| self@.valid_key(k) implies self@.valid_key(#[trigger] self@.roots[k])
            && self@.roots[self@.roots[k]] == self@.roots[k] by {
            lemma_root_in_props(pa, d, k);
        }
        assert forall|r: int| 0 <= r < pa.len() implies ((pa[r] as int == r) <==> root_in(pa, d, r)
            == r) by {
            lemma_root_in_props(pa, d, r);
        }
        assert(self@.payloads.dom() =~= Set::new(|r: int| self@.is_root(r)));
    }

    fn new(len: usize) -> (uf: Self) where V: Default {
        let mut uf = QuickUnionUf {
            link_parent: Vec::new(),
            payload: Vec::new(),
            depth: Ghost(Seq::empty()),
        };
        let mut i: usize = 0;
        while i < len
            invariant
                i <= len,
                uf.link_parent@.len() == i,
                uf.payload@.len() == i,
                uf.depth@.len() == i,
                forall|k: int| 0 <= k < i ==> (#[trigger] uf.link_parent@[k]) as int == k,
                forall|k: int| 0 <= k < i ==> (#[trigger] uf.payload@[k]) is Some,
                forall|k: int|
                    0 <= k < i ==> call_ensures(V::default, (), (#[trigger] uf.payload@[k]).unwrap()),
            decreases len - i,
        {
            let data = V::default();
            uf.link_parent.push(i);
            uf.payload.push(Some(data));
            uf.depth = Ghost(uf.depth@.push(0nat));
            i += 1;
        }
        proof {
            assert forall|k: int| 0 <= k < len implies #[trigger] uf@.root_of(k) == k by {
                assert(root_in(uf.link_parent@, uf.depth@, k) == k);
            }
        }
        uf
    }

    fn size(&self) -> (r: usize) {
        self.payload.len()
    }

    fn insert(&mut self, data: V) -> (key: usize) {
        let ghost pa = self.link_parent@;
        let ghost d = self.depth@;
        let ghost pl = self.payload@;
        let key = self.payload.len();
        self.link_parent.push(key);
        self.payload.push(Some(data));
        self.depth = Ghost(self.depth@.push(0nat));
        proof {
            let pa2 = self.link_parent@;
            let d2 = self.depth@;
            assert forall|j: int| 0 <= j < pa.len() implies root_in(pa2, d2, j) == root_in(
                pa,
                d,
                j,
            ) by {
                lemma_push_root(pa, d, pa2, d2, j);
            }
            assert(root_in(pa2, d2, key as int) == key as int);
            assert(final(self)@.roots =~= old(self)@.grown(data).roots);
            assert(final(self)@.payloads =~= old(self)@.grown(data).payloads);
            assert(final(self)@ =~= old(self)@.grown(data));
        }
        key
    }

    fn union(&mut self, key0: usize, key1: usize) -> (r: bool) {
        let ghost m0 = self@;
        let k0 = self.find(key0);
        let k1 = self.find(key1);
        if k0 == k1 {
            return false;
        }
        proof {
            let pa = self.link_parent@;
            let d = self.depth@;
            lemma_root_in_props(pa, d, key0 as int);
            lemma_root_in_props(pa, d, key1 as int);
            assert(k0 as int == self@.roots[key0 as int]);
            assert(k0 as int == root_in(pa, d, key0 as int));
            assert(k1 as int == root_in(pa, d, key1 as int));
            assert(pa[k0 as int] as int == k0 as int);
            assert(pa[k1 as int] as int == k1 as int);
        }

        // Move both root payloads out of their slots so the policy receives
        // owned values; exactly one surviving slot is refilled below.
        let v0 = match take_at(&mut self.payload, k0) {
            Some(v) => v,
            None => unreached(),
        };
        let v1 = match take_at(&mut self.payload, k1) {
            Some(v) => v,
            None => unreached(),
        };
        assert(v0 == m0.payloads[m0.root_of(key0 as int)]);
        assert(v1 == m0.payloads[m0.root_of(key1 as int)]);

        let (parent, child, val) = match V::union(v0, v1) {
            UnionResult::Left(val) => (k0, k1, val),
            UnionResult::Right(val) => (k1, k0, val),
        };
        self.payload[parent] = Some(val);

        let ghost pa = self.link_parent@;
        let ghost d = self.depth@;
        let ghost d2 = Seq::new(
            d.len(),
            |i: int| if root_in(pa, d, i) == child as int {
                (d[i] + d[parent as int] + 1) as nat
            } else {
                d[i]
            },
        );
        self.link_parent[child] = parent;
        self.depth = Ghost(d2);
        proof {
            let pa2 = self.link_parent@;
            lemma_link_ok(pa, d, child as int, parent as int, pa2, d2);
            assert forall|j: int| 0 <= j < pa.len() implies root_in(pa2, d2, j) == (if root_in(
                pa,
                d,
                j,
            ) == child as int {
                parent as int
            } else {
                root_in(pa, d, j)
            }) by {
                lemma_link_root(pa, d, child as int, parent as int, pa2, d2, j);
            }
            let mm = m0.merged(key0 as int, key1 as int);
            assert(final(self)@.roots =~= mm.roots);
            assert(final(self)@.payloads =~= mm.payloads);
            assert(final(self)@ =~= mm);
        }
        true
    }

    fn find(&mut self, key: usize) -> (r: usize) {
        let ghost o = *old(self);
        let mut k = key;
        let mut p = self.link_parent[k];
        while p != k
            invariant
                qu_wf(o.link_parent@, o.depth@, o.payload@),
                parents_ok(self.link_parent@, self.depth@),
                self.depth@ == o.depth@,
                self.payload@ == o.payload@,
                self.link_parent@.len() == o.link_parent@.len(),
                0 <= k < self.link_parent@.len(),
                self.link_parent@[k as int] == p,
                forall|i: int|
                    0 <= i < self.link_parent@.len() ==> ((#[trigger] self.link_parent@[i]) as int
                        == i <==> o.link_parent@[i] as int == i),
                forall|j: int|
                    0 <= j < self.link_parent@.len() ==> #[trigger] root_in(
                        self.link_parent@,
                        self.depth@,
                        j,
                    ) == root_in(o.link_parent@, o.depth@, j),
                root_in(self.link_parent@, self.depth@, k as int) == root_in(
                    o.link_parent@,
                    o.depth@,
                    key as int,
                ),
            decreases self.depth@[k as int],
        {
            let ghost pa = self.link_parent@;
            let ghost d = self.depth@;
            let pp = self.link_parent[p];
            self.link_parent[k] = pp;
            proof {
                lemma_halve_ok(pa, d, k as int, self.link_parent@);
                assert forall|j: int| 0 <= j < pa.len() implies #[trigger] root_in(
                    self.link_parent@,
                    d,
                    j,
                ) == root_in(pa, d, j) by {
                    lemma_halve_root(pa, d, k as int, self.link_parent@, j);
                }
            }
            k = p;
            p = pp;
        }
        proof {
            assert(root_in(self.link_parent@, self.depth@, k as int) == k as int);
            assert(final(self)@.roots =~= o@.roots);
            assert(final(self)@.payloads =~= o@.payloads);
            assert(final(self)@ =~= o@);
        }
        k
    }

    fn get(&mut self, key: usize) -> (r: &V) {
        let root_key = self.find(key);
        proof {
            let pa = self.link_parent@;
            let d = self.depth@;
            lemma_root_in_props(pa, d, key as int);
            assert(root_key as int == self@.roots[key as int]);
            assert(root_key as int == root_in(pa, d, key as int));
            assert(pa[root_key as int] as int == root_key as int);
        }
        match &self.payload[root_key] {
            Some(v) => v,
            None => unreached(),
        }
    }

    fn get_mut(&mut self, key: usize) -> (r: &mut V) {
        let root_key = self.find(key);
        let ghost pa = self.link_parent@;
        let ghost d = self.depth@;
        let ghost pl = self.payload@;
        proof {
            lemma_root_in_props(pa, d, key as int);
            assert(root_key as int == self@.roots[key as int]);
            assert(root_key as int == root_in(pa, d, key as int));
            assert(pa[root_key as int] as int == root_key as int);
            let mid = qu_model(pa, d, pl);
            assert forall|vv: V| qu_model(pa, d, pl.update(root_key as int, Some(vv)))
                =~= mid.with_payload(key as int, vv) by {
                assert(qu_model(pa, d, pl.update(root_key as int, Some(vv))).payloads
                    =~= mid.with_payload(key as int, vv).payloads);
            }
        }
        match &mut self.payload[root_key] {
            Some(v) => v,
            None => unreached(),
        }
    }
}

} // verus!
