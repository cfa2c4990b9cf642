use vstd::prelude::*;
use vstd::seq_lib::*;

use crate::model::UfModel;
use crate::slot::{copy_all, take_at};
use crate::traits::{Union, UnionFind, UnionResult};
use vstd::pervasive::unreached;

verus! {

// ---------------------------------------------------------------------------
// Sibling chains.
//
// `rt` stores every element's representative directly, so `find` is one array
// read.  To make `union` affordable, the members of each class are threaded
// on a chain through `sib`: the chain starts at the class's root, each link
// points at the next member, and the last member points at itself.  The ghost
// map `ch` records each class's chain as a sequence, which is what the proofs
// walk.
// ---------------------------------------------------------------------------

/// The payload of one class, stored at the class's root together with the
/// tail of the class's sibling chain (the tail makes splicing two chains a
/// constant-time step).
pub(crate) struct Payload<V> {
    pub(crate) data: V,
    pub(crate) link_last_child: usize,
}

/// `c` lists the members of the class rooted at `r`, in chain order: it
/// starts at `r`, follows `sib`, ends at the self-linked tail `last`, visits
/// no element twice, and stays inside `r`'s class.
pub(crate) open spec fn chain_ok(
    rt: Seq<usize>,
    sib: Seq<usize>,
    r: int,
    c: Seq<int>,
    last: int,
) -> bool {
    &&& c.len() >= 1
    &&& c[0] == r
    &&& c.last() == last
    &&& c.no_duplicates()
    &&& forall|q: int| 0 <= q < c.len() ==> 0 <= #[trigger] c[q] < rt.len()
    &&& forall|q: int| 0 <= q < c.len() ==> rt[#[trigger] c[q]] as int == r
    &&& forall|q: int| 0 <= q < c.len() - 1 ==> sib[#[trigger] c[q]] as int == c[q + 1]
    &&& sib[c.last()] as int == c.last()
}

/// The engine's invariant over its raw state: every root index is a fixed
/// point of `rt`, a payload sits exactly at each root, and the chain map
/// holds, for each root, a chain that covers the root's class exactly.
pub(crate) open spec fn qf_wf<V>(
    rt: Seq<usize>,
    sib: Seq<usize>,
    pl: Seq<Option<Payload<V>>>,
    ch: Map<int, Seq<int>>,
) -> bool {
    &&& sib.len() == rt.len()
    &&& pl.len() == rt.len()
    &&& forall|i: int| 0 <= i < rt.len() ==> (#[trigger] rt[i]) < rt.len()
    &&& forall|i: int| 0 <= i < rt.len() ==> rt[(#[trigger] rt[i]) as int] == rt[i]
    &&& forall|i: int| 0 <= i < rt.len() ==> ((#[trigger] pl[i]) is Some <==> rt[i] as int == i)
    &&& ch.dom() == Set::new(|r: int| 0 <= r < rt.len() && rt[r] as int == r)
    &&& forall|r: int|
        #[trigger] ch.dom().contains(r) ==> chain_ok(
            rt,
            sib,
            r,
            ch[r],
            pl[r].unwrap().link_last_child as int,
        )
    &&& forall|j: int| 0 <= j < rt.len() ==> (#[trigger] ch[rt[j] as int]).contains(j)
}

/// What the root array and the payload slots abstract to.
pub(crate) open spec fn qf_model<V>(rt: Seq<usize>, pl: Seq<Option<Payload<V>>>) -> UfModel<V> {
    UfModel {
        roots: Seq::new(rt.len(), |i: int| rt[i] as int),
        payloads: Map::new(
            |r: int| 0 <= r < rt.len() && rt[r] as int == r,
            |r: int| pl[r].unwrap().data,
        ),
    }
}

/// The root array after the first `i` chain members of `c` are repainted to
/// `w`, one update per member, in chain order.
pub(crate) open spec fn recolored(rt: Seq<usize>, c: Seq<int>, i: int, w: usize) -> Seq<usize>
    decreases i,
{
    if i <= 0 {
        rt
    } else {
        recolored(rt, c, i - 1, w).update(c[i - 1], w)
    }
}

/// Pointwise reading of `recolored`: a repainted member shows `w`, everything
/// else still shows its old root.
pub(crate) proof fn lemma_recolored_index(rt: Seq<usize>, c: Seq<int>, i: int, w: usize, j: int)
    requires
        0 <= i <= c.len(),
        forall|q: int| 0 <= q < c.len() ==> 0 <= #[trigger] c[q] < rt.len(),
        0 <= j < rt.len(),
    ensures
        recolored(rt, c, i, w).len() == rt.len(),
        recolored(rt, c, i, w)[j] == (if exists|q: int| 0 <= q < i && #[trigger] c[q] == j {
            w
        } else {
            rt[j]
        }),
    decreases i,
{
    if i > 0 {
        lemma_recolored_index(rt, c, i - 1, w, j);
        if c[i - 1] == j {
            assert(0 <= i - 1 < i && c[i - 1] == j);
        } else {
            if exists|q: int| 0 <= q < i && #[trigger] c[q] == j {
                let q = choose|q: int| 0 <= q < i && #[trigger] c[q] == j;
                assert(0 <= q < i - 1 && c[q] == j);
            }
        }
    }
}

/// The length of a recoloured root array never changes.
pub(crate) proof fn lemma_recolored_len(rt: Seq<usize>, c: Seq<int>, i: int, w: usize)
    requires
        0 <= i <= c.len(),
        forall|q: int| 0 <= q < c.len() ==> 0 <= #[trigger] c[q] < rt.len(),
    ensures
        recolored(rt, c, i, w).len() == rt.len(),
    decreases i,
{
    if i > 0 {
        lemma_recolored_len(rt, c, i - 1, w);
    }
}

/// The spliced and repainted state still carries a valid chain for the
/// winning root: the winner's old chain followed by the loser's old chain.
pub(crate) proof fn lemma_merged_chain_ok<V>(
    rt0: Seq<usize>,
    sib0: Seq<usize>,
    pl0: Seq<Option<Payload<V>>>,
    ch0: Map<int, Seq<int>>,
    w: int,
    l: int,
    rt2: Seq<usize>,
    sib2: Seq<usize>,
)
    requires
        qf_wf(rt0, sib0, pl0, ch0),
        0 <= w < rt0.len(),
        0 <= l < rt0.len(),
        w != l,
        rt0[w] as int == w,
        rt0[l] as int == l,
        rt2.len() == rt0.len(),
        forall|j: int|
            0 <= j < rt0.len() ==> (#[trigger] rt2[j]) as int == (if rt0[j] as int == l {
                w
            } else {
                rt0[j] as int
            }),
        sib2 == sib0.update(ch0[w].last(), l as usize),
    ensures
        chain_ok(rt2, sib2, w, ch0[w] + ch0[l], ch0[l].last()),
{
    let cw = ch0[w];
    let cl = ch0[l];
    let cm = cw + cl;
    assert(ch0.dom().contains(w));
    assert(ch0.dom().contains(l));
    assert(chain_ok(rt0, sib0, w, cw, pl0[w].unwrap().link_last_child as int));
    assert(chain_ok(rt0, sib0, l, cl, pl0[l].unwrap().link_last_child as int));
    let last = cw.last();
    assert(cm[0] == cw[0]);
    assert(cm.last() == cl.last());
    assert forall|q: int| 0 <= q < cm.len() implies 0 <= #[trigger] cm[q] < rt0.len() && rt2[cm[q]]
        as int == w by {
        if q < cw.len() {
            assert(cm[q] == cw[q]);
            assert(rt0[cw[q]] as int == w);
        } else {
            assert(cm[q] == cl[q - cw.len()]);
            assert(rt0[cl[q - cw.len()]] as int == l);
        }
    }
    assert(cm.no_duplicates()) by {
        assert forall|q0: int, q1: int|
            0 <= q0 < cm.len() && 0 <= q1 < cm.len() && q0 != q1 implies #[trigger] cm[q0]
            != #[trigger] cm[q1] by {
            if q0 < cw.len() && q1 < cw.len() {
                assert(cm[q0] == cw[q0] && cm[q1] == cw[q1]);
            } else if q0 >= cw.len() && q1 >= cw.len() {
                assert(cm[q0] == cl[q0 - cw.len()] && cm[q1] == cl[q1 - cw.len()]);
            } else if q0 < cw.len() {
                assert(rt0[cw[q0]] as int == w && rt0[cl[q1 - cw.len()]] as int == l);
            } else {
                assert(rt0[cl[q0 - cw.len()]] as int == l && rt0[cw[q1]] as int == w);
            }
        }
    }
    assert forall|q: int| 0 <= q < cm.len() - 1 implies sib2[#[trigger] cm[q]] as int == cm[q + 1]
        by {
        if q < cw.len() - 1 {
            assert(cm[q] == cw[q] && cm[q + 1] == cw[q + 1]);
            assert(cw[q] != last);
            assert(sib2[cw[q]] == sib0[cw[q]]);
            assert(sib0[cw[q]] as int == cw[q + 1]);
        } else if q == cw.len() - 1 {
            assert(cm[q] == last);
            assert(cm[q + 1] == cl[0]);
            assert(sib2[last] as int == l);
        } else {
            assert(cm[q] == cl[q - cw.len()] && cm[q + 1] == cl[q + 1 - cw.len()]);
            assert(rt0[cl[q - cw.len()]] as int == l);
            assert(cl[q - cw.len()] != last);
            assert(sib2[cl[q - cw.len()]] == sib0[cl[q - cw.len()]]);
            assert(sib0[cl[q - cw.len()]] as int == cl[q - cw.len() + 1]);
        }
    }
    assert(rt0[cm.last()] as int == l);
    assert(cm.last() != last);
    assert(sib2[cm.last()] == sib0[cl.last()]);
    assert(sib2[cm.last()] as int == cm.last());
}

/// After the merge, the whole state is well formed again: the winner's chain
/// covers the united class, every other chain is untouched, and the payload
/// slots moved from the two old roots to the one surviving root.
pub(crate) proof fn lemma_union_wf<V>(
    rt0: Seq<usize>,
    sib0: Seq<usize>,
    pl0: Seq<Option<Payload<V>>>,
    ch0: Map<int, Seq<int>>,
    w: int,
    l: int,
    data: V,
    last2: usize,
    rt2: Seq<usize>,
    sib2: Seq<usize>,
    pl2: Seq<Option<Payload<V>>>,
    ch2: Map<int, Seq<int>>,
)
    requires
        qf_wf(rt0, sib0, pl0, ch0),
        0 <= w < rt0.len(),
        0 <= l < rt0.len(),
        w != l,
        rt0[w] as int == w,
        rt0[l] as int == l,
        rt2.len() == rt0.len(),
        forall|j: int|
            0 <= j < rt0.len() ==> (#[trigger] rt2[j]) as int == (if rt0[j] as int == l {
                w
            } else {
                rt0[j] as int
            }),
        sib2 == sib0.update(ch0[w].last(), l as usize),
        last2 as int == ch0[l].last(),
        pl2 == pl0.update(l, None).update(w, Some(Payload { data, link_last_child: last2 })),
        ch2 == ch0.remove(l).insert(w, ch0[w] + ch0[l]),
    ensures
        qf_wf(rt2, sib2, pl2, ch2),
{
    lemma_merged_chain_ok(rt0, sib0, pl0, ch0, w, l, rt2, sib2);
    let cw = ch0[w];
    let cl = ch0[l];
    let cm = cw + cl;
    assert(ch0.dom().contains(w));
    assert(ch0.dom().contains(l));
    assert forall|i: int| 0 <= i < rt2.len() implies (#[trigger] rt2[i]) < rt2.len()
        && rt2[rt2[i] as int] == rt2[i] by {
        if rt0[i] as int == l {
            assert(rt2[i] as int == w);
            assert(rt2[w] as int == w);
        } else {
            assert(rt2[i] == rt0[i]);
            assert(rt0[rt0[i] as int] == rt0[i]);
            assert(rt0[rt0[i] as int] as int != l);
        }
    }
    assert forall|i: int| 0 <= i < rt2.len() implies ((#[trigger] pl2[i]) is Some <==> rt2[i] as int
        == i) by {
        if i == w {
        } else if i == l {
            assert(rt2[l] as int == w);
        } else {
            assert(pl2[i] == pl0[i]);
        }
    }
    assert forall|r: int| #[trigger] ch2.dom().contains(r) implies chain_ok(
        rt2,
        sib2,
        r,
        ch2[r],
        pl2[r].unwrap().link_last_child as int,
    ) by {
        if r == w {
            assert(ch2[w] == cm);
            assert(pl2[w].unwrap().link_last_child as int == cl.last());
        } else {
            let c = ch0[r];
            assert(ch0.dom().contains(r));
            assert(chain_ok(rt0, sib0, r, c, pl0[r].unwrap().link_last_child as int));
            assert forall|q: int| 0 <= q < c.len() implies rt2[#[trigger] c[q]] == rt0[c[q]]
                && sib2[c[q]] == sib0[c[q]] by {
                assert(rt0[c[q]] as int == r);
                assert(rt0[cw.last()] as int == w);
            }
            assert(sib2[c.last()] as int == c.last());
            assert(pl2[r] == pl0[r]);
        }
    }
    assert(ch2.dom() =~= Set::new(|r: int| 0 <= r < rt2.len() && rt2[r] as int == r));
    assert forall|j: int| 0 <= j < rt2.len() implies (#[trigger] ch2[rt2[j] as int]).contains(j) by {
        assert(ch0[rt0[j] as int].contains(j));
        if rt0[j] as int == l {
            let q = choose|q: int| 0 <= q < cl.len() && #[trigger] cl[q] == j;
            assert(cm[cw.len() + q] == j);
            assert(rt2[j] as int == w);
        } else if rt0[j] as int == w {
            let q = choose|q: int| 0 <= q < cw.len() && #[trigger] cw[q] == j;
            assert(cm[q] == j);
            assert(rt2[j] as int == w);
        } else {
            assert(ch2[rt0[j] as int] == ch0[rt0[j] as int]);
        }
    }
}

/// After the merge, the visible partition is exactly the model-level
/// `relink`: the loser's class repainted to the winner, the merged payload at
/// the winner, and everything else untouched.
pub(crate) proof fn lemma_union_view<V: Union>(
    rt0: Seq<usize>,
    sib0: Seq<usize>,
    pl0: Seq<Option<Payload<V>>>,
    ch0: Map<int, Seq<int>>,
    w: int,
    l: int,
    data: V,
    last2: usize,
    rt2: Seq<usize>,
    pl2: Seq<Option<Payload<V>>>,
)
    requires
        qf_wf(rt0, sib0, pl0, ch0),
        0 <= w < rt0.len(),
        0 <= l < rt0.len(),
        w != l,
        rt0[w] as int == w,
        rt0[l] as int == l,
        rt2.len() == rt0.len(),
        forall|j: int|
            0 <= j < rt0.len() ==> (#[trigger] rt2[j]) as int == (if rt0[j] as int == l {
                w
            } else {
                rt0[j] as int
            }),
        pl2 == pl0.update(l, None).update(w, Some(Payload { data, link_last_child: last2 })),
    ensures
        qf_model(rt2, pl2) == qf_model(rt0, pl0).relink(w, l, data),
{
    let m0 = qf_model(rt0, pl0);
    let mm = m0.relink(w, l, data);
    assert forall|j: int| 0 <= j < rt0.len() implies qf_model(rt2, pl2).roots[j] == mm.roots[j] by {
        assert(rt2[j] as int == (if rt0[j] as int == l {
            w
        } else {
            rt0[j] as int
        }));
    }
    assert(qf_model(rt2, pl2).roots =~= mm.roots);
    assert forall|i: int| 0 <= i < rt2.len() implies ((#[trigger] rt2[i]) as int == i <==> (rt0[i]
        as int == i && i != l)) by {
        if rt0[i] as int == l {
            assert(rt2[i] as int == w);
        }
    }
    assert(qf_model(rt2, pl2).payloads =~= mm.payloads);
    assert(qf_model(rt2, pl2) =~= mm);
}


/// Union-Find implementation with a quick find operation.
///
/// `find` is a single array read.  The price is paid by `union`, which must
/// walk the whole losing class to repaint its root entries: its cost is
/// linear in the size of the losing class (whichever side the merge policy
/// picks as loser — the structure deliberately does not switch to walking the
/// smaller side).  Favour [`crate::QuickUnionUf`] when unions dominate on
/// large classes, and this engine when finds dominate or classes stay small.
pub struct QuickFindUf<V> {
    link_root: Vec<usize>,
    link_sibling: Vec<usize>,
    payload: Vec<Option<Payload<V>>>,
    chains: Ghost<Map<int, Seq<int>>>,
}

impl<V> View for QuickFindUf<V> {
    type V = UfModel<V>;

    closed spec fn view(&self) -> UfModel<V> {
        qf_model(self.link_root@, self.payload@)
    }
}

impl<V: Union> QuickFindUf<V> {
    /// Appends one fresh element as its own singleton class.
    fn push_singleton(&mut self, data: V) -> (key: usize)
        requires
            qf_wf(
                old(self).link_root@,
                old(self).link_sibling@,
                old(self).payload@,
                old(self).chains@,
            ),
            old(self).link_root@.len() < usize::MAX,
        ensures
            qf_wf(
                final(self).link_root@,
                final(self).link_sibling@,
                final(self).payload@,
                final(self).chains@,
            ),
            key as nat == old(self)@.n(),
            final(self)@ == old(self)@.grown(data),
    {
        let ghost rt = self.link_root@;
        let ghost sib = self.link_sibling@;
        let ghost pl = self.payload@;
        let ghost ch = self.chains@;
        let key = self.payload.len();
        self.link_root.push(key);
        self.link_sibling.push(key);
        self.payload.push(Some(Payload { data, link_last_child: key }));
        self.chains = Ghost(self.chains@.insert(key as int, seq![key as int]));
        proof {
            let rt2 = self.link_root@;
            let sib2 = self.link_sibling@;
            let pl2 = self.payload@;
            let ch2 = self.chains@;
            let n = rt.len() as int;
            assert forall|r: int| #[trigger] ch2.dom().contains(r) implies chain_ok(
                rt2,
                sib2,
                r,
                ch2[r],
                pl2[r].unwrap().link_last_child as int,
            ) by {
                if r == n {
                    let c = ch2[r];
                    assert(c == seq![n]);
                    assert(c[0] == n);
                    assert(c.last() == n);
                    assert(rt2[n] as int == n);
                    assert(sib2[n] as int == n);
                } else {
                    let c = ch[r];
                    assert(chain_ok(rt, sib, r, c, pl[r].unwrap().link_last_child as int));
                    assert forall|q: int| 0 <= q < c.len() implies rt2[#[trigger] c[q]] == rt[c[q]]
                        && sib2[c[q]] == sib[c[q]] by {}
                    assert(sib2[c.last()] as int == c.last());
                }
            }
            assert(ch2.dom() =~= Set::new(|r: int| 0 <= r < rt2.len() && rt2[r] as int == r));
            assert forall|j: int| 0 <= j < rt2.len() implies (#[trigger] ch2[rt2[j] as int]).contains(
                j,
            ) by {
                if j < n {
                    assert(rt2[j] == rt[j]);
                    assert(ch[rt[j] as int].contains(j));
                    assert(rt[j] as int != n);
                } else {
                    assert(rt2[j] as int == n);
                    assert(ch2[n] == seq![n]);
                    assert(ch2[n][0] == j);
                }
            }
            assert(self@.roots =~= qf_model(rt, pl).grown(data).roots);
            assert(self@.payloads =~= qf_model(rt, pl).grown(data).payloads);
            assert(self@ =~= qf_model(rt, pl).grown(data));
        }
        key
    }
}

impl<V: Union> QuickFindUf<V> {
    /// Appends one singleton class for each value in `items`, in order: the
    /// value at position `j` becomes the payload of new element `n + j`,
    /// where `n` is the element count from before the call.
    pub fn extend_with(&mut self, items: Vec<V>)
        requires
            old(self).wf(),
            old(self)@.n() + items@.len() <= usize::MAX,
        ensures
            final(self).wf(),
            final(self)@.n() == old(self)@.n() + items@.len(),
            forall|k: int|
                0 <= k < old(self)@.n() ==> #[trigger] final(self)@.roots[k] == old(self)@.roots[k],
            forall|j: int|
                0 <= j < items@.len() ==> #[trigger] final(self)@.roots[old(self)@.n() + j]
                    == old(self)@.n() + j,
            forall|j: int|
                0 <= j < items@.len() ==> #[trigger] final(self)@.payloads[old(self)@.n() + j]
                    == items@[j],
            forall|r: int|
                0 <= r < old(self)@.n() && old(self)@.payloads.dom().contains(r)
                    ==> #[trigger] final(self)@.payloads[r] == old(self)@.payloads[r],
    {
        let ghost m = old(self)@;
        let ghost items0 = items@;
        let mut items = items;
        let mut i: usize = 0;
        while items.len() > 0
            invariant
                self.wf(),
                i <= items0.len(),
                i + items@.len() == items0.len(),
                items@ == items0.subrange(i as int, items0.len() as int),
                m.n() + items0.len() <= usize::MAX,
                self@.n() == m.n() + i,
                forall|k: int| 0 <= k < m.n() ==> #[trigger] self@.roots[k] == m.roots[k],
                forall|j: int| 0 <= j < i ==> #[trigger] self@.roots[m.n() + j] == m.n() + j,
                forall|j: int| 0 <= j < i ==> #[trigger] self@.payloads[m.n() + j] == items0[j],
                forall|r: int|
                    0 <= r < m.n() && m.payloads.dom().contains(r)
                        ==> #[trigger] self@.payloads[r] == m.payloads[r],
            decreases items0.len() - i,
        {
            let v = items.remove(0);
            proof {
                assert(v == items0[i as int]);
                assert(items@ =~= items0.subrange(i + 1, items0.len() as int));
            }
            let ghost prev = self@;
            let _ = self.insert(v);
            proof {
                assert(self@ == prev.grown(items0[i as int]));
            }
            i += 1;
        }
    }

    /// Builds a structure whose elements are exactly the given payload
    /// values: element `k` starts as a singleton class holding `items[k]`.
    pub fn from_items(items: Vec<V>) -> (uf: Self)
        requires
            items@.len() <= usize::MAX,
        ensures
            uf.wf(),
            uf@.n() == items@.len(),
            forall|k: int| 0 <= k < items@.len() ==> #[trigger] uf@.root_of(k) == k,
            forall|k: int| 0 <= k < items@.len() ==> #[trigger] uf@.payloads[k] == items@[k],
    {
        let mut uf = QuickFindUf {
            link_root: Vec::new(),
            link_sibling: Vec::new(),
            payload: Vec::new(),
            chains: Ghost(Map::empty()),
        };
        let ghost m = uf@;
        proof {
            assert(m.n() == 0);
            assert(uf.chains@.dom() =~= Set::new(
                |r: int| 0 <= r < uf.link_root@.len() && uf.link_root@[r] as int == r,
            ));
        }
        uf.extend_with(items);
        proof {
            assert forall|k: int| 0 <= k < items@.len() implies #[trigger] uf@.root_of(k)
                == k by {
                assert(uf@.roots[m.n() + k] == m.n() + k);
            }
            assert forall|k: int| 0 <= k < items@.len() implies #[trigger] uf@.payloads[k]
                == items@[k] by {
                assert(uf@.payloads[m.n() + k] == items@[k]);
            }
        }
        uf
    }
}

/// Clones the payload slots of one structure: empty slots stay empty, chain
/// tails are kept as they are, and each stored payload value is cloned.
fn clone_payload_slots<V: Clone>(v: &Vec<Option<Payload<V>>>) -> (r: Vec<Option<Payload<V>>>)
    ensures
        r@.len() == v@.len(),
        forall|i: int| 0 <= i < v@.len() ==> ((#[trigger] r@[i]) is Some <==> v@[i] is Some),
        forall|i: int|
            0 <= i < v@.len() && (#[trigger] v@[i]) is Some ==> r@[i].unwrap().link_last_child
                == v@[i].unwrap().link_last_child && cloned::<V>(
                v@[i].unwrap().data,
                r@[i].unwrap().data,
            ),
{
    let mut r: Vec<Option<Payload<V>>> = Vec::new();
    let mut i: usize = 0;
    while i < v.len()
        invariant
            i <= v.len(),
            r@.len() == i,
            forall|k: int| 0 <= k < i ==> ((#[trigger] r@[k]) is Some <==> v@[k] is Some),
            forall|k: int|
                0 <= k < i && (#[trigger] v@[k]) is Some ==> r@[k].unwrap().link_last_child
                    == v@[k].unwrap().link_last_child && cloned::<V>(
                    v@[k].unwrap().data,
                    r@[k].unwrap().data,
                ),
        decreases v.len() - i,
    {
        match &v[i] {
            Some(p) => {
                r.push(Some(Payload { data: p.data.clone(), link_last_child: p.link_last_child }));
            },
            None => {
                r.push(None);
            },
        }
        i += 1;
    }
    r
}

impl<V: Union + Clone> Clone for QuickFindUf<V> {
    /// A fully independent deep copy: the clone shows the same partition,
    /// each class payload is a clone of its counterpart, and mutating either
    /// side never affects the other.
    fn clone(&self) -> (r: Self)
        ensures
            r@.roots == self@.roots,
            r@.payloads.dom() == self@.payloads.dom(),
            self.wf() ==> forall|k: int|
                #[trigger] r@.payloads.dom().contains(k) ==> cloned::<V>(
                    self@.payloads[k],
                    r@.payloads[k],
                ),
            self.wf() ==> r.wf(),
    {
        let r = QuickFindUf {
            link_root: copy_all(&self.link_root),
            link_sibling: copy_all(&self.link_sibling),
            payload: clone_payload_slots(&self.payload),
            chains: Ghost(self.chains@),
        };
        proof {
            assert(r@.roots =~= self@.roots);
            assert(r@.payloads.dom() =~= self@.payloads.dom());
            if self.wf() {
                assert forall|k: int| #[trigger] r@.payloads.dom().contains(k) implies cloned::<V>(
                    self@.payloads[k],
                    r@.payloads[k],
                ) by {
                    assert(self.payload@[k] is Some);
                }
                assert forall|c: int| #[trigger] r.chains@.dom().contains(c) implies chain_ok(
                    r.link_root@,
                    r.link_sibling@,
                    c,
                    r.chains@[c],
                    r.payload@[c].unwrap().link_last_child as int,
                ) by {
                    assert(self.payload@[c] is Some);
                    assert(chain_ok(
                        self.link_root@,
                        self.link_sibling@,
                        c,
                        self.chains@[c],
                        self.payload@[c].unwrap().link_last_child as int,
                    ));
                }
            }
        }
        r
    }
}

impl<V: Union> UnionFind<V> for QuickFindUf<V> {
    closed spec fn wf(&self) -> bool {
        qf_wf(self.link_root@, self.link_sibling@, self.payload@, self.chains@)
    }

    proof fn lemma_wf_model(&self) {
        assert(self@.payloads.dom() =~= Set::new(|r: int| self@.is_root(r)));
    }

    fn new(len: usize) -> (uf: Self) where V: Default {
        let mut uf = QuickFindUf {
            link_root: Vec::new(),
            link_sibling: Vec::new(),
            payload: Vec::new(),
            chains: Ghost(Map::empty()),
        };
        proof {
            assert(uf.chains@.dom() =~= Set::new(
                |r: int| 0 <= r < uf.link_root@.len() && uf.link_root@[r] as int == r,
            ));
        }
        let mut i: usize = 0;
        while i < len
            invariant
                i <= len,
                qf_wf(uf.link_root@, uf.link_sibling@, uf.payload@, uf.chains@),
                uf@.n() == i,
                forall|k: int| 0 <= k < i ==> #[trigger] uf@.root_of(k) == k,
                forall|k: int|
                    0 <= k < i ==> call_ensures(V::default, (), #[trigger] uf@.payloads[k]),
            decreases len - i,
        {
            let data = V::default();
            let ghost m = uf@;
            let _ = uf.push_singleton(data);
            proof {
                assert(uf@ == m.grown(data));
                assert forall|k: int| 0 <= k < i + 1 implies #[trigger] uf@.root_of(k) == k by {
                    if k < i {
                        assert(m.root_of(k) == k);
                        assert(uf@.roots[k] == m.roots[k]);
                    } else {
                        assert(uf@.roots[k] == m.n() as int);
                    }
                }
                assert forall|k: int| 0 <= k < i + 1 implies call_ensures(
                    V::default,
                    (),
                    #[trigger] uf@.payloads[k],
                ) by {
                    if k < i {
                        assert(call_ensures(V::default, (), m.payloads[k]));
                        assert(uf@.payloads[k] == m.payloads[k]);
                    } else {
                        assert(uf@.payloads[k] == data);
                    }
                }
            }
            i += 1;
        }
        uf
    }

    fn size(&self) -> (r: usize) {
        self.payload.len()
    }

    fn insert(&mut self, data: V) -> (key: usize) {
        self.push_singleton(data)
    }

    fn union(&mut self, key0: usize, key1: usize) -> (r: bool) {
        let k0 = self.link_root[key0];
        let k1 = self.link_root[key1];
        if k0 == k1 {
            return false;
        }
        let ghost m0 = self@;
        let ghost rt0 = self.link_root@;
        let ghost sib0 = self.link_sibling@;
        let ghost pl0 = self.payload@;
        let ghost ch0 = self.chains@;
        proof {
            assert(rt0[k0 as int] as int == k0 as int);
            assert(rt0[k1 as int] as int == k1 as int);
        }

        // Move both root payloads out of their slots so the policy receives
        // owned values; exactly one surviving slot is refilled below.
        let p0 = match take_at(&mut self.payload, k0) {
            Some(p) => p,
            None => unreached(),
        };
        let p1 = match take_at(&mut self.payload, k1) {
            Some(p) => p,
            None => unreached(),
        };

        let (root, child_root, val, last) = match V::union(p0.data, p1.data) {
            UnionResult::Left(v) => (k0, k1, v, p0.link_last_child),
            UnionResult::Right(v) => (k1, k0, v, p1.link_last_child),
        };

        let ghost cw = ch0[root as int];
        let ghost cl = ch0[child_root as int];
        let ghost pl1 = self.payload@;
        proof {
            assert(ch0.dom().contains(root as int));
            assert(ch0.dom().contains(child_root as int));
            assert(chain_ok(rt0, sib0, root as int, cw, cw.last()));
            assert(chain_ok(rt0, sib0, child_root as int, cl, cl.last()));
            assert(last as int == cw.last());
            // The two chains lie in different classes, so they are disjoint;
            // in particular the splice point `last` is not on the losing chain.
            assert forall|q: int| 0 <= q < cl.len() implies #[trigger] cl[q] != last as int by {
                assert(rt0[cl[q]] as int == child_root as int);
                assert(rt0[last as int] as int == root as int);
            }
        }

        // Splice: the winner's old tail now points at the losing chain's head.
        self.link_sibling[last] = child_root;
        let ghost sib1 = self.link_sibling@;

        // Walk the losing chain and repaint every member's root entry.
        let mut elem = child_root;
        let ghost mut i: int = 0;
        while self.link_sibling[elem] != elem
            invariant
                chain_ok(rt0, sib0, root as int, cw, cw.last()),
                chain_ok(rt0, sib0, child_root as int, cl, cl.last()),
                forall|q: int| 0 <= q < cl.len() ==> #[trigger] cl[q] != last as int,
                rt0.len() == sib0.len(),
                0 <= last < rt0.len(),
                0 <= root < rt0.len(),
                0 <= child_root < rt0.len(),
                root != child_root,
                sib1 == sib0.update(last as int, child_root),
                self.link_sibling@ == sib1,
                self.payload@ == pl1,
                self.chains@ == ch0,
                self.link_root@.len() == rt0.len(),
                0 <= i < cl.len(),
                elem as int == cl[i],
                self.link_root@ == recolored(rt0, cl, i, root),
            decreases cl.len() - i,
        {
            proof {
                assert(cl[i] != last as int);
                assert(sib1[cl[i]] == sib0[cl[i]]);
                if i == cl.len() - 1 {
                    assert(sib0[cl.last()] as int == cl.last());
                    assert(false);
                }
                assert(sib0[cl[i]] as int == cl[i + 1]);
                lemma_recolored_len(rt0, cl, i, root);
            }
            self.link_root[elem] = root;
            proof {
                assert(self.link_root@ == recolored(rt0, cl, i, root).update(cl[i], root));
                assert(self.link_root@ == recolored(rt0, cl, i + 1, root));
            }
            elem = self.link_sibling[elem];
            proof {
                i = i + 1;
            }
        }
        proof {
            // The walk stopped at a self-link, which only the tail carries.
            assert(sib1[cl[i]] == sib0[cl[i]]);
            if i < cl.len() - 1 {
                assert(sib0[cl[i]] as int == cl[i + 1]);
                assert(cl[i + 1] != cl[i]);
                assert(false);
            }
            assert(i == cl.len() - 1);
            assert(elem as int == cl.last());
            lemma_recolored_len(rt0, cl, i, root);
        }
        self.link_root[elem] = root;
        self.payload[root] = Some(Payload { data: val, link_last_child: elem });
        self.chains = Ghost(
            self.chains@.remove(child_root as int).insert(root as int, cw + cl),
        );
        proof {
            let w = root as int;
            let l = child_root as int;
            assert(self.link_root@ == recolored(rt0, cl, cl.len() as int, root)) by {
                assert(recolored(rt0, cl, cl.len() as int, root) == recolored(
                    rt0,
                    cl,
                    cl.len() - 1,
                    root,
                ).update(cl[cl.len() - 1], root));
            }
            let rt2 = self.link_root@;

            // Pointwise description of the repainted root array.
            assert forall|j: int| 0 <= j < rt0.len() implies (#[trigger] rt2[j]) as int == (if rt0[j]
                as int == l {
                w
            } else {
                rt0[j] as int
            }) by {
                lemma_recolored_index(rt0, cl, cl.len() as int, root, j);
                if rt0[j] as int == l {
                    assert(ch0[rt0[j] as int].contains(j));
                } else {
                    if exists|q: int| 0 <= q < cl.len() && #[trigger] cl[q] == j {
                        let q = choose|q: int| 0 <= q < cl.len() && #[trigger] cl[q] == j;
                        assert(rt0[cl[q]] as int == l);
                        assert(false);
                    }
                }
            }

            assert(self.payload@ =~= pl0.update(l, None).update(
                w,
                Some(Payload { data: val, link_last_child: elem }),
            ));
            lemma_union_wf(
                rt0,
                sib0,
                pl0,
                ch0,
                w,
                l,
                val,
                elem,
                rt2,
                self.link_sibling@,
                self.payload@,
                self.chains@,
            );
            lemma_union_view(
                rt0,
                sib0,
                pl0,
                ch0,
                w,
                l,
                val,
                elem,
                rt2,
                self.payload@,
            );
            assert(m0 == qf_model(rt0, pl0));
            assert(m0.root_of(key0 as int) == k0 as int);
            assert(m0.root_of(key1 as int) == k1 as int);
            assert(m0.merged(key0 as int, key1 as int) == m0.relink(w, l, val));
        }
        true
    }

    fn find(&mut self, key: usize) -> (r: usize) {
        self.link_root[key]
    }

    fn get(&mut self, key: usize) -> (r: &V) {
        let root_key = self.link_root[key];
        match &self.payload[root_key] {
            Some(p) => &p.data,
            None => unreached(),
        }
    }

    fn get_mut(&mut self, key: usize) -> (r: &mut V) {
        let root_key = self.link_root[key];
        let ghost rt = self.link_root@;
        let ghost sib = self.link_sibling@;
        let ghost pl = self.payload@;
        let ghost ch = self.chains@;
        proof {
            let mid = qf_model(rt, pl);
            let last0 = pl[root_key as int].unwrap().link_last_child;
            assert forall|vv: V|
                qf_wf(
                    rt,
                    sib,
                    #[trigger] pl.update(
                        root_key as int,
                        Some(Payload { data: vv, link_last_child: last0 }),
                    ),
                    ch,
                ) by {
                let pl2 = pl.update(
                    root_key as int,
                    Some(Payload { data: vv, link_last_child: last0 }),
                );
                assert forall|r: int| #[trigger] ch.dom().contains(r) implies chain_ok(
                    rt,
                    sib,
                    r,
                    ch[r],
                    pl2[r].unwrap().link_last_child as int,
                ) by {
                    assert(chain_ok(rt, sib, r, ch[r], pl[r].unwrap().link_last_child as int));
                    assert(pl2[r].unwrap().link_last_child == pl[r].unwrap().link_last_child);
                }
            }
            assert forall|vv: V|
                qf_model(
                    rt,
                    #[trigger] pl.update(
                        root_key as int,
                        Some(Payload { data: vv, link_last_child: last0 }),
                    ),
                ) =~= mid.with_payload(key as int, vv) by {
                let pl2 = pl.update(
                    root_key as int,
                    Some(Payload { data: vv, link_last_child: last0 }),
                );
                assert(qf_model(rt, pl2).roots =~= mid.with_payload(key as int, vv).roots);
                assert(qf_model(rt, pl2).payloads =~= mid.with_payload(key as int, vv).payloads);
            }
        }
        match &mut self.payload[root_key] {
            Some(p) => &mut p.data,
            None => unreached(),
        }
    }
}

} // verus!
