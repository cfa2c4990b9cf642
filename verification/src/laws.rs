use vstd::prelude::*;

use crate::model::UfModel;
use crate::traits::{Union, UnionFind, UnionResult};
use crate::union::UnionBySize;

verus! {

// ---------------------------------------------------------------------------
// Laws that hold of every engine, stated against the model.
// ---------------------------------------------------------------------------

/// A merge really connects: after the classes of `k0` and `k1` unite, both
/// keys resolve to one and the same representative, and the universe keeps
/// its size.  With `union`'s contract this also settles the repeated call: a
/// second `union` on the same pair sees equal roots, returns `false`, and
/// leaves the structure — payloads included — exactly as it was.
pub proof fn lemma_merged_connects<V: Union>(m: UfModel<V>, k0: int, k1: int)
    requires
        m.inv(),
        m.valid_key(k0),
        m.valid_key(k1),
        m.root_of(k0) != m.root_of(k1),
    ensures
        m.merged(k0, k1).n() == m.n(),
        m.merged(k0, k1).inv(),
        m.merged(k0, k1).root_of(k0) == m.merged(k0, k1).root_of(k1),
{
    let r0 = m.root_of(k0);
    let r1 = m.root_of(k1);
    match V::union_spec(m.payloads[r0], m.payloads[r1]) {
        UnionResult::Left(v) => {
            lemma_relink_inv(m, r0, r1, v);
        },
        UnionResult::Right(v) => {
            lemma_relink_inv(m, r1, r0, v);
        },
    }
}

/// Absorbing the class of `loser` into the class of `winner` yields a
/// well-formed model again: every element still resolves to a representative,
/// and exactly the surviving representatives carry payloads.
pub proof fn lemma_relink_inv<V: Union>(m: UfModel<V>, winner: int, loser: int, v: V)
    requires
        m.inv(),
        m.is_root(winner),
        m.is_root(loser),
        winner != loser,
    ensures
        m.relink(winner, loser, v).n() == m.n(),
        m.relink(winner, loser, v).inv(),
        forall|k: int|
            m.valid_key(k) ==> #[trigger] m.relink(winner, loser, v).root_of(k) == (if m.root_of(k)
                == loser {
                winner
            } else {
                m.root_of(k)
            }),
{
    let mm = m.relink(winner, loser, v);
    assert forall|k: int| mm.valid_key(k) implies mm.valid_key(#[trigger] mm.roots[k])
        && mm.roots[mm.roots[k]] == mm.roots[k] by {
        assert(m.valid_key(m.roots[k]));
        if m.roots[k] == loser {
            assert(mm.roots[k] == winner);
            assert(m.roots[winner] == winner);
        } else {
            assert(m.roots[m.roots[k]] == m.roots[k]);
        }
    }
    assert(mm.payloads.dom() =~= Set::new(|r: int| mm.is_root(r)));
}

// ---------------------------------------------------------------------------
// Laws special to the size policy.
// ---------------------------------------------------------------------------

/// The contribution of slot `i` to the total size: the stored class size if
/// `i` is a representative, nothing otherwise.
pub open spec fn size_at(m: UfModel<UnionBySize>, i: int) -> int {
    if m.is_root(i) {
        m.payloads[i].0 as int
    } else {
        0
    }
}

/// The sum of the class sizes stored at the representatives among the first
/// `k` slots.
pub open spec fn size_sum(m: UfModel<UnionBySize>, k: int) -> int
    decreases k,
{
    if k <= 0 {
        0
    } else {
        size_sum(m, k - 1) + size_at(m, k - 1)
    }
}

/// Conservation: the class sizes of all distinct representatives sum to the
/// element count.
pub open spec fn conserved(m: UfModel<UnionBySize>) -> bool {
    size_sum(m, m.n() as int) == m.n()
}

/// Two models that agree slot by slot up to `k` have the same partial sum.
proof fn lemma_sum_agree(m: UfModel<UnionBySize>, mm: UfModel<UnionBySize>, k: int)
    requires
        forall|i: int| 0 <= i < k ==> size_at(mm, i) == size_at(m, i),
    ensures
        size_sum(mm, k) == size_sum(m, k),
    decreases k,
{
    if k > 0 {
        lemma_sum_agree(m, mm, k - 1);
    }
}

/// Two models that agree slot by slot except at `a` and `b` differ in sum by
/// exactly the change at those two slots.
proof fn lemma_sum_two_changed(
    m: UfModel<UnionBySize>,
    mm: UfModel<UnionBySize>,
    a: int,
    b: int,
    k: int,
)
    requires
        a != b,
        forall|i: int| 0 <= i < k && i != a && i != b ==> size_at(mm, i) == size_at(m, i),
    ensures
        size_sum(mm, k) == size_sum(m, k) + (if 0 <= a < k {
            size_at(mm, a) - size_at(m, a)
        } else {
            0
        }) + (if 0 <= b < k {
            size_at(mm, b) - size_at(m, b)
        } else {
            0
        }),
    decreases k,
{
    if k > 0 {
        lemma_sum_two_changed(m, mm, a, b, k - 1);
    }
}

/// Every slot contributes a non-negative amount, so any two distinct slots
/// together contribute at most the whole sum.
proof fn lemma_sum_pair_bound(m: UfModel<UnionBySize>, a: int, b: int, k: int)
    requires
        a != b,
    ensures
        size_sum(m, k) >= (if 0 <= a < k {
            size_at(m, a)
        } else {
            0
        }) + (if 0 <= b < k {
            size_at(m, b)
        } else {
            0
        }),
    decreases k,
{
    if k > 0 {
        lemma_sum_pair_bound(m, a, b, k - 1);
    }
}

/// A fresh structure conserves sizes: with every element its own
/// representative and every payload the default size one, the sizes sum to
/// the element count.
pub proof fn lemma_new_conserved(m: UfModel<UnionBySize>)
    requires
        forall|k: int| 0 <= k < m.n() ==> #[trigger] m.root_of(k) == k,
        forall|k: int| 0 <= k < m.n() ==> (#[trigger] m.payloads[k]).0 == 1,
    ensures
        conserved(m),
{
    lemma_identity_sum(m, m.n() as int);
}

/// Partial sums over an all-singleton model count one per slot.
proof fn lemma_identity_sum(m: UfModel<UnionBySize>, k: int)
    requires
        k <= m.n(),
        forall|j: int| 0 <= j < m.n() ==> #[trigger] m.root_of(j) == j,
        forall|j: int| 0 <= j < m.n() ==> (#[trigger] m.payloads[j]).0 == 1,
    ensures
        size_sum(m, k) == (if k >= 0 {
            k
        } else {
            0
        }),
    decreases k,
{
    if k > 0 {
        lemma_identity_sum(m, k - 1);
        assert(m.root_of(k - 1) == k - 1);
        assert(size_at(m, k - 1) == 1);
    }
}

/// Conservation survives a merge: the winning representative stores exactly
/// the sum of the two old class sizes, the losing slot stops counting, and
/// every other slot is untouched.
pub proof fn lemma_merged_conserved(m: UfModel<UnionBySize>, k0: int, k1: int)
    requires
        m.inv(),
        m.valid_key(k0),
        m.valid_key(k1),
        m.root_of(k0) != m.root_of(k1),
        m.union_ok(k0, k1),
        conserved(m),
    ensures
        conserved(m.merged(k0, k1)),
{
    let r0 = m.root_of(k0);
    let r1 = m.root_of(k1);
    let mm = m.merged(k0, k1);
    let s0 = m.payloads[r0].0 as int;
    let s1 = m.payloads[r1].0 as int;
    assert(m.valid_key(r0) && m.is_root(r0));
    assert(m.valid_key(r1) && m.is_root(r1));
    let w = if m.payloads[r0].0 >= m.payloads[r1].0 {
        r0
    } else {
        r1
    };
    let l = if m.payloads[r0].0 >= m.payloads[r1].0 {
        r1
    } else {
        r0
    };
    assert(mm == m.relink(w, l, UnionBySize((s0 + s1) as usize)));
    assert forall|i: int| 0 <= i < m.n() && i != w && i != l implies size_at(mm, i) == size_at(
        m,
        i,
    ) by {
        if m.roots[i] == l {
            assert(mm.roots[i] == w);
            assert(!mm.is_root(i) && !m.is_root(i));
        }
    }
    assert(size_at(mm, w) == s0 + s1);
    assert(mm.roots[l] == w);
    assert(size_at(mm, l) == 0);
    assert(size_at(m, w) + size_at(m, l) == s0 + s1);
    lemma_sum_two_changed(m, mm, w, l, m.n() as int);
}

/// Conservation survives appending a fresh singleton of the default size.
pub proof fn lemma_grown_conserved(m: UfModel<UnionBySize>, data: UnionBySize)
    requires
        m.inv(),
        conserved(m),
        data.0 == 1,
    ensures
        conserved(m.grown(data)),
{
    let mm = m.grown(data);
    let n = m.n() as int;
    assert forall|i: int| 0 <= i < n implies size_at(mm, i) == size_at(m, i) by {
        assert(mm.roots[i] == m.roots[i]);
        if m.is_root(i) {
            assert(mm.payloads[i] == m.payloads[i]);
        }
    }
    lemma_sum_agree(m, mm, n);
    assert(mm.roots[n] == n);
    assert(size_at(mm, n) == 1);
    assert(size_sum(mm, n + 1) == size_sum(mm, n) + size_at(mm, n));
}

/// In a conserving structure a merge can always be paid for: the two root
/// sizes sum to at most the element count, which fits the machine word, so
/// `union`'s side condition holds for every pair of keys.
pub proof fn lemma_conserved_union_ok(m: UfModel<UnionBySize>, k0: int, k1: int)
    requires
        m.inv(),
        m.valid_key(k0),
        m.valid_key(k1),
        conserved(m),
        m.n() <= usize::MAX,
    ensures
        m.union_ok(k0, k1),
{
    let r0 = m.root_of(k0);
    let r1 = m.root_of(k1);
    if r0 != r1 {
        assert(m.is_root(r0) && m.is_root(r1));
        lemma_sum_pair_bound(m, r0, r1, m.n() as int);
        assert(size_at(m, r0) == m.payloads[r0].0 as int);
        assert(size_at(m, r1) == m.payloads[r1].0 as int);
    }
}

/// After a merge under the size policy, the surviving class's stored size is
/// exactly the sum of the two old class sizes, whichever key asks for it.
pub proof fn lemma_merged_by_size(m: UfModel<UnionBySize>, k0: int, k1: int)
    requires
        m.inv(),
        m.valid_key(k0),
        m.valid_key(k1),
        m.root_of(k0) != m.root_of(k1),
        m.union_ok(k0, k1),
    ensures
        m.merged(k0, k1).payload_of(k0).0 == m.payload_of(k0).0 + m.payload_of(k1).0,
        m.merged(k0, k1).payload_of(k1).0 == m.payload_of(k0).0 + m.payload_of(k1).0,
{
    let r0 = m.root_of(k0);
    let r1 = m.root_of(k1);
    let v = UnionBySize((m.payloads[r0].0 + m.payloads[r1].0) as usize);
    if m.payloads[r0].0 >= m.payloads[r1].0 {
        lemma_relink_inv(m, r0, r1, v);
        assert(m.merged(k0, k1) == m.relink(r0, r1, v));
    } else {
        lemma_relink_inv(m, r1, r0, v);
        assert(m.merged(k0, k1) == m.relink(r1, r0, v));
    }
}

// ---------------------------------------------------------------------------
// Executable witnesses: the laws as a caller observes them.
// ---------------------------------------------------------------------------

/// Looking a key up twice in a row, with no mutation in between, returns the
/// same identifier both times — even though the first lookup may have
/// rearranged pointers internally, the visible partition never moves.
pub fn find_twice<V: Union, U: UnionFind<V>>(uf: &mut U, key: usize) -> (r: (usize, usize))
    requires
        old(uf).wf(),
        old(uf)@.valid_key(key as int),
    ensures
        r.0 == r.1,
        final(uf).wf(),
        final(uf)@ == old(uf)@,
{
    let first = uf.find(key);
    let second = uf.find(key);
    (first, second)
}

/// Merging the same pair twice: the first call joins the two classes and
/// reports `true`; the immediate second call reports `false` and leaves the
/// structure — payloads included — exactly as the first call left it.
pub fn union_twice<V: Union, U: UnionFind<V>>(uf: &mut U, key0: usize, key1: usize) -> (r: (
    bool,
    bool,
))
    requires
        old(uf).wf(),
        old(uf)@.valid_key(key0 as int),
        old(uf)@.valid_key(key1 as int),
        old(uf)@.root_of(key0 as int) != old(uf)@.root_of(key1 as int),
        old(uf)@.union_ok(key0 as int, key1 as int),
    ensures
        r.0 == true,
        r.1 == false,
        final(uf).wf(),
        final(uf)@ == old(uf)@.merged(key0 as int, key1 as int),
{
    proof {
        old(uf).lemma_wf_model();
        lemma_merged_connects(old(uf)@, key0 as int, key1 as int);
    }
    let first = uf.union(key0, key1);
    let second = uf.union(key0, key1);
    (first, second)
}

} // verus!
