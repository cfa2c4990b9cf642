use vstd::prelude::*;

use crate::traits::{Union, UnionResult};

verus! {

/// The mathematical state of a union-find structure: the canonical
/// representative of every element, together with the payload of every class,
/// kept at the class's representative.
#[verifier::ext_equal]
pub struct UfModel<V> {
    /// `roots[k]` is the representative of the class that element `k` belongs to.
    pub roots: Seq<int>,
    /// The payload of each class, keyed by the class's representative.
    pub payloads: Map<int, V>,
}

impl<V: Union> UfModel<V> {
    /// The number of elements (not the number of classes).
    pub open spec fn n(self) -> nat {
        self.roots.len()
    }

    /// `k` names an element of the universe.
    pub open spec fn valid_key(self, k: int) -> bool {
        0 <= k < self.n()
    }

    /// The representative of the class that `k` belongs to.
    pub open spec fn root_of(self, k: int) -> int {
        self.roots[k]
    }

    /// `k` is the representative of its own class.
    pub open spec fn is_root(self, k: int) -> bool {
        self.valid_key(k) && self.roots[k] == k
    }

    /// The payload of the class that `k` belongs to.
    pub open spec fn payload_of(self, k: int) -> V {
        self.payloads[self.roots[k]]
    }

    /// Every element resolves to a representative inside the universe,
    /// resolving is idempotent, and the payload map holds exactly one entry
    /// per representative.
    pub open spec fn inv(self) -> bool {
        &&& forall|k: int| self.valid_key(k) ==> self.valid_key(#[trigger] self.roots[k])
        &&& forall|k: int|
            self.valid_key(k) ==> #[trigger] self.roots[self.roots[k]] == self.roots[k]
        &&& self.payloads.dom() == Set::new(|r: int| self.is_root(r))
    }

    /// A merge of the classes of `k0` and `k1` stays within machine bounds:
    /// either both keys already share a class, or the policy accepts the two
    /// root payloads.
    pub open spec fn union_ok(self, k0: int, k1: int) -> bool {
        self.root_of(k0) != self.root_of(k1) ==> V::union_req(
            self.payloads[self.root_of(k0)],
            self.payloads[self.root_of(k1)],
        )
    }

    /// The model after the class of `loser` is absorbed into the class of
    /// `winner`, which then holds payload `v`.
    pub open spec fn relink(self, winner: int, loser: int, v: V) -> UfModel<V> {
        UfModel {
            roots: Seq::new(
                self.n(),
                |i: int| if self.roots[i] == loser { winner } else { self.roots[i] },
            ),
            payloads: self.payloads.remove(loser).insert(winner, v),
        }
    }

    /// The model after the classes of `k0` and `k1` unite, with the policy
    /// choosing the surviving representative and the merged payload.
    pub open spec fn merged(self, k0: int, k1: int) -> UfModel<V> {
        let r0 = self.root_of(k0);
        let r1 = self.root_of(k1);
        match V::union_spec(self.payloads[r0], self.payloads[r1]) {
            UnionResult::Left(v) => self.relink(r0, r1, v),
            UnionResult::Right(v) => self.relink(r1, r0, v),
        }
    }

    /// The model after one new singleton element with payload `data` is
    /// appended; the new element is its own representative.
    pub open spec fn grown(self, data: V) -> UfModel<V> {
        UfModel {
            roots: self.roots.push(self.n() as int),
            payloads: self.payloads.insert(self.n() as int, data),
        }
    }

    /// The model after the payload of `k`'s class is replaced by `v`.
    pub open spec fn with_payload(self, k: int, v: V) -> UfModel<V> {
        UfModel { roots: self.roots, payloads: self.payloads.insert(self.root_of(k), v) }
    }
}

} // verus!
