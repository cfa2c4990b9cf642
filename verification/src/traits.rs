use vstd::prelude::*;

use crate::model::UfModel;

verus! {

/// Which side of a union becomes canonical.
///
/// Returned by [`Union::union`]: the wrapped value is the merged payload, and
/// the variant says whether it is stored at the left or the right operand's
/// representative.
#[derive(Copy, Clone, Debug)]
pub enum UnionResult<T> {
    Left(T),
    Right(T),
}

/// The payload value carried by each class, together with the merge policy
/// that combines two payloads when their classes unite.
///
/// A policy is a pure function of the two payloads: it neither observes nor
/// touches the index structure.
pub trait Union: Sized {
    /// When merging the two payloads stays within the machine's integer
    /// bounds.  [`Union::union`] asks for this; it is the only limit a policy
    /// places on its inputs.
    spec fn union_req(lval: Self, rval: Self) -> bool;

    /// The policy's verdict on two payloads: which side becomes canonical,
    /// and the merged payload to store there.
    spec fn union_spec(lval: Self, rval: Self) -> UnionResult<Self>;

    /// Union two values into one.
    ///
    /// This is used by the `UnionFind::union` operation.
    fn union(lval: Self, rval: Self) -> (r: UnionResult<Self>)
        requires
            Self::union_req(lval, rval),
        ensures
            r == Self::union_spec(lval, rval),
    ;
}

/// APIs for the union-find operation, shared by every concrete structure.
///
/// A structure abstracts, via [`View`], to a [`UfModel`]: the representative
/// of every element and the payload of every class.  Each operation's
/// contract is stated against that model, so internal bookkeeping such as
/// path compression is proved to leave the visible partition unchanged.
pub trait UnionFind<V: Union>: Sized + View<V = UfModel<V>> {
    /// The structure's internal invariant.  Constructors establish it and
    /// every operation preserves it.
    spec fn wf(&self) -> bool;

    /// A well-formed structure abstracts to a well-formed model.
    proof fn lemma_wf_model(&self)
        requires
            self.wf(),
        ensures
            self@.inv(),
    ;

    /// Creates a `UnionFind` of `len` singleton classes, each its own
    /// representative and each holding the policy's default payload.
    fn new(len: usize) -> (uf: Self) where V: Default
        ensures
            uf.wf(),
            uf@.n() == len,
            forall|k: int| 0 <= k < len ==> #[trigger] uf@.root_of(k) == k,
            forall|k: int| 0 <= k < len ==> call_ensures(V::default, (), #[trigger] uf@.payloads[k]),
    ;

    /// Returns the number of elements in `self` (not the number of classes).
    fn size(&self) -> (r: usize)
        requires
            self.wf(),
        ensures
            r as nat == self@.n(),
    ;

    /// Inserts a new singleton set into the union.
    ///
    /// Returns the key of the inserted set, which is the element count from
    /// before the call.
    fn insert(&mut self, data: V) -> (key: usize)
        requires
            old(self).wf(),
            old(self)@.n() < usize::MAX,
        ensures
            final(self).wf(),
            key as nat == old(self)@.n(),
            final(self)@ == old(self)@.grown(data),
    ;

    /// Joins the two sets that contain the given keys (union operation).
    ///
    /// Returns `true` if the keys belonged to different sets; a repeated call
    /// on the same pair returns `false` and changes nothing.
    fn union(&mut self, key0: usize, key1: usize) -> (r: bool)
        requires
            old(self).wf(),
            old(self)@.valid_key(key0 as int),
            old(self)@.valid_key(key1 as int),
            old(self)@.union_ok(key0 as int, key1 as int),
        ensures
            final(self).wf(),
            r == (old(self)@.root_of(key0 as int) != old(self)@.root_of(key1 as int)),
            r ==> final(self)@ == old(self)@.merged(key0 as int, key1 as int),
            !r ==> final(self)@ == old(self)@,
    ;

    /// Returns the identifier of the set that the key belongs to.
    ///
    /// The model is left untouched: however the structure rearranges its
    /// pointers internally, the partition and the payloads stay as they were,
    /// so repeated calls return the same identifier.
    fn find(&mut self, key: usize) -> (r: usize)
        requires
            old(self).wf(),
            old(self)@.valid_key(key as int),
        ensures
            final(self).wf(),
            final(self)@ == old(self)@,
            r as int == old(self)@.root_of(key as int),
    ;

    /// Returns a reference to the value of the set that the key belongs to.
    fn get(&mut self, key: usize) -> (r: &V)
        requires
            old(self).wf(),
            old(self)@.valid_key(key as int),
        ensures
            final(self).wf(),
            final(self)@ == old(self)@,
            *r == old(self)@.payload_of(key as int),
    ;

    /// Returns a mutable reference to the value of the set that the key
    /// belongs to.
    fn get_mut(&mut self, key: usize) -> (r: &mut V)
        requires
            old(self).wf(),
            old(self)@.valid_key(key as int),
        ensures
            *r == old(self)@.payload_of(key as int),
            final(self).wf(),
            final(self)@ == old(self)@.with_payload(key as int, *final(r)),
    ;
}

} // verus!
