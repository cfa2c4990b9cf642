use vstd::prelude::*;

use crate::traits::{Union, UnionResult};

verus! {

/// Operates the `union` using the size of the sets as weight.
///
/// A smaller sized set will be the child of a larger sized set; ties favour
/// the left side.  The merged payload is always the sum of the two sizes.
#[derive(Copy, Clone, Debug)]
pub struct UnionBySize(pub usize);

impl UnionBySize {
    /// Returns the size of the set.
    pub fn size(&self) -> (r: usize)
        ensures
            r == self.0,
    {
        let UnionBySize(size) = *self;
        size
    }
}

impl Union for UnionBySize {
    open spec fn union_req(lval: Self, rval: Self) -> bool {
        lval.0 + rval.0 <= usize::MAX
    }

    open spec fn union_spec(lval: Self, rval: Self) -> UnionResult<Self> {
        let merged = UnionBySize((lval.0 + rval.0) as usize);
        if lval.0 >= rval.0 {
            UnionResult::Left(merged)
        } else {
            UnionResult::Right(merged)
        }
    }

    fn union(lval: Self, rval: Self) -> (r: UnionResult<Self>) {
        let lsize = lval.size();
        let rsize = rval.size();
        let result = UnionBySize(lsize + rsize);
        if lsize >= rsize {
            UnionResult::Left(result)
        } else {
            UnionResult::Right(result)
        }
    }
}

impl Default for UnionBySize {
    /// A fresh singleton class has size one.
    fn default() -> (r: UnionBySize)
        ensures
            r == UnionBySize(1usize),
    {
        UnionBySize(1)
    }
}

/// Operates the `union` using the rank of the sets as weight.
///
/// A smaller ranked set will be the child of a larger ranked set.  On equal
/// ranks the left side wins and its rank grows by one; the loser's rank is
/// discarded.
#[derive(Copy, Clone, Debug)]
pub struct UnionByRank(pub u8);

impl UnionByRank {
    /// Returns the rank of the set.
    pub fn rank(&self) -> (r: u8)
        ensures
            r == self.0,
    {
        let UnionByRank(rank) = *self;
        rank
    }
}

impl Union for UnionByRank {
    open spec fn union_req(lval: Self, rval: Self) -> bool {
        lval.0 == rval.0 ==> lval.0 < u8::MAX
    }

    open spec fn union_spec(lval: Self, rval: Self) -> UnionResult<Self> {
        if lval.0 < rval.0 {
            UnionResult::Right(rval)
        } else if lval.0 > rval.0 {
            UnionResult::Left(lval)
        } else {
            UnionResult::Left(UnionByRank((lval.0 + 1) as u8))
        }
    }

    fn union(lval: Self, rval: Self) -> (r: UnionResult<Self>) {
        let lrank = lval.rank();
        let rrank = rval.rank();
        if lrank < rrank {
            UnionResult::Right(rval)
        } else if lrank > rrank {
            UnionResult::Left(lval)
        } else {
            UnionResult::Left(UnionByRank(lrank + 1))
        }
    }
}

impl Default for UnionByRank {
    /// A fresh singleton class has rank zero.
    fn default() -> (r: UnionByRank)
        ensures
            r == UnionByRank(0u8),
    {
        UnionByRank(0)
    }
}

/// Operates the `union` using the size and the rank of the sets as weight.
///
/// The primary comparison is by size (ties favour the left side, with ranks
/// breaking a size tie); the new rank follows the same greater-wins,
/// tie-increments rule as [`UnionByRank`], computed independently of the size
/// decision, and the sizes are always summed.
#[derive(Copy, Clone, Debug)]
pub struct UnionBySizeRank(pub usize, pub u8);

impl UnionBySizeRank {
    /// Returns the size of the set.
    pub fn size(&self) -> (r: usize)
        ensures
            r == self.0,
    {
        let UnionBySizeRank(size, _) = *self;
        size
    }

    /// Returns the rank of the set.
    pub fn rank(&self) -> (r: u8)
        ensures
            r == self.1,
    {
        let UnionBySizeRank(_, rank) = *self;
        rank
    }
}

impl Union for UnionBySizeRank {
    open spec fn union_req(lval: Self, rval: Self) -> bool {
        &&& lval.0 + rval.0 <= usize::MAX
        &&& (lval.1 == rval.1 ==> lval.1 < u8::MAX)
    }

    open spec fn union_spec(lval: Self, rval: Self) -> UnionResult<Self> {
        let new_size = (lval.0 + rval.0) as usize;
        let new_rank = if lval.1 < rval.1 {
            rval.1
        } else if lval.1 > rval.1 {
            lval.1
        } else {
            (lval.1 + 1) as u8
        };
        let result = UnionBySizeRank(new_size, new_rank);
        if lval.0 < rval.0 {
            UnionResult::Right(result)
        } else if lval.0 > rval.0 {
            UnionResult::Left(result)
        } else if lval.1 < rval.1 {
            UnionResult::Right(result)
        } else {
            UnionResult::Left(result)
        }
    }

    fn union(lval: Self, rval: Self) -> (r: UnionResult<Self>) {
        let lsize = lval.size();
        let lrank = lval.rank();
        let rsize = rval.size();
        let rrank = rval.rank();

        let new_size = lsize + rsize;
        let new_rank = if lrank < rrank {
            rrank
        } else if lrank > rrank {
            lrank
        } else {
            lrank + 1
        };

        let result = UnionBySizeRank(new_size, new_rank);
        if lsize < rsize {
            UnionResult::Right(result)
        } else if lsize > rsize {
            UnionResult::Left(result)
        } else if lrank < rrank {
            UnionResult::Right(result)
        } else {
            UnionResult::Left(result)
        }
    }
}

impl Default for UnionBySizeRank {
    /// A fresh singleton class has size one and rank zero.
    fn default() -> (r: UnionBySizeRank)
        ensures
            r == UnionBySizeRank(1usize, 0u8),
    {
        UnionBySizeRank(1, 0)
    }
}

/// Operates the `union` using the rank and the size of the sets as weight.
///
/// The primary comparison is by rank (ties favour the left side and increment
/// its rank, with sizes breaking a rank tie); the sizes are always summed
/// regardless of which side wins.
#[derive(Copy, Clone, Debug)]
pub struct UnionByRankSize(pub u8, pub usize);

impl UnionByRankSize {
    /// Returns the rank of the set.
    pub fn rank(&self) -> (r: u8)
        ensures
            r == self.0,
    {
        let UnionByRankSize(rank, _) = *self;
        rank
    }

    /// Returns the size of the set.
    pub fn size(&self) -> (r: usize)
        ensures
            r == self.1,
    {
        let UnionByRankSize(_, size) = *self;
        size
    }
}

impl Union for UnionByRankSize {
    open spec fn union_req(lval: Self, rval: Self) -> bool {
        &&& lval.1 + rval.1 <= usize::MAX
        &&& (lval.0 == rval.0 ==> lval.0 < u8::MAX)
    }

    open spec fn union_spec(lval: Self, rval: Self) -> UnionResult<Self> {
        let new_rank = if lval.0 < rval.0 {
            rval.0
        } else if lval.0 > rval.0 {
            lval.0
        } else {
            (lval.0 + 1) as u8
        };
        let new_size = (lval.1 + rval.1) as usize;
        let result = UnionByRankSize(new_rank, new_size);
        if lval.0 < rval.0 {
            UnionResult::Right(result)
        } else if lval.0 > rval.0 {
            UnionResult::Left(result)
        } else if lval.1 < rval.1 {
            UnionResult::Right(result)
        } else {
            UnionResult::Left(result)
        }
    }

    fn union(lval: Self, rval: Self) -> (r: UnionResult<Self>) {
        let lrank = lval.rank();
        let lsize = lval.size();
        let rrank = rval.rank();
        let rsize = rval.size();

        let new_rank = if lrank < rrank {
            rrank
        } else if lrank > rrank {
            lrank
        } else {
            lrank + 1
        };
        let new_size = lsize + rsize;

        let result = UnionByRankSize(new_rank, new_size);
        if lrank < rrank {
            UnionResult::Right(result)
        } else if lrank > rrank {
            UnionResult::Left(result)
        } else if lsize < rsize {
            UnionResult::Right(result)
        } else {
            UnionResult::Left(result)
        }
    }
}

impl Default for UnionByRankSize {
    /// A fresh singleton class holds one element and has height zero, so it
    /// starts with rank zero and size one.
    fn default() -> (r: UnionByRankSize)
        ensures
            r == UnionByRankSize(0u8, 1usize),
    {
        UnionByRankSize(0, 1)
    }
}

} // verus!
