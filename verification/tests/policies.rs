use union_find::{
    QuickFindUf, QuickUnionUf, Union, UnionByRank, UnionByRankSize, UnionBySize,
    UnionBySizeRank, UnionFind, UnionResult,
};

#[test]
fn by_size_defaults() {
    assert_eq!(UnionBySize::default().size(), 1);
}

#[test]
fn by_size_union_left_wins_ties() {
    match UnionBySize::union(UnionBySize(2), UnionBySize(2)) {
        UnionResult::Left(v) => assert_eq!(v.size(), 4),
        UnionResult::Right(_) => panic!("a size tie must favour the left side"),
    }
}

#[test]
fn by_size_union_larger_wins() {
    match UnionBySize::union(UnionBySize(3), UnionBySize(1)) {
        UnionResult::Left(v) => assert_eq!(v.size(), 4),
        UnionResult::Right(_) => panic!("the larger left side must win"),
    }
    match UnionBySize::union(UnionBySize(1), UnionBySize(5)) {
        UnionResult::Right(v) => assert_eq!(v.size(), 6),
        UnionResult::Left(_) => panic!("the larger right side must win"),
    }
}

#[test]
fn by_rank_defaults() {
    assert_eq!(UnionByRank::default().rank(), 0);
}

#[test]
fn by_rank_union_keeps_greater_rank() {
    match UnionByRank::union(UnionByRank(3), UnionByRank(1)) {
        UnionResult::Left(v) => assert_eq!(v.rank(), 3),
        UnionResult::Right(_) => panic!("the higher-ranked left side must win"),
    }
    match UnionByRank::union(UnionByRank(1), UnionByRank(4)) {
        UnionResult::Right(v) => assert_eq!(v.rank(), 4),
        UnionResult::Left(_) => panic!("the higher-ranked right side must win"),
    }
}

#[test]
fn by_rank_union_tie_increments() {
    match UnionByRank::union(UnionByRank(2), UnionByRank(2)) {
        UnionResult::Left(v) => assert_eq!(v.rank(), 3),
        UnionResult::Right(_) => panic!("a rank tie must favour the left side"),
    }
}

#[test]
fn by_size_rank_defaults() {
    let d = UnionBySizeRank::default();
    assert_eq!(d.size(), 1);
    assert_eq!(d.rank(), 0);
}

#[test]
fn by_size_rank_union_size_decides() {
    // The size decides the winner; the rank is combined independently.
    match UnionBySizeRank::union(UnionBySizeRank(1, 9), UnionBySizeRank(4, 0)) {
        UnionResult::Right(v) => {
            assert_eq!(v.size(), 5);
            assert_eq!(v.rank(), 9);
        },
        UnionResult::Left(_) => panic!("the larger right side must win"),
    }
}

#[test]
fn by_size_rank_union_rank_breaks_tie() {
    match UnionBySizeRank::union(UnionBySizeRank(2, 1), UnionBySizeRank(2, 3)) {
        UnionResult::Right(v) => {
            assert_eq!(v.size(), 4);
            assert_eq!(v.rank(), 3);
        },
        UnionResult::Left(_) => panic!("on a size tie the higher rank must win"),
    }
    match UnionBySizeRank::union(UnionBySizeRank(2, 2), UnionBySizeRank(2, 2)) {
        UnionResult::Left(v) => {
            assert_eq!(v.size(), 4);
            assert_eq!(v.rank(), 3);
        },
        UnionResult::Right(_) => panic!("a full tie must favour the left side"),
    }
}

#[test]
fn by_rank_size_defaults() {
    let d = UnionByRankSize::default();
    assert_eq!(d.rank(), 0);
    assert_eq!(d.size(), 1);
}

#[test]
fn by_rank_size_union_rank_decides() {
    // The rank decides the winner; the sizes are always summed.
    match UnionByRankSize::union(UnionByRankSize(0, 7), UnionByRankSize(2, 1)) {
        UnionResult::Right(v) => {
            assert_eq!(v.rank(), 2);
            assert_eq!(v.size(), 8);
        },
        UnionResult::Left(_) => panic!("the higher-ranked right side must win"),
    }
}

#[test]
fn by_rank_size_union_size_breaks_tie() {
    match UnionByRankSize::union(UnionByRankSize(1, 1), UnionByRankSize(1, 5)) {
        UnionResult::Right(v) => {
            assert_eq!(v.rank(), 2);
            assert_eq!(v.size(), 6);
        },
        UnionResult::Left(_) => panic!("on a rank tie the bigger size must win"),
    }
    match UnionByRankSize::union(UnionByRankSize(1, 3), UnionByRankSize(1, 3)) {
        UnionResult::Left(v) => {
            assert_eq!(v.rank(), 2);
            assert_eq!(v.size(), 6);
        },
        UnionResult::Right(_) => panic!("a full tie must favour the left side"),
    }
}

fn by_rank_engine_scenario<T>()
where
    T: UnionFind<UnionByRank>,
{
    let mut uf = T::new(5);
    // Equal ranks: the left root survives with rank one.
    assert!(uf.union(0, 1));
    assert_eq!(uf.find(1), 0);
    assert_eq!(uf.get(0).rank(), 1);
    // Rank zero against rank one: the ranked class survives unchanged.
    assert!(uf.union(2, 0));
    assert_eq!(uf.find(2), 0);
    assert_eq!(uf.get(2).rank(), 1);
}

#[test]
fn by_rank_engine_quick_union() {
    by_rank_engine_scenario::<QuickUnionUf<UnionByRank>>();
}

#[test]
fn by_rank_engine_quick_find() {
    by_rank_engine_scenario::<QuickFindUf<UnionByRank>>();
}

fn by_size_rank_engine_scenario<T>()
where
    T: UnionFind<UnionBySizeRank>,
{
    let mut uf = T::new(4);
    assert!(uf.union(0, 1));
    assert!(uf.union(2, 3));
    assert!(uf.union(0, 2));
    assert_eq!(uf.find(3), uf.find(1));
    assert_eq!(uf.get(0).size(), 4);
    assert_eq!(uf.get(0).rank(), 2);
}

#[test]
fn by_size_rank_engine_quick_union() {
    by_size_rank_engine_scenario::<QuickUnionUf<UnionBySizeRank>>();
}

#[test]
fn by_size_rank_engine_quick_find() {
    by_size_rank_engine_scenario::<QuickFindUf<UnionBySizeRank>>();
}
