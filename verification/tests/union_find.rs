use union_find::{
    find_twice, union_twice, QuickFindUf, QuickUnionUf, UnionBySize, UnionFind,
};

fn union_find_scenario<T>()
where
    T: UnionFind<UnionBySize>,
{
    let mut uf = T::new(100);
    assert_eq!(1, uf.get(0).size());
    assert_eq!(1, uf.get(1).size());
    assert!(uf.find(0) != uf.find(1));
    assert!(uf.find(1) != uf.find(2));
    assert!(uf.union(0, 1));
    assert!(uf.find(0) == uf.find(1));
    assert_eq!(2, uf.get(0).size());
    assert_eq!(2, uf.get(1).size());
    assert_eq!(1, uf.get(2).size());
    assert!(!uf.union(0, 1));
    assert_eq!(2, uf.get(0).size());
    assert_eq!(2, uf.get(1).size());
    assert_eq!(1, uf.get(2).size());
    assert!(uf.union(1, 2));
    assert_eq!(3, uf.get(0).size());
    assert_eq!(3, uf.get(1).size());
    assert_eq!(3, uf.get(2).size());
    assert!(uf.find(0) == uf.find(1));
    assert!(uf.find(2) == uf.find(1));
    let k100 = uf.insert(UnionBySize::default());
    assert_eq!(k100, 100);
    let _ = uf.union(k100, 0);
    assert_eq!(4, uf.get(100).size());
}

#[test]
fn union_find() {
    union_find_scenario::<QuickUnionUf<UnionBySize>>();
}

#[test]
fn tests_union_find() {
    union_find_scenario::<QuickFindUf<UnionBySize>>();
}

fn fresh_singletons_scenario<T>()
where
    T: UnionFind<UnionBySize>,
{
    let mut uf = T::new(25);
    assert_eq!(uf.size(), 25);
    for i in 0..25 {
        assert_eq!(uf.find(i), i);
        assert_eq!(uf.get(i).size(), 1);
    }
}

#[test]
fn fresh_singletons_quick_union() {
    fresh_singletons_scenario::<QuickUnionUf<UnionBySize>>();
}

#[test]
fn fresh_singletons_quick_find() {
    fresh_singletons_scenario::<QuickFindUf<UnionBySize>>();
}

fn left_tie_root_scenario<T>()
where
    T: UnionFind<UnionBySize>,
{
    // On a size tie the left side's representative survives.
    let mut uf = T::new(10);
    assert!(uf.union(0, 1));
    assert_eq!(uf.find(0), 0);
    assert_eq!(uf.find(1), 0);
    for i in 2..10 {
        assert_eq!(uf.find(i), i);
    }
    // The larger class absorbs the smaller one.
    assert!(uf.union(5, 0));
    assert_eq!(uf.find(5), 0);
}

#[test]
fn left_tie_root_quick_union() {
    left_tie_root_scenario::<QuickUnionUf<UnionBySize>>();
}

#[test]
fn left_tie_root_quick_find() {
    left_tie_root_scenario::<QuickFindUf<UnionBySize>>();
}

fn find_idempotent_scenario<T>()
where
    T: UnionFind<UnionBySize>,
{
    // Build a deep chain so the first lookup really rearranges pointers.
    let mut uf = T::new(8);
    for i in 0..7 {
        assert!(uf.union(i, i + 1));
    }
    for i in 0..8 {
        let (first, second) = find_twice(&mut uf, i);
        assert_eq!(first, second);
        let third = uf.find(i);
        assert_eq!(second, third);
    }
}

#[test]
fn find_idempotent_quick_union() {
    find_idempotent_scenario::<QuickUnionUf<UnionBySize>>();
}

#[test]
fn find_idempotent_quick_find() {
    find_idempotent_scenario::<QuickFindUf<UnionBySize>>();
}

fn union_twice_scenario<T>()
where
    T: UnionFind<UnionBySize>,
{
    let mut uf = T::new(6);
    let (first, second) = union_twice(&mut uf, 2, 4);
    assert!(first);
    assert!(!second);
    assert_eq!(uf.get(2).size(), 2);
    assert_eq!(uf.get(4).size(), 2);
}

#[test]
fn union_twice_quick_union() {
    union_twice_scenario::<QuickUnionUf<UnionBySize>>();
}

#[test]
fn union_twice_quick_find() {
    union_twice_scenario::<QuickFindUf<UnionBySize>>();
}

fn conservation_scenario<T>()
where
    T: UnionFind<UnionBySize>,
{
    let mut uf = T::new(50);
    let pairs = [(0, 1), (1, 2), (10, 20), (20, 30), (30, 0), (45, 49)];
    for &(p, q) in pairs.iter() {
        let _ = uf.union(p, q);
    }
    let k = uf.insert(UnionBySize::default());
    assert_eq!(k, 50);
    let _ = uf.union(k, 10);
    // The sizes stored at the distinct representatives always sum to the
    // element count.
    let n = uf.size();
    let mut total = 0;
    for i in 0..n {
        if uf.find(i) == i {
            total += uf.get(i).size();
        }
    }
    assert_eq!(total, n);
}

#[test]
fn conservation_quick_union() {
    conservation_scenario::<QuickUnionUf<UnionBySize>>();
}

#[test]
fn conservation_quick_find() {
    conservation_scenario::<QuickFindUf<UnionBySize>>();
}

fn get_mut_scenario<T>()
where
    T: UnionFind<UnionBySize>,
{
    let mut uf = T::new(4);
    assert!(uf.union(0, 1));
    // Writing through `get_mut` changes the one payload the whole class
    // shares.
    *uf.get_mut(1) = UnionBySize(7);
    assert_eq!(uf.get(0).size(), 7);
    assert_eq!(uf.get(1).size(), 7);
    assert_eq!(uf.get(2).size(), 1);
}

#[test]
fn get_mut_quick_union() {
    get_mut_scenario::<QuickUnionUf<UnionBySize>>();
}

#[test]
fn get_mut_quick_find() {
    get_mut_scenario::<QuickFindUf<UnionBySize>>();
}

#[test]
fn clone_independent_quick_union() {
    let mut uf = QuickUnionUf::<UnionBySize>::new(10);
    assert!(uf.union(0, 1));
    let mut copy = uf.clone();
    assert!(copy.union(2, 3));
    // The clone took the first union with it, but its own mutation never
    // reaches the structure it was copied from.
    assert_eq!(copy.find(1), 0);
    assert_eq!(copy.find(3), 2);
    assert_eq!(uf.find(3), 3);
    assert_eq!(uf.get(2).size(), 1);
    assert_eq!(copy.get(2).size(), 2);
}

#[test]
fn clone_independent_quick_find() {
    let mut uf = QuickFindUf::<UnionBySize>::new(10);
    assert!(uf.union(0, 1));
    let mut copy = uf.clone();
    assert!(copy.union(2, 3));
    assert_eq!(copy.find(1), 0);
    assert_eq!(copy.find(3), 2);
    assert_eq!(uf.find(3), 3);
    assert_eq!(uf.get(2).size(), 1);
    assert_eq!(copy.get(2).size(), 2);
}

#[test]
fn from_items_quick_union() {
    let items = vec![UnionBySize(3), UnionBySize(1), UnionBySize(2)];
    let mut uf = QuickUnionUf::<UnionBySize>::from_items(items);
    assert_eq!(uf.size(), 3);
    assert_eq!(uf.get(0).size(), 3);
    assert_eq!(uf.get(1).size(), 1);
    assert_eq!(uf.get(2).size(), 2);
    // The heavier side of the first pair survives the merge.
    assert!(uf.union(1, 2));
    assert_eq!(uf.find(1), 2);
    assert_eq!(uf.get(1).size(), 3);
}

#[test]
fn extend_with_quick_find() {
    let mut uf = QuickFindUf::<UnionBySize>::new(2);
    uf.extend_with(vec![UnionBySize(5), UnionBySize(6)]);
    assert_eq!(uf.size(), 4);
    assert_eq!(uf.get(0).size(), 1);
    assert_eq!(uf.get(2).size(), 5);
    assert_eq!(uf.get(3).size(), 6);
    assert_eq!(uf.find(3), 3);
}
