use vstd::prelude::*;

verus! {

/// Moves the value out of slot `i`, leaving the slot empty.
///
/// Both engines park each class's payload in an `Option` slot at the class's
/// root; a union moves the two root payloads out through here so the merge
/// policy receives owned values.
pub(crate) fn take_at<T>(v: &mut Vec<Option<T>>, i: usize) -> (r: Option<T>)
    requires
        i < old(v).len(),
    ensures
        r == old(v)@[i as int],
        final(v)@ == old(v)@.update(i as int, None),
{
    v[i].take()
}

/// Copies a vector of plain values element by element.
///
/// Both engines use this to produce a fully independent deep copy of their
/// state for `Clone`.
pub(crate) fn copy_all<T: Copy>(v: &Vec<T>) -> (r: Vec<T>)
    ensures
        r@ == v@,
{
    let mut r: Vec<T> = Vec::new();
    let mut i: usize = 0;
    while i < v.len()
        invariant
            i <= v.len(),
            r@.len() == i,
            forall|k: int| 0 <= k < i ==> r@[k] == v@[k],
        decreases v.len() - i,
    {
        r.push(v[i]);
        i += 1;
    }
    proof {
        assert(r@ =~= v@);
    }
    r
}

/// Clones a vector of payload slots element by element: empty slots stay
/// empty, and each filled slot receives a clone of its value.
pub(crate) fn clone_slots<T: Clone>(v: &Vec<Option<T>>) -> (r: Vec<Option<T>>)
    ensures
        r@.len() == v@.len(),
        forall|i: int| 0 <= i < v@.len() ==> ((#[trigger] r@[i]) is Some <==> v@[i] is Some),
        forall|i: int|
            0 <= i < v@.len() && (#[trigger] v@[i]) is Some ==> cloned::<T>(
                v@[i].unwrap(),
                r@[i].unwrap(),
            ),
{
    let mut r: Vec<Option<T>> = Vec::new();
    let mut i: usize = 0;
    while i < v.len()
        invariant
            i <= v.len(),
            r@.len() == i,
            forall|k: int| 0 <= k < i ==> ((#[trigger] r@[k]) is Some <==> v@[k] is Some),
            forall|k: int|
                0 <= k < i && (#[trigger] v@[k]) is Some ==> cloned::<T>(
                    v@[k].unwrap(),
                    r@[k].unwrap(),
                ),
        decreases v.len() - i,
    {
        match &v[i] {
            Some(x) => {
                r.push(Some(x.clone()));
            },
            None => {
                r.push(None);
            },
        }
        i += 1;
    }
    r
}

} // verus!
