//! Comparisons of short identity lists.
use vstd::prelude::*;

verus! {

/// Whether two lists are equal.
pub fn same(a: &[u64], b: &[u64]) -> (r: bool)
    ensures
        r == (a@ == b@),
{
    if a.len() != b.len() {
        return false;
    }
    let mut index: usize = 0;
    while index < a.len()
        invariant
            a@.len() == b@.len(),
            index <= a@.len(),
            forall|i: int| 0 <= i < index ==> a@[i] == b@[i],
        decreases a@.len() - index,
    {
        if a[index] != b[index] {
            return false;
        }
        index = index + 1;
    }
    assert(a@ =~= b@);
    true
}

/// Whether a list holds an identity.
pub fn holds(list: &[u64], id: u64) -> (r: bool)
    ensures
        r == list@.contains(id),
{
    let mut index: usize = 0;
    while index < list.len()
        invariant
            index <= list@.len(),
            forall|i: int| 0 <= i < index ==> list@[i] != id,
        decreases list@.len() - index,
    {
        if list[index] == id {
            return true;
        }
        index = index + 1;
    }
    false
}

/// Whether a list holds neither zero nor the same identity twice.
pub open spec fn identities(list: Seq<u64>) -> bool {
    !list.contains(0) && list.no_duplicates()
}

/// Decide [`identities`].
pub fn are_identities(list: &[u64]) -> (r: bool)
    ensures
        r == identities(list@),
{
    let mut index: usize = 0;
    while index < list.len()
        invariant
            index <= list@.len(),
            forall|i: int| 0 <= i < index ==> list@[i] != 0,
            forall|i: int, j: int| 0 <= i < j < index ==> list@[i] != list@[j],
        decreases list@.len() - index,
    {
        let id = list[index];
        if id == 0 {
            assert(list@.contains(0));
            return false;
        }
        let mut earlier: usize = 0;
        while earlier < index
            invariant
                earlier <= index < list@.len(),
                id == list@[index as int],
                forall|i: int| 0 <= i < earlier ==> list@[i] != id,
            decreases index - earlier,
        {
            if list[earlier] == id {
                assert(!list@.no_duplicates());
                return false;
            }
            earlier = earlier + 1;
        }
        index = index + 1;
    }
    true
}

} // verus!
