//! Lists of grouping values: equality of their characters, size of their bytes.
use vstd::prelude::*;

use crate::charge;

verus! {

/// The characters of each value.
pub open spec fn texts(list: Seq<String>) -> Seq<Seq<char>> {
    list.map_values(|value: String| value@)
}

/// The bytes of one value.
pub open spec fn bytes(text: Seq<char>) -> Seq<u8> {
    vstd::utf8::encode_utf8(text)
}

/// The bytes of all values of a list.
pub open spec fn total_bytes(list: Seq<Seq<char>>) -> nat
    decreases list.len(),
{
    if list.len() == 0 {
        0
    } else {
        total_bytes(list.drop_last()) + bytes(list.last()).len()
    }
}

/// The heap bytes of an exact copy of a list.
pub open spec fn copy_bytes(list: Seq<Seq<char>>) -> nat {
    list.len() * vstd::layout::size_of::<String>() + total_bytes(list)
}

/// How many bytes a value has.
pub fn length(value: &String) -> (r: usize)
    ensures
        r == bytes(value@).len(),
{
    value.as_str().as_bytes().len()
}

/// One more value adds its own bytes.
pub proof fn lemma_total_bytes(list: Seq<Seq<char>>, index: int)
    requires
        0 <= index < list.len(),
    ensures
        total_bytes(list.take(index + 1)) == total_bytes(list.take(index)) + bytes(
            list[index],
        ).len(),
{
    assert(list.take(index + 1).drop_last() =~= list.take(index));
}

/// A part of a list has no more bytes than the list.
pub proof fn lemma_prefix_bytes(list: Seq<Seq<char>>, count: int)
    requires
        0 <= count <= list.len(),
    ensures
        total_bytes(list.take(count)) <= total_bytes(list),
    decreases list.len() - count,
{
    if count == list.len() {
        assert(list.take(count) =~= list);
    } else {
        lemma_prefix_bytes(list, count + 1);
        lemma_total_bytes(list, count);
    }
}

/// The bytes of all values, as far as a machine word can hold them.
pub fn total_length(list: &Vec<String>) -> (r: usize)
    ensures
        r == charge::clamp(total_bytes(texts(list@))),
{
    let mut total: usize = 0;
    let mut index: usize = 0;
    let ghost all = texts(list@);
    assert(all.take(0) =~= Seq::empty());
    while index < list.len()
        invariant
            index <= list@.len(),
            all == texts(list@),
            total == charge::clamp(total_bytes(all.take(index as int))),
        decreases list@.len() - index,
    {
        proof {
            lemma_total_bytes(all, index as int);
        }
        total = total.saturating_add(length(&list[index]));
        index = index + 1;
    }
    assert(all.take(all.len() as int) =~= all);
    total
}

/// The heap bytes of an exact copy, as far as a machine word can hold them.
pub fn copy_charge(list: &Vec<String>) -> (r: usize)
    ensures
        r == charge::clamp(copy_bytes(texts(list@))),
{
    let spines: usize = charge::times(list.len(), core::mem::size_of::<String>());
    spines.saturating_add(total_length(list))
}

/// An equal list.
pub fn copy(list: &Vec<String>) -> (r: Vec<String>)
    ensures
        texts(r@) == texts(list@),
{
    let mut result: Vec<String> = Vec::new();
    let mut index: usize = 0;
    while index < list.len()
        invariant
            index <= list@.len(),
            result@.len() == index,
            forall|i: int| 0 <= i < index ==> (#[trigger] result@[i])@ == list@[i]@,
        decreases list@.len() - index,
    {
        result.push(list[index].clone());
        index = index + 1;
    }
    assert(texts(result@) =~= texts(list@));
    result
}

/// Whether a list holds a value.
pub fn holds(list: &Vec<String>, value: &String) -> (r: bool)
    ensures
        r == texts(list@).contains(value@),
{
    let mut index: usize = 0;
    while index < list.len()
        invariant
            index <= list@.len(),
            forall|i: int| 0 <= i < index ==> texts(list@)[i] != value@,
        decreases list@.len() - index,
    {
        if list[index] == *value {
            assert(texts(list@)[index as int] == value@);
            return true;
        }
        index = index + 1;
    }
    false
}

/// Whether two lists share a value.
pub open spec fn share(a: Seq<Seq<char>>, b: Seq<Seq<char>>) -> bool {
    exists|i: int| 0 <= i < a.len() && b.contains(#[trigger] a[i])
}

/// Decide [`share`].
pub fn shares(a: &Vec<String>, b: &Vec<String>) -> (r: bool)
    ensures
        r == share(texts(a@), texts(b@)),
{
    let mut index: usize = 0;
    while index < a.len()
        invariant
            index <= a@.len(),
            forall|i: int| 0 <= i < index ==> !texts(b@).contains(#[trigger] texts(a@)[i]),
        decreases a@.len() - index,
    {
        if holds(b, &a[index]) {
            assert(texts(b@).contains(texts(a@)[index as int]));
            return true;
        }
        index = index + 1;
    }
    false
}

/// Whether every value of one list is in another.
pub open spec fn covered(a: Seq<Seq<char>>, b: Seq<Seq<char>>) -> bool {
    forall|i: int| 0 <= i < a.len() ==> b.contains(#[trigger] a[i])
}

/// Decide [`covered`].
pub fn covers(a: &Vec<String>, b: &Vec<String>) -> (r: bool)
    ensures
        r == covered(texts(a@), texts(b@)),
{
    let mut index: usize = 0;
    while index < a.len()
        invariant
            index <= a@.len(),
            forall|i: int| 0 <= i < index ==> texts(b@).contains(#[trigger] texts(a@)[i]),
        decreases a@.len() - index,
    {
        if !holds(b, &a[index]) {
            assert(!texts(b@).contains(texts(a@)[index as int]));
            return false;
        }
        index = index + 1;
    }
    true
}

/// Whether a list repeats no value.
pub fn distinct(list: &Vec<String>) -> (r: bool)
    ensures
        r == texts(list@).no_duplicates(),
{
    let ghost all = texts(list@);
    let mut index: usize = 0;
    while index < list.len()
        invariant
            all == texts(list@),
            index <= list@.len(),
            forall|i: int, j: int| 0 <= i < j < index ==> all[i] != all[j],
        decreases list@.len() - index,
    {
        let mut earlier: usize = 0;
        while earlier < index
            invariant
                all == texts(list@),
                earlier <= index < list@.len(),
                forall|i: int| 0 <= i < earlier ==> all[i] != all[index as int],
            decreases index - earlier,
        {
            if list[earlier] == list[index] {
                assert(all[earlier as int] == all[index as int]);
                return false;
            }
            earlier = earlier + 1;
        }
        index = index + 1;
    }
    true
}

/// Whether a list keeps the value bounds: how many, how long, how long in all.
pub open spec fn bounded(
    list: Seq<Seq<char>>,
    values: nat,
    value_bytes: nat,
    list_bytes: nat,
) -> bool {
    &&& list.len() <= values
    &&& forall|i: int| 0 <= i < list.len() ==> bytes(#[trigger] list[i]).len() <= value_bytes
    &&& total_bytes(list) <= list_bytes
}

/// Whether no value is longer than a bound.
pub fn all_within(list: &Vec<String>, value_bytes: usize) -> (r: bool)
    ensures
        r == (forall|i: int|
            0 <= i < list@.len() ==> bytes(#[trigger] texts(list@)[i]).len() <= value_bytes),
{
    let mut index: usize = 0;
    while index < list.len()
        invariant
            index <= list@.len(),
            forall|i: int|
                0 <= i < index ==> bytes(#[trigger] texts(list@)[i]).len() <= value_bytes,
        decreases list@.len() - index,
    {
        if length(&list[index]) > value_bytes {
            assert(bytes(texts(list@)[index as int]).len() > value_bytes);
            return false;
        }
        index = index + 1;
    }
    true
}

/// Decide [`bounded`].
pub fn within(list: &Vec<String>, values: usize, value_bytes: usize, list_bytes: usize) -> (r: bool)
    requires
        list_bytes < usize::MAX,
    ensures
        r == bounded(texts(list@), values as nat, value_bytes as nat, list_bytes as nat),
{
    if list.len() > values || !all_within(list, value_bytes) {
        return false;
    }
    total_length(list) <= list_bytes
}

/// Where the first colon stands among the bytes of a value, if one does.
pub open spec fn colon(value: Seq<u8>) -> Option<int> {
    if value.contains(58) {
        Some(choose|i: int|
            0 <= i < value.len() && value[i] == 58 && forall|j: int| 0 <= j < i ==> value[j] != 58)
    } else {
        None
    }
}

/// The part before the first colon; nothing where there is none.
pub open spec fn cluster_part(value: Seq<u8>) -> Seq<u8> {
    match colon(value) {
        Some(at) => value.take(at),
        None => Seq::empty(),
    }
}

/// The part after the first colon; everything where there is none.
pub open spec fn port_part(value: Seq<u8>) -> Seq<u8> {
    match colon(value) {
        Some(at) => value.skip(at + 1),
        None => value,
    }
}

/// Split the bytes of a value at its first colon.
pub fn split(value: &[u8]) -> (r: (&[u8], &[u8]))
    ensures
        r.0@ == cluster_part(value@),
        r.1@ == port_part(value@),
{
    let mut index: usize = 0;
    while index < value.len()
        invariant
            index <= value@.len(),
            forall|j: int| 0 <= j < index ==> value@[j] != 58,
        decreases value@.len() - index,
    {
        if value[index] == 58 {
            proof {
                assert(value@.contains(58));
                let at = colon(value@)->0;
                assert(0 <= at < value@.len() && value@[at] == 58 && forall|j: int|
                    0 <= j < at ==> value@[j] != 58) by {
                    assert(0 <= index < value@.len() && value@[index as int] == 58 && forall|j: int|
                        0 <= j < index ==> value@[j] != 58);
                }
                assert(at == index);
            }
            let cluster = vstd::slice::slice_subrange(value, 0, index);
            let port = vstd::slice::slice_subrange(value, index + 1, value.len());
            assert(cluster@ =~= value@.take(index as int));
            assert(port@ =~= value@.skip(index + 1));
            return (cluster, port);
        }
        index = index + 1;
    }
    assert(!value@.contains(58));
    let cluster = vstd::slice::slice_subrange(value, 0, 0);
    assert(cluster@ =~= Seq::empty());
    (cluster, value)
}

/// Whether two byte strings are equal.
pub fn same_bytes(a: &[u8], b: &[u8]) -> (r: bool)
    ensures
        r == (a@ == b@),
{
    if a.len() != b.len() {
        return false;
    }
    let mut index: usize = 0;
    while index < a.len()
        invariant
            a@.len() == b@.len(),
            index <= a@.len(),
            forall|i: int| 0 <= i < index ==> a@[i] == b@[i],
        decreases a@.len() - index,
    {
        if a[index] != b[index] {
            return false;
        }
        index = index + 1;
    }
    assert(a@ =~= b@);
    true
}

/// A value with a colon is its cluster part, that colon and its port part, and no
/// colon stands in the cluster part; a value without one is all port.
pub proof fn law_parts_rejoin(value: Seq<u8>)
    ensures
        value.contains(58) ==> cluster_part(value) + seq![58u8] + port_part(value) == value
            && !cluster_part(value).contains(58),
        !value.contains(58) ==> cluster_part(value).len() == 0 && port_part(value) == value,
{
    if value.contains(58) {
        lemma_first_colon(value, value.index_of(58));
        let at = colon(value)->0;
        assert(cluster_part(value) + seq![58u8] + port_part(value) =~= value);
    }
}

proof fn lemma_first_colon(value: Seq<u8>, at: int)
    requires
        0 <= at < value.len(),
        value[at] == 58,
    ensures
        exists|i: int|
            0 <= i < value.len() && value[i] == 58 && forall|j: int| 0 <= j < i ==> value[j] != 58,
    decreases at,
{
    if exists|j: int| 0 <= j < at && value[j] == 58 {
        let j = choose|j: int| 0 <= j < at && value[j] == 58;
        lemma_first_colon(value, j);
    } else {
        assert(0 <= at < value.len() && value[at] == 58 && forall|j: int| 0 <= j < at ==> value[j]
            != 58);
    }
}

} // verus!
