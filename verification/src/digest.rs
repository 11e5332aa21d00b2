use vstd::prelude::*;

verus! {

broadcast use vstd::array::group_array_axioms;

/// A 32-byte content digest: the identity of a piece of evidence.
pub type Digest = [u8; 32];

/// Byte-wise equality of two digests.
pub fn digests_equal(a: &Digest, b: &Digest) -> (equal: bool)
    ensures
        equal == (*a == *b),
{
    let mut i: usize = 0;
    while i < 32
        invariant
            i <= 32,
            forall|j: int| 0 <= j < i ==> a[j] == b[j],
        decreases 32 - i,
    {
        if a[i] != b[i] {
            return false;
        }
        i = i + 1;
    }
    assert(*a =~= *b);
    true
}

/// Whether `d` occurs in `list`.
pub fn contains_digest(list: &Vec<Digest>, d: &Digest) -> (found: bool)
    ensures
        found == list@.contains(*d),
{
    let mut i: usize = 0;
    while i < list.len()
        invariant
            i <= list.len(),
            forall|j: int| 0 <= j < i ==> list@[j] != *d,
        decreases list.len() - i,
    {
        if digests_equal(&list[i], d) {
            assert(list@[i as int] == *d);
            return true;
        }
        i = i + 1;
    }
    false
}

/// Whether some digest occurs twice in `list`.
pub fn has_repeated_digest(list: &Vec<Digest>) -> (repeated: bool)
    ensures
        repeated == !list@.no_duplicates(),
{
    let n: usize = list.len();
    let mut i: usize = 0;
    while i < n
        invariant
            n == list.len(),
            i <= n,
            forall|a: int, b: int| 0 <= a < i && a < b < n ==> list@[a] != list@[b],
        decreases n - i,
    {
        let mut j: usize = i + 1;
        while j < n
            invariant
                n == list.len(),
                i < n,
                i < j <= n,
                forall|a: int, b: int| 0 <= a < i && a < b < n ==> list@[a] != list@[b],
                forall|b: int| i < b < j ==> list@[i as int] != list@[b],
            decreases n - j,
        {
            if digests_equal(&list[i], &list[j]) {
                return true;
            }
            j = j + 1;
        }
        i = i + 1;
    }
    assert(list@.no_duplicates()) by {
        assert forall|a: int, b: int| 0 <= a < list.len() && 0 <= b < list.len() && a != b implies list@[a]
            != list@[b] by {
            if a > b {
                assert(list@[b] != list@[a]);
            }
        }
    }
    false
}

} // verus!
