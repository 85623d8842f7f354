//! Helpers on byte strings: comparison, prefixes, suffixes and copying.

use vstd::prelude::*;

verus! {

/// The views of a sequence of byte vectors.
pub open spec fn views(items: Seq<Vec<u8>>) -> Seq<Seq<u8>> {
    items.map_values(|item: Vec<u8>| item@)
}

/// The view of an optional byte string.
pub open spec fn optional_view(r: Option<Vec<u8>>) -> Option<Seq<u8>> {
    match r {
        Some(v) => Some(v@),
        None => None,
    }
}

/// `a` begins with `prefix`.
pub open spec fn has_prefix(a: Seq<u8>, prefix: Seq<u8>) -> bool {
    prefix.len() <= a.len() && a.subrange(0, prefix.len() as int) == prefix
}

/// `a` ends with `suffix`.
pub open spec fn has_suffix(a: Seq<u8>, suffix: Seq<u8>) -> bool {
    suffix.len() <= a.len() && a.subrange(a.len() - suffix.len(), a.len() as int) == suffix
}

/// Copies `a[from..to]` into a fresh vector.
pub fn copy_range(a: &[u8], from: usize, to: usize) -> (r: Vec<u8>)
    requires
        from <= to <= a@.len(),
    ensures
        r@ == a@.subrange(from as int, to as int),
{
    let mut r: Vec<u8> = Vec::new();
    let mut i: usize = from;
    while i < to
        invariant
            from <= i <= to <= a@.len(),
            r@ == a@.subrange(from as int, i as int),
        decreases to - i,
    {
        r.push(a[i]);
        i += 1;
        assert(r@ =~= a@.subrange(from as int, i as int));
    }
    r
}

/// Copies a whole byte string.
pub fn copy(a: &[u8]) -> (r: Vec<u8>)
    ensures
        r@ == a@,
{
    let r = copy_range(a, 0, a.len());
    assert(a@.subrange(0, a@.len() as int) =~= a@);
    r
}

/// Appends `b` to `out`.
pub fn append(out: &mut Vec<u8>, b: &[u8])
    ensures
        final(out)@ == old(out)@ + b@,
{
    let mut i: usize = 0;
    while i < b.len()
        invariant
            i <= b@.len(),
            out@ == old(out)@ + b@.subrange(0, i as int),
        decreases b@.len() - i,
    {
        out.push(b[i]);
        i += 1;
        assert(out@ =~= old(out)@ + b@.subrange(0, i as int));
    }
    assert(b@.subrange(0, b@.len() as int) =~= b@);
}

/// The concatenation of two byte strings.
pub fn concatenated(a: &[u8], b: &[u8]) -> (r: Vec<u8>)
    ensures
        r@ == a@ + b@,
{
    let mut r = copy(a);
    append(&mut r, b);
    r
}

/// Whether `a[from..]` begins with `b`.
pub fn matches_at(a: &[u8], from: usize, b: &[u8]) -> (r: bool)
    requires
        from <= a@.len(),
    ensures
        r == (from + b@.len() <= a@.len() && a@.subrange(from as int, from + b@.len()) == b@),
{
    if b.len() > a.len() - from {
        return false;
    }
    let mut i: usize = 0;
    while i < b.len()
        invariant
            i <= b@.len(),
            from + b@.len() <= a@.len() <= usize::MAX,
            a@.subrange(from as int, from + i) == b@.subrange(0, i as int),
        decreases b@.len() - i,
    {
        if a[from + i] != b[i] {
            proof {
                let s = a@.subrange(from as int, from + b@.len());
                assert(s[i as int] == a@[from + i]);
            }
            return false;
        }
        i += 1;
        assert(a@.subrange(from as int, from + i) =~= a@.subrange(from as int, from + i - 1).push(
            a@[from + i - 1],
        ));
        assert(b@.subrange(0, i as int) =~= b@.subrange(0, i - 1).push(b@[i - 1]));
    }
    assert(b@.subrange(0, b@.len() as int) =~= b@);
    true
}

/// Whether two byte strings are equal.
pub fn equal(a: &[u8], b: &[u8]) -> (r: bool)
    ensures
        r == (a@ == b@),
{
    if a.len() != b.len() {
        return false;
    }
    let r = matches_at(a, 0, b);
    assert(a@.subrange(0, a@.len() as int) =~= a@);
    r
}

/// Whether `a` begins with `prefix`.
pub fn starts_with(a: &[u8], prefix: &[u8]) -> (r: bool)
    ensures
        r == has_prefix(a@, prefix@),
{
    matches_at(a, 0, prefix)
}

/// Whether `a` ends with `suffix`.
pub fn ends_with(a: &[u8], suffix: &[u8]) -> (r: bool)
    ensures
        r == has_suffix(a@, suffix@),
{
    if suffix.len() > a.len() {
        return false;
    }
    matches_at(a, a.len() - suffix.len(), suffix)
}

/// The position of the first `byte` in `a` at or after `i`; the length of
/// `a` when there is none.
pub open spec fn index_from(a: Seq<u8>, i: int, byte: u8) -> int
    decreases a.len() - i,
{
    if i < 0 || i >= a.len() {
        a.len() as int
    } else if a[i] == byte {
        i
    } else {
        index_from(a, i + 1, byte)
    }
}

/// The position of the last `byte` in `a`; -1 when there is none.
pub open spec fn last_index(a: Seq<u8>, byte: u8) -> int
    decreases a.len(),
{
    if a.len() == 0 {
        -1
    } else if a.last() == byte {
        a.len() - 1
    } else {
        last_index(a.drop_last(), byte)
    }
}

/// `index_from` stays within `i..=len` and points at `byte` when it is
/// below the length.
pub proof fn lemma_index_from_bounds(a: Seq<u8>, i: int, byte: u8)
    requires
        0 <= i <= a.len(),
    ensures
        i <= index_from(a, i, byte) <= a.len(),
        index_from(a, i, byte) < a.len() ==> a[index_from(a, i, byte)] == byte,
    decreases a.len() - i,
{
    if i < a.len() && a[i] != byte {
        lemma_index_from_bounds(a, i + 1, byte);
    }
}

/// `last_index` stays within `-1..len` and points at `byte` unless it is -1.
pub proof fn lemma_last_index_bounds(a: Seq<u8>, byte: u8)
    ensures
        -1 <= last_index(a, byte) < a.len(),
        last_index(a, byte) >= 0 ==> a[last_index(a, byte)] == byte,
        forall|j: int| last_index(a, byte) < j < a.len() ==> a[j] != byte,
    decreases a.len(),
{
    if a.len() > 0 && a.last() != byte {
        lemma_last_index_bounds(a.drop_last(), byte);
        assert forall|j: int| last_index(a, byte) < j < a.len() implies a[j] != byte by {
            if j < a.len() - 1 {
                assert(a.drop_last()[j] == a[j]);
            }
        }
    }
}

/// Finds the first `byte` in `a` at or after `from`.
pub fn find_from(a: &[u8], from: usize, byte: u8) -> (r: usize)
    requires
        from <= a@.len(),
    ensures
        r == index_from(a@, from as int, byte),
        from <= r <= a@.len(),
{
    let mut i: usize = from;
    while i < a.len()
        invariant
            from <= i <= a@.len(),
            index_from(a@, from as int, byte) == index_from(a@, i as int, byte),
        decreases a@.len() - i,
    {
        if a[i] == byte {
            return i;
        }
        i += 1;
    }
    i
}

/// Finds the last `byte` in `a`.
pub fn find_last(a: &[u8], byte: u8) -> (r: Option<usize>)
    ensures
        match r {
            Some(k) => k == last_index(a@, byte) && k < a@.len(),
            None => last_index(a@, byte) == -1,
        },
{
    let mut i: usize = a.len();
    assert(a@.take(i as int) =~= a@);
    while i > 0
        invariant
            i <= a@.len(),
            last_index(a@, byte) == last_index(a@.take(i as int), byte),
        decreases i,
    {
        i -= 1;
        assert(a@.take(i + 1).drop_last() =~= a@.take(i as int));
        if a[i] == byte {
            return Some(i);
        }
    }
    None
}

/// Copies every byte string of a list.
pub fn copy_all(items: &Vec<Vec<u8>>) -> (r: Vec<Vec<u8>>)
    ensures
        views(r@) == views(items@),
{
    let mut r: Vec<Vec<u8>> = Vec::new();
    let mut i: usize = 0;
    while i < items.len()
        invariant
            i <= items@.len(),
            views(r@) == views(items@).take(i as int),
        decreases items@.len() - i,
    {
        let ghost before = r@;
        let item = copy(items[i].as_slice());
        r.push(item);
        i += 1;
        assert(views(r@) =~= views(before).push(item@));
        assert(views(items@).take(i as int) =~= views(items@).take(i - 1).push(items@[i - 1]@));
    }
    assert(views(items@).take(items@.len() as int) =~= views(items@));
    r
}

/// Whether `p` is one of `items`.
pub fn contains(items: &Vec<Vec<u8>>, p: &[u8]) -> (r: bool)
    ensures
        r == views(items@).contains(p@),
{
    let mut i: usize = 0;
    while i < items.len()
        invariant
            i <= items@.len(),
            forall|j: int| 0 <= j < i ==> views(items@)[j] != p@,
        decreases items@.len() - i,
    {
        if equal(items[i].as_slice(), p) {
            assert(views(items@)[i as int] == p@);
            return true;
        }
        i += 1;
    }
    false
}

} // verus!
