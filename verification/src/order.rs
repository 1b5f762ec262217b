//! The order of dictionary keys: byte strings, compared byte by byte, and
//! sequences of entries kept in that order.

use vstd::prelude::*;

verus! {

/// Whether `a` comes before `b`, given that they agree below index `i`.
pub open spec fn bytes_lt_from(a: Seq<u8>, b: Seq<u8>, i: int) -> bool
    decreases a.len() - i,
{
    if i >= b.len() {
        false
    } else if i >= a.len() {
        true
    } else if a[i] != b[i] {
        a[i] < b[i]
    } else {
        bytes_lt_from(a, b, i + 1)
    }
}

/// Whether `a` comes strictly before `b` in byte-lexicographic order.
pub open spec fn bytes_lt(a: Seq<u8>, b: Seq<u8>) -> bool {
    bytes_lt_from(a, b, 0)
}

/// Whether the keys of `d` ascend strictly, so that no key occurs twice.
pub open spec fn sorted<V>(d: Seq<(Seq<u8>, V)>) -> bool {
    forall|i: int, j: int| 0 <= i < j < d.len() ==> bytes_lt(#[trigger] d[i].0, #[trigger] d[j].0)
}

/// The first index at or after `i` whose key does not come before `k`.
pub open spec fn slot_from<V>(d: Seq<(Seq<u8>, V)>, k: Seq<u8>, i: int) -> int
    decreases d.len() - i,
{
    if 0 <= i < d.len() && bytes_lt(d[i].0, k) {
        slot_from(d, k, i + 1)
    } else {
        i
    }
}

/// Where an entry with key `k` belongs in `d`.
pub open spec fn slot<V>(d: Seq<(Seq<u8>, V)>, k: Seq<u8>) -> int {
    slot_from(d, k, 0)
}

/// `d` with `k` bound to `v`: the entry takes the place of one with the same
/// key, or else goes where the order puts it.
pub open spec fn put<V>(d: Seq<(Seq<u8>, V)>, k: Seq<u8>, v: V) -> Seq<(Seq<u8>, V)> {
    let i: int = slot(d, k);
    if i < d.len() && d[i].0 == k {
        d.update(i, (k, v))
    } else {
        d.insert(i, (k, v))
    }
}

/// What `d` binds `k` to.
pub open spec fn lookup<V>(d: Seq<(Seq<u8>, V)>, k: Seq<u8>) -> Option<V> {
    let i: int = slot(d, k);
    if i < d.len() && d[i].0 == k {
        Some(d[i].1)
    } else {
        None
    }
}

/// No byte string comes before itself.
pub proof fn lemma_lt_irreflexive(a: Seq<u8>, i: int)
    requires
        0 <= i,
    ensures
        !bytes_lt_from(a, a, i),
    decreases a.len() - i,
{
    if i < a.len() {
        lemma_lt_irreflexive(a, i + 1);
    }
}

/// The order is transitive.
pub proof fn lemma_lt_transitive(a: Seq<u8>, b: Seq<u8>, c: Seq<u8>, i: int)
    requires
        0 <= i,
        bytes_lt_from(a, b, i),
        bytes_lt_from(b, c, i),
    ensures
        bytes_lt_from(a, c, i),
    decreases a.len() - i,
{
    if i < a.len() && i < b.len() && i < c.len() && a[i] == b[i] && b[i] == c[i] {
        lemma_lt_transitive(a, b, c, i + 1);
    }
}

/// Of two different byte strings that agree below `i`, one comes before the
/// other.
pub proof fn lemma_lt_total(a: Seq<u8>, b: Seq<u8>, i: int)
    requires
        0 <= i <= a.len(),
        i <= b.len(),
        forall|k: int| 0 <= k < i ==> a[k] == b[k],
        a != b,
    ensures
        bytes_lt_from(a, b, i) || bytes_lt_from(b, a, i),
    decreases a.len() - i,
{
    if i < a.len() && i < b.len() {
        if a[i] == b[i] {
            lemma_lt_total(a, b, i + 1);
        }
    } else if i == a.len() && i == b.len() {
        assert(a =~= b);
    }
}

/// A byte string that comes before another differs from it.
pub proof fn lemma_lt_differs(a: Seq<u8>, b: Seq<u8>)
    requires
        bytes_lt(a, b),
    ensures
        a != b,
        !bytes_lt(b, a),
{
    lemma_lt_irreflexive(a, 0);
    if bytes_lt(b, a) {
        lemma_lt_transitive(a, b, a, 0);
    }
}

/// Every entry below the slot of `k` has a key before `k`, and the entry at
/// the slot, if there is one, has not.
pub proof fn lemma_slot<V>(d: Seq<(Seq<u8>, V)>, k: Seq<u8>, i: int)
    requires
        0 <= i <= d.len(),
    ensures
        i <= slot_from(d, k, i) <= d.len(),
        forall|j: int| i <= j < slot_from(d, k, i) ==> bytes_lt(#[trigger] d[j].0, k),
        slot_from(d, k, i) < d.len() ==> !bytes_lt(d[slot_from(d, k, i)].0, k),
    decreases d.len() - i,
{
    if i < d.len() && bytes_lt(d[i].0, k) {
        lemma_slot(d, k, i + 1);
    }
}

/// The slot is the one index that parts the keys before `k` from the rest.
pub proof fn lemma_slot_is<V>(d: Seq<(Seq<u8>, V)>, k: Seq<u8>, i: int, n: int)
    requires
        0 <= i <= n <= d.len(),
        forall|j: int| i <= j < n ==> bytes_lt(#[trigger] d[j].0, k),
        n < d.len() ==> !bytes_lt(d[n].0, k),
    ensures
        slot_from(d, k, i) == n,
    decreases n - i,
{
    if i < n {
        lemma_slot_is(d, k, i + 1, n);
    }
}

/// Compares two byte strings.
pub fn bytes_before(a: &[u8], b: &[u8]) -> (r: bool)
    ensures
        r == bytes_lt(a@, b@),
{
    let mut i: usize = 0;
    while i < a.len() && i < b.len() && a[i] == b[i]
        invariant
            i <= a.len(),
            i <= b.len(),
            bytes_lt(a@, b@) == bytes_lt_from(a@, b@, i as int),
        decreases a.len() - i,
    {
        i += 1;
    }
    if i >= b.len() {
        false
    } else if i >= a.len() {
        true
    } else {
        a[i] < b[i]
    }
}

/// Whether two byte strings hold the same bytes.
pub fn bytes_equal(a: &[u8], b: &[u8]) -> (r: bool)
    ensures
        r == (a@ == b@),
{
    if a.len() != b.len() {
        return false;
    }
    let mut i: usize = 0;
    while i < a.len()
        invariant
            i <= a.len(),
            a.len() == b.len(),
            forall|k: int| 0 <= k < i ==> a@[k] == b@[k],
        decreases a.len() - i,
    {
        if a[i] != b[i] {
            return false;
        }
        i += 1;
    }
    assert(a@ =~= b@);
    true
}

} // verus!
