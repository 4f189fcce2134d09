//! Byte strings: their lexicographic order, and the comparisons and copies that the other modules
//! need.

use vstd::prelude::*;

verus! {

/// `a` comes before `b`, decided at index `i`: the first `i` bytes agree, and there `a` ends or
/// holds the smaller byte.
pub open spec fn before_at(a: Seq<u8>, b: Seq<u8>, i: int) -> bool {
    &&& 0 <= i < b.len()
    &&& i <= a.len()
    &&& a.take(i) == b.take(i)
    &&& (i == a.len() || a[i] < b[i])
}

/// The lexicographic order on byte strings: a proper prefix comes first.
pub open spec fn bytes_before(a: Seq<u8>, b: Seq<u8>) -> bool {
    exists|i: int| before_at(a, b, i)
}

/// How two byte strings compare.
#[derive(Clone, Copy, Debug, PartialEq, Eq, Structural)]
pub enum ByteOrder {
    /// The first comes before the second.
    Before,
    /// Both hold the same bytes.
    Same,
    /// The first comes after the second.
    After,
}

/// No byte string comes before itself.
pub proof fn lemma_bytes_before_irreflexive(a: Seq<u8>)
    ensures
        !bytes_before(a, a),
{
}

/// The order on byte strings is transitive.
pub proof fn lemma_bytes_before_transitive(a: Seq<u8>, b: Seq<u8>, c: Seq<u8>)
    requires
        bytes_before(a, b),
        bytes_before(b, c),
    ensures
        bytes_before(a, c),
{
    let i = choose|i: int| before_at(a, b, i);
    let j = choose|j: int| before_at(b, c, j);
    let k = if i <= j { i } else { j };
    assert(a.take(k) =~= c.take(k)) by {
        assert forall|n: int| 0 <= n < k implies a[n] == c[n] by {
            assert(a.take(i)[n] == b.take(i)[n]);
            assert(b.take(j)[n] == c.take(j)[n]);
        }
    }
    if i < j {
        assert(b.take(j)[i] == c.take(j)[i]);
    } else if j < i {
        assert(a.take(i)[j] == b.take(i)[j]);
    }
    assert(before_at(a, c, k));
}

/// Two byte strings do not come before each other.
pub proof fn lemma_bytes_before_asymmetric(a: Seq<u8>, b: Seq<u8>)
    requires
        bytes_before(a, b),
    ensures
        !bytes_before(b, a),
        a != b,
{
    if bytes_before(b, a) {
        lemma_bytes_before_transitive(a, b, a);
    }
    lemma_bytes_before_irreflexive(a);
}

/// Of two different byte strings one comes before the other.
pub proof fn lemma_bytes_before_total(a: Seq<u8>, b: Seq<u8>)
    ensures
        bytes_before(a, b) || a == b || bytes_before(b, a),
{
    assert(a.take(0) =~= b.take(0));
    lemma_total_from(a, b, 0);
}

proof fn lemma_total_from(a: Seq<u8>, b: Seq<u8>, i: int)
    requires
        0 <= i <= a.len(),
        i <= b.len(),
        a.take(i) == b.take(i),
    ensures
        bytes_before(a, b) || a == b || bytes_before(b, a),
    decreases a.len() - i,
{
    if i == a.len() && i == b.len() {
        assert(a.take(i) =~= a);
        assert(b.take(i) =~= b);
    } else if i == a.len() || (i < b.len() && a[i] < b[i]) {
        assert(before_at(a, b, i));
    } else if i == b.len() || b[i] < a[i] {
        assert(before_at(b, a, i));
    } else {
        assert(a.take(i + 1) =~= a.take(i).push(a[i]));
        assert(b.take(i + 1) =~= b.take(i).push(b[i]));
        lemma_total_from(a, b, i + 1);
    }
}

/// A common prefix does not change how two byte strings compare.
pub proof fn lemma_bytes_before_prefix(p: Seq<u8>, a: Seq<u8>, b: Seq<u8>)
    ensures
        bytes_before(p + a, p + b) <==> bytes_before(a, b),
{
    if bytes_before(a, b) {
        let i = choose|i: int| before_at(a, b, i);
        let k = p.len() + i;
        assert((p + a).take(k) =~= p + a.take(i));
        assert((p + b).take(k) =~= p + b.take(i));
        assert(before_at(p + a, p + b, k));
    }
    if bytes_before(p + a, p + b) {
        let k = choose|k: int| before_at(p + a, p + b, k);
        let i = k - p.len();
        if i < 0 {
            assert((p + a)[k] == p[k] && (p + b)[k] == p[k]);
            assert(false);
        }
        assert(a.take(i) =~= b.take(i)) by {
            assert forall|n: int| 0 <= n < i implies a[n] == b[n] by {
                assert((p + a).take(k)[p.len() + n] == (p + b).take(k)[p.len() + n]);
            }
        }
        assert(before_at(a, b, i));
    }
}

/// Compares two byte strings lexicographically.
pub fn compare_bytes(a: &[u8], b: &[u8]) -> (order: ByteOrder)
    ensures
        order == ByteOrder::Before <==> bytes_before(a@, b@),
        order == ByteOrder::Same <==> a@ == b@,
        order == ByteOrder::After <==> bytes_before(b@, a@),
{
    let mut i: usize = 0;
    while i < a.len() && i < b.len()
        invariant
            i <= a.len(),
            i <= b.len(),
            a@.take(i as int) == b@.take(i as int),
        decreases a.len() - i,
    {
        if a[i] < b[i] {
            proof {
                assert(before_at(a@, b@, i as int));
                lemma_bytes_before_asymmetric(a@, b@);
            }
            return ByteOrder::Before;
        }
        if b[i] < a[i] {
            proof {
                assert(before_at(b@, a@, i as int));
                lemma_bytes_before_asymmetric(b@, a@);
            }
            return ByteOrder::After;
        }
        proof {
            assert(a@.take(i + 1) =~= a@.take(i as int).push(a@[i as int]));
            assert(b@.take(i + 1) =~= b@.take(i as int).push(b@[i as int]));
        }
        i = i + 1;
    }
    proof {
        assert(i == a.len() ==> a@.take(i as int) =~= a@);
        assert(i == b.len() ==> b@.take(i as int) =~= b@);
    }
    if i < b.len() {
        proof {
            assert(before_at(a@, b@, i as int));
            lemma_bytes_before_asymmetric(a@, b@);
        }
        ByteOrder::Before
    } else if i < a.len() {
        proof {
            assert(before_at(b@, a@, i as int));
            lemma_bytes_before_asymmetric(b@, a@);
        }
        ByteOrder::After
    } else {
        proof {
            lemma_bytes_before_irreflexive(a@);
        }
        ByteOrder::Same
    }
}

/// Tells whether two byte strings hold the same bytes.
pub fn bytes_equal(a: &[u8], b: &[u8]) -> (equal: bool)
    ensures
        equal == (a@ == b@),
{
    compare_bytes(a, b) == ByteOrder::Same
}

/// `bytes` starts with `prefix`.
pub open spec fn has_prefix(bytes: Seq<u8>, prefix: Seq<u8>) -> bool {
    prefix.len() <= bytes.len() && bytes.take(prefix.len() as int) == prefix
}

/// Tells whether `bytes` starts with `prefix`.
pub fn starts_with(bytes: &[u8], prefix: &[u8]) -> (found: bool)
    ensures
        found == has_prefix(bytes@, prefix@),
{
    if bytes.len() < prefix.len() {
        return false;
    }
    let head = vstd::slice::slice_subrange(bytes, 0, prefix.len());
    proof {
        assert(bytes@.subrange(0, prefix@.len() as int) =~= bytes@.take(prefix@.len() as int));
    }
    bytes_equal(head, prefix)
}

/// Copies a byte string.
pub fn copy_bytes(bytes: &[u8]) -> (copy: Vec<u8>)
    ensures
        copy@ == bytes@,
{
    vstd::slice::slice_to_vec(bytes)
}

/// Copies an optional byte string.
pub fn copy_optional_bytes(bytes: &Option<Vec<u8>>) -> (copy: Option<Vec<u8>>)
    ensures
        optional_view(copy) == optional_view(*bytes),
{
    match bytes {
        None => None,
        Some(inner) => Some(copy_bytes(inner.as_slice())),
    }
}

/// The bytes of an optional byte string.
pub open spec fn optional_view(bytes: Option<Vec<u8>>) -> Option<Seq<u8>> {
    match bytes {
        None => None,
        Some(inner) => Some(inner@),
    }
}

/// Tells whether a byte occurs in a byte string.
pub fn contains_byte(bytes: &[u8], byte: u8) -> (found: bool)
    ensures
        found == bytes@.contains(byte),
{
    let mut i: usize = 0;
    while i < bytes.len()
        invariant
            i <= bytes.len(),
            forall|j: int| 0 <= j < i ==> bytes@[j] != byte,
        decreases bytes.len() - i,
    {
        if bytes[i] == byte {
            proof {
                assert(bytes@[i as int] == byte);
            }
            return true;
        }
        i = i + 1;
    }
    false
}

/// Appends `tail` to `bytes`.
pub fn append_bytes(bytes: &mut Vec<u8>, tail: &[u8])
    ensures
        final(bytes)@ == old(bytes)@ + tail@,
{
    bytes.extend_from_slice(tail);
    proof {
        assert(bytes@ =~= old(bytes)@ + tail@);
    }
}

} // verus!
