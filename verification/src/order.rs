//! The order in which identifiers are lined up.
//!
//! Identifiers are compared by the length of their UTF-8 encoding first and
//! byte by byte second. Comparing lengths is cheap, and all that the merge
//! needs is one strict total order on identifiers.

use vstd::prelude::*;
use vstd::string::*;
use vstd::utf8::*;

verus! {

/// The two byte strings hold the same bytes at every index below `k`.
pub open spec fn agree_below(a: Seq<u8>, b: Seq<u8>, k: int) -> bool {
    forall|j: int| 0 <= j < k ==> a[j] == b[j]
}

/// `k` is the first index at which `a` and `b` differ, and `a` holds the
/// smaller byte there.
pub open spec fn smaller_at(a: Seq<u8>, b: Seq<u8>, k: int) -> bool {
    &&& 0 <= k < a.len()
    &&& k < b.len()
    &&& agree_below(a, b, k)
    &&& a[k] < b[k]
}

/// Among byte strings of one length: `a` comes before `b` in lexicographic
/// order.
pub open spec fn bytes_before(a: Seq<u8>, b: Seq<u8>) -> bool {
    exists|k: int| smaller_at(a, b, k)
}

/// The strict order on identifiers: a shorter encoding comes first, and
/// among encodings of one length the lexicographically smaller one.
pub open spec fn key_lt(a: Seq<char>, b: Seq<char>) -> bool {
    let x = encode_utf8(a);
    let y = encode_utf8(b);
    x.len() < y.len() || (x.len() == y.len() && bytes_before(x, y))
}

/// Two byte strings of one length are equal, or one comes before the other.
proof fn lemma_bytes_trichotomy(a: Seq<u8>, b: Seq<u8>, k: int)
    requires
        a.len() == b.len(),
        0 <= k <= a.len(),
        agree_below(a, b, k),
    ensures
        a == b || bytes_before(a, b) || bytes_before(b, a),
    decreases a.len() - k,
{
    if k < a.len() {
        if a[k] == b[k] {
            lemma_bytes_trichotomy(a, b, k + 1);
        } else if a[k] < b[k] {
            assert(smaller_at(a, b, k));
        } else {
            assert(smaller_at(b, a, k));
        }
    }
}

/// Identifiers with the same encoding are the same identifier.
pub proof fn lemma_encoding_injective(a: Seq<char>, b: Seq<char>)
    requires
        encode_utf8(a) == encode_utf8(b),
    ensures
        a == b,
{
    encode_utf8_decode_utf8(a);
    encode_utf8_decode_utf8(b);
}

/// No identifier comes before itself.
pub proof fn lemma_key_lt_irreflexive(a: Seq<char>)
    ensures
        !key_lt(a, a),
{
}

/// The order is transitive.
pub proof fn lemma_key_lt_transitive(a: Seq<char>, b: Seq<char>, c: Seq<char>)
    requires
        key_lt(a, b),
        key_lt(b, c),
    ensures
        key_lt(a, c),
{
    let x = encode_utf8(a);
    let y = encode_utf8(b);
    let z = encode_utf8(c);
    if x.len() == y.len() && y.len() == z.len() {
        let k = choose|k: int| smaller_at(x, y, k);
        let l = choose|l: int| smaller_at(y, z, l);
        let m = if k <= l { k } else { l };
        assert(smaller_at(x, z, m));
    }
}

/// Any two different identifiers are ordered one way or the other.
pub proof fn lemma_key_lt_total(a: Seq<char>, b: Seq<char>)
    ensures
        a == b || key_lt(a, b) || key_lt(b, a),
{
    let x = encode_utf8(a);
    let y = encode_utf8(b);
    if x.len() == y.len() {
        lemma_bytes_trichotomy(x, y, 0);
        if x == y {
            lemma_encoding_injective(a, b);
        }
    }
}

/// What does not come after `b` comes before everything that `b` comes
/// before.
pub proof fn lemma_key_le_lt(a: Seq<char>, b: Seq<char>, c: Seq<char>)
    requires
        !key_lt(b, a),
        key_lt(b, c),
    ensures
        key_lt(a, c),
{
    lemma_key_lt_total(a, b);
    if a != b {
        lemma_key_lt_transitive(a, b, c);
    }
}

/// What comes before `b` comes before everything that does not come before
/// `b`.
pub proof fn lemma_key_lt_le(a: Seq<char>, b: Seq<char>, c: Seq<char>)
    requires
        key_lt(a, b),
        !key_lt(c, b),
    ensures
        key_lt(a, c),
{
    lemma_key_lt_total(b, c);
    if b != c {
        lemma_key_lt_transitive(a, b, c);
    }
}

/// Decides [`key_lt`] on two identifiers.
pub fn key_less(a: &str, b: &str) -> (less: bool)
    ensures
        less == key_lt(a@, b@),
{
    let x = a.as_bytes();
    let y = b.as_bytes();
    if x.len() != y.len() {
        return x.len() < y.len();
    }
    let mut i: usize = 0;
    while i < x.len()
        invariant
            x@ == encode_utf8(a@),
            y@ == encode_utf8(b@),
            x@.len() == y@.len(),
            i <= x@.len(),
            agree_below(x@, y@, i as int),
        decreases x@.len() - i,
    {
        if x[i] != y[i] {
            proof {
                if x[i as int] < y[i as int] {
                    assert(smaller_at(x@, y@, i as int));
                }
            }
            return x[i] < y[i];
        }
        i += 1;
    }
    false
}

/// Decides whether two identifiers are the same.
pub fn same_id(a: &str, b: &str) -> (same: bool)
    ensures
        same == (a@ == b@),
{
    let x = a.as_bytes();
    let y = b.as_bytes();
    if x.len() != y.len() {
        return false;
    }
    let mut i: usize = 0;
    while i < x.len()
        invariant
            x@ == encode_utf8(a@),
            y@ == encode_utf8(b@),
            x@.len() == y@.len(),
            i <= x@.len(),
            agree_below(x@, y@, i as int),
        decreases x@.len() - i,
    {
        if x[i] != y[i] {
            return false;
        }
        i += 1;
    }
    proof {
        assert(x@ =~= y@);
        lemma_encoding_injective(a@, b@);
    }
    true
}

} // verus!
