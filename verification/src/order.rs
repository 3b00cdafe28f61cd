//! The order in which names are listed: that of their UTF-8 bytes, which is
//! the order of `str` and `String`.

use vstd::prelude::*;
use vstd::utf8::{decode_utf8, encode_utf8, encode_utf8_decode_utf8};

verus! {

/// `a` comes before `b` in the lexicographic order of byte strings.
pub open spec fn bytes_before(a: Seq<u8>, b: Seq<u8>) -> bool
    decreases a.len(),
{
    if b.len() == 0 {
        false
    } else if a.len() == 0 {
        true
    } else if a[0] == b[0] {
        bytes_before(a.skip(1), b.skip(1))
    } else {
        a[0] < b[0]
    }
}

/// The name `a` comes before the name `b`.
pub open spec fn name_before(a: Seq<char>, b: Seq<char>) -> bool {
    bytes_before(encode_utf8(a), encode_utf8(b))
}

/// No byte string comes before itself.
pub proof fn lemma_bytes_irreflexive(a: Seq<u8>)
    ensures
        !bytes_before(a, a),
    decreases a.len(),
{
    if a.len() > 0 {
        lemma_bytes_irreflexive(a.skip(1));
    }
}

/// The order of byte strings is transitive.
pub proof fn lemma_bytes_transitive(a: Seq<u8>, b: Seq<u8>, c: Seq<u8>)
    requires
        bytes_before(a, b),
        bytes_before(b, c),
    ensures
        bytes_before(a, c),
    decreases a.len(),
{
    if a.len() > 0 && a[0] == b[0] && b[0] == c[0] {
        lemma_bytes_transitive(a.skip(1), b.skip(1), c.skip(1));
    }
}

/// Of two different byte strings one comes before the other.
pub proof fn lemma_bytes_total(a: Seq<u8>, b: Seq<u8>)
    requires
        a != b,
    ensures
        bytes_before(a, b) || bytes_before(b, a),
    decreases a.len(),
{
    if a.len() > 0 && b.len() > 0 && a[0] == b[0] {
        if a.skip(1) == b.skip(1) {
            assert(a =~= seq![a[0]] + a.skip(1));
            assert(b =~= seq![b[0]] + b.skip(1));
        }
        lemma_bytes_total(a.skip(1), b.skip(1));
    } else if a.len() == 0 && b.len() == 0 {
        assert(a =~= b);
    }
}

/// No name comes before itself.
pub proof fn lemma_name_irreflexive(a: Seq<char>)
    ensures
        !name_before(a, a),
{
    lemma_bytes_irreflexive(encode_utf8(a));
}

/// The order of names is transitive.
pub proof fn lemma_name_transitive(a: Seq<char>, b: Seq<char>, c: Seq<char>)
    requires
        name_before(a, b),
        name_before(b, c),
    ensures
        name_before(a, c),
{
    lemma_bytes_transitive(encode_utf8(a), encode_utf8(b), encode_utf8(c));
}

/// Of two different names one comes before the other.
pub proof fn lemma_name_total(a: Seq<char>, b: Seq<char>)
    requires
        a != b,
    ensures
        name_before(a, b) || name_before(b, a),
{
    encode_utf8_decode_utf8(a);
    encode_utf8_decode_utf8(b);
    assert(decode_utf8(encode_utf8(a)) == a);
    assert(decode_utf8(encode_utf8(b)) == b);
    lemma_bytes_total(encode_utf8(a), encode_utf8(b));
}

/// Decides whether one byte string comes before another.
pub fn is_bytes_before(a: &[u8], b: &[u8]) -> (before: bool)
    ensures
        before == bytes_before(a@, b@),
{
    let mut i: usize = 0;
    assert(a@.skip(0) == a@ && b@.skip(0) == b@);
    while i < a.len() && i < b.len()
        invariant
            i <= a@.len(),
            i <= b@.len(),
            bytes_before(a@, b@) == bytes_before(a@.skip(i as int), b@.skip(i as int)),
        decreases a@.len() - i,
    {
        let ghost ra = a@.skip(i as int);
        let ghost rb = b@.skip(i as int);
        assert(ra[0] == a@[i as int] && rb[0] == b@[i as int]);
        if a[i] != b[i] {
            return a[i] < b[i];
        }
        assert(ra.skip(1) == a@.skip(i + 1));
        assert(rb.skip(1) == b@.skip(i + 1));
        i = i + 1;
    }
    assert(a@.skip(i as int).len() == a@.len() - i);
    assert(b@.skip(i as int).len() == b@.len() - i);
    i < b.len()
}

/// Decides whether one name comes before another.
pub fn is_name_before(a: &String, b: &String) -> (before: bool)
    ensures
        before == name_before(a@, b@),
{
    is_bytes_before(a.as_str().as_bytes(), b.as_str().as_bytes())
}

} // verus!
