//! Equality and ordering of text, decided on the UTF-8 bytes.
//!
//! Names are ordered the way Rust orders strings: lexicographically by the
//! bytes of their UTF-8 encoding.

use vstd::prelude::*;
use vstd::string::StringSliceAdditionalSpecFns;
use vstd::utf8::{encode_utf8, encode_utf8_decode_utf8, decode_utf8};

verus! {

/// `a` and `b` agree on their first `i` positions.
pub open spec fn agree_until(a: Seq<u8>, b: Seq<u8>, i: int) -> bool {
    &&& 0 <= i <= a.len()
    &&& i <= b.len()
    &&& forall|k: int| 0 <= k < i ==> a[k] == b[k]
}

/// `a` and `b` agree up to position `k`, and there `a` has ended while `b`
/// goes on, or has the smaller byte.
pub open spec fn decided_at(a: Seq<u8>, b: Seq<u8>, k: int) -> bool {
    &&& agree_until(a, b, k)
    &&& k < b.len()
    &&& k < a.len() ==> a[k] < b[k]
}

/// `a` comes strictly before `b` in lexicographic order.
pub open spec fn bytes_before(a: Seq<u8>, b: Seq<u8>) -> bool {
    exists|k: int| decided_at(a, b, k)
}

/// The text `a` comes strictly before the text `b`: the UTF-8 bytes of `a`
/// precede those of `b` lexicographically.
pub open spec fn text_before(a: Seq<char>, b: Seq<char>) -> bool {
    bytes_before(encode_utf8(a), encode_utf8(b))
}

/// Where `a` and `b` differ at position `i` and agree before it, the
/// order of the two is that of their bytes at `i`.
proof fn lemma_decided_by_difference(a: Seq<u8>, b: Seq<u8>, i: int)
    requires
        agree_until(a, b, i),
        i < a.len(),
        i < b.len(),
        a[i] != b[i],
    ensures
        bytes_before(a, b) == (a[i] < b[i]),
{
    if a[i] < b[i] {
        assert(decided_at(a, b, i));
    } else if bytes_before(a, b) {
        let k = choose|k: int| decided_at(a, b, k);
        if k > i {
            assert(a[i] == b[i]);
        }
    }
}

/// Where `a` and `b` agree as far as the shorter of them goes, `a` comes
/// before `b` just when it is the shorter.
proof fn lemma_decided_by_length(a: Seq<u8>, b: Seq<u8>, i: int)
    requires
        agree_until(a, b, i),
        i == a.len() || i == b.len(),
    ensures
        bytes_before(a, b) == (i < b.len()),
{
    if i < b.len() {
        assert(decided_at(a, b, i));
    } else if bytes_before(a, b) {
        let k = choose|k: int| decided_at(a, b, k);
    }
}

proof fn lemma_bytes_total(a: Seq<u8>, b: Seq<u8>, i: int)
    requires
        agree_until(a, b, i),
    ensures
        bytes_before(a, b) || bytes_before(b, a) || a == b,
    decreases a.len() - i,
{
    if i >= a.len() || i >= b.len() {
        if i >= a.len() && i >= b.len() {
            assert(a =~= b);
        } else if i >= a.len() {
            assert(decided_at(a, b, i));
        } else {
            assert(decided_at(b, a, i));
        }
    } else if a[i] == b[i] {
        lemma_bytes_total(a, b, i + 1);
    } else if a[i] < b[i] {
        assert(decided_at(a, b, i));
    } else {
        assert(decided_at(b, a, i));
    }
}

/// No text comes before itself.
pub proof fn lemma_text_before_irreflexive(a: Seq<char>)
    ensures
        !text_before(a, a),
{
    let x = encode_utf8(a);
    if bytes_before(x, x) {
        let k = choose|k: int| decided_at(x, x, k);
    }
}

/// The order on texts is transitive.
pub proof fn lemma_text_before_transitive(a: Seq<char>, b: Seq<char>, c: Seq<char>)
    requires
        text_before(a, b),
        text_before(b, c),
    ensures
        text_before(a, c),
{
    let x = encode_utf8(a);
    let y = encode_utf8(b);
    let z = encode_utf8(c);
    let i = choose|i: int| decided_at(x, y, i);
    let j = choose|j: int| decided_at(y, z, j);
    let k = if i <= j { i } else { j };
    assert(decided_at(x, z, k));
}

/// Two different texts are always ordered, one way or the other.
pub proof fn lemma_text_before_total(a: Seq<char>, b: Seq<char>)
    ensures
        text_before(a, b) || text_before(b, a) || a == b,
{
    lemma_bytes_total(encode_utf8(a), encode_utf8(b), 0);
    lemma_same_bytes_same_text(a, b);
}

/// Texts with the same UTF-8 bytes are the same text.
pub proof fn lemma_same_bytes_same_text(a: Seq<char>, b: Seq<char>)
    ensures
        encode_utf8(a) == encode_utf8(b) ==> a == b,
{
    encode_utf8_decode_utf8(a);
    encode_utf8_decode_utf8(b);
    if encode_utf8(a) == encode_utf8(b) {
        assert(decode_utf8(encode_utf8(a)) == decode_utf8(encode_utf8(b)));
    }
}

/// Whether two string slices hold the same text.
pub fn str_eq(a: &str, b: &str) -> (same: bool)
    ensures
        same == (a@ == b@),
{
    let x = a.as_bytes();
    let y = b.as_bytes();
    proof {
        lemma_same_bytes_same_text(a@, b@);
    }
    if x.len() != y.len() {
        return false;
    }
    let mut i: usize = 0;
    while i < x.len()
        invariant
            x@ == a.spec_bytes(),
            y@ == b.spec_bytes(),
            x@.len() == y@.len(),
            agree_until(x@, y@, i as int),
        decreases x.len() - i,
    {
        if x[i] != y[i] {
            return false;
        }
        i += 1;
    }
    assert(x@ =~= y@);
    true
}

/// Whether `a` comes strictly before `b` in the order of [`text_before`].
pub fn str_before(a: &str, b: &str) -> (before: bool)
    ensures
        before == text_before(a@, b@),
{
    let x = a.as_bytes();
    let y = b.as_bytes();
    let mut i: usize = 0;
    while i < x.len() && i < y.len()
        invariant
            x@ == a.spec_bytes(),
            y@ == b.spec_bytes(),
            agree_until(x@, y@, i as int),
        decreases x.len() - i,
    {
        if x[i] != y[i] {
            proof {
                lemma_decided_by_difference(x@, y@, i as int);
            }
            return x[i] < y[i];
        }
        i += 1;
    }
    proof {
        lemma_decided_by_length(x@, y@, i as int);
    }
    i < y.len()
}

/// The place of `key` among `keys`, if it is there.
pub open spec fn position(keys: Seq<Seq<char>>, key: Seq<char>) -> Option<int> {
    if exists|i: int| 0 <= i < keys.len() && keys[i] == key {
        Some(choose|i: int| 0 <= i < keys.len() && keys[i] == key)
    } else {
        None
    }
}

/// Where `keys[i]` is `key` and no key occurs twice, `i` is the place of
/// `key`.
pub proof fn lemma_position(keys: Seq<Seq<char>>, key: Seq<char>, i: int)
    requires
        keys.no_duplicates(),
        0 <= i < keys.len(),
        keys[i] == key,
    ensures
        position(keys, key) == Some(i),
{
}

/// A key that has no place among distinct keys can go behind them, and the
/// keys are still distinct.
pub proof fn lemma_pushed_key(keys: Seq<Seq<char>>, key: Seq<char>)
    requires
        keys.no_duplicates(),
    ensures
        position(keys, key) is None ==> keys.push(key).no_duplicates(),
{
    if position(keys, key) is None {
        let after = keys.push(key);
        assert forall|i: int, j: int|
            0 <= i < after.len() && 0 <= j < after.len() && i != j implies after[i]
            != after[j] by {
            if i < keys.len() && j < keys.len() {
            } else if i < keys.len() {
                assert(keys[i] != key);
            } else {
                assert(keys[j] != key);
            }
        }
    }
}

} // verus!
