//! Texts as the bytes they are stored in: equality and dictionary order.

use vstd::prelude::*;
use vstd::slice::slice_to_vec;
use vstd::utf8::{encode_utf8, encode_utf8_decode_utf8};

use crate::order::Ranked;

verus! {

/// The bytes that a text is stored in.
pub open spec fn bytes_of(text: Seq<char>) -> Seq<u8> {
    encode_utf8(text)
}

/// Dictionary order on bytes: at the first place where the two differ `a`
/// has the smaller byte, or `a` ends there and `b` goes on.
pub open spec fn bytes_before(a: Seq<u8>, b: Seq<u8>) -> bool
    decreases a.len(),
{
    if b.len() == 0 {
        false
    } else if a.len() == 0 {
        true
    } else if a[0] != b[0] {
        a[0] < b[0]
    } else {
        bytes_before(a.drop_first(), b.drop_first())
    }
}

/// Dictionary order on texts, by their bytes.
pub open spec fn text_before(a: Seq<char>, b: Seq<char>) -> bool {
    bytes_before(bytes_of(a), bytes_of(b))
}

/// No byte string comes before itself.
proof fn lemma_bytes_irreflexive(a: Seq<u8>)
    ensures
        !bytes_before(a, a),
    decreases a.len(),
{
    if a.len() > 0 {
        lemma_bytes_irreflexive(a.drop_first());
    }
}

/// Two byte strings of which neither comes before the other are equal.
proof fn lemma_bytes_level(a: Seq<u8>, b: Seq<u8>)
    ensures
        !bytes_before(a, b) && !bytes_before(b, a) ==> a == b,
    decreases a.len(),
{
    if a.len() > 0 && b.len() > 0 {
        lemma_bytes_level(a.drop_first(), b.drop_first());
        if !bytes_before(a, b) && !bytes_before(b, a) {
            assert(a[0] == b[0]);
            assert(a.drop_first() == b.drop_first());
            assert(a =~= seq![a[0]] + a.drop_first());
            assert(b =~= seq![b[0]] + b.drop_first());
        }
    } else if a.len() == 0 && b.len() == 0 {
        assert(a =~= b);
    }
}

/// Dictionary order passes on through a middle string, and places every
/// third string on one side of two ordered ones.
proof fn lemma_bytes_chain(a: Seq<u8>, b: Seq<u8>, c: Seq<u8>)
    ensures
        bytes_before(a, b) && bytes_before(b, c) ==> bytes_before(a, c),
        bytes_before(a, c) ==> bytes_before(a, b) || bytes_before(b, c),
    decreases a.len(),
{
    if a.len() > 0 && b.len() > 0 && c.len() > 0 {
        lemma_bytes_chain(a.drop_first(), b.drop_first(), c.drop_first());
    }
}

/// Dictionary order is a strict order that leaves no two byte strings
/// unordered but equal ones.
pub proof fn lemma_bytes_order(a: Seq<u8>, b: Seq<u8>, c: Seq<u8>)
    ensures
        !bytes_before(a, a),
        bytes_before(a, b) && bytes_before(b, c) ==> bytes_before(a, c),
        bytes_before(a, c) ==> bytes_before(a, b) || bytes_before(b, c),
        !bytes_before(a, b) && !bytes_before(b, a) ==> a == b,
{
    lemma_bytes_irreflexive(a);
    lemma_bytes_level(a, b);
    lemma_bytes_chain(a, b, c);
}

/// Texts are told apart by their bytes, so of two different texts one comes
/// before the other.
pub proof fn lemma_text_order(a: Seq<char>, b: Seq<char>)
    ensures
        bytes_of(a) == bytes_of(b) <==> a == b,
        a != b ==> text_before(a, b) || text_before(b, a),
        !(text_before(a, b) && text_before(b, a)),
        !text_before(a, a),
{
    encode_utf8_decode_utf8(a);
    encode_utf8_decode_utf8(b);
    lemma_bytes_order(bytes_of(a), bytes_of(b), bytes_of(a));
    lemma_bytes_order(bytes_of(a), bytes_of(a), bytes_of(a));
}

/// Whether two byte strings are the same.
pub fn same_bytes(a: &[u8], b: &[u8]) -> (same: bool)
    ensures
        same == (a@ == b@),
{
    if a.len() != b.len() {
        return false;
    }
    let mut k: usize = 0;
    while k < a.len()
        invariant
            k <= a@.len(),
            a@.len() == b@.len(),
            forall|j: int| 0 <= j < k ==> a@[j] == b@[j],
        decreases a@.len() - k,
    {
        if a[k] != b[k] {
            return false;
        }
        k = k + 1;
    }
    assert(a@ =~= b@);
    true
}

/// Whether two texts are the same.
pub fn same_text(a: &str, b: &str) -> (same: bool)
    ensures
        same == (a@ == b@),
{
    proof {
        lemma_text_order(a@, b@);
    }
    same_bytes(a.as_bytes(), b.as_bytes())
}

/// Whether `a` comes before `b` in dictionary order.
pub fn bytes_come_before(a: &[u8], b: &[u8]) -> (first: bool)
    ensures
        first == bytes_before(a@, b@),
{
    let mut k: usize = 0;
    assert(a@.skip(0) =~= a@ && b@.skip(0) =~= b@);
    while k < a.len() && k < b.len()
        invariant
            k <= a@.len(),
            k <= b@.len(),
            bytes_before(a@, b@) == bytes_before(a@.skip(k as int), b@.skip(k as int)),
        decreases a@.len() - k,
    {
        let ghost rest_a = a@.skip(k as int);
        let ghost rest_b = b@.skip(k as int);
        assert(rest_a[0] == a@[k as int] && rest_b[0] == b@[k as int]);
        if a[k] != b[k] {
            return a[k] < b[k];
        }
        assert(rest_a.drop_first() =~= a@.skip(k + 1));
        assert(rest_b.drop_first() =~= b@.skip(k + 1));
        k = k + 1;
    }
    k < b.len()
}

/// A text held as a key that rows are put in dictionary order by.
pub struct TextKey {
    pub bytes: Vec<u8>,
}

impl TextKey {
    /// The key of `text`.
    pub fn of(text: &str) -> (key: TextKey)
        ensures
            key.bytes@ == bytes_of(text@),
    {
        TextKey { bytes: slice_to_vec(text.as_bytes()) }
    }
}

impl Ranked for TextKey {
    open spec fn precedes(&self, other: &Self) -> bool {
        bytes_before(self.bytes@, other.bytes@)
    }

    fn comes_before(&self, other: &Self) -> (first: bool) {
        bytes_come_before(self.bytes.as_slice(), other.bytes.as_slice())
    }

    proof fn lemma_precedes(a: &Self, b: &Self, c: &Self) {
        lemma_bytes_order(a.bytes@, b.bytes@, c.bytes@);
    }
}

} // verus!
