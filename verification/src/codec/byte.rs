use vstd::prelude::*;
use vstd::slice::{slice_index_get, slice_to_vec};
use crate::codec::{Key, Value};

verus! {

/// Lexicographic order on byte strings: the usual dictionary order,
/// with a proper prefix before every extension of it.
pub open spec fn lex_le(a: Seq<u8>, b: Seq<u8>) -> bool
    decreases a.len(),
{
    if a.len() == 0 {
        true
    } else if b.len() == 0 {
        false
    } else if a[0] < b[0] {
        true
    } else if a[0] > b[0] {
        false
    } else {
        lex_le(a.skip(1), b.skip(1))
    }
}

pub proof fn lemma_lex_le_total(a: Seq<u8>, b: Seq<u8>)
    ensures
        lex_le(a, b) || lex_le(b, a),
    decreases a.len(),
{
    if a.len() != 0 && b.len() != 0 && a[0] == b[0] {
        lemma_lex_le_total(a.skip(1), b.skip(1));
    }
}

pub proof fn lemma_lex_le_trans(a: Seq<u8>, b: Seq<u8>, c: Seq<u8>)
    requires
        lex_le(a, b),
        lex_le(b, c),
    ensures
        lex_le(a, c),
    decreases a.len(),
{
    if a.len() != 0 && b.len() != 0 && c.len() != 0 {
        if a[0] == b[0] && b[0] == c[0] {
            lemma_lex_le_trans(a.skip(1), b.skip(1), c.skip(1));
        }
    }
}

/// A key made of raw bytes, ordered lexicographically.
#[derive(PartialEq, Eq)]
pub struct ByteKey {
    inner: Vec<u8>,
}

/// A value made of raw bytes.
pub struct ByteValue {
    inner: Vec<u8>,
}

impl View for ByteKey {
    type V = Seq<u8>;

    closed spec fn view(&self) -> Seq<u8> {
        self.inner@
    }
}

impl View for ByteValue {
    type V = Seq<u8>;

    closed spec fn view(&self) -> Seq<u8> {
        self.inner@
    }
}

impl ByteKey {
    pub fn new(bytes: &[u8]) -> (r: ByteKey)
        ensures
            r@ == bytes@,
    {
        ByteKey { inner: slice_to_vec(bytes) }
    }
}

impl ByteValue {
    pub fn new(bytes: &[u8]) -> (r: ByteValue)
        ensures
            r@ == bytes@,
    {
        ByteValue { inner: slice_to_vec(bytes) }
    }
}

/// Compares two byte strings in lexicographic order.
fn bytes_le(a: &[u8], b: &[u8]) -> (r: bool)
    ensures
        r == lex_le(a@, b@),
{
    let alen = a.len();
    let blen = b.len();
    let n = if alen < blen { alen } else { blen };
    let mut i: usize = 0;
    proof {
        assert(a@.skip(0) =~= a@);
        assert(b@.skip(0) =~= b@);
    }
    while i < n
        invariant
            0 <= i <= n,
            n == if a@.len() < b@.len() { a@.len() } else { b@.len() },
            lex_le(a@, b@) == lex_le(a@.skip(i as int), b@.skip(i as int)),
        decreases n - i,
    {
        let x = *slice_index_get(a, i);
        let y = *slice_index_get(b, i);
        if x < y {
            proof {
                assert(a@.skip(i as int)[0] == a@[i as int]);
            }
            return true;
        }
        if x > y {
            proof {
                assert(a@.skip(i as int)[0] == a@[i as int]);
            }
            return false;
        }
        proof {
            assert(a@.skip(i as int).skip(1) =~= a@.skip(i + 1));
            assert(b@.skip(i as int).skip(1) =~= b@.skip(i + 1));
        }
        i = i + 1;
    }
    alen <= blen
}

impl Key for ByteKey {
    open spec fn le_spec(&self, other: &Self) -> bool {
        lex_le(self@, other@)
    }

    proof fn lemma_le_total(a: &Self, b: &Self) {
        lemma_lex_le_total(a@, b@);
    }

    proof fn lemma_le_trans(a: &Self, b: &Self, c: &Self) {
        lemma_lex_le_trans(a@, b@, c@);
    }

    proof fn lemma_le_view(a: &Self, b: &Self, c: &Self) {
    }

    fn key_le(&self, other: &Self) -> (r: bool) {
        bytes_le(self.inner.as_slice(), other.inner.as_slice())
    }

    fn to_owned(&self) -> (r: Self) {
        ByteKey { inner: slice_to_vec(self.inner.as_slice()) }
    }

    fn to_string(&self) -> (r: String)
        ensures
            vstd::utf8::valid_utf8(self@) ==> r@ == vstd::utf8::decode_utf8(self@),
    {
        render_bytes(self.inner.as_slice())
    }
}

impl Value for ByteValue {
    fn to_owned(&self) -> (r: Self) {
        ByteValue { inner: slice_to_vec(self.inner.as_slice()) }
    }

    fn to_string(&self) -> (r: String)
        ensures
            vstd::utf8::valid_utf8(self@) ==> r@ == vstd::utf8::decode_utf8(self@),
    {
        render_bytes(self.inner.as_slice())
    }
}

/// Relies on std::str::from_utf8: it succeeds exactly on valid UTF-8,
/// and then returns the string those bytes spell; on invalid bytes a
/// fixed-form message is produced instead.
#[verifier::external_body]
fn render_bytes(bytes: &[u8]) -> (r: String)
    ensures
        vstd::utf8::valid_utf8(bytes@) ==> r@ == vstd::utf8::decode_utf8(bytes@),
{
    match std::str::from_utf8(bytes) {
        Ok(v) => v.to_owned(),
        Err(e) => format!("Invalid UTF-8 sequence: {}", e),
    }
}

} // verus!
