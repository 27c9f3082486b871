//! Keys: byte strings in lexicographic order.

use vstd::prelude::*;
use vstd::slice::slice_to_vec;

verus! {

/// The order of keys: byte by byte, a proper prefix before the longer key.
pub open spec fn key_lt(a: Seq<u8>, b: Seq<u8>) -> bool
    decreases a.len(),
{
    if b.len() == 0 {
        false
    } else if a.len() == 0 {
        true
    } else {
        a[0] < b[0] || (a[0] == b[0] && key_lt(a.drop_first(), b.drop_first()))
    }
}

pub open spec fn key_le(a: Seq<u8>, b: Seq<u8>) -> bool {
    !key_lt(b, a)
}

/// No key is smaller than itself.
pub proof fn lemma_key_lt_irreflexive(a: Seq<u8>)
    ensures
        !key_lt(a, a),
    decreases a.len(),
{
    if a.len() > 0 {
        lemma_key_lt_irreflexive(a.drop_first());
    }
}

/// The order of keys is transitive.
pub proof fn lemma_key_lt_transitive(a: Seq<u8>, b: Seq<u8>, c: Seq<u8>)
    requires
        key_lt(a, b),
        key_lt(b, c),
    ensures
        key_lt(a, c),
    decreases a.len(),
{
    if a.len() > 0 && a[0] == b[0] && b[0] == c[0] {
        lemma_key_lt_transitive(a.drop_first(), b.drop_first(), c.drop_first());
    }
}

/// Two keys neither of which is smaller are the same key.
pub proof fn lemma_key_lt_total(a: Seq<u8>, b: Seq<u8>)
    ensures
        key_lt(a, b) || key_lt(b, a) || a == b,
    decreases a.len(),
{
    if a.len() == 0 && b.len() == 0 {
        assert(a =~= b);
    } else if a.len() > 0 && b.len() > 0 && a[0] == b[0] {
        lemma_key_lt_total(a.drop_first(), b.drop_first());
        if a.drop_first() == b.drop_first() {
            assert(a =~= seq![a[0]] + a.drop_first());
            assert(b =~= seq![b[0]] + b.drop_first());
        }
    }
}

/// The first byte in which two keys differ decides their order.
pub proof fn lemma_key_lt_at_difference(a: Seq<u8>, b: Seq<u8>, i: int)
    requires
        0 <= i < a.len(),
        i < b.len(),
        forall|j: int| 0 <= j < i ==> a[j] == b[j],
        a[i] != b[i],
    ensures
        key_lt(a, b) <==> a[i] < b[i],
        key_lt(b, a) <==> b[i] < a[i],
        key_le(a, b) <==> a[i] < b[i],
    decreases i,
{
    if i > 0 {
        assert(a[0] == b[0]);
        assert forall|j: int| 0 <= j < i - 1 implies a.drop_first()[j] == b.drop_first()[j] by {
            assert(a[j + 1] == b[j + 1]);
        }
        lemma_key_lt_at_difference(a.drop_first(), b.drop_first(), i - 1);
    }
}

/// A key comes before every longer key that starts with it, and not after it.
pub proof fn lemma_key_lt_prefix(a: Seq<u8>, b: Seq<u8>)
    requires
        a.len() <= b.len(),
        forall|j: int| 0 <= j < a.len() ==> a[j] == b[j],
    ensures
        key_lt(a, b) <==> a.len() < b.len(),
        !key_lt(b, a),
        key_le(a, b),
        key_le(b, a) <==> a.len() == b.len(),
    decreases a.len(),
{
    if a.len() > 0 {
        assert(a[0] == b[0]);
        assert forall|j: int| 0 <= j < a.len() - 1 implies a.drop_first()[j]
            == b.drop_first()[j] by {
            assert(a[j + 1] == b[j + 1]);
        }
        lemma_key_lt_prefix(a.drop_first(), b.drop_first());
    }
}

/// Of two keys, one is smaller or they are equal, and never both.
pub proof fn lemma_key_lt_asymmetric(a: Seq<u8>, b: Seq<u8>)
    requires
        key_lt(a, b),
    ensures
        !key_lt(b, a),
{
    if key_lt(b, a) {
        lemma_key_lt_transitive(a, b, a);
        lemma_key_lt_irreflexive(a);
    }
}

/// `key_le` is transitive.
pub proof fn lemma_key_le_transitive(a: Seq<u8>, b: Seq<u8>, c: Seq<u8>)
    requires
        key_le(a, b),
        key_le(b, c),
    ensures
        key_le(a, c),
{
    lemma_key_lt_total(a, b);
    lemma_key_lt_total(b, c);
    if key_lt(c, a) {
        if key_lt(a, b) {
            lemma_key_lt_transitive(c, a, b);
        }
    }
}

/// Whether `a` comes before `b`.
pub fn key_less(a: &[u8], b: &[u8]) -> (r: bool)
    ensures
        r == key_lt(a@, b@),
{
    let mut i: usize = 0;
    assert(a@.skip(0) =~= a@);
    assert(b@.skip(0) =~= b@);
    while i < a.len() && i < b.len()
        invariant
            i <= a@.len(),
            i <= b@.len(),
            key_lt(a@, b@) == key_lt(a@.skip(i as int), b@.skip(i as int)),
        decreases a@.len() - i,
    {
        if a[i] != b[i] {
            return a[i] < b[i];
        }
        assert(a@.skip(i as int).drop_first() =~= a@.skip(i + 1));
        assert(b@.skip(i as int).drop_first() =~= b@.skip(i + 1));
        i += 1;
    }
    i < b.len()
}

/// A borrowed key.
#[derive(Clone, Copy)]
pub struct KeySlice<'a> {
    data: &'a [u8],
}

impl<'a> View for KeySlice<'a> {
    type V = Seq<u8>;

    closed spec fn view(&self) -> Seq<u8> {
        self.data@
    }
}

impl<'a> KeySlice<'a> {
    pub fn from_slice(data: &'a [u8]) -> (r: KeySlice<'a>)
        ensures
            r@ == data@,
    {
        KeySlice { data }
    }

    pub fn len(&self) -> (r: usize)
        ensures
            r == self@.len(),
    {
        self.data.len()
    }

    pub fn is_empty(&self) -> (r: bool)
        ensures
            r == (self@.len() == 0),
    {
        self.data.len() == 0
    }

    pub fn raw_ref(&self) -> (r: &'a [u8])
        ensures
            r@ == self@,
    {
        self.data
    }

    pub fn to_key_vec(&self) -> (r: KeyVec)
        ensures
            r@ == self@,
    {
        KeyVec { data: slice_to_vec(self.data) }
    }
}

/// An owned key.
pub struct KeyVec {
    data: Vec<u8>,
}

impl View for KeyVec {
    type V = Seq<u8>;

    closed spec fn view(&self) -> Seq<u8> {
        self.data@
    }
}

impl Clone for KeyVec {
    fn clone(&self) -> (r: KeyVec)
        ensures
            r@ == self@,
    {
        KeyVec { data: slice_to_vec(self.data.as_slice()) }
    }
}

impl KeyVec {
    /// The empty key.
    pub fn new() -> (r: KeyVec)
        ensures
            r@ == Seq::<u8>::empty(),
    {
        KeyVec { data: Vec::new() }
    }

    pub fn from_vec(data: Vec<u8>) -> (r: KeyVec)
        ensures
            r@ == data@,
    {
        KeyVec { data }
    }

    pub fn len(&self) -> (r: usize)
        ensures
            r == self@.len(),
    {
        self.data.len()
    }

    pub fn is_empty(&self) -> (r: bool)
        ensures
            r == (self@.len() == 0),
    {
        self.data.len() == 0
    }

    pub fn raw_ref(&self) -> (r: &[u8])
        ensures
            r@ == self@,
    {
        self.data.as_slice()
    }

    pub fn as_key_slice(&self) -> (r: KeySlice<'_>)
        ensures
            r@ == self@,
    {
        KeySlice { data: self.data.as_slice() }
    }

    /// Makes the key empty.
    pub fn clear(&mut self)
        ensures
            final(self)@ == Seq::<u8>::empty(),
    {
        self.data.clear();
    }

    /// Adds `bytes` at the end of the key.
    pub fn append(&mut self, bytes: &[u8])
        ensures
            final(self)@ == old(self)@ + bytes@,
    {
        self.data.extend_from_slice(bytes);
        assert(self.data@ =~= old(self).data@ + bytes@);
    }
}

/// A key and its value. An empty value marks a deleted key.
pub struct Entry {
    pub key: Seq<u8>,
    pub value: Seq<u8>,
}

} // verus!
