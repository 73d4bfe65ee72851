//! Keys, their byte-lexicographic order, and big-endian 16-bit integers.
use vstd::prelude::*;

verus! {

/// A key-value entry, as byte sequences.
pub type Entry = (Seq<u8>, Seq<u8>);

/// `a < b` in byte-lexicographic order, comparing from position `i` on.
pub open spec fn key_lt_from(a: Seq<u8>, b: Seq<u8>, i: int) -> bool
    decreases a.len() - i,
{
    if i < 0 || i >= a.len() {
        i >= 0 && i < b.len()
    } else if i >= b.len() {
        false
    } else if a[i] != b[i] {
        a[i] < b[i]
    } else {
        key_lt_from(a, b, i + 1)
    }
}

/// Byte-lexicographic strict order on keys.
pub open spec fn key_lt(a: Seq<u8>, b: Seq<u8>) -> bool {
    key_lt_from(a, b, 0)
}

/// Returns whether `a` sorts strictly before `b`.
pub fn key_less(a: &[u8], b: &[u8]) -> (r: bool)
    ensures
        r == key_lt(a@, b@),
{
    let mut i: usize = 0;
    while i < a.len() && i < b.len()
        invariant
            i <= a@.len(),
            i <= b@.len(),
            key_lt_from(a@, b@, i as int) == key_lt(a@, b@),
        decreases a@.len() - i,
    {
        if a[i] != b[i] {
            return a[i] < b[i];
        }
        i = i + 1;
    }
    i < b.len()
}

/// Returns whether the two keys are equal.
pub fn key_equal(a: &[u8], b: &[u8]) -> (r: bool)
    ensures
        r == (a@ == b@),
{
    if a.len() != b.len() {
        return false;
    }
    let mut i: usize = 0;
    while i < a.len()
        invariant
            a@.len() == b@.len(),
            i <= a@.len(),
            forall|j: int| 0 <= j < i ==> a@[j] == b@[j],
        decreases a@.len() - i,
    {
        if a[i] != b[i] {
            return false;
        }
        i = i + 1;
    }
    assert(a@ =~= b@);
    true
}

/// High byte of a big-endian 16-bit integer.
pub open spec fn hi_byte(x: int) -> u8 {
    (x / 256) as u8
}

/// Low byte of a big-endian 16-bit integer.
pub open spec fn lo_byte(x: int) -> u8 {
    (x % 256) as u8
}

/// The big-endian 16-bit integer stored at position `i` of `d`.
pub open spec fn read_u16(d: Seq<u8>, i: int) -> int {
    d[i] as int * 256 + d[i + 1] as int
}

/// Appends `x` to `buf` as two big-endian bytes.
pub fn put_u16(buf: &mut Vec<u8>, x: u16)
    ensures
        final(buf)@ == old(buf)@ + seq![hi_byte(x as int), lo_byte(x as int)],
{
    buf.push((x / 256) as u8);
    buf.push((x % 256) as u8);
}

/// Reads the big-endian 16-bit integer at position `i`.
pub fn get_u16(d: &[u8], i: usize) -> (r: u16)
    requires
        i + 2 <= d@.len(),
    ensures
        r as int == read_u16(d@, i as int),
{
    (d[i] as u16) * 256 + (d[i + 1] as u16)
}

/// Two bytes written for `x` read back as `x`.
pub proof fn lemma_u16_bytes(x: int)
    requires
        0 <= x < 65536,
    ensures
        hi_byte(x) as int * 256 + lo_byte(x) as int == x,
{
}

} // verus!

verus! {

/// Appends the bytes of `s` to `buf`.
pub fn append_slice(buf: &mut Vec<u8>, s: &[u8])
    ensures
        final(buf)@ == old(buf)@ + s@,
{
    let mut i: usize = 0;
    while i < s.len()
        invariant
            i <= s@.len(),
            buf@ == old(buf)@ + s@.subrange(0, i as int),
        decreases s@.len() - i,
    {
        buf.push(s[i]);
        assert(buf@ =~= old(buf)@ + s@.subrange(0, i + 1));
        i = i + 1;
    }
    assert(s@.subrange(0, s@.len() as int) =~= s@);
}

} // verus!

verus! {

/// The four big-endian bytes of `x`.
pub open spec fn u32_bytes(x: int) -> Seq<u8> {
    seq![(x / 0x1000000) as u8, ((x / 0x10000) % 256) as u8, ((x / 256) % 256) as u8, (x % 256) as u8]
}

/// Appends `x` to `buf` as four big-endian bytes.
pub fn put_u32(buf: &mut Vec<u8>, x: u32)
    ensures
        final(buf)@ == old(buf)@ + u32_bytes(x as int),
{
    buf.push((x / 0x1000000) as u8);
    buf.push(((x / 0x10000) % 256) as u8);
    buf.push(((x / 256) % 256) as u8);
    buf.push((x % 256) as u8);
    assert(final(buf)@ =~= old(buf)@ + u32_bytes(x as int)) by {
        assert(buf@ =~= old(buf)@ + u32_bytes(x as int));
    }
}

} // verus!

verus! {

/// No key sorts before itself.
pub proof fn lemma_key_lt_irreflexive(a: Seq<u8>, i: int)
    requires
        0 <= i,
    ensures
        !key_lt_from(a, a, i),
    decreases a.len() - i,
{
    if i < a.len() {
        lemma_key_lt_irreflexive(a, i + 1);
    }
}

/// The key order is transitive.
pub proof fn lemma_key_lt_transitive(a: Seq<u8>, b: Seq<u8>, c: Seq<u8>, i: int)
    requires
        0 <= i,
        key_lt_from(a, b, i),
        key_lt_from(b, c, i),
    ensures
        key_lt_from(a, c, i),
    decreases a.len() - i,
{
    if i < a.len() && a[i] == b[i] && b[i] == c[i] {
        lemma_key_lt_transitive(a, b, c, i + 1);
    }
}

} // verus!

verus! {

/// Of two different keys, one sorts before the other.
pub proof fn lemma_key_lt_total(a: Seq<u8>, b: Seq<u8>, i: int)
    requires
        0 <= i <= a.len(),
        i <= b.len(),
        a.subrange(0, i) == b.subrange(0, i),
        a != b,
    ensures
        key_lt_from(a, b, i) || key_lt_from(b, a, i),
    decreases a.len() - i,
{
    if i < a.len() && i < b.len() && a[i] == b[i] {
        assert(a.subrange(0, i + 1) =~= a.subrange(0, i).push(a[i]));
        assert(b.subrange(0, i + 1) =~= b.subrange(0, i).push(b[i]));
        lemma_key_lt_total(a, b, i + 1);
    } else if i == a.len() && i == b.len() {
        assert(a =~= a.subrange(0, i));
        assert(b =~= b.subrange(0, i));
    }
}

} // verus!
