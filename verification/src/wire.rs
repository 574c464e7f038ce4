//! Little-endian integer encodings and the byte-buffer operations that the
//! packet and payload formats are built from.
use vstd::prelude::*;
use vstd::arithmetic::div_mod::lemma_fundamental_div_mod_converse;

verus! {

/// The two bytes of `v`, least significant first.
pub open spec fn u16_le(v: u16) -> Seq<u8> {
    seq![(v % 256) as u8, (v / 256) as u8]
}

/// The four bytes of `v`, least significant first.
pub open spec fn u32_le(v: u32) -> Seq<u8> {
    seq![
        (v % 256) as u8,
        ((v / 256) % 256) as u8,
        ((v / 65536) % 256) as u8,
        (v / 16777216) as u8,
    ]
}

/// The integer whose little-endian encoding is the first two bytes of `b`.
pub open spec fn u16_of(b: Seq<u8>) -> u16 {
    (b[0] + b[1] * 256) as u16
}

/// The integer whose little-endian encoding is the first four bytes of `b`.
pub open spec fn u32_of(b: Seq<u8>) -> u32 {
    (b[0] + b[1] * 256 + b[2] * 65536 + b[3] * 16777216) as u32
}

/// `n` zero bytes.
pub open spec fn zeros(n: nat) -> Seq<u8> {
    Seq::new(n, |i: int| 0u8)
}

/// `s` with the bytes from position `at` on replaced by `b`.
pub open spec fn splice(s: Seq<u8>, at: int, b: Seq<u8>) -> Seq<u8> {
    s.take(at) + b + s.skip(at + b.len())
}

/// Encoding then decoding a 16-bit integer gives it back.
pub proof fn lemma_u16_roundtrip(v: u16)
    ensures
        u16_of(u16_le(v)) == v,
{
}

/// Encoding then decoding a 32-bit integer gives it back.
pub proof fn lemma_u32_roundtrip(v: u32)
    ensures
        u32_of(u32_le(v)) == v,
{
}

/// Decoding two bytes then encoding the result gives the two bytes back.
pub proof fn lemma_u16_bytes_roundtrip(b: Seq<u8>)
    requires
        b.len() == 2,
    ensures
        u16_le(u16_of(b)) == b,
{
    assert(u16_le(u16_of(b)) =~= b);
}

/// Decoding four bytes then encoding the result gives the four bytes back.
pub proof fn lemma_u32_bytes_roundtrip(b: Seq<u8>)
    requires
        b.len() == 4,
    ensures
        u32_le(u32_of(b)) == b,
{
    let b0 = b[0] as int;
    let b1 = b[1] as int;
    let b2 = b[2] as int;
    let b3 = b[3] as int;
    let x = b0 + b1 * 256 + b2 * 65536 + b3 * 16777216;
    lemma_fundamental_div_mod_converse(x, 256, b1 + b2 * 256 + b3 * 65536, b0);
    lemma_fundamental_div_mod_converse(x / 256, 256, b2 + b3 * 256, b1);
    lemma_fundamental_div_mod_converse(x, 65536, b2 + b3 * 256, b0 + b1 * 256);
    lemma_fundamental_div_mod_converse(x / 65536, 256, b3, b2);
    lemma_fundamental_div_mod_converse(x, 16777216, b3, b0 + b1 * 256 + b2 * 65536);
    assert(u32_of(b) == x);
    assert(u32_le(u32_of(b)) =~= b);
}

/// Appends the little-endian encoding of `v` to `buf`.
pub fn push_u16_le(buf: &mut Vec<u8>, v: u16)
    ensures
        final(buf)@ == old(buf)@ + u16_le(v),
{
    buf.push((v % 256) as u8);
    buf.push((v / 256) as u8);
    assert(buf@ =~= old(buf)@ + u16_le(v));
}

/// Appends the little-endian encoding of `v` to `buf`.
pub fn push_u32_le(buf: &mut Vec<u8>, v: u32)
    ensures
        final(buf)@ == old(buf)@ + u32_le(v),
{
    buf.push((v % 256) as u8);
    buf.push(((v / 256) % 256) as u8);
    buf.push(((v / 65536) % 256) as u8);
    buf.push((v / 16777216) as u8);
    assert(buf@ =~= old(buf)@ + u32_le(v));
}

/// Appends all of `bytes` to `buf`.
pub fn push_bytes(buf: &mut Vec<u8>, bytes: &[u8])
    ensures
        final(buf)@ == old(buf)@ + bytes@,
{
    let n = bytes.len();
    let mut i: usize = 0;
    while i < n
        invariant
            n == bytes@.len(),
            i <= n,
            buf@ == old(buf)@ + bytes@.take(i as int),
        decreases n - i,
    {
        buf.push(bytes[i]);
        i = i + 1;
        assert(buf@ =~= old(buf)@ + bytes@.take(i as int));
    }
    assert(bytes@.take(n as int) =~= bytes@);
}

/// The integer encoded little-endian at `b[at..at + 2]`.
pub fn read_u16_le(b: &[u8], at: usize) -> (r: u16)
    requires
        at + 2 <= b@.len(),
    ensures
        r == u16_of(b@.subrange(at as int, at + 2)),
{
    b[at] as u16 + b[at + 1] as u16 * 256
}

/// The integer encoded little-endian at `b[at..at + 4]`.
pub fn read_u32_le(b: &[u8], at: usize) -> (r: u32)
    requires
        at + 4 <= b@.len(),
    ensures
        r == u32_of(b@.subrange(at as int, at + 4)),
{
    b[at] as u32 + b[at + 1] as u32 * 256 + b[at + 2] as u32 * 65536 + b[at + 3] as u32
        * 16777216
}

/// Whether `a[at..at + b.len()]` holds exactly the bytes of `b`.
pub fn bytes_at_eq(a: &[u8], at: usize, b: &[u8]) -> (r: bool)
    requires
        at + b@.len() <= a@.len(),
    ensures
        r == (a@.subrange(at as int, at + b@.len()) == b@),
{
    let n = b.len();
    let alen = a.len();
    let mut i: usize = 0;
    while i < n
        invariant
            n == b@.len(),
            alen == a@.len(),
            at + n <= alen,
            i <= n,
            forall|k: int| 0 <= k < i ==> a@[at + k] == b@[k],
        decreases n - i,
    {
        if a[at + i] != b[i] {
            assert(a@.subrange(at as int, at + b@.len())[i as int] != b@[i as int]);
            return false;
        }
        i = i + 1;
    }
    assert(a@.subrange(at as int, at + b@.len()) =~= b@);
    true
}

/// Writes the little-endian encoding of `v` into `buf` at `at`.
pub fn put_u16_le<const N: usize>(buf: &mut [u8; N], at: usize, v: u16)
    requires
        at + 2 <= N,
    ensures
        final(buf)@ == splice(old(buf)@, at as int, u16_le(v)),
{
    buf[at] = (v % 256) as u8;
    buf[at + 1] = (v / 256) as u8;
    assert(buf@ =~= splice(old(buf)@, at as int, u16_le(v)));
}

/// Writes all of `b` into `buf` at `at`.
pub fn put_bytes<const N: usize>(buf: &mut [u8; N], at: usize, b: &[u8])
    requires
        at + b@.len() <= N,
    ensures
        final(buf)@ == splice(old(buf)@, at as int, b@),
{
    let n = b.len();
    let mut i: usize = 0;
    while i < n
        invariant
            n == b@.len(),
            at + n <= N,
            i <= n,
            buf@.len() == N,
            buf@ == splice(old(buf)@, at as int, b@.take(i as int)),
        decreases n - i,
    {
        buf[at + i] = b[i];
        i = i + 1;
        assert(buf@ =~= splice(old(buf)@, at as int, b@.take(i as int)));
    }
    assert(b@.take(n as int) =~= b@);
}

/// Writes the little-endian encoding of `v` into `buf` at `at`.
pub fn put_u32_le<const N: usize>(buf: &mut [u8; N], at: usize, v: u32)
    requires
        at + 4 <= N,
    ensures
        final(buf)@ == splice(old(buf)@, at as int, u32_le(v)),
{
    buf[at] = (v % 256) as u8;
    buf[at + 1] = ((v / 256) % 256) as u8;
    buf[at + 2] = ((v / 65536) % 256) as u8;
    buf[at + 3] = (v / 16777216) as u8;
    assert(buf@ =~= splice(old(buf)@, at as int, u32_le(v)));
}

} // verus!
