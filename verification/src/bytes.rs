//! Fixed-width integers as bytes, and the few sequence helpers built on them.
use vstd::prelude::*;

verus! {

/// The two bytes of `x`, most significant first.
pub open spec fn u16_bytes(x: u16) -> Seq<u8> {
    seq![(x / 256) as u8, (x % 256) as u8]
}

/// The four bytes of `x`, most significant first.
pub open spec fn u32_bytes(x: u32) -> Seq<u8> {
    seq![
        (x / 0x100_0000) as u8,
        (x / 0x1_0000 % 256) as u8,
        (x / 256 % 256) as u8,
        (x % 256) as u8,
    ]
}

/// The number whose two bytes, most significant first, are `s[i]` and `s[i + 1]`.
pub open spec fn u16_at(s: Seq<u8>, i: int) -> u16 {
    (s[i] * 256 + s[i + 1]) as u16
}

/// The number whose four bytes, most significant first, start at `s[i]`.
pub open spec fn u32_at(s: Seq<u8>, i: int) -> u32 {
    (s[i] * 0x100_0000 + s[i + 1] * 0x1_0000 + s[i + 2] * 256 + s[i + 3]) as u32
}

/// The four bytes that start at `s[i]`.
pub open spec fn four_at(s: Seq<u8>, i: int) -> [u8; 4] {
    [s[i], s[i + 1], s[i + 2], s[i + 3]]
}

/// `s` with the two bytes at `i` replaced by those of `x`.
pub open spec fn with_u16(s: Seq<u8>, i: int, x: u16) -> Seq<u8> {
    s.update(i, (x / 256) as u8).update(i + 1, (x % 256) as u8)
}

/// Reading back the bytes of a number gives the number.
pub proof fn law_bytes_round_trip(x: u16, y: u32)
    ensures
        u16_at(u16_bytes(x), 0) == x,
        u32_at(u32_bytes(y), 0) == y,
{
}

/// Two sequences of four bytes that spell the same number are the same.
pub proof fn lemma_u32_injective(a: Seq<u8>, b: Seq<u8>)
    requires
        a.len() == 4,
        b.len() == 4,
        u32_at(a, 0) == u32_at(b, 0),
    ensures
        a == b,
{
    lemma_u32_digits(a);
    lemma_u32_digits(b);
    assert(a =~= b);
}

/// The bytes of a big-endian number are its digits to the base 256.
proof fn lemma_u32_digits(s: Seq<u8>)
    requires
        s.len() == 4,
    ensures
        ({
            let n = u32_at(s, 0) as int;
            &&& s[0] == n / 256 / 256 / 256
            &&& s[1] == n / 256 / 256 % 256
            &&& s[2] == n / 256 % 256
            &&& s[3] == n % 256
        }),
{
    let n = u32_at(s, 0) as int;
    let h = s[0] * 0x1_0000 + s[1] * 256 + s[2];
    let g = s[0] * 256 + s[1];
    assert(n == h * 256 + s[3]);
    assert(h == g * 256 + s[2]);
    assert(n / 256 == h);
    assert(h / 256 == g);
    assert(g / 256 == s[0]);
}

pub(crate) fn be16(b: &[u8], i: usize) -> (r: u16)
    requires
        i + 2 <= b@.len(),
    ensures
        r == u16_at(b@, i as int),
{
    b[i] as u16 * 256 + b[i + 1] as u16
}

pub(crate) fn be32(b: &[u8], i: usize) -> (r: u32)
    requires
        i + 4 <= b@.len(),
    ensures
        r == u32_at(b@, i as int),
{
    b[i] as u32 * 0x100_0000 + b[i + 1] as u32 * 0x1_0000 + b[i + 2] as u32 * 256 + b[i + 3] as u32
}

pub(crate) fn four(b: &[u8], i: usize) -> (r: [u8; 4])
    requires
        i + 4 <= b@.len(),
    ensures
        r == four_at(b@, i as int),
{
    [b[i], b[i + 1], b[i + 2], b[i + 3]]
}

/// Append a copy of `s`.
pub(crate) fn extend(v: &mut Vec<u8>, s: &[u8])
    ensures
        final(v)@ == old(v)@ + s@,
{
    v.extend_from_slice(s);
}

pub(crate) fn push_u16(v: &mut Vec<u8>, x: u16)
    ensures
        final(v)@ == old(v)@ + u16_bytes(x),
{
    v.push((x / 256) as u8);
    v.push((x % 256) as u8);
    assert(v@ =~= old(v)@ + u16_bytes(x));
}

pub(crate) fn push_u32(v: &mut Vec<u8>, x: u32)
    ensures
        final(v)@ == old(v)@ + u32_bytes(x),
{
    v.push((x / 0x100_0000) as u8);
    v.push((x / 0x1_0000 % 256) as u8);
    v.push((x / 256 % 256) as u8);
    v.push((x % 256) as u8);
    assert(v@ =~= old(v)@ + u32_bytes(x));
}

/// Store the two bytes of `x` at `v[i]`, most significant first.
pub(crate) fn put_u16(v: &mut Vec<u8>, i: usize, x: u16)
    requires
        i + 2 <= old(v).len(),
    ensures
        final(v)@ == with_u16(old(v)@, i as int, x),
{
    v[i] = (x / 256) as u8;
    v[i + 1] = (x % 256) as u8;
}

/// The low sixteen bits of `n + k`.
pub(crate) fn low16(n: usize, k: usize) -> (r: u16)
    requires
        k <= 0xffff,
    ensures
        r == (n + k) % 0x1_0000,
{
    ((n % 0x1_0000 + k) % 0x1_0000) as u16
}

/// Whether two IPv4 addresses are the same.
pub(crate) fn same_ip(a: [u8; 4], b: [u8; 4]) -> (r: bool)
    ensures
        r == (a == b),
{
    let r = a[0] == b[0] && a[1] == b[1] && a[2] == b[2] && a[3] == b[3];
    proof {
        if r {
            assert(a@ =~= b@);
            assert(a =~= b);
        }
    }
    r
}

/// How many of `data`'s bytes fit in a buffer of `room`.
pub open spec fn fitting(data: Seq<u8>, room: nat) -> nat {
    if data.len() < room {
        data.len()
    } else {
        room
    }
}

/// `buf` with the start of `data`, as much as fits, copied over its start.
pub open spec fn overlaid(buf: Seq<u8>, data: Seq<u8>) -> Seq<u8> {
    let n = fitting(data, buf.len()) as int;
    data.take(n) + buf.skip(n)
}

/// Copy the start of `data`, as much as fits, over the start of `buf`.
pub(crate) fn copy_into(buf: &mut [u8], data: &[u8]) -> (n: usize)
    ensures
        n == fitting(data@, old(buf)@.len()),
        final(buf)@ == overlaid(old(buf)@, data@),
{
    let n: usize = if data.len() < buf.len() {
        data.len()
    } else {
        buf.len()
    };
    let mut i: usize = 0;
    while i < n
        invariant
            i <= n,
            n == fitting(data@, old(buf)@.len()),
            buf@.len() == old(buf)@.len(),
            n <= data@.len(),
            n <= buf@.len(),
            forall|j: int| 0 <= j < i ==> buf@[j] == data@[j],
            forall|j: int| i <= j < buf@.len() ==> buf@[j] == old(buf)@[j],
        decreases n - i,
    {
        buf[i] = data[i];
        i = i + 1;
    }
    assert(buf@ =~= overlaid(old(buf)@, data@));
    n
}

/// What is copied over the start of a buffer is the data, as far as the buffer
/// reaches; the buffer keeps its length.
pub proof fn law_overlay(buf: Seq<u8>, data: Seq<u8>)
    ensures
        overlaid(buf, data).len() == buf.len(),
        data.len() <= buf.len() ==> overlaid(buf, data).take(data.len() as int) == data,
{
    if data.len() <= buf.len() {
        assert(overlaid(buf, data).take(data.len() as int) =~= data);
    }
}

/// The part of `data` from `offset` on.
pub open spec fn rest_from(data: Seq<u8>, offset: u64) -> Seq<u8> {
    if offset < data.len() {
        data.skip(offset as int)
    } else {
        seq![]
    }
}

/// Copy the part of `data` from `offset` on, as much as fits, over the start of
/// `buf`.
pub(crate) fn read_at(data: &[u8], offset: u64, buf: &mut [u8]) -> (n: usize)
    ensures
        n == fitting(rest_from(data@, offset), old(buf)@.len()),
        final(buf)@ == overlaid(old(buf)@, rest_from(data@, offset)),
{
    if offset >= data.len() as u64 {
        assert(buf@ =~= overlaid(old(buf)@, rest_from(data@, offset)));
        return 0;
    }
    let start: usize = offset as usize;
    let tail = vstd::slice::slice_subrange(data, start, data.len());
    assert(tail@ =~= rest_from(data@, offset));
    copy_into(buf, tail)
}

/// The bytes of a number, weighted by their places, sum up to the number, both as
/// they are written and as they are read.
pub proof fn law_big_endian(x: u16, y: u32, s: Seq<u8>, i: int)
    ensures
        u16_bytes(x).len() == 2,
        u16_bytes(x)[0] * 256 + u16_bytes(x)[1] == x,
        u32_bytes(y).len() == 4,
        u32_bytes(y)[0] * 0x100_0000 + u32_bytes(y)[1] * 0x1_0000 + u32_bytes(y)[2] * 256
            + u32_bytes(y)[3] == y,
        u16_at(s, i) == s[i] * 256 + s[i + 1],
        u32_at(s, i) == s[i] * 0x100_0000 + s[i + 1] * 0x1_0000 + s[i + 2] * 256 + s[i + 3],
{
}

/// Copying over a buffer keeps what the copy does not reach.
pub proof fn law_overlay_keeps_the_rest(buf: Seq<u8>, data: Seq<u8>, j: int)
    requires
        0 <= j < buf.len(),
    ensures
        overlaid(buf, data)[j] == if j < data.len() {
            data[j]
        } else {
            buf[j]
        },
        fitting(data, buf.len()) <= data.len(),
        fitting(data, buf.len()) <= buf.len(),
        fitting(data, buf.len()) == data.len() || fitting(data, buf.len()) == buf.len(),
{
}

/// From an offset on, there is what stands behind as many bytes; behind the end,
/// nothing.
pub proof fn law_rest_behind_offset(before: Seq<u8>, behind: Seq<u8>, offset: u64)
    ensures
        offset == before.len() ==> rest_from(before + behind, offset) == behind,
        offset >= before.len() + behind.len() ==> rest_from(before + behind, offset).len() == 0,
{
    if offset == before.len() {
        assert(rest_from(before + behind, offset) =~= behind);
    }
}

} // verus!
