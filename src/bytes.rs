//! Little-endian fields over a byte sequence, and their encodings.
use vstd::prelude::*;
use vstd::slice::slice_to_vec;
use vstd::slice::slice_subrange;

verus! {

/// The unsigned 16-bit value stored little-endian at `i`.
pub open spec fn u16_at(s: Seq<u8>, i: int) -> u16 {
    (s[i] as int + s[i + 1] as int * 256) as u16
}

/// The unsigned 32-bit value stored little-endian at `i`.
pub open spec fn u32_at(s: Seq<u8>, i: int) -> u32 {
    (s[i] as int + s[i + 1] as int * 256 + s[i + 2] as int * 65536 + s[i + 3] as int
        * 16777216) as u32
}

/// The signed 16-bit value stored little-endian at `i`.
pub open spec fn i16_at(s: Seq<u8>, i: int) -> i16 {
    u16_at(s, i) as i16
}

pub open spec fn le16(v: u16) -> Seq<u8> {
    seq![(v % 256) as u8, (v / 256) as u8]
}

pub open spec fn le32(v: u32) -> Seq<u8> {
    seq![(v % 256) as u8, ((v / 256) % 256) as u8, ((v / 65536) % 256) as u8, (v / 16777216) as u8]
}

pub open spec fn le_i16(v: i16) -> Seq<u8> {
    le16(v as u16)
}

pub proof fn lemma_u16_read(s: Seq<u8>, i: int, v: u16)
    requires
        0 <= i,
        i + 2 <= s.len(),
        s.subrange(i, i + 2) == le16(v),
    ensures
        u16_at(s, i) == v,
{
    assert(s[i] == s.subrange(i, i + 2)[0]);
    assert(s[i + 1] == s.subrange(i, i + 2)[1]);
}

pub proof fn lemma_u16_write(s: Seq<u8>, i: int)
    requires
        0 <= i,
        i + 2 <= s.len(),
    ensures
        le16(u16_at(s, i)) == s.subrange(i, i + 2),
{
    assert(le16(u16_at(s, i)) =~= s.subrange(i, i + 2));
}

pub proof fn lemma_u32_read(s: Seq<u8>, i: int, v: u32)
    requires
        0 <= i,
        i + 4 <= s.len(),
        s.subrange(i, i + 4) == le32(v),
    ensures
        u32_at(s, i) == v,
{
    assert(s[i] == s.subrange(i, i + 4)[0]);
    assert(s[i + 1] == s.subrange(i, i + 4)[1]);
    assert(s[i + 2] == s.subrange(i, i + 4)[2]);
    assert(s[i + 3] == s.subrange(i, i + 4)[3]);
}

pub proof fn lemma_u32_write(s: Seq<u8>, i: int)
    requires
        0 <= i,
        i + 4 <= s.len(),
    ensures
        le32(u32_at(s, i)) == s.subrange(i, i + 4),
{
    let (a, b, c, d) = (s[i] as int, s[i + 1] as int, s[i + 2] as int, s[i + 3] as int);
    let x = a + b * 256 + c * 65536 + d * 16777216;
    assert(x % 256 == a && (x / 256) % 256 == b && (x / 65536) % 256 == c && x / 16777216 == d)
        by (nonlinear_arith)
        requires
            0 <= a < 256,
            0 <= b < 256,
            0 <= c < 256,
            0 <= d < 256,
            x == a + b * 256 + c * 65536 + d * 16777216,
    ;
    assert(le32(u32_at(s, i)) =~= s.subrange(i, i + 4));
}

pub proof fn lemma_i16_read(s: Seq<u8>, i: int, v: i16)
    requires
        0 <= i,
        i + 2 <= s.len(),
        s.subrange(i, i + 2) == le_i16(v),
    ensures
        i16_at(s, i) == v,
{
    lemma_u16_read(s, i, v as u16);
    assert((v as u16) as i16 == v) by (bit_vector);
}

pub proof fn lemma_i16_write(s: Seq<u8>, i: int)
    requires
        0 <= i,
        i + 2 <= s.len(),
    ensures
        le_i16(i16_at(s, i)) == s.subrange(i, i + 2),
{
    let u = u16_at(s, i);
    assert((u as i16) as u16 == u) by (bit_vector);
    lemma_u16_write(s, i);
}

/// Two sequences whose ranges `a..c` are equal agree at each index in it.
pub proof fn lemma_agree_on(x: Seq<u8>, y: Seq<u8>, a: int, c: int)
    requires
        0 <= a <= c <= x.len(),
        c <= y.len(),
        x.subrange(a, c) == y.subrange(a, c),
    ensures
        forall|i: int| a <= i < c ==> #[trigger] x[i] == y[i],
{
    assert forall|i: int| a <= i < c implies #[trigger] x[i] == y[i] by {
        assert(x[i] == x.subrange(a, c)[i - a]);
        assert(y[i] == y.subrange(a, c)[i - a]);
    }
}

/// A window of an embedded sequence is the same window of the outer one.
pub proof fn lemma_window(s: Seq<u8>, pos: int, x: Seq<u8>, k: int, m: int)
    requires
        0 <= pos,
        pos + x.len() <= s.len(),
        s.subrange(pos, pos + x.len()) == x,
        0 <= k <= k + m <= x.len(),
    ensures
        s.subrange(pos + k, pos + k + m) == x.subrange(k, k + m),
{
    assert forall|j: int| 0 <= j < m implies #[trigger] s.subrange(pos + k, pos + k + m)[j] == x.subrange(k, k + m)[j] by {
        assert(x[k + j] == s.subrange(pos, pos + x.len())[k + j]);
    }
    assert(s.subrange(pos + k, pos + k + m) =~= x.subrange(k, k + m));
}

/// Adjacent windows join.
pub proof fn lemma_join(s: Seq<u8>, a: int, b: int, c: int)
    requires
        0 <= a <= b <= c <= s.len(),
    ensures
        s.subrange(a, b) + s.subrange(b, c) == s.subrange(a, c),
{
    assert(s.subrange(a, b) + s.subrange(b, c) =~= s.subrange(a, c));
}

pub fn read_u16(s: &[u8], i: usize) -> (r: u16)
    requires
        i + 2 <= s@.len(),
    ensures
        r == u16_at(s@, i as int),
{
    s[i] as u16 + (s[i + 1] as u16) * 256
}

pub fn read_i16(s: &[u8], i: usize) -> (r: i16)
    requires
        i + 2 <= s@.len(),
    ensures
        r == i16_at(s@, i as int),
{
    read_u16(s, i) as i16
}

pub fn read_u32(s: &[u8], i: usize) -> (r: u32)
    requires
        i + 4 <= s@.len(),
    ensures
        r == u32_at(s@, i as int),
{
    s[i] as u32 + (s[i + 1] as u32) * 256 + (s[i + 2] as u32) * 65536 + (s[i + 3] as u32)
        * 16777216
}

/// The bytes of `s` from `a` up to `b`, as a new vector.
pub fn copy_bytes(s: &[u8], a: usize, b: usize) -> (r: Vec<u8>)
    requires
        a <= b <= s@.len(),
    ensures
        r@ == s@.subrange(a as int, b as int),
{
    slice_to_vec(slice_subrange(s, a, b))
}

pub fn push_u8(out: &mut Vec<u8>, v: u8)
    ensures
        final(out)@ == old(out)@ + seq![v],
{
    out.push(v);
    assert(final(out)@ =~= old(out)@ + seq![v]);
}

pub fn push_u16(out: &mut Vec<u8>, v: u16)
    ensures
        final(out)@ == old(out)@ + le16(v),
{
    out.push((v % 256) as u8);
    out.push((v / 256) as u8);
    assert(final(out)@ =~= old(out)@ + le16(v));
}

pub fn push_i16(out: &mut Vec<u8>, v: i16)
    ensures
        final(out)@ == old(out)@ + le_i16(v),
{
    push_u16(out, v as u16);
}

pub fn push_u32(out: &mut Vec<u8>, v: u32)
    ensures
        final(out)@ == old(out)@ + le32(v),
{
    out.push((v % 256) as u8);
    out.push(((v / 256) % 256) as u8);
    out.push(((v / 65536) % 256) as u8);
    out.push((v / 16777216) as u8);
    assert(final(out)@ =~= old(out)@ + le32(v));
}

pub fn push_bytes(out: &mut Vec<u8>, b: &[u8])
    ensures
        final(out)@ == old(out)@ + b@,
{
    let mut tail = slice_to_vec(b);
    out.append(&mut tail);
}

} // verus!
