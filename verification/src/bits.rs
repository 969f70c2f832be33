use vstd::prelude::*;

verus! {

/// The `i`-th group of four bits of `v`, counting from the least significant.
pub open spec fn nibble(v: u64, i: u64) -> u64 {
    (v >> ((i * 4) as u64)) & 15
}

/// Whether bit `q` of `m` is set.
pub open spec fn bit16(m: u16, q: u16) -> bool {
    (m >> q) & 1 == 1
}

pub proof fn lemma_nibble_bound(v: u64, i: u64)
    ensures
        nibble(v, i) < 16,
{
    let s = (i * 4) as u64;
    assert((v >> s) & 15 < 16) by (bit_vector);
}

/// The value after writing `p` into the free group just above the `v & 15`
/// stored ones and counting it in the lowest group.
pub open spec fn pushed(v: u64, p: u64) -> u64 {
    ((v | (p << ((((v & 15) + 1) * 4) as u64))) + 1) as u64
}

pub proof fn lemma_push_nibble(v: u64, p: u64, i: u64)
    requires
        v & 15 < 15,
        v >> ((((v & 15) + 1) * 4) as u64) == 0,
        p < 16,
        i < 16,
    ensures
        (v | (p << ((((v & 15) + 1) * 4) as u64))) < u64::MAX,
        pushed(v, p) & 15 == (v & 15) + 1,
        1 <= i <= v & 15 ==> nibble(pushed(v, p), i) == nibble(v, i),
        i == (v & 15) + 1 ==> nibble(pushed(v, p), i) == p,
        (v & 15) + 1 < 15 ==> pushed(v, p) >> ((((v & 15) + 2) * 4) as u64) == 0,
{
    let n = v & 15;
    let s = ((n + 1) * 4) as u64;
    let s2 = ((n + 2) * 4) as u64;
    let si = (i * 4) as u64;
    let w0 = v | (p << s);
    assert(w0 & 15 == n) by (bit_vector)
        requires n == v & 15, n < 15, p < 16, s == ((n + 1) * 4) as u64, w0 == v | (p << s);
    assert(w0 < u64::MAX) by (bit_vector)
        requires w0 & 15 == n, n < 15;
    let w = (w0 + 1) as u64;
    assert(w & 15 == n + 1) by (bit_vector)
        requires w0 & 15 == n, n < 15, w == (w0 + 1) as u64;
    assert(1 <= i <= n ==> (w >> si) & 15 == (v >> si) & 15) by (bit_vector)
        requires w0 == v | (p << s), w0 & 15 == n, n < 15, p < 16, i < 16,
            v >> s == 0, w == (w0 + 1) as u64, s == ((n + 1) * 4) as u64, si == (i * 4) as u64;
    assert(i == n + 1 ==> (w >> si) & 15 == p) by (bit_vector)
        requires w0 == v | (p << s), w0 & 15 == n, n < 15, p < 16, i < 16,
            v >> s == 0, w == (w0 + 1) as u64, s == ((n + 1) * 4) as u64, si == (i * 4) as u64;
    assert(n + 1 < 15 ==> w >> s2 == 0) by (bit_vector)
        requires w0 == v | (p << s), w0 & 15 == n, n < 15, p < 16,
            v >> s == 0, w == (w0 + 1) as u64, s == ((n + 1) * 4) as u64,
            s2 == ((n + 2) * 4) as u64;
}


pub proof fn lemma_bit16_zero(q: u16)
    requires
        q < 16,
    ensures
        !bit16(0, q),
{
    assert((0u16 >> q) & 1 != 1) by (bit_vector);
}

pub proof fn lemma_bit16_set(m: u16, t: u16, q: u16)
    requires
        t < 16,
        q < 16,
    ensures
        bit16(m | (1u16 << t), q) == (q == t || bit16(m, q)),
{
    assert(((m | (1u16 << t)) >> q) & 1 == 1 <==> (q == t || (m >> q) & 1 == 1)) by (bit_vector)
        requires t < 16, q < 16;
}

pub proof fn lemma_bit16_clear(m: u16, t: u16, q: u16)
    requires
        t < 16,
        q < 16,
    ensures
        bit16(m & !(1u16 << t), q) == (q != t && bit16(m, q)),
{
    assert(((m & !(1u16 << t)) >> q) & 1 == 1 <==> (q != t && (m >> q) & 1 == 1)) by (bit_vector)
        requires t < 16, q < 16;
}


/// The `j`-th group of four bits of `v`, counting from the least significant.
pub open spec fn nibble32(v: u32, j: u32) -> u32 {
    (v >> ((j * 4) as u32)) & 15
}

/// Shifting `t` in as the new lowest group of a value that holds `c < 8` groups.
pub proof fn lemma_shift_in(v: u32, c: u64, t: u32, j: u32)
    requires
        c < 8,
        (v as u64) >> ((c * 4) as u64) == 0,
        t < 16,
        j < 8,
    ensures
        nibble32(((v << 4u32) | t) as u32, 0) == t,
        (j as u64) < c ==> nibble32(((v << 4u32) | t) as u32, (j + 1) as u32) == nibble32(v, j),
        (((v << 4u32) | t) as u64) >> (((c + 1) * 4) as u64) == 0,
{
    let w = ((v << 4u32) | t) as u32;
    let s = (c * 4) as u64;
    let s1 = ((c + 1) * 4) as u64;
    let sj = (j * 4) as u32;
    let sj1 = ((j + 1) * 4) as u32;
    assert(w & 15 == t) by (bit_vector)
        requires w == ((v << 4u32) | t) as u32, t < 16;
    assert(w >> 0u32 == w) by (bit_vector);
    assert((j as u64) < c ==> (w >> sj1) & 15 == (v >> sj) & 15) by (bit_vector)
        requires w == ((v << 4u32) | t) as u32, t < 16, c < 8, j < 8, (v as u64) >> s == 0,
            s == (c * 4) as u64, sj == (j * 4) as u32, sj1 == ((j + 1) * 4) as u32;
    assert((w as u64) >> s1 == 0) by (bit_vector)
        requires w == ((v << 4u32) | t) as u32, t < 16, c < 8, (v as u64) >> s == 0,
            s == (c * 4) as u64, s1 == ((c + 1) * 4) as u64;
}

/// Laying out `c <= 8` groups above a count field and a zero position field.
pub proof fn lemma_layout(v: u32, c: u64, j: u64)
    requires
        c <= 8,
        (v as u64) >> ((c * 4) as u64) == 0,
        j < 8,
    ensures
        (((v as u64) << 8u64) | (c << 4u64)) & 15 == 0,
        ((((v as u64) << 8u64) | (c << 4u64)) >> 4u64) & 15 == c,
        nibble(((v as u64) << 8u64) | (c << 4u64), 0) == 0,
        nibble(((v as u64) << 8u64) | (c << 4u64), 1) == c,
        nibble(((v as u64) << 8u64) | (c << 4u64), (j + 2) as u64) == nibble32(v, j as u32) as u64,
{
    let w = ((v as u64) << 8u64) | (c << 4u64);
    let s = (c * 4) as u64;
    let sj = (j * 4) as u32;
    let sj2 = ((j + 2) * 4) as u64;
    assert(w >> 0u64 == w) by (bit_vector);
    assert(w & 15 == 0) by (bit_vector)
        requires w == ((v as u64) << 8u64) | (c << 4u64), c <= 8;
    assert((w >> 4u64) & 15 == c) by (bit_vector)
        requires w == ((v as u64) << 8u64) | (c << 4u64), c <= 8;
    assert((w >> sj2) & 15 == ((v >> sj) & 15) as u64) by (bit_vector)
        requires w == ((v as u64) << 8u64) | (c << 4u64), c <= 8, j < 8,
            sj == (j * 4) as u32, sj2 == ((j + 2) * 4) as u64;
}

/// Incrementing a value whose lowest group is below 15 leaves the other groups.
pub proof fn lemma_inc_low(v: u64, k: u64)
    requires
        v & 15 < 15,
        1 <= k < 16,
    ensures
        v < u64::MAX,
        (v + 1) as u64 & 15 == (v & 15) + 1,
        (((v + 1) as u64) >> 4u64) & 15 == (v >> 4u64) & 15,
        nibble((v + 1) as u64, k) == nibble(v, k),
{
    let w = (v + 1) as u64;
    let sk = (k * 4) as u64;
    assert(v < u64::MAX) by (bit_vector)
        requires v & 15 < 15;
    assert(w & 15 == (v & 15) + 1) by (bit_vector)
        requires v & 15 < 15, w == (v + 1) as u64;
    assert((w >> 4u64) & 15 == (v >> 4u64) & 15) by (bit_vector)
        requires v & 15 < 15, w == (v + 1) as u64;
    assert((w >> sk) & 15 == (v >> sk) & 15) by (bit_vector)
        requires v & 15 < 15, w == (v + 1) as u64, 1 <= k < 16, sk == (k * 4) as u64;
}

} // verus!
