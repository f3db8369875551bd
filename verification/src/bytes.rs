//! Little-endian fields inside byte buffers.
//!
//! The byte layout of every format in this crate is stated with the spec
//! functions of this module: `le16`/`le32`/`le64` read a field, `u16_le` and
//! its relatives give the bytes of a value, and `splice` overwrites a range.

use vstd::prelude::*;

verus! {

/// The little-endian `u16` stored at offset `at`.
pub open spec fn le16(s: Seq<u8>, at: int) -> u16 {
    (s[at] + 0x100 * s[at + 1]) as u16
}

/// The little-endian `u32` stored at offset `at`.
pub open spec fn le32(s: Seq<u8>, at: int) -> u32 {
    (s[at] + 0x100 * s[at + 1] + 0x1_0000 * s[at + 2] + 0x100_0000 * s[at + 3]) as u32
}

/// The little-endian `u64` stored at offset `at`.
pub open spec fn le64(s: Seq<u8>, at: int) -> u64 {
    (le32(s, at) + 0x1_0000_0000 * le32(s, at + 4)) as u64
}

/// The two bytes of a `u16`, least significant first.
pub open spec fn u16_le(v: u16) -> Seq<u8> {
    seq![(v % 0x100) as u8, (v / 0x100) as u8]
}

/// The four bytes of a `u32`, least significant first.
pub open spec fn u32_le(v: u32) -> Seq<u8> {
    seq![
        (v % 0x100) as u8,
        (v / 0x100 % 0x100) as u8,
        (v / 0x1_0000 % 0x100) as u8,
        (v / 0x100_0000) as u8,
    ]
}

/// The eight bytes of a `u64`, least significant first.
pub open spec fn u64_le(v: u64) -> Seq<u8> {
    u32_le((v % 0x1_0000_0000) as u32) + u32_le((v / 0x1_0000_0000) as u32)
}

/// `s` with the bytes `b` written over it from offset `at` on.
pub open spec fn splice(s: Seq<u8>, at: int, b: Seq<u8>) -> Seq<u8> {
    Seq::new(
        s.len(),
        |i: int| if at <= i < at + b.len() { b[i - at] } else { s[i] },
    )
}

/// `n` zero bytes.
pub open spec fn zeros(n: nat) -> Seq<u8> {
    Seq::new(n, |i: int| 0u8)
}

/// The bytes of a list of `u32` words, each little-endian.
pub open spec fn words_le(w: Seq<u32>) -> Seq<u8> {
    Seq::new(4 * w.len(), |i: int| u32_le(w[i / 4])[i % 4])
}

/// The `n` little-endian `u32` words stored from offset `at` on.
pub open spec fn words_at(s: Seq<u8>, at: int, n: nat) -> Seq<u32> {
    Seq::new(n, |i: int| le32(s, at + 4 * i))
}

pub proof fn lemma_u16_le(v: u16)
    ensures
        u16_le(v).len() == 2,
        le16(u16_le(v), 0) == v,
{
}

pub proof fn lemma_u32_le(v: u32)
    ensures
        u32_le(v).len() == 4,
        le32(u32_le(v), 0) == v,
{
    let b = u32_le(v);
    assert(v / 0x100 / 0x100 == v / 0x1_0000);
    assert(v / 0x1_0000 / 0x100 == v / 0x100_0000);
    assert(v == v % 0x100 + 0x100 * (v / 0x100));
    assert(v / 0x100 == v / 0x100 % 0x100 + 0x100 * (v / 0x1_0000));
    assert(v / 0x1_0000 == v / 0x1_0000 % 0x100 + 0x100 * (v / 0x100_0000));
}

pub proof fn lemma_u64_le(v: u64)
    ensures
        u64_le(v).len() == 8,
        le64(u64_le(v), 0) == v,
{
    lemma_u32_le((v % 0x1_0000_0000) as u32);
    lemma_u32_le((v / 0x1_0000_0000) as u32);
    let lo = u32_le((v % 0x1_0000_0000) as u32);
    let hi = u32_le((v / 0x1_0000_0000) as u32);
    assert(le32(u64_le(v), 0) == le32(lo, 0));
    assert(le32(u64_le(v), 4) == le32(hi, 0));
}

/// The bytes of a field are those of its value.
pub proof fn lemma_le16_bytes(s: Seq<u8>, at: int)
    requires
        0 <= at,
        at + 2 <= s.len(),
    ensures
        u16_le(le16(s, at)) == s.subrange(at, at + 2),
{
    assert(u16_le(le16(s, at)) =~= s.subrange(at, at + 2));
}

/// The bytes of a field are those of its value.
pub proof fn lemma_le32_bytes(s: Seq<u8>, at: int)
    requires
        0 <= at,
        at + 4 <= s.len(),
    ensures
        u32_le(le32(s, at)) == s.subrange(at, at + 4),
{
    let v = le32(s, at);
    let (a, b, c, d) = (s[at] as int, s[at + 1] as int, s[at + 2] as int, s[at + 3] as int);
    assert(v == a + 0x100 * (b + 0x100 * (c + 0x100 * d)));
    assert(v / 0x100 == b + 0x100 * (c + 0x100 * d));
    assert(v / 0x1_0000 == c + 0x100 * d);
    assert(v / 0x100_0000 == d);
    assert(u32_le(v) =~= s.subrange(at, at + 4));
}

/// A field reads back what was last written over it.
pub proof fn lemma_splice_le16(s: Seq<u8>, at: int, v: u16)
    requires
        0 <= at,
        at + 2 <= s.len(),
    ensures
        le16(splice(s, at, u16_le(v)), at) == v,
{
    lemma_u16_le(v);
    let t = splice(s, at, u16_le(v));
    assert(t[at] == u16_le(v)[0] && t[at + 1] == u16_le(v)[1]);
}

/// A field reads back what was last written over it.
pub proof fn lemma_splice_le32(s: Seq<u8>, at: int, v: u32)
    requires
        0 <= at,
        at + 4 <= s.len(),
    ensures
        le32(splice(s, at, u32_le(v)), at) == v,
{
    lemma_u32_le(v);
    let t = splice(s, at, u32_le(v));
    let b = u32_le(v);
    assert(t[at] == b[0] && t[at + 1] == b[1] && t[at + 2] == b[2] && t[at + 3] == b[3]);
}

/// A field reads back what was last written over it.
pub proof fn lemma_splice_le64(s: Seq<u8>, at: int, v: u64)
    requires
        0 <= at,
        at + 8 <= s.len(),
    ensures
        le64(splice(s, at, u64_le(v)), at) == v,
{
    lemma_u64_le(v);
    let t = splice(s, at, u64_le(v));
    let b = u64_le(v);
    assert(t[at] == b[0] && t[at + 1] == b[1] && t[at + 2] == b[2] && t[at + 3] == b[3]);
    assert(t[at + 4] == b[4] && t[at + 5] == b[5] && t[at + 6] == b[6] && t[at + 7] == b[7]);
}

/// Reading back the words that were written.
pub proof fn lemma_words_le(w: Seq<u32>)
    ensures
        words_le(w).len() == 4 * w.len(),
        words_at(words_le(w), 0, w.len()) == w,
{
    let b = words_le(w);
    assert forall|i: int| 0 <= i < w.len() implies le32(b, 4 * i) == w[i] by {
        lemma_u32_le(w[i]);
        assert((4 * i) / 4 == i && (4 * i) % 4 == 0);
        assert((4 * i + 1) / 4 == i && (4 * i + 1) % 4 == 1);
        assert((4 * i + 2) / 4 == i && (4 * i + 2) % 4 == 2);
        assert((4 * i + 3) / 4 == i && (4 * i + 3) % 4 == 3);
        assert(b[4 * i] == u32_le(w[i])[0]);
        assert(b[4 * i + 1] == u32_le(w[i])[1]);
        assert(b[4 * i + 2] == u32_le(w[i])[2]);
        assert(b[4 * i + 3] == u32_le(w[i])[3]);
    }
    assert(words_at(b, 0, w.len()) =~= w);
}

/// A field reads the same in a part of the buffer.
pub proof fn lemma_subrange_le32(s: Seq<u8>, from: int, to: int, j: int)
    requires
        0 <= from <= to <= s.len(),
        0 <= j,
        j + 4 <= to - from,
    ensures
        le32(s.subrange(from, to), j) == le32(s, from + j),
{
}

/// A buffer that holds the bytes of a list of words holds the words.
pub proof fn lemma_words_inside(s: Seq<u8>, at: int, w: Seq<u32>)
    requires
        0 <= at,
        at + 4 * w.len() <= s.len(),
        s.subrange(at, at + 4 * w.len()) == words_le(w),
    ensures
        words_at(s, at, w.len()) == w,
{
    lemma_words_le(w);
    let b = words_le(w);
    let got = words_at(s, at, w.len());
    assert forall|i: int| 0 <= i < w.len() implies got[i] == w[i] by {
        lemma_subrange_le32(s, at, at + 4 * w.len(), 4 * i);
        assert(w[i] == words_at(b, 0, w.len())[i]);
    }
    assert(got =~= w);
}

/// Two neighboring stretches of bytes make up one.
pub proof fn lemma_subrange_joined(b: Seq<u8>, at: int, p: int, q: int)
    requires
        0 <= at <= p <= q <= b.len(),
    ensures
        b.subrange(at, q) == b.subrange(at, p) + b.subrange(p, q),
        b.subrange(p, b.len() as int).subrange(0, q - p) == b.subrange(p, q),
{
    assert(b.subrange(at, q) =~= b.subrange(at, p) + b.subrange(p, q));
    assert(b.subrange(p, b.len() as int).subrange(0, q - p) =~= b.subrange(p, q));
}

/// A buffer that holds two runs of bytes one after the other holds each of
/// them.
pub proof fn lemma_subrange_parts(s: Seq<u8>, at: int, x: Seq<u8>, y: Seq<u8>)
    requires
        0 <= at,
        at + x.len() + y.len() <= s.len(),
        s.subrange(at, at + x.len() + y.len()) == x + y,
    ensures
        s.subrange(at, at + x.len()) == x,
        s.subrange(at + x.len(), at + x.len() + y.len()) == y,
{
    let z = s.subrange(at, at + x.len() + y.len());
    assert forall|i: int| 0 <= i < x.len() implies s.subrange(at, at + x.len())[i] == x[i] by {
        assert(z[i] == (x + y)[i]);
    }
    assert(s.subrange(at, at + x.len()) =~= x);
    let t = s.subrange(at + x.len(), at + x.len() + y.len());
    assert forall|i: int| 0 <= i < y.len() implies t[i] == y[i] by {
        assert(z[x.len() + i] == (x + y)[x.len() + i]);
    }
    assert(t =~= y);
}

/// The bytes of the words in a buffer are those of the buffer.
pub proof fn lemma_words_at_bytes(s: Seq<u8>, at: int, n: nat)
    requires
        0 <= at,
        at + 4 * n <= s.len(),
    ensures
        words_le(words_at(s, at, n)) == s.subrange(at, at + 4 * n),
{
    let w = words_at(s, at, n);
    let l = words_le(w);
    let r = s.subrange(at, at + 4 * n);
    assert forall|i: int| 0 <= i < 4 * n implies l[i] == r[i] by {
        let k = i / 4;
        lemma_le32_bytes(s, at + 4 * k);
        let c = s.subrange(at + 4 * k, at + 4 * k + 4);
        assert(l[i] == u32_le(w[k])[i % 4]);
        assert(c[i % 4] == s[at + 4 * k + i % 4]);
    }
    assert(l =~= r);
}

/// Buffers with the same bytes hold the same words.
pub proof fn lemma_words_same(a: Seq<u8>, b: Seq<u8>, at: int, n: nat)
    requires
        forall|i: int| at <= i < at + 4 * n ==> a[i] == b[i],
    ensures
        words_at(a, at, n) == words_at(b, at, n),
{
    let l = words_at(a, at, n);
    let r = words_at(b, at, n);
    assert forall|i: int| 0 <= i < n implies l[i] == r[i] by {
        assert(a[at + 4 * i] == b[at + 4 * i] && a[at + 4 * i + 1] == b[at + 4 * i + 1]);
        assert(a[at + 4 * i + 2] == b[at + 4 * i + 2] && a[at + 4 * i + 3] == b[at + 4 * i + 3]);
    }
    assert(l =~= r);
}

/// The bytes of a list extended by one word.
pub proof fn lemma_words_le_push(w: Seq<u32>, x: u32)
    ensures
        words_le(w.push(x)) == words_le(w) + u32_le(x),
{
    let l = words_le(w.push(x));
    let r = words_le(w) + u32_le(x);
    assert forall|i: int| 0 <= i < l.len() implies l[i] == r[i] by {
        if i < 4 * w.len() {
            assert(i / 4 < w.len());
        } else {
            assert(i / 4 == w.len() && i % 4 == i - 4 * w.len());
        }
    }
    assert(l =~= r);
}

/// Reads the little-endian `u16` at `at`.
pub fn get_u16(s: &[u8], at: usize) -> (v: u16)
    requires
        at + 2 <= s.len(),
    ensures
        v == le16(s@, at as int),
{
    s[at] as u16 + 0x100 * (s[at + 1] as u16)
}

/// Reads the little-endian `u32` at `at`.
pub fn get_u32(s: &[u8], at: usize) -> (v: u32)
    requires
        at + 4 <= s.len(),
    ensures
        v == le32(s@, at as int),
{
    s[at] as u32 + 0x100 * (s[at + 1] as u32) + 0x1_0000 * (s[at + 2] as u32) + 0x100_0000 * (
    s[at + 3] as u32)
}

/// Reads the little-endian `u64` at `at`.
pub fn get_u64(s: &[u8], at: usize) -> (v: u64)
    requires
        at + 8 <= s.len(),
    ensures
        v == le64(s@, at as int),
{
    let lo: u64 = get_u32(s, at) as u64;
    let hi: u64 = get_u32(s, at + 4) as u64;
    lo + 0x1_0000_0000 * hi
}

/// Writes a `u16` at `at`.
pub fn put_u16(s: &mut [u8], at: usize, v: u16)
    requires
        at + 2 <= old(s).len(),
    ensures
        final(s)@ == splice(old(s)@, at as int, u16_le(v)),
{
    s[at] = (v % 0x100) as u8;
    s[at + 1] = (v / 0x100) as u8;
    assert(s@ =~= splice(old(s)@, at as int, u16_le(v)));
}

/// Writes a `u32` at `at`.
pub fn put_u32(s: &mut [u8], at: usize, v: u32)
    requires
        at + 4 <= old(s).len(),
    ensures
        final(s)@ == splice(old(s)@, at as int, u32_le(v)),
{
    s[at] = (v % 0x100) as u8;
    s[at + 1] = (v / 0x100 % 0x100) as u8;
    s[at + 2] = (v / 0x1_0000 % 0x100) as u8;
    s[at + 3] = (v / 0x100_0000) as u8;
    assert(s@ =~= splice(old(s)@, at as int, u32_le(v)));
}

/// Writes a `u64` at `at`.
pub fn put_u64(s: &mut [u8], at: usize, v: u64)
    requires
        at + 8 <= old(s).len(),
    ensures
        final(s)@ == splice(old(s)@, at as int, u64_le(v)),
{
    put_u32(s, at, (v % 0x1_0000_0000) as u32);
    put_u32(s, at + 4, (v / 0x1_0000_0000) as u32);
    assert(s@ =~= splice(old(s)@, at as int, u64_le(v)));
}

/// Writes zeros over `[from, to)`.
pub fn fill_zero(s: &mut [u8], from: usize, to: usize)
    requires
        from <= to <= old(s).len(),
    ensures
        final(s)@ == splice(old(s)@, from as int, zeros((to - from) as nat)),
{
    let mut i: usize = from;
    while i < to
        invariant
            from <= i <= to <= s.len(),
            s@.len() == old(s)@.len(),
            s@ == splice(old(s)@, from as int, zeros((i - from) as nat)),
        decreases to - i,
    {
        s[i] = 0;
        i = i + 1;
        assert(s@ =~= splice(old(s)@, from as int, zeros((i - from) as nat)));
    }
}

/// Writes a list of words from `at` on.
pub fn put_words(s: &mut [u8], at: usize, w: &[u32])
    requires
        at + 4 * w.len() <= old(s).len(),
    ensures
        final(s)@ == splice(old(s)@, at as int, words_le(w@)),
{
    let mut i: usize = 0;
    assert(s@ =~= splice(old(s)@, at as int, words_le(w@.take(0))));
    while i < w.len()
        invariant
            i <= w@.len(),
            at + 4 * w.len() <= s.len(),
            s@.len() == old(s)@.len(),
            s@ == splice(old(s)@, at as int, words_le(w@.take(i as int))),
        decreases w@.len() - i,
    {
        put_u32(s, at + 4 * i, w[i]);
        proof {
            lemma_words_le_push(w@.take(i as int), w@[i as int]);
            assert(w@.take(i as int).push(w@[i as int]) =~= w@.take(i + 1));
        }
        i = i + 1;
        assert(s@ =~= splice(old(s)@, at as int, words_le(w@.take(i as int))));
    }
    assert(w@.take(w@.len() as int) =~= w@);
}

/// Reads `n` words from `at` on.
pub fn get_words(s: &[u8], at: usize, n: usize) -> (w: Vec<u32>)
    requires
        at + 4 * n <= s.len(),
    ensures
        w@ == words_at(s@, at as int, n as nat),
{
    let mut w: Vec<u32> = Vec::new();
    let mut i: usize = 0;
    while i < n
        invariant
            i <= n,
            at + 4 * n <= s.len(),
            w@ == words_at(s@, at as int, i as nat),
        decreases n - i,
    {
        w.push(get_u32(s, at + 4 * i));
        i = i + 1;
        assert(w@ =~= words_at(s@, at as int, i as nat));
    }
    w
}

/// Appends a slice to a vector.
pub fn append_bytes(out: &mut Vec<u8>, b: &[u8])
    ensures
        final(out)@ == old(out)@ + b@,
{
    let mut i: usize = 0;
    while i < b.len()
        invariant
            i <= b@.len(),
            out@ == old(out)@ + b@.take(i as int),
        decreases b@.len() - i,
    {
        out.push(b[i]);
        i = i + 1;
        assert(out@ =~= old(out)@ + b@.take(i as int));
    }
    assert(b@.take(b@.len() as int) =~= b@);
}

/// Appends a `u16`.
pub fn push_u16(out: &mut Vec<u8>, v: u16)
    ensures
        final(out)@ == old(out)@ + u16_le(v),
{
    out.push((v % 0x100) as u8);
    out.push((v / 0x100) as u8);
    assert(out@ =~= old(out)@ + u16_le(v));
}

/// Appends a `u32`.
pub fn push_u32(out: &mut Vec<u8>, v: u32)
    ensures
        final(out)@ == old(out)@ + u32_le(v),
{
    out.push((v % 0x100) as u8);
    out.push((v / 0x100 % 0x100) as u8);
    out.push((v / 0x1_0000 % 0x100) as u8);
    out.push((v / 0x100_0000) as u8);
    assert(out@ =~= old(out)@ + u32_le(v));
}

/// Appends a list of words.
pub fn push_words(out: &mut Vec<u8>, w: &[u32])
    ensures
        final(out)@ == old(out)@ + words_le(w@),
{
    let mut i: usize = 0;
    assert(out@ =~= old(out)@ + words_le(w@.take(0)));
    while i < w.len()
        invariant
            i <= w@.len(),
            out@ == old(out)@ + words_le(w@.take(i as int)),
        decreases w@.len() - i,
    {
        push_u32(out, w[i]);
        proof {
            lemma_words_le_push(w@.take(i as int), w@[i as int]);
            assert(w@.take(i as int).push(w@[i as int]) =~= w@.take(i + 1));
        }
        i = i + 1;
        assert(out@ =~= old(out)@ + words_le(w@.take(i as int)));
    }
    assert(w@.take(w@.len() as int) =~= w@);
}

} // verus!
