//! Bounds-checked little/big-endian integer access and NUL-terminated text.
use vstd::prelude::*;
use vstd::utf8::{decode_utf8, valid_utf8};

verus! {

/// Little-endian `u32` stored at `off` (the four bytes must be present).
pub open spec fn le_u32(b: Seq<u8>, off: int) -> u32 {
    (b[off] as u32) | ((b[off + 1] as u32) << 8u32) | ((b[off + 2] as u32) << 16u32) | ((
    b[off + 3] as u32) << 24u32)
}

/// Big-endian `u32` stored at `off` (the four bytes must be present).
pub open spec fn be_u32(b: Seq<u8>, off: int) -> u32 {
    ((b[off] as u32) << 24u32) | ((b[off + 1] as u32) << 16u32) | ((b[off + 2] as u32) << 8u32)
        | (b[off + 3] as u32)
}

/// Little-endian `u64` stored at `off` (the eight bytes must be present).
pub open spec fn le_u64(b: Seq<u8>, off: int) -> u64 {
    (le_u32(b, off) as u64) | ((le_u32(b, off + 4) as u64) << 32u64)
}

/// The four little-endian bytes of `v`.
pub open spec fn u32_le_bytes(v: u32) -> Seq<u8> {
    seq![(v & 0xff) as u8, ((v >> 8u32) & 0xff) as u8, ((v >> 16u32) & 0xff) as u8, (v >> 24u32) as u8]
}

/// The four big-endian bytes of `v`.
pub open spec fn u32_be_bytes(v: u32) -> Seq<u8> {
    seq![(v >> 24u32) as u8, ((v >> 16u32) & 0xff) as u8, ((v >> 8u32) & 0xff) as u8, (v & 0xff) as u8]
}

/// The eight little-endian bytes of `v`.
pub open spec fn u64_le_bytes(v: u64) -> Seq<u8> {
    u32_le_bytes((v & 0xffff_ffff) as u32) + u32_le_bytes((v >> 32u64) as u32)
}

/// `width` bytes starting at `off` lie inside a buffer of `len` bytes.
pub open spec fn fits(len: int, off: int, width: int) -> bool {
    0 <= off && off + width <= len
}

/// `b` with the bytes at `off ..` replaced by `w`.
pub open spec fn splice(b: Seq<u8>, off: int, w: Seq<u8>) -> Seq<u8> {
    b.subrange(0, off) + w + b.subrange(off + w.len(), b.len() as int)
}

/// Position of the first NUL byte at or after `i`, if any.
pub open spec fn nul_from(b: Seq<u8>, i: int) -> Option<int>
    decreases b.len() - i,
{
    if i < 0 || i >= b.len() {
        None
    } else if b[i] == 0 {
        Some(i)
    } else {
        nul_from(b, i + 1)
    }
}

/// The NUL-terminated UTF-8 text that starts at `off`: absent when `off` is
/// outside the buffer, when no NUL follows, or when the bytes are not UTF-8.
pub open spec fn cstring_at(b: Seq<u8>, off: int) -> Option<Seq<char>> {
    match nul_from(b, off) {
        Some(end) => {
            let raw = b.subrange(off, end);
            if valid_utf8(raw) {
                Some(decode_utf8(raw))
            } else {
                None
            }
        },
        None => None,
    }
}

pub proof fn lemma_u32_le_round_trip(v: u32)
    ensures
        le_u32(u32_le_bytes(v), 0) == v,
{
    let b = u32_le_bytes(v);
    let b0 = b[0];
    let b1 = b[1];
    let b2 = b[2];
    let b3 = b[3];
    assert(b0 == (v & 0xff) as u8 && b1 == ((v >> 8u32) & 0xff) as u8 && b2 == ((v >> 16u32)
        & 0xff) as u8 && b3 == (v >> 24u32) as u8);
    assert((b0 == (v & 0xff) as u8 && b1 == ((v >> 8u32) & 0xff) as u8 && b2 == ((v >> 16u32)
        & 0xff) as u8 && b3 == (v >> 24u32) as u8) ==> ((b0 as u32) | ((b1 as u32) << 8u32) | ((
    b2 as u32) << 16u32) | ((b3 as u32) << 24u32)) == v) by (bit_vector);
}

pub proof fn lemma_u32_be_round_trip(v: u32)
    ensures
        be_u32(u32_be_bytes(v), 0) == v,
{
    let b = u32_be_bytes(v);
    let b0 = b[0];
    let b1 = b[1];
    let b2 = b[2];
    let b3 = b[3];
    assert((b0 == (v >> 24u32) as u8 && b1 == ((v >> 16u32) & 0xff) as u8 && b2 == ((v >> 8u32)
        & 0xff) as u8 && b3 == (v & 0xff) as u8) ==> (((b0 as u32) << 24u32) | ((b1 as u32)
        << 16u32) | ((b2 as u32) << 8u32) | (b3 as u32)) == v) by (bit_vector);
}

/// Reading the field back from any buffer that holds its bytes at `off`.
pub proof fn lemma_le_u32_at(b: Seq<u8>, off: int, v: u32)
    requires
        fits(b.len() as int, off, 4),
        b.subrange(off, off + 4) == u32_le_bytes(v),
    ensures
        le_u32(b, off) == v,
{
    let w = u32_le_bytes(v);
    assert(b[off] == w[0] && b[off + 1] == w[1] && b[off + 2] == w[2] && b[off + 3] == w[3]) by {
        assert(b.subrange(off, off + 4)[0] == b[off]);
        assert(b.subrange(off, off + 4)[1] == b[off + 1]);
        assert(b.subrange(off, off + 4)[2] == b[off + 2]);
        assert(b.subrange(off, off + 4)[3] == b[off + 3]);
    }
    lemma_u32_le_round_trip(v);
}

pub proof fn lemma_be_u32_at(b: Seq<u8>, off: int, v: u32)
    requires
        fits(b.len() as int, off, 4),
        b.subrange(off, off + 4) == u32_be_bytes(v),
    ensures
        be_u32(b, off) == v,
{
    let w = u32_be_bytes(v);
    assert(b[off] == w[0] && b[off + 1] == w[1] && b[off + 2] == w[2] && b[off + 3] == w[3]) by {
        assert(b.subrange(off, off + 4)[0] == b[off]);
        assert(b.subrange(off, off + 4)[1] == b[off + 1]);
        assert(b.subrange(off, off + 4)[2] == b[off + 2]);
        assert(b.subrange(off, off + 4)[3] == b[off + 3]);
    }
    lemma_u32_be_round_trip(v);
}

/// Reads a big-endian `u32` at `off`, or nothing when it does not fit.
pub fn read_u32_be(buf: &[u8], off: usize) -> (r: Option<u32>)
    ensures
        r == (if fits(buf@.len() as int, off as int, 4) {
            Some(be_u32(buf@, off as int))
        } else {
            None
        }),
{
    if off > buf.len() || buf.len() - off < 4 {
        return None;
    }
    Some(((buf[off] as u32) << 24u32) | ((buf[off + 1] as u32) << 16u32) | ((buf[off + 2] as u32)
        << 8u32) | (buf[off + 3] as u32))
}

/// Reads a little-endian `u32` at `off`, or nothing when it does not fit.
pub fn read_u32_le(buf: &[u8], off: usize) -> (r: Option<u32>)
    ensures
        r == (if fits(buf@.len() as int, off as int, 4) {
            Some(le_u32(buf@, off as int))
        } else {
            None
        }),
{
    if off > buf.len() || buf.len() - off < 4 {
        return None;
    }
    Some((buf[off] as u32) | ((buf[off + 1] as u32) << 8u32) | ((buf[off + 2] as u32) << 16u32)
        | ((buf[off + 3] as u32) << 24u32))
}

/// Reads a little-endian two's-complement `i32` at `off`, or nothing when it
/// does not fit.
pub fn read_i32_le(buf: &[u8], off: usize) -> (r: Option<i32>)
    ensures
        r == (if fits(buf@.len() as int, off as int, 4) {
            Some(
                if le_u32(buf@, off as int) < 0x8000_0000 {
                    le_u32(buf@, off as int) as i32
                } else {
                    (le_u32(buf@, off as int) - 0x1_0000_0000) as i32
                },
            )
        } else {
            None
        }),
{
    match read_u32_le(buf, off) {
        Some(u) => {
            if u < 0x8000_0000 {
                Some(u as i32)
            } else {
                Some((u as i64 - 0x1_0000_0000i64) as i32)
            }
        },
        None => None,
    }
}

/// Reads a little-endian `u64` at `off`, or nothing when it does not fit.
pub fn read_u64_le(buf: &[u8], off: usize) -> (r: Option<u64>)
    ensures
        r == (if fits(buf@.len() as int, off as int, 8) {
            Some(le_u64(buf@, off as int))
        } else {
            None
        }),
{
    if off > buf.len() || buf.len() - off < 8 {
        return None;
    }
    let lo = read_u32_le(buf, off).unwrap();
    let hi = read_u32_le(buf, off + 4).unwrap();
    Some((lo as u64) | ((hi as u64) << 32u64))
}

/// Overwrites the four bytes at `off` with `v` in little-endian order; leaves
/// the buffer untouched when they do not fit.
pub fn write_u32_le(buf: &mut Vec<u8>, off: usize, v: u32)
    ensures
        final(buf)@ == (if fits(old(buf)@.len() as int, off as int, 4) {
            splice(old(buf)@, off as int, u32_le_bytes(v))
        } else {
            old(buf)@
        }),
{
    if off > buf.len() || buf.len() - off < 4 {
        return ;
    }
    buf.set(off, (v & 0xff) as u8);
    buf.set(off + 1, ((v >> 8u32) & 0xff) as u8);
    buf.set(off + 2, ((v >> 16u32) & 0xff) as u8);
    buf.set(off + 3, (v >> 24u32) as u8);
    assert(final(buf)@ =~= splice(old(buf)@, off as int, u32_le_bytes(v)));
}

/// Appends the four little-endian bytes of `v`.
pub fn push_u32_le(buf: &mut Vec<u8>, v: u32)
    ensures
        final(buf)@ == old(buf)@ + u32_le_bytes(v),
{
    buf.push((v & 0xff) as u8);
    buf.push(((v >> 8u32) & 0xff) as u8);
    buf.push(((v >> 16u32) & 0xff) as u8);
    buf.push((v >> 24u32) as u8);
    assert(final(buf)@ =~= old(buf)@ + u32_le_bytes(v));
}

/// Appends the four big-endian bytes of `v`.
pub fn push_u32_be(buf: &mut Vec<u8>, v: u32)
    ensures
        final(buf)@ == old(buf)@ + u32_be_bytes(v),
{
    buf.push((v >> 24u32) as u8);
    buf.push(((v >> 16u32) & 0xff) as u8);
    buf.push(((v >> 8u32) & 0xff) as u8);
    buf.push((v & 0xff) as u8);
    assert(final(buf)@ =~= old(buf)@ + u32_be_bytes(v));
}

/// Appends the eight little-endian bytes of `v`.
pub fn push_u64_le(buf: &mut Vec<u8>, v: u64)
    ensures
        final(buf)@ == old(buf)@ + u64_le_bytes(v),
{
    push_u32_le(buf, (v & 0xffff_ffff) as u32);
    push_u32_le(buf, (v >> 32u64) as u32);
    assert(final(buf)@ =~= old(buf)@ + u64_le_bytes(v));
}

/// Appends every byte of `src`.
pub fn push_bytes(buf: &mut Vec<u8>, src: &[u8])
    ensures
        final(buf)@ == old(buf)@ + src@,
{
    let ghost start = buf@;
    let mut i: usize = 0;
    while i < src.len()
        invariant
            i <= src@.len(),
            buf@ == start + src@.subrange(0, i as int),
        decreases src@.len() - i,
    {
        buf.push(src[i]);
        i = i + 1;
        assert(buf@ =~= start + src@.subrange(0, i as int));
    }
    assert(src@.subrange(0, i as int) =~= src@);
}

/// Relies on `String::from_utf8`: it accepts exactly the well-formed UTF-8
/// byte strings, and then holds the text they encode.
#[verifier::external_body]
fn utf8_to_string(raw: Vec<u8>) -> (r: Option<String>)
    ensures
        r.is_some() == valid_utf8(raw@),
        r matches Some(s) ==> s@ == decode_utf8(raw@),
{
    String::from_utf8(raw).ok()
}

/// Reads the NUL-terminated UTF-8 text that starts at `off`.
pub fn read_cstring(buf: &[u8], off: usize) -> (r: Option<String>)
    ensures
        r.is_some() == cstring_at(buf@, off as int).is_some(),
        r matches Some(s) ==> cstring_at(buf@, off as int) == Some(s@),
{
    if off >= buf.len() {
        return None;
    }
    let mut end: usize = off;
    while end < buf.len() && buf[end] != 0
        invariant
            off <= end <= buf@.len(),
            off < buf@.len(),
            nul_from(buf@, off as int) == nul_from(buf@, end as int),
        decreases buf@.len() - end,
    {
        end = end + 1;
    }
    if end == buf.len() {
        return None;
    }
    let mut raw: Vec<u8> = Vec::new();
    push_bytes(&mut raw, &buf[off..end]);
    assert(raw@ =~= buf@.subrange(off as int, end as int));
    utf8_to_string(raw)
}

/// The byte strings of `ss` one after another.
pub open spec fn concat(ss: Seq<Seq<u8>>) -> Seq<u8>
    decreases ss.len(),
{
    if ss.len() == 0 {
        seq![]
    } else {
        concat(ss.drop_last()) + ss.last()
    }
}

/// Where `ss[i]` starts inside `concat(ss)`.
pub open spec fn concat_start(ss: Seq<Seq<u8>>, i: int) -> int {
    concat(ss.take(i)).len() as int
}

pub proof fn lemma_concat_step(ss: Seq<Seq<u8>>, i: int)
    requires
        0 <= i < ss.len(),
    ensures
        concat(ss.take(i + 1)) == concat(ss.take(i)) + ss[i],
{
    assert(ss.take(i + 1).drop_last() =~= ss.take(i));
}

pub proof fn lemma_concat_prefix(ss: Seq<Seq<u8>>, i: int, j: int)
    requires
        0 <= i <= j <= ss.len(),
    ensures
        concat_start(ss, i) <= concat_start(ss, j),
        concat(ss.take(j)).subrange(0, concat_start(ss, i)) == concat(ss.take(i)),
    decreases j - i,
{
    if i < j {
        lemma_concat_prefix(ss, i, j - 1);
        lemma_concat_step(ss, j - 1);
        assert(concat(ss.take(j)).subrange(0, concat_start(ss, i)) =~= concat(
            ss.take(j - 1),
        ).subrange(0, concat_start(ss, i)));
    } else {
        assert(concat(ss.take(j)).subrange(0, concat_start(ss, i)) =~= concat(ss.take(i)));
    }
}

/// `ss[i]` stands in `concat(ss)` at `concat_start(ss, i)`.
pub proof fn lemma_concat_slice(ss: Seq<Seq<u8>>, i: int)
    requires
        0 <= i < ss.len(),
    ensures
        concat_start(ss, i) + ss[i].len() == concat_start(ss, i + 1) <= concat(ss).len(),
        concat(ss).subrange(concat_start(ss, i), concat_start(ss, i) + ss[i].len()) == ss[i],
{
    lemma_concat_step(ss, i);
    lemma_concat_prefix(ss, i + 1, ss.len() as int);
    assert(ss.take(ss.len() as int) =~= ss);
    let whole = concat(ss);
    let a = concat_start(ss, i);
    assert(whole.subrange(a, a + ss[i].len()) =~= concat(ss.take(i + 1)).subrange(
        a,
        a + ss[i].len(),
    ));
    assert(concat(ss.take(i + 1)).subrange(a, a + ss[i].len()) =~= ss[i]);
}

} // verus!
