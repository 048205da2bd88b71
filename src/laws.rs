//! What holds across the encoder and the decoder.
use crate::bytes::{
    concat,
    concat_start,
    cstring_at,
    le_u32,
    lemma_be_u32_at,
    lemma_concat_slice,
    lemma_concat_step,
    lemma_le_u32_at,
    nul_from,
    u32_be_bytes,
    u32_le_bytes,
};
use crate::cookie::{
    c_text,
    cookie_bytes,
    flags_word,
    lemma_cookie_bytes_len,
    nul_free,
    record_lead,
    record_len,
    record_offsets,
    record_text,
    record_times,
    string_offsets,
    CookieView,
    FLAG_HTTP_ONLY,
    FLAG_SECURE,
};
use crate::container::{
    container_bytes,
    encodable,
    magic,
    page_blobs,
    page_count,
    page_size,
    pages_from,
    parse_file,
    size_table,
};
use crate::error::FormatError;
use crate::page::{
    cookie_count,
    decode_record,
    lemma_offset_table_len,
    lemma_page_bytes_len,
    offset_table,
    page_bytes,
    page_cookies,
    page_len,
    page_prefix,
    parse_page,
    record_at,
    record_offset,
    records,
    table_entry,
};
use crate::time::UnixTime;
use vstd::prelude::*;
use vstd::utf8::{
    char_u32_cast,
    encode_scalar,
    encode_utf8,
    encode_utf8_decode_utf8,
    encode_utf8_valid_utf8,
    has_width_1_encoding,
};

verus! {

/// `d` is what decoding gives back for `c`: the same text, the path that was
/// written, and the same flags.
pub open spec fn same_cookie(d: CookieView, c: CookieView) -> bool {
    &&& d.domain == c.domain
    &&& d.name == c.name
    &&& d.path == Some(c.path_or_root())
    &&& d.value == c.value
    &&& d.secure == c.secure
    &&& d.http_only == c.http_only
}

proof fn lemma_scalar_no_nul(c: char)
    requires
        c != '\0',
    ensures
        forall|i: int|
            0 <= i < encode_scalar(c as u32).len() ==> #[trigger] encode_scalar(c as u32)[i] != 0,
{
    let v = c as u32;
    if v == 0 {
        char_u32_cast(c, v);
        char_u32_cast('\0', 0);
    }
    assert(v != 0);
    if has_width_1_encoding(v) {
        assert((v & 0x7F) as u8 != 0) by (bit_vector)
            requires
                v <= 0x7F,
                v != 0,
        ;
    } else {
        assert(forall|x: u8| (0xC0u8 | x) != 0 && (0xE0u8 | x) != 0 && (0xF0u8 | x) != 0 && (0x80u8
            | x) != 0) by (bit_vector);
    }
}

proof fn lemma_encode_no_nul(s: Seq<char>)
    requires
        nul_free(s),
    ensures
        forall|i: int| 0 <= i < encode_utf8(s).len() ==> #[trigger] encode_utf8(s)[i] != 0,
    decreases s.len(),
{
    if s.len() > 0 {
        assert(s[0] != '\0');
        lemma_scalar_no_nul(s[0]);
        assert(nul_free(s.drop_first())) by {
            assert forall|i: int| 0 <= i < s.drop_first().len() implies s.drop_first()[i]
                != '\0' by {
                assert(s.drop_first()[i] == s[i + 1]);
            }
        }
        lemma_encode_no_nul(s.drop_first());
        let a = encode_scalar(s[0] as u32);
        let rest = encode_utf8(s.drop_first());
        assert(encode_utf8(s) == a + rest);
        assert forall|i: int| 0 <= i < encode_utf8(s).len() implies #[trigger] encode_utf8(s)[i]
            != 0 by {
            if i < a.len() {
                assert(encode_utf8(s)[i] == a[i]);
            } else {
                assert(encode_utf8(s)[i] == rest[i - a.len()]);
            }
        }
    }
}

proof fn lemma_nul_scan(b: Seq<u8>, i: int, end: int)
    requires
        0 <= i <= end < b.len(),
        b[end] == 0,
        forall|j: int| i <= j < end ==> b[j] != 0,
    ensures
        nul_from(b, i) == Some(end),
    decreases end - i,
{
    if i < end {
        lemma_nul_scan(b, i + 1, end);
    }
}

/// Text written with its NUL at `off` is read back whole.
proof fn lemma_cstring_read_back(b: Seq<u8>, off: int, s: Seq<char>)
    requires
        nul_free(s),
        0 <= off,
        off + c_text(s).len() <= b.len(),
        b.subrange(off, off + c_text(s).len()) == c_text(s),
    ensures
        cstring_at(b, off) == Some(s),
{
    let e = encode_utf8(s);
    let t = c_text(s);
    lemma_encode_no_nul(s);
    assert forall|j: int| off <= j < off + e.len() implies b[j] != 0 by {
        assert(b[j] == b.subrange(off, off + t.len())[j - off]);
        assert(t[j - off] == e[j - off]);
    }
    assert(b[off + e.len()] == b.subrange(off, off + t.len())[e.len() as int]);
    lemma_nul_scan(b, off, off + e.len());
    assert(b.subrange(off, off + e.len()) =~= e) by {
        assert forall|j: int| 0 <= j < e.len() implies b.subrange(off, off + e.len())[j] == e[j] by {
            assert(b[off + j] == b.subrange(off, off + t.len())[j]);
        }
    }
    encode_utf8_valid_utf8(s);
    encode_utf8_decode_utf8(s);
}

proof fn lemma_flag_bits(secure: bool, http_only: bool)
    ensures
        (flags_word(secure, http_only) & FLAG_SECURE != 0) == secure,
        (flags_word(secure, http_only) & FLAG_HTTP_ONLY != 0) == http_only,
{
    assert((1u32 | 4u32) & 1 != 0 && (1u32 | 4u32) & 4 != 0) by (bit_vector);
    assert((1u32 | 0u32) & 1 != 0 && (1u32 | 0u32) & 4 == 0) by (bit_vector);
    assert((0u32 | 4u32) & 1 == 0 && (0u32 | 4u32) & 4 != 0) by (bit_vector);
    assert((0u32 | 0u32) & 1 == 0 && (0u32 | 0u32) & 4 == 0) by (bit_vector);
}

proof fn lemma_record_header(c: CookieView, now: UnixTime)
    ensures
        ({
            let r = cookie_bytes(c, now);
            let (d, n, p, v, size) = string_offsets(c);
            &&& r.len() == record_len(c)
            &&& r.subrange(0, 4) == u32_le_bytes(size as u32)
            &&& r.subrange(8, 12) == u32_le_bytes(flags_word(c.secure, c.http_only))
            &&& r.subrange(16, 20) == u32_le_bytes(d as u32)
            &&& r.subrange(20, 24) == u32_le_bytes(n as u32)
            &&& r.subrange(24, 28) == u32_le_bytes(p as u32)
            &&& r.subrange(28, 32) == u32_le_bytes(v as u32)
            &&& r.subrange(56, size) == record_text(c)
        }),
{
    reveal(cookie_bytes);
    let r = cookie_bytes(c, now);
    let (d, n, p, v, size) = string_offsets(c);
    let lead = record_lead(c);
    let offs = record_offsets(c);
    let times = record_times(c, now);
    assert(lead.len() == 16 && offs.len() == 16 && times.len() == 24);
    assert(r == lead + offs + times + record_text(c));
    assert(lead.subrange(0, 4) =~= u32_le_bytes(size as u32));
    assert(lead.subrange(8, 12) =~= u32_le_bytes(flags_word(c.secure, c.http_only)));
    assert(r.subrange(0, 4) =~= lead.subrange(0, 4));
    assert(r.subrange(8, 12) =~= lead.subrange(8, 12));
    assert(offs.subrange(0, 4) =~= u32_le_bytes(d as u32));
    assert(offs.subrange(4, 8) =~= u32_le_bytes(n as u32));
    assert(offs.subrange(8, 12) =~= u32_le_bytes(p as u32));
    assert(offs.subrange(12, 16) =~= u32_le_bytes(v as u32));
    assert(r.subrange(16, 20) =~= offs.subrange(0, 4));
    assert(r.subrange(20, 24) =~= offs.subrange(4, 8));
    assert(r.subrange(24, 28) =~= offs.subrange(8, 12));
    assert(r.subrange(28, 32) =~= offs.subrange(12, 16));
    assert(r.subrange(56, size) =~= record_text(c));
}

proof fn lemma_record_text(c: CookieView)
    ensures
        ({
            let t = record_text(c);
            let (d, n, p, v, size) = string_offsets(c);
            &&& t.subrange(0, n - d) == c_text(c.domain)
            &&& t.subrange(n - d, p - d) == c_text(c.name)
            &&& t.subrange(p - d, v - d) == c_text(c.path_or_root())
            &&& t.subrange(v - d, size - d) == c_text(c.value)
        }),
{
    let (d, n, p, v, size) = string_offsets(c);
    let t = record_text(c);
    assert(t.subrange(0, n - d) =~= c_text(c.domain));
    assert(t.subrange(n - d, p - d) =~= c_text(c.name));
    assert(t.subrange(p - d, v - d) =~= c_text(c.path_or_root()));
    assert(t.subrange(v - d, size - d) =~= c_text(c.value));
}

/// A record decodes to the cookie it was built from.
pub proof fn lemma_record_round_trip(c: CookieView, now: UnixTime)
    requires
        c.wf(),
        record_len(c) <= u32::MAX,
    ensures
        decode_record(cookie_bytes(c, now)) matches Some(d) && same_cookie(d, c),
        cookie_bytes(c, now).len() == record_len(c),
        le_u32(cookie_bytes(c, now), 0) == record_len(c),
{
    let r = cookie_bytes(c, now);
    let (d, n, p, v, size) = string_offsets(c);
    lemma_record_header(c, now);
    lemma_record_text(c);
    lemma_le_u32_at(r, 0, size as u32);
    lemma_le_u32_at(r, 8, flags_word(c.secure, c.http_only));
    lemma_le_u32_at(r, 16, d as u32);
    lemma_le_u32_at(r, 20, n as u32);
    lemma_le_u32_at(r, 24, p as u32);
    lemma_le_u32_at(r, 28, v as u32);
    lemma_flag_bits(c.secure, c.http_only);
    let t = record_text(c);
    assert(r.subrange(d, n) =~= t.subrange(0, n - d));
    assert(r.subrange(n, p) =~= t.subrange(n - d, p - d));
    assert(r.subrange(p, v) =~= t.subrange(p - d, v - d));
    assert(r.subrange(v, size) =~= t.subrange(v - d, size - d));
    lemma_cstring_read_back(r, d, c.domain);
    lemma_cstring_read_back(r, n, c.name);
    lemma_cstring_read_back(r, p, c.path_or_root());
    lemma_cstring_read_back(r, v, c.value);
}

/// Every cookie can be stored and read back: its text holds no NUL and its
/// record's size is a positive 32-bit signed integer.
pub open spec fn storable(cs: Seq<CookieView>) -> bool {
    forall|i: int| 0 <= i < cs.len() ==> (#[trigger] cs[i]).wf() && record_len(cs[i]) < 0x8000_0000
}

/// Each decoded cookie of `ds` is what decoding gives back for `cs`, in order.
pub open spec fn same_cookies(ds: Seq<CookieView>, cs: Seq<CookieView>) -> bool {
    &&& ds.len() == cs.len()
    &&& forall|i: int| 0 <= i < cs.len() ==> same_cookie(#[trigger] ds[i], cs[i])
}

proof fn lemma_page_parts(cs: Seq<CookieView>, now: UnixTime)
    ensures
        ({
            let b = page_bytes(cs, now);
            let n = cs.len() as int;
            let t = concat(offset_table(cs, now));
            let body = concat(records(cs, now));
            &&& t.len() == 4 * n
            &&& b.len() == 12 + 4 * n + body.len()
            &&& b.subrange(4, 8) == u32_le_bytes(n as u32)
            &&& forall|x: int, y: int|
                0 <= x <= y <= 4 * n ==> #[trigger] b.subrange(8 + x, 8 + y) == t.subrange(x, y)
            &&& forall|x: int, y: int|
                0 <= x <= y <= body.len() ==> #[trigger] b.subrange(12 + 4 * n + x, 12 + 4 * n + y)
                    == body.subrange(x, y)
        }),
{
    let b = page_bytes(cs, now);
    let n = cs.len() as int;
    let t = concat(offset_table(cs, now));
    let body = concat(records(cs, now));
    lemma_offset_table_len(cs, now, n);
    assert(offset_table(cs, now).take(n) =~= offset_table(cs, now));
    let pre = page_prefix(n);
    assert(b == pre + t + seq![0u8, 0u8, 0u8, 0u8] + body);
    assert(b.subrange(4, 8) =~= u32_le_bytes(n as u32));
    assert forall|x: int, y: int| 0 <= x <= y <= 4 * n implies #[trigger] b.subrange(8 + x, 8 + y)
        == t.subrange(x, y) by {
        assert(b.subrange(8 + x, 8 + y) =~= t.subrange(x, y));
    }
    assert forall|x: int, y: int| 0 <= x <= y <= body.len() implies #[trigger] b.subrange(
        12 + 4 * n + x,
        12 + 4 * n + y,
    ) == body.subrange(x, y) by {
        assert(b.subrange(12 + 4 * n + x, 12 + 4 * n + y) =~= body.subrange(x, y));
    }
}

#[verifier::spinoff_prover]
#[verifier::rlimit(40)]
proof fn lemma_page_cookies(cs: Seq<CookieView>, now: UnixTime, k: int)
    requires
        storable(cs),
        page_len(cs, now) <= u32::MAX,
        0 <= k <= cs.len(),
    ensures
        same_cookies(page_cookies(page_bytes(cs, now), k as nat), cs.take(k)),
    decreases k,
{
    let b = page_bytes(cs, now);
    if k == 0 {
        assert(cs.take(0) =~= Seq::<CookieView>::empty());
    } else {
        let i = k - 1;
        lemma_page_cookies(cs, now, i);
        let n = cs.len() as int;
        let table = offset_table(cs, now);
        let recs = records(cs, now);
        let body = concat(recs);
        lemma_page_parts(cs, now);
        lemma_page_bytes_len(cs, now);
        // the table entry
        lemma_offset_table_len(cs, now, i);
        lemma_concat_slice(table, i);
        assert(concat_start(table, i) == 4 * i);
        assert(b.subrange(8 + 4 * i, 8 + 4 * i + 4) == table[i]);
        let o = record_offset(cs, now, i);
        lemma_concat_slice(recs, i);
        let start = concat_start(recs, i);
        let rec = recs[i];
        assert(rec == cookie_bytes(cs[i], now));
        lemma_record_round_trip(cs[i], now);
        lemma_record_header(cs[i], now);
        assert(o + rec.len() <= b.len());
        assert(0 <= o <= u32::MAX);
        lemma_le_u32_at(b, 8 + 4 * i, o as u32);
        assert(table_entry(b, i) == o);
        assert(b.subrange(o, o + rec.len()) == body.subrange(start, start + rec.len()));
        assert(b.subrange(o, o + rec.len()) == rec);
        assert(b.subrange(o, o + 4) =~= rec.subrange(0, 4));
        lemma_le_u32_at(b, o, record_len(cs[i]) as u32);
        assert(record_at(b, o) == decode_record(rec));
        let prev = page_cookies(b, i as nat);
        let d = decode_record(rec)->Some_0;
        assert(page_cookies(b, k as nat) == prev.push(d));
        assert forall|j: int| 0 <= j < k implies same_cookie(
            #[trigger] page_cookies(b, k as nat)[j],
            cs.take(k)[j],
        ) by {
            if j < i {
                assert(cs.take(k)[j] == cs.take(i)[j]);
            }
        }
    }
}

/// A page decodes to its cookies: as many, in the same order, each with the
/// same text and flags.
pub proof fn lemma_page_round_trip(cs: Seq<CookieView>, now: UnixTime)
    requires
        storable(cs),
        page_len(cs, now) <= u32::MAX,
    ensures
        parse_page(page_bytes(cs, now)) matches Ok(ds) && same_cookies(ds, cs),
{
    let b = page_bytes(cs, now);
    let n = cs.len() as int;
    lemma_page_parts(cs, now);
    lemma_le_u32_at(b, 4, n as u32);
    lemma_page_cookies(cs, now, n);
    assert(cs.take(n) =~= cs);
}

proof fn lemma_concat_words(ss: Seq<Seq<u8>>, i: int)
    requires
        0 <= i <= ss.len(),
        forall|j: int| 0 <= j < ss.len() ==> (#[trigger] ss[j]).len() == 4,
    ensures
        concat_start(ss, i) == 4 * i,
    decreases i,
{
    if i > 0 {
        lemma_concat_words(ss, i - 1);
        lemma_concat_step(ss, i - 1);
    }
}

/// Every page of `ps` can be stored and read back.
pub open spec fn all_storable(ps: Seq<Seq<CookieView>>) -> bool {
    forall|i: int| 0 <= i < ps.len() ==> storable(#[trigger] ps[i])
}

/// The decoded pages `qs` give back the pages `ps`, in order.
pub open spec fn same_pages(qs: Seq<Seq<CookieView>>, ps: Seq<Seq<CookieView>>) -> bool {
    &&& qs.len() == ps.len()
    &&& forall|i: int| 0 <= i < ps.len() ==> same_cookies(#[trigger] qs[i], ps[i])
}

proof fn lemma_file_parts(ps: Seq<Seq<CookieView>>, now: UnixTime)
    requires
        encodable(ps, now),
    ensures
        ({
            let b = container_bytes(ps, now);
            let m = ps.len() as int;
            let blobs = page_blobs(ps, now);
            let t = concat(size_table(blobs));
            let body = concat(blobs);
            &&& t.len() == 4 * m
            &&& b.len() >= 8 + 4 * m + body.len()
            &&& b.subrange(0, 4) == magic()
            &&& b.subrange(4, 8) == u32_be_bytes(m as u32)
            &&& forall|x: int, y: int|
                0 <= x <= y <= 4 * m ==> #[trigger] b.subrange(8 + x, 8 + y) == t.subrange(x, y)
            &&& forall|x: int, y: int|
                0 <= x <= y <= body.len() ==> #[trigger] b.subrange(8 + 4 * m + x, 8 + 4 * m + y)
                    == body.subrange(x, y)
        }),
{
    let b = container_bytes(ps, now);
    let m = ps.len() as int;
    let blobs = page_blobs(ps, now);
    let sizes = size_table(blobs);
    let t = concat(sizes);
    let body = concat(blobs);
    lemma_concat_words(sizes, m);
    assert(sizes.take(m) =~= sizes);
    assert(b.subrange(0, 4) =~= magic());
    assert(b.subrange(4, 8) =~= u32_be_bytes(m as u32));
    assert forall|x: int, y: int| 0 <= x <= y <= 4 * m implies #[trigger] b.subrange(8 + x, 8 + y)
        == t.subrange(x, y) by {
        assert(b.subrange(8 + x, 8 + y) =~= t.subrange(x, y));
    }
    assert forall|x: int, y: int| 0 <= x <= y <= body.len() implies #[trigger] b.subrange(
        8 + 4 * m + x,
        8 + 4 * m + y,
    ) == body.subrange(x, y) by {
        assert(b.subrange(8 + 4 * m + x, 8 + 4 * m + y) =~= body.subrange(x, y));
    }
}

/// Where page `i` stands in the file, and that its size entry gives it.
proof fn lemma_page_in_file(ps: Seq<Seq<CookieView>>, now: UnixTime, i: int)
    requires
        encodable(ps, now),
        0 <= i < ps.len(),
    ensures
        ({
            let b = container_bytes(ps, now);
            let blobs = page_blobs(ps, now);
            let cur = 8 + 4 * ps.len() + concat_start(blobs, i);
            &&& blobs[i] == page_bytes(ps[i], now)
            &&& page_size(b, i) == blobs[i].len() > 0
            &&& cur + blobs[i].len() <= b.len()
            &&& cur + blobs[i].len() == 8 + 4 * ps.len() + concat_start(blobs, i + 1)
            &&& b.subrange(cur, cur + blobs[i].len()) == blobs[i]
        }),
{
    let b = container_bytes(ps, now);
    let m = ps.len() as int;
    let blobs = page_blobs(ps, now);
    let sizes = size_table(blobs);
    lemma_file_parts(ps, now);
    lemma_concat_words(sizes, i);
    lemma_concat_slice(sizes, i);
    assert(b.subrange(8 + 4 * i, 8 + 4 * i + 4) == sizes[i]);
    lemma_page_bytes_len(ps[i], now);
    let blob = blobs[i];
    assert(page_len(ps[i], now) <= u32::MAX);
    lemma_be_u32_at(b, 8 + 4 * i, blob.len() as u32);
    lemma_concat_slice(blobs, i);
}

#[verifier::spinoff_prover]
proof fn lemma_pages_from(ps: Seq<Seq<CookieView>>, now: UnixTime, i: int)
    requires
        encodable(ps, now),
        all_storable(ps),
        0 <= i <= ps.len(),
    ensures
        same_pages(
            pages_from(
                container_bytes(ps, now),
                ps.len() as int,
                i,
                8 + 4 * ps.len() + concat_start(page_blobs(ps, now), i),
            ),
            ps.subrange(i, ps.len() as int),
        ),
    decreases ps.len() - i,
{
    let b = container_bytes(ps, now);
    let m = ps.len() as int;
    let blobs = page_blobs(ps, now);
    let cur = 8 + 4 * m + concat_start(blobs, i);
    if i == m {
        assert(ps.subrange(i, m) =~= Seq::<Seq<CookieView>>::empty());
    } else {
        lemma_pages_from(ps, now, i + 1);
        lemma_page_in_file(ps, now, i);
        let blob = blobs[i];
        assert(storable(ps[i]));
        lemma_page_round_trip(ps[i], now);
        let ds = parse_page(blob)->Ok_0;
        let rest = pages_from(b, m, i + 1, cur + blob.len());
        assert(pages_from(b, m, i, cur) == seq![ds] + rest);
        assert forall|k: int| 0 <= k < m - i implies same_cookies(
            #[trigger] pages_from(b, m, i, cur)[k],
            ps.subrange(i, m)[k],
        ) by {
            if k > 0 {
                assert(pages_from(b, m, i, cur)[k] == rest[k - 1]);
                assert(ps.subrange(i, m)[k] == ps.subrange(i + 1, m)[k - 1]);
            }
        }
    }
}

proof fn lemma_file_head(ps: Seq<Seq<CookieView>>, now: UnixTime)
    requires
        encodable(ps, now),
    ensures
        ({
            let b = container_bytes(ps, now);
            &&& b.len() >= 8 + 4 * ps.len()
            &&& b.subrange(0, 4) == magic()
            &&& page_count(b) == ps.len()
        }),
{
    let b = container_bytes(ps, now);
    lemma_file_parts(ps, now);
    lemma_be_u32_at(b, 4, ps.len() as u32);
}

/// Encoding pages and decoding the result gives back as many pages, each
/// with as many cookies, in the same order, each cookie with the same
/// domain, name, value and flags, and the path it was written with (`/`
/// when it had none).
pub proof fn round_trip_pages(ps: Seq<Seq<CookieView>>, now: UnixTime)
    requires
        encodable(ps, now),
        all_storable(ps),
    ensures
        parse_file(container_bytes(ps, now)) matches Ok(qs) && same_pages(qs, ps),
{
    let b = container_bytes(ps, now);
    let m = ps.len() as int;
    lemma_file_head(ps, now);
    assert(concat_start(page_blobs(ps, now), 0) == 0) by {
        assert(page_blobs(ps, now).take(0) =~= Seq::<Seq<u8>>::empty());
    }
    lemma_pages_from(ps, now, 0);
    assert(ps.subrange(0, m) =~= ps);
    assert(parse_file(b) == Ok::<Seq<Seq<CookieView>>, FormatError>(pages_from(b, m, 0, 8 + 4 * m)));
}

/// One cookie, written alone in one page of one file, reads back with the
/// same domain, name, value and flags, and with its path (`/` when it had
/// none).
pub proof fn round_trip_cookie(c: CookieView, now: UnixTime)
    requires
        c.wf(),
        record_len(c) < 0x8000_0000,
    ensures
        parse_file(container_bytes(seq![seq![c]], now)) matches Ok(qs) && qs.len() == 1
            && qs[0].len() == 1 && same_cookie(qs[0][0], c),
{
    let cs = seq![c];
    let ps = seq![cs];
    let recs = records(cs, now);
    lemma_cookie_bytes_len(c, now);
    assert(recs.drop_last() =~= Seq::<Seq<u8>>::empty());
    assert(concat(recs) == concat(recs.drop_last()) + recs[0]);
    assert(page_len(cs, now) == 16 + record_len(c));
    assert(storable(cs));
    assert(all_storable(ps));
    round_trip_pages(ps, now);
    let qs = parse_file(container_bytes(ps, now))->Ok_0;
    assert(same_cookies(qs[0], ps[0]));
}

/// The flags word holds `secure` in bit 0, `http_only` in bit 2, and no
/// other bit; a record decodes `secure` from bit 0 and `http_only` from bit 2
/// of its flags word, whatever the other bits hold.
pub proof fn flags_bits(secure: bool, http_only: bool, r: Seq<u8>)
    ensures
        (flags_word(secure, http_only) & FLAG_SECURE != 0) == secure,
        (flags_word(secure, http_only) & FLAG_HTTP_ONLY != 0) == http_only,
        flags_word(secure, http_only) & !(FLAG_SECURE | FLAG_HTTP_ONLY) == 0,
        decode_record(r) matches Some(d) ==> d.secure == (le_u32(r, 8) & FLAG_SECURE != 0)
            && d.http_only == (le_u32(r, 8) & FLAG_HTTP_ONLY != 0),
{
    lemma_flag_bits(secure, http_only);
    assert((1u32 | 4u32) & !(1u32 | 4u32) == 0 && (1u32 | 0u32) & !(1u32 | 4u32) == 0 && (0u32
        | 4u32) & !(1u32 | 4u32) == 0 && (0u32 | 0u32) & !(1u32 | 4u32) == 0) by (bit_vector);
}

/// A file with the right magic and a page count of zero holds no pages.
pub proof fn zero_pages(b: Seq<u8>)
    requires
        b.len() >= 8,
        b.subrange(0, 4) == magic(),
        page_count(b) == 0,
    ensures
        parse_file(b) == Ok::<Seq<Seq<CookieView>>, FormatError>(seq![]),
{
}

/// A buffer shorter than the header, or one that does not start with
/// `cook`, is refused.
pub proof fn refuses_foreign(b: Seq<u8>)
    ensures
        b.len() < 8 ==> parse_file(b) == Err::<Seq<Seq<CookieView>>, FormatError>(
            FormatError::TooSmall,
        ),
        b.len() >= 8 && b.subrange(0, 4) != magic() ==> parse_file(b) == Err::<
            Seq<Seq<CookieView>>,
            FormatError,
        >(FormatError::BadMagic),
{
}

/// A page whose offset table can be read decodes; an entry that points past
/// the end of the page adds no cookie, and the others are kept.
pub proof fn skips_entry_past_end(b: Seq<u8>, k: int)
    requires
        b.len() >= 8,
        8 + 4 * cookie_count(b) <= b.len(),
        0 <= k < cookie_count(b),
        table_entry(b, k) + 4 > b.len(),
    ensures
        parse_page(b) == Ok::<Seq<CookieView>, FormatError>(
            page_cookies(b, cookie_count(b) as nat),
        ),
        page_cookies(b, (k + 1) as nat) == page_cookies(b, k as nat),
{
    assert(record_at(b, table_entry(b, k)) is None);
}

} // verus!
