//! A page: an ordered group of cookie records behind an offset table.
use crate::bytes::{
    concat,
    concat_start,
    cstring_at,
    fits,
    le_u32,
    le_u64,
    lemma_concat_slice,
    lemma_concat_step,
    lemma_concat_prefix,
    push_bytes,
    push_u32_le,
    read_cstring,
    read_i32_le,
    read_u32_le,
    read_u64_le,
    u32_le_bytes,
};
use crate::cookie::{cookie_bytes, lemma_cookie_bytes_len, Cookie, CookieView, FLAG_HTTP_ONLY, FLAG_SECURE};
use crate::error::FormatError;
use crate::time::{to_unix_timestamp, unix_of_cocoa, UnixTime};
use vstd::prelude::*;

verus! {

/// Smallest cookie record the decoder reads.
pub const MIN_RECORD_LEN: usize = 36;

/// An ordered sequence of cookies, stored together.
#[derive(Clone, Debug)]
pub struct Page {
    pub cookies: Vec<Cookie>,
}

impl View for Page {
    type V = Seq<CookieView>;

    open spec fn view(&self) -> Seq<CookieView> {
        self.cookies@.map_values(|c: Cookie| c@)
    }
}

/// The binary records of `cs`, in order.
pub open spec fn records(cs: Seq<CookieView>, now: UnixTime) -> Seq<Seq<u8>> {
    cs.map_values(|c: CookieView| cookie_bytes(c, now))
}

/// Bytes before the first record: marker, count, offset table and footer.
pub open spec fn page_header_len(n: int) -> int {
    12 + 4 * n
}

/// Offset of record `i` from the start of the page.
pub open spec fn record_offset(cs: Seq<CookieView>, now: UnixTime, i: int) -> int {
    page_header_len(cs.len() as int) + concat_start(records(cs, now), i)
}

/// The offset table of a page holding `cs`.
pub open spec fn offset_table(cs: Seq<CookieView>, now: UnixTime) -> Seq<Seq<u8>> {
    Seq::new(cs.len(), |i: int| u32_le_bytes(record_offset(cs, now, i) as u32))
}

/// The page marker and the cookie count.
pub open spec fn page_prefix(n: int) -> Seq<u8> {
    seq![0u8, 0u8, 1u8, 0u8] + u32_le_bytes(n as u32)
}

/// The binary page holding `cs`; `now` stands in for missing timestamps.
pub open spec fn page_bytes(cs: Seq<CookieView>, now: UnixTime) -> Seq<u8> {
    page_prefix(cs.len() as int) + concat(offset_table(cs, now)) + seq![0u8, 0u8, 0u8, 0u8]
        + concat(records(cs, now))
}

/// Length of the binary page holding `cs`.
pub open spec fn page_len(cs: Seq<CookieView>, now: UnixTime) -> int {
    page_header_len(cs.len() as int) + concat(records(cs, now)).len()
}

pub proof fn lemma_offset_table_len(cs: Seq<CookieView>, now: UnixTime, i: int)
    requires
        0 <= i <= cs.len(),
    ensures
        concat(offset_table(cs, now).take(i)).len() == 4 * i,
    decreases i,
{
    if i > 0 {
        lemma_offset_table_len(cs, now, i - 1);
        lemma_concat_step(offset_table(cs, now), i - 1);
    }
}

/// The text at `off`, or empty text when none can be read there.
pub open spec fn text_or_empty(b: Seq<u8>, off: int) -> Seq<char> {
    match cstring_at(b, off) {
        Some(t) => t,
        None => seq![],
    }
}

/// The cookie a record holds, or nothing when it is too short to read.
///
/// The string offsets sit at bytes 16, 20, 24 and 28, the flags at byte 8.
/// The creation time is read as a double from bytes 24..32, the same bytes
/// as the path and value offsets, and the expiration from bytes 32..40, where
/// the encoder writes the unused comment offsets; both times are therefore
/// not those the encoder wrote. The decoder keeps this reading unchanged.
pub open spec fn decode_record(r: Seq<u8>) -> Option<CookieView> {
    if r.len() < MIN_RECORD_LEN {
        None
    } else {
        let flags = le_u32(r, 8);
        Some(
            CookieView {
                domain: text_or_empty(r, le_u32(r, 16) as int),
                name: text_or_empty(r, le_u32(r, 20) as int),
                path: cstring_at(r, le_u32(r, 24) as int),
                value: text_or_empty(r, le_u32(r, 28) as int),
                secure: flags & FLAG_SECURE != 0,
                http_only: flags & FLAG_HTTP_ONLY != 0,
                expiration: if r.len() >= 40 {
                    Some(UnixTime { secs: unix_of_cocoa(le_u64(r, 32)) })
                } else {
                    None
                },
                creation: Some(UnixTime { secs: unix_of_cocoa(le_u64(r, 24)) }),
            },
        )
    }
}

/// The cookie whose record starts at `off` in page `b`, or nothing when its
/// size field or its extent leaves the page, or its size is not positive.
pub open spec fn record_at(b: Seq<u8>, off: int) -> Option<CookieView> {
    if !fits(b.len() as int, off, 4) {
        None
    } else {
        let size = le_u32(b, off) as int;
        if size == 0 || size >= 0x8000_0000 || off + size > b.len() {
            None
        } else {
            decode_record(b.subrange(off, off + size))
        }
    }
}

/// Entry `i` of the cookie-offset table of page `b`.
pub open spec fn table_entry(b: Seq<u8>, i: int) -> int {
    le_u32(b, 8 + 4 * i) as int
}

/// The cookies that the first `k` entries of the offset table lead to.
pub open spec fn page_cookies(b: Seq<u8>, k: nat) -> Seq<CookieView>
    decreases k,
{
    if k == 0 {
        seq![]
    } else {
        let prev = page_cookies(b, (k - 1) as nat);
        match record_at(b, table_entry(b, k - 1)) {
            Some(c) => prev.push(c),
            None => prev,
        }
    }
}

/// Cookie count of page `b`.
pub open spec fn cookie_count(b: Seq<u8>) -> int {
    le_u32(b, 4) as int
}

/// What page `b` decodes to.
pub open spec fn parse_page(b: Seq<u8>) -> Result<Seq<CookieView>, FormatError> {
    if b.len() < 8 {
        Err(FormatError::CookieCount)
    } else if 8 + 4 * cookie_count(b) > b.len() {
        Err(FormatError::CookieOffsetTable)
    } else {
        Ok(page_cookies(b, cookie_count(b) as nat))
    }
}

/// Reads the text at `off`, or empty text when none can be read there.
fn read_text(buf: &[u8], off: usize) -> (r: String)
    ensures
        r@ == text_or_empty(buf@, off as int),
{
    match read_cstring(buf, off) {
        Some(s) => s,
        None => String::new(),
    }
}

/// Decodes the record of a cookie.
fn parse_record(r: &[u8]) -> (c: Option<Cookie>)
    ensures
        c is Some == decode_record(r@) is Some,
        c matches Some(k) ==> decode_record(r@) == Some(k@),
{
    if r.len() < MIN_RECORD_LEN {
        return None;
    }
    let flags = read_u32_le(r, 8).unwrap();
    let domain = read_text(r, read_u32_le(r, 16).unwrap() as usize);
    let name = read_text(r, read_u32_le(r, 20).unwrap() as usize);
    let path = read_cstring(r, read_u32_le(r, 24).unwrap() as usize);
    let value = read_text(r, read_u32_le(r, 28).unwrap() as usize);
    let creation = Some(to_unix_timestamp(read_u64_le(r, 24).unwrap()));
    let expiration = match read_u64_le(r, 32) {
        Some(bits) => Some(to_unix_timestamp(bits)),
        None => None,
    };
    let c = Cookie {
        domain,
        name,
        path,
        value,
        secure: flags & FLAG_SECURE != 0,
        http_only: flags & FLAG_HTTP_ONLY != 0,
        expiration,
        creation,
    };
    Some(c)
}

/// Decodes the cookie whose record starts at `off`.
fn parse_record_at(buf: &[u8], off: usize) -> (c: Option<Cookie>)
    ensures
        c is Some == record_at(buf@, off as int) is Some,
        c matches Some(k) ==> record_at(buf@, off as int) == Some(k@),
{
    if off > buf.len() || buf.len() - off < 4 {
        return None;
    }
    let size = read_i32_le(buf, off).unwrap();
    if size <= 0 || size as usize > buf.len() - off {
        return None;
    }
    let end: usize = off + size as usize;
    parse_record(&buf[off..end])
}

pub proof fn lemma_page_bytes_len(cs: Seq<CookieView>, now: UnixTime)
    ensures
        page_bytes(cs, now).len() == page_len(cs, now),
{
    lemma_offset_table_len(cs, now, cs.len() as int);
    assert(offset_table(cs, now).take(cs.len() as int) =~= offset_table(cs, now));
}

impl Page {
    pub fn new(cookies: Vec<Cookie>) -> (r: Self)
        ensures
            r.cookies == cookies,
    {
        Page { cookies }
    }

    /// Encodes the page: marker, cookie count, offset table, footer, then
    /// each cookie's record; `now` stands in for missing timestamps.
    pub fn build(&self, now: UnixTime) -> (r: Vec<u8>)
        requires
            page_len(self@, now) <= u32::MAX,
        ensures
            r@ == page_bytes(self@, now),
    {
        let ghost cs = self@;
        let ghost recs = records(cs, now);
        let ghost table = offset_table(cs, now);
        let n = self.cookies.len();
        let mut built: Vec<Vec<u8>> = Vec::new();
        let mut total: usize = 0;
        let mut i: usize = 0;
        while i < n
            invariant
                n == self.cookies@.len() == cs.len() == recs.len(),
                cs == self@,
                recs == records(cs, now),
                page_len(cs, now) <= u32::MAX,
                0 <= i <= n,
                built@.len() == i,
                forall|j: int| 0 <= j < i ==> (#[trigger] built@[j])@ == recs[j],
                total == concat_start(recs, i as int),
            decreases n - i,
        {
            proof {
                lemma_concat_slice(recs, i as int);
                lemma_concat_prefix(recs, i as int + 1, n as int);
                assert(recs.take(n as int) =~= recs);
                assert(cs[i as int] == self.cookies@[i as int]@);
                lemma_cookie_bytes_len(cs[i as int], now);
            }
            let rec = self.cookies[i].build(now);
            total = total + rec.len();
            built.push(rec);
            i = i + 1;
        }
        let mut buf: Vec<u8> = Vec::new();
        buf.push(0);
        buf.push(0);
        buf.push(1);
        buf.push(0);
        push_u32_le(&mut buf, n as u32);
        assert(buf@ =~= page_prefix(n as int));
        let header: usize = 12 + 4 * n;
        let mut off: usize = header;
        i = 0;
        while i < n
            invariant
                n == cs.len() == recs.len() == table.len() == built@.len(),
                recs == records(cs, now),
                table == offset_table(cs, now),
                forall|j: int| 0 <= j < n ==> (#[trigger] built@[j])@ == recs[j],
                page_len(cs, now) <= u32::MAX,
                header == page_header_len(n as int),
                0 <= i <= n,
                off == header + concat_start(recs, i as int),
                buf@ == page_prefix(n as int) + concat(table.take(i as int)),
            decreases n - i,
        {
            proof {
                lemma_concat_slice(recs, i as int);
                lemma_concat_prefix(recs, i as int + 1, n as int);
                assert(recs.take(n as int) =~= recs);
                lemma_concat_step(table, i as int);
            }
            push_u32_le(&mut buf, off as u32);
            off = off + built[i].len();
            i = i + 1;
        }
        assert(table.take(n as int) =~= table);
        buf.push(0);
        buf.push(0);
        buf.push(0);
        buf.push(0);
        let ghost before = buf@;
        i = 0;
        while i < n
            invariant
                n == recs.len() == built@.len(),
                forall|j: int| 0 <= j < n ==> (#[trigger] built@[j])@ == recs[j],
                0 <= i <= n,
                buf@ == before + concat(recs.take(i as int)),
            decreases n - i,
        {
            proof {
                lemma_concat_step(recs, i as int);
            }
            push_bytes(&mut buf, built[i].as_slice());
            i = i + 1;
        }
        assert(recs.take(n as int) =~= recs);
        assert(buf@ =~= page_bytes(cs, now));
        buf
    }

    /// Decodes a page. Fails only when the cookie count or the offset table
    /// cannot be read; a cookie whose record cannot be read is left out.
    pub fn parse(page_buf: &[u8]) -> (r: Result<Page, FormatError>)
        ensures
            match parse_page(page_buf@) {
                Ok(cs) => r matches Ok(p) && p@ == cs,
                Err(e) => r == Err::<Page, FormatError>(e),
            },
    {
        let count = match read_u32_le(page_buf, 4) {
            Some(n) => n as usize,
            None => {
                return Err(FormatError::CookieCount);
            },
        };
        let mut offsets: Vec<u32> = Vec::new();
        let mut i: usize = 0;
        while i < count
            invariant
                page_buf@.len() >= 8,
                count == cookie_count(page_buf@),
                i <= count,
                8 + 4 * i <= page_buf.len(),
                offsets@.len() == i,
                forall|j: int| 0 <= j < i ==> #[trigger] offsets@[j] == table_entry(page_buf@, j),
            decreases count - i,
        {
            match read_u32_le(page_buf, 8 + 4 * i) {
                Some(off) => offsets.push(off),
                None => {
                    return Err(FormatError::CookieOffsetTable);
                },
            }
            i = i + 1;
        }
        let mut cookies: Vec<Cookie> = Vec::new();
        let ghost b = page_buf@;
        i = 0;
        while i < count
            invariant
                count == offsets@.len(),
                forall|j: int| 0 <= j < count ==> #[trigger] offsets@[j] == table_entry(b, j),
                b == page_buf@,
                i <= count,
                cookies@.map_values(|c: Cookie| c@) == page_cookies(b, i as nat),
            decreases count - i,
        {
            match parse_record_at(page_buf, offsets[i] as usize) {
                Some(c) => {
                    cookies.push(c);
                },
                None => {},
            }
            i = i + 1;
            assert(cookies@.map_values(|c: Cookie| c@) =~= page_cookies(b, i as nat));
        }
        Ok(Page { cookies })
    }
}

} // verus!
