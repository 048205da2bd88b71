use binarycookies::bytes::{read_cstring, read_i32_le, read_u32_be, read_u32_le, read_u64_le, write_u32_le};
use binarycookies::{
    to_cocoa_timestamp, to_unix_timestamp, BinaryCookies, Cookie, CookieFlags, FormatError, Page,
    UnixTime,
};
use binarycookies::session::session_cookie_file;

const COCOA: i64 = 978307200;

fn now() -> UnixTime {
    UnixTime { secs: COCOA + 700_000_000 }
}

fn cookie(domain: &str, name: &str, value: &str, secure: bool, http_only: bool) -> Cookie {
    Cookie::new(
        domain.to_string(),
        name.to_string(),
        value.to_string(),
        None,
        CookieFlags { secure, http_only },
        None,
        None,
    )
}

fn le32(b: &[u8], off: usize) -> u32 {
    u32::from_le_bytes([b[off], b[off + 1], b[off + 2], b[off + 3]])
}

fn be32(b: &[u8], off: usize) -> u32 {
    u32::from_be_bytes([b[off], b[off + 1], b[off + 2], b[off + 3]])
}

#[test]
fn single_cookie_scenario() {
    let page = Page::new(vec![cookie(".example.com", "SID", "abc", true, true)]);
    let bytes = BinaryCookies::build(&[page], now());
    let parsed = BinaryCookies::parse(&bytes).unwrap();
    assert_eq!(parsed.pages.len(), 1);
    assert_eq!(parsed.pages[0].cookies.len(), 1);
    let c = &parsed.pages[0].cookies[0];
    assert!(c.secure);
    assert!(c.http_only);
    assert_eq!(c.path.as_deref(), Some("/"));
    assert_eq!(c.domain, ".example.com");
    assert_eq!(c.name, "SID");
    assert_eq!(c.value, "abc");
}

#[test]
fn round_trip_keeps_text_flags_and_path() {
    let mut c = cookie("host.test", "n", "v=1;x", false, true);
    c.path = Some("/a/b".to_string());
    c.expiration = Some(UnixTime { secs: COCOA + 5 });
    c.creation = Some(UnixTime { secs: COCOA + 9 });
    let bytes = BinaryCookies::build(&[Page::new(vec![c])], now());
    let parsed = BinaryCookies::parse(&bytes).unwrap();
    let d = &parsed.pages[0].cookies[0];
    assert_eq!(d.domain, "host.test");
    assert_eq!(d.name, "n");
    assert_eq!(d.value, "v=1;x");
    assert_eq!(d.path.as_deref(), Some("/a/b"));
    assert!(!d.secure);
    assert!(d.http_only);
}

#[test]
fn round_trip_non_ascii_text() {
    let c = cookie("exämple.org", "ключ", "值", false, false);
    let bytes = BinaryCookies::build(&[Page::new(vec![c])], now());
    let parsed = BinaryCookies::parse(&bytes).unwrap();
    let d = &parsed.pages[0].cookies[0];
    assert_eq!(d.domain, "exämple.org");
    assert_eq!(d.name, "ключ");
    assert_eq!(d.value, "值");
}

#[test]
fn many_pages_keep_count_and_order() {
    let p1 = Page::new(vec![
        cookie("a.com", "one", "1", false, false),
        cookie("b.com", "two", "2", true, false),
        cookie("c.com", "three", "3", false, true),
    ]);
    let p2 = Page::new(vec![]);
    let p3 = Page::new(vec![cookie("d.com", "four", "4", true, true)]);
    let bytes = BinaryCookies::build(&[p1, p2, p3], now());
    let parsed = BinaryCookies::parse(&bytes).unwrap();
    assert_eq!(parsed.pages.len(), 3);
    assert_eq!(parsed.pages[0].cookies.len(), 3);
    assert_eq!(parsed.pages[1].cookies.len(), 0);
    assert_eq!(parsed.pages[2].cookies.len(), 1);
    let names: Vec<&str> = parsed.pages[0].cookies.iter().map(|c| c.name.as_str()).collect();
    assert_eq!(names, vec!["one", "two", "three"]);
    assert_eq!(parsed.pages[0].cookies[1].domain, "b.com");
    assert!(parsed.pages[0].cookies[1].secure);
    assert!(!parsed.pages[0].cookies[1].http_only);
    assert_eq!(parsed.pages[2].cookies[0].value, "4");
}

#[test]
fn zero_page_count_gives_no_pages() {
    let buf = [b'c', b'o', b'o', b'k', 0, 0, 0, 0];
    let parsed = BinaryCookies::parse(&buf).unwrap();
    assert_eq!(parsed.pages.len(), 0);
    let built = BinaryCookies::build(&[], now());
    assert_eq!(BinaryCookies::parse(&built).unwrap().pages.len(), 0);
}

#[test]
fn short_buffer_is_refused() {
    assert_eq!(BinaryCookies::parse(b"cook").unwrap_err(), FormatError::TooSmall);
    assert_eq!(BinaryCookies::parse(&[]).unwrap_err(), FormatError::TooSmall);
}

#[test]
fn foreign_magic_is_refused() {
    let buf = [b'x', b'x', b'x', b'x', 0, 0, 0, 0];
    assert_eq!(BinaryCookies::parse(&buf).unwrap_err(), FormatError::BadMagic);
}

#[test]
fn truncated_page_size_table_is_refused() {
    let buf = [b'c', b'o', b'o', b'k', 0, 0, 0, 2, 0, 0, 0, 12];
    assert_eq!(BinaryCookies::parse(&buf).unwrap_err(), FormatError::PageSizeTable);
}

#[test]
fn page_errors() {
    assert_eq!(Page::parse(&[0, 0, 1, 0, 1]).unwrap_err(), FormatError::CookieCount);
    assert_eq!(Page::parse(&[0, 0, 1, 0, 2, 0, 0, 0, 12, 0, 0, 0]).unwrap_err(), FormatError::CookieOffsetTable);
    assert!(!FormatError::TooSmall.message().is_empty());
}

#[test]
fn offset_past_end_skips_only_that_cookie() {
    let page = Page::new(vec![
        cookie("a.com", "first", "1", false, false),
        cookie("b.com", "second", "2", false, false),
    ]);
    let mut bytes = page.build(now());
    let len = bytes.len() as u32;
    bytes[8..12].copy_from_slice(&(len + 100).to_le_bytes());
    let parsed = Page::parse(&bytes).unwrap();
    assert_eq!(parsed.cookies.len(), 1);
    assert_eq!(parsed.cookies[0].name, "second");
}

#[test]
fn bad_cookie_sizes_are_skipped() {
    let page = Page::new(vec![
        cookie("a.com", "first", "1", false, false),
        cookie("b.com", "second", "2", false, false),
        cookie("c.com", "third", "3", false, false),
    ]);
    let mut bytes = page.build(now());
    let o0 = le32(&bytes, 8) as usize;
    let o1 = le32(&bytes, 12) as usize;
    bytes[o0..o0 + 4].copy_from_slice(&(-5i32).to_le_bytes());
    bytes[o1..o1 + 4].copy_from_slice(&0u32.to_le_bytes());
    let parsed = Page::parse(&bytes).unwrap();
    assert_eq!(parsed.cookies.len(), 1);
    assert_eq!(parsed.cookies[0].name, "third");
}

#[test]
fn short_record_is_skipped() {
    // one offset pointing at a record that declares 20 bytes
    let mut page = vec![0, 0, 1, 0, 1, 0, 0, 0, 16, 0, 0, 0, 0, 0, 0, 0];
    page.extend_from_slice(&20u32.to_le_bytes());
    page.extend_from_slice(&[0u8; 16]);
    let parsed = Page::parse(&page).unwrap();
    assert_eq!(parsed.cookies.len(), 0);
}

#[test]
fn unreadable_strings_become_empty() {
    let c = cookie("a.com", "n", "v", false, false);
    let mut rec = c.build(now());
    // domain offset out of range, name offset on invalid UTF-8
    rec[16..20].copy_from_slice(&1000u32.to_le_bytes());
    let name_off = le32(&rec, 20) as usize;
    rec[name_off] = 0xff;
    let page = Page::new(vec![]);
    let mut bytes = page.build(now());
    bytes[4..8].copy_from_slice(&1u32.to_le_bytes());
    bytes.extend_from_slice(&[0, 0, 0, 0]);
    let off = bytes.len() as u32;
    bytes[8..12].copy_from_slice(&off.to_le_bytes());
    bytes.extend_from_slice(&rec);
    let parsed = Page::parse(&bytes).unwrap();
    let d = &parsed.cookies[0];
    assert_eq!(d.domain, "");
    assert_eq!(d.name, "");
    assert_eq!(d.value, "v");
    assert_eq!(d.path.as_deref(), Some("/"));
}

#[test]
fn skipped_and_truncated_pages() {
    let p = Page::new(vec![cookie("a.com", "x", "1", false, false)]).build(now());
    let mut buf = b"cook".to_vec();
    buf.extend_from_slice(&3u32.to_be_bytes());
    buf.extend_from_slice(&0u32.to_be_bytes());
    buf.extend_from_slice(&(p.len() as u32).to_be_bytes());
    buf.extend_from_slice(&(p.len() as u32 + 1000).to_be_bytes());
    buf.extend_from_slice(&p);
    let parsed = BinaryCookies::parse(&buf).unwrap();
    assert_eq!(parsed.pages.len(), 1);
    assert_eq!(parsed.pages[0].cookies[0].name, "x");
}

#[test]
fn broken_page_is_left_out() {
    let p = Page::new(vec![cookie("a.com", "x", "1", false, false)]).build(now());
    let mut buf = b"cook".to_vec();
    buf.extend_from_slice(&2u32.to_be_bytes());
    buf.extend_from_slice(&4u32.to_be_bytes());
    buf.extend_from_slice(&(p.len() as u32).to_be_bytes());
    buf.extend_from_slice(&[0, 0, 1, 0]);
    buf.extend_from_slice(&p);
    let parsed = BinaryCookies::parse(&buf).unwrap();
    assert_eq!(parsed.pages.len(), 1);
    assert_eq!(parsed.pages[0].cookies[0].name, "x");
}

#[test]
fn cookie_record_layout() {
    let mut c = cookie("ab", "c", "de", true, true);
    c.expiration = Some(UnixTime { secs: COCOA + 10 });
    c.creation = Some(UnixTime { secs: COCOA + 2 });
    let rec = c.build(now());
    // strings: "ab\0" "c\0" "/\0" "de\0"
    assert_eq!(rec.len(), 56 + 3 + 2 + 2 + 3);
    assert_eq!(le32(&rec, 0), rec.len() as u32);
    assert_eq!(le32(&rec, 4), 1);
    assert_eq!(le32(&rec, 8), 5);
    assert_eq!(le32(&rec, 12), 0);
    assert_eq!(le32(&rec, 16), 56);
    assert_eq!(le32(&rec, 20), 59);
    assert_eq!(le32(&rec, 24), 61);
    assert_eq!(le32(&rec, 28), 63);
    assert_eq!(le32(&rec, 32), 0);
    assert_eq!(le32(&rec, 36), 0);
    assert_eq!(&rec[40..48], &10.0f64.to_le_bytes());
    assert_eq!(&rec[48..56], &2.0f64.to_le_bytes());
    assert_eq!(&rec[56..], b"ab\0c\0/\0de\0");
}

#[test]
fn flag_bits() {
    let only_secure = cookie("a", "b", "c", true, false).build(now());
    assert_eq!(le32(&only_secure, 8), 1);
    let only_http = cookie("a", "b", "c", false, true).build(now());
    assert_eq!(le32(&only_http, 8), 4);
    let none = cookie("a", "b", "c", false, false).build(now());
    assert_eq!(le32(&none, 8), 0);
}

#[test]
fn flags_other_bits_ignored_on_decode() {
    let page = Page::new(vec![cookie("a.com", "n", "v", false, false)]);
    let mut bytes = page.build(now());
    let o = le32(&bytes, 8) as usize;
    bytes[o + 8..o + 12].copy_from_slice(&(0xffff_fffau32).to_le_bytes());
    let parsed = Page::parse(&bytes).unwrap();
    assert!(!parsed.cookies[0].secure);
    assert!(!parsed.cookies[0].http_only);
    bytes[o + 8..o + 12].copy_from_slice(&(0x0000_0105u32).to_le_bytes());
    let parsed = Page::parse(&bytes).unwrap();
    assert!(parsed.cookies[0].secure);
    assert!(parsed.cookies[0].http_only);
}

#[test]
fn missing_times_use_now() {
    let rec = cookie("a", "b", "c", false, false).build(UnixTime { secs: COCOA + 42 });
    assert_eq!(&rec[40..48], &42.0f64.to_le_bytes());
    assert_eq!(&rec[48..56], &42.0f64.to_le_bytes());
}

#[test]
fn decoded_times_follow_the_reader_offsets() {
    let page = Page::new(vec![cookie("a", "b", "c", false, false)]);
    let bytes = page.build(now());
    let parsed = Page::parse(&bytes).unwrap();
    let d = &parsed.cookies[0];
    // expiration is read from the zero comment offsets
    assert_eq!(d.expiration, Some(UnixTime { secs: COCOA }));
    // creation is read from the path and value offsets (58 + 60 * 2^32 as bits)
    let bits = 60u64 + (62u64 << 32);
    assert_eq!(d.creation, Some(to_unix_timestamp(bits)));
}

#[test]
fn page_layout() {
    let page = Page::new(vec![cookie("a", "b", "c", false, false), cookie("d", "e", "f", false, false)]);
    let bytes = page.build(now());
    assert_eq!(&bytes[0..4], &[0, 0, 1, 0]);
    assert_eq!(le32(&bytes, 4), 2);
    assert_eq!(le32(&bytes, 8), 20);
    let first_len = le32(&bytes, 20);
    assert_eq!(le32(&bytes, 12), 20 + first_len);
    assert_eq!(le32(&bytes, 16), 0);
    assert_eq!(bytes.len() as u32, 20 + 2 * first_len);
}

#[test]
fn container_layout_checksum_and_trailer() {
    let page = Page::new(vec![cookie("a", "b", "c", true, false)]);
    let page_bytes = page.build(now());
    let bytes = BinaryCookies::build(&[page], now());
    assert_eq!(&bytes[0..4], b"cook");
    assert_eq!(be32(&bytes, 4), 1);
    assert_eq!(be32(&bytes, 8), page_bytes.len() as u32);
    assert_eq!(&bytes[12..12 + page_bytes.len()], &page_bytes[..]);
    let mut sum = 0u32;
    let mut i = 0;
    while i < page_bytes.len() {
        sum = sum.wrapping_add(page_bytes[i] as u32);
        i += 4;
    }
    let end = 12 + page_bytes.len();
    assert_eq!(be32(&bytes, end), sum);
    assert_eq!(&bytes[end + 4..], &[0x07, 0x17, 0x20, 0x05, 0x00, 0x00, 0x00, 0x4B]);
    assert_eq!(bytes.len(), end + 12);
}

#[test]
fn checksum_accumulates_across_pages() {
    let p1 = Page::new(vec![cookie("a", "b", "c", true, false)]);
    let p2 = Page::new(vec![cookie("dd", "e", "ff", false, true)]);
    let b1 = p1.build(now());
    let b2 = p2.build(now());
    let bytes = BinaryCookies::build(&[p1, p2], now());
    let lead = |b: &[u8]| b.iter().step_by(4).fold(0u32, |s, x| s.wrapping_add(*x as u32));
    let end = 16 + b1.len() + b2.len();
    assert_eq!(be32(&bytes, end), lead(&b1).wrapping_add(lead(&b2)));
}

#[test]
fn cocoa_epoch_clamps() {
    assert_eq!(to_unix_timestamp(0.0f64.to_bits()), UnixTime { secs: COCOA });
    assert_eq!(to_unix_timestamp((-5.0f64).to_bits()), UnixTime { secs: COCOA });
    assert_eq!(to_unix_timestamp(f64::NAN.to_bits()), UnixTime { secs: COCOA });
    assert_eq!(to_unix_timestamp((-0.0f64).to_bits()), UnixTime { secs: COCOA });
}

#[test]
fn cocoa_to_unix_truncates() {
    assert_eq!(to_unix_timestamp(12345.9f64.to_bits()), UnixTime { secs: COCOA + 12345 });
    assert_eq!(to_unix_timestamp(0.75f64.to_bits()), UnixTime { secs: COCOA });
    assert_eq!(to_unix_timestamp(1.0e15f64.to_bits()), UnixTime { secs: COCOA + 1_000_000_000_000_000 });
    assert_eq!(to_unix_timestamp(f64::INFINITY.to_bits()), UnixTime { secs: i64::MAX });
    assert_eq!(to_unix_timestamp(1.0e300f64.to_bits()), UnixTime { secs: i64::MAX });
    assert_eq!(to_unix_timestamp(f64::MIN_POSITIVE.to_bits()), UnixTime { secs: COCOA });
}

#[test]
fn unix_to_cocoa_matches_float_conversion() {
    assert_eq!(to_cocoa_timestamp(UnixTime { secs: COCOA }), 0.0f64.to_bits());
    assert_eq!(to_cocoa_timestamp(UnixTime { secs: COCOA + 1 }), 1.0f64.to_bits());
    assert_eq!(to_cocoa_timestamp(UnixTime { secs: 0 }), (-978307200.0f64).to_bits());
    assert_eq!(to_cocoa_timestamp(UnixTime { secs: -1 }), 0.0f64.to_bits());
    for secs in [1i64, 12345, COCOA + 86400 * 365, (1i64 << 53) + 3, (1i64 << 60) + 12345, i64::MAX, i64::MAX - 2048] {
        let expected = ((secs - COCOA) as f64).to_bits();
        assert_eq!(to_cocoa_timestamp(UnixTime { secs }), expected, "secs = {}", secs);
    }
}

#[test]
fn timestamp_round_trip() {
    for secs in [COCOA, COCOA + 1, COCOA + 1_700_000_000, COCOA + (1i64 << 52)] {
        let t = UnixTime { secs };
        assert_eq!(to_unix_timestamp(to_cocoa_timestamp(t)), t);
    }
}

#[test]
fn integer_reads() {
    let b = [1u8, 2, 3, 4, 5, 6, 7, 8, 0xff];
    assert_eq!(read_u32_be(&b, 0), Some(0x01020304));
    assert_eq!(read_u32_le(&b, 0), Some(0x04030201));
    assert_eq!(read_u32_le(&b, 5), Some(0xff080706));
    assert_eq!(read_u32_le(&b, 6), None);
    assert_eq!(read_u32_be(&b, 100), None);
    assert_eq!(read_i32_le(&b, 5), Some(0xff080706u32 as i32));
    assert_eq!(read_i32_le(&b, 0), Some(0x04030201));
    assert_eq!(read_u64_le(&b, 0), Some(0x0807060504030201));
    assert_eq!(read_u64_le(&b, 2), None);
    assert_eq!(read_u64_le(&b, usize::MAX), None);
}

#[test]
fn integer_write_in_and_out_of_range() {
    let mut b = vec![0u8; 6];
    write_u32_le(&mut b, 1, 0x0a0b0c0d);
    assert_eq!(b, vec![0, 0x0d, 0x0c, 0x0b, 0x0a, 0]);
    write_u32_le(&mut b, 3, 0xffffffff);
    assert_eq!(b, vec![0, 0x0d, 0x0c, 0x0b, 0x0a, 0]);
}

#[test]
fn cstring_reads() {
    let b = b"ab\0\xc3\xa9\0\xff\0tail";
    assert_eq!(read_cstring(b, 0), Some("ab".to_string()));
    assert_eq!(read_cstring(b, 1), Some("b".to_string()));
    assert_eq!(read_cstring(b, 2), Some("".to_string()));
    assert_eq!(read_cstring(b, 3), Some("é".to_string()));
    assert_eq!(read_cstring(b, 6), None);
    assert_eq!(read_cstring(b, 8), None);
    assert_eq!(read_cstring(b, 12), None);
    assert_eq!(read_cstring(b, 100), None);
}

#[test]
fn session_cookie_file_reads_back() {
    let bytes = session_cookie_file("token-value".to_string(), UnixTime { secs: COCOA + 100 });
    let parsed = BinaryCookies::parse(&bytes).unwrap();
    assert_eq!(parsed.pages.len(), 1);
    let c = &parsed.pages[0].cookies[0];
    assert_eq!(c.domain, ".roblox.com");
    assert_eq!(c.name, ".ROBLOSECURITY");
    assert_eq!(c.value, "token-value");
    assert_eq!(c.path.as_deref(), Some("/"));
    assert!(c.secure && c.http_only);
    let page = le32(&bytes, 0); // "cook" read little-endian
    assert_eq!(page, u32::from_le_bytes(*b"cook"));
    let rec_start = 12 + 16;
    assert_eq!(&bytes[rec_start + 40..rec_start + 48], &(100.0f64 + 2592000.0).to_le_bytes());
    assert_eq!(&bytes[rec_start + 48..rec_start + 56], &100.0f64.to_le_bytes());
}
