//! One cookie record and its fixed-layout binary form.
use crate::bytes::{push_bytes, push_u32_le, push_u64_le, u32_le_bytes, u64_le_bytes};
use crate::time::{cocoa_of_unix, to_cocoa_timestamp, UnixTime};
use vstd::prelude::*;
use vstd::utf8::encode_utf8;

verus! {

/// Size of the fixed header that precedes a cookie's strings.
pub const COOKIE_HEADER_LEN: u32 = 56;

/// Flag bit for a cookie sent only over secure connections.
pub const FLAG_SECURE: u32 = 1;

/// Flag bit for a cookie hidden from scripts.
pub const FLAG_HTTP_ONLY: u32 = 4;

/// One stored browser cookie.
#[derive(Clone, Debug)]
pub struct Cookie {
    pub domain: String,
    pub name: String,
    pub path: Option<String>,
    pub value: String,
    pub secure: bool,
    pub http_only: bool,
    pub expiration: Option<UnixTime>,
    pub creation: Option<UnixTime>,
}

/// The two flags a cookie carries.
#[derive(Clone, Copy, Debug)]
pub struct CookieFlags {
    pub secure: bool,
    pub http_only: bool,
}

/// A cookie as plain values.
pub ghost struct CookieView {
    pub domain: Seq<char>,
    pub name: Seq<char>,
    pub path: Option<Seq<char>>,
    pub value: Seq<char>,
    pub secure: bool,
    pub http_only: bool,
    pub expiration: Option<UnixTime>,
    pub creation: Option<UnixTime>,
}

impl View for Cookie {
    type V = CookieView;

    open spec fn view(&self) -> CookieView {
        CookieView {
            domain: self.domain@,
            name: self.name@,
            path: match self.path {
                Some(p) => Some(p@),
                None => None,
            },
            value: self.value@,
            secure: self.secure,
            http_only: self.http_only,
            expiration: self.expiration,
            creation: self.creation,
        }
    }
}

/// Text holds no NUL character.
pub open spec fn nul_free(s: Seq<char>) -> bool {
    forall|i: int| 0 <= i < s.len() ==> s[i] != '\0'
}

impl CookieView {
    /// The path written for the cookie: its own, or `/` when it has none.
    pub open spec fn path_or_root(self) -> Seq<char> {
        match self.path {
            Some(p) => p,
            None => seq!['/'],
        }
    }

    /// Every text field can be stored NUL-terminated.
    pub open spec fn wf(self) -> bool {
        &&& nul_free(self.domain)
        &&& nul_free(self.name)
        &&& nul_free(self.value)
        &&& nul_free(self.path_or_root())
    }
}

/// UTF-8 bytes of `s` followed by a NUL.
pub open spec fn c_text(s: Seq<char>) -> Seq<u8> {
    encode_utf8(s).push(0)
}

/// The flags word: bit 0 for `secure`, bit 2 for `http_only`, no other bit.
pub open spec fn flags_word(secure: bool, http_only: bool) -> u32 {
    (if secure {
        FLAG_SECURE
    } else {
        0u32
    }) | (if http_only {
        FLAG_HTTP_ONLY
    } else {
        0u32
    })
}

/// Offset of the domain, name, path and value strings, and the record size.
pub open spec fn string_offsets(c: CookieView) -> (int, int, int, int, int) {
    let d = COOKIE_HEADER_LEN as int;
    let n = d + c_text(c.domain).len();
    let p = n + c_text(c.name).len();
    let v = p + c_text(c.path_or_root()).len();
    (d, n, p, v, v + c_text(c.value).len())
}

/// Length of the binary record of `c`.
pub open spec fn record_len(c: CookieView) -> int {
    string_offsets(c).4
}

/// Size, version, flags and the unused port flag.
pub open spec fn record_lead(c: CookieView) -> Seq<u8> {
    u32_le_bytes(record_len(c) as u32) + u32_le_bytes(1) + u32_le_bytes(
        flags_word(c.secure, c.http_only),
    ) + u32_le_bytes(0)
}

/// Offsets of the four strings.
pub open spec fn record_offsets(c: CookieView) -> Seq<u8> {
    let (d, n, p, v, size) = string_offsets(c);
    u32_le_bytes(d as u32) + u32_le_bytes(n as u32) + u32_le_bytes(p as u32) + u32_le_bytes(
        v as u32,
    )
}

/// The unused comment offsets, then expiration and creation times.
pub open spec fn record_times(c: CookieView, now: UnixTime) -> Seq<u8> {
    let expiration = match c.expiration {
        Some(t) => t,
        None => now,
    };
    let creation = match c.creation {
        Some(t) => t,
        None => now,
    };
    u32_le_bytes(0) + u32_le_bytes(0) + u64_le_bytes(cocoa_of_unix(expiration)) + u64_le_bytes(
        cocoa_of_unix(creation),
    )
}

/// Domain, name, path and value, each NUL-terminated.
pub open spec fn record_text(c: CookieView) -> Seq<u8> {
    c_text(c.domain) + c_text(c.name) + c_text(c.path_or_root()) + c_text(c.value)
}

/// The binary record of `c`; `now` stands in for a missing timestamp.
#[verifier::opaque]
pub open spec fn cookie_bytes(c: CookieView, now: UnixTime) -> Seq<u8> {
    record_lead(c) + record_offsets(c) + record_times(c, now) + record_text(c)
}

pub proof fn lemma_cookie_bytes_len(c: CookieView, now: UnixTime)
    ensures
        cookie_bytes(c, now).len() == record_len(c),
{
    reveal(cookie_bytes);
}

/// Appends `text` and a NUL.
fn push_c_text(buf: &mut Vec<u8>, text: &str)
    ensures
        final(buf)@ == old(buf)@ + c_text(text@),
{
    push_bytes(buf, text.as_bytes());
    buf.push(0);
    assert(final(buf)@ =~= old(buf)@ + c_text(text@));
}

impl Cookie {
    pub fn new(
        domain: String,
        name: String,
        value: String,
        path: Option<String>,
        flags: CookieFlags,
        expiration: Option<UnixTime>,
        creation: Option<UnixTime>,
    ) -> (r: Self)
        ensures
            r@ == (CookieView {
                domain: domain@,
                name: name@,
                path: match path {
                    Some(p) => Some(p@),
                    None => None,
                },
                value: value@,
                secure: flags.secure,
                http_only: flags.http_only,
                expiration,
                creation,
            }),
    {
        Cookie {
            domain,
            name,
            path,
            value,
            secure: flags.secure,
            http_only: flags.http_only,
            expiration,
            creation,
        }
    }

    /// Encodes the cookie as a self-contained binary record; `now` is written
    /// for a missing expiration or creation time.
    pub fn build(&self, now: UnixTime) -> (r: Vec<u8>)
        requires
            record_len(self@) <= u32::MAX,
        ensures
            r@ == cookie_bytes(self@, now),
    {
        let path: &str = match &self.path {
            Some(p) => p.as_str(),
            None => "/",
        };
        proof {
            reveal_strlit("/");
        }
        assert(path@ == self@.path_or_root());
        let domain_len = self.domain.as_str().as_bytes().len();
        let name_len = self.name.as_str().as_bytes().len();
        let path_len = path.as_bytes().len();
        let value_len = self.value.as_str().as_bytes().len();
        let domain_off: u32 = COOKIE_HEADER_LEN;
        let name_off: u32 = domain_off + domain_len as u32 + 1;
        let path_off: u32 = name_off + name_len as u32 + 1;
        let value_off: u32 = path_off + path_len as u32 + 1;
        let size: u32 = value_off + value_len as u32 + 1;
        let flags: u32 = (if self.secure {
            FLAG_SECURE
        } else {
            0u32
        }) | (if self.http_only {
            FLAG_HTTP_ONLY
        } else {
            0u32
        });
        let expiration = match self.expiration {
            Some(t) => t,
            None => now,
        };
        let creation = match self.creation {
            Some(t) => t,
            None => now,
        };
        let ghost c = self@;
        let mut buf: Vec<u8> = Vec::new();
        push_u32_le(&mut buf, size);
        push_u32_le(&mut buf, 1);
        push_u32_le(&mut buf, flags);
        push_u32_le(&mut buf, 0);
        assert(buf@ =~= record_lead(c));
        let ghost lead = buf@;
        push_u32_le(&mut buf, domain_off);
        push_u32_le(&mut buf, name_off);
        push_u32_le(&mut buf, path_off);
        push_u32_le(&mut buf, value_off);
        assert(buf@ =~= lead + record_offsets(c));
        let ghost offsets = buf@;
        push_u32_le(&mut buf, 0);
        push_u32_le(&mut buf, 0);
        push_u64_le(&mut buf, to_cocoa_timestamp(expiration));
        push_u64_le(&mut buf, to_cocoa_timestamp(creation));
        assert(buf@ =~= offsets + record_times(c, now));
        let ghost header = buf@;
        push_c_text(&mut buf, self.domain.as_str());
        push_c_text(&mut buf, self.name.as_str());
        push_c_text(&mut buf, path);
        push_c_text(&mut buf, self.value.as_str());
        assert(buf@ =~= header + record_text(c));
        proof {
            reveal(cookie_bytes);
        }
        assert(buf@ =~= cookie_bytes(self@, now));
        buf
    }
}

} // verus!
