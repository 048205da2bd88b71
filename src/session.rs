//! The cookie file that signs a profile in to its session.
use crate::bytes::concat;
use crate::container::{container_bytes, pages_view, BinaryCookies};
use crate::cookie::{lemma_cookie_bytes_len, record_len, Cookie, CookieView};
use crate::page::{page_len, records, Page};
use crate::time::UnixTime;
use vstd::prelude::*;
use vstd::string::*;
use vstd::utf8::{encode_utf8, is_ascii_chars_encode_utf8};

verus! {

/// How long a written session stays valid: thirty days.
pub const SESSION_LIFETIME_SECS: i64 = 2592000;

/// The session cookie holding `value`, created at `now`.
pub open spec fn session_cookie(value: Seq<char>, now: UnixTime) -> CookieView {
    CookieView {
        domain: ".roblox.com"@,
        name: ".ROBLOSECURITY"@,
        path: Some(seq!['/']),
        value,
        secure: true,
        http_only: true,
        expiration: Some(UnixTime { secs: (now.secs + SESSION_LIFETIME_SECS) as i64 }),
        creation: Some(now),
    }
}

/// The cookie file holding only the session cookie for `value`: one page
/// with the `.ROBLOSECURITY` cookie of `.roblox.com`, path `/`, secure and
/// HTTP-only, created at `now` and expiring thirty days later.
pub fn session_cookie_file(value: String, now: UnixTime) -> (r: Vec<u8>)
    requires
        now.secs <= i64::MAX - SESSION_LIFETIME_SECS,
        encode_utf8(value@).len() <= 0x7fff_0000,
    ensures
        r@ == container_bytes(seq![seq![session_cookie(value@, now)]], now),
{
    let ghost v = value@;
    let cookie = Cookie {
        domain: String::from_str(".roblox.com"),
        name: String::from_str(".ROBLOSECURITY"),
        path: Some(String::from_str("/")),
        value,
        secure: true,
        http_only: true,
        expiration: Some(UnixTime { secs: now.secs + SESSION_LIFETIME_SECS }),
        creation: Some(now),
    };
    proof {
        reveal_strlit("/");
        reveal_strlit(".roblox.com");
        reveal_strlit(".ROBLOSECURITY");
    }
    let ghost c = cookie@;
    assert(c.domain == ".roblox.com"@);
    assert(c.name == ".ROBLOSECURITY"@);
    assert(c.path == Some(seq!['/']));
    assert(c.value == v);
    assert(c == session_cookie(v, now));
    proof {
        is_ascii_chars_encode_utf8(".roblox.com"@);
        is_ascii_chars_encode_utf8(".ROBLOSECURITY"@);
        is_ascii_chars_encode_utf8(seq!['/']);
    }
    let page = Page::new(vec![cookie]);
    let ghost cs = page@;
    assert(cs =~= seq![c]);
    proof {
        let recs = records(cs, now);
        lemma_cookie_bytes_len(c, now);
        assert(recs.drop_last() =~= Seq::<Seq<u8>>::empty());
        assert(concat(recs) == concat(recs.drop_last()) + recs[0]);
        assert(page_len(cs, now) == 16 + record_len(c));
    }
    let pages = vec![page];
    assert(pages_view(pages@) =~= seq![cs]);
    BinaryCookies::build(pages.as_slice(), now)
}

} // verus!
