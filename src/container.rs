//! The whole file: magic, page-size table, pages, checksum and trailer.
use crate::bytes::{
    be_u32,
    concat,
    fits,
    lemma_concat_step,
    push_bytes,
    push_u32_be,
    read_u32_be,
    u32_be_bytes,
};
use crate::cookie::CookieView;
use crate::error::FormatError;
use crate::page::{lemma_page_bytes_len, page_bytes, page_len, parse_page, Page};
use crate::time::UnixTime;
use vstd::prelude::*;

verus! {

/// A whole cookie file: an ordered sequence of pages.
#[derive(Clone, Debug)]
pub struct BinaryCookies {
    pub pages: Vec<Page>,
}

impl View for BinaryCookies {
    type V = Seq<Seq<CookieView>>;

    open spec fn view(&self) -> Seq<Seq<CookieView>> {
        self.pages@.map_values(|p: Page| p@)
    }
}

/// The pages of a slice, as plain values.
pub open spec fn pages_view(pages: Seq<Page>) -> Seq<Seq<CookieView>> {
    pages.map_values(|p: Page| p@)
}

/// `cook`: the first four bytes of every file.
pub open spec fn magic() -> Seq<u8> {
    seq![0x63u8, 0x6fu8, 0x6fu8, 0x6bu8]
}

/// The eight bytes that end every file.
pub open spec fn trailer() -> Seq<u8> {
    seq![0x07u8, 0x17u8, 0x20u8, 0x05u8, 0x00u8, 0x00u8, 0x00u8, 0x4bu8]
}

/// Sum of bytes `0, 4, 8, ...` below `4 * k` of `b`.
pub open spec fn word_lead_sum(b: Seq<u8>, k: int) -> int
    decreases k,
{
    if k <= 0 {
        0
    } else {
        word_lead_sum(b, k - 1) + b[4 * (k - 1)]
    }
}

/// Sum of the bytes of `b` whose index is a multiple of four.
pub open spec fn lead_sum(b: Seq<u8>) -> int {
    word_lead_sum(b, (b.len() as int + 3) / 4)
}

/// `lead_sum` over all of `blobs`.
pub open spec fn blobs_lead_sum(blobs: Seq<Seq<u8>>) -> int
    decreases blobs.len(),
{
    if blobs.len() == 0 {
        0
    } else {
        blobs_lead_sum(blobs.drop_last()) + lead_sum(blobs.last())
    }
}

/// The checksum of the page blobs: `blobs_lead_sum` modulo 2^32.
pub open spec fn checksum(blobs: Seq<Seq<u8>>) -> u32 {
    (blobs_lead_sum(blobs) % 0x1_0000_0000) as u32
}

/// The encoded pages.
pub open spec fn page_blobs(ps: Seq<Seq<CookieView>>, now: UnixTime) -> Seq<Seq<u8>> {
    ps.map_values(|p: Seq<CookieView>| page_bytes(p, now))
}

/// The page-size table.
pub open spec fn size_table(blobs: Seq<Seq<u8>>) -> Seq<Seq<u8>> {
    blobs.map_values(|b: Seq<u8>| u32_be_bytes(b.len() as u32))
}

/// The file holding pages `ps`; `now` stands in for missing timestamps.
pub open spec fn container_bytes(ps: Seq<Seq<CookieView>>, now: UnixTime) -> Seq<u8> {
    let blobs = page_blobs(ps, now);
    magic() + u32_be_bytes(ps.len() as u32) + concat(size_table(blobs)) + concat(blobs)
        + u32_be_bytes(checksum(blobs)) + trailer()
}

/// Every page of `ps` can be encoded: its length fits in 32 bits.
pub open spec fn encodable(ps: Seq<Seq<CookieView>>, now: UnixTime) -> bool {
    &&& ps.len() <= u32::MAX
    &&& forall|i: int| 0 <= i < ps.len() ==> page_len(#[trigger] ps[i], now) <= u32::MAX
}

/// Page count of file `b`.
pub open spec fn page_count(b: Seq<u8>) -> int {
    be_u32(b, 4) as int
}

/// Entry `i` of the page-size table of file `b`.
pub open spec fn page_size(b: Seq<u8>, i: int) -> int {
    be_u32(b, 8 + 4 * i) as int
}

/// The pages decoded from entry `i` of the size table on, the page for entry
/// `i` starting at `cur`: empty entries are passed over, a page that runs
/// past the end stops the walk, and a page that fails to decode is left out.
pub open spec fn pages_from(b: Seq<u8>, count: int, i: int, cur: int) -> Seq<Seq<CookieView>>
    decreases count - i,
{
    if i < 0 || i >= count {
        seq![]
    } else {
        let size = page_size(b, i);
        if size == 0 {
            pages_from(b, count, i + 1, cur)
        } else if cur + size > b.len() {
            seq![]
        } else {
            let rest = pages_from(b, count, i + 1, cur + size);
            match parse_page(b.subrange(cur, cur + size)) {
                Ok(p) => seq![p] + rest,
                Err(_) => rest,
            }
        }
    }
}

/// What file `b` decodes to.
pub open spec fn parse_file(b: Seq<u8>) -> Result<Seq<Seq<CookieView>>, FormatError> {
    if b.len() < 8 {
        Err(FormatError::TooSmall)
    } else if b.subrange(0, 4) != magic() {
        Err(FormatError::BadMagic)
    } else if 8 + 4 * page_count(b) > b.len() {
        Err(FormatError::PageSizeTable)
    } else {
        Ok(pages_from(b, page_count(b), 0, 8 + 4 * page_count(b)))
    }
}

/// `lead_sum(b)`, added to `acc` modulo 2^32.
fn add_lead_sum(acc: u32, b: &[u8]) -> (r: u32)
    ensures
        r == (acc + lead_sum(b@)) % 0x1_0000_0000,
{
    let words: usize = b.len() / 4 + if b.len() % 4 == 0 {
        0
    } else {
        1
    };
    assert(words == (b@.len() as int + 3) / 4);
    let mut sum: u32 = acc;
    let mut k: usize = 0;
    while k < words
        invariant
            k <= words,
            words == (b@.len() as int + 3) / 4,
            sum == (acc + word_lead_sum(b@, k as int)) % 0x1_0000_0000,
        decreases words - k,
    {
        proof {
            vstd::arithmetic::div_mod::lemma_add_mod_noop(
                acc + word_lead_sum(b@, k as int),
                b@[4 * k as int] as int,
                0x1_0000_0000,
            );
            vstd::arithmetic::div_mod::lemma_mod_twice(
                acc + word_lead_sum(b@, k as int),
                0x1_0000_0000,
            );
            vstd::arithmetic::div_mod::lemma_small_mod(b@[4 * k as int] as nat, 0x1_0000_0000);
        }
        assert(4 * k < b.len());
        sum = ((sum as u64 + b[4 * k] as u64) % 0x1_0000_0000) as u32;
        k = k + 1;
    }
    sum
}

impl BinaryCookies {
    pub fn new(pages: Vec<Page>) -> (r: Self)
        ensures
            r.pages == pages,
    {
        BinaryCookies { pages }
    }

    /// Encodes a whole file holding `pages`; `now` stands in for missing
    /// timestamps.
    pub fn build(pages: &[Page], now: UnixTime) -> (r: Vec<u8>)
        requires
            encodable(pages_view(pages@), now),
        ensures
            r@ == container_bytes(pages_view(pages@), now),
    {
        let ghost ps = pages_view(pages@);
        let ghost blobs = page_blobs(ps, now);
        let ghost sizes = size_table(blobs);
        let m = pages.len();
        let mut built: Vec<Vec<u8>> = Vec::new();
        let mut i: usize = 0;
        while i < m
            invariant
                m == pages@.len() == ps.len() == blobs.len(),
                ps == pages_view(pages@),
                blobs == page_blobs(ps, now),
                encodable(ps, now),
                i <= m,
                built@.len() == i,
                forall|j: int| 0 <= j < i ==> (#[trigger] built@[j])@ == blobs[j],
            decreases m - i,
        {
            assert(ps[i as int] == pages@[i as int]@);
            let blob = pages[i].build(now);
            built.push(blob);
            i = i + 1;
        }
        let mut buf: Vec<u8> = Vec::new();
        buf.push(0x63);
        buf.push(0x6f);
        buf.push(0x6f);
        buf.push(0x6b);
        push_u32_be(&mut buf, m as u32);
        let ghost head = buf@;
        i = 0;
        while i < m
            invariant
                m == blobs.len() == sizes.len() == built@.len(),
                sizes == size_table(blobs),
                forall|j: int| 0 <= j < m ==> (#[trigger] built@[j])@ == blobs[j],
                encodable(ps, now),
                blobs == page_blobs(ps, now),
                i <= m,
                buf@ == head + concat(sizes.take(i as int)),
            decreases m - i,
        {
            proof {
                lemma_concat_step(sizes, i as int);
            }
            proof {
                lemma_page_bytes_len(ps[i as int], now);
            }
            push_u32_be(&mut buf, built[i].len() as u32);
            i = i + 1;
        }
        assert(sizes.take(m as int) =~= sizes);
        let ghost mid = buf@;
        let mut sum: u32 = 0;
        i = 0;
        while i < m
            invariant
                m == blobs.len() == built@.len(),
                forall|j: int| 0 <= j < m ==> (#[trigger] built@[j])@ == blobs[j],
                i <= m,
                buf@ == mid + concat(blobs.take(i as int)),
                sum == blobs_lead_sum(blobs.take(i as int)) % 0x1_0000_0000,
            decreases m - i,
        {
            proof {
                lemma_concat_step(blobs, i as int);
                assert(blobs.take(i as int + 1).drop_last() =~= blobs.take(i as int));
            }
            push_bytes(&mut buf, built[i].as_slice());
            sum = add_lead_sum(sum, built[i].as_slice());
            proof {
                vstd::arithmetic::div_mod::lemma_add_mod_noop(
                    blobs_lead_sum(blobs.take(i as int)),
                    lead_sum(blobs[i as int]),
                    0x1_0000_0000,
                );
                vstd::arithmetic::div_mod::lemma_mod_twice(lead_sum(blobs[i as int]), 0x1_0000_0000);
            }
            i = i + 1;
        }
        assert(blobs.take(m as int) =~= blobs);
        push_u32_be(&mut buf, sum);
        buf.push(0x07);
        buf.push(0x17);
        buf.push(0x20);
        buf.push(0x05);
        buf.push(0x00);
        buf.push(0x00);
        buf.push(0x00);
        buf.push(0x4b);
        assert(buf@ =~= container_bytes(ps, now));
        buf
    }

    /// Decodes a whole file. Fails when it is shorter than its header, does
    /// not start with `cook`, or its page-size table is cut short; pages that
    /// are empty, cut short or fail to decode are left out, and the walk
    /// stops at the first page that runs past the end. The checksum and the
    /// trailer are not read.
    pub fn parse(buf: &[u8]) -> (r: Result<BinaryCookies, FormatError>)
        ensures
            match parse_file(buf@) {
                Ok(ps) => r matches Ok(c) && c@ == ps,
                Err(e) => r == Err::<BinaryCookies, FormatError>(e),
            },
    {
        if buf.len() < 8 {
            return Err(FormatError::TooSmall);
        }
        if buf[0] != 0x63 || buf[1] != 0x6f || buf[2] != 0x6f || buf[3] != 0x6b {
            assert(buf@.subrange(0, 4) != magic()) by {
                if buf@.subrange(0, 4) == magic() {
                    assert(buf@.subrange(0, 4)[0] == buf@[0]);
                    assert(buf@.subrange(0, 4)[1] == buf@[1]);
                    assert(buf@.subrange(0, 4)[2] == buf@[2]);
                    assert(buf@.subrange(0, 4)[3] == buf@[3]);
                }
            }
            return Err(FormatError::BadMagic);
        }
        assert(buf@.subrange(0, 4) =~= magic());
        let count = read_u32_be(buf, 4).unwrap() as usize;
        if count > (buf.len() - 8) / 4 {
            return Err(FormatError::PageSizeTable);
        }
        let ghost b = buf@;
        let ghost n = count as int;
        let start: usize = 8 + 4 * count;
        let mut pages: Vec<Page> = Vec::new();
        let mut cur: usize = start;
        let mut i: usize = 0;
        while i < count
            invariant
                b == buf@,
                n == count == page_count(b),
                8 + 4 * n <= b.len(),
                start == 8 + 4 * n,
                i <= count,
                cur <= buf.len(),
                pages_view(pages@) + pages_from(b, n, i as int, cur as int) == pages_from(
                    b,
                    n,
                    0,
                    start as int,
                ),
            ensures
                pages_view(pages@) == pages_from(b, n, 0, start as int),
            decreases count - i,
        {
            let size = read_u32_be(buf, 8 + 4 * i).unwrap() as usize;
            if size == 0 {
                i = i + 1;
                continue;
            }
            if size > buf.len() - cur {
                assert(pages_from(b, n, i as int, cur as int) == Seq::<Seq<CookieView>>::empty());
                assert(pages_view(pages@) =~= pages_view(pages@) + pages_from(
                    b,
                    n,
                    i as int,
                    cur as int,
                ));
                break;
            }
            let end: usize = cur + size;
            let ghost before = pages_view(pages@);
            let ghost rest = pages_from(b, n, i as int + 1, end as int);
            match Page::parse(&buf[cur..end]) {
                Ok(p) => {
                    pages.push(p);
                    assert(pages_view(pages@) =~= before.push(p@));
                    assert(before.push(p@) + rest =~= before + (seq![p@] + rest));
                },
                Err(_) => {},
            }
            cur = end;
            i = i + 1;
        }
        let r = BinaryCookies { pages };
        assert(r@ == pages_view(r.pages@));
        Ok(r)
    }
}

} // verus!
