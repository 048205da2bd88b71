//! What the launcher reports about a running client: the port it announces
//! on its output, and how it ended.
use vstd::prelude::*;
use vstd::string::*;

verus! {

/// A client process as the launcher reports it.
#[derive(Clone, Debug)]
pub struct State {
    pub profile_id: String,
    pub connected: bool,
    pub pid: u32,
    pub client: Option<String>,
    pub port: Option<u16>,
}

/// A client process that has ended.
#[derive(Clone, Debug)]
pub struct CloseState {
    pub profile_id: String,
    pub pid: u32,
    pub exit_code: i32,
}

/// `s` begins with `p`.
pub open spec fn starts_with(s: Seq<char>, p: Seq<char>) -> bool {
    p.len() <= s.len() && s.subrange(0, p.len() as int) == p
}

/// `s` with every occurrence of `pat` taken out, scanning from the left.
pub open spec fn remove_all(s: Seq<char>, pat: Seq<char>) -> Seq<char>
    decreases s.len(),
{
    if s.len() == 0 || pat.len() == 0 {
        s
    } else if starts_with(s, pat) {
        remove_all(s.subrange(pat.len() as int, s.len() as int), pat)
    } else {
        seq![s[0]] + remove_all(s.subrange(1, s.len() as int), pat)
    }
}

/// Value of the decimal digits `d`.
pub open spec fn digits_value(d: Seq<char>) -> int
    decreases d.len(),
{
    if d.len() == 0 {
        0
    } else {
        10 * digits_value(d.drop_last()) + (d.last() as int - '0' as int)
    }
}

pub open spec fn all_digits(d: Seq<char>) -> bool {
    forall|i: int| 0 <= i < d.len() ==> '0' <= #[trigger] d[i] <= '9'
}

/// The `u16` that `s` spells in decimal, with an optional leading `+`.
pub open spec fn parse_u16(s: Seq<char>) -> Option<u16> {
    let d = if s.len() > 0 && s[0] == '+' {
        s.subrange(1, s.len() as int)
    } else {
        s
    };
    if d.len() > 0 && all_digits(d) && digits_value(d) <= u16::MAX {
        Some(digits_value(d) as u16)
    } else {
        None
    }
}

/// The prefix of the line on which the built-in client announces its port.
pub open spec fn ipc_prefix() -> Seq<char> {
    "[IPC] Listening to TCP "@
}

/// The prefix of the line on which another client announces its port.
pub open spec fn localhost_prefix() -> Seq<char> {
    "Listening on localhost:"@
}

/// The port a line of client output announces, and whether the built-in
/// client announced it; nothing when the line announces no valid port.
pub open spec fn announced_port(line: Seq<char>) -> Option<(bool, u16)> {
    if starts_with(line, ipc_prefix()) {
        match parse_u16(remove_all(remove_all(line, ipc_prefix()), seq!['.'])) {
            Some(p) => Some((true, p)),
            None => None,
        }
    } else if starts_with(line, localhost_prefix()) {
        match parse_u16(remove_all(line, localhost_prefix())) {
            Some(p) => Some((false, p)),
            None => None,
        }
    } else {
        None
    }
}

/// The characters of `s`.
fn chars_of(s: &str) -> (r: Vec<char>)
    ensures
        r@ == s@,
{
    let n = s.unicode_len();
    let mut r: Vec<char> = Vec::new();
    let mut i: usize = 0;
    while i < n
        invariant
            n == s@.len(),
            i <= n,
            r@ == s@.subrange(0, i as int),
        decreases n - i,
    {
        r.push(s.get_char(i));
        i = i + 1;
        assert(r@ =~= s@.subrange(0, i as int));
    }
    assert(r@ =~= s@);
    r
}

/// Whether `s[i..]` begins with `pat`.
fn matches_at(s: &Vec<char>, i: usize, pat: &Vec<char>) -> (r: bool)
    requires
        i <= s@.len(),
    ensures
        r == starts_with(s@.subrange(i as int, s@.len() as int), pat@),
{
    if pat.len() > s.len() - i {
        return false;
    }
    let mut k: usize = 0;
    while k < pat.len()
        invariant
            i + pat@.len() <= s.len(),
            k <= pat@.len(),
            forall|j: int| 0 <= j < k ==> s@[i + j] == pat@[j],
        decreases pat@.len() - k,
    {
        if s[i + k] != pat[k] {
            assert(s@.subrange(i as int, s@.len() as int).subrange(0, pat@.len() as int)[k as int]
                != pat@[k as int]);
            return false;
        }
        k = k + 1;
    }
    assert(s@.subrange(i as int, s@.len() as int).subrange(0, pat@.len() as int) =~= pat@);
    true
}

/// `s` with every occurrence of `pat` taken out, scanning from the left.
fn remove_all_exec(s: &Vec<char>, pat: &Vec<char>) -> (r: Vec<char>)
    ensures
        r@ == remove_all(s@, pat@),
{
    let mut r: Vec<char> = Vec::new();
    let mut i: usize = 0;
    if pat.len() == 0 {
        while i < s.len()
            invariant
                i <= s@.len(),
                r@ == s@.subrange(0, i as int),
            decreases s@.len() - i,
        {
            r.push(s[i]);
            i = i + 1;
            assert(r@ =~= s@.subrange(0, i as int));
        }
        assert(r@ =~= s@);
        return r;
    }
    assert(s@.subrange(0, s@.len() as int) =~= s@);
    while i < s.len()
        invariant
            pat@.len() > 0,
            i <= s@.len(),
            r@ + remove_all(s@.subrange(i as int, s@.len() as int), pat@) == remove_all(s@, pat@),
        decreases s@.len() - i,
    {
        let ghost rest = s@.subrange(i as int, s@.len() as int);
        if matches_at(s, i, pat) {
            assert(rest.subrange(pat@.len() as int, rest.len() as int) =~= s@.subrange(
                i + pat@.len(),
                s@.len() as int,
            ));
            i = i + pat.len();
        } else {
            assert(rest.subrange(1, rest.len() as int) =~= s@.subrange(i + 1, s@.len() as int));
            assert(rest[0] == s@[i as int]);
            let ghost before = r@;
            r.push(s[i]);
            assert(r@ + remove_all(s@.subrange(i + 1, s@.len() as int), pat@) =~= before + (seq![
                s@[i as int],
            ] + remove_all(s@.subrange(i + 1, s@.len() as int), pat@)));
            i = i + 1;
        }
    }
    assert(remove_all(s@.subrange(i as int, s@.len() as int), pat@) =~= Seq::<char>::empty());
    assert(r@ + Seq::<char>::empty() =~= r@);
    r
}

/// The `u16` that `s` spells in decimal, with an optional leading `+`.
fn parse_u16_exec(s: &Vec<char>) -> (r: Option<u16>)
    ensures
        r == parse_u16(s@),
{
    let start: usize = if s.len() > 0 && s[0] == '+' {
        1
    } else {
        0
    };
    let ghost d = s@.subrange(start as int, s@.len() as int);
    assert(d == (if s@.len() > 0 && s@[0] == '+' {
        s@.subrange(1, s@.len() as int)
    } else {
        s@
    })) by {
        if start == 0 {
            assert(d =~= s@);
        }
    }
    let ghost outcome = if d.len() > 0 && all_digits(d) && digits_value(d) <= u16::MAX {
        Some(digits_value(d) as u16)
    } else {
        None
    };
    assert(parse_u16(s@) == outcome);
    if start == s.len() {
        return None;
    }
    let mut v: u32 = 0;
    let mut i: usize = start;
    while i < s.len()
        invariant
            start < s@.len(),
            start <= i <= s@.len(),
            d == s@.subrange(start as int, s@.len() as int),
            parse_u16(s@) == outcome,
            outcome == (if d.len() > 0 && all_digits(d) && digits_value(d) <= u16::MAX {
                Some(digits_value(d) as u16)
            } else {
                None
            }),
            all_digits(s@.subrange(start as int, i as int)),
            v == digits_value(s@.subrange(start as int, i as int)),
            v <= u16::MAX,
        decreases s@.len() - i,
    {
        let c = s[i];
        let ghost prefix = s@.subrange(start as int, i as int);
        let ghost next = s@.subrange(start as int, i + 1);
        assert(next.drop_last() =~= prefix);
        if c < '0' || c > '9' {
            assert(!all_digits(d)) by {
                assert(d[i - start] == c);
            }
            return None;
        }
        let digit = (c as u32) - ('0' as u32);
        v = v * 10 + digit;
        if v > 0xffff {
            proof {
                if all_digits(d) {
                    lemma_digits_prefix_le(d, (i + 1 - start) as int);
                    assert(d.subrange(0, (i + 1 - start) as int) =~= next);
                }
            }
            return None;
        }
        i = i + 1;
        assert(all_digits(s@.subrange(start as int, i as int))) by {
            assert forall|j: int| 0 <= j < next.len() implies '0' <= #[trigger] next[j] <= '9' by {
                if j < prefix.len() {
                    assert(next[j] == prefix[j]);
                }
            }
        }
    }
    assert(s@.subrange(start as int, i as int) =~= d);
    Some(v as u16)
}

/// A digit string is worth at least any of its prefixes.
proof fn lemma_digits_prefix_le(d: Seq<char>, k: int)
    requires
        all_digits(d),
        0 <= k <= d.len(),
    ensures
        digits_value(d.subrange(0, k)) <= digits_value(d),
        0 <= digits_value(d),
    decreases d.len(),
{
    if d.len() > 0 {
        assert(all_digits(d.drop_last())) by {
            assert forall|j: int| 0 <= j < d.drop_last().len() implies '0'
                <= #[trigger] d.drop_last()[j] <= '9' by {
                assert(d.drop_last()[j] == d[j]);
            }
        }
        assert(d.last() == d[d.len() - 1]);
        if k == d.len() {
            assert(d.subrange(0, k) =~= d);
            lemma_digits_prefix_le(d.drop_last(), 0);
        } else {
            lemma_digits_prefix_le(d.drop_last(), k);
            assert(d.drop_last().subrange(0, k) =~= d.subrange(0, k));
        }
    } else {
        assert(d.subrange(0, k) =~= d);
    }
}

impl State {
    /// The state reported right after the client was started.
    pub fn launched(profile_id: String, pid: u32) -> (r: State)
        ensures
            r.profile_id@ == profile_id@,
            !r.connected,
            r.pid == pid,
            r.client is None,
            r.port is None,
    {
        State { profile_id, connected: false, pid, client: None, port: None }
    }

    /// The state reported when a line of the client's output announces the
    /// port it listens on: the built-in client names itself `MacSploit`,
    /// another client goes by `client`. Nothing for other lines, or when the
    /// announced port is not a valid `u16`.
    pub fn from_output_line(line: &str, profile_id: &String, pid: u32, client: &String) -> (r:
        Option<State>)
        ensures
            r is Some == announced_port(line@) is Some,
            r matches Some(st) ==> ({
                let (builtin, port) = announced_port(line@)->Some_0;
                &&& st.profile_id@ == profile_id@
                &&& st.connected
                &&& st.pid == pid
                &&& st.port == Some(port)
                &&& st.client matches Some(name) && name@ == (if builtin {
                    "MacSploit"@
                } else {
                    client@
                })
            }),
    {
        let chars = chars_of(line);
        let ipc = chars_of("[IPC] Listening to TCP ");
        let local = chars_of("Listening on localhost:");
        assert(chars@.subrange(0, chars@.len() as int) =~= chars@);
        if matches_at(&chars, 0, &ipc) {
            let rest = remove_all_exec(&chars, &ipc);
            let dot = chars_of(".");
            proof {
                reveal_strlit(".");
            }
            assert(dot@ =~= seq!['.']);
            let digits = remove_all_exec(&rest, &dot);
            match parse_u16_exec(&digits) {
                Some(port) => Some(
                    State {
                        profile_id: profile_id.clone(),
                        connected: true,
                        pid,
                        client: Some(String::from_str("MacSploit")),
                        port: Some(port),
                    },
                ),
                None => None,
            }
        } else if matches_at(&chars, 0, &local) {
            let digits = remove_all_exec(&chars, &local);
            match parse_u16_exec(&digits) {
                Some(port) => Some(
                    State {
                        profile_id: profile_id.clone(),
                        connected: true,
                        pid,
                        client: Some(client.clone()),
                        port: Some(port),
                    },
                ),
                None => None,
            }
        } else {
            None
        }
    }
}

impl CloseState {
    /// How a client ended: its exit code, `-1` when it has none (it was
    /// ended by a signal), `-2` when waiting for it failed (`None`).
    pub fn after_wait(profile_id: String, pid: u32, status: Option<Option<i32>>) -> (r: CloseState)
        ensures
            r.profile_id@ == profile_id@,
            r.pid == pid,
            r.exit_code == match status {
                Some(Some(code)) => code,
                Some(None) => -1i32,
                None => -2i32,
            },
    {
        let exit_code = match status {
            Some(Some(code)) => code,
            Some(None) => -1,
            None => -2,
        };
        CloseState { profile_id, pid, exit_code }
    }
}

} // verus!
