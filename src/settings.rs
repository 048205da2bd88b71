//! The client's settings file: one `name value` line per setting.
use vstd::prelude::*;
use vstd::string::*;

verus! {

/// The client's toggles, in the order the settings file lists them.
#[allow(non_snake_case)]
#[derive(Clone, Copy, Debug, PartialEq, Eq, Structural)]
pub struct MacsploitSettings {
    pub autoExecute: bool,
    pub autoInject: bool,
    pub multiInstance: bool,
    pub executeInstances: bool,
    pub fileSystem: bool,
    pub debugLibrary: bool,
    pub httpTraffic: bool,
    pub settingsControl: bool,
    pub serverTeleports: bool,
    pub placeRestrictions: bool,
    pub dumpScripts: bool,
    pub logHttp: bool,
    pub compatibilityMode: bool,
    pub norbUnc: bool,
    pub resumeHandle: bool,
    pub robloxRpc: bool,
    pub discordRpc: bool,
    pub sandbox: bool,
}

/// Whether `c` is white space (Unicode `White_Space`).
pub uninterp spec fn is_space(c: char) -> bool;

/// Relies on `char::is_whitespace`: whether `c` has the Unicode
/// `White_Space` property.
#[verifier::external_body]
fn char_is_space(c: char) -> (r: bool)
    ensures
        r == is_space(c),
{
    c.is_whitespace()
}

/// The settings in force when the file does not say otherwise.
pub open spec fn default_settings() -> MacsploitSettings {
    MacsploitSettings {
        autoExecute: true,
        autoInject: false,
        multiInstance: false,
        executeInstances: false,
        fileSystem: true,
        debugLibrary: true,
        httpTraffic: true,
        settingsControl: true,
        serverTeleports: true,
        placeRestrictions: true,
        dumpScripts: false,
        logHttp: true,
        compatibilityMode: false,
        norbUnc: true,
        resumeHandle: false,
        robloxRpc: true,
        discordRpc: true,
        sandbox: false,
    }
}

/// `s` with the setting named `key` set to `value`; unknown names change nothing.
pub open spec fn apply_setting(s: MacsploitSettings, key: Seq<char>, value: bool) -> MacsploitSettings {
    MacsploitSettings {
        autoExecute: if key == "autoExecute"@ {
            value
        } else {
            s.autoExecute
        },
        autoInject: if key == "autoInject"@ {
            value
        } else {
            s.autoInject
        },
        multiInstance: if key == "multiInstance"@ {
            value
        } else {
            s.multiInstance
        },
        executeInstances: if key == "executeInstances"@ {
            value
        } else {
            s.executeInstances
        },
        fileSystem: if key == "fileSystem"@ {
            value
        } else {
            s.fileSystem
        },
        debugLibrary: if key == "debugLibrary"@ {
            value
        } else {
            s.debugLibrary
        },
        httpTraffic: if key == "httpTraffic"@ {
            value
        } else {
            s.httpTraffic
        },
        settingsControl: if key == "settingsControl"@ {
            value
        } else {
            s.settingsControl
        },
        serverTeleports: if key == "serverTeleports"@ {
            value
        } else {
            s.serverTeleports
        },
        placeRestrictions: if key == "placeRestrictions"@ {
            value
        } else {
            s.placeRestrictions
        },
        dumpScripts: if key == "dumpScripts"@ {
            value
        } else {
            s.dumpScripts
        },
        logHttp: if key == "logHttp"@ {
            value
        } else {
            s.logHttp
        },
        compatibilityMode: if key == "compatibilityMode"@ {
            value
        } else {
            s.compatibilityMode
        },
        norbUnc: if key == "norbUnc"@ {
            value
        } else {
            s.norbUnc
        },
        resumeHandle: if key == "resumeHandle"@ {
            value
        } else {
            s.resumeHandle
        },
        robloxRpc: if key == "robloxRpc"@ {
            value
        } else {
            s.robloxRpc
        },
        discordRpc: if key == "discordRpc"@ {
            value
        } else {
            s.discordRpc
        },
        sandbox: if key == "sandbox"@ {
            value
        } else {
            s.sandbox
        },
    }
}

/// First index at or after `i` that is not white space.
pub open spec fn skip_space(s: Seq<char>, i: int) -> int
    decreases s.len() - i,
{
    if 0 <= i < s.len() && is_space(s[i]) {
        skip_space(s, i + 1)
    } else {
        i
    }
}

/// First index at or after `i` that is white space.
pub open spec fn token_end(s: Seq<char>, i: int) -> int
    decreases s.len() - i,
{
    if 0 <= i < s.len() && !is_space(s[i]) {
        token_end(s, i + 1)
    } else {
        i
    }
}

/// The name and value a line sets: its first two white-space separated
/// words, the value being true exactly when the second word is `true`.
pub open spec fn line_setting(line: Seq<char>) -> Option<(Seq<char>, bool)> {
    let a0 = skip_space(line, 0);
    let e0 = token_end(line, a0);
    let a1 = skip_space(line, e0);
    let e1 = token_end(line, a1);
    if a1 < line.len() {
        Some((line.subrange(a0, e0), line.subrange(a1, e1) == "true"@))
    } else {
        None
    }
}

/// First index at or after `i` that holds a line feed.
pub open spec fn line_end(t: Seq<char>, i: int) -> int
    decreases t.len() - i,
{
    if 0 <= i < t.len() && t[i] != '\n' {
        line_end(t, i + 1)
    } else {
        i
    }
}

/// The line that starts at `i`, without its line ending (`\n` or `\r\n`).
pub open spec fn line_at(t: Seq<char>, i: int) -> Seq<char> {
    let e = line_end(t, i);
    if e < t.len() && e > i && t[e - 1] == '\r' {
        t.subrange(i, e - 1)
    } else {
        t.subrange(i, e)
    }
}

/// `s` after the lines of `t` from index `i` on, in order.
pub open spec fn apply_lines(s: MacsploitSettings, t: Seq<char>, i: int) -> MacsploitSettings
    decreases t.len() - i,
{
    if i < 0 || i >= t.len() {
        s
    } else {
        let next = match line_setting(line_at(t, i)) {
            Some(kv) => apply_setting(s, kv.0, kv.1),
            None => s,
        };
        let e = line_end(t, i);
        if e < i || e >= t.len() {
            next
        } else {
            apply_lines(next, t, e + 1)
        }
    }
}

/// The settings a file holding `t` gives.
pub open spec fn settings_from_text(t: Seq<char>) -> MacsploitSettings {
    apply_lines(default_settings(), t, 0)
}

/// One line of the settings file.
#[verifier::opaque]
pub open spec fn setting_line(name: Seq<char>, value: bool) -> Seq<char> {
    name + " "@ + (if value {
        "true"@
    } else {
        "false"@
    }) + "\n"@
}

/// Lines 1 to 6 of the settings file.
pub open spec fn settings_text_head(s: MacsploitSettings) -> Seq<char> {
    setting_line("autoExecute"@, s.autoExecute)
        + setting_line("autoInject"@, s.autoInject)
        + setting_line("multiInstance"@, s.multiInstance)
        + setting_line("executeInstances"@, s.executeInstances)
        + setting_line("fileSystem"@, s.fileSystem)
        + setting_line("debugLibrary"@, s.debugLibrary)
}

/// Lines 7 to 12 of the settings file.
pub open spec fn settings_text_middle(s: MacsploitSettings) -> Seq<char> {
    setting_line("httpTraffic"@, s.httpTraffic)
        + setting_line("settingsControl"@, s.settingsControl)
        + setting_line("serverTeleports"@, s.serverTeleports)
        + setting_line("placeRestrictions"@, s.placeRestrictions)
        + setting_line("dumpScripts"@, s.dumpScripts)
        + setting_line("logHttp"@, s.logHttp)
}

/// Lines 13 to 18 of the settings file.
pub open spec fn settings_text_tail(s: MacsploitSettings) -> Seq<char> {
    setting_line("compatibilityMode"@, s.compatibilityMode)
        + setting_line("norbUnc"@, s.norbUnc)
        + setting_line("resumeHandle"@, s.resumeHandle)
        + setting_line("robloxRpc"@, s.robloxRpc)
        + setting_line("discordRpc"@, s.discordRpc)
        + setting_line("sandbox"@, s.sandbox)
}

/// The settings file holding `s`.
pub open spec fn settings_text(s: MacsploitSettings) -> Seq<char> {
    settings_text_head(s) + settings_text_middle(s) + settings_text_tail(s)
}

/// Whether the characters of `key` spell `lit`.
fn same_text(key: &Vec<char>, lit: &str) -> (r: bool)
    ensures
        r == (key@ == lit@),
{
    let n = lit.unicode_len();
    if n != key.len() {
        return false;
    }
    let mut i: usize = 0;
    while i < n
        invariant
            n == lit@.len() == key@.len(),
            i <= n,
            key@.subrange(0, i as int) == lit@.subrange(0, i as int),
        decreases n - i,
    {
        if key[i] != lit.get_char(i) {
            assert(key@[i as int] != lit@[i as int]);
            return false;
        }
        i = i + 1;
        assert(key@.subrange(0, i as int) =~= lit@.subrange(0, i as int));
    }
    assert(key@ =~= key@.subrange(0, n as int));
    assert(lit@ =~= lit@.subrange(0, n as int));
    true
}

fn set_named(s: MacsploitSettings, key: &Vec<char>, value: bool) -> (r: MacsploitSettings)
    ensures
        r == apply_setting(s, key@, value),
{
    MacsploitSettings {
        autoExecute: if same_text(key, "autoExecute") {
            value
        } else {
            s.autoExecute
        },
        autoInject: if same_text(key, "autoInject") {
            value
        } else {
            s.autoInject
        },
        multiInstance: if same_text(key, "multiInstance") {
            value
        } else {
            s.multiInstance
        },
        executeInstances: if same_text(key, "executeInstances") {
            value
        } else {
            s.executeInstances
        },
        fileSystem: if same_text(key, "fileSystem") {
            value
        } else {
            s.fileSystem
        },
        debugLibrary: if same_text(key, "debugLibrary") {
            value
        } else {
            s.debugLibrary
        },
        httpTraffic: if same_text(key, "httpTraffic") {
            value
        } else {
            s.httpTraffic
        },
        settingsControl: if same_text(key, "settingsControl") {
            value
        } else {
            s.settingsControl
        },
        serverTeleports: if same_text(key, "serverTeleports") {
            value
        } else {
            s.serverTeleports
        },
        placeRestrictions: if same_text(key, "placeRestrictions") {
            value
        } else {
            s.placeRestrictions
        },
        dumpScripts: if same_text(key, "dumpScripts") {
            value
        } else {
            s.dumpScripts
        },
        logHttp: if same_text(key, "logHttp") {
            value
        } else {
            s.logHttp
        },
        compatibilityMode: if same_text(key, "compatibilityMode") {
            value
        } else {
            s.compatibilityMode
        },
        norbUnc: if same_text(key, "norbUnc") {
            value
        } else {
            s.norbUnc
        },
        resumeHandle: if same_text(key, "resumeHandle") {
            value
        } else {
            s.resumeHandle
        },
        robloxRpc: if same_text(key, "robloxRpc") {
            value
        } else {
            s.robloxRpc
        },
        discordRpc: if same_text(key, "discordRpc") {
            value
        } else {
            s.discordRpc
        },
        sandbox: if same_text(key, "sandbox") {
            value
        } else {
            s.sandbox
        },
    }
}

/// Copies `chars[lo..hi]`.
fn slice_chars(chars: &Vec<char>, lo: usize, hi: usize) -> (r: Vec<char>)
    requires
        lo <= hi <= chars@.len(),
    ensures
        r@ == chars@.subrange(lo as int, hi as int),
{
    let mut r: Vec<char> = Vec::new();
    let mut i: usize = lo;
    while i < hi
        invariant
            lo <= i <= hi <= chars@.len(),
            r@ == chars@.subrange(lo as int, i as int),
        decreases hi - i,
    {
        r.push(chars[i]);
        i = i + 1;
        assert(r@ =~= chars@.subrange(lo as int, i as int));
    }
    r
}

fn skip_space_exec(s: &Vec<char>, i: usize) -> (r: usize)
    requires
        i <= s@.len(),
    ensures
        r == skip_space(s@, i as int),
        i <= r <= s@.len(),
{
    let mut j = i;
    while j < s.len() && char_is_space(s[j])
        invariant
            i <= j <= s@.len(),
            skip_space(s@, j as int) == skip_space(s@, i as int),
        decreases s@.len() - j,
    {
        j = j + 1;
    }
    j
}

fn token_end_exec(s: &Vec<char>, i: usize) -> (r: usize)
    requires
        i <= s@.len(),
    ensures
        r == token_end(s@, i as int),
        i <= r <= s@.len(),
{
    let mut j = i;
    while j < s.len() && !char_is_space(s[j])
        invariant
            i <= j <= s@.len(),
            token_end(s@, j as int) == token_end(s@, i as int),
        decreases s@.len() - j,
    {
        j = j + 1;
    }
    j
}

fn apply_line(s: MacsploitSettings, line: &Vec<char>) -> (r: MacsploitSettings)
    ensures
        r == (match line_setting(line@) {
            Some(kv) => apply_setting(s, kv.0, kv.1),
            None => s,
        }),
{
    let a0 = skip_space_exec(line, 0);
    let e0 = token_end_exec(line, a0);
    let a1 = skip_space_exec(line, e0);
    let e1 = token_end_exec(line, a1);
    if a1 >= line.len() {
        return s;
    }
    let key = slice_chars(line, a0, e0);
    let word = slice_chars(line, a1, e1);
    let value = same_text(&word, "true");
    set_named(s, &key, value)
}

/// Appends one line of the settings file.
fn push_setting_line(out: &mut String, name: &str, value: bool)
    ensures
        final(out)@ == old(out)@ + setting_line(name@, value),
{
    out.append(name);
    out.append(" ");
    if value {
        out.append("true");
    } else {
        out.append("false");
    }
    out.append("\n");
    reveal(setting_line);
    assert(final(out)@ =~= old(out)@ + setting_line(name@, value));
}

fn push_settings_head(out: &mut String, s: &MacsploitSettings)
    ensures
        final(out)@ == old(out)@ + settings_text_head(*s),
{
    let ghost start = out@;
    push_setting_line(out, "autoExecute", s.autoExecute);
    push_setting_line(out, "autoInject", s.autoInject);
    push_setting_line(out, "multiInstance", s.multiInstance);
    push_setting_line(out, "executeInstances", s.executeInstances);
    push_setting_line(out, "fileSystem", s.fileSystem);
    push_setting_line(out, "debugLibrary", s.debugLibrary);
    assert(out@ =~= start + settings_text_head(*s));
}

fn push_settings_middle(out: &mut String, s: &MacsploitSettings)
    ensures
        final(out)@ == old(out)@ + settings_text_middle(*s),
{
    let ghost start = out@;
    push_setting_line(out, "httpTraffic", s.httpTraffic);
    push_setting_line(out, "settingsControl", s.settingsControl);
    push_setting_line(out, "serverTeleports", s.serverTeleports);
    push_setting_line(out, "placeRestrictions", s.placeRestrictions);
    push_setting_line(out, "dumpScripts", s.dumpScripts);
    push_setting_line(out, "logHttp", s.logHttp);
    assert(out@ =~= start + settings_text_middle(*s));
}

fn push_settings_tail(out: &mut String, s: &MacsploitSettings)
    ensures
        final(out)@ == old(out)@ + settings_text_tail(*s),
{
    let ghost start = out@;
    push_setting_line(out, "compatibilityMode", s.compatibilityMode);
    push_setting_line(out, "norbUnc", s.norbUnc);
    push_setting_line(out, "resumeHandle", s.resumeHandle);
    push_setting_line(out, "robloxRpc", s.robloxRpc);
    push_setting_line(out, "discordRpc", s.discordRpc);
    push_setting_line(out, "sandbox", s.sandbox);
    assert(out@ =~= start + settings_text_tail(*s));
}

impl MacsploitSettings {
    /// The settings in force when the file does not say otherwise.
    pub fn defaults() -> (r: Self)
        ensures
            r == default_settings(),
    {
        MacsploitSettings {
            autoExecute: true,
            autoInject: false,
            multiInstance: false,
            executeInstances: false,
            fileSystem: true,
            debugLibrary: true,
            httpTraffic: true,
            settingsControl: true,
            serverTeleports: true,
            placeRestrictions: true,
            dumpScripts: false,
            logHttp: true,
            compatibilityMode: false,
            norbUnc: true,
            resumeHandle: false,
            robloxRpc: true,
            discordRpc: true,
            sandbox: false,
        }
    }

    /// Reads a settings file: each line that holds at least two words sets
    /// the setting its first word names to whether its second word is
    /// `true`; other lines and unknown names are passed over, and a later
    /// line wins over an earlier one.
    pub fn from_text(text: &str) -> (r: Self)
        ensures
            r == settings_from_text(text@),
    {
        let n = text.unicode_len();
        let mut chars: Vec<char> = Vec::new();
        let mut i: usize = 0;
        while i < n
            invariant
                n == text@.len(),
                i <= n,
                chars@ == text@.subrange(0, i as int),
            decreases n - i,
        {
            chars.push(text.get_char(i));
            i = i + 1;
            assert(chars@ =~= text@.subrange(0, i as int));
        }
        assert(chars@ =~= text@);
        let ghost t = chars@;
        let mut s = Self::defaults();
        i = 0;
        while i < n
            invariant
                t == chars@,
                t == text@,
                n == t.len(),
                i <= n,
                apply_lines(s, t, i as int) == settings_from_text(t),
            decreases n - i,
        {
            let mut e = i;
            while e < n && chars[e] != '\n'
                invariant
                    t == chars@,
                    n == t.len(),
                    i <= e <= n,
                    line_end(t, e as int) == line_end(t, i as int),
                decreases n - e,
            {
                e = e + 1;
            }
            assert(line_end(t, e as int) == e as int);
            let ghost before = s;
            let end = if e < n && e > i && chars[e - 1] == '\r' {
                e - 1
            } else {
                e
            };
            let line = slice_chars(&chars, i, end);
            assert(line@ == line_at(t, i as int));
            s = apply_line(s, &line);
            if e >= n {
                assert(apply_lines(before, t, i as int) == s);
                return s;
            }
            assert(apply_lines(before, t, i as int) == apply_lines(s, t, e + 1));
            i = e + 1;
        }
        s
    }

    /// Writes the settings file: one `name value` line per setting, in a
    /// fixed order.
    pub fn to_text(&self) -> (r: String)
        ensures
            r@ == settings_text(*self),
    {
        let mut out = String::new();
        push_settings_head(&mut out, self);
        push_settings_middle(&mut out, self);
        push_settings_tail(&mut out, self);
        assert(out@ =~= settings_text(*self));
        out
    }
}

} // verus!
