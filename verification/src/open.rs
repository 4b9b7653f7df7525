//! Obsidian URIs, recognising the Obsidian desktop app among processes and
//! Hyprland windows, and the steps that start it and hide it to the tray.
use vstd::prelude::*;
use vstd::utf8::encode_utf8;
use crate::text::{
    ascii_lowercase, ascii_lowered, chars_contain, chars_string, contains, extend_chars, str_chars,
};

verus! {

/// Bytes kept as they are in an `obsidian://` path.
pub open spec fn unreserved(b: u8) -> bool {
    ||| 65 <= b <= 90
    ||| 97 <= b <= 122
    ||| 48 <= b <= 57
    ||| b == 45 || b == 95 || b == 46 || b == 126 || b == 47
}

/// Upper-case hexadecimal digit of `n` (`n < 16`).
pub open spec fn hex_digit(n: u8) -> char {
    if n < 10 {
        (48 + n) as char
    } else {
        (65 + (n - 10)) as char
    }
}

/// One byte as it appears in the encoded path.
pub open spec fn encode_byte(b: u8) -> Seq<char> {
    if unreserved(b) {
        seq![b as char]
    } else {
        seq!['%', hex_digit(b / 16), hex_digit(b % 16)]
    }
}

/// Percent-encoding of a byte string, byte by byte.
pub open spec fn percent_encoded(bytes: Seq<u8>) -> Seq<char>
    decreases bytes.len(),
{
    if bytes.len() == 0 {
        Seq::empty()
    } else {
        percent_encoded(bytes.drop_last()) + encode_byte(bytes.last())
    }
}

/// `obsidian://open?path=` followed by the encoded UTF-8 bytes of the path.
pub open spec fn uri_of(path: Seq<char>) -> Seq<char> {
    "obsidian://open?path="@ + percent_encoded(encode_utf8(path))
}

fn hex(n: u8) -> (c: char)
    requires
        n <= 200,
    ensures
        c == hex_digit(n),
{
    let b: u8 = if n < 10 {
        48u8 + n
    } else {
        65u8 + (n - 10)
    };
    b as char
}

fn percent_encode_path(value: &str) -> (r: String)
    ensures
        r@ == percent_encoded(encode_utf8(value@)),
{
    let bytes = value.as_bytes();
    let ghost bs = encode_utf8(value@);
    let mut out: Vec<char> = Vec::new();
    let mut i: usize = 0;
    while i < bytes.len()
        invariant
            bytes@ == bs,
            i <= bytes.len(),
            out@ == percent_encoded(bs.take(i as int)),
        decreases bytes.len() - i,
    {
        let b = bytes[i];
        proof {
            assert(bs.take(i + 1).drop_last() =~= bs.take(i as int));
        }
        if (65 <= b && b <= 90) || (97 <= b && b <= 122) || (48 <= b && b <= 57) || b == 45 || b
            == 95 || b == 46 || b == 126 || b == 47 {
            out.push(b as char);
        } else {
            out.push('%');
            out.push(hex(b / 16));
            out.push(hex(b % 16));
        }
        assert(out@ =~= percent_encoded(bs.take(i + 1)));
        i = i + 1;
    }
    assert(bs.take(bytes.len() as int) =~= bs);
    chars_string(&out)
}

/// Build `obsidian://open?path=…` for an absolute note path.
pub fn open_uri(path: &str) -> (r: String)
    ensures
        r@ == uri_of(path@),
{
    let mut out = str_chars("obsidian://open?path=");
    let enc = percent_encode_path(path);
    extend_chars(&mut out, &str_chars(enc.as_str()));
    chars_string(&out)
}

/// The command line with its NUL separators read as spaces.
pub open spec fn nul_as_space(s: Seq<char>) -> Seq<char> {
    s.map_values(|c: char| if c == '\0' { ' ' } else { c })
}

/// A process command line that runs the packaged Obsidian app (and is not a
/// `--help` call).
pub open spec fn obsidian_cmdline(cmdline: Seq<char>) -> bool {
    let cmd = nul_as_space(cmdline);
    &&& !contains(cmd, "--help"@)
    &&& {
        ||| contains(cmd, "/usr/lib/obsidian/app.asar"@)
        ||| contains(cmd, "/usr/lib/obsidian/obsidian.asar"@)
        ||| contains(cmd, "md.obsidian.Obsidian"@)
        ||| contains(cmd, "/opt/Obsidian/obsidian"@)
    }
}

fn has(s: &Vec<char>, p: &str) -> (b: bool)
    ensures
        b == contains(s@, p@),
{
    chars_contain(s, &str_chars(p))
}

/// True when `/proc/<pid>/cmdline` belongs to the Obsidian desktop app.
pub fn cmdline_is_obsidian_app(cmdline: &str) -> (b: bool)
    ensures
        b == obsidian_cmdline(cmdline@),
{
    let raw = str_chars(cmdline);
    let mut cmd: Vec<char> = Vec::new();
    let mut i: usize = 0;
    while i < raw.len()
        invariant
            i <= raw.len(),
            cmd@ == nul_as_space(raw@.take(i as int)),
        decreases raw.len() - i,
    {
        let c = raw[i];
        cmd.push(if c == '\0' { ' ' } else { c });
        assert(cmd@ =~= nul_as_space(raw@.take(i + 1)));
        i = i + 1;
    }
    assert(raw@.take(raw.len() as int) =~= raw@);
    if has(&cmd, "--help") {
        return false;
    }
    has(&cmd, "/usr/lib/obsidian/app.asar") || has(&cmd, "/usr/lib/obsidian/obsidian.asar") || has(
        &cmd,
        "md.obsidian.Obsidian",
    ) || has(&cmd, "/opt/Obsidian/obsidian")
}

/// A window class that names Obsidian and not Cursor, ignoring ASCII case.
pub open spec fn obsidian_class(class: Seq<char>) -> bool {
    !contains(ascii_lowered(class), "cursor"@) && contains(ascii_lowered(class), "obsidian"@)
}

/// A Hyprland client that is an Obsidian window: never one whose class or
/// initial class mentions Cursor; else one whose class, initial class or
/// title mentions Obsidian (ignoring ASCII case).
pub open spec fn obsidian_client(class: Seq<char>, initial: Seq<char>, title: Seq<char>) -> bool {
    &&& !contains(ascii_lowered(class), "cursor"@)
    &&& !contains(ascii_lowered(initial), "cursor"@)
    &&& (obsidian_class(class) || obsidian_class(initial) || contains(
        ascii_lowered(title),
        "obsidian"@,
    ))
}

fn class_is_obsidian(class: &Vec<char>) -> (b: bool)
    ensures
        b == obsidian_class(class@),
{
    let c = ascii_lowercase(class);
    if has(&c, "cursor") {
        return false;
    }
    has(&c, "obsidian")
}

pub fn client_is_obsidian(class: &str, initial: &str, title: &str) -> (b: bool)
    ensures
        b == obsidian_client(class@, initial@, title@),
{
    let class = str_chars(class);
    let initial = str_chars(initial);
    let class_l = ascii_lowercase(&class);
    let initial_l = ascii_lowercase(&initial);
    if has(&class_l, "cursor") || has(&initial_l, "cursor") {
        return false;
    }
    if class_is_obsidian(&class) || class_is_obsidian(&initial) {
        return true;
    }
    let title_l = ascii_lowercase(&str_chars(title));
    has(&title_l, "obsidian")
}

/// The Lua dispatcher expression that closes `window` in Hyprland's Lua
/// config: `hl.dsp.window.close({ window = "…" })`.
pub fn close_lua_expr(window: &str) -> (r: String)
    ensures
        r@ == "hl.dsp.window.close({ window = \""@ + window@ + "\" })"@,
{
    let mut out = str_chars("hl.dsp.window.close({ window = \"");
    extend_chars(&mut out, &str_chars(window));
    extend_chars(&mut out, &str_chars("\" })"));
    chars_string(&out)
}

/// The Hyprland selector of the window to close: its address when known,
/// else Obsidian's window class.
pub open spec fn close_selector(address: Option<Seq<char>>) -> Seq<char> {
    match address {
        Some(a) => "address:"@ + a,
        None => "class:md.obsidian.Obsidian"@,
    }
}

/// Which window a close targets: `address:<address>` for a known window,
/// else `class:md.obsidian.Obsidian`.
pub fn close_window_selector(address: Option<&str>) -> (r: String)
    ensures
        r@ == close_selector(match address {
            Some(a) => Some(a@),
            None => None,
        }),
{
    match address {
        Some(a) => {
            let mut out = str_chars("address:");
            extend_chars(&mut out, &str_chars(a));
            chars_string(&out)
        },
        None => String::from_str("class:md.obsidian.Obsidian"),
    }
}

/// Every character is an ASCII digit.
pub open spec fn all_ascii_digits(s: Seq<char>) -> bool {
    forall|i: int| 0 <= i < s.len() ==> '0' <= #[trigger] s[i] <= '9'
}

/// The number that a run of ASCII digits spells.
pub open spec fn digits_value(s: Seq<char>) -> int
    decreases s.len(),
{
    if s.len() == 0 {
        0
    } else {
        digits_value(s.drop_last()) * 10 + (s.last() as int - 48)
    }
}

/// What `str::parse` gives for an unsigned integer type whose largest value
/// is `max`: an optional `+`, then at least one ASCII digit, spelling a
/// number no larger than `max`.
pub open spec fn parsed_unsigned(s: Seq<char>, max: int) -> Option<int> {
    let d = if s.len() > 0 && s[0] == '+' {
        s.drop_first()
    } else {
        s
    };
    if d.len() > 0 && all_ascii_digits(d) && digits_value(d) <= max {
        Some(digits_value(d))
    } else {
        None
    }
}

/// More digits never spell a smaller number.
pub proof fn lemma_digits_value_grows(s: Seq<char>, k: int)
    requires
        0 <= k <= s.len(),
        all_ascii_digits(s),
    ensures
        0 <= digits_value(s.take(k)) <= digits_value(s),
    decreases s.len(),
{
    if s.len() > 0 {
        let t = s.drop_last();
        assert(all_ascii_digits(t)) by {
            assert forall|i: int| 0 <= i < t.len() implies '0' <= #[trigger] t[i] <= '9' by {
                assert(t[i] == s[i]);
            }
        }
        assert('0' <= s[s.len() - 1] <= '9');
        if k == s.len() {
            assert(s.take(k) =~= s);
            lemma_digits_value_grows(t, t.len() as int);
            assert(t.take(t.len() as int) =~= t);
        } else {
            lemma_digits_value_grows(t, k);
            assert(t.take(k) =~= s.take(k));
            lemma_digits_value_grows(t, t.len() as int);
            assert(t.take(t.len() as int) =~= t);
        }
    } else {
        assert(s.take(k) =~= s);
    }
}

/// `str::parse` of an unsigned integer no larger than `max`.
pub fn parse_unsigned(s: &Vec<char>, max: u64) -> (r: Option<u64>)
    ensures
        match r {
            Some(v) => parsed_unsigned(s@, max as int) == Some(v as int),
            None => parsed_unsigned(s@, max as int) is None,
        },
{
    let start: usize = if s.len() > 0 && s[0] == '+' {
        1
    } else {
        0
    };
    let ghost d = if s@.len() > 0 && s@[0] == '+' {
        s@.drop_first()
    } else {
        s@
    };
    assert(d =~= s@.skip(start as int));
    if start >= s.len() {
        return None;
    }
    let mut v: u64 = 0;
    let mut i: usize = start;
    while i < s.len()
        invariant
            start <= i <= s.len(),
            d == s@.skip(start as int),
            d == (if s@.len() > 0 && s@[0] == '+' {
                s@.drop_first()
            } else {
                s@
            }),
            all_ascii_digits(d.take(i - start)),
            v as int == digits_value(d.take(i - start)),
            v <= max,
        decreases s.len() - i,
    {
        let c = s[i];
        assert(d[i - start] == c);
        if !('0' <= c && c <= '9') {
            assert(!all_ascii_digits(d));
            return None;
        }
        let digit: u64 = (c as u32 - 48) as u64;
        let next: u128 = v as u128 * 10 + digit as u128;
        proof {
            let p = d.take(i - start + 1);
            assert(p.drop_last() =~= d.take(i - start));
            assert(p.last() == c);
            assert(all_ascii_digits(p)) by {
                assert forall|k: int| 0 <= k < p.len() implies '0' <= #[trigger] p[k] <= '9' by {
                    if k < p.len() - 1 {
                        assert(p[k] == d.take(i - start)[k]);
                    }
                }
            }
            assert(next as int == digits_value(p));
        }
        if next > max as u128 {
            proof {
                let p = d.take(i - start + 1);
                if all_ascii_digits(d) {
                    lemma_digits_value_grows(d, i - start + 1);
                }
            }
            return None;
        }
        v = next as u64;
        i = i + 1;
    }
    assert(d.take(i - start) =~= d);
    Some(v)
}

/// The `/proc` entry of the process that holds a lock, read from the lock
/// file's text: the trimmed text as a `u32` process id.
pub open spec fn lock_proc_entry(text: Seq<char>) -> Option<Seq<char>> {
    match parsed_unsigned(crate::text::trim(text), 0xffff_ffff) {
        Some(pid) => Some("/proc/"@ + crate::format::digits(pid as nat)),
        None => None,
    }
}

/// Where to look for the process that holds a lock: `None` when the lock
/// file's text names no process, so the lock is stale.
pub fn lock_holder_entry(text: &str) -> (r: Option<String>)
    ensures
        match r {
            Some(e) => lock_proc_entry(text@) == Some(e@),
            None => lock_proc_entry(text@) is None,
        },
{
    let t = crate::text::trim_chars(&str_chars(text));
    match parse_unsigned(&t, 0xffff_ffff) {
        None => None,
        Some(pid) => {
            let mut out = str_chars("/proc/");
            extend_chars(&mut out, &crate::format::decimal(pid));
            Some(chars_string(&out))
        },
    }
}

/// How long, in milliseconds, a freshly started window is left before it is
/// hidden, when no setting says otherwise.
pub const HIDE_GRACE_MS: u64 = 100;

/// The wait before hiding a freshly started window: the setting read as a
/// `u64` when it is one, else `HIDE_GRACE_MS`.
pub fn tray_grace_ms(setting: Option<&str>) -> (r: u64)
    ensures
        r as int == match setting {
            Some(s) => match parsed_unsigned(s@, u64::MAX as int) {
                Some(v) => v,
                None => HIDE_GRACE_MS as int,
            },
            None => HIDE_GRACE_MS as int,
        },
{
    match setting {
        None => HIDE_GRACE_MS,
        Some(s) => match parse_unsigned(&str_chars(s), u64::MAX) {
            Some(v) => v,
            None => HIDE_GRACE_MS,
        },
    }
}

/// `a` comes no later than `b` in text order, comparing from position `i`
/// on: character codes decide at the first difference, and a text comes
/// before its longer continuations. This is the order in which `sort` puts
/// strings (UTF-8 keeps the order of character codes).
pub open spec fn text_le_from(a: Seq<char>, b: Seq<char>, i: int) -> bool
    decreases a.len() - i,
{
    if i < 0 || i >= a.len() {
        true
    } else if i >= b.len() {
        false
    } else if (a[i] as u32) != (b[i] as u32) {
        (a[i] as u32) < (b[i] as u32)
    } else {
        text_le_from(a, b, i + 1)
    }
}

/// `a` comes no later than `b` in text order.
pub open spec fn text_le(a: Seq<char>, b: Seq<char>) -> bool {
    text_le_from(a, b, 0)
}

/// Of two texts, one comes no later than the other.
pub proof fn lemma_text_le_total(a: Seq<char>, b: Seq<char>, i: int)
    requires
        0 <= i,
    ensures
        text_le_from(a, b, i) || text_le_from(b, a, i),
    decreases a.len() - i,
{
    if i < a.len() && i < b.len() && (a[i] as u32) == (b[i] as u32) {
        lemma_text_le_total(a, b, i + 1);
    }
}

/// Text order is transitive.
pub proof fn lemma_text_le_trans(a: Seq<char>, b: Seq<char>, c: Seq<char>, i: int)
    requires
        0 <= i,
        text_le_from(a, b, i),
        text_le_from(b, c, i),
    ensures
        text_le_from(a, c, i),
    decreases a.len() - i,
{
    if i < a.len() && i < b.len() && i < c.len() && (a[i] as u32) == (b[i] as u32) && (b[i] as u32)
        == (c[i] as u32) {
        lemma_text_le_trans(a, b, c, i + 1);
    }
}

fn text_le_exec(a: &Vec<char>, b: &Vec<char>) -> (r: bool)
    ensures
        r == text_le(a@, b@),
{
    let mut i: usize = 0;
    while i < a.len()
        invariant
            i <= a.len(),
            text_le(a@, b@) == text_le_from(a@, b@, i as int),
        decreases a.len() - i,
    {
        if i >= b.len() {
            return false;
        }
        if (a[i] as u32) != (b[i] as u32) {
            return (a[i] as u32) < (b[i] as u32);
        }
        i = i + 1;
    }
    true
}

/// The newest Hyprland instance among `names` (the instance directories):
/// the last in text order among those whose directory holds a socket or a
/// lock (`live`), if any.
pub fn latest_live_signature(names: &Vec<String>, live: &Vec<bool>) -> (r: Option<String>)
    requires
        names.len() == live.len(),
    ensures
        match r {
            None => forall|i: int| 0 <= i < live.len() ==> !live@[i],
            Some(n) => exists|i: int| 0 <= i < live.len() && live@[i] && #[trigger] names@[i]@ == n@,
        },
        r matches Some(n) ==> forall|j: int|
            0 <= j < live.len() && live@[j] ==> text_le(#[trigger] names@[j]@, n@),
{
    let mut best: Option<usize> = None;
    let mut best_chars: Vec<char> = Vec::new();
    let mut k: usize = 0;
    while k < names.len()
        invariant
            names.len() == live.len(),
            k <= names.len(),
            match best {
                None => forall|i: int| 0 <= i < k ==> !live@[i],
                Some(b) => b < k && live@[b as int] && best_chars@ == names@[b as int]@ && forall|j: int|
                    0 <= j < k && live@[j] ==> text_le(#[trigger] names@[j]@, best_chars@),
            },
        decreases names.len() - k,
    {
        if live[k] {
            let cand = str_chars(names[k].as_str());
            match best {
                None => {
                    proof {
                        lemma_text_le_total(cand@, cand@, 0);
                    }
                    best = Some(k);
                    best_chars = cand;
                },
                Some(b) => {
                    if text_le_exec(&best_chars, &cand) {
                        proof {
                            assert forall|j: int| 0 <= j < k + 1 && live@[j] implies text_le(
                                #[trigger] names@[j]@,
                                cand@,
                            ) by {
                                if j < k {
                                    lemma_text_le_trans(names@[j]@, best_chars@, cand@, 0);
                                } else {
                                    lemma_text_le_total(cand@, cand@, 0);
                                }
                            }
                        }
                        best = Some(k);
                        best_chars = cand;
                    } else {
                        proof {
                            lemma_text_le_total(best_chars@, cand@, 0);
                        }
                    }
                },
            }
        }
        k = k + 1;
    }
    match best {
        None => None,
        Some(b) => {
            let n = names[b].clone();
            proof {
                assert(names@[b as int]@ == n@);
            }
            Some(n)
        },
    }
}

/// The fields of one Hyprland client that decide whether it is Obsidian,
/// each present when the client's JSON object holds a string there.
#[derive(Debug, Clone, PartialEq, Eq)]
pub struct WindowClient {
    pub class: Option<String>,
    pub initial_class: Option<String>,
    pub title: Option<String>,
    pub address: Option<String>,
}

/// Class, initial class, title and address of a client, as plain values.
pub type ClientFields = (Option<Seq<char>>, Option<Seq<char>>, Option<Seq<char>>, Option<Seq<char>>);

pub open spec fn opt_text(o: Option<String>) -> Option<Seq<char>> {
    match o {
        Some(s) => Some(s@),
        None => None,
    }
}

impl WindowClient {
    pub open spec fn view(&self) -> ClientFields {
        (opt_text(self.class), opt_text(self.initial_class), opt_text(self.title), opt_text(self.address))
    }
}

pub open spec fn client_views(v: Seq<WindowClient>) -> Seq<ClientFields> {
    v.map_values(|c: WindowClient| c.view())
}

pub open spec fn clients_view(r: Option<Vec<WindowClient>>) -> Option<Seq<ClientFields>> {
    match r {
        Some(v) => Some(client_views(v@)),
        None => None,
    }
}

/// What `serde_json` reads from `hyprctl clients -j` output: `None` when the
/// text is not JSON or not an array, else the fields of each element.
pub uninterp spec fn json_window_clients(json: Seq<char>) -> Option<Seq<ClientFields>>;

/// Calls `serde_json::from_str::<serde_json::Value>`, `Value::as_array`,
/// `Value::get` and `Value::as_str`; claims the result is
/// `json_window_clients` of the text.
#[verifier::external_body]
fn window_clients(json: &str) -> (r: Option<Vec<WindowClient>>)
    ensures
        clients_view(r) == json_window_clients(json@),
{
    let clients: serde_json::Value = serde_json::from_str(json).ok()?;
    let mut out: Vec<WindowClient> = Vec::new();
    for c in clients.as_array()? {
        out.push(WindowClient {
            class: c.get("class").and_then(serde_json::Value::as_str).map(str::to_string),
            initial_class: c.get("initialClass").and_then(serde_json::Value::as_str).map(str::to_string),
            title: c.get("title").and_then(serde_json::Value::as_str).map(str::to_string),
            address: c.get("address").and_then(serde_json::Value::as_str).map(str::to_string),
        });
    }
    Some(out)
}

pub open spec fn or_empty(o: Option<Seq<char>>) -> Seq<char> {
    match o {
        Some(s) => s,
        None => Seq::empty(),
    }
}

/// A client whose (missing fields read as empty) class, initial class and
/// title make it an Obsidian window.
pub open spec fn obsidian_fields(c: ClientFields) -> bool {
    obsidian_client(or_empty(c.0), or_empty(c.1), or_empty(c.2))
}

/// The address of the first Obsidian client, if that client has one.
pub open spec fn first_obsidian_address(cs: Seq<ClientFields>) -> Option<Seq<char>>
    decreases cs.len(),
{
    if cs.len() == 0 {
        None
    } else if obsidian_fields(cs[0]) {
        cs[0].3
    } else {
        first_obsidian_address(cs.drop_first())
    }
}

fn text_or_empty(o: &Option<String>) -> (r: String)
    ensures
        r@ == or_empty(opt_text(*o)),
{
    match o {
        Some(s) => s.clone(),
        None => String::new(),
    }
}

/// The address of the first client that is an Obsidian window.
pub fn window_address_of(clients: &Vec<WindowClient>) -> (r: Option<String>)
    ensures
        opt_text(r) == first_obsidian_address(client_views(clients@)),
{
    let ghost cs = client_views(clients@);
    assert(cs.skip(0) =~= cs);
    let mut i: usize = 0;
    while i < clients.len()
        invariant
            cs == client_views(clients@),
            i <= clients.len(),
            first_obsidian_address(cs.skip(i as int)) == first_obsidian_address(cs),
        decreases clients.len() - i,
    {
        let c = &clients[i];
        let class = text_or_empty(&c.class);
        let initial = text_or_empty(&c.initial_class);
        let title = text_or_empty(&c.title);
        proof {
            assert(cs.skip(i as int)[0] == c.view());
            assert(cs.skip(i as int).drop_first() =~= cs.skip(i + 1));
        }
        if client_is_obsidian(class.as_str(), initial.as_str(), title.as_str()) {
            return c.address.clone();
        }
        i = i + 1;
    }
    None
}

/// The Hyprland address of the Obsidian window in `hyprctl clients -j`
/// output, if there is one.
pub fn parse_obsidian_window_address(clients_json: &str) -> (r: Option<String>)
    ensures
        match json_window_clients(clients_json@) {
            None => r is None,
            Some(cs) => opt_text(r) == first_obsidian_address(cs),
        },
{
    match window_clients(clients_json) {
        None => None,
        Some(v) => window_address_of(&v),
    }
}

/// What `serde_json` reads from `community-plugins.json` as a list of
/// strings, `None` when the text is not such a list.
pub uninterp spec fn json_string_list(text: Seq<char>) -> Option<Seq<Seq<char>>>;

pub open spec fn strings_view(r: Option<Vec<String>>) -> Option<Seq<Seq<char>>> {
    match r {
        Some(v) => Some(v@.map_values(|s: String| s@)),
        None => None,
    }
}

/// Calls `serde_json::from_str::<Vec<String>>`; claims the result is
/// `json_string_list` of the text.
#[verifier::external_body]
fn string_list(text: &str) -> (r: Option<Vec<String>>)
    ensures
        strings_view(r) == json_string_list(text@),
{
    serde_json::from_str::<Vec<String>>(text).ok()
}

/// Ids of the close-to-tray community plugins.
pub open spec fn tray_plugin_id(id: Seq<char>) -> bool {
    id == "background-tray"@ || id == "obsidian-tray"@
}

/// The enabled plugin ids, in list order, that are close-to-tray plugins.
pub open spec fn tray_ids_in(ids: Seq<Seq<char>>) -> Seq<Seq<char>> {
    ids.filter(|id: Seq<char>| tray_plugin_id(id))
}

/// The close-to-tray plugins that `community-plugins.json` enables, in list
/// order; none when the text is not a list of strings. Such a plugin is in
/// effect once its plugin description file is installed.
pub fn tray_plugin_candidates(list_json: &str) -> (r: Vec<String>)
    ensures
        r@.map_values(|s: String| s@) == match json_string_list(list_json@) {
            Some(ids) => tray_ids_in(ids),
            None => Seq::empty(),
        },
{
    let ids = match string_list(list_json) {
        Some(v) => v,
        None => return Vec::new(),
    };
    let ghost iv = ids@.map_values(|s: String| s@);
    let bg = str_chars("background-tray");
    let ot = str_chars("obsidian-tray");
    let mut out: Vec<String> = Vec::new();
    let mut i: usize = 0;
    while i < ids.len()
        invariant
            iv == ids@.map_values(|s: String| s@),
            bg@ == "background-tray"@,
            ot@ == "obsidian-tray"@,
            i <= ids.len(),
            out@.map_values(|s: String| s@) == tray_ids_in(iv.take(i as int)),
        decreases ids.len() - i,
    {
        let id = str_chars(ids[i].as_str());
        proof {
            assert(iv.take(i + 1) =~= iv.take(i as int).push(ids@[i as int]@));
            iv.take(i as int).lemma_filter_push(ids@[i as int]@, |id: Seq<char>| tray_plugin_id(id));
        }
        if crate::text::chars_eq(&id, &bg) || crate::text::chars_eq(&id, &ot) {
            out.push(ids[i].clone());
        }
        assert(out@.map_values(|s: String| s@) =~= tray_ids_in(iv.take(i + 1)));
        i = i + 1;
    }
    assert(iv.take(ids.len() as int) =~= iv);
    out
}

/// What the sync nudge has just learned.
#[derive(Clone, Copy, Debug, PartialEq, Eq)]
pub enum NudgeEvent {
    /// The nudge starts; `skip` when nudging is switched off.
    Begin { skip: bool },
    /// Whether the Obsidian app is running.
    Running(bool),
    /// Whether a detached `ensure-obsidian` child process could be spawned.
    ChildSpawned(bool),
}

/// What the sync nudge does next.
#[derive(Clone, Copy, Debug, PartialEq, Eq)]
pub enum NudgeStep {
    CheckRunning,
    SpawnChild,
    /// Open the vault's `obsidian://` URI directly.
    Launch,
    Done,
}

/// After a write, start Obsidian when the app is closed, so Sync can upload:
/// nothing when nudging is off or the app runs; otherwise a detached child
/// does the work, and when none can be spawned the vault URI is opened.
pub open spec fn nudge_next(event: NudgeEvent) -> NudgeStep {
    match event {
        NudgeEvent::Begin { skip } => if skip {
            NudgeStep::Done
        } else {
            NudgeStep::CheckRunning
        },
        NudgeEvent::Running(up) => if up {
            NudgeStep::Done
        } else {
            NudgeStep::SpawnChild
        },
        NudgeEvent::ChildSpawned(ok) => if ok {
            NudgeStep::Done
        } else {
            NudgeStep::Launch
        },
    }
}

/// The next step of the sync nudge after `event`.
pub fn nudge_sync(event: NudgeEvent) -> (r: NudgeStep)
    ensures
        r == nudge_next(event),
{
    match event {
        NudgeEvent::Begin { skip } => if skip {
            NudgeStep::Done
        } else {
            NudgeStep::CheckRunning
        },
        NudgeEvent::Running(up) => if up {
            NudgeStep::Done
        } else {
            NudgeStep::SpawnChild
        },
        NudgeEvent::ChildSpawned(ok) => if ok {
            NudgeStep::Done
        } else {
            NudgeStep::Launch
        },
    }
}

/// Where the start-and-hide run stands: which answer it waits for.
#[derive(Clone, Copy, Debug, PartialEq, Eq)]
pub enum EnsurePhase {
    Start,
    Locking,
    FirstCheck,
    TrayCheck,
    FirstLaunch,
    FirstWait,
    /// Start of a hide attempt: is the app still up?
    Probe,
    Relaunch,
    WaitAfterRelaunch,
    WaitWindow,
    Pause,
    AfterPause,
    Closing,
    Verify,
    AfterVerify,
    Reopen,
    Finished,
}

/// The run's state: its phase, whether a tray plugin asks for hiding, the
/// hide attempt (0 to 2) and the first attempt's pause in milliseconds.
#[derive(Clone, Copy, Debug, PartialEq, Eq)]
pub struct EnsureState {
    pub phase: EnsurePhase,
    pub hide: bool,
    pub round: u64,
    pub grace_ms: u64,
}

/// What the run has just learned.
#[derive(Clone, Copy, Debug, PartialEq, Eq)]
pub enum EnsureEvent {
    /// The run starts; `skip` when it is switched off, `grace_ms` the pause
    /// before the first close.
    Begin { skip: bool, grace_ms: u64 },
    /// Whether the single-run lock was taken.
    Locked(bool),
    Running(bool),
    /// Whether a close-to-tray plugin is enabled and installed.
    TrayPlugin(bool),
    Launched,
    /// Whether the awaited condition came true in time.
    Waited(bool),
    Slept,
    Closed,
    /// Whether the window is gone while the app keeps running.
    Hidden(bool),
}

/// What the run does next.
#[derive(Clone, Copy, Debug, PartialEq, Eq)]
pub enum EnsureStep {
    TakeLock,
    CheckRunning,
    CheckTrayPlugin,
    /// Open the vault's `obsidian://` URI.
    Launch,
    /// Wait (up to 20 s) until the app runs.
    WaitRunning,
    /// Wait (up to 15 s) until its window exists.
    WaitWindow,
    Sleep(u64),
    CloseWindow,
    CheckHidden,
    Done,
}

/// The pause before close attempt `round`: the grace period, then 400 and
/// 800 ms.
pub open spec fn hide_delay(round: u64, grace_ms: u64) -> u64 {
    if round == 0 {
        grace_ms
    } else if round == 1 {
        400
    } else {
        800
    }
}

pub open spec fn at(s: EnsureState, phase: EnsurePhase) -> EnsureState {
    EnsureState { phase, ..s }
}

pub open spec fn finished(s: EnsureState) -> (EnsureState, EnsureStep) {
    (at(s, EnsurePhase::Finished), EnsureStep::Done)
}

/// After an attempt fails: the next of the three attempts, or the end.
pub open spec fn next_round(s: EnsureState) -> (EnsureState, EnsureStep) {
    if s.round + 1 < 3 {
        (EnsureState { phase: EnsurePhase::Probe, round: (s.round + 1) as u64, ..s }, EnsureStep::CheckRunning)
    } else {
        finished(s)
    }
}

/// Start Obsidian when it is down and, when a close-to-tray plugin is on,
/// close its window once it loads so the app stays in the tray for Sync. A
/// close that quits the app (the plugin had not hooked in yet) relaunches it
/// and waits longer before the next of three attempts. Any answer the phase
/// does not expect ends the run.
pub open spec fn ensure_next(s: EnsureState, e: EnsureEvent) -> (EnsureState, EnsureStep) {
    match (s.phase, e) {
        (EnsurePhase::Start, EnsureEvent::Begin { skip, grace_ms }) => if skip {
            finished(s)
        } else {
            (EnsureState { phase: EnsurePhase::Locking, grace_ms, ..s }, EnsureStep::TakeLock)
        },
        (EnsurePhase::Locking, EnsureEvent::Locked(ok)) => if ok {
            (at(s, EnsurePhase::FirstCheck), EnsureStep::CheckRunning)
        } else {
            finished(s)
        },
        (EnsurePhase::FirstCheck, EnsureEvent::Running(up)) => if up {
            finished(s)
        } else {
            (at(s, EnsurePhase::TrayCheck), EnsureStep::CheckTrayPlugin)
        },
        (EnsurePhase::TrayCheck, EnsureEvent::TrayPlugin(hide)) => (
            EnsureState { phase: EnsurePhase::FirstLaunch, hide, ..s },
            EnsureStep::Launch,
        ),
        (EnsurePhase::FirstLaunch, EnsureEvent::Launched) => if s.hide {
            (at(s, EnsurePhase::FirstWait), EnsureStep::WaitRunning)
        } else {
            finished(s)
        },
        (EnsurePhase::FirstWait, EnsureEvent::Waited(ok)) => if ok {
            (EnsureState { phase: EnsurePhase::Probe, round: 0, ..s }, EnsureStep::CheckRunning)
        } else {
            finished(s)
        },
        (EnsurePhase::Probe, EnsureEvent::Running(up)) => if up {
            (at(s, EnsurePhase::WaitWindow), EnsureStep::WaitWindow)
        } else {
            (at(s, EnsurePhase::Relaunch), EnsureStep::Launch)
        },
        (EnsurePhase::Relaunch, EnsureEvent::Launched) => (
            at(s, EnsurePhase::WaitAfterRelaunch),
            EnsureStep::WaitRunning,
        ),
        (EnsurePhase::WaitAfterRelaunch, EnsureEvent::Waited(ok)) => if ok {
            (at(s, EnsurePhase::WaitWindow), EnsureStep::WaitWindow)
        } else {
            finished(s)
        },
        (EnsurePhase::WaitWindow, EnsureEvent::Waited(ok)) => if ok {
            (at(s, EnsurePhase::Pause), EnsureStep::Sleep(hide_delay(s.round, s.grace_ms)))
        } else {
            finished(s)
        },
        (EnsurePhase::Pause, EnsureEvent::Slept) => (at(s, EnsurePhase::AfterPause), EnsureStep::CheckRunning),
        (EnsurePhase::AfterPause, EnsureEvent::Running(up)) => if up {
            (at(s, EnsurePhase::Closing), EnsureStep::CloseWindow)
        } else {
            next_round(s)
        },
        (EnsurePhase::Closing, EnsureEvent::Closed) => (at(s, EnsurePhase::Verify), EnsureStep::CheckHidden),
        (EnsurePhase::Verify, EnsureEvent::Hidden(ok)) => if ok {
            finished(s)
        } else {
            (at(s, EnsurePhase::AfterVerify), EnsureStep::CheckRunning)
        },
        (EnsurePhase::AfterVerify, EnsureEvent::Running(up)) => if up {
            next_round(s)
        } else {
            (at(s, EnsurePhase::Reopen), EnsureStep::Launch)
        },
        (EnsurePhase::Reopen, EnsureEvent::Launched) => next_round(s),
        _ => finished(s),
    }
}

impl EnsureState {
    /// A run that has not started.
    pub fn new() -> (s: EnsureState)
        ensures
            s.phase == EnsurePhase::Start && s.round == 0,
    {
        EnsureState { phase: EnsurePhase::Start, hide: false, round: 0, grace_ms: 0 }
    }
}

fn goto(s: &mut EnsureState, phase: EnsurePhase)
    ensures
        *final(s) == at(*old(s), phase),
{
    s.phase = phase;
}

fn finish(s: &mut EnsureState) -> (r: EnsureStep)
    ensures
        (*final(s), r) == finished(*old(s)),
{
    s.phase = EnsurePhase::Finished;
    EnsureStep::Done
}

fn advance_round(s: &mut EnsureState) -> (r: EnsureStep)
    ensures
        (*final(s), r) == next_round(*old(s)),
{
    if s.round < 2 {
        s.round = s.round + 1;
        s.phase = EnsurePhase::Probe;
        EnsureStep::CheckRunning
    } else {
        finish(s)
    }
}

/// The next step of the start-and-hide run after `event`; `state` moves on.
pub fn ensure_obsidian(state: &mut EnsureState, event: EnsureEvent) -> (r: EnsureStep)
    ensures
        (*final(state), r) == ensure_next(*old(state), event),
{
    match (state.phase, event) {
        (EnsurePhase::Start, EnsureEvent::Begin { skip, grace_ms }) => if skip {
            finish(state)
        } else {
            state.grace_ms = grace_ms;
            state.phase = EnsurePhase::Locking;
            EnsureStep::TakeLock
        },
        (EnsurePhase::Locking, EnsureEvent::Locked(ok)) => if ok {
            goto(state, EnsurePhase::FirstCheck);
            EnsureStep::CheckRunning
        } else {
            finish(state)
        },
        (EnsurePhase::FirstCheck, EnsureEvent::Running(up)) => if up {
            finish(state)
        } else {
            goto(state, EnsurePhase::TrayCheck);
            EnsureStep::CheckTrayPlugin
        },
        (EnsurePhase::TrayCheck, EnsureEvent::TrayPlugin(hide)) => {
            state.hide = hide;
            state.phase = EnsurePhase::FirstLaunch;
            EnsureStep::Launch
        },
        (EnsurePhase::FirstLaunch, EnsureEvent::Launched) => if state.hide {
            goto(state, EnsurePhase::FirstWait);
            EnsureStep::WaitRunning
        } else {
            finish(state)
        },
        (EnsurePhase::FirstWait, EnsureEvent::Waited(ok)) => if ok {
            state.round = 0;
            state.phase = EnsurePhase::Probe;
            EnsureStep::CheckRunning
        } else {
            finish(state)
        },
        (EnsurePhase::Probe, EnsureEvent::Running(up)) => if up {
            goto(state, EnsurePhase::WaitWindow);
            EnsureStep::WaitWindow
        } else {
            goto(state, EnsurePhase::Relaunch);
            EnsureStep::Launch
        },
        (EnsurePhase::Relaunch, EnsureEvent::Launched) => {
            goto(state, EnsurePhase::WaitAfterRelaunch);
            EnsureStep::WaitRunning
        },
        (EnsurePhase::WaitAfterRelaunch, EnsureEvent::Waited(ok)) => if ok {
            goto(state, EnsurePhase::WaitWindow);
            EnsureStep::WaitWindow
        } else {
            finish(state)
        },
        (EnsurePhase::WaitWindow, EnsureEvent::Waited(ok)) => if ok {
            let delay = if state.round == 0 {
                state.grace_ms
            } else if state.round == 1 {
                400
            } else {
                800
            };
            goto(state, EnsurePhase::Pause);
            EnsureStep::Sleep(delay)
        } else {
            finish(state)
        },
        (EnsurePhase::Pause, EnsureEvent::Slept) => {
            goto(state, EnsurePhase::AfterPause);
            EnsureStep::CheckRunning
        },
        (EnsurePhase::AfterPause, EnsureEvent::Running(up)) => if up {
            goto(state, EnsurePhase::Closing);
            EnsureStep::CloseWindow
        } else {
            advance_round(state)
        },
        (EnsurePhase::Closing, EnsureEvent::Closed) => {
            goto(state, EnsurePhase::Verify);
            EnsureStep::CheckHidden
        },
        (EnsurePhase::Verify, EnsureEvent::Hidden(ok)) => if ok {
            finish(state)
        } else {
            goto(state, EnsurePhase::AfterVerify);
            EnsureStep::CheckRunning
        },
        (EnsurePhase::AfterVerify, EnsureEvent::Running(up)) => if up {
            advance_round(state)
        } else {
            goto(state, EnsurePhase::Reopen);
            EnsureStep::Launch
        },
        (EnsurePhase::Reopen, EnsureEvent::Launched) => advance_round(state),
        _ => finish(state),
    }
}

/// A state the run can be in: hide attempts are numbered 0 to 2.
pub open spec fn ensure_wf(s: EnsureState) -> bool {
    s.round < 3
}

/// Rank of a phase within a hide attempt, falling as the attempt goes on.
pub open spec fn round_rank(p: EnsurePhase) -> int {
    match p {
        EnsurePhase::Probe => 9,
        EnsurePhase::Relaunch => 8,
        EnsurePhase::WaitAfterRelaunch => 7,
        EnsurePhase::WaitWindow => 6,
        EnsurePhase::Pause => 5,
        EnsurePhase::AfterPause => 4,
        EnsurePhase::Closing => 3,
        EnsurePhase::Verify => 2,
        EnsurePhase::AfterVerify => 1,
        _ => 0,
    }
}

/// How many steps the run can still take at most.
pub open spec fn ensure_measure(s: EnsureState) -> int {
    match s.phase {
        EnsurePhase::Start => 46,
        EnsurePhase::Locking => 45,
        EnsurePhase::FirstCheck => 44,
        EnsurePhase::TrayCheck => 43,
        EnsurePhase::FirstLaunch => 42,
        EnsurePhase::FirstWait => 41,
        EnsurePhase::Finished => 0,
        _ => (3 - s.round) * 10 + round_rank(s.phase),
    }
}

/// The start-and-hide run always ends: every step that is not the last
/// lowers the measure, which starts at 46, and keeps the state valid; so a
/// run makes at most 46 steps and at most three close attempts.
pub proof fn law_ensure_run_ends(s: EnsureState, e: EnsureEvent)
    requires
        ensure_wf(s),
    ensures
        ensure_wf(ensure_next(s, e).0),
        ensure_next(s, e).1 != EnsureStep::Done ==> 0 <= ensure_measure(ensure_next(s, e).0)
            < ensure_measure(s),
{
}

/// The window is closed only right after the app was seen running.
pub proof fn law_close_only_running(s: EnsureState, e: EnsureEvent)
    ensures
        ensure_next(s, e).1 == EnsureStep::CloseWindow ==> e == EnsureEvent::Running(true),
{
}

/// The vault URI is opened only when the app was just seen down, or right
/// after the first check found it down and the tray plugin was looked up.
pub proof fn law_launch_only_when_down(s: EnsureState, e: EnsureEvent)
    ensures
        ensure_next(s, e).1 == EnsureStep::Launch ==> e == EnsureEvent::Running(false) || (s.phase
            == EnsurePhase::TrayCheck && e is TrayPlugin),
{
}

/// A run that is switched off, or finds the app already running at its
/// first check, ends without launching anything.
pub proof fn law_ensure_leaves_running_app(s: EnsureState, grace_ms: u64)
    ensures
        ensure_next(at(s, EnsurePhase::Start), EnsureEvent::Begin { skip: true, grace_ms }).1
            == EnsureStep::Done,
        ensure_next(at(s, EnsurePhase::FirstCheck), EnsureEvent::Running(true)).1 == EnsureStep::Done,
{
}

/// The nudge opens the URI itself only when the app is down and no child
/// could take over.
pub proof fn law_nudge_launch(e: NudgeEvent)
    ensures
        nudge_next(e) == NudgeStep::Launch <==> e == NudgeEvent::ChildSpawned(false),
        nudge_next(NudgeEvent::Running(true)) == NudgeStep::Done,
{
}

/// A character an `obsidian://` path keeps as it is: an ASCII letter or
/// digit, or one of `-_.~/`.
pub open spec fn plain_path_char(c: char) -> bool {
    ||| 'A' <= c <= 'Z'
    ||| 'a' <= c <= 'z'
    ||| '0' <= c <= '9'
    ||| c == '-' || c == '_' || c == '.' || c == '~' || c == '/'
}

proof fn lemma_plain_bytes(path: Seq<char>, bytes: Seq<u8>)
    requires
        bytes.len() == path.len(),
        forall|i: int| 0 <= i < path.len() ==> plain_path_char(#[trigger] path[i]),
        forall|i: int| 0 <= i < path.len() ==> #[trigger] bytes[i] == path[i] as u8,
    ensures
        percent_encoded(bytes) == path,
    decreases path.len(),
{
    if path.len() > 0 {
        let n = path.len() - 1;
        lemma_plain_bytes(path.drop_last(), bytes.drop_last());
        let c = path[n];
        let b = bytes[n];
        assert(plain_path_char(c));
        assert(b == c as u8);
        assert(unreserved(b));
        assert(b as char == c);
        assert(encode_byte(b) =~= seq![c]);
        assert(path.drop_last() + seq![c] =~= path);
    } else {
        assert(bytes.len() == 0);
        assert(path =~= Seq::<char>::empty());
    }
}

/// A path made only of ASCII letters, digits and `-_.~/` appears in its
/// `obsidian://` URI as it is: slashes are kept.
pub proof fn law_plain_paths_kept(path: Seq<char>)
    requires
        forall|i: int| 0 <= i < path.len() ==> plain_path_char(#[trigger] path[i]),
    ensures
        uri_of(path) == "obsidian://open?path="@ + path,
{
    assert(vstd::utf8::is_ascii_chars(path)) by {
        assert forall|i: int| 0 <= i < path.len() implies '\0' <= #[trigger] path[i] <= '\u{7f}' by {
            assert(plain_path_char(path[i]));
        }
    }
    vstd::utf8::is_ascii_chars_encode_utf8(path);
    let bytes = encode_utf8(path);
    assert forall|i: int| 0 <= i < path.len() implies #[trigger] bytes[i] == path[i] as u8 by {}
    lemma_plain_bytes(path, bytes);
}

} // verus!
