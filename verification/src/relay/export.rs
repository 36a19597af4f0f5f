//! The export of the counters to a collector: its settings, the request and the reply.
//!
//! Export is off unless a collector is named. A failed export loses a sample and no counts, since the
//! next one carries the running totals.
use vstd::prelude::*;

use crate::text;
use crate::text::{append, chars_of, decimal_of, parse_number, text_of, trim};

verus! {

/// Where and how often the counters are exported.
#[derive(Debug)]
pub struct ExportConfig {
    /// The collector's host.
    pub host: String,
    /// Its port.
    pub port: u16,
    /// The ingestion key, if it wants one.
    pub key: Option<String>,
    /// The operator's label for this server.
    pub instance: String,
    /// Seconds between exports.
    pub interval_secs: u64,
}

/// The view of an optional text.
pub open spec fn text_view(s: Option<String>) -> Option<Seq<char>> {
    match s {
        Some(s) => Some(s@),
        None => None,
    }
}

/// A variable of the environment, where unset and blank are both absent.
pub open spec fn env_value(raw: Option<Seq<char>>) -> Option<Seq<char>> {
    match raw {
        Some(s) => if text::trimmed(s).len() > 0 {
            Some(s)
        } else {
            None
        },
        None => None,
    }
}

/// A number from the environment of up to `max`, or the flag where it is absent or no number.
pub open spec fn env_number(raw: Option<Seq<char>>, flag: u64, max: u64) -> u64 {
    match env_value(raw) {
        Some(s) => match text::number_in(text::trimmed(s), max) {
            Some(n) => n,
            None => flag,
        },
        None => flag,
    }
}

/// A variable of the environment, where unset and blank are both absent.
pub fn env_opt(raw: Option<String>) -> (r: Option<String>)
    ensures
        text_view(r) == env_value(text_view(raw)),
{
    match raw {
        Some(s) => {
            let blank: bool = chars_of(trim(s.as_str())).len() == 0;
            if blank {
                None
            } else {
                Some(s)
            }
        },
        None => None,
    }
}

/// A number from the environment of up to `max`, or the flag where it is absent or no number: a typing
/// error costs the setting, not the server.
pub fn env_num(raw: Option<String>, flag: u64, max: u64) -> (n: u64)
    ensures
        n == env_number(text_view(raw), flag, max),
{
    match env_opt(raw) {
        Some(s) => match parse_number(trim(s.as_str()), max) {
            Some(n) => n,
            None => flag,
        },
        None => flag,
    }
}

/// The export settings of the command line.
#[derive(Debug)]
pub struct ExportFlags {
    /// The collector's host.
    pub host: Option<String>,
    /// Its port.
    pub port: u16,
    /// The ingestion key.
    pub key: Option<String>,
    /// The operator's label.
    pub instance: String,
    /// Seconds between exports.
    pub interval_secs: u64,
}

/// The export settings of the environment, as they are.
#[derive(Debug)]
pub struct ExportEnv {
    /// The collector's host.
    pub host: Option<String>,
    /// Its port.
    pub port: Option<String>,
    /// The ingestion key.
    pub key: Option<String>,
    /// The operator's label.
    pub instance: Option<String>,
    /// Seconds between exports.
    pub interval_secs: Option<String>,
}

/// The first of two optional texts.
pub open spec fn either(a: Option<Seq<char>>, b: Option<Seq<char>>) -> Option<Seq<char>> {
    match a {
        Some(s) => Some(s),
        None => b,
    }
}

fn first_of(a: Option<String>, b: Option<String>) -> (r: Option<String>)
    ensures
        text_view(r) == either(text_view(a), text_view(b)),
{
    match a {
        Some(s) => Some(s),
        None => b,
    }
}

/// What export settings say.
pub struct ExportModel {
    /// The collector's host.
    pub host: Seq<char>,
    /// Its port.
    pub port: int,
    /// The ingestion key.
    pub key: Option<Seq<char>>,
    /// The operator's label.
    pub instance: Seq<char>,
    /// Seconds between exports.
    pub interval_secs: int,
}

/// What optional export settings say.
pub open spec fn export_view(c: Option<ExportConfig>) -> Option<ExportModel> {
    match c {
        Some(c) => Some(
            ExportModel {
                host: c.host@,
                port: c.port as int,
                key: text_view(c.key),
                instance: c.instance@,
                interval_secs: c.interval_secs as int,
            },
        ),
        None => None,
    }
}

/// The settings that are in force.
pub open spec fn in_force(flags: ExportFlags, env: ExportEnv) -> Option<ExportModel> {
    match either(text_view(flags.host), env_value(text_view(env.host))) {
        Some(host) => Some(
            ExportModel {
                host,
                port: env_number(text_view(env.port), flags.port as u64, 0xffff) as int,
                key: either(text_view(flags.key), env_value(text_view(env.key))),
                instance: either(
                    env_value(text_view(env.instance)),
                    Some(flags.instance@),
                )->0,
                interval_secs: ({
                    let n = env_number(
                        text_view(env.interval_secs),
                        flags.interval_secs,
                        u64::MAX,
                    );
                    if n < 1 {
                        1
                    } else {
                        n as int
                    }
                }),
            },
        ),
        None => None,
    }
}

/// The settings that are in force: nothing is exported without a host. For host and key the command line
/// goes before the environment; for the label, the port and the interval the environment goes first. The
/// interval is at least a second.
pub fn resolve_export(flags: ExportFlags, env: ExportEnv) -> (r: Option<ExportConfig>)
    ensures
        match r {
            Some(c) => {
                &&& either(text_view(flags.host), env_value(text_view(env.host))) == Some(c.host@)
                &&& text_view(c.key) == either(
                    text_view(flags.key),
                    env_value(text_view(env.key)),
                )
                &&& Some(c.instance@) == either(
                    env_value(text_view(env.instance)),
                    Some(flags.instance@),
                )
                &&& c.port == env_number(text_view(env.port), flags.port as u64, 0xffff)
                &&& c.interval_secs == ({
                    let n = env_number(
                        text_view(env.interval_secs),
                        flags.interval_secs,
                        u64::MAX,
                    );
                    if n < 1 {
                        1
                    } else {
                        n
                    }
                })
            },
            None => either(text_view(flags.host), env_value(text_view(env.host))) is None,
        },
        export_view(r) == in_force(flags, env),
{
    let host: String = match first_of(flags.host, env_opt(env.host)) {
        Some(h) => h,
        None => {
            return None;
        },
    };
    let key: Option<String> = first_of(flags.key, env_opt(env.key));
    let instance: String = match env_opt(env.instance) {
        Some(s) => s,
        None => flags.instance,
    };
    let port: u64 = env_num(env.port, flags.port as u64, 0xffff);
    let secs: u64 = env_num(env.interval_secs, flags.interval_secs, u64::MAX);
    Some(
        ExportConfig {
            host,
            port: port as u16,
            key,
            instance,
            interval_secs: if secs < 1 {
                1
            } else {
                secs
            },
        },
    )
}

/// The head of the request for a body of `len` bytes.
pub open spec fn head_text(host: Seq<char>, key: Option<Seq<char>>, len: nat) -> Seq<char> {
    "POST /v1/metrics HTTP/1.1\r\n"@ + "Host: "@ + host + "\r\n"@
        + "Content-Type: application/json\r\n"@ + "Content-Length: "@ + text::decimal(len)
        + "\r\n"@ + (match key {
        Some(k) => "signoz-ingestion-key: "@ + k + "\r\n"@,
        None => Seq::empty(),
    }) + "Connection: close\r\n\r\n"@
}

/// The head of the request for a body of `len` bytes. The connection is used once.
pub fn request_head(cfg: &ExportConfig, len: usize) -> (s: String)
    ensures
        s@ == head_text(cfg.host@, text_view(cfg.key), len as nat),
{
    let mut s: String = String::new();
    append(&mut s, "POST /v1/metrics HTTP/1.1\r\n");
    append(&mut s, "Host: ");
    append(&mut s, cfg.host.as_str());
    append(&mut s, "\r\n");
    append(&mut s, "Content-Type: application/json\r\n");
    append(&mut s, "Content-Length: ");
    append(&mut s, decimal_of(len as u128).as_str());
    append(&mut s, "\r\n");
    let ghost upto = s@;
    assert(upto =~= "POST /v1/metrics HTTP/1.1\r\n"@ + "Host: "@ + cfg.host@ + "\r\n"@
        + "Content-Type: application/json\r\n"@ + "Content-Length: "@ + text::decimal(
        len as nat,
    ) + "\r\n"@);
    if let Some(k) = &cfg.key {
        append(&mut s, "signoz-ingestion-key: ");
        append(&mut s, k.as_str());
        append(&mut s, "\r\n");
        assert(s@ =~= upto + ("signoz-ingestion-key: "@ + k@ + "\r\n"@));
    } else {
        assert(s@ =~= upto + Seq::<char>::empty());
    }
    append(&mut s, "Connection: close\r\n\r\n");
    s
}

/// The text up to the first line end.
pub open spec fn first_line(s: Seq<char>) -> Seq<char>
    decreases s.len(),
{
    if s.len() == 0 || s[0] == '\n' {
        Seq::empty()
    } else {
        seq![s[0]] + first_line(s.skip(1))
    }
}

/// The text up to the first white space.
pub open spec fn first_word(s: Seq<char>) -> Seq<char>
    decreases s.len(),
{
    if s.len() == 0 || text::white_space(s[0]) {
        Seq::empty()
    } else {
        seq![s[0]] + first_word(s.skip(1))
    }
}

/// The second word of a text, empty where there is none.
pub open spec fn second_word(s: Seq<char>) -> Seq<char> {
    let t = text::trim_start(s);
    first_word(text::trim_start(t.skip(first_word(t).len() as int)))
}

/// The status of an HTTP reply that begins with this text.
pub open spec fn status_in(s: Seq<char>) -> Option<u16> {
    match text::number_in(second_word(first_line(s)), 0xffff) {
        Some(n) => Some(n as u16),
        None => None,
    }
}

/// The place of the first line end.
fn line_end(v: &Vec<char>) -> (n: usize)
    ensures
        n <= v@.len(),
        first_line(v@) == v@.take(n as int),
{
    let mut n: usize = 0;
    assert(v@.skip(0) =~= v@);
    assert(v@.take(0) + first_line(v@.skip(0)) =~= first_line(v@));
    while n < v.len() && v[n] != '\n'
        invariant
            n <= v@.len(),
            first_line(v@) == v@.take(n as int) + first_line(v@.skip(n as int)),
        decreases v@.len() - n,
    {
        proof {
            let rest = v@.skip(n as int);
            assert(rest.skip(1) =~= v@.skip(n + 1));
            assert(v@.take(n + 1) =~= v@.take(n as int).push(v@[n as int]));
            assert(v@.take(n as int) + (seq![rest[0]] + first_line(rest.skip(1)))
                =~= v@.take(n + 1) + first_line(v@.skip(n + 1)));
        }
        n = n + 1;
    }
    proof {
        assert(first_line(v@.skip(n as int)) =~= Seq::empty());
        assert(v@.take(n as int) + Seq::<char>::empty() =~= v@.take(n as int));
    }
    n
}

/// The place after the white space that stands from `from` on, before `end`.
fn skip_space(v: &Vec<char>, from: usize, end: usize) -> (n: usize)
    requires
        from <= end <= v@.len(),
    ensures
        from <= n <= end,
        v@.subrange(n as int, end as int) == text::trim_start(
            v@.subrange(from as int, end as int),
        ),
{
    let mut n: usize = from;
    while n < end && text::is_white_space(v[n])
        invariant
            from <= n <= end <= v@.len(),
            text::trim_start(v@.subrange(n as int, end as int)) == text::trim_start(
                v@.subrange(from as int, end as int),
            ),
        decreases end - n,
    {
        assert(v@.subrange(n as int, end as int).drop_first() =~= v@.subrange(n + 1, end as int));
        n = n + 1;
    }
    n
}

/// The place after the word that stands at `from`, before `end`.
fn skip_word(v: &Vec<char>, from: usize, end: usize) -> (n: usize)
    requires
        from <= end <= v@.len(),
    ensures
        from <= n <= end,
        first_word(v@.subrange(from as int, end as int)) == v@.subrange(from as int, n as int),
{
    let mut n: usize = from;
    let ghost all = v@.subrange(from as int, end as int);
    assert(v@.subrange(from as int, from as int) + first_word(all) =~= first_word(all));
    while n < end && !text::is_white_space(v[n])
        invariant
            from <= n <= end <= v@.len(),
            first_word(all) == v@.subrange(from as int, n as int) + first_word(
                v@.subrange(n as int, end as int),
            ),
        decreases end - n,
    {
        proof {
            let rest = v@.subrange(n as int, end as int);
            assert(rest.skip(1) =~= v@.subrange(n + 1, end as int));
            assert(v@.subrange(from as int, n as int) + (seq![rest[0]] + first_word(rest.skip(1)))
                =~= v@.subrange(from as int, n + 1) + first_word(
                v@.subrange(n + 1, end as int),
            ));
        }
        n = n + 1;
    }
    proof {
        assert(first_word(v@.subrange(n as int, end as int)) =~= Seq::empty());
        assert(v@.subrange(from as int, n as int) + Seq::<char>::empty() =~= v@.subrange(
            from as int,
            n as int,
        ));
    }
    n
}

/// The status of an HTTP reply that begins with this text: the second word of its first line, where that
/// is a number.
pub fn status_of(reply: &str) -> (r: Option<u16>)
    ensures
        r == status_in(reply@),
{
    let v: Vec<char> = chars_of(reply);
    let end: usize = line_end(&v);
    let ghost line = first_line(v@);
    assert(v@.subrange(0, end as int) =~= line);
    let a: usize = skip_space(&v, 0, end);
    let b: usize = skip_word(&v, a, end);
    let c: usize = skip_space(&v, b, end);
    let d: usize = skip_word(&v, c, end);
    proof {
        let t = text::trim_start(line);
        assert(t.skip(first_word(t).len() as int) =~= v@.subrange(b as int, end as int));
    }
    let word: String = text_of(vstd::slice::slice_subrange(v.as_slice(), c, d));
    match parse_number(word.as_str(), 0xffff) {
        Some(n) => Some(n as u16),
        None => None,
    }
}

/// Export errors.
#[derive(Debug, Clone, Copy, PartialEq, Eq, Structural)]
pub enum ExportError {
    /// The reply has no status line.
    MalformedStatus,
}

/// The status of an HTTP reply that begins with these bytes.
pub fn parse_status(head: &[u8]) -> (r: Result<u16, ExportError>)
    ensures
        r == match status_in(text::utf8_lossy_of(head@)) {
            Some(n) => Ok::<u16, ExportError>(n),
            None => Err(ExportError::MalformedStatus),
        },
{
    match status_of(text::utf8_lossy(head).as_str()) {
        Some(n) => Ok(n),
        None => Err(ExportError::MalformedStatus),
    }
}

/// Whether a status says that the export was taken.
pub fn export_accepted(status: u16) -> (r: bool)
    ensures
        r == (200 <= status < 300),
{
    200 <= status && status < 300
}

// ---- what holds of the export ----

/// An environment variable is set and not blank.
pub open spec fn set(raw: Option<String>) -> bool {
    raw matches Some(s) && exists|i: int|
        0 <= i < s@.len() && !text::white_space(#[trigger] s@[i])
}

proof fn lemma_set(raw: Option<String>)
    ensures
        env_value(text_view(raw)) == if set(raw) {
            Some(raw->0@)
        } else {
            None::<Seq<char>>
        },
{
    if let Some(s) = raw {
        lemma_blank(s@);
    }
}

proof fn lemma_blank(s: Seq<char>)
    ensures
        text::trimmed(s).len() == 0 <==> forall|i: int|
            0 <= i < s.len() ==> text::white_space(#[trigger] s[i]),
{
    lemma_trim_start_blank(s);
    lemma_trim_end_blank(text::trim_start(s));
}

proof fn lemma_trim_start_blank(s: Seq<char>)
    ensures
        text::trim_start(s).len() == 0 <==> forall|i: int|
            0 <= i < s.len() ==> text::white_space(#[trigger] s[i]),
        text::trim_start(s).len() > 0 ==> !text::white_space(text::trim_start(s)[0]),
    decreases s.len(),
{
    if s.len() > 0 && text::white_space(s[0]) {
        let t = s.drop_first();
        lemma_trim_start_blank(t);
        if forall|i: int| 0 <= i < t.len() ==> text::white_space(#[trigger] t[i]) {
            assert forall|i: int| 0 <= i < s.len() implies text::white_space(#[trigger] s[i]) by {
                if i > 0 {
                    assert(t[i - 1] == s[i]);
                }
            }
        } else {
            let i = choose|i: int| 0 <= i < t.len() && !text::white_space(#[trigger] t[i]);
            assert(s[i + 1] == t[i]);
        }
    }
}

proof fn lemma_trim_end_blank(s: Seq<char>)
    ensures
        s.len() > 0 && !text::white_space(s[0]) ==> text::trim_end(s).len() > 0,
        s.len() == 0 ==> text::trim_end(s).len() == 0,
    decreases s.len(),
{
    if s.len() > 0 && text::white_space(s.last()) {
        let t = s.drop_last();
        lemma_trim_end_blank(t);
        if !text::white_space(s[0]) {
            assert(t[0] == s[0]);
        }
    }
}

/// The command line names the collector and the key before the environment does, and without a collector
/// in either nothing is exported. A blank variable is as good as none.
pub proof fn lemma_command_line_names_the_collector(flags: ExportFlags, env: ExportEnv)
    ensures
        in_force(flags, env) is Some <==> flags.host is Some || set(env.host),
        in_force(flags, env) matches Some(c) ==> {
            &&& flags.host matches Some(h) ==> c.host == h@
            &&& flags.host is None ==> c.host == env.host->0@
            &&& flags.key matches Some(k) ==> c.key == Some(k@)
            &&& flags.key is None && set(env.key) ==> c.key == Some(env.key->0@)
            &&& flags.key is None && !set(env.key) ==> c.key is None
        },
{
    lemma_set(env.host);
    lemma_set(env.key);
}

/// For the label, the port and the interval the environment goes before the command line, where it says
/// something: a number in decimal, with white space around it or not, counts up to the largest that is
/// allowed, and anything that does not start with a digit or a plus sign does not count. The interval is
/// never zero.
pub proof fn lemma_environment_tunes_the_export(
    flags: ExportFlags,
    env: ExportEnv,
    before: Seq<char>,
    n: u64,
    after: Seq<char>,
)
    requires
        in_force(flags, env) is Some,
        forall|i: int| 0 <= i < before.len() ==> text::white_space(#[trigger] before[i]),
        forall|i: int| 0 <= i < after.len() ==> text::white_space(#[trigger] after[i]),
    ensures
        ({
            let c = in_force(flags, env)->0;
            let spelled = before + text::decimal(n as nat) + after;
            &&& set(env.instance) ==> c.instance == env.instance->0@
            &&& !set(env.instance) ==> c.instance == flags.instance@
            &&& text_view(env.port) == Some(spelled) ==> c.port == if n <= 65535 {
                n as int
            } else {
                flags.port as int
            }
            &&& !set(env.port) ==> c.port == flags.port
            &&& text_view(env.interval_secs) == Some(spelled) ==> c.interval_secs == if n == 0 {
                1
            } else {
                n as int
            }
            &&& !set(env.interval_secs) ==> c.interval_secs == if flags.interval_secs == 0 {
                1
            } else {
                flags.interval_secs as int
            }
            &&& c.interval_secs >= 1
        }),
{
    lemma_set(env.instance);
    lemma_set(env.port);
    lemma_set(env.interval_secs);
    let d = text::decimal(n as nat);
    text::lemma_decimal_is_digits(n as nat);
    text::lemma_decimal_reads_back(n, u64::MAX);
    if n <= 65535 {
        text::lemma_decimal_reads_back(n, 0xffff);
    }
    assert('0' <= d[0] <= '9');
    assert('0' <= d[d.len() - 1] <= '9');
    text::lemma_trimmed_around(before, d, after);
}

/// The text holds this part.
pub open spec fn holds(s: Seq<char>, part: Seq<char>) -> bool {
    exists|at: int| 0 <= at <= s.len() - part.len() && #[trigger] s.subrange(
        at,
        at + part.len() as int,
    ) == part
}

/// The request is a POST of JSON to the metrics path of the collector, which says how long the body is,
/// carries the ingestion key just where there is one, asks for the connection to be closed, and ends its
/// head with an empty line.
pub proof fn lemma_request_head_is_complete(host: Seq<char>, key: Option<Seq<char>>, len: nat)
    ensures
        ({
            let head = head_text(host, key, len);
            let begin = "POST /v1/metrics HTTP/1.1\r\nHost: "@;
            let end = "Connection: close\r\n\r\n"@;
            &&& head.len() >= begin.len() + end.len()
            &&& head.take(begin.len() as int) == begin
            &&& head.skip(head.len() - end.len()) == end
            &&& holds(
                head,
                host + "\r\nContent-Type: application/json\r\nContent-Length: "@ + text::decimal(
                    len,
                ) + "\r\n"@,
            )
            &&& key matches Some(k) ==> holds(head, "\r\nsignoz-ingestion-key: "@ + k + "\r\n"@)
            &&& key is None ==> head == begin + host
                + "\r\nContent-Type: application/json\r\nContent-Length: "@ + text::decimal(len)
                + "\r\n"@ + end
        }),
{
    reveal_strlit("POST /v1/metrics HTTP/1.1\r\nHost: ");
    reveal_strlit("POST /v1/metrics HTTP/1.1\r\n");
    reveal_strlit("Host: ");
    reveal_strlit("\r\n");
    reveal_strlit("Content-Type: application/json\r\n");
    reveal_strlit("Content-Length: ");
    reveal_strlit("\r\nContent-Type: application/json\r\nContent-Length: ");
    reveal_strlit("\r\nsignoz-ingestion-key: ");
    reveal_strlit("signoz-ingestion-key: ");
    reveal_strlit("Connection: close\r\n\r\n");
    let head = head_text(host, key, len);
    let begin = "POST /v1/metrics HTTP/1.1\r\nHost: "@;
    let end = "Connection: close\r\n\r\n"@;
    let middle = "\r\nContent-Type: application/json\r\nContent-Length: "@;
    let d = text::decimal(len);
    let more = match key {
        Some(k) => "signoz-ingestion-key: "@ + k + "\r\n"@,
        None => Seq::empty(),
    };
    assert("POST /v1/metrics HTTP/1.1\r\n"@ + "Host: "@ =~= begin);
    assert("\r\n"@ + "Content-Type: application/json\r\n"@ + "Content-Length: "@ =~= middle);
    assert(head =~= begin + host + middle + d + "\r\n"@ + more + end);
    assert(head.take(begin.len() as int) =~= begin);
    assert(head.skip(head.len() - end.len()) =~= end);
    let part = host + middle + d + "\r\n"@;
    let at = begin.len() as int;
    assert(head.subrange(at, at + part.len() as int) =~= part);
    if let Some(k) = key {
        let line = "\r\nsignoz-ingestion-key: "@ + k + "\r\n"@;
        assert("\r\n"@ + "signoz-ingestion-key: "@ =~= "\r\nsignoz-ingestion-key: "@);
        let from = at + part.len() as int - 2;
        assert(head.subrange(from, from + line.len() as int) =~= line);
    } else {
        assert(head =~= begin + host + middle + d + "\r\n"@ + end);
    }
}

proof fn lemma_word(w: Seq<char>, rest: Seq<char>)
    requires
        forall|i: int| 0 <= i < w.len() ==> !text::white_space(#[trigger] w[i]),
        rest.len() > 0 ==> text::white_space(rest[0]),
    ensures
        first_word(w + rest) == w,
    decreases w.len(),
{
    let s = w + rest;
    if w.len() > 0 {
        let v = w.skip(1);
        assert forall|i: int| 0 <= i < v.len() implies !text::white_space(#[trigger] v[i]) by {
            assert(v[i] == w[i + 1]);
        }
        lemma_word(v, rest);
        assert(s[0] == w[0]);
        assert(s.skip(1) =~= v + rest);
        assert(seq![w[0]] + v =~= w);
    } else if rest.len() > 0 {
        assert(s[0] == rest[0]);
    }
}

proof fn lemma_line(s: Seq<char>, rest: Seq<char>)
    requires
        forall|i: int| 0 <= i < s.len() ==> #[trigger] s[i] != '\n',
        rest.len() > 0 ==> rest[0] == '\n',
    ensures
        first_line(s + rest) == s,
    decreases s.len(),
{
    let all = s + rest;
    if s.len() > 0 {
        let v = s.skip(1);
        assert forall|i: int| 0 <= i < v.len() implies #[trigger] v[i] != '\n' by {
            assert(v[i] == s[i + 1]);
        }
        lemma_line(v, rest);
        assert(all[0] == s[0]);
        assert(all.skip(1) =~= v + rest);
        assert(seq![s[0]] + v =~= s);
    } else if rest.len() > 0 {
        assert(all[0] == rest[0]);
    }
}

/// The status of a reply is the number behind its first word, whatever the reason and the rest say.
pub proof fn lemma_status_is_read(version: Seq<char>, n: u16, reason: Seq<char>, rest: Seq<char>)
    requires
        version.len() > 0,
        forall|i: int| 0 <= i < version.len() ==> !text::white_space(#[trigger] version[i]),
        forall|i: int| 0 <= i < reason.len() ==> #[trigger] reason[i] != '\n',
        rest.len() > 0 ==> rest[0] == '\n',
    ensures
        status_in(
            version + seq![' '] + text::decimal(n as nat) + seq![' '] + reason + rest,
        ) == Some(n),
{
    let d = text::decimal(n as nat);
    text::lemma_decimal_is_digits(n as nat);
    text::lemma_decimal_reads_back(n as u64, 0xffff);
    let line = version + seq![' '] + d + seq![' '] + reason;
    assert forall|i: int| 0 <= i < line.len() implies #[trigger] line[i] != '\n' by {
        if i < version.len() {
            assert(line[i] == version[i]);
            assert(!text::white_space(version[i]));
        } else if version.len() < i < version.len() + 1 + d.len() {
            assert(line[i] == d[i - version.len() - 1]);
        } else if i > version.len() + 1 + d.len() {
            assert(line[i] == reason[i - version.len() - 2 - d.len()]);
        }
    }
    lemma_line(line, rest);
    let tail = seq![' '] + d + seq![' '] + reason;
    assert(line =~= version + tail);
    assert(line[0] == version[0]);
    assert(text::trim_start(line) == line);
    lemma_word(version, tail);
    assert(line.skip(version.len() as int) =~= tail);
    let next = d + seq![' '] + reason;
    assert(tail.drop_first() =~= next);
    assert(d.len() > 0);
    assert('0' <= d[0] <= '9');
    assert(next[0] == d[0]);
    reveal_with_fuel(text::trim_start, 3);
    assert(text::trim_start(tail) == next);
    let more = seq![' '] + reason;
    assert(next =~= d + more);
    assert forall|i: int| 0 <= i < d.len() implies !text::white_space(#[trigger] d[i]) by {
        assert('0' <= d[i] <= '9');
    }
    lemma_word(d, more);
}

} // verus!
