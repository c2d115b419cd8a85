//! The INI-style configuration file: connection sections and top-level settings.
//!
//! A file is read as a sequence of lines (the pieces between line feeds), each
//! trimmed of white space. Blank lines and lines that begin with `;` or `#` are
//! ignored. A line `[name]` opens a connection section; `key=value` lines inside
//! a section set its fields (keys compared without regard to ASCII case, the
//! last assignment of a key winning). A `url` in a section takes precedence
//! over `host` and `port`, wherever it stands in the section. Lines before the
//! first section hold application settings (`log_path`).
//!
//! Keys are compared without regard to ASCII case. For these keys, all ASCII
//! words, that agrees with comparing the keys' Unicode lower-case forms: no
//! character but an ASCII letter lower-cases to one of their letters.

use vstd::prelude::*;

use crate::text::{
    ascii_lower,
    chars_of, eq_ignore_ascii_case, find_first, find_in_span, find_last, is_ws, lemma_find_first,
    lemma_find_first_at, lemma_find_last, lemma_find_last_at, span_eq_ignore_ascii_case,
    span_starts_with, trim, trim_end, trim_span, trim_start,
};

verus! {

broadcast use vstd::string::group_string_axioms;

/// Top-level application settings from the configuration file.
#[derive(Debug, Clone, PartialEq)]
pub struct AppConfig {
    pub log_path: Option<String>,
}

/// A single MySQL connection configuration.
#[derive(Debug, Clone, PartialEq)]
pub struct ConnectionConfig {
    pub name: String,
    pub host: String,
    pub port: String,
    pub user: String,
    pub password: String,
}

/// The contents of a `ConnectionConfig`, as character sequences.
pub struct ConnectionView {
    pub name: Seq<char>,
    pub host: Seq<char>,
    pub port: Seq<char>,
    pub user: Seq<char>,
    pub password: Seq<char>,
}

impl View for ConnectionConfig {
    type V = ConnectionView;

    open spec fn view(&self) -> ConnectionView {
        ConnectionView {
            name: self.name@,
            host: self.host@,
            port: self.port@,
            user: self.user@,
            password: self.password@,
        }
    }
}

/// The contents of an `AppConfig`.
pub struct AppConfigView {
    pub log_path: Option<Seq<char>>,
}

impl View for AppConfig {
    type V = AppConfigView;

    open spec fn view(&self) -> AppConfigView {
        AppConfigView { log_path: self.log_path.deep_view() }
    }
}

/// The views of a list of connection configurations.
pub open spec fn views(cs: Seq<ConnectionConfig>) -> Seq<ConnectionView> {
    cs.map_values(|c: ConnectionConfig| c@)
}

// ── Lines ─────────────────────────────────────────────────────────

/// The lines of a text: the pieces between line feeds, in order. (A carriage
/// return before a line feed is white space, which trimming removes.)
pub open spec fn lines(s: Seq<char>) -> Seq<Seq<char>>
    decreases s.len(),
{
    match find_last(s, '\n') {
        Some(j) => {
            if 0 <= j < s.len() {
                lines(s.take(j)).push(s.skip(j + 1))
            } else {
                seq![s]
            }
        },
        None => seq![s],
    }
}

/// The lines of a text, each trimmed of white space.
pub open spec fn trimmed_lines(s: Seq<char>) -> Seq<Seq<char>> {
    lines(s).map_values(|l: Seq<char>| trim(l))
}

/// A trimmed line that carries nothing: blank, or a `;` or `#` comment.
pub open spec fn is_blank_or_comment(t: Seq<char>) -> bool {
    t.len() == 0 || t[0] == ';' || t[0] == '#'
}

/// A trimmed line `[name]` that opens a section.
pub open spec fn is_header(t: Seq<char>) -> bool {
    t.len() > 0 && t[0] == '[' && t.last() == ']'
}

/// The name between the brackets of a section header.
pub open spec fn header_name(t: Seq<char>) -> Seq<char> {
    t.subrange(1, t.len() - 1)
}

/// The key and value of a trimmed `key=value` line (split at the first `=`,
/// both sides trimmed); `None` for any other line.
pub open spec fn entry(t: Seq<char>) -> Option<(Seq<char>, Seq<char>)> {
    if is_blank_or_comment(t) || is_header(t) {
        None
    } else {
        match find_first(t, '=') {
            Some(i) => Some((trim(t.take(i)), trim(t.skip(i + 1)))),
            None => None,
        }
    }
}

/// The index of the last section header among `ls`.
pub open spec fn last_header(ls: Seq<Seq<char>>) -> Option<int>
    decreases ls.len(),
{
    if ls.len() == 0 {
        None
    } else if is_header(ls.last()) {
        Some(ls.len() - 1)
    } else {
        last_header(ls.drop_last())
    }
}

/// The value of the last assignment of `key` among `body`.
pub open spec fn value_of(body: Seq<Seq<char>>, key: Seq<char>) -> Option<Seq<char>>
    decreases body.len(),
{
    if body.len() == 0 {
        None
    } else {
        match entry(body.last()) {
            Some(kv) => {
                if eq_ignore_ascii_case(kv.0, key) {
                    Some(kv.1)
                } else {
                    value_of(body.drop_last(), key)
                }
            },
            None => value_of(body.drop_last(), key),
        }
    }
}

/// The value of the last assignment of `key` among `body` whose value is not empty.
pub open spec fn nonempty_value_of(body: Seq<Seq<char>>, key: Seq<char>) -> Option<Seq<char>>
    decreases body.len(),
{
    if body.len() == 0 {
        None
    } else {
        match entry(body.last()) {
            Some(kv) => {
                if eq_ignore_ascii_case(kv.0, key) && kv.1.len() > 0 {
                    Some(kv.1)
                } else {
                    nonempty_value_of(body.drop_last(), key)
                }
            },
            None => nonempty_value_of(body.drop_last(), key),
        }
    }
}

pub open spec fn key_host() -> Seq<char> {
    seq!['h', 'o', 's', 't']
}

pub open spec fn key_port() -> Seq<char> {
    seq!['p', 'o', 'r', 't']
}

pub open spec fn key_user() -> Seq<char> {
    seq!['u', 's', 'e', 'r']
}

pub open spec fn key_password() -> Seq<char> {
    seq!['p', 'a', 's', 's', 'w', 'o', 'r', 'd']
}

pub open spec fn key_url() -> Seq<char> {
    seq!['u', 'r', 'l']
}

pub open spec fn key_log_path() -> Seq<char> {
    seq!['l', 'o', 'g', '_', 'p', 'a', 't', 'h']
}

/// The port used when a URL names none.
pub open spec fn default_port() -> Seq<char> {
    seq!['3', '3', '0', '6']
}

/// Which of the section keys a key is: 1 host, 2 port, 3 url, 4 user,
/// 5 password, 0 none of them.
pub open spec fn key_code(k: Seq<char>) -> u8 {
    if eq_ignore_ascii_case(k, key_host()) {
        1
    } else if eq_ignore_ascii_case(k, key_port()) {
        2
    } else if eq_ignore_ascii_case(k, key_url()) {
        3
    } else if eq_ignore_ascii_case(k, key_user()) {
        4
    } else if eq_ignore_ascii_case(k, key_password()) {
        5
    } else {
        0
    }
}

// ── JDBC URLs ─────────────────────────────────────────────────────

pub open spec fn jdbc_prefix() -> Seq<char> {
    seq!['j', 'd', 'b', 'c', ':']
}

pub open spec fn mysql_scheme() -> Seq<char> {
    seq!['m', 'y', 's', 'q', 'l', ':', '/', '/']
}

/// The `host[:port]` part of a trimmed JDBC-style URL
/// `[jdbc:]mysql://host[:port][/...]`: what follows the scheme, up to the first `/`.
pub open spec fn url_authority(u: Seq<char>) -> Option<Seq<char>> {
    let after_jdbc = if jdbc_prefix().is_prefix_of(u) {
        Some(u.skip(5))
    } else if mysql_scheme().is_prefix_of(u) {
        Some(u)
    } else {
        None
    };
    match after_jdbc {
        Some(r) => {
            if mysql_scheme().is_prefix_of(r) {
                let rest = r.skip(8);
                match find_first(rest, '/') {
                    Some(i) => Some(rest.take(i)),
                    None => Some(rest),
                }
            } else {
                None
            }
        },
        None => None,
    }
}

/// Host and port of a non-empty `host[:port]` text (split at the first `:`),
/// the port being `3306` when absent.
pub open spec fn split_authority(hp: Seq<char>) -> Option<(Seq<char>, Seq<char>)> {
    if hp.len() == 0 {
        None
    } else {
        match find_first(hp, ':') {
            Some(i) => Some((hp.take(i), hp.skip(i + 1))),
            None => Some((hp, default_port())),
        }
    }
}

/// The host and port that a JDBC-style URL names, if it is one:
/// `[jdbc:]mysql://host[:port][/...]`, the port being `3306` when absent.
pub open spec fn jdbc_host_port(url: Seq<char>) -> Option<(Seq<char>, Seq<char>)> {
    match url_authority(trim(url)) {
        Some(hp) => split_authority(hp),
        None => None,
    }
}

/// A configuration after a JDBC URL is applied to it: host and port replaced
/// by those the URL names, or the configuration unchanged when it names none.
pub open spec fn with_url(c: ConnectionView, url: Seq<char>) -> ConnectionView {
    match jdbc_host_port(url) {
        Some(hp) => ConnectionView { host: hp.0, port: hp.1, ..c },
        None => c,
    }
}

// ── Sections ──────────────────────────────────────────────────────

/// A section's fields as its `host`, `port`, `user` and `password` lines set
/// them (empty when a key is absent), before any `url` is applied.
pub open spec fn section_base(header: Seq<char>, body: Seq<Seq<char>>) -> ConnectionView {
    ConnectionView {
        name: header_name(header),
        host: value_of(body, key_host()).unwrap_or(Seq::empty()),
        port: value_of(body, key_port()).unwrap_or(Seq::empty()),
        user: value_of(body, key_user()).unwrap_or(Seq::empty()),
        password: value_of(body, key_password()).unwrap_or(Seq::empty()),
    }
}

/// The connection that a section defines, from its header and the lines after
/// it: its fields, with the last `url` of the section applied over them.
pub open spec fn section_config(header: Seq<char>, body: Seq<Seq<char>>) -> ConnectionView {
    match value_of(body, key_url()) {
        Some(u) => with_url(section_base(header, body), u),
        None => section_base(header, body),
    }
}

/// The connections that the trimmed lines `ls` define, one per section, in order.
pub open spec fn configs_in(ls: Seq<Seq<char>>) -> Seq<ConnectionView>
    decreases ls.len(),
{
    match last_header(ls) {
        Some(i) => {
            if 0 <= i < ls.len() {
                configs_in(ls.take(i)).push(section_config(ls[i], ls.skip(i + 1)))
            } else {
                Seq::empty()
            }
        },
        None => Seq::empty(),
    }
}

/// The lines before the first section header.
pub open spec fn preamble(ls: Seq<Seq<char>>) -> Seq<Seq<char>>
    decreases ls.len(),
{
    match last_header(ls) {
        Some(i) => {
            if 0 <= i < ls.len() {
                preamble(ls.take(i))
            } else {
                ls
            }
        },
        None => ls,
    }
}

/// The connections that a configuration text defines.
pub open spec fn parsed_configs(text: Seq<char>) -> Seq<ConnectionView> {
    configs_in(trimmed_lines(text))
}

/// The application settings that a configuration text defines.
pub open spec fn parsed_app_config(text: Seq<char>) -> AppConfigView {
    AppConfigView { log_path: nonempty_value_of(preamble(trimmed_lines(text)), key_log_path()) }
}

// ── Lemmas ────────────────────────────────────────────────────────

pub proof fn lemma_last_header(ls: Seq<Seq<char>>)
    ensures
        match last_header(ls) {
            Some(i) => 0 <= i < ls.len() && is_header(ls[i]) && forall|j: int|
                i < j < ls.len() ==> !is_header(#[trigger] ls[j]),
            None => forall|j: int| 0 <= j < ls.len() ==> !is_header(#[trigger] ls[j]),
        },
    decreases ls.len(),
{
    if ls.len() > 0 && !is_header(ls.last()) {
        lemma_last_header(ls.drop_last());
        assert forall|j: int| 0 <= j < ls.len() - 1 implies ls.drop_last()[j] == ls[j] by {}
    }
}

/// The line spans of `v`, as `lines` defines them.
pub open spec fn spans_match(v: Seq<char>, spans: Seq<(usize, usize)>, ls: Seq<Seq<char>>) -> bool {
    &&& spans.len() == ls.len()
    &&& forall|k: int|
        0 <= k < spans.len() ==> {
            &&& (#[trigger] spans[k]).0 <= spans[k].1 <= v.len()
            &&& v.subrange(spans[k].0 as int, spans[k].1 as int) == ls[k]
        }
}

proof fn lemma_lines_step(s: Seq<char>, start: int)
    requires
        0 <= start <= s.len(),
        start > 0 ==> s[start - 1] == '\n',
        forall|j: int| start <= j < s.len() ==> s[j] != '\n',
    ensures
        start == 0 ==> lines(s) == seq![s],
        start > 0 ==> lines(s) == lines(s.take(start - 1)).push(s.skip(start)),
{
    if start == 0 {
        lemma_find_last(s, '\n');
        if find_last(s, '\n') is Some {
            let k = find_last(s, '\n')->0;
            assert(s[k] == '\n');
        }
    } else {
        lemma_find_last_at(s, '\n', start - 1);
    }
}

/// The spans of the lines of `v`: `v[r[k].0 .. r[k].1]` is line `k`.
pub fn line_spans(v: &Vec<char>) -> (r: Vec<(usize, usize)>)
    ensures
        spans_match(v@, r@, lines(v@)),
{
    let mut r: Vec<(usize, usize)> = Vec::new();
    let mut start: usize = 0;
    let mut i: usize = 0;
    while i < v.len()
        invariant
            0 <= start <= i <= v@.len(),
            start > 0 ==> v@[start - 1] == '\n',
            forall|j: int| start <= j < i ==> v@[j] != '\n',
            start == 0 ==> r@.len() == 0,
            start > 0 ==> spans_match(v@, r@, lines(v@.take(start - 1))),
        decreases v@.len() - i,
    {
        if v[i] == '\n' {
            proof {
                let s = v@.take(i as int);
                lemma_lines_step(s, start as int);
                if start > 0 {
                    assert(s.take(start - 1) =~= v@.take(start - 1));
                }
                assert(s.skip(start as int) =~= v@.subrange(start as int, i as int));
            }
            r.push((start, i));
            proof {
                let s = v@.take(i as int);
                if start == 0 {
                    assert(lines(s) =~= seq![s]);
                    assert(s =~= v@.subrange(0, i as int));
                }
                assert(v@.take(i + 1 - 1) =~= s);
            }
            start = i + 1;
        }
        i = i + 1;
    }
    proof {
        let s = v@;
        lemma_lines_step(s, start as int);
        assert(s.skip(start as int) =~= v@.subrange(start as int, v@.len() as int));
    }
    let ghost old_r = r@;
    r.push((start, v.len()));
    proof {
        let ls = lines(v@);
        if start == 0 {
            assert(v@.subrange(0, v@.len() as int) =~= v@);
            assert(r@[0].0 == 0 && r@[0].1 == v@.len());
        } else {
            let prev = lines(v@.take(start - 1));
            assert(ls == prev.push(v@.subrange(start as int, v@.len() as int)));
            assert forall|k: int| 0 <= k < r@.len() implies {
                &&& (#[trigger] r@[k]).0 <= r@[k].1 <= v@.len()
                &&& v@.subrange(r@[k].0 as int, r@[k].1 as int) == ls[k]
            } by {
                if k < old_r.len() {
                    assert(r@[k] == old_r[k]);
                }
            }
        }
    }
    r
}

// ── Executable parsing ────────────────────────────────────────────

/// The span of the `host[:port]` part of the URL `v[a..b]`.
fn authority_span(v: &Vec<char>, a: usize, b: usize) -> (r: Option<(usize, usize)>)
    requires
        a <= b <= v@.len(),
    ensures
        match r {
            Some(hp) => a <= hp.0 <= hp.1 <= b && url_authority(v@.subrange(a as int, b as int))
                == Some(v@.subrange(hp.0 as int, hp.1 as int)),
            None => url_authority(v@.subrange(a as int, b as int)) is None,
        },
{
    let ghost u = v@.subrange(a as int, b as int);
    let jdbc: Vec<char> = vec!['j', 'd', 'b', 'c', ':'];
    let scheme: Vec<char> = vec!['m', 'y', 's', 'q', 'l', ':', '/', '/'];
    assert(jdbc@ =~= jdbc_prefix());
    assert(scheme@ =~= mysql_scheme());
    let c: usize;
    if span_starts_with(&v, a, b, &jdbc) {
        c = a + 5;
        assert(u.skip(5) =~= v@.subrange(c as int, b as int));
    } else if span_starts_with(&v, a, b, &scheme) {
        c = a;
    } else {
        return None;
    }
    let ghost r = v@.subrange(c as int, b as int);
    if !span_starts_with(&v, c, b, &scheme) {
        return None;
    }
    let d = c + 8;
    let ghost rest = v@.subrange(d as int, b as int);
    assert(r.skip(8) =~= rest);
    match find_in_span(&v, d, b, '/') {
        Some(i) => {
            assert(rest.take(i - d) =~= v@.subrange(d as int, i as int));
            Some((d, i))
        },
        None => Some((d, b)),
    }
}

/// Applies a JDBC-style MySQL URL to `cfg`: sets its host and port to those
/// the URL names (port `3306` when it names none), or leaves `cfg` unchanged
/// when the text is not such a URL.
///
/// Accepts `jdbc:mysql://host:port/`, `jdbc:mysql://host:port/db?params`,
/// `jdbc:mysql://host/db?params` and the same without `jdbc:`.
pub fn parse_jdbc_url(cfg: &mut ConnectionConfig, jdbc_url: &str)
    ensures
        final(cfg)@ == with_url(old(cfg)@, jdbc_url@),
{
    let v = chars_of(jdbc_url);
    let (a, b) = trim_span(&v, 0, v.len());
    proof {
        assert(v@.subrange(0, v@.len() as int) =~= v@);
    }
    let (d, e) = match authority_span(&v, a, b) {
        Some(hp) => hp,
        None => return ,
    };
    let ghost host_port = v@.subrange(d as int, e as int);
    if d == e {
        return ;
    }
    match find_in_span(&v, d, e, ':') {
        Some(i) => {
            assert(host_port.take(i - d) =~= v@.subrange(d as int, i as int));
            assert(host_port.skip(i - d + 1) =~= v@.subrange(i + 1, e as int));
            cfg.host = String::from_str(jdbc_url.substring_char(d, i));
            cfg.port = String::from_str(jdbc_url.substring_char(i + 1, e));
        },
        None => {
            cfg.host = String::from_str(jdbc_url.substring_char(d, e));
            let port = "3306";
            proof {
                reveal_strlit("3306");
            }
            assert(port@ =~= default_port());
            cfg.port = String::from_str(port);
        },
    }
}

/// A key matches at most one of the section keys.
proof fn lemma_key_code(k: Seq<char>)
    ensures
        eq_ignore_ascii_case(k, key_host()) <==> key_code(k) == 1,
        eq_ignore_ascii_case(k, key_port()) <==> key_code(k) == 2,
        eq_ignore_ascii_case(k, key_url()) <==> key_code(k) == 3,
        eq_ignore_ascii_case(k, key_user()) <==> key_code(k) == 4,
        eq_ignore_ascii_case(k, key_password()) <==> key_code(k) == 5,
{
    if k.len() > 0 {
        let c = ascii_lower(k[0]);
        assert(eq_ignore_ascii_case(k, key_host()) ==> c == 'h');
        assert(eq_ignore_ascii_case(k, key_port()) ==> c == 'p');
        assert(eq_ignore_ascii_case(k, key_url()) ==> c == 'u');
        assert(eq_ignore_ascii_case(k, key_user()) ==> c == 'u');
        assert(eq_ignore_ascii_case(k, key_password()) ==> c == 'p');
    }
}

/// Which section key `v[a..b]` is (see `key_code`).
fn classify_key(v: &Vec<char>, a: usize, b: usize) -> (r: u8)
    requires
        a <= b <= v@.len(),
    ensures
        r == key_code(v@.subrange(a as int, b as int)),
{
    let host: Vec<char> = vec!['h', 'o', 's', 't'];
    let port: Vec<char> = vec!['p', 'o', 'r', 't'];
    let url: Vec<char> = vec!['u', 'r', 'l'];
    let user: Vec<char> = vec!['u', 's', 'e', 'r'];
    let password: Vec<char> = vec!['p', 'a', 's', 's', 'w', 'o', 'r', 'd'];
    assert(host@ =~= key_host());
    assert(port@ =~= key_port());
    assert(url@ =~= key_url());
    assert(user@ =~= key_user());
    assert(password@ =~= key_password());
    if span_eq_ignore_ascii_case(v, a, b, &host) {
        1
    } else if span_eq_ignore_ascii_case(v, a, b, &port) {
        2
    } else if span_eq_ignore_ascii_case(v, a, b, &url) {
        3
    } else if span_eq_ignore_ascii_case(v, a, b, &user) {
        4
    } else if span_eq_ignore_ascii_case(v, a, b, &password) {
        5
    } else {
        0
    }
}

/// Whether the trimmed line `v[a..b]` is blank or a comment.
fn span_is_blank_or_comment(v: &Vec<char>, a: usize, b: usize) -> (r: bool)
    requires
        a <= b <= v@.len(),
    ensures
        r == is_blank_or_comment(v@.subrange(a as int, b as int)),
{
    a == b || v[a] == ';' || v[a] == '#'
}

/// Whether the trimmed line `v[a..b]` is a section header.
fn span_is_header(v: &Vec<char>, a: usize, b: usize) -> (r: bool)
    requires
        a <= b <= v@.len(),
    ensures
        r == is_header(v@.subrange(a as int, b as int)),
{
    a < b && v[a] == '[' && v[b - 1] == ']'
}

/// The spans of the key and value of the trimmed line `v[a..b]`, when it is a
/// `key=value` line.
fn span_entry(v: &Vec<char>, a: usize, b: usize) -> (r: Option<((usize, usize), (usize, usize))>)
    requires
        a <= b <= v@.len(),
    ensures
        match r {
            Some(kv) => {
                &&& a <= kv.0.0 <= kv.0.1 <= b
                &&& a <= kv.1.0 <= kv.1.1 <= b
                &&& entry(v@.subrange(a as int, b as int)) == Some(
                    (
                        v@.subrange(kv.0.0 as int, kv.0.1 as int),
                        v@.subrange(kv.1.0 as int, kv.1.1 as int),
                    ),
                )
            },
            None => entry(v@.subrange(a as int, b as int)) is None,
        },
{
    let ghost t = v@.subrange(a as int, b as int);
    if span_is_blank_or_comment(v, a, b) || span_is_header(v, a, b) {
        return None;
    }
    match find_in_span(v, a, b, '=') {
        Some(e) => {
            assert(t.take(e - a) =~= v@.subrange(a as int, e as int));
            assert(t.skip(e - a + 1) =~= v@.subrange(e + 1, b as int));
            let key = trim_span(v, a, e);
            let value = trim_span(v, e + 1, b);
            Some((key, value))
        },
        None => None,
    }
}

/// A configuration with the given name and every other field empty.
fn named_config(name: String) -> (c: ConnectionConfig)
    ensures
        c@ == (ConnectionView {
            name: name@,
            host: Seq::empty(),
            port: Seq::empty(),
            user: Seq::empty(),
            password: Seq::empty(),
        }),
{
    ConnectionConfig {
        name,
        host: String::new(),
        port: String::new(),
        user: String::new(),
        password: String::new(),
    }
}

/// The state of a pass over the lines of a configuration text.
struct ParseState {
    configs: Vec<ConnectionConfig>,
    in_section: bool,
    current: ConnectionConfig,
    url: Option<String>,
}

/// `st` is the state after the trimmed lines `ls`: the sections closed so far
/// are in `configs`; the open section's fields are in `current` and its last
/// `url` in `url`.
spec fn state_after(st: ParseState, ls: Seq<Seq<char>>) -> bool {
    match last_header(ls) {
        Some(i) => {
            &&& st.in_section
            &&& 0 <= i < ls.len()
            &&& views(st.configs@) == configs_in(ls.take(i))
            &&& st.current@ == section_base(ls[i], ls.skip(i + 1))
            &&& st.url.deep_view() == value_of(ls.skip(i + 1), key_url())
        },
        None => !st.in_section && views(st.configs@) == Seq::<ConnectionView>::empty(),
    }
}

/// The open section as a finished configuration: its last `url` applied.
fn close_section(current: ConnectionConfig, url: Option<String>) -> (c: ConnectionConfig)
    ensures
        c@ == match url.deep_view() {
            Some(u) => with_url(current@, u),
            None => current@,
        },
{
    let mut c = current;
    match url {
        Some(u) => parse_jdbc_url(&mut c, u.as_str()),
        None => {},
    }
    c
}

proof fn lemma_views_push(cs: Seq<ConnectionConfig>, c: ConnectionConfig)
    ensures
        views(cs.push(c)) == views(cs).push(c@),
{
    assert(views(cs.push(c)) =~= views(cs).push(c@));
}

/// The configurations that the trimmed lines `ls` define: those closed, and
/// the open section.
proof fn lemma_configs_in_unfold(ls: Seq<Seq<char>>)
    ensures
        configs_in(ls) == match last_header(ls) {
            Some(i) => configs_in(ls.take(i)).push(section_config(ls[i], ls.skip(i + 1))),
            None => Seq::empty(),
        },
{
    lemma_last_header(ls);
}

/// One line of the pass: updates the state for the trimmed line `v[a..b]`.
fn parse_step(st: ParseState, text: &str, v: &Vec<char>, a: usize, b: usize, Ghost(
    ls,
): Ghost<Seq<Seq<char>>>) -> (r: ParseState)
    requires
        v@ == text@,
        a <= b <= v@.len(),
        state_after(st, ls),
    ensures
        state_after(r, ls.push(v@.subrange(a as int, b as int))),
{
    let ghost t = v@.subrange(a as int, b as int);
    let ghost ls2 = ls.push(t);
    proof {
        lemma_last_header(ls);
        lemma_last_header(ls2);
        assert(ls2.drop_last() =~= ls);
    }
    let ParseState { mut configs, in_section, current, url } = st;
    if span_is_header(v, a, b) {
        proof {
            lemma_configs_in_unfold(ls);
            assert(ls2.take(ls.len() as int) =~= ls);
            assert(ls2.skip(ls.len() as int + 1) =~= Seq::<Seq<char>>::empty());
        }
        if in_section {
            let done = close_section(current, url);
            let ghost before = configs@;
            configs.push(done);
            proof {
                lemma_views_push(before, done);
            }
        }
        let name = String::from_str(text.substring_char(a + 1, b - 1));
        assert(name@ =~= header_name(t));
        let fresh = named_config(name);
        return ParseState { configs, in_section: true, current: fresh, url: None };
    }
    proof {
        if last_header(ls) is Some {
            let i = last_header(ls)->0;
            assert(ls2.take(i) =~= ls.take(i));
            assert(ls2.skip(i + 1) =~= ls.skip(i + 1).push(t));
            assert(ls2.skip(i + 1).drop_last() =~= ls.skip(i + 1));
            assert(ls2[i] == ls[i]);
        }
    }
    if !in_section {
        return ParseState { configs, in_section, current, url };
    }
    match span_entry(v, a, b) {
        None => ParseState { configs, in_section, current, url },
        Some(kv) => {
            let (ks, vs) = kv;
            let code = classify_key(v, ks.0, ks.1);
            proof {
                lemma_key_code(v@.subrange(ks.0 as int, ks.1 as int));
            }
            let mut current = current;
            let mut url = url;
            let value = String::from_str(text.substring_char(vs.0, vs.1));
            if code == 1 {
                current.host = value;
            } else if code == 2 {
                current.port = value;
            } else if code == 3 {
                url = Some(value);
            } else if code == 4 {
                current.user = value;
            } else if code == 5 {
                current.password = value;
            }
            ParseState { configs, in_section, current, url }
        },
    }
}

/// The end of the pass: the open section, if any, is closed and added.
fn parse_finish(st: ParseState, Ghost(ls): Ghost<Seq<Seq<char>>>) -> (r: Vec<ConnectionConfig>)
    requires
        state_after(st, ls),
    ensures
        views(r@) == configs_in(ls),
{
    proof {
        lemma_configs_in_unfold(ls);
    }
    let ParseState { mut configs, in_section, current, url } = st;
    if in_section {
        let done = close_section(current, url);
        let ghost before = configs@;
        configs.push(done);
        proof {
            lemma_views_push(before, done);
        }
    }
    configs
}

/// Parses the text of an INI-style configuration file into its connection
/// configurations, one per section, in the order of the sections.
///
/// Two forms of section are supported: one with `host`, `port`, `user` and
/// `password` keys, and one with a JDBC-style `url` (with `user` and
/// `password`); when a section has both, the `url` takes precedence over
/// `host` and `port`, wherever it stands in the section.
pub fn parse_config(text: &str) -> (r: Vec<ConnectionConfig>)
    ensures
        views(r@) == parsed_configs(text@),
{
    let v = chars_of(text);
    let spans = line_spans(&v);
    let ghost ls = trimmed_lines(text@);
    let mut st = ParseState {
        configs: Vec::new(),
        in_section: false,
        current: named_config(String::new()),
        url: None,
    };
    proof {
        assert(ls.take(0) =~= Seq::<Seq<char>>::empty());
        assert(views(st.configs@) =~= Seq::<ConnectionView>::empty());
    }
    for k in 0..spans.len()
        invariant
            v@ == text@,
            spans_match(v@, spans@, lines(v@)),
            ls == trimmed_lines(text@),
            ls.len() == spans@.len(),
            state_after(st, ls.take(k as int)),
    {
        let (a, b) = trim_span(&v, spans[k].0, spans[k].1);
        proof {
            assert(v@.subrange(a as int, b as int) == ls[k as int]);
            assert(ls.take(k + 1) =~= ls.take(k as int).push(ls[k as int]));
        }
        st = parse_step(st, text, &v, a, b, Ghost(ls.take(k as int)));
    }
    proof {
        assert(ls.take(spans@.len() as int) =~= ls);
    }
    parse_finish(st, Ghost(ls))
}

/// Lines without a section header are all preamble.
proof fn lemma_preamble_no_header(ls: Seq<Seq<char>>)
    requires
        forall|j: int| 0 <= j < ls.len() ==> !is_header(#[trigger] ls[j]),
    ensures
        preamble(ls) == ls,
{
    lemma_last_header(ls);
    if last_header(ls) is Some {
        let i = last_header(ls)->0;
        assert(is_header(ls[i]));
    }
}

/// The preamble ends at the first section header.
proof fn lemma_preamble_first_header(ls: Seq<Seq<char>>, k: int)
    requires
        0 <= k < ls.len(),
        is_header(ls[k]),
        forall|j: int| 0 <= j < k ==> !is_header(#[trigger] ls[j]),
    ensures
        preamble(ls) == ls.take(k),
    decreases ls.len(),
{
    lemma_last_header(ls);
    let i = last_header(ls)->0;
    assert(i >= k) by {
        if i < k {
            assert(!is_header(ls[k]));
        }
    }
    if i == k {
        assert forall|j: int| 0 <= j < k implies !is_header(#[trigger] ls.take(k)[j]) by {
            assert(ls.take(k)[j] == ls[j]);
        }
        lemma_preamble_no_header(ls.take(k));
    } else {
        let m = ls.take(i);
        assert forall|j: int| 0 <= j < k implies !is_header(#[trigger] m[j]) by {
            assert(m[j] == ls[j]);
        }
        assert(m[k] == ls[k]);
        lemma_preamble_first_header(m, k);
        assert(m.take(k) =~= ls.take(k));
    }
}

/// Parses the application settings of a configuration text: the lines before
/// the first section header. `log_path` (key compared without regard to ASCII
/// case) names the log directory; the last non-empty value wins.
pub fn parse_app_config(text: &str) -> (r: AppConfig)
    ensures
        r@ == parsed_app_config(text@),
{
    let v = chars_of(text);
    let spans = line_spans(&v);
    let ghost ls = trimmed_lines(text@);
    let log_key: Vec<char> = vec!['l', 'o', 'g', '_', 'p', 'a', 't', 'h'];
    assert(log_key@ =~= key_log_path());
    let mut log_path: Option<String> = None;
    let mut k: usize = 0;
    while k < spans.len()
        invariant
            v@ == text@,
            spans_match(v@, spans@, lines(v@)),
            ls == trimmed_lines(text@),
            ls.len() == spans@.len(),
            log_key@ == key_log_path(),
            k <= spans@.len(),
            forall|j: int| 0 <= j < k ==> !is_header(#[trigger] ls[j]),
            log_path.deep_view() == nonempty_value_of(ls.take(k as int), key_log_path()),
        decreases spans@.len() - k,
    {
        let (a, b) = trim_span(&v, spans[k].0, spans[k].1);
        let ghost t = v@.subrange(a as int, b as int);
        proof {
            assert(t == ls[k as int]);
            assert(ls.take(k + 1) =~= ls.take(k as int).push(t));
            assert(ls.take(k + 1).drop_last() =~= ls.take(k as int));
        }
        if span_is_header(&v, a, b) {
            proof {
                lemma_preamble_first_header(ls, k as int);
            }
            return AppConfig { log_path };
        }
        match span_entry(&v, a, b) {
            Some(kv) => {
                let (ks, vs) = kv;
                if span_eq_ignore_ascii_case(&v, ks.0, ks.1, &log_key) && vs.0 < vs.1 {
                    log_path = Some(String::from_str(text.substring_char(vs.0, vs.1)));
                }
            },
            None => {},
        }
        k = k + 1;
    }
    proof {
        assert(ls.take(k as int) =~= ls);
        lemma_preamble_no_header(ls);
    }
    AppConfig { log_path }
}

/// Where the configuration file is taken from: the file beside the executable
/// when it exists, else the one in the working directory (as an absolute
/// path) when it exists, else the path beside the executable all the same.
pub open spec fn chosen_config_path(
    beside_exe: Option<Seq<char>>,
    beside_exe_exists: bool,
    in_working_dir: Option<Seq<char>>,
    fallback: Seq<char>,
) -> Seq<char> {
    match beside_exe {
        Some(p) if beside_exe_exists => p,
        _ => match in_working_dir {
            Some(p) => p,
            None => fallback,
        },
    }
}

/// Chooses the configuration file's path from the candidates the caller
/// found: `beside_exe` (the executable's directory joined with
/// `config.ini`) and whether it exists, `in_working_dir` (the absolute path of
/// `config.ini` in the working directory, when that file exists), and
/// `fallback` (the path beside the executable, or in `.`).
pub fn choose_config_path(
    beside_exe: Option<String>,
    beside_exe_exists: bool,
    in_working_dir: Option<String>,
    fallback: String,
) -> (r: String)
    ensures
        r@ == chosen_config_path(
            beside_exe.deep_view(),
            beside_exe_exists,
            in_working_dir.deep_view(),
            fallback@,
        ),
{
    match beside_exe {
        Some(p) if beside_exe_exists => p,
        _ => match in_working_dir {
            Some(p) => p,
            None => fallback,
        },
    }
}

/// Whether the text holds a section header line.
pub fn has_section_header(text: &str) -> (r: bool)
    ensures
        r == (last_header(trimmed_lines(text@)) is Some),
{
    let v = chars_of(text);
    let spans = line_spans(&v);
    let ghost ls = trimmed_lines(text@);
    proof {
        lemma_last_header(ls);
    }
    let mut k: usize = 0;
    while k < spans.len()
        invariant
            v@ == text@,
            spans_match(v@, spans@, lines(v@)),
            ls == trimmed_lines(text@),
            ls.len() == spans@.len(),
            k <= spans@.len(),
            forall|j: int| 0 <= j < k ==> !is_header(#[trigger] ls[j]),
            match last_header(ls) {
                Some(i) => 0 <= i < ls.len() && is_header(ls[i]),
                None => forall|j: int| 0 <= j < ls.len() ==> !is_header(#[trigger] ls[j]),
            },
        decreases spans@.len() - k,
    {
        let (a, b) = trim_span(&v, spans[k].0, spans[k].1);
        assert(v@.subrange(a as int, b as int) == ls[k as int]);
        if span_is_header(&v, a, b) {
            return true;
        }
        k = k + 1;
    }
    proof {
        if last_header(ls) is Some {
            let i = last_header(ls)->0;
            assert(is_header(ls[i]));
        }
    }
    false
}

/// The settings that a read of the configuration file yields, from the text
/// of the lines read before the read stopped and the error that stopped it,
/// if any: the settings when the file was read whole, or when a section
/// header had been read before the error (the settings end there); the
/// read's error otherwise.
pub fn app_config_after_read(text: &str, read_error: Option<String>) -> (r: Result<AppConfig, String>)
    ensures
        match read_error {
            Some(e) if last_header(trimmed_lines(text@)) is None => r matches Err(re) && re@ == e@,
            _ => r matches Ok(app) && app@ == parsed_app_config(text@),
        },
{
    match read_error {
        Some(e) => {
            if has_section_header(text) {
                Ok(parse_app_config(text))
            } else {
                Err(e)
            }
        },
        None => Ok(parse_app_config(text)),
    }
}

// ── Laws ──────────────────────────────────────────────────────────

/// The number of section headers among `ls`.
pub open spec fn header_count(ls: Seq<Seq<char>>) -> nat
    decreases ls.len(),
{
    if ls.len() == 0 {
        0
    } else {
        header_count(ls.drop_last()) + if is_header(ls.last()) {
            1nat
        } else {
            0nat
        }
    }
}

/// The last header of a concatenation lies in its second part when that part has one.
proof fn lemma_last_header_concat(p: Seq<Seq<char>>, q: Seq<Seq<char>>)
    ensures
        last_header(p + q) == match last_header(q) {
            Some(j) => Some(p.len() + j),
            None => last_header(p),
        },
    decreases q.len(),
{
    if q.len() == 0 {
        assert(p + q =~= p);
    } else {
        assert((p + q).drop_last() =~= p + q.drop_last());
        assert((p + q).last() == q.last());
        lemma_last_header_concat(p, q.drop_last());
    }
}

/// A line that is not a `key=value` line does not change what a body assigns.
proof fn lemma_value_of_insert(x: Seq<Seq<char>>, t: Seq<char>, y: Seq<Seq<char>>, key: Seq<char>)
    requires
        entry(t) is None,
    ensures
        value_of(x + seq![t] + y, key) == value_of(x + y, key),
    decreases y.len(),
{
    if y.len() == 0 {
        assert(x + seq![t] + y =~= x.push(t));
        assert(x.push(t).drop_last() =~= x);
        assert(x + y =~= x);
    } else {
        assert((x + seq![t] + y).drop_last() =~= x + seq![t] + y.drop_last());
        assert((x + y).drop_last() =~= x + y.drop_last());
        assert((x + seq![t] + y).last() == y.last());
        assert((x + y).last() == y.last());
        lemma_value_of_insert(x, t, y.drop_last(), key);
    }
}

/// Blank lines and comments are ignored: inserting one anywhere among the
/// trimmed lines of a configuration leaves its connections unchanged.
pub proof fn law_blank_or_comment_line_ignored(a: Seq<Seq<char>>, t: Seq<char>, b: Seq<Seq<char>>)
    requires
        is_blank_or_comment(t),
    ensures
        configs_in(a + seq![t] + b) == configs_in(a + b),
    decreases b.len(),
{
    let x = a + seq![t] + b;
    let y = a + b;
    assert(x =~= (a + seq![t]) + b);
    lemma_last_header_concat(a + seq![t], b);
    lemma_last_header_concat(a, b);
    lemma_last_header_concat(a, seq![t]);
    lemma_last_header(seq![t]);
    assert(seq![t][0] == t);
    lemma_last_header(b);
    match last_header(b) {
        Some(j) => {
            assert(x.take(a.len() + 1 + j) =~= a + seq![t] + b.take(j));
            assert(y.take(a.len() + j) =~= a + b.take(j));
            assert(x.skip(a.len() + 1 + j + 1) =~= b.skip(j + 1));
            assert(y.skip(a.len() + j + 1) =~= b.skip(j + 1));
            assert(x[a.len() + 1 + j] == b[j]);
            assert(y[a.len() + j] == b[j]);
            law_blank_or_comment_line_ignored(a, t, b.take(j));
        },
        None => {
            lemma_last_header(a);
            match last_header(a) {
                Some(i) => {
                    assert(x.take(i) =~= a.take(i));
                    assert(y.take(i) =~= a.take(i));
                    assert(x[i] == a[i]);
                    assert(y[i] == a[i]);
                    let body = a.skip(i + 1);
                    assert(x.skip(i + 1) =~= body + seq![t] + b);
                    assert(y.skip(i + 1) =~= body + b);
                    lemma_value_of_insert(body, t, b, key_host());
                    lemma_value_of_insert(body, t, b, key_port());
                    lemma_value_of_insert(body, t, b, key_user());
                    lemma_value_of_insert(body, t, b, key_password());
                    lemma_value_of_insert(body, t, b, key_url());
                },
                None => {},
            }
        },
    }
}

/// Lines before the first section (settings, stray keys, comments) define no
/// connection: putting header-free lines in front of a configuration leaves
/// its connections unchanged.
pub proof fn law_lines_before_first_section_ignored(pre: Seq<Seq<char>>, ls: Seq<Seq<char>>)
    requires
        forall|j: int| 0 <= j < pre.len() ==> !is_header(#[trigger] pre[j]),
    ensures
        configs_in(pre + ls) == configs_in(ls),
    decreases ls.len(),
{
    lemma_last_header(ls);
    lemma_last_header(pre);
    lemma_last_header_concat(pre, ls);
    assert(last_header(pre) is None) by {
        if last_header(pre) is Some {
            assert(is_header(pre[last_header(pre)->0]));
        }
    }
    let x = pre + ls;
    match last_header(ls) {
        Some(j) => {
            assert(last_header(x) == Some(pre.len() + j));
            assert(x[pre.len() + j] == ls[j]);
            assert(x.skip(pre.len() + j + 1) =~= ls.skip(j + 1));
            assert(x.take(pre.len() + j) =~= pre + ls.take(j));
            law_lines_before_first_section_ignored(pre, ls.take(j));
        },
        None => {
            assert(last_header(x) is None);
        },
    }
}

/// The names of the section headers among `ls`, in order.
pub open spec fn header_names(ls: Seq<Seq<char>>) -> Seq<Seq<char>>
    decreases ls.len(),
{
    if ls.len() == 0 {
        Seq::empty()
    } else if is_header(ls.last()) {
        header_names(ls.drop_last()).push(header_name(ls.last()))
    } else {
        header_names(ls.drop_last())
    }
}

/// The connections carry the section names in the order of the sections:
/// the `k`-th connection is named after the `k`-th header (a section without
/// any key lines included).
pub proof fn law_connections_named_after_headers(ls: Seq<Seq<char>>)
    ensures
        configs_in(ls).map_values(|c: ConnectionView| c.name) == header_names(ls),
    decreases ls.len(),
{
    let f = |c: ConnectionView| c.name;
    if ls.len() > 0 {
        let d = ls.drop_last();
        law_connections_named_after_headers(d);
        if is_header(ls.last()) {
            assert(ls.take(ls.len() - 1) =~= d);
            let prev = configs_in(d);
            let sc = section_config(ls.last(), ls.skip(ls.len() as int));
            assert(sc.name == header_name(ls.last()));
            assert(configs_in(ls) == prev.push(sc));
            assert(prev.push(sc).map_values(f) =~= prev.map_values(f).push(sc.name));
        } else {
            lemma_last_header(ls);
            lemma_last_header(d);
            match last_header(d) {
                Some(i) => {
                    assert(ls.take(i) =~= d.take(i));
                    assert(ls[i] == d[i]);
                    let prev = configs_in(d.take(i));
                    let s1 = section_config(ls[i], ls.skip(i + 1));
                    let s2 = section_config(d[i], d.skip(i + 1));
                    assert(s1.name == s2.name);
                    assert(prev.push(s1).map_values(f) =~= prev.map_values(f).push(s1.name));
                    assert(prev.push(s2).map_values(f) =~= prev.map_values(f).push(s2.name));
                },
                None => {
                    assert(configs_in(ls).map_values(f) =~= Seq::<Seq<char>>::empty());
                },
            }
        }
    } else {
        assert(configs_in(ls).map_values(f) =~= Seq::<Seq<char>>::empty());
    }
}

/// Any number of blank lines and comments, inserted anywhere among the
/// trimmed lines of a configuration, leave its connections unchanged.
pub proof fn law_blank_or_comment_lines_ignored(
    a: Seq<Seq<char>>,
    c: Seq<Seq<char>>,
    b: Seq<Seq<char>>,
)
    requires
        forall|j: int| 0 <= j < c.len() ==> is_blank_or_comment(#[trigger] c[j]),
    ensures
        configs_in(a + c + b) == configs_in(a + b),
    decreases c.len(),
{
    if c.len() == 0 {
        assert(a + c + b =~= a + b);
    } else {
        let rest = c.drop_first();
        assert(a + c + b =~= a + seq![c[0]] + (rest + b));
        law_blank_or_comment_line_ignored(a, c[0], rest + b);
        assert(a + (rest + b) =~= a + rest + b);
        law_blank_or_comment_lines_ignored(a, rest, b);
    }
}

/// Each field is set by the last line of the section that assigns its key
/// (keys compared without regard to ASCII case), and is empty when no line
/// does; only a recognised `url` overrides host and port.
pub proof fn law_fields_from_last_assignment(header: Seq<char>, body: Seq<Seq<char>>)
    ensures
        ({
            let c = section_config(header, body);
            &&& c.name == header_name(header)
            &&& c.user == value_of(body, key_user()).unwrap_or(Seq::empty())
            &&& c.password == value_of(body, key_password()).unwrap_or(Seq::empty())
            &&& (value_of(body, key_url()) is None || jdbc_host_port(
                value_of(body, key_url())->0,
            ) is None) ==> {
                &&& c.host == value_of(body, key_host()).unwrap_or(Seq::empty())
                &&& c.port == value_of(body, key_port()).unwrap_or(Seq::empty())
            }
        }),
{
}

/// The sections among the trimmed lines `ls`, in order: each header with the
/// lines that follow it up to the next header.
pub open spec fn sections(ls: Seq<Seq<char>>) -> Seq<(Seq<char>, Seq<Seq<char>>)>
    decreases ls.len(),
{
    match last_header(ls) {
        Some(i) => {
            if 0 <= i < ls.len() {
                sections(ls.take(i)).push((ls[i], ls.skip(i + 1)))
            } else {
                Seq::empty()
            }
        },
        None => Seq::empty(),
    }
}

/// Each connection is the one its section defines, in the order of the sections.
pub proof fn law_connection_per_section(ls: Seq<Seq<char>>)
    ensures
        configs_in(ls) == sections(ls).map_values(
            |sec: (Seq<char>, Seq<Seq<char>>)| section_config(sec.0, sec.1),
        ),
    decreases ls.len(),
{
    let f = |sec: (Seq<char>, Seq<Seq<char>>)| section_config(sec.0, sec.1);
    lemma_last_header(ls);
    match last_header(ls) {
        Some(i) => {
            law_connection_per_section(ls.take(i));
            let prev = sections(ls.take(i));
            let sec = (ls[i], ls.skip(i + 1));
            assert(prev.push(sec).map_values(f) =~= prev.map_values(f).push(f(sec)));
        },
        None => {
            assert(sections(ls).map_values(f) =~= Seq::<ConnectionView>::empty());
        },
    }
}

/// In a configuration text, the `k`-th connection is the one the `k`-th
/// section defines: its `url`, when it names a host, decides host and port
/// whatever `host` and `port` lines the section holds and wherever they stand;
/// every other field is set by the last line of the section assigning its key
/// (compared without regard to ASCII case), and is empty when none does.
pub proof fn law_text_sections(text: Seq<char>, k: int)
    requires
        0 <= k < parsed_configs(text).len(),
    ensures
        ({
            let sec = sections(trimmed_lines(text))[k];
            let body = sec.1;
            let c = parsed_configs(text)[k];
            &&& k < sections(trimmed_lines(text)).len()
            &&& c == section_config(sec.0, body)
            &&& c.name == header_name(sec.0)
            &&& c.user == value_of(body, key_user()).unwrap_or(Seq::empty())
            &&& c.password == value_of(body, key_password()).unwrap_or(Seq::empty())
            &&& (value_of(body, key_url()) is Some && jdbc_host_port(
                value_of(body, key_url())->0,
            ) is Some) ==> {
                &&& c.host == (jdbc_host_port(value_of(body, key_url())->0)->0).0
                &&& c.port == (jdbc_host_port(value_of(body, key_url())->0)->0).1
            }
            &&& (value_of(body, key_url()) is None || jdbc_host_port(
                value_of(body, key_url())->0,
            ) is None) ==> {
                &&& c.host == value_of(body, key_host()).unwrap_or(Seq::empty())
                &&& c.port == value_of(body, key_port()).unwrap_or(Seq::empty())
            }
        }),
{
    law_connection_per_section(trimmed_lines(text));
}

/// The lines that carry something: neither blank nor comments.
pub open spec fn content_lines(ls: Seq<Seq<char>>) -> Seq<Seq<char>> {
    ls.filter(|l: Seq<char>| !is_blank_or_comment(l))
}

proof fn lemma_content_lines_all(ls: Seq<Seq<char>>)
    requires
        forall|j: int| 0 <= j < ls.len() ==> !is_blank_or_comment(#[trigger] ls[j]),
    ensures
        content_lines(ls) == ls,
    decreases ls.len(),
{
    reveal(Seq::filter);
    if ls.len() > 0 {
        let d = ls.drop_last();
        assert forall|j: int| 0 <= j < d.len() implies !is_blank_or_comment(#[trigger] d[j]) by {
            assert(d[j] == ls[j]);
        }
        lemma_content_lines_all(d);
        assert(!is_blank_or_comment(ls[ls.len() - 1]));
        assert(d.push(ls.last()) =~= ls);
    }
}

/// Only the lines that carry something matter: removing every blank line and
/// comment leaves the connections unchanged.
pub proof fn law_only_content_lines_matter(ls: Seq<Seq<char>>)
    ensures
        configs_in(ls) == configs_in(content_lines(ls)),
    decreases ls.len(),
{
    let pred = |l: Seq<char>| !is_blank_or_comment(l);
    if exists|i: int| 0 <= i < ls.len() && is_blank_or_comment(#[trigger] ls[i]) {
        let i = choose|i: int| 0 <= i < ls.len() && is_blank_or_comment(#[trigger] ls[i]);
        let a = ls.take(i);
        let b = ls.skip(i + 1);
        let t = ls[i];
        assert(ls =~= a + seq![t] + b);
        law_blank_or_comment_line_ignored(a, t, b);
        let m = a + b;
        law_only_content_lines_matter(m);
        Seq::filter_distributes_over_add(a, b, pred);
        Seq::filter_distributes_over_add(a + seq![t], b, pred);
        Seq::filter_distributes_over_add(a, seq![t], pred);
        reveal(Seq::filter);
        assert(seq![t].drop_last() =~= Seq::<Seq<char>>::empty());
        assert(seq![t].last() == t);
        assert(!pred(t));
        assert(Seq::<Seq<char>>::empty().filter(pred) =~= Seq::<Seq<char>>::empty());
        assert(seq![t].filter(pred) =~= Seq::<Seq<char>>::empty());
        assert(a.filter(pred) + Seq::<Seq<char>>::empty() =~= a.filter(pred));
    } else {
        lemma_content_lines_all(ls);
    }
}

/// Blank lines and comments are ignored: two configuration texts whose
/// lines, once trimmed and rid of blank lines and comments, agree define the
/// same connections, wherever and however many such lines either holds.
pub proof fn law_blank_and_comment_lines_ignored(t1: Seq<char>, t2: Seq<char>)
    requires
        content_lines(trimmed_lines(t1)) == content_lines(trimmed_lines(t2)),
    ensures
        parsed_configs(t1) == parsed_configs(t2),
{
    law_only_content_lines_matter(trimmed_lines(t1));
    law_only_content_lines_matter(trimmed_lines(t2));
}

/// Every section header opens exactly one connection: there are as many
/// connections as section headers.
pub proof fn law_one_connection_per_section(ls: Seq<Seq<char>>)
    ensures
        configs_in(ls).len() == header_count(ls),
    decreases ls.len(),
{
    if ls.len() > 0 {
        let d = ls.drop_last();
        law_one_connection_per_section(d);
        if is_header(ls.last()) {
            assert(ls.take(ls.len() - 1) =~= d);
        } else {
            lemma_last_header(ls);
            match last_header(d) {
                Some(i) => {
                    lemma_last_header(d);
                    assert(ls.take(i) =~= d.take(i));
                },
                None => {},
            }
        }
    }
}

/// A section's `url`, when it names a host, decides the host and port,
/// whatever `host` and `port` lines the section has and wherever they stand;
/// name, user and password still come from their own lines.
pub proof fn law_url_takes_precedence(header: Seq<char>, body: Seq<Seq<char>>)
    requires
        value_of(body, key_url()) is Some,
        jdbc_host_port(value_of(body, key_url())->0) is Some,
    ensures
        ({
            let hp = jdbc_host_port(value_of(body, key_url())->0)->0;
            let c = section_config(header, body);
            &&& c.host == hp.0
            &&& c.port == hp.1
            &&& c.name == header_name(header)
            &&& c.user == value_of(body, key_user()).unwrap_or(Seq::empty())
            &&& c.password == value_of(body, key_password()).unwrap_or(Seq::empty())
        }),
{
}

/// A `url` that is not a JDBC MySQL URL is ignored: the section's fields are
/// those its other lines set.
pub proof fn law_unrecognised_url_ignored(header: Seq<char>, body: Seq<Seq<char>>)
    requires
        value_of(body, key_url()) is Some,
        jdbc_host_port(value_of(body, key_url())->0) is None,
    ensures
        section_config(header, body) == section_base(header, body),
{
}

/// Settings are read only up to the first section header: what follows it
/// (a `log_path` inside a section, say) is no setting.
pub proof fn law_settings_end_at_first_section(ls: Seq<Seq<char>>, k: int)
    requires
        0 <= k < ls.len(),
        is_header(ls[k]),
        forall|j: int| 0 <= j < k ==> !is_header(#[trigger] ls[j]),
    ensures
        preamble(ls) == ls.take(k),
{
    lemma_preamble_first_header(ls, k);
}

// ── What the line split keeps ─────────────────────────────────────

/// The number of line feeds in `s`.
pub open spec fn newline_count(s: Seq<char>) -> nat
    decreases s.len(),
{
    if s.len() == 0 {
        0
    } else if s.last() == '\n' {
        newline_count(s.drop_last()) + 1
    } else {
        newline_count(s.drop_last())
    }
}

/// Pieces joined back together, a line feed between each two.
pub open spec fn joined(ls: Seq<Seq<char>>) -> Seq<char>
    decreases ls.len(),
{
    if ls.len() == 0 {
        Seq::empty()
    } else if ls.len() == 1 {
        ls[0]
    } else {
        joined(ls.drop_last()) + seq!['\n'] + ls.last()
    }
}

proof fn lemma_newline_count_tail(s: Seq<char>, start: int)
    requires
        0 <= start <= s.len(),
        forall|j: int| start <= j < s.len() ==> s[j] != '\n',
    ensures
        newline_count(s) == newline_count(s.take(start)),
    decreases s.len(),
{
    if start == s.len() {
        assert(s.take(start) =~= s);
    } else {
        assert(s.last() != '\n');
        let d = s.drop_last();
        assert forall|j: int| start <= j < d.len() implies d[j] != '\n' by {
            assert(d[j] == s[j]);
        }
        lemma_newline_count_tail(d, start);
        assert(d.take(start) =~= s.take(start));
    }
}

proof fn lemma_lines_shape(s: Seq<char>)
    ensures
        lines(s).len() == newline_count(s) + 1,
        joined(lines(s)) == s,
        forall|k: int, i: int|
            0 <= k < lines(s).len() && 0 <= i < lines(s)[k].len() ==> #[trigger] lines(s)[k][i]
                != '\n',
    decreases s.len(),
{
    lemma_find_last(s, '\n');
    match find_last(s, '\n') {
        Some(j) => {
            let head = s.take(j);
            let tail = s.skip(j + 1);
            lemma_lines_shape(head);
            lemma_newline_count_tail(s, j + 1);
            assert(s.take(j + 1).drop_last() =~= head);
            assert(s.take(j + 1).last() == '\n');
            let ls = lines(s);
            assert(ls == lines(head).push(tail));
            assert(ls.drop_last() =~= lines(head));
            assert(joined(ls) == joined(lines(head)) + seq!['\n'] + tail);
            assert(joined(ls) =~= s);
            assert forall|k: int, i: int|
                0 <= k < ls.len() && 0 <= i < ls[k].len() implies #[trigger] ls[k][i] != '\n' by {
                if k < ls.len() - 1 {
                    assert(ls[k] == lines(head)[k]);
                    assert(lines(head)[k][i] != '\n');
                } else {
                    assert(ls[k] == tail);
                    assert(tail[i] == s[j + 1 + i]);
                }
            }
        },
        None => {
            lemma_newline_count_tail(s, 0);
            assert(s.take(0) =~= Seq::<char>::empty());
            assert(lines(s) == seq![s]);
        },
    }
}

/// A text is split at every line feed and nowhere else: no piece holds a
/// line feed, and the pieces joined by line feeds give the text back, so no
/// character is lost, the last piece included.
pub proof fn law_lines_rejoin(text: Seq<char>)
    ensures
        joined(lines(text)) == text,
        forall|k: int, i: int|
            0 <= k < lines(text).len() && 0 <= i < lines(text)[k].len() ==> #[trigger] lines(
                text,
            )[k][i] != '\n',
{
    lemma_lines_shape(text);
}

/// Every piece of a text is read as a line, the last one too whether or not
/// a line feed ends the text: there is one line more than there are line
/// feeds, and the last line is what follows the last line feed (the whole
/// text when there is none), trimmed.
pub proof fn law_lines_cover_text(text: Seq<char>)
    ensures
        trimmed_lines(text).len() == newline_count(text) + 1,
        (forall|i: int| 0 <= i < text.len() ==> text[i] != '\n') ==> trimmed_lines(text) == seq![
            trim(text),
        ],
        forall|j: int|
            0 <= j < text.len() && (#[trigger] text[j]) == '\n' && (forall|i: int|
                j < i < text.len() ==> text[i] != '\n') ==> trimmed_lines(text).last() == trim(
                text.skip(j + 1),
            ),
{
    lemma_lines_shape(text);
    if forall|i: int| 0 <= i < text.len() ==> text[i] != '\n' {
        lemma_lines_step(text, 0);
        assert(trimmed_lines(text) =~= seq![trim(text)]);
    }
    assert forall|j: int|
        0 <= j < text.len() && (#[trigger] text[j]) == '\n' && (forall|i: int|
            j < i < text.len() ==> text[i] != '\n') implies trimmed_lines(text).last() == trim(
        text.skip(j + 1),
    ) by {
        lemma_lines_step(text, j + 1);
    }
}

// ── What a URL names ──────────────────────────────────────────────

proof fn lemma_trim_unchanged(s: Seq<char>)
    requires
        s.len() > 0,
        !is_ws(s[0]),
        !is_ws(s.last()),
    ensures
        trim(s) == s,
{
    assert(trim_start(s) == s);
    assert(trim_end(s) == s);
}

proof fn lemma_authority_of_rest(a: Seq<char>, path: Seq<char>)
    requires
        forall|i: int| 0 <= i < a.len() ==> a[i] != '/',
    ensures
        find_first(a, '/') is None,
        ({
            let rest = a + seq!['/'] + path;
            find_first(rest, '/') == Some(a.len() as int) && rest.take(a.len() as int) == a
        }),
{
    lemma_find_first(a, '/');
    if find_first(a, '/') is Some {
        let k = find_first(a, '/')->0;
        assert(a[k] == '/');
    }
    let rest = a + seq!['/'] + path;
    assert forall|j: int| 0 <= j < a.len() implies rest[j] != '/' by {
        assert(rest[j] == a[j]);
    }
    assert(rest[a.len() as int] == '/');
    lemma_find_first_at(rest, '/', a.len() as int);
    assert(rest.take(a.len() as int) =~= a);
}

proof fn lemma_scheme_then(a: Seq<char>, path: Seq<char>, slash: bool)
    requires
        forall|i: int| 0 <= i < a.len() ==> a[i] != '/',
    ensures
        ({
            let rest = if slash {
                a + seq!['/'] + path
            } else {
                a
            };
            let m = seq!['m', 'y', 's', 'q', 'l', ':', '/', '/'] + rest;
            let jm = seq!['j', 'd', 'b', 'c', ':', 'm', 'y', 's', 'q', 'l', ':', '/', '/'] + rest;
            url_authority(m) == Some(a) && url_authority(jm) == Some(a)
        }),
{
    lemma_authority_of_rest(a, path);
    let rest = if slash {
        a + seq!['/'] + path
    } else {
        a
    };
    let m = seq!['m', 'y', 's', 'q', 'l', ':', '/', '/'] + rest;
    let jm = seq!['j', 'd', 'b', 'c', ':', 'm', 'y', 's', 'q', 'l', ':', '/', '/'] + rest;
    assert(m.subrange(0, 8) =~= mysql_scheme());
    assert(m[0] == 'm');
    assert(jdbc_prefix()[0] == 'j');
    if jdbc_prefix().is_prefix_of(m) {
        assert(jdbc_prefix()[0] == m.subrange(0, 5)[0]);
    }
    assert(m.skip(8) =~= rest);
    assert(jm.subrange(0, 5) =~= jdbc_prefix());
    assert(jm.skip(5) =~= m);
    if !slash {
        assert(rest.take(a.len() as int) =~= a);
    }
}

/// The `host[:port]` of a MySQL URL, with or without `jdbc:` before it, ends
/// at the URL's first `/`: it is all that stands between `mysql://` and that
/// `/`, whatever the rest holds (further `/` among it), and all that follows
/// `mysql://` when there is no `/`.
pub proof fn law_authority_ends_at_first_slash(a: Seq<char>, path: Seq<char>)
    requires
        forall|i: int| 0 <= i < a.len() ==> a[i] != '/',
    ensures
        url_authority(seq!['m', 'y', 's', 'q', 'l', ':', '/', '/'] + a) == Some(a),
        url_authority(seq!['m', 'y', 's', 'q', 'l', ':', '/', '/'] + a + seq!['/'] + path) == Some(
            a,
        ),
        url_authority(seq!['j', 'd', 'b', 'c', ':', 'm', 'y', 's', 'q', 'l', ':', '/', '/'] + a)
            == Some(a),
        url_authority(
            seq!['j', 'd', 'b', 'c', ':', 'm', 'y', 's', 'q', 'l', ':', '/', '/'] + a + seq!['/']
                + path,
        ) == Some(a),
{
    lemma_scheme_then(a, path, false);
    lemma_scheme_then(a, path, true);
    let m = seq!['m', 'y', 's', 'q', 'l', ':', '/', '/'];
    let jm = seq!['j', 'd', 'b', 'c', ':', 'm', 'y', 's', 'q', 'l', ':', '/', '/'];
    assert(m + a + seq!['/'] + path =~= m + (a + seq!['/'] + path));
    assert(jm + a + seq!['/'] + path =~= jm + (a + seq!['/'] + path));
}

proof fn lemma_split_host_port(host: Seq<char>, port: Seq<char>)
    requires
        host.len() > 0,
        forall|i: int| 0 <= i < host.len() ==> host[i] != ':',
    ensures
        split_authority(host) == Some((host, seq!['3', '3', '0', '6'])),
        split_authority(host + seq![':'] + port) == Some((host, port)),
{
    lemma_find_first(host, ':');
    if find_first(host, ':') is Some {
        let k = find_first(host, ':')->0;
        assert(host[k] == ':');
    }
    let hp = host + seq![':'] + port;
    assert forall|j: int| 0 <= j < host.len() implies hp[j] != ':' by {
        assert(hp[j] == host[j]);
    }
    assert(hp[host.len() as int] == ':');
    lemma_find_first_at(hp, ':', host.len() as int);
    assert(hp.take(host.len() as int) =~= host);
    assert(hp.skip(host.len() as int + 1) =~= port);
}

/// A JDBC URL `jdbc:mysql://host:port/...` (or without `jdbc:`) names the
/// host and port between `mysql://` and the first `/`, split at the first
/// `:`, with port 3306 when none is written; what follows the `/` (the
/// database, options, further `/`) does not change them.
pub proof fn law_jdbc_url_host_port(host: Seq<char>, port: Seq<char>, path: Seq<char>)
    requires
        host.len() > 0,
        forall|i: int| 0 <= i < host.len() ==> host[i] != ':' && host[i] != '/',
        forall|i: int| 0 <= i < port.len() ==> port[i] != '/',
        path.len() > 0,
        !is_ws(path.last()),
    ensures
        jdbc_host_port(
            seq!['j', 'd', 'b', 'c', ':', 'm', 'y', 's', 'q', 'l', ':', '/', '/'] + host + seq![
                ':',
            ] + port + seq!['/'] + path,
        ) == Some((host, port)),
        jdbc_host_port(
            seq!['j', 'd', 'b', 'c', ':', 'm', 'y', 's', 'q', 'l', ':', '/', '/'] + host + seq!['/']
                + path,
        ) == Some((host, seq!['3', '3', '0', '6'])),
        jdbc_host_port(
            seq!['m', 'y', 's', 'q', 'l', ':', '/', '/'] + host + seq![':'] + port + seq!['/']
                + path,
        ) == Some((host, port)),
        jdbc_host_port(seq!['m', 'y', 's', 'q', 'l', ':', '/', '/'] + host + seq!['/'] + path)
            == Some((host, seq!['3', '3', '0', '6'])),
{
    let m = seq!['m', 'y', 's', 'q', 'l', ':', '/', '/'];
    let jm = seq!['j', 'd', 'b', 'c', ':', 'm', 'y', 's', 'q', 'l', ':', '/', '/'];
    let hp = host + seq![':'] + port;
    assert forall|i: int| 0 <= i < hp.len() implies hp[i] != '/' by {
        if i < host.len() {
            assert(hp[i] == host[i]);
        } else if i > host.len() {
            assert(hp[i] == port[i - host.len() - 1]);
        }
    }
    lemma_split_host_port(host, port);
    law_authority_ends_at_first_slash(hp, path);
    law_authority_ends_at_first_slash(host, path);
    let u1 = jm + hp + seq!['/'] + path;
    let u2 = jm + host + seq!['/'] + path;
    let u3 = m + hp + seq!['/'] + path;
    let u4 = m + host + seq!['/'] + path;
    assert(u1 =~= jm + host + seq![':'] + port + seq!['/'] + path);
    assert(u3 =~= m + host + seq![':'] + port + seq!['/'] + path);
    assert(u1.last() == path.last() && u1[0] == 'j');
    assert(u2.last() == path.last() && u2[0] == 'j');
    assert(u3.last() == path.last() && u3[0] == 'm');
    assert(u4.last() == path.last() && u4[0] == 'm');
    lemma_trim_unchanged(u1);
    lemma_trim_unchanged(u2);
    lemma_trim_unchanged(u3);
    lemma_trim_unchanged(u4);
}

// ── What a line holds ─────────────────────────────────────────────

/// A line `key=value` assigns: it is split at its first `=`, so the key is
/// everything before it and the value everything after it (further `=`
/// included), each trimmed of white space. A line without `=` assigns nothing.
pub proof fn law_entry_splits_at_first_equals(k: Seq<char>, v: Seq<char>)
    requires
        forall|i: int| 0 <= i < k.len() ==> k[i] != '=',
        k.len() > 0 ==> k[0] != ';' && k[0] != '#' && k[0] != '[',
    ensures
        entry(k + seq!['='] + v) == Some((trim(k), trim(v))),
        entry(k) is None,
{
    let t = k + seq!['='] + v;
    assert forall|j: int| 0 <= j < k.len() implies t[j] != '=' by {
        assert(t[j] == k[j]);
    }
    assert(t[k.len() as int] == '=');
    lemma_find_first_at(t, '=', k.len() as int);
    assert(t.take(k.len() as int) =~= k);
    assert(t.skip(k.len() as int + 1) =~= v);
    if k.len() > 0 {
        assert(t[0] == k[0]);
    }
    lemma_find_first(k, '=');
    if find_first(k, '=') is Some {
        let i = find_first(k, '=')->0;
        assert(k[i] == '=');
    }
}

/// A line `[name]` opens a section named `name`, and assigns nothing.
pub proof fn law_header_line(name: Seq<char>)
    ensures
        is_header(seq!['['] + name + seq![']']),
        header_name(seq!['['] + name + seq![']']) == name,
        !is_blank_or_comment(seq!['['] + name + seq![']']),
        entry(seq!['['] + name + seq![']']) is None,
{
    let t = seq!['['] + name + seq![']'];
    assert(t[0] == '[');
    assert(t.last() == ']');
    assert(t.subrange(1, t.len() - 1) =~= name);
}

/// Whether line `t` assigns `key` (compared without regard to ASCII case).
pub open spec fn assigns(t: Seq<char>, key: Seq<char>) -> bool {
    match entry(t) {
        Some(kv) => eq_ignore_ascii_case(kv.0, key),
        None => false,
    }
}

/// The last line that assigns a key gives its value: the value of line `i`,
/// when no line after it assigns the same key, whatever lines before it say.
pub proof fn law_last_assignment_wins(body: Seq<Seq<char>>, key: Seq<char>, i: int)
    requires
        0 <= i < body.len(),
        assigns(body[i], key),
        forall|j: int| i < j < body.len() ==> !assigns(#[trigger] body[j], key),
    ensures
        value_of(body, key) == Some((entry(body[i])->0).1),
    decreases body.len(),
{
    if i < body.len() - 1 {
        let d = body.drop_last();
        assert(!assigns(body[body.len() - 1], key));
        assert forall|j: int| i < j < d.len() implies !assigns(#[trigger] d[j], key) by {
            assert(d[j] == body[j]);
        }
        assert(d[i] == body[i]);
        law_last_assignment_wins(d, key, i);
    }
}

/// A key that no line assigns has no value.
pub proof fn law_unassigned_key_has_no_value(body: Seq<Seq<char>>, key: Seq<char>)
    requires
        forall|j: int| 0 <= j < body.len() ==> !assigns(#[trigger] body[j], key),
    ensures
        value_of(body, key) is None,
    decreases body.len(),
{
    if body.len() > 0 {
        let d = body.drop_last();
        assert(!assigns(body[body.len() - 1], key));
        assert forall|j: int| 0 <= j < d.len() implies !assigns(#[trigger] d[j], key) by {
            assert(d[j] == body[j]);
        }
        law_unassigned_key_has_no_value(d, key);
    }
}

/// Of the lines that assign a key, the last one with a non-empty value gives
/// the setting: assignments of an empty value leave it as it was.
pub proof fn law_last_nonempty_assignment_wins(body: Seq<Seq<char>>, key: Seq<char>, i: int)
    requires
        0 <= i < body.len(),
        assigns(body[i], key),
        (entry(body[i])->0).1.len() > 0,
        forall|j: int|
            i < j < body.len() && assigns(#[trigger] body[j], key) ==> (entry(body[j])->0).1.len()
                == 0,
    ensures
        nonempty_value_of(body, key) == Some((entry(body[i])->0).1),
    decreases body.len(),
{
    if i < body.len() - 1 {
        let d = body.drop_last();
        let last = body[body.len() - 1];
        assert(assigns(last, key) ==> (entry(last)->0).1.len() == 0);
        assert forall|j: int|
            i < j < d.len() && assigns(#[trigger] d[j], key) implies (entry(d[j])->0).1.len()
            == 0 by {
            assert(d[j] == body[j]);
        }
        assert(d[i] == body[i]);
        law_last_nonempty_assignment_wins(d, key, i);
    }
}

} // verus!
