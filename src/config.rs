use vstd::prelude::*;
use crate::pathing::{split_chars, split_on};

verus! {

/// How much the process logs.
#[derive(Clone, Copy, Debug, PartialEq, Eq, Structural)]
pub enum LogLevel {
    Error,
    Warn,
    Info,
    Debug,
    Trace,
}

/// Settings read once at startup.
#[derive(Debug)]
pub struct Configuration {
    pub log_level: LogLevel,
    pub data_dir: String,
    pub port: u16,
    pub cache_size: u64,
    pub cache_ttl: u64,
    pub cache_tti: u64,
    pub cors_allowed_origins: Vec<String>,
}

pub open spec fn level_of(s: Seq<char>) -> LogLevel {
    if s == seq!['e', 'r', 'r', 'o', 'r'] {
        LogLevel::Error
    } else if s == seq!['w', 'a', 'r', 'n'] {
        LogLevel::Warn
    } else if s == seq!['d', 'e', 'b', 'u', 'g'] {
        LogLevel::Debug
    } else if s == seq!['t', 'r', 'a', 'c', 'e'] {
        LogLevel::Trace
    } else {
        LogLevel::Info
    }
}

fn same_chars(s: &str, w: &Vec<char>) -> (r: bool)
    ensures
        r == (s@ == w@),
{
    let n = s.unicode_len();
    if n != w.len() {
        return false;
    }
    let mut i: usize = 0;
    while i < n
        invariant
            n == s@.len(),
            n == w@.len(),
            i <= n,
            forall|j: int| 0 <= j < i ==> s@[j] == w@[j],
        decreases n - i,
    {
        if s.get_char(i) != w[i] {
            return false;
        }
        i = i + 1;
    }
    assert(s@ =~= w@);
    true
}

/// The log level that a setting names: error, warn, info, debug or trace;
/// anything else means info.
pub fn parse_log_level(s: &str) -> (r: LogLevel)
    ensures
        r == level_of(s@),
{
    let e: Vec<char> = vec!['e', 'r', 'r', 'o', 'r'];
    let w: Vec<char> = vec!['w', 'a', 'r', 'n'];
    let d: Vec<char> = vec!['d', 'e', 'b', 'u', 'g'];
    let t: Vec<char> = vec!['t', 'r', 'a', 'c', 'e'];
    assert(e@ =~= seq!['e', 'r', 'r', 'o', 'r']);
    assert(w@ =~= seq!['w', 'a', 'r', 'n']);
    assert(d@ =~= seq!['d', 'e', 'b', 'u', 'g']);
    assert(t@ =~= seq!['t', 'r', 'a', 'c', 'e']);
    if same_chars(s, &e) {
        LogLevel::Error
    } else if same_chars(s, &w) {
        LogLevel::Warn
    } else if same_chars(s, &d) {
        LogLevel::Debug
    } else if same_chars(s, &t) {
        LogLevel::Trace
    } else {
        LogLevel::Info
    }
}

/// The allowed origins of a comma-separated setting, each as written.
pub fn parse_origins(s: &String) -> (r: Vec<String>)
    ensures
        r@.map_values(|x: String| x@) == split_on(s@, ','),
{
    split_chars(s, ',')
}

/// Whether a request from `origin` may be served: always when `*` is among the
/// allowed origins or the request names no origin, else when it is listed.
pub fn origin_allowed(allowed: &Vec<String>, origin: Option<&str>) -> (r: bool)
    ensures
        r == ((exists|i: int| 0 <= i < allowed@.len() && allowed@[i]@ == seq!['*']) || match origin {
            None => true,
            Some(o) => exists|i: int| 0 <= i < allowed@.len() && allowed@[i]@ == o@,
        }),
{
    let star: Vec<char> = vec!['*'];
    assert(star@ =~= seq!['*']);
    let mut i: usize = 0;
    while i < allowed.len()
        invariant
            i <= allowed@.len(),
            star@ == seq!['*'],
            forall|j: int| 0 <= j < i ==> allowed@[j]@ != seq!['*'],
        decreases allowed@.len() - i,
    {
        if same_chars(allowed[i].as_str(), &star) {
            assert(allowed@[i as int]@ == seq!['*']);
            return true;
        }
        i = i + 1;
    }
    match origin {
        None => true,
        Some(o) => {
            let mut j: usize = 0;
            while j < allowed.len()
                invariant
                    origin == Some(o),
                    j <= allowed@.len(),
                    forall|x: int| 0 <= x < j ==> allowed@[x]@ != o@,
                decreases allowed@.len() - j,
            {
                let ow: Vec<char> = chars_of(o);
                if same_chars(allowed[j].as_str(), &ow) {
                    assert(allowed@[j as int]@ == o@);
                    return true;
                }
                j = j + 1;
            }
            false
        },
    }
}

fn chars_of(s: &str) -> (r: Vec<char>)
    ensures
        r@ == s@,
{
    let n = s.unicode_len();
    let mut r: Vec<char> = Vec::new();
    let mut i: usize = 0;
    while i < n
        invariant
            n == s@.len(),
            i <= n,
            r@ == s@.take(i as int),
        decreases n - i,
    {
        r.push(s.get_char(i));
        assert(s@.take(i + 1) =~= s@.take(i as int).push(s@[i as int]));
        i = i + 1;
    }
    assert(s@.take(n as int) =~= s@);
    r
}

} // verus!
