//! Settings of the monitor, their defaults, and the overrides read from the environment.
use vstd::prelude::*;
use crate::keys::texts_view;
use crate::text::{chars_of, is_whitespace, is_ws, owned, push_char, string_of, trim, trim_chars};

verus! {

/// Proxy of the requests to the service; empty for a direct connection.
pub struct ProxyConfig {
    pub url: String,
}

impl Default for ProxyConfig {
    fn default() -> (r: ProxyConfig)
        ensures
            r.url@ == Seq::<char>::empty(),
    {
        ProxyConfig { url: String::new() }
    }
}

/// Polling interval and the failure count that raises an alert.
pub struct MonitorConfig {
    pub interval_secs: u64,
    pub max_fail_count: u32,
}

impl Default for MonitorConfig {
    fn default() -> (r: MonitorConfig)
        ensures
            r.interval_secs == 30,
            r.max_fail_count == 5,
    {
        MonitorConfig { interval_secs: 30, max_fail_count: 5 }
    }
}

/// Bark push endpoints.
pub struct BarkConfig {
    pub urls: Vec<String>,
}

impl Default for BarkConfig {
    fn default() -> (r: BarkConfig)
        ensures
            r.urls@.len() == 0,
    {
        BarkConfig { urls: Vec::new() }
    }
}

/// Whether changes are also written to daily JSONL files.
pub struct LoggingConfig {
    pub persist_jsonl: bool,
}

impl Default for LoggingConfig {
    fn default() -> (r: LoggingConfig)
        ensures
            !r.persist_jsonl,
    {
        LoggingConfig { persist_jsonl: false }
    }
}

/// The status page server.
pub struct WebConfig {
    pub enabled: bool,
    pub port: u16,
}

impl Default for WebConfig {
    fn default() -> (r: WebConfig)
        ensures
            r.enabled,
            r.port == 32141,
    {
        WebConfig { enabled: true, port: 32141 }
    }
}

/// All settings.
pub struct AppConfig {
    pub proxy: ProxyConfig,
    pub monitor: MonitorConfig,
    pub bark: BarkConfig,
    pub logging: LoggingConfig,
    pub web: WebConfig,
}

/// The settings as plain values.
pub struct ConfigV {
    pub proxy_url: Seq<char>,
    pub interval_secs: u64,
    pub max_fail_count: u32,
    pub bark_urls: Seq<Seq<char>>,
    pub persist_jsonl: bool,
    pub web_enabled: bool,
    pub web_port: u16,
}

impl View for AppConfig {
    type V = ConfigV;

    open spec fn view(&self) -> ConfigV {
        ConfigV {
            proxy_url: self.proxy.url@,
            interval_secs: self.monitor.interval_secs,
            max_fail_count: self.monitor.max_fail_count,
            bark_urls: texts_view(self.bark.urls@),
            persist_jsonl: self.logging.persist_jsonl,
            web_enabled: self.web.enabled,
            web_port: self.web.port,
        }
    }
}

impl Default for AppConfig {
    fn default() -> (r: AppConfig)
        ensures
            r@ == (ConfigV {
                proxy_url: seq![],
                interval_secs: 30,
                max_fail_count: 5,
                bark_urls: seq![],
                persist_jsonl: false,
                web_enabled: true,
                web_port: 32141,
            }),
    {
        let r = AppConfig {
            proxy: ProxyConfig::default(),
            monitor: MonitorConfig::default(),
            bark: BarkConfig::default(),
            logging: LoggingConfig::default(),
            web: WebConfig::default(),
        };
        assert(texts_view(r.bark.urls@) =~= seq![]);
        r
    }
}

/// ASCII upper-case letters in lower case; everything else unchanged.
pub open spec fn ascii_lower_char(c: char) -> char {
    if 'A' <= c && c <= 'Z' {
        seq![
            'a', 'b', 'c', 'd', 'e', 'f', 'g', 'h', 'i', 'j', 'k', 'l', 'm',
            'n', 'o', 'p', 'q', 'r', 's', 't', 'u', 'v', 'w', 'x', 'y', 'z',
        ][(c as u32 - 65) as int]
    } else {
        c
    }
}

pub open spec fn ascii_lower(s: Seq<char>) -> Seq<char> {
    s.map_values(|c: char| ascii_lower_char(c))
}

fn lower_char(c: char) -> (r: char)
    ensures
        r == ascii_lower_char(c),
{
    if 'A' <= c && c <= 'Z' {
        let table: [char; 26] = [
            'a', 'b', 'c', 'd', 'e', 'f', 'g', 'h', 'i', 'j', 'k', 'l', 'm',
            'n', 'o', 'p', 'q', 'r', 's', 't', 'u', 'v', 'w', 'x', 'y', 'z',
        ];
        let i = (c as u32 - 65) as usize;
        assert(table@ =~= seq![
            'a', 'b', 'c', 'd', 'e', 'f', 'g', 'h', 'i', 'j', 'k', 'l', 'm',
            'n', 'o', 'p', 'q', 'r', 's', 't', 'u', 'v', 'w', 'x', 'y', 'z',
        ]);
        table[i]
    } else {
        c
    }
}

/// Whether `s` spells `w` exactly.
fn spells(s: &[char], w: &str) -> (r: bool)
    ensures
        r == (s@ == w@),
{
    let wc = chars_of(w);
    if s.len() != wc.len() {
        return false;
    }
    let mut i: usize = 0;
    while i < s.len()
        invariant
            s@.len() == wc@.len(),
            wc@ == w@,
            i <= s@.len(),
            forall|q: int| 0 <= q < i ==> s@[q] == wc@[q],
        decreases s.len() - i,
    {
        if s[i] != wc[i] {
            return false;
        }
        i += 1;
    }
    assert(s@ =~= wc@);
    true
}

/// What a boolean setting reads as: `1`/`true`/`yes`/`on` and `0`/`false`/`no`/`off`,
/// ignoring surrounding white space and ASCII case.
pub open spec fn bool_setting(value: Seq<char>) -> Option<bool> {
    let v = ascii_lower(trim(value));
    if v == "1"@ || v == "true"@ || v == "yes"@ || v == "on"@ {
        Some(true)
    } else if v == "0"@ || v == "false"@ || v == "no"@ || v == "off"@ {
        Some(false)
    } else {
        None
    }
}

/// Reads a boolean environment setting.
pub fn parse_bool_env(name: &str, value: &str) -> (r: Result<bool, String>)
    ensures
        match bool_setting(value@) {
            Some(b) => r == Ok::<bool, String>(b),
            None => r matches Err(e) && e@ == "invalid boolean for "@ + name@ + ": "@ + value@,
        },
{
    let cs = chars_of(value);
    let t = trim_chars(cs.as_slice());
    let mut lower: Vec<char> = Vec::new();
    let mut i: usize = 0;
    while i < t.len()
        invariant
            i <= t@.len(),
            lower@ == ascii_lower(t@.take(i as int)),
        decreases t.len() - i,
    {
        lower.push(lower_char(t[i]));
        i += 1;
        assert(lower@ =~= ascii_lower(t@.take(i as int)));
    }
    assert(t@.take(t@.len() as int) =~= t@);
    let l = lower.as_slice();
    if spells(l, "1") || spells(l, "true") || spells(l, "yes") || spells(l, "on") {
        Ok(true)
    } else if spells(l, "0") || spells(l, "false") || spells(l, "no") || spells(l, "off") {
        Ok(false)
    } else {
        let mut e = owned("invalid boolean for ");
        e.append(name);
        e.append(": ");
        e.append(value);
        Err(e)
    }
}

/// Why a number did not parse (the cases of the standard integer parser).
#[derive(PartialEq, Eq, Structural, Clone, Copy, Debug)]
pub enum NumberError {
    Empty,
    InvalidDigit,
    PosOverflow,
}

impl NumberError {
    /// The standard message of the error.
    pub fn message(&self) -> (r: &'static str)
        ensures
            r@ == number_error_text(*self),
    {
        match self {
            NumberError::Empty => "cannot parse integer from empty string",
            NumberError::InvalidDigit => "invalid digit found in string",
            NumberError::PosOverflow => "number too large to fit in target type",
        }
    }
}

pub open spec fn number_error_text(e: NumberError) -> Seq<char> {
    match e {
        NumberError::Empty => "cannot parse integer from empty string"@,
        NumberError::InvalidDigit => "invalid digit found in string"@,
        NumberError::PosOverflow => "number too large to fit in target type"@,
    }
}

pub open spec fn is_digit(c: char) -> bool {
    '0' <= c && c <= '9'
}

/// The digits read left to right: the first character that is no digit is an invalid
/// digit; a value that grows past `max` is an overflow, whichever comes first.
pub open spec fn digits_value(s: Seq<char>, max: nat) -> Result<nat, NumberError>
    decreases s.len(),
{
    if s.len() == 0 {
        Ok(0)
    } else {
        match digits_value(s.drop_last(), max) {
            Err(e) => Err(e),
            Ok(v) => if !is_digit(s.last()) {
                Err(NumberError::InvalidDigit)
            } else if v * 10 + (s.last() as u32 - 48) > max {
                Err(NumberError::PosOverflow)
            } else {
                Ok((v * 10 + (s.last() as u32 - 48)) as nat)
            },
        }
    }
}

/// An unsigned integer as the standard parser reads it: an optional `+`, then decimal
/// digits, at most `max`.
pub open spec fn unsigned_value(s: Seq<char>, max: nat) -> Result<nat, NumberError> {
    if s.len() == 0 {
        Err(NumberError::Empty)
    } else if (s[0] == '+' || s[0] == '-') && s.len() == 1 {
        Err(NumberError::InvalidDigit)
    } else if s[0] == '+' {
        digits_value(s.drop_first(), max)
    } else {
        digits_value(s, max)
    }
}

/// Reads an unsigned integer no greater than `max`.
pub fn parse_unsigned(s: &[char], max: u64) -> (r: Result<u64, NumberError>)
    ensures
        match unsigned_value(s@, max as nat) {
            Ok(v) => r == Ok::<u64, NumberError>(v as u64),
            Err(e) => r == Err::<u64, NumberError>(e),
        },
{
    if s.len() == 0 {
        return Err(NumberError::Empty);
    }
    if (s[0] == '+' || s[0] == '-') && s.len() == 1 {
        return Err(NumberError::InvalidDigit);
    }
    let start: usize = if s[0] == '+' {
        1
    } else {
        0
    };
    let ghost ds = s@.subrange(start as int, s@.len() as int);
    assert(s[0] == '+' ==> ds =~= s@.drop_first());
    assert(s[0] != '+' ==> ds =~= s@);
    assert(unsigned_value(s@, max as nat) == digits_value(ds, max as nat));
    let mut v: u64 = 0;
    let mut i: usize = start;
    while i < s.len()
        invariant
            start <= i <= s@.len(),
            ds == s@.subrange(start as int, s@.len() as int),
            unsigned_value(s@, max as nat) == digits_value(ds, max as nat),
            digits_value(ds.take(i - start), max as nat) == Ok::<nat, NumberError>(v as nat),
            v <= max,
        decreases s.len() - i,
    {
        let c = s[i];
        assert(ds.take(i + 1 - start).drop_last() =~= ds.take(i - start));
        assert(ds.take(i + 1 - start).last() == c);
        if !('0' <= c && c <= '9') {
            assert(digits_value(ds.take(i + 1 - start), max as nat) == Err::<nat, NumberError>(
                NumberError::InvalidDigit,
            ));
            proof {
                lemma_digits_err_sticks(ds, (i + 1 - start) as int, max as nat);
            }
            return Err(NumberError::InvalidDigit);
        }
        let d = (c as u32 - 48) as u64;
        if d > max || v > (max - d) / 10 {
            assert(v * 10 + d > max) by (nonlinear_arith)
                requires
                    d > max || v > (max - d) / 10,
                    d < 10,
            ;
            assert(digits_value(ds.take(i + 1 - start), max as nat) == Err::<nat, NumberError>(
                NumberError::PosOverflow,
            ));
            proof {
                lemma_digits_err_sticks(ds, (i + 1 - start) as int, max as nat);
            }
            return Err(NumberError::PosOverflow);
        }
        assert(v * 10 + d <= max) by (nonlinear_arith)
            requires
                v <= (max - d) / 10,
                d <= max,
        ;
        v = v * 10 + d;
        i += 1;
    }
    assert(ds.take(s@.len() - start) =~= ds);
    Ok(v)
}

/// Once a prefix of the digits fails, the whole does with the same error.
proof fn lemma_digits_err_sticks(ds: Seq<char>, n: int, max: nat)
    requires
        0 <= n <= ds.len(),
        digits_value(ds.take(n), max) is Err,
    ensures
        digits_value(ds, max) == digits_value(ds.take(n), max),
    decreases ds.len() - n,
{
    if n < ds.len() {
        assert(ds.take(n + 1).drop_last() =~= ds.take(n));
        lemma_digits_err_sticks(ds, n + 1, max);
    } else {
        assert(ds.take(n) =~= ds);
    }
}

/// Reads a numeric environment setting no greater than `max` (surrounding white space
/// ignored).
pub fn parse_env_number(name: &str, value: &str, max: u64) -> (r: Result<u64, String>)
    ensures
        match unsigned_value(trim(value@), max as nat) {
            Ok(v) => r == Ok::<u64, String>(v as u64),
            Err(e) => r matches Err(m) && m@ == "invalid number for "@ + name@ + ": "@ + value@
                + " ("@ + number_error_text(e) + ")"@,
        },
{
    let cs = chars_of(value);
    let t = trim_chars(cs.as_slice());
    match parse_unsigned(t.as_slice(), max) {
        Ok(v) => Ok(v),
        Err(e) => {
            let mut m = owned("invalid number for ");
            m.append(name);
            m.append(": ");
            m.append(value);
            m.append(" (");
            m.append(e.message());
            m.append(")");
            Err(m)
        },
    }
}

/// The pieces of a text between commas (one piece when there is no comma).
pub open spec fn comma_pieces(s: Seq<char>) -> Seq<Seq<char>>
    decreases s.len(),
{
    if s.len() == 0 {
        seq![seq![]]
    } else {
        let p = comma_pieces(s.drop_last());
        if s.last() == ',' {
            p.push(seq![])
        } else {
            p.update(p.len() - 1, p.last().push(s.last()))
        }
    }
}

pub proof fn lemma_comma_pieces_len(s: Seq<char>)
    ensures
        comma_pieces(s).len() >= 1,
    decreases s.len(),
{
    if s.len() > 0 {
        lemma_comma_pieces_len(s.drop_last());
    }
}

/// The comma-separated endpoints, trimmed, without empty ones.
pub open spec fn bark_urls(value: Seq<char>) -> Seq<Seq<char>> {
    comma_pieces(value).map_values(|p: Seq<char>| trim(p)).filter(|p: Seq<char>| p.len() > 0)
}

/// Reads a comma-separated list of Bark endpoints.
pub fn parse_bark_urls(value: &str) -> (r: Vec<String>)
    ensures
        texts_view(r@) == bark_urls(value@),
{
    let cs = chars_of(value);
    let mut pieces: Vec<Vec<char>> = Vec::new();
    pieces.push(Vec::new());
    let mut i: usize = 0;
    assert(cs@.take(0) =~= seq![]);
    while i < cs.len()
        invariant
            i <= cs@.len(),
            pieces@.len() >= 1,
            pieces@.map_values(|p: Vec<char>| p@) == comma_pieces(cs@.take(i as int)),
        decreases cs.len() - i,
    {
        let c = cs[i];
        assert(cs@.take(i + 1 as int).drop_last() =~= cs@.take(i as int));
        assert(cs@.take(i + 1 as int).last() == c);
        let ghost before = pieces@.map_values(|p: Vec<char>| p@);
        if c == ',' {
            pieces.push(Vec::new());
            assert(pieces@.map_values(|p: Vec<char>| p@) =~= before.push(seq![]));
        } else {
            let n = pieces.len();
            let mut last = pieces.pop().unwrap();
            assert(last@ == before[n - 1]);
            last.push(c);
            pieces.push(last);
            assert(pieces@.map_values(|p: Vec<char>| p@) =~= before.update(
                n - 1,
                before[n - 1].push(c),
            ));
        }
        i += 1;
    }
    assert(cs@.take(cs@.len() as int) =~= cs@);
    let ghost pv = pieces@.map_values(|p: Vec<char>| p@);
    let ghost tv = pv.map_values(|p: Seq<char>| trim(p));
    let mut out: Vec<String> = Vec::new();
    let mut j: usize = 0;
    while j < pieces.len()
        invariant
            j <= pieces@.len(),
            pv == pieces@.map_values(|p: Vec<char>| p@),
            tv == pv.map_values(|p: Seq<char>| trim(p)),
            texts_view(out@) == tv.take(j as int).filter(|p: Seq<char>| p.len() > 0),
        decreases pieces.len() - j,
    {
        let t = trim_chars(pieces[j].as_slice());
        assert(t@ == tv[j as int]);
        proof {
            assert(tv.take(j + 1 as int) =~= tv.take(j as int).push(tv[j as int]));
            tv.take(j as int).lemma_filter_push(tv[j as int], |p: Seq<char>| p.len() > 0);
        }
        if t.len() > 0 {
            let ghost before = texts_view(out@);
            out.push(string_of(t.as_slice()));
            assert(texts_view(out@) =~= before.push(t@));
        }
        j += 1;
    }
    assert(tv.take(pieces@.len() as int) =~= tv);
    out
}

/// The override of the Bark endpoints from the environment, when the variable is set.
pub fn env_bark_urls_override(value: Option<String>) -> (r: Option<Vec<String>>)
    ensures
        match value {
            Some(v) => r matches Some(u) && texts_view(u@) == bark_urls(v@),
            None => r is None,
        },
{
    match value {
        Some(v) => Some(parse_bark_urls(v.as_str())),
        None => None,
    }
}

/// The values of the environment variables that override settings, where set.
pub struct EnvOverrides {
    /// `BOCHK_PROXY_URL`
    pub proxy_url: Option<String>,
    /// `BOCHK_MONITOR_INTERVAL_SECS`
    pub interval_secs: Option<String>,
    /// `BOCHK_MONITOR_MAX_FAIL_COUNT`
    pub max_fail_count: Option<String>,
    /// `BOCHK_BARK_URLS`
    pub bark_urls: Option<String>,
    /// `BOCHK_LOGGING_PERSIST_JSONL`
    pub persist_jsonl: Option<String>,
    /// `BOCHK_WEB_ENABLED`
    pub web_enabled: Option<String>,
    /// `BOCHK_WEB_PORT`
    pub web_port: Option<String>,
}

pub open spec fn number_message(name: Seq<char>, value: Seq<char>, e: NumberError) -> Seq<char> {
    "invalid number for "@ + name + ": "@ + value + " ("@ + number_error_text(e) + ")"@
}

pub open spec fn bool_message(name: Seq<char>, value: Seq<char>) -> Seq<char> {
    "invalid boolean for "@ + name + ": "@ + value
}

/// The settings after the overrides, applied in order; the first value that does not
/// read stops with its error, the settings keeping the overrides applied before it.
pub open spec fn overridden(c: ConfigV, env: EnvOverrides) -> (ConfigV, Option<Seq<char>>) {
    let c1 = match env.proxy_url {
        Some(v) => ConfigV { proxy_url: v@, ..c },
        None => c,
    };
    match env.interval_secs {
        Some(v) if unsigned_value(trim(v@), u64::MAX as nat) is Err => (
            c1,
            Some(number_message("BOCHK_MONITOR_INTERVAL_SECS"@, v@, unsigned_value(trim(v@), u64::MAX as nat)->Err_0)),
        ),
        _ => {
            let c2 = match env.interval_secs {
                Some(v) => ConfigV { interval_secs: unsigned_value(trim(v@), u64::MAX as nat)->Ok_0 as u64, ..c1 },
                None => c1,
            };
            match env.max_fail_count {
                Some(v) if unsigned_value(trim(v@), u32::MAX as nat) is Err => (
                    c2,
                    Some(number_message("BOCHK_MONITOR_MAX_FAIL_COUNT"@, v@, unsigned_value(trim(v@), u32::MAX as nat)->Err_0)),
                ),
                _ => {
                    let c3 = match env.max_fail_count {
                        Some(v) => ConfigV { max_fail_count: unsigned_value(trim(v@), u32::MAX as nat)->Ok_0 as u32, ..c2 },
                        None => c2,
                    };
                    let c4 = match env.bark_urls {
                        Some(v) => ConfigV { bark_urls: bark_urls(v@), ..c3 },
                        None => c3,
                    };
                    match env.persist_jsonl {
                        Some(v) if bool_setting(v@) is None => (
                            c4,
                            Some(bool_message("BOCHK_LOGGING_PERSIST_JSONL"@, v@)),
                        ),
                        _ => {
                            let c5 = match env.persist_jsonl {
                                Some(v) => ConfigV { persist_jsonl: bool_setting(v@)->Some_0, ..c4 },
                                None => c4,
                            };
                            match env.web_enabled {
                                Some(v) if bool_setting(v@) is None => (
                                    c5,
                                    Some(bool_message("BOCHK_WEB_ENABLED"@, v@)),
                                ),
                                _ => {
                                    let c6 = match env.web_enabled {
                                        Some(v) => ConfigV { web_enabled: bool_setting(v@)->Some_0, ..c5 },
                                        None => c5,
                                    };
                                    match env.web_port {
                                        Some(v) => match unsigned_value(trim(v@), u16::MAX as nat) {
                                            Err(e) => (c6, Some(number_message("BOCHK_WEB_PORT"@, v@, e))),
                                            Ok(p) => (ConfigV { web_port: p as u16, ..c6 }, None),
                                        },
                                        None => (c6, None),
                                    }
                                },
                            }
                        },
                    }
                },
            }
        },
    }
}

/// Applies the environment overrides to the settings.
pub fn apply_env_overrides(config: &mut AppConfig, env: &EnvOverrides) -> (r: Result<(), String>)
    ensures
        final(config)@ == overridden(old(config)@, *env).0,
        match overridden(old(config)@, *env).1 {
            Some(m) => r matches Err(e) && e@ == m,
            None => r is Ok,
        },
{
    match &env.proxy_url {
        Some(v) => {
            config.proxy.url = v.clone();
        },
        None => {},
    }
    match &env.interval_secs {
        Some(v) => {
            config.monitor.interval_secs = parse_env_number("BOCHK_MONITOR_INTERVAL_SECS", v.as_str(), u64::MAX)?;
        },
        None => {},
    }
    match &env.max_fail_count {
        Some(v) => {
            let n = parse_env_number("BOCHK_MONITOR_MAX_FAIL_COUNT", v.as_str(), u32::MAX as u64)?;
            config.monitor.max_fail_count = n as u32;
        },
        None => {},
    }
    match &env.bark_urls {
        Some(v) => {
            config.bark.urls = parse_bark_urls(v.as_str());
        },
        None => {},
    }
    match &env.persist_jsonl {
        Some(v) => {
            config.logging.persist_jsonl = parse_bool_env("BOCHK_LOGGING_PERSIST_JSONL", v.as_str())?;
        },
        None => {},
    }
    match &env.web_enabled {
        Some(v) => {
            config.web.enabled = parse_bool_env("BOCHK_WEB_ENABLED", v.as_str())?;
        },
        None => {},
    }
    match &env.web_port {
        Some(v) => {
            let p = parse_env_number("BOCHK_WEB_PORT", v.as_str(), u16::MAX as u64)?;
            config.web.port = p as u16;
        },
        None => {},
    }
    Ok(())
}

} // verus!
