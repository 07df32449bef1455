//! Settings of the demonstration file-system daemons: how each raw setting
//! is read, how the whole configuration is summarised, and which timeout
//! smoke-test configurations are consistent.

use crate::encoding::{decimal, parse_u64, parse_unsigned, render_u64};
use crate::text::{ascii_lower, str_equal, to_ascii_lowercase, trim, trimmed};
use vstd::prelude::*;
use vstd::string::StringExecFns;

verus! {

/// The daemon demo configuration.
pub struct FuseDemoConfig {
    pub wal_sync_writes: bool,
    pub chunk_size_bytes: usize,
    pub daemon_request_timeout_ms: Option<u64>,
    pub daemon_max_pending_requests: usize,
    pub timeout_smoke: bool,
    pub timeout_smoke_expect_timeout: bool,
    pub timeout_smoke_delay_ms: u64,
}

/// The raw text of each setting, `None` where it is not set.
pub struct DemoSettings {
    pub wal_sync_writes: Option<String>,
    pub chunk_size_bytes: Option<String>,
    pub daemon_request_timeout_ms: Option<String>,
    pub daemon_max_pending_requests: Option<String>,
    pub timeout_smoke: Option<String>,
    pub timeout_smoke_expect_timeout: Option<String>,
    pub timeout_smoke_delay_ms: Option<String>,
}

/// The character view of an optional text.
pub open spec fn text_view(o: Option<String>) -> Option<Seq<char>> {
    match o {
        Some(s) => Some(s@),
        None => None,
    }
}

/// A flag's text is true unless, trimmed and in lower case, it reads
/// `0`, `false`, `off` or `no`.
pub open spec fn bool_text(s: Seq<char>) -> bool {
    let t = ascii_lower(trimmed(s));
    !(t == "0"@ || t == "false"@ || t == "off"@ || t == "no"@)
}

/// An optional number's text: nothing when it is blank, `none` or `off`
/// (in any case), else the unsigned number it spells, if it spells one.
pub open spec fn optional_u64_text(s: Seq<char>) -> Option<u64> {
    let t = trimmed(s);
    if t.len() == 0 || ascii_lower(t) == "none"@ || ascii_lower(t) == "off"@ {
        None
    } else {
        match parse_unsigned(t, u64::MAX as nat) {
            Some(v) => Some(v as u64),
            None => None,
        }
    }
}

/// A flag setting: its text read as a flag, or `default` when unset.
pub open spec fn bool_setting(raw: Option<Seq<char>>, default: bool) -> bool {
    match raw {
        Some(s) => bool_text(s),
        None => default,
    }
}

/// A count setting with a floor: the number its trimmed text spells,
/// raised to `min`; otherwise `default` raised to `min`.
pub open spec fn usize_setting(raw: Option<Seq<char>>, default: usize, min: usize) -> usize {
    let fallback = if default >= min {
        default
    } else {
        min
    };
    match raw {
        Some(s) => match parse_unsigned(trimmed(s), usize::MAX as nat) {
            Some(v) => if v >= min {
                v as usize
            } else {
                min
            },
            None => fallback,
        },
        None => fallback,
    }
}

/// A number setting: the number its trimmed text spells, else `default`.
pub open spec fn u64_setting(raw: Option<Seq<char>>, default: u64) -> u64 {
    match raw {
        Some(s) => match parse_unsigned(trimmed(s), u64::MAX as nat) {
            Some(v) => v as u64,
            None => default,
        },
        None => default,
    }
}

/// An optional number setting: its text read as an optional number, or
/// nothing when unset.
pub open spec fn optional_u64_setting(raw: Option<Seq<char>>) -> Option<u64> {
    match raw {
        Some(s) => optional_u64_text(s),
        None => None,
    }
}

/// Reads a flag's text.
pub fn parse_bool_text(raw: &str) -> (r: bool)
    ensures
        r == bool_text(raw@),
{
    let t = trim(raw);
    let l = to_ascii_lowercase(t.as_str());
    let s = l.as_str();
    !(str_equal(s, "0") || str_equal(s, "false") || str_equal(s, "off") || str_equal(s, "no"))
}

/// Reads an optional number's text.
pub fn parse_optional_u64_text(raw: &str) -> (r: Option<u64>)
    ensures
        r == optional_u64_text(raw@),
{
    let t = trim(raw);
    if t.as_str().unicode_len() == 0 {
        return None;
    }
    let l = to_ascii_lowercase(t.as_str());
    if str_equal(l.as_str(), "none") || str_equal(l.as_str(), "off") {
        return None;
    }
    parse_u64(t.as_str())
}

/// Parses `s` as `str::parse::<usize>` does.
pub fn parse_usize(s: &str) -> (r: Option<usize>)
    ensures
        match parse_unsigned(s@, usize::MAX as nat) {
            Some(v) => r == Some(v as usize),
            None => r is None,
        },
{
    match parse_u64(s) {
        Some(v) => {
            if v <= usize::MAX as u64 {
                Some(v as usize)
            } else {
                None
            }
        },
        None => None,
    }
}

/// The text of an optional owned string, borrowed.
fn as_text(o: &Option<String>) -> (r: Option<&str>)
    ensures
        match r {
            Some(s) => o.is_some() && s@ == o.unwrap()@,
            None => o.is_none(),
        },
{
    match o {
        Some(s) => Some(s.as_str()),
        None => None,
    }
}

/// Reads a flag setting.
pub fn parse_bool_setting(raw: Option<&str>, default: bool) -> (r: bool)
    ensures
        r == bool_setting(
            match raw {
                Some(s) => Some(s@),
                None => None,
            },
            default,
        ),
{
    match raw {
        Some(s) => parse_bool_text(s),
        None => default,
    }
}

/// Reads a count setting with a floor.
pub fn parse_usize_setting(raw: Option<&str>, default: usize, min: usize) -> (r: usize)
    ensures
        r == usize_setting(
            match raw {
                Some(s) => Some(s@),
                None => None,
            },
            default,
            min,
        ),
{
    let fallback = if default >= min {
        default
    } else {
        min
    };
    match raw {
        Some(s) => {
            let t = trim(s);
            match parse_usize(t.as_str()) {
                Some(v) => if v >= min {
                    v
                } else {
                    min
                },
                None => fallback,
            }
        },
        None => fallback,
    }
}

/// Reads a number setting.
pub fn parse_u64_setting(raw: Option<&str>, default: u64) -> (r: u64)
    ensures
        r == u64_setting(
            match raw {
                Some(s) => Some(s@),
                None => None,
            },
            default,
        ),
{
    match raw {
        Some(s) => {
            let t = trim(s);
            match parse_u64(t.as_str()) {
                Some(v) => v,
                None => default,
            }
        },
        None => default,
    }
}

/// Reads an optional number setting.
pub fn parse_optional_u64_setting(raw: Option<&str>) -> (r: Option<u64>)
    ensures
        r == optional_u64_setting(
            match raw {
                Some(s) => Some(s@),
                None => None,
            },
        ),
{
    match raw {
        Some(s) => parse_optional_u64_text(s),
        None => None,
    }
}

/// `true` or `false`, as a flag is printed.
pub open spec fn bool_word(b: bool) -> Seq<char> {
    if b {
        "true"@
    } else {
        "false"@
    }
}

/// The one-line summary of a configuration.
pub open spec fn summary_text(c: FuseDemoConfig, demo_name: Seq<char>) -> Seq<char> {
    demo_name + " config: WAL_SYNC_WRITES="@ + bool_word(c.wal_sync_writes)
        + ", CHUNK_SIZE_BYTES="@ + decimal(c.chunk_size_bytes as nat)
        + ", FUSE_DAEMON_REQUEST_TIMEOUT_MS="@ + match c.daemon_request_timeout_ms {
        Some(v) => decimal(v as nat),
        None => "none"@,
    } + ", FUSE_DAEMON_MAX_PENDING_REQUESTS="@ + decimal(c.daemon_max_pending_requests as nat)
        + ", FUSE_TIMEOUT_SMOKE="@ + bool_word(c.timeout_smoke)
        + ", FUSE_TIMEOUT_SMOKE_EXPECT_TIMEOUT="@ + bool_word(c.timeout_smoke_expect_timeout)
        + ", FUSE_TIMEOUT_SMOKE_DELAY_MS="@ + decimal(c.timeout_smoke_delay_ms as nat)
}

/// Whether the timeout smoke-test settings fit together, and if not, why.
pub open spec fn smoke_check(c: FuseDemoConfig) -> Result<(), Seq<char>> {
    if c.timeout_smoke_expect_timeout && !c.timeout_smoke {
        Err("FUSE_TIMEOUT_SMOKE_EXPECT_TIMEOUT requires FUSE_TIMEOUT_SMOKE=true"@)
    } else if c.timeout_smoke_expect_timeout && c.daemon_request_timeout_ms is None {
        Err("FUSE_TIMEOUT_SMOKE_EXPECT_TIMEOUT requires FUSE_DAEMON_REQUEST_TIMEOUT_MS to be set"@)
    } else if c.timeout_smoke_expect_timeout && c.daemon_request_timeout_ms.unwrap()
        >= c.timeout_smoke_delay_ms {
        Err(
            "timeout smoke expects timeout, but configured timeout ("@ + decimal(
                c.daemon_request_timeout_ms.unwrap() as nat,
            ) + "ms) is not less than delay ("@ + decimal(c.timeout_smoke_delay_ms as nat)
                + "ms)"@,
        )
    } else {
        Ok(())
    }
}

fn bool_word_text(b: bool) -> (r: &'static str)
    ensures
        r@ == bool_word(b),
{
    if b {
        "true"
    } else {
        "false"
    }
}

impl FuseDemoConfig {
    /// The configuration that the given raw settings describe; the chunk
    /// size falls back to `default_chunk_size_bytes`.
    pub fn from_settings(default_chunk_size_bytes: usize, settings: &DemoSettings) -> (c: Self)
        ensures
            c.wal_sync_writes == bool_setting(text_view(settings.wal_sync_writes), true),
            c.chunk_size_bytes == usize_setting(
                text_view(settings.chunk_size_bytes),
                default_chunk_size_bytes,
                1,
            ),
            c.daemon_request_timeout_ms == optional_u64_setting(
                text_view(settings.daemon_request_timeout_ms),
            ),
            c.daemon_max_pending_requests == usize_setting(
                text_view(settings.daemon_max_pending_requests),
                1024,
                1,
            ),
            c.timeout_smoke == bool_setting(text_view(settings.timeout_smoke), false),
            c.timeout_smoke_expect_timeout == bool_setting(
                text_view(settings.timeout_smoke_expect_timeout),
                false,
            ),
            c.timeout_smoke_delay_ms == u64_setting(
                text_view(settings.timeout_smoke_delay_ms),
                80,
            ),
    {
        FuseDemoConfig {
            wal_sync_writes: parse_bool_setting(as_text(&settings.wal_sync_writes), true),
            chunk_size_bytes: parse_usize_setting(
                as_text(&settings.chunk_size_bytes),
                default_chunk_size_bytes,
                1,
            ),
            daemon_request_timeout_ms: parse_optional_u64_setting(
                as_text(&settings.daemon_request_timeout_ms),
            ),
            daemon_max_pending_requests: parse_usize_setting(
                as_text(&settings.daemon_max_pending_requests),
                1024,
                1,
            ),
            timeout_smoke: parse_bool_setting(as_text(&settings.timeout_smoke), false),
            timeout_smoke_expect_timeout: parse_bool_setting(
                as_text(&settings.timeout_smoke_expect_timeout),
                false,
            ),
            timeout_smoke_delay_ms: parse_u64_setting(
                as_text(&settings.timeout_smoke_delay_ms),
                80,
            ),
        }
    }

    /// A one-line summary of every setting, headed by `demo_name`.
    pub fn summary(&self, demo_name: &str) -> (r: String)
        ensures
            r@ == summary_text(*self, demo_name@),
    {
        let timeout = match self.daemon_request_timeout_ms {
            Some(v) => render_u64(v),
            None => String::from_str("none"),
        };
        let s = String::from_str(demo_name).concat(" config: WAL_SYNC_WRITES=").concat(
            bool_word_text(self.wal_sync_writes),
        ).concat(", CHUNK_SIZE_BYTES=").concat(
            render_u64(self.chunk_size_bytes as u64).as_str(),
        ).concat(", FUSE_DAEMON_REQUEST_TIMEOUT_MS=").concat(timeout.as_str()).concat(
            ", FUSE_DAEMON_MAX_PENDING_REQUESTS=",
        ).concat(render_u64(self.daemon_max_pending_requests as u64).as_str()).concat(
            ", FUSE_TIMEOUT_SMOKE=",
        ).concat(bool_word_text(self.timeout_smoke)).concat(
            ", FUSE_TIMEOUT_SMOKE_EXPECT_TIMEOUT=",
        ).concat(bool_word_text(self.timeout_smoke_expect_timeout)).concat(
            ", FUSE_TIMEOUT_SMOKE_DELAY_MS=",
        ).concat(render_u64(self.timeout_smoke_delay_ms).as_str());
        s
    }

    /// Checks that the timeout smoke-test settings fit together.
    pub fn validate_for_daemon_smoke(&self) -> (r: Result<(), String>)
        ensures
            match r {
                Ok(()) => smoke_check(*self) == Ok::<(), Seq<char>>(()),
                Err(e) => smoke_check(*self) == Err::<(), Seq<char>>(e@),
            },
    {
        if self.timeout_smoke_expect_timeout && !self.timeout_smoke {
            return Err(
                String::from_str("FUSE_TIMEOUT_SMOKE_EXPECT_TIMEOUT requires FUSE_TIMEOUT_SMOKE=true"),
            );
        }
        if self.timeout_smoke_expect_timeout && self.daemon_request_timeout_ms.is_none() {
            return Err(
                String::from_str(
                    "FUSE_TIMEOUT_SMOKE_EXPECT_TIMEOUT requires FUSE_DAEMON_REQUEST_TIMEOUT_MS to be set",
                ),
            );
        }
        if self.timeout_smoke_expect_timeout {
            let timeout_ms = match self.daemon_request_timeout_ms {
                Some(v) => v,
                None => 0,
            };
            if timeout_ms >= self.timeout_smoke_delay_ms {
                let msg = String::from_str(
                    "timeout smoke expects timeout, but configured timeout (",
                ).concat(render_u64(timeout_ms).as_str()).concat(
                    "ms) is not less than delay (",
                ).concat(render_u64(self.timeout_smoke_delay_ms).as_str()).concat("ms)");
                return Err(msg);
            }
        }
        Ok(())
    }
}

} // verus!
