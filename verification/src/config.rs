//! Run configuration shared by servers and clients: defaults, the values read
//! from environment variables, and the overrides a bench run sets on the
//! child processes it starts.

use vstd::prelude::*;
use crate::text::{decimal, decimal_chars, parse_u64, parse_unsigned_spec, parse_usize};

verus! {

/// All examples are run sequentially, so this address serves every run.
pub const DEFAULT_ADDR: &'static str = "127.0.0.1:2345";

/// How many bytes are transmitted per read buffer.
pub const DEFAULT_SIZE: usize = 16384;

/// How many sockets a client connects to the server.
pub const DEFAULT_SOCKET_LEN: usize = 100;

/// How long the server lasts, in seconds.
pub const DEFAULT_DURATION: u64 = 4;

/// How often a tick occurs to take a metric, in seconds.
pub const DEFAULT_INTERVAL: u64 = 2;

/// Environment variable that overrides the address.
pub const ENV_ADDR: &'static str = "ADDR";

/// Environment variable that overrides the buffer size.
pub const ENV_SIZE: &'static str = "SIZE";

/// Environment variable that overrides the number of sockets.
pub const ENV_SOCKET_LEN: &'static str = "SOCKET_LEN";

/// Environment variable that overrides the duration, in seconds.
pub const ENV_DURATION: &'static str = "DURATION";

/// Environment variable that overrides the tick interval, in seconds.
pub const ENV_INTERVAL: &'static str = "INTERVAL";

/// The configuration of one server or client run.
pub struct Config {
    /// The address the server listens on and the clients connect to.
    pub addr: String,
    /// How many bytes are transmitted per read buffer.
    pub size: usize,
    /// How many sockets a client connects to the server.
    pub socket_len: usize,
    /// How long the server lasts, in whole seconds.
    pub duration: u64,
    /// How often a tick occurs to take a metric, in whole seconds.
    pub interval: u64,
}

/// The value a numeric setting takes: the default when the variable is unset,
/// else what `str::parse` reads from it (`None` where that fails).
pub open spec fn setting_value(var: Option<Seq<char>>, default: nat, max: nat) -> Option<nat> {
    match var {
        None => Some(default),
        Some(b) => parse_unsigned_spec(b, max),
    }
}

/// The characters of an optional string.
pub open spec fn opt_chars(v: Option<&str>) -> Option<Seq<char>> {
    match v {
        None => None,
        Some(s) => Some(s@),
    }
}

/// Every variable that is set parses as the number type of its setting.
pub open spec fn env_values_parse(
    size: Option<&str>,
    socket_len: Option<&str>,
    duration: Option<&str>,
    interval: Option<&str>,
) -> bool {
    &&& setting_value(opt_chars(size), DEFAULT_SIZE as nat, usize::MAX as nat) is Some
    &&& setting_value(opt_chars(socket_len), DEFAULT_SOCKET_LEN as nat, usize::MAX as nat) is Some
    &&& setting_value(opt_chars(duration), DEFAULT_DURATION as nat, u64::MAX as nat) is Some
    &&& setting_value(opt_chars(interval), DEFAULT_INTERVAL as nat, u64::MAX as nat) is Some
}

/// Reads a numeric setting that must parse when present.
fn setting_usize(var: Option<&str>, default: usize) -> (r: usize)
    requires
        setting_value(opt_chars(var), default as nat, usize::MAX as nat) is Some,
    ensures
        setting_value(opt_chars(var), default as nat, usize::MAX as nat) == Some(r as nat),
{
    match var {
        None => default,
        Some(s) => match parse_usize(s) {
            Some(v) => v,
            None => {
                proof {
                    assert(false);
                }
                default
            },
        },
    }
}

/// Reads a numeric setting that must parse when present.
fn setting_u64(var: Option<&str>, default: u64) -> (r: u64)
    requires
        setting_value(opt_chars(var), default as nat, u64::MAX as nat) is Some,
    ensures
        setting_value(opt_chars(var), default as nat, u64::MAX as nat) == Some(r as nat),
{
    match var {
        None => default,
        Some(s) => match parse_u64(s) {
            Some(v) => v,
            None => {
                proof {
                    assert(false);
                }
                default
            },
        },
    }
}

impl Config {
    /// The configuration given the values of the environment variables
    /// `ADDR`, `SIZE`, `SOCKET_LEN`, `DURATION` and `INTERVAL` (`None` where a
    /// variable is unset): each unset one takes its default.
    pub fn from_env(
        addr: Option<&str>,
        size: Option<&str>,
        socket_len: Option<&str>,
        duration: Option<&str>,
        interval: Option<&str>,
    ) -> (r: Config)
        requires
            env_values_parse(size, socket_len, duration, interval),
        ensures
            r.addr@ == match addr {
                Some(a) => a@,
                None => DEFAULT_ADDR@,
            },
            setting_value(opt_chars(size), DEFAULT_SIZE as nat, usize::MAX as nat) == Some(
                r.size as nat,
            ),
            setting_value(opt_chars(socket_len), DEFAULT_SOCKET_LEN as nat, usize::MAX as nat)
                == Some(r.socket_len as nat),
            setting_value(opt_chars(duration), DEFAULT_DURATION as nat, u64::MAX as nat) == Some(
                r.duration as nat,
            ),
            setting_value(opt_chars(interval), DEFAULT_INTERVAL as nat, u64::MAX as nat) == Some(
                r.interval as nat,
            ),
    {
        let addr = match addr {
            Some(a) => a.to_owned(),
            None => DEFAULT_ADDR.to_owned(),
        };
        Config {
            addr,
            size: setting_usize(size, DEFAULT_SIZE),
            socket_len: setting_usize(socket_len, DEFAULT_SOCKET_LEN),
            duration: setting_u64(duration, DEFAULT_DURATION),
            interval: setting_u64(interval, DEFAULT_INTERVAL),
        }
    }

    /// The configuration with every setting at its default.
    pub fn defaults() -> (r: Config)
        ensures
            r.addr@ == DEFAULT_ADDR@,
            r.size == DEFAULT_SIZE,
            r.socket_len == DEFAULT_SOCKET_LEN,
            r.duration == DEFAULT_DURATION,
            r.interval == DEFAULT_INTERVAL,
    {
        Config {
            addr: DEFAULT_ADDR.to_owned(),
            size: DEFAULT_SIZE,
            socket_len: DEFAULT_SOCKET_LEN,
            duration: DEFAULT_DURATION,
            interval: DEFAULT_INTERVAL,
        }
    }
}

/// The settings a bench run overrides on the processes it starts; the others
/// keep their defaults.
pub struct EnvConfig {
    pub size: Option<usize>,
    pub socket_len: Option<usize>,
    pub duration: Option<u64>,
}

/// One environment variable to set on a child process.
pub struct EnvVar {
    pub name: &'static str,
    pub value: Vec<char>,
}

/// The spelling of a number as a variable's value.
pub open spec fn var_spelling(n: nat) -> Seq<char> {
    decimal(n)
}

/// The value of the variable named `name` among `vars`, if one is set.
pub open spec fn var_lookup(vars: Seq<EnvVar>, name: Seq<char>) -> Option<Seq<char>>
    decreases vars.len(),
{
    if vars.len() == 0 {
        None
    } else if vars.last().name@ == name {
        Some(vars.last().value@)
    } else {
        var_lookup(vars.drop_last(), name)
    }
}

impl EnvConfig {
    /// No overrides.
    pub fn new() -> (r: EnvConfig)
        ensures
            r.size is None,
            r.socket_len is None,
            r.duration is None,
    {
        EnvConfig { size: None, socket_len: None, duration: None }
    }

    /// Overrides how long the server lasts, in seconds.
    pub fn set_duration(&mut self, secs: u64)
        ensures
            final(self).duration == Some(secs),
            final(self).size == old(self).size,
            final(self).socket_len == old(self).socket_len,
    {
        self.duration = Some(secs);
    }

    /// Overrides how many sockets a client connects.
    pub fn set_socket_len(&mut self, n: usize)
        ensures
            final(self).socket_len == Some(n),
            final(self).size == old(self).size,
            final(self).duration == old(self).duration,
    {
        self.socket_len = Some(n);
    }

    /// Overrides the buffer size.
    pub fn set_size(&mut self, n: usize)
        ensures
            final(self).size == Some(n),
            final(self).socket_len == old(self).socket_len,
            final(self).duration == old(self).duration,
    {
        self.size = Some(n);
    }

    /// The configuration the started processes run with: the defaults,
    /// with the overrides applied.
    pub fn finish(&self) -> (r: Config)
        ensures
            r.addr@ == DEFAULT_ADDR@,
            r.size == match self.size {
                Some(n) => n,
                None => DEFAULT_SIZE,
            },
            r.socket_len == match self.socket_len {
                Some(n) => n,
                None => DEFAULT_SOCKET_LEN,
            },
            r.duration == match self.duration {
                Some(n) => n,
                None => DEFAULT_DURATION,
            },
            r.interval == DEFAULT_INTERVAL,
    {
        Config {
            addr: DEFAULT_ADDR.to_owned(),
            size: match self.size {
                Some(n) => n,
                None => DEFAULT_SIZE,
            },
            socket_len: match self.socket_len {
                Some(n) => n,
                None => DEFAULT_SOCKET_LEN,
            },
            duration: match self.duration {
                Some(n) => n,
                None => DEFAULT_DURATION,
            },
            interval: DEFAULT_INTERVAL,
        }
    }

    /// The environment variables that carry the overrides, each spelled in
    /// decimal; no other variable is set, and none twice.
    pub fn vars(&self) -> (r: Vec<EnvVar>)
        ensures
            forall|i: int|
                0 <= i < r@.len() ==> {
                    ||| (#[trigger] r@[i]).name@ == ENV_SIZE@
                    ||| r@[i].name@ == ENV_SOCKET_LEN@
                    ||| r@[i].name@ == ENV_DURATION@
                },
            forall|i: int, j: int|
                0 <= i < j < r@.len() ==> (#[trigger] r@[i]).name@ != (#[trigger] r@[j]).name@,
            var_lookup(r@, ENV_SIZE@) == match self.size {
                Some(n) => Some(var_spelling(n as nat)),
                None => None::<Seq<char>>,
            },
            var_lookup(r@, ENV_SOCKET_LEN@) == match self.socket_len {
                Some(n) => Some(var_spelling(n as nat)),
                None => None::<Seq<char>>,
            },
            var_lookup(r@, ENV_DURATION@) == match self.duration {
                Some(n) => Some(var_spelling(n as nat)),
                None => None::<Seq<char>>,
            },
            var_lookup(r@, ENV_ADDR@) is None,
            var_lookup(r@, ENV_INTERVAL@) is None,
    {
        proof {
            reveal_strlit("SIZE");
            reveal_strlit("SOCKET_LEN");
            reveal_strlit("DURATION");
            reveal_strlit("ADDR");
            reveal_strlit("INTERVAL");
        }
        let mut r: Vec<EnvVar> = Vec::new();
        if let Some(n) = self.size {
            r.push(EnvVar { name: ENV_SIZE, value: decimal_chars(n as u128) });
        }
        let ghost r1 = r@;
        if let Some(n) = self.socket_len {
            r.push(EnvVar { name: ENV_SOCKET_LEN, value: decimal_chars(n as u128) });
        }
        let ghost r2 = r@;
        if let Some(n) = self.duration {
            r.push(EnvVar { name: ENV_DURATION, value: decimal_chars(n as u128) });
        }
        proof {
            assert(ENV_SIZE@ == "SIZE"@ && ENV_SIZE@.len() == 4 && ENV_SIZE@[0] == 'S');
            assert(ENV_ADDR@ == "ADDR"@ && ENV_ADDR@.len() == 4 && ENV_ADDR@[0] == 'A');
            assert(ENV_SOCKET_LEN@ == "SOCKET_LEN"@ && ENV_SOCKET_LEN@.len() == 10);
            assert(ENV_DURATION@ == "DURATION"@ && ENV_DURATION@.len() == 8 && ENV_DURATION@[0]
                == 'D');
            assert(ENV_INTERVAL@ == "INTERVAL"@ && ENV_INTERVAL@.len() == 8 && ENV_INTERVAL@[0]
                == 'I');
            assert(ENV_SIZE@ != ENV_SOCKET_LEN@);
            assert(ENV_SIZE@ != ENV_DURATION@);
            assert(ENV_SOCKET_LEN@ != ENV_DURATION@);
            assert(ENV_ADDR@ != ENV_DURATION@ && ENV_ADDR@ != ENV_SOCKET_LEN@ && ENV_ADDR@
                != ENV_SIZE@);
            assert(ENV_INTERVAL@ != ENV_DURATION@ && ENV_INTERVAL@ != ENV_SOCKET_LEN@
                && ENV_INTERVAL@ != ENV_SIZE@);
            reveal_with_fuel(var_lookup, 4);
            if self.duration is Some {
                assert(r@.drop_last() =~= r2);
            }
            if self.socket_len is Some {
                assert(r2.drop_last() =~= r1);
            }
            if self.size is Some {
                assert(r1.drop_last() =~= Seq::<EnvVar>::empty());
            }
        }
        r
    }
}

/// A change that one bench run makes to the default configuration.
#[derive(Clone, Copy, PartialEq, Eq, Structural, Debug)]
pub enum EnvSetting {
    /// Run with the defaults.
    Unchanged,
    /// Run the server for this many seconds.
    Duration(u64),
    /// Connect this many sockets.
    SocketLen(usize),
    /// Use buffers of this many bytes.
    Size(usize),
}

impl EnvSetting {
    /// Applies the change to `env`.
    pub fn apply(&self, env: &mut EnvConfig)
        ensures
            final(env).size == match *self {
                EnvSetting::Size(n) => Some(n),
                _ => old(env).size,
            },
            final(env).socket_len == match *self {
                EnvSetting::SocketLen(n) => Some(n),
                _ => old(env).socket_len,
            },
            final(env).duration == match *self {
                EnvSetting::Duration(n) => Some(n),
                _ => old(env).duration,
            },
    {
        match *self {
            EnvSetting::Unchanged => {},
            EnvSetting::Duration(n) => env.set_duration(n),
            EnvSetting::SocketLen(n) => env.set_socket_len(n),
            EnvSetting::Size(n) => env.set_size(n),
        }
    }
}

/// The changes every server/client pair is benched under: the defaults, a
/// four-second run, two hundred sockets, and one-megabyte buffers.
pub fn gen_env_settings() -> (r: Vec<EnvSetting>)
    ensures
        r@ == seq![
            EnvSetting::Unchanged,
            EnvSetting::Duration(4),
            EnvSetting::SocketLen(200),
            EnvSetting::Size(1048576),
        ],
{
    let mut r: Vec<EnvSetting> = Vec::new();
    r.push(EnvSetting::Unchanged);
    r.push(EnvSetting::Duration(4));
    r.push(EnvSetting::SocketLen(200));
    r.push(EnvSetting::Size(1024 * 1024));
    assert(r@ =~= seq![
        EnvSetting::Unchanged,
        EnvSetting::Duration(4),
        EnvSetting::SocketLen(200),
        EnvSetting::Size(1048576),
    ]);
    r
}

/// A started process reads back the configuration its bench run recorded:
/// each overridden variable, spelled in decimal, parses to the value that
/// `finish` reports, and each variable left unset takes the default that
/// `finish` reports.
pub proof fn lemma_env_round_trip(env: EnvConfig, vars: Seq<EnvVar>, config: Config)
    requires
        var_lookup(vars, ENV_SIZE@) == match env.size {
            Some(n) => Some(var_spelling(n as nat)),
            None => None::<Seq<char>>,
        },
        var_lookup(vars, ENV_SOCKET_LEN@) == match env.socket_len {
            Some(n) => Some(var_spelling(n as nat)),
            None => None::<Seq<char>>,
        },
        var_lookup(vars, ENV_DURATION@) == match env.duration {
            Some(n) => Some(var_spelling(n as nat)),
            None => None::<Seq<char>>,
        },
        var_lookup(vars, ENV_INTERVAL@) is None,
        config.size == match env.size {
            Some(n) => n,
            None => DEFAULT_SIZE,
        },
        config.socket_len == match env.socket_len {
            Some(n) => n,
            None => DEFAULT_SOCKET_LEN,
        },
        config.duration == match env.duration {
            Some(n) => n,
            None => DEFAULT_DURATION,
        },
        config.interval == DEFAULT_INTERVAL,
    ensures
        setting_value(var_lookup(vars, ENV_SIZE@), DEFAULT_SIZE as nat, usize::MAX as nat)
            == Some(config.size as nat),
        setting_value(var_lookup(vars, ENV_SOCKET_LEN@), DEFAULT_SOCKET_LEN as nat, usize::MAX as nat)
            == Some(config.socket_len as nat),
        setting_value(var_lookup(vars, ENV_DURATION@), DEFAULT_DURATION as nat, u64::MAX as nat)
            == Some(config.duration as nat),
        setting_value(var_lookup(vars, ENV_INTERVAL@), DEFAULT_INTERVAL as nat, u64::MAX as nat)
            == Some(config.interval as nat),
{
    if let Some(n) = env.size {
        crate::text::lemma_parse_decimal(n as nat, usize::MAX as nat);
    }
    if let Some(n) = env.socket_len {
        crate::text::lemma_parse_decimal(n as nat, usize::MAX as nat);
    }
    if let Some(n) = env.duration {
        crate::text::lemma_parse_decimal(n as nat, u64::MAX as nat);
    }
}

} // verus!
