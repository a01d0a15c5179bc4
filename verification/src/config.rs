//! The settings, out of the values of the environment variables.

use vstd::prelude::*;

use crate::cache;
use crate::text;

verus! {

/// The shortest poll interval, in milliseconds.
pub const MIN_POLL_MS: u64 = 50;

/// The values of the environment variables that are set.
#[derive(Debug)]
pub struct Vars {
    /// `HOST`
    pub host: Option<String>,
    /// `PORT`
    pub port: Option<String>,
    /// `NCM_DEVTOOLS_PORT`
    pub devtools_port: Option<String>,
    /// `NCM_POLL_MS`
    pub poll_ms: Option<String>,
    /// `NCM_CACHE_DIR`
    pub cache_dir: Option<String>,
    /// `HOME`
    pub home: Option<String>,
}

/// The settings of the service.
#[derive(Debug)]
pub struct Config {
    /// The address to listen on.
    pub bind: String,
    /// The debugging port of the client.
    pub devtools_port: u16,
    /// The poll interval in milliseconds.
    pub poll_ms: u64,
    /// The directory of the lyric cache.
    pub cache_dir: String,
}

/// The view of a [`Config`].
#[verifier::ext_equal]
pub struct ConfigView {
    pub bind: Seq<char>,
    pub devtools_port: u16,
    pub poll_ms: u64,
    pub cache_dir: Seq<char>,
}

impl View for Config {
    type V = ConfigView;

    open spec fn view(&self) -> ConfigView {
        ConfigView {
            bind: self.bind@,
            devtools_port: self.devtools_port,
            poll_ms: self.poll_ms,
            cache_dir: self.cache_dir@,
        }
    }
}

/// Why there are no settings.
#[derive(Debug, Clone, Copy, PartialEq, Eq, Structural)]
pub enum ConfigError {
    /// `NCM_DEVTOOLS_PORT` is not a port.
    DevtoolsPort,
    /// `NCM_POLL_MS` is not a number.
    PollMs,
    /// Neither `NCM_CACHE_DIR` nor `HOME` is set.
    Home,
}

/// The text of an error.
pub open spec fn error_text(e: ConfigError) -> Seq<char> {
    match e {
        ConfigError::DevtoolsPort => "NCM_DEVTOOLS_PORT is not a valid port"@,
        ConfigError::PollMs => "NCM_POLL_MS is not a valid number"@,
        ConfigError::Home => "cannot read HOME"@,
    }
}

impl ConfigError {
    /// What went wrong, in words.
    pub fn message(&self) -> (r: String)
        ensures
            r@ == error_text(*self),
    {
        match self {
            ConfigError::DevtoolsPort => "NCM_DEVTOOLS_PORT is not a valid port".to_owned(),
            ConfigError::PollMs => "NCM_POLL_MS is not a valid number".to_owned(),
            ConfigError::Home => "cannot read HOME".to_owned(),
        }
    }
}

/// The value of a variable, or its default.
pub open spec fn value_or(value: Option<String>, default: Seq<char>) -> Seq<char> {
    match value {
        Some(v) => v@,
        None => default,
    }
}

/// The value of a variable, or its default.
fn or_default(value: &Option<String>, default: &str) -> (r: String)
    ensures
        r@ == value_or(*value, default@),
{
    match value {
        Some(v) => v.clone(),
        None => default.to_owned(),
    }
}

/// The directory of the cache: `NCM_CACHE_DIR`, or a directory below `HOME`.
pub open spec fn cache_dir_of(vars: Vars) -> Option<Seq<char>> {
    match (vars.cache_dir, vars.home) {
        (Some(dir), _) => Some(dir@),
        (None, Some(home)) => Some(
            cache::joined_path(home@, "Library/Caches/ncm-nowplaying/lyrics"@),
        ),
        (None, None) => None,
    }
}

/// The settings that the variables come to. A poll interval below the shortest
/// one is raised to it.
pub open spec fn config_of(vars: Vars) -> Result<ConfigView, ConfigError> {
    match (
        text::number_in(value_or(vars.devtools_port, "9222"@), u16::MAX as u64),
        text::number_in(value_or(vars.poll_ms, "250"@), u64::MAX),
        cache_dir_of(vars),
    ) {
        (None, _, _) => Err(ConfigError::DevtoolsPort),
        (_, None, _) => Err(ConfigError::PollMs),
        (_, _, None) => Err(ConfigError::Home),
        (Some(port), Some(poll), Some(dir)) => Ok(
            ConfigView {
                bind: value_or(vars.host, "127.0.0.1"@).push(':') + value_or(vars.port, "3574"@),
                devtools_port: port as u16,
                poll_ms: if poll < MIN_POLL_MS {
                    MIN_POLL_MS
                } else {
                    poll
                },
                cache_dir: dir,
            },
        ),
    }
}

impl Config {
    /// The settings that the variables come to.
    pub fn from_vars(vars: &Vars) -> (r: Result<Config, ConfigError>)
        ensures
            match r {
                Ok(c) => config_of(*vars) == Ok::<ConfigView, ConfigError>(c@),
                Err(e) => config_of(*vars) == Err::<ConfigView, ConfigError>(e),
            },
    {
        let mut bind: String = or_default(&vars.host, "127.0.0.1");
        bind.push(':');
        bind.append(or_default(&vars.port, "3574").as_str());
        let port: Vec<char> = text::chars_of(or_default(&vars.devtools_port, "9222").as_str());
        let devtools_port: u16 = match text::read_number(port.as_slice(), u16::MAX as u64) {
            Some(n) => n as u16,
            None => {
                return Err(ConfigError::DevtoolsPort);
            },
        };
        let poll: Vec<char> = text::chars_of(or_default(&vars.poll_ms, "250").as_str());
        let poll_ms: u64 = match text::read_number(poll.as_slice(), u64::MAX) {
            Some(n) => if n < MIN_POLL_MS {
                MIN_POLL_MS
            } else {
                n
            },
            None => {
                return Err(ConfigError::PollMs);
            },
        };
        let cache_dir: String = match &vars.cache_dir {
            Some(dir) => dir.clone(),
            None => match &vars.home {
                Some(home) => cache::join_path(
                    home.as_str(),
                    "Library/Caches/ncm-nowplaying/lyrics",
                ),
                None => {
                    return Err(ConfigError::Home);
                },
            },
        };
        Ok(Config { bind, devtools_port, poll_ms, cache_dir })
    }
}

/// The settings if nothing is set but `HOME`.
pub proof fn law_defaults(vars: Vars)
    requires
        vars.host is None,
        vars.port is None,
        vars.devtools_port is None,
        vars.poll_ms is None,
        vars.cache_dir is None,
        vars.home is Some,
    ensures
        config_of(vars) == Ok::<ConfigView, ConfigError>(
            ConfigView {
                bind: "127.0.0.1:3574"@,
                devtools_port: 9222,
                poll_ms: 250,
                cache_dir: cache::joined_path(
                    vars.home->0@,
                    "Library/Caches/ncm-nowplaying/lyrics"@,
                ),
            },
        ),
{
    reveal_strlit("9222");
    reveal_strlit("250");
    reveal_strlit("127.0.0.1");
    reveal_strlit("3574");
    reveal_strlit("127.0.0.1:3574");
    reveal_with_fuel(text::decimal, 5);
    assert("9222"@ == text::decimal(9222));
    assert("250"@ == text::decimal(250));
    text::law_number_reads_back(9222, u16::MAX as u64);
    text::law_number_reads_back(250, u64::MAX);
    assert("127.0.0.1"@.push(':') + "3574"@ == "127.0.0.1:3574"@);
}

/// The client is never polled more often than at the shortest interval.
pub proof fn law_poll_interval_has_a_floor(vars: Vars)
    ensures
        config_of(vars) matches Ok(c) ==> c.poll_ms >= MIN_POLL_MS,
{
}

/// The settings are those that the variables hold, each with its default; the
/// poll interval is raised to fifty milliseconds if it is shorter. There are no
/// settings exactly if the debugging port or the poll interval is no number in
/// its range, or there is no directory for the cache; the first of these that
/// applies is told.
pub proof fn law_settings_are_those_of_the_variables(vars: Vars)
    ensures
        ({
            let port = text::number_in(
                match vars.devtools_port {
                    Some(v) => v@,
                    None => "9222"@,
                },
                65535,
            );
            let poll = text::number_in(
                match vars.poll_ms {
                    Some(v) => v@,
                    None => "250"@,
                },
                u64::MAX,
            );
            let placed = vars.cache_dir is Some || vars.home is Some;
            match config_of(vars) {
                Err(ConfigError::DevtoolsPort) => port is None,
                Err(ConfigError::PollMs) => port is Some && poll is None,
                Err(ConfigError::Home) => port is Some && poll is Some && !placed,
                Ok(c) => {
                    &&& port matches Some(n) && c.devtools_port == n
                    &&& poll matches Some(n) && {
                        &&& c.poll_ms >= 50 && c.poll_ms >= n
                        &&& c.poll_ms == 50 || c.poll_ms == n
                    }
                    &&& placed
                    &&& vars.cache_dir matches Some(dir) ==> c.cache_dir == dir@
                    &&& vars.cache_dir is None ==> c.cache_dir == cache::joined_path(
                        vars.home->0@,
                        "Library/Caches/ncm-nowplaying/lyrics"@,
                    )
                },
            }
        }),
        config_of(vars) matches Ok(c) ==> {
            let host = match vars.host {
                Some(v) => v@,
                None => "127.0.0.1"@,
            };
            let port = match vars.port {
                Some(v) => v@,
                None => "3574"@,
            };
            c.bind == host + seq![':'] + port
        },
{
}

} // verus!
