use vstd::prelude::*;
use vstd::string::StringExecFns;
use crate::error::Error;
use crate::text::{chars_of, eq_str, parse_unsigned, spec_parse_unsigned};

verus! {

/// The environment variables of the process that hold text, in the order
/// the process lists them.
#[derive(Clone, Debug)]
pub struct EnvVars {
    pub entries: Vec<(String, String)>,
}

/// The value of the first variable named `name`, if any.
pub open spec fn spec_env_get(entries: Seq<(String, String)>, name: Seq<char>) -> Option<Seq<char>>
    decreases entries.len(),
{
    if entries.len() == 0 {
        None
    } else if entries[0].0@ == name {
        Some(entries[0].1@)
    } else {
        spec_env_get(entries.drop_first(), name)
    }
}

/// The value of variable `name`, or `default` when it is not set.
pub open spec fn spec_env_or(entries: Seq<(String, String)>, name: Seq<char>, default: Seq<char>) -> Seq<char> {
    match spec_env_get(entries, name) {
        Some(v) => v,
        None => default,
    }
}

/// A number read from variable `name` (default text `default`), or
/// `fallback` when the text is not a number.
pub open spec fn spec_env_number(entries: Seq<(String, String)>, name: Seq<char>, default: Seq<char>, fallback: u64) -> u64 {
    match spec_parse_unsigned(spec_env_or(entries, name, default), u64::MAX as int) {
        Some(v) => v as u64,
        None => fallback,
    }
}

impl EnvVars {
    /// The value of the variable named `name`, if it is set.
    pub fn get(&self, name: &str) -> (r: Option<String>)
        ensures
            match r {
                Some(v) => spec_env_get(self.entries@, name@) == Some(v@),
                None => spec_env_get(self.entries@, name@) is None,
            },
    {
        let mut i: usize = 0;
        assert(self.entries@.skip(0) =~= self.entries@);
        while i < self.entries.len()
            invariant
                i <= self.entries.len(),
                spec_env_get(self.entries@, name@) == spec_env_get(self.entries@.skip(i as int), name@),
            decreases self.entries.len() - i,
        {
            proof {
                assert(self.entries@.skip(i as int).drop_first() =~= self.entries@.skip(i + 1));
            }
            if eq_str(self.entries[i].0.as_str(), name) {
                return Some(self.entries[i].1.clone());
            }
            i = i + 1;
        }
        None
    }

    /// The value of variable `name`, or `default` when it is not set.
    pub fn get_or(&self, name: &str, default: &str) -> (r: String)
        ensures
            r@ == spec_env_or(self.entries@, name@, default@),
    {
        match self.get(name) {
            Some(v) => v,
            None => String::from_str(default),
        }
    }

    /// A number read from variable `name` (default text `default`), or
    /// `fallback` when the text is not a number.
    pub fn get_number(&self, name: &str, default: &str, fallback: u64) -> (r: u64)
        ensures
            r == spec_env_number(self.entries@, name@, default@, fallback),
    {
        let text = self.get_or(name, default);
        let cs = chars_of(text.as_str());
        assert(cs@.subrange(0, cs.len() as int) =~= cs@);
        assert(cs@ == spec_env_or(self.entries@, name@, default@));
        match parse_unsigned(&cs, 0, cs.len(), u64::MAX) {
            Some(v) => v,
            None => fallback,
        }
    }
}

/// How to reach the Aurora database.
#[derive(Debug, Clone)]
pub struct AuroraConfig {
    pub gcp_host: String,
    pub public_host: String,
    pub port: u16,
    pub user: String,
    pub password: String,
    pub database: String,
    pub connection_timeout: u64,
    pub retry_interval: u64,
}

/// How to reach the Brontes database.
#[derive(Debug, Clone)]
pub struct BrontesConfig {
    pub host: String,
    pub port: u16,
    pub user: String,
    pub password: String,
    pub connection_timeout: u64,
    pub retry_interval: u64,
}

/// How to reach a database.
#[derive(Debug, Clone)]
pub struct DatabaseConnectionConfig {
    pub host: String,
    pub port: u16,
    pub user: String,
    pub password: String,
    pub connection_timeout: u64,
    pub retry_interval: u64,
}

/// The configuration of both databases.
#[derive(Debug, Clone)]
pub struct DatabaseConfig {
    pub aurora: AuroraConfig,
    pub brontes: BrontesConfig,
}

/// Reads a port from variable `name` (default `5432`); `None` when its
/// text is not a port number.
fn port_from_env(env: &EnvVars, name: &str) -> (r: Option<u16>)
    ensures
        match spec_parse_unsigned(spec_env_or(env.entries@, name@, "5432"@), u16::MAX as int) {
            Some(v) => 0 <= v <= u16::MAX && r == Some(v as u16),
            None => r is None,
        },
{
    let text = env.get_or(name, "5432");
    let cs = chars_of(text.as_str());
    assert(cs@.subrange(0, cs.len() as int) =~= cs@);
    assert(cs@ == spec_env_or(env.entries@, name@, "5432"@));
    let parsed = parse_unsigned(&cs, 0, cs.len(), 65535);
    match parsed {
        Some(v) => {
            Some(v as u16)
        },
        None => None,
    }
}

/// Whether the Aurora settings other than the port are those of the
/// environment: each variable or its default (`30` seconds of timeout and
/// `5` of retry interval when the variable is absent or not a number).
pub open spec fn spec_aurora_settings(c: AuroraConfig, e: Seq<(String, String)>) -> bool {
    &&& c.gcp_host@ == spec_env_or(e, "AURORA_GCP_HOST"@, "dummy_gcp_host"@)
    &&& c.public_host@ == spec_env_or(e, "AURORA_PUBLIC_HOST"@, "dummy_public_host"@)
    &&& c.user@ == spec_env_or(e, "AURORA_USER"@, "dummy_user"@)
    &&& c.password@ == spec_env_or(e, "AURORA_PASSWORD"@, "dummy_password"@)
    &&& c.database@ == spec_env_or(e, "AURORA_DATABASE"@, "dummy_database"@)
    &&& c.connection_timeout == spec_env_number(e, "AURORA_TIMEOUT"@, "30"@, 30)
    &&& c.retry_interval == spec_env_number(e, "AURORA_RETRY_INTERVAL"@, "5"@, 5)
}

/// Whether the Brontes settings other than the port are those of the
/// environment: each variable or its default (`30` seconds of timeout and
/// `5` of retry interval when the variable is absent or not a number).
pub open spec fn spec_brontes_settings(c: BrontesConfig, e: Seq<(String, String)>) -> bool {
    &&& c.host@ == spec_env_or(e, "BRONTES_HOST"@, "dummy_host"@)
    &&& c.user@ == spec_env_or(e, "BRONTES_USER"@, "dummy_user"@)
    &&& c.password@ == spec_env_or(e, "BRONTES_PASSWORD"@, "dummy_password"@)
    &&& c.connection_timeout == spec_env_number(e, "BRONTES_TIMEOUT"@, "30"@, 30)
    &&& c.retry_interval == spec_env_number(e, "BRONTES_RETRY_INTERVAL"@, "5"@, 5)
}

impl AuroraConfig {
    /// The Aurora configuration from the environment: each variable or its
    /// default; an error when `AURORA_PORT` is not a port number; timeouts
    /// that are not numbers fall back to their defaults.
    pub fn from_env(env: &EnvVars) -> (r: Result<Self, Error>)
        ensures
            match spec_parse_unsigned(spec_env_or(env.entries@, "AURORA_PORT"@, "5432"@), u16::MAX as int) {
                None => r matches Err(Error::Config(m)) && m@ == "Invalid AURORA_PORT format"@,
                Some(port) => r matches Ok(c) && c.port == port && spec_aurora_settings(c, env.entries@),
            },
    {
        let gcp_host = env.get_or("AURORA_GCP_HOST", "dummy_gcp_host");
        let public_host = env.get_or("AURORA_PUBLIC_HOST", "dummy_public_host");
        let port = match port_from_env(env, "AURORA_PORT") {
            Some(p) => p,
            None => return Err(Error::Config(String::from_str("Invalid AURORA_PORT format"))),
        };
        let user = env.get_or("AURORA_USER", "dummy_user");
        let password = env.get_or("AURORA_PASSWORD", "dummy_password");
        let database = env.get_or("AURORA_DATABASE", "dummy_database");
        let connection_timeout = env.get_number("AURORA_TIMEOUT", "30", 30);
        let retry_interval = env.get_number("AURORA_RETRY_INTERVAL", "5", 5);
        Ok(AuroraConfig {
            gcp_host,
            public_host,
            port,
            user,
            password,
            database,
            connection_timeout,
            retry_interval,
        })
    }

    /// The host to connect to: the public host when `RUNNING_LOCALLY` is
    /// `true`, the GCP host otherwise.
    pub fn get_host_for_environment(&self, env: &EnvVars) -> (r: String)
        ensures
            r@ == (if spec_env_or(env.entries@, "RUNNING_LOCALLY"@, ""@) == "true"@ {
                self.public_host@
            } else {
                self.gcp_host@
            }),
    {
        let running_locally = env.get_or("RUNNING_LOCALLY", "");
        if eq_str(running_locally.as_str(), "true") {
            self.public_host.clone()
        } else {
            self.gcp_host.clone()
        }
    }
}

impl BrontesConfig {
    /// The Brontes configuration from the environment: each variable or its
    /// default; an error when `BRONTES_PORT` is not a port number; timeouts
    /// that are not numbers fall back to their defaults.
    pub fn from_env(env: &EnvVars) -> (r: Result<Self, Error>)
        ensures
            match spec_parse_unsigned(spec_env_or(env.entries@, "BRONTES_PORT"@, "5432"@), u16::MAX as int) {
                None => r matches Err(Error::Config(m)) && m@ == "Invalid BRONTES_PORT format"@,
                Some(port) => r matches Ok(c) && c.port == port && spec_brontes_settings(c, env.entries@),
            },
    {
        let host = env.get_or("BRONTES_HOST", "dummy_host");
        let port = match port_from_env(env, "BRONTES_PORT") {
            Some(p) => p,
            None => return Err(Error::Config(String::from_str("Invalid BRONTES_PORT format"))),
        };
        let user = env.get_or("BRONTES_USER", "dummy_user");
        let password = env.get_or("BRONTES_PASSWORD", "dummy_password");
        let connection_timeout = env.get_number("BRONTES_TIMEOUT", "30", 30);
        let retry_interval = env.get_number("BRONTES_RETRY_INTERVAL", "5", 5);
        Ok(BrontesConfig { host, port, user, password, connection_timeout, retry_interval })
    }
}

impl DatabaseConfig {
    /// Both configurations from the environment; the Aurora error comes
    /// first.
    pub fn new(env: &EnvVars) -> (r: Result<Self, Error>)
        ensures
            match (
                spec_parse_unsigned(spec_env_or(env.entries@, "AURORA_PORT"@, "5432"@), u16::MAX as int),
                spec_parse_unsigned(spec_env_or(env.entries@, "BRONTES_PORT"@, "5432"@), u16::MAX as int),
            ) {
                (None, _) => r matches Err(Error::Config(m)) && m@ == "Invalid AURORA_PORT format"@,
                (Some(_), None) => r matches Err(Error::Config(m)) && m@ == "Invalid BRONTES_PORT format"@,
                (Some(a), Some(b)) => r matches Ok(c) && {
                    &&& c.aurora.port == a
                    &&& spec_aurora_settings(c.aurora, env.entries@)
                    &&& c.brontes.port == b
                    &&& spec_brontes_settings(c.brontes, env.entries@)
                },
            },
    {
        let aurora = AuroraConfig::from_env(env)?;
        let brontes = BrontesConfig::from_env(env)?;
        Ok(DatabaseConfig { aurora, brontes })
    }
}

} // verus!
