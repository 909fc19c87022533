//! What the proxy is told to do.
use vstd::prelude::*;

verus! {

/// The whole configuration.
#[derive(Debug)]
pub struct Config {
    pub proxy: ProxyConfig,
    pub grafana: GrafanaConfig,
    /// The name and the template of each variable. No two have one name.
    pub variable_templates: Vec<(String, String)>,
}

/// Where the proxy listens, and where the PostgreSQL server is.
#[derive(Debug)]
pub struct ProxyConfig {
    pub listen_addr: String,
    pub server_addr: String,
}

/// Where Grafana is, and how to sign in there.
#[derive(Debug)]
pub struct GrafanaConfig {
    pub url: String,
    pub username: String,
    pub password: String,
}

/// A setting is empty and nothing stands in for it.
#[derive(Clone, Copy, Debug, PartialEq, Eq, Structural)]
pub struct NotSet;

/// Puts `fallback` in the place of an empty setting; a setting that is there stays.
pub fn fill_if_empty(value: &mut String, fallback: Option<String>) -> (res: Result<(), NotSet>)
    ensures
        res is Err <==> old(value)@.len() == 0 && fallback is None,
        final(value)@ == if old(value)@.len() == 0 && fallback is Some {
            fallback->0@
        } else {
            old(value)@
        },
{
    if value.as_str().is_empty() {
        match fallback {
            Some(fallback) => {
                *value = fallback;
            },
            None => {
                return Err(NotSet);
            },
        }
    }
    Ok(())
}

} // verus!
