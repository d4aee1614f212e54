use vstd::prelude::*;

use crate::acl::{AclConfig, AclService};

verus! {

/// The `[acl]` section of the configuration file.
pub struct AclSettings {
    /// Whether the broker authenticates clients and checks topics against the rules.
    pub enabled: bool,
    /// Whether a topic must be registered before any rule is consulted.
    pub enforce_registered_topics: bool,
    /// How often the ACL cache is reloaded, in seconds.
    pub cache_refresh_secs: u64,
}

impl Default for AclSettings {
    /// The settings when the section is missing altogether: everything off.
    fn default() -> (s: Self)
        ensures
            !s.enabled,
            !s.enforce_registered_topics,
            s.cache_refresh_secs == 0,
    {
        AclSettings { enabled: false, enforce_registered_topics: false, cache_refresh_secs: 0 }
    }
}

/// The size of the database connection pool when the configuration names none.
pub fn default_db_max_connections() -> (n: u32)
    ensures
        n == 5,
{
    5
}

/// A switch of the `[acl]` section that the configuration leaves out is on.
pub fn default_true() -> (b: bool)
    ensures
        b,
{
    true
}

/// The reload period of the ACL cache when the configuration names none, in seconds.
pub fn default_cache_refresh() -> (n: u64)
    ensures
        n == 10,
{
    10
}

impl AclService {
    /// A service configured from the `[acl]` section, with nothing cached yet.
    pub fn from_settings(settings: &AclSettings) -> (s: AclService)
        ensures
            s.settings().enforce_registered_topics == settings.enforce_registered_topics,
            s.settings().cache_refresh_secs == settings.cache_refresh_secs,
            s.users().len() == 0,
            s.topics().len() == 0,
            s.rules().len() == 0,
    {
        AclService::new(AclConfig {
            enforce_registered_topics: settings.enforce_registered_topics,
            cache_refresh_secs: settings.cache_refresh_secs,
        })
    }
}

} // verus!
