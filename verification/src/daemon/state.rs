//! The state that the daemon runs in.

use vstd::prelude::*;
use vstd::string::*;

use crate::config::Config;
use crate::daemon::errors::{DaemonError, DaemonErrorView, DaemonResult};
use crate::text::cat2;

verus! {

/// Why the daemon could not establish its full operating state.
#[derive(Debug)]
pub enum DegradedReason {
    /// The configuration could not be loaded.
    ConfigLoad(String),
    /// The top-level subvolume could not be mounted.
    Mount(String),
}

/// The text of a reason.
pub open spec fn degraded_text(r: DegradedReason) -> Seq<char> {
    match r {
        DegradedReason::ConfigLoad(m) => "config file could not be loaded: "@ + m@,
        DegradedReason::Mount(m) => "toplevel mount failed: "@ + m@,
    }
}

impl DegradedReason {
    /// The text of the reason.
    pub fn to_text(&self) -> (r: String)
        ensures
            r@ == degraded_text(*self),
    {
        match self {
            DegradedReason::ConfigLoad(m) => cat2("config file could not be loaded: ", m.as_str()),
            DegradedReason::Mount(m) => cat2("toplevel mount failed: ", m.as_str()),
        }
    }
}

/// What the daemon holds: the configuration, where the top-level subvolume is
/// mounted, and why one of them is missing.
#[derive(Debug)]
pub struct DaemonState {
    pub config: Option<Config>,
    pub toplevel: Option<String>,
    pub degraded: Option<DegradedReason>,
}

/// The answer where the filesystem cannot be served.
pub open spec fn unavailable(s: DaemonState) -> DaemonErrorView {
    DaemonErrorView::BackendUnavailable(
        "backend unavailable: "@ + match s.degraded {
            Some(r) => degraded_text(r),
            None => "unknown"@,
        },
    )
}

impl DaemonState {
    /// The state after the configuration was loaded, or failed to load with a
    /// message, and the top-level subvolume was mounted, or failed to be. It is
    /// mounted only with a configuration.
    pub fn initialize(
        config: core::result::Result<Config, String>,
        mounted: core::result::Result<String, String>,
    ) -> (r: Self)
        ensures
            match config {
                Ok(c) => {
                    &&& r.config == Some(c)
                    &&& match mounted {
                        Ok(p) => r.toplevel == Some(p) && r.degraded is None,
                        Err(m) => r.toplevel is None && r.degraded == Some(
                            DegradedReason::Mount(m),
                        ),
                    }
                },
                Err(m) => r.config is None && r.toplevel is None && r.degraded == Some(
                    DegradedReason::ConfigLoad(m),
                ),
            },
    {
        match config {
            Ok(c) => match mounted {
                Ok(p) => DaemonState { config: Some(c), toplevel: Some(p), degraded: None },
                Err(m) => DaemonState {
                    config: Some(c),
                    toplevel: None,
                    degraded: Some(DegradedReason::Mount(m)),
                },
            },
            Err(m) => DaemonState {
                config: None,
                toplevel: None,
                degraded: Some(DegradedReason::ConfigLoad(m)),
            },
        }
    }

    /// Where the top-level subvolume is mounted, once both it and the
    /// configuration are there.
    pub fn ready(&self) -> (r: DaemonResult<(&Config, &String)>)
        ensures
            match r {
                Ok(p) => self.config == Some(*p.0) && self.toplevel == Some(*p.1),
                Err(e) => (self.config is None || self.toplevel is None) && e@ == unavailable(
                    *self,
                ),
            },
    {
        match (&self.config, &self.toplevel) {
            (Some(c), Some(p)) => Ok((c, p)),
            _ => Err(self.backend_unavailable()),
        }
    }

    /// The answer where the filesystem cannot be served.
    pub fn backend_unavailable(&self) -> (r: DaemonError)
        ensures
            r@ == unavailable(*self),
    {
        let why: String = match &self.degraded {
            Some(r) => r.to_text(),
            None => "unknown".to_owned(),
        };
        DaemonError::BackendUnavailable(cat2("backend unavailable: ", why.as_str()))
    }

    /// Replace the configuration by one that was loaded anew.
    pub fn reload_config(&mut self, config: Config)
        ensures
            final(self).config == Some(config),
            final(self).toplevel == old(self).toplevel,
            final(self).degraded == old(self).degraded,
    {
        self.config = Some(config);
    }

    /// The name of the backend.
    pub fn backend_name(&self) -> (r: &'static str)
        ensures
            r@ == "btrfs"@,
    {
        "btrfs"
    }
}

} // verus!
