//! Refreshing roots: which links are touched.

use crate::command::TouchOptions;
use crate::config::TouchConfig;
use crate::utils::{in_store, validate_store_path};
use vstd::prelude::*;

verus! {

/// What the command that refreshes roots works with.
#[derive(Debug)]
pub struct TouchContext {
    /// What the command line asked for.
    pub options: TouchOptions,
    /// The settings of the command.
    pub config: TouchConfig,
}

/// What was observed of one path under the path to touch.
#[derive(Debug)]
pub struct TouchProbe {
    /// Whether the path is a symbolic link; `None` where its metadata could
    /// not be read.
    pub is_symlink: Option<bool>,
    /// Canonical form of the path; `None` where it has none.
    pub canonical: Option<String>,
}

/// What is done about one path.
#[derive(Clone, Copy, Debug, PartialEq, Eq, Structural)]
pub enum Touch {
    /// Nothing.
    Skip,
    /// The link is touched: the operator is told where `announce` holds, and
    /// the time of the link is set where `apply` holds.
    Touch { announce: bool, apply: bool },
}

/// How the tree under the path to touch is walked.
#[derive(Clone, Copy, Debug, PartialEq, Eq, Structural)]
pub struct Walk {
    /// Whether links are followed.
    pub follow_links: bool,
    /// Whether hidden and ignored files are left out.
    pub standard_filters: bool,
    /// How deep the walk goes; `None` for no limit.
    pub max_depth: Option<usize>,
}

impl TouchContext {
    /// What the command works with.
    pub fn new(options: TouchOptions, config: TouchConfig) -> (context: TouchContext)
        ensures
            context.options == options,
            context.config == config,
    {
        TouchContext { options, config }
    }

    /// How the tree is walked: every file counts, no link is followed, and
    /// the walk stays at the path itself and what lies directly in it where
    /// the options forbid to go deeper.
    pub fn walk(&self) -> (walk: Walk)
        ensures
            walk == (Walk {
                follow_links: false,
                standard_filters: false,
                max_depth: if self.options.no_recursive {
                    Some(1usize)
                } else {
                    None
                },
            }),
    {
        Walk {
            follow_links: false,
            standard_filters: false,
            max_depth: if self.options.no_recursive {
                Some(1)
            } else {
                None
            },
        }
    }

    /// What is done about a path: a symbolic link that leads into the store
    /// is touched, and nothing else is.
    pub open spec fn spec_touch_path(&self, probe: TouchProbe) -> Touch {
        if probe.is_symlink == Some(true) && in_store(self.config.store@, probe.canonical) {
            Touch::Touch { announce: !self.options.silent, apply: !self.options.dry_run }
        } else {
            Touch::Skip
        }
    }

    /// Decides what is done about a path from what was observed of it.
    pub fn touch_path(&self, probe: TouchProbe) -> (r: Touch)
        ensures
            r == self.spec_touch_path(probe),
    {
        match probe.is_symlink {
            Some(true) => {
                match validate_store_path(self.config.store.as_str(), probe.canonical) {
                    Some(_) => Touch::Touch {
                        announce: !self.options.silent,
                        apply: !self.options.dry_run,
                    },
                    None => Touch::Skip,
                }
            },
            _ => Touch::Skip,
        }
    }
}

} // verus!
