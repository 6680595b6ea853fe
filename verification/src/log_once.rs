//! Log levels for call sites that are loud only once.
//!
//! A site logs its first message at one level and every later message at another, usually a
//! quieter one. The site itself keeps the one bit of state; writing the message is left to
//! the caller.

use vstd::prelude::*;

verus! {

/// The level of a log message, from the most to the least severe.
#[derive(Copy, Clone, Debug, PartialEq, Eq, Hash, Structural)]
pub enum Level {
    Error,
    Warn,
    Info,
    Debug,
    Trace,
}

/// The state of one call site: whether it has logged before.
#[derive(Debug)]
pub struct LogOnce {
    logged: bool,
}

/// What a site does when it meets a condition that should not occur.
#[derive(Copy, Clone, Debug, PartialEq, Eq, Structural)]
pub struct DebugPanic {
    /// The level at which the condition is logged.
    pub level: Level,
    /// The program is to stop after logging.
    pub abort: bool,
}

impl LogOnce {
    /// The site has logged before.
    pub closed spec fn has_logged(&self) -> bool {
        self.logged
    }

    /// The level that a message of this site gets: `once` for the first, `remaining` for
    /// the others, and none while neither level is enabled.
    pub open spec fn level_for(
        &self,
        once: Level,
        remaining: Level,
        once_enabled: bool,
        remaining_enabled: bool,
    ) -> Option<Level> {
        if !once_enabled && !remaining_enabled {
            None
        } else if self.has_logged() {
            Some(remaining)
        } else {
            Some(once)
        }
    }

    /// A site that has not logged yet.
    pub fn new() -> (r: LogOnce)
        ensures
            !r.has_logged(),
    {
        LogOnce { logged: false }
    }

    /// Picks the level for the next message of this site and remembers that the site has
    /// logged. While neither level is enabled nothing is logged and nothing is remembered.
    pub fn log_once_at_level(
        &mut self,
        once: Level,
        remaining: Level,
        once_enabled: bool,
        remaining_enabled: bool,
    ) -> (r: Option<Level>)
        ensures
            r == old(self).level_for(once, remaining, once_enabled, remaining_enabled),
            final(self).has_logged() == (old(self).has_logged() || r is Some),
    {
        if !once_enabled && !remaining_enabled {
            None
        } else if self.logged {
            Some(remaining)
        } else {
            self.logged = true;
            Some(once)
        }
    }

    /// The level for a site that warns once and then logs at debug level. Both levels count
    /// as enabled.
    pub fn warn_once_then_debug(&mut self) -> (r: Level)
        ensures
            r == (if old(self).has_logged() {
                Level::Debug
            } else {
                Level::Warn
            }),
            final(self).has_logged(),
    {
        match self.log_once_at_level(Level::Warn, Level::Debug, true, true) {
            Some(l) => l,
            None => Level::Warn,
        }
    }

    /// The level for a site that warns once and then logs at trace level. Both levels count
    /// as enabled.
    pub fn warn_once_then_trace(&mut self) -> (r: Level)
        ensures
            r == (if old(self).has_logged() {
                Level::Trace
            } else {
                Level::Warn
            }),
            final(self).has_logged(),
    {
        match self.log_once_at_level(Level::Warn, Level::Trace, true, true) {
            Some(l) => l,
            None => Level::Warn,
        }
    }
}

/// A condition that should not occur is logged as a warning, and stops the program in a
/// debug build only.
pub fn debug_panic(debug_build: bool) -> (r: DebugPanic)
    ensures
        r == (DebugPanic { level: Level::Warn, abort: debug_build }),
{
    DebugPanic { level: Level::Warn, abort: debug_build }
}

} // verus!
