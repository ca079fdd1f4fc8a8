//! When to load data anew.
use vstd::prelude::*;
use vstd::string::*;

use crate::clock::FileTime;
use crate::error::{AppError, AppResult, Fault};
use crate::storage::ColumnStore;

verus! {

/// Seconds between two looks at files that are being written.
pub const SETTLE_SECS: u64 = 60;

/// When the config file and the data file were last modified; nothing if a file
/// is missing.
#[derive(Debug, Clone, Copy, PartialEq, Eq, Structural)]
pub struct Stamp {
    pub config: Option<FileTime>,
    pub data: Option<FileTime>,
}

/// What to do next.
#[derive(Debug, Clone, Copy, PartialEq, Eq, Structural)]
pub enum Step {
    /// Wait some seconds, look at the files, and report what is seen.
    Sleep(u64),
    /// Read the configuration and the data anew, and report how it went.
    ReloadConfig,
    /// Read the data anew, and report how it went.
    ReloadData,
}

/// Decides when to reload. Looks at the files in an interval; once one of them has
/// changed, waits until two looks in a row, a minute apart, see the same.
#[derive(Debug, Clone, Copy)]
pub struct Watcher {
    interval_secs: u64,
    loaded: Stamp,
    pending: Option<Stamp>,
}

/// Where a watcher stands.
#[verifier::ext_equal]
pub struct Watch {
    /// Seconds between two looks.
    pub interval: nat,
    /// The files as they were loaded.
    pub loaded: Stamp,
    /// The files as they were seen last, if they have changed since.
    pub pending: Option<Stamp>,
}

impl Watch {
    /// What a look at the files leads to.
    pub open spec fn observed(self, seen: Stamp) -> (Watch, Step) {
        if seen == self.loaded || (seen.config is None && seen.config != self.loaded.config) {
            (Watch { pending: None, ..self }, Step::Sleep(self.interval as u64))
        } else if self.pending != Some(seen) {
            (Watch { pending: Some(seen), ..self }, Step::Sleep(SETTLE_SECS))
        } else if seen.config != self.loaded.config {
            (self, Step::ReloadConfig)
        } else {
            (self, Step::ReloadData)
        }
    }

    /// What the outcome of a reload leads to. `loaded` are the files as they are
    /// loaded now; nothing if the reload failed: then the files count as they were
    /// loaded before, and the next look sees the change again.
    pub open spec fn reloaded(self, loaded: Option<Stamp>) -> (Watch, Step) {
        (
            Watch {
                loaded: match loaded {
                    Some(s) => s,
                    None => self.loaded,
                },
                pending: None,
                ..self
            },
            Step::Sleep(self.interval as u64),
        )
    }
}

fn same_time(a: &Option<FileTime>, b: &Option<FileTime>) -> (r: bool)
    ensures
        r == (*a == *b),
{
    match (a, b) {
        (Some(x), Some(y)) => *x == *y,
        (None, None) => true,
        _ => false,
    }
}

fn same_stamp(a: &Stamp, b: &Stamp) -> (r: bool)
    ensures
        r == (*a == *b),
{
    same_time(&a.config, &b.config) && same_time(&a.data, &b.data)
}

impl Watcher {
    pub closed spec fn view(&self) -> Watch {
        Watch {
            interval: self.interval_secs as nat,
            loaded: self.loaded,
            pending: self.pending,
        }
    }

    /// A watcher over files as they were loaded, unless reloading is disabled: an
    /// interval of zero minutes disables it.
    pub fn start(reload_interval_mins: u32, loaded: Stamp) -> (r: Option<Watcher>)
        ensures
            if reload_interval_mins == 0 {
                r is None
            } else {
                r matches Some(w) && w@ == (Watch {
                    interval: (60 * reload_interval_mins) as nat,
                    loaded,
                    pending: None,
                })
            },
    {
        if reload_interval_mins == 0 {
            None
        } else {
            Some(
                Watcher { interval_secs: reload_interval_mins as u64 * 60, loaded, pending: None },
            )
        }
    }

    /// What to do first.
    pub fn first(&self) -> (r: Step)
        ensures
            r == Step::Sleep(self@.interval as u64),
    {
        Step::Sleep(self.interval_secs)
    }

    /// Takes note of what a look at the files saw, and says what to do.
    pub fn observe(&mut self, seen: Stamp) -> (r: Step)
        ensures
            (final(self)@, r) == old(self)@.observed(seen),
    {
        let gone: bool = seen.config.is_none() && self.loaded.config.is_some();
        if same_stamp(&seen, &self.loaded) || gone {
            self.pending = None;
            return Step::Sleep(self.interval_secs);
        }
        let settled: bool = match &self.pending {
            Some(p) => same_stamp(p, &seen),
            None => false,
        };
        if !settled {
            self.pending = Some(seen);
            return Step::Sleep(SETTLE_SECS);
        }
        if !same_time(&seen.config, &self.loaded.config) {
            Step::ReloadConfig
        } else {
            Step::ReloadData
        }
    }

    /// Takes note of how a reload went, and says what to do. `loaded` are the files
    /// as they are loaded now; nothing if the reload failed.
    pub fn report(&mut self, loaded: Option<Stamp>) -> (r: Step)
        ensures
            (final(self)@, r) == old(self)@.reloaded(loaded),
    {
        if let Some(s) = loaded {
            self.loaded = s;
        }
        self.pending = None;
        Step::Sleep(self.interval_secs)
    }
}

/// The first load has to produce data: that there is none is an error there.
pub fn require_store(result: AppResult<Option<ColumnStore>>) -> (r: AppResult<ColumnStore>)
    ensures
        match result {
            Ok(Some(s)) => r matches Ok(x) && x == s,
            Ok(None) => r matches Err(e) && e@ == Fault::Ingestion(
                "initial ingestion produced no data"@,
            ),
            Err(f) => r matches Err(e) && e == f,
        },
{
    match result {
        Ok(Some(s)) => Ok(s),
        Ok(None) => Err(AppError::Ingestion("initial ingestion produced no data".to_owned())),
        Err(e) => Err(e),
    }
}

/// A reload comes only after two looks in a row saw the same files, and those
/// differ from what was loaded.
pub proof fn law_reload_only_once_writes_have_stopped(w: Watch, seen: Stamp)
    requires
        w.observed(seen).1 != Step::Sleep(w.interval as u64),
        w.observed(seen).1 != Step::Sleep(SETTLE_SECS),
    ensures
        w.pending == Some(seen),
        seen != w.loaded,
{
}

/// Files that changed and are left alone are loaded, once: the first look waits a
/// minute, the second asks for a reload, of the configuration if it is the config
/// file that changed, and later looks ask for nothing.
pub proof fn law_settled_change_is_loaded(w: Watch, seen: Stamp)
    requires
        w.pending is None,
        seen != w.loaded,
        seen.config is Some,
    ensures
        ({
            let (next, step) = w.observed(seen);
            &&& step == Step::Sleep(SETTLE_SECS)
            &&& next.observed(seen).1 == if seen.config != w.loaded.config {
                Step::ReloadConfig
            } else {
                Step::ReloadData
            }
            &&& next.observed(seen).0.reloaded(Some(seen)).0.observed(seen).1 == Step::Sleep(
                w.interval as u64,
            )
        }),
{
}

/// A reload that fails leaves everything as it was, so that the change is seen
/// again.
pub proof fn law_failed_reload_is_tried_again(w: Watch, seen: Stamp)
    requires
        w.pending == Some(seen),
        seen != w.loaded,
        seen.config is Some,
    ensures
        ({
            let after = w.observed(seen).0.reloaded(None).0;
            &&& after.loaded == w.loaded
            &&& after.observed(seen).1 == Step::Sleep(SETTLE_SECS)
            &&& after.observed(seen).0 == w
        }),
{
}

/// Files that are as they were loaded are left alone until the next look, and a look
/// that sees no config file changes nothing either.
pub proof fn law_unchanged_files_are_left_alone(w: Watch, seen: Stamp)
    requires
        seen == w.loaded || (seen.config is None && w.loaded.config is Some),
    ensures
        w.observed(seen).1 == Step::Sleep(w.interval as u64),
        w.observed(seen).0.loaded == w.loaded,
        w.observed(seen).0.interval == w.interval,
        w.observed(seen).0.pending is None,
{
}

/// Files that change again while they are waited for are waited for anew: another
/// minute, from what was seen last.
pub proof fn law_files_still_written_are_waited_for(w: Watch, seen: Stamp)
    requires
        seen != w.loaded,
        seen.config is Some,
        w.pending != Some(seen),
    ensures
        w.observed(seen).1 == Step::Sleep(60),
        w.observed(seen).0.pending == Some(seen),
        w.observed(seen).0.loaded == w.loaded,
        w.observed(seen).0.interval == w.interval,
{
}

/// Once two looks in a row saw the same changed files, they are loaded: both files
/// if the config file changed, else the data alone.
pub proof fn law_settled_files_are_loaded(w: Watch, seen: Stamp)
    requires
        seen != w.loaded,
        seen.config is Some,
        w.pending == Some(seen),
    ensures
        seen.config != w.loaded.config ==> w.observed(seen).1 == Step::ReloadConfig,
        seen.config == w.loaded.config ==> w.observed(seen).1 == Step::ReloadData,
        w.observed(seen).0.loaded == w.loaded,
        w.observed(seen).0.interval == w.interval,
{
}

/// After a reload the next look comes after the interval; what counts as loaded is
/// what was loaded, or what was before if the reload failed.
pub proof fn law_outcome_of_a_reload(w: Watch, loaded: Option<Stamp>)
    ensures
        w.reloaded(loaded).1 == Step::Sleep(w.interval as u64),
        w.reloaded(loaded).0.interval == w.interval,
        w.reloaded(loaded).0.pending is None,
        loaded matches Some(s) ==> w.reloaded(loaded).0.loaded == s,
        loaded is None ==> w.reloaded(loaded).0.loaded == w.loaded,
{
}

/// Reloading is disabled exactly by an interval of zero minutes; otherwise the files
/// are looked at for the first time once the interval has passed, and every interval
/// as long as they do not change.
pub proof fn law_first_look(mins: u32, loaded: Stamp, r: Option<Watcher>, step: Step)
    requires
        call_ensures(Watcher::start, (mins, loaded), r),
        r matches Some(w) ==> call_ensures(Watcher::first, (&w,), step),
    ensures
        r is None <==> mins == 0,
        r matches Some(w) ==> step == Step::Sleep((mins * 60) as u64) && w@.observed(loaded).1
            == Step::Sleep((mins * 60) as u64) && w@.loaded == loaded,
{
}

} // verus!
