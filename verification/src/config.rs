//! The settings of a scan, and what stands in for those that were not
//! given.

use vstd::prelude::*;
use crate::entry::AgeFilter;
use crate::filter::Filters;
use crate::path::{clean_dir, trimmed};

verus! {

/// The settings of a scan.
#[derive(Debug)]
pub struct ParLsCfg {
    /// The directory to scan.
    pub dir: Vec<u8>,
    /// Whether the usage report is made.
    pub usage_mode: bool,
    /// Whether the entries are listed.
    pub list_files: bool,
    /// The capacity of every ranking.
    pub limit: usize,
    /// The delimiter of the fields of a listed entry.
    pub delimiter: char,
    /// Number of worker threads; 0 stands for as many as there are
    /// processors, and at least 4.
    pub no_threads: usize,
    /// Only entries modified after this instant count.
    pub file_newer_than: Option<i128>,
    /// Only entries modified before this instant count.
    pub file_older_than: Option<i128>,
    /// Only files whose path matches this pattern pass.
    pub re: Option<String>,
    /// No file whose path matches this pattern passes.
    pub exclude_re: Option<String>,
    pub verbose: usize,
    /// Milliseconds between two lines of progress.
    pub ticker_interval: u64,
    pub progress: bool,
    pub t_status_interval: bool,
    pub t_status_on_key: bool,
    pub write_thread_cpu_time: bool,
    /// Whether the threads keep their status up to date.
    pub update_status: bool,
    pub long_help: bool,
}

/// Why the settings cannot be used.
#[derive(Debug, Clone, Copy, PartialEq, Eq, Structural)]
pub enum ConfigError {
    /// Neither the usage report nor the list of entries is asked for.
    NoMode,
}

/// What a scan announces before it starts.
#[derive(Debug, Clone, Copy, PartialEq, Eq, Structural)]
pub enum Banner {
    /// The entries are listed and the usage report is made.
    ListAndUsage,
    /// The usage report is made.
    Usage,
    /// The entries are listed.
    List,
}

/// Number of worker threads for the setting `asked` on a machine with
/// `cpus` processors.
pub open spec fn threads_for(asked: usize, cpus: usize) -> usize {
    if asked != 0 {
        asked
    } else if cpus > 4 {
        cpus
    } else {
        4
    }
}

/// Whether `after` is `before` with its defaults filled in, on a machine
/// with `cpus` processors.
pub open spec fn is_settled(after: &ParLsCfg, before: &ParLsCfg, cpus: usize) -> bool {
    &&& after.dir@ == trimmed(before.dir@)
    &&& after.no_threads == threads_for(before.no_threads, cpus)
    &&& after.usage_mode == (before.usage_mode || !before.list_files)
    &&& after.update_status == (before.update_status || before.t_status_on_key || before.t_status_interval)
    &&& after.list_files == before.list_files
    &&& after.limit == before.limit
    &&& after.delimiter == before.delimiter
    &&& after.file_newer_than == before.file_newer_than
    &&& after.file_older_than == before.file_older_than
    &&& after.re == before.re
    &&& after.exclude_re == before.exclude_re
    &&& after.verbose == before.verbose
    &&& after.ticker_interval == before.ticker_interval
    &&& after.progress == before.progress
    &&& after.t_status_interval == before.t_status_interval
    &&& after.t_status_on_key == before.t_status_on_key
    &&& after.write_thread_cpu_time == before.write_thread_cpu_time
    &&& after.long_help == before.long_help
}

/// Asks `num_cpus::get` for the number of processors that this process
/// can use. It is at least 1; nothing else is claimed of it.
#[verifier::external_body]
fn cpu_count() -> (r: usize)
    ensures
        r >= 1,
{
    num_cpus::get()
}

/// Fills in the defaults: as many workers as processors, and at least 4,
/// where no number was given; the usage report where no mode was asked
/// for; status keeping where the status is shown. The directory loses the
/// separators at its end.
pub fn apply_defaults(cfg: ParLsCfg, cpus: usize) -> (r: ParLsCfg)
    ensures
        is_settled(&r, &cfg, cpus),
{
    let mut r = cfg;
    if r.no_threads == 0 {
        r.no_threads = if cpus > 4 {
            cpus
        } else {
            4
        };
    }
    if !r.usage_mode && !r.list_files {
        r.usage_mode = true;
    }
    if r.t_status_on_key || r.t_status_interval {
        r.update_status = true;
    }
    r.dir = clean_dir(&r.dir);
    r
}

/// Fills in the defaults for this machine.
pub fn get_cli(cfg: ParLsCfg) -> (r: ParLsCfg)
    ensures
        exists|cpus: usize| cpus >= 1 && is_settled(&r, &cfg, cpus),
        r.no_threads >= 1 || cfg.no_threads != 0,
{
    let cpus = cpu_count();
    apply_defaults(cfg, cpus)
}

/// What the scan announces, by the modes asked for; settings with no mode
/// are refused.
pub fn banner(list_files: bool, usage_mode: bool) -> (r: Result<Banner, ConfigError>)
    ensures
        r == (if list_files && usage_mode {
            Ok::<Banner, ConfigError>(Banner::ListAndUsage)
        } else if usage_mode {
            Ok(Banner::Usage)
        } else if list_files {
            Ok(Banner::List)
        } else {
            Err(ConfigError::NoMode)
        }),
{
    if list_files && usage_mode {
        Ok(Banner::ListAndUsage)
    } else if usage_mode {
        Ok(Banner::Usage)
    } else if list_files {
        Ok(Banner::List)
    } else {
        Err(ConfigError::NoMode)
    }
}

impl ParLsCfg {
    /// The age filter of these settings.
    pub fn age_filter(&self) -> (r: AgeFilter)
        ensures
            r.newer_than == self.file_newer_than,
            r.older_than == self.file_older_than,
    {
        AgeFilter { newer_than: self.file_newer_than, older_than: self.file_older_than }
    }

    /// The filters of these settings.
    pub fn filters(&self) -> (r: Filters)
        ensures
            r.re == self.re,
            r.exclude_re == self.exclude_re,
            r.age.newer_than == self.file_newer_than,
            r.age.older_than == self.file_older_than,
    {
        let re = match &self.re {
            Some(p) => Some(p.clone()),
            None => None,
        };
        let exclude_re = match &self.exclude_re {
            Some(p) => Some(p.clone()),
            None => None,
        };
        Filters { re, exclude_re, age: self.age_filter() }
    }
}

} // verus!
