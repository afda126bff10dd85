//! Decisions of the directory watcher: which configurations it starts with,
//! and when a candidate file has stopped growing and can be repackaged. The
//! polling, sleeping and file probing happen around these functions.

use vstd::prelude::*;
use crate::naming::{
    contains_separator, ends_with_ignore_case, ends_with_ci, has_separator, ipa_ext, trim_text, trimmed,
};

verus! {

/// What the watcher is started with: the directory to watch, where to write
/// archives, the display name, and the output archive's file name.
#[derive(Debug, Clone)]
pub struct AutoCheckConfig {
    pub watch_dir: String,
    pub output_dir: String,
    pub app_name: String,
    pub output_ipa_name: String,
}

/// A status message from the watcher to its owner.
#[derive(Debug, Clone)]
pub enum AutoCheckMessage {
    Status(String),
}

/// Why a watcher configuration is refused, in the order the checks are made.
pub open spec fn config_error(
    cfg: AutoCheckConfig,
    watch_is_dir: bool,
    output_is_dir: bool,
) -> Option<Seq<char>> {
    if !watch_is_dir {
        Some("Watch directory is invalid: "@ + cfg.watch_dir@)
    } else if !output_is_dir {
        Some("Output directory is invalid: "@ + cfg.output_dir@)
    } else if trimmed(cfg.app_name@).len() == 0 {
        Some("App name cannot be empty"@)
    } else if trimmed(cfg.output_ipa_name@).len() == 0 || !ends_with_ci(cfg.output_ipa_name@, ipa_ext()) {
        Some("Output IPA name must end with .ipa"@)
    } else if has_separator(cfg.output_ipa_name@) {
        Some("Output IPA name must be a file name, not a path"@)
    } else {
        None
    }
}

/// Checks a watcher configuration, given whether its two directories are
/// directories: fails with the first reason that refuses it.
pub fn check_watch_config(cfg: &AutoCheckConfig, watch_is_dir: bool, output_is_dir: bool) -> (r: Result<
    (),
    String,
>)
    ensures
        r is Ok <==> config_error(*cfg, watch_is_dir, output_is_dir) is None,
        r matches Err(m) ==> config_error(*cfg, watch_is_dir, output_is_dir) == Some(m@),
{
    if !watch_is_dir {
        return Err(String::from_str("Watch directory is invalid: ").concat(cfg.watch_dir.as_str()));
    }
    if !output_is_dir {
        return Err(String::from_str("Output directory is invalid: ").concat(cfg.output_dir.as_str()));
    }
    let app_name = trim_text(cfg.app_name.as_str());
    if app_name.as_str().unicode_len() == 0 {
        return Err(String::from_str("App name cannot be empty"));
    }
    let name = trim_text(cfg.output_ipa_name.as_str());
    let ext = ".ipa";
    proof {
        reveal_strlit(".ipa");
        assert(ext@ =~= ipa_ext());
    }
    if name.as_str().unicode_len() == 0 || !ends_with_ignore_case(cfg.output_ipa_name.as_str(), ext) {
        return Err(String::from_str("Output IPA name must end with .ipa"));
    }
    if contains_separator(cfg.output_ipa_name.as_str()) {
        return Err(String::from_str("Output IPA name must be a file name, not a path"));
    }
    Ok(())
}

/// Milliseconds to wait after a probe that found no file.
pub const MISSING_RETRY_MS: u64 = 250;

/// Milliseconds between two size probes of a present file.
pub const POLL_INTERVAL_MS: u64 = 400;

/// What one probe of a candidate file found.
#[derive(Debug, Clone, Copy, PartialEq, Eq, Structural)]
pub enum Probe {
    /// The file's metadata could not be read.
    Missing,
    /// The file has `len` bytes, and it could (or could not) be opened.
    Present { len: u64, openable: bool },
}

/// What the waiting loop does next.
#[derive(Debug, Clone, Copy, PartialEq, Eq, Structural)]
pub enum ReadyStep {
    /// The file is stable: repackage it.
    Ready,
    /// Sleep this many milliseconds, then probe again.
    Sleep(u64),
    /// The time allowed has passed without the file becoming stable.
    TimedOut,
}

/// Waits for a candidate file to stop changing: it is ready when two
/// consecutive probes see the same size and the second one could open it.
#[derive(Debug, Clone, Copy)]
pub struct StabilityTracker {
    /// The size seen by the last probe that found the file.
    pub last_len: Option<u64>,
    /// How long, in milliseconds, the file may take to become stable.
    pub max_wait_ms: u64,
}

/// One step of stability detection from the last size seen: the next action
/// and the last size seen afterwards.
pub open spec fn stability_step(last_len: Option<u64>, max_wait_ms: u64, elapsed_ms: u64, probe: Probe) -> (
    ReadyStep,
    Option<u64>,
) {
    if elapsed_ms >= max_wait_ms {
        (ReadyStep::TimedOut, last_len)
    } else {
        match probe {
            Probe::Missing => (ReadyStep::Sleep(MISSING_RETRY_MS), last_len),
            Probe::Present { len, openable } => if last_len == Some(len) && openable {
                (ReadyStep::Ready, last_len)
            } else {
                (ReadyStep::Sleep(POLL_INTERVAL_MS), Some(len))
            },
        }
    }
}

impl StabilityTracker {
    /// A tracker that has seen no size yet and allows `max_wait_ms`.
    pub fn new(max_wait_ms: u64) -> (r: Self)
        ensures
            r.last_len is None,
            r.max_wait_ms == max_wait_ms,
    {
        StabilityTracker { last_len: None, max_wait_ms }
    }

    /// Tells whether the time allowed has run out `elapsed_ms` after waiting
    /// began; the waiting loop asks this before it probes the file again.
    pub fn deadline_passed(&self, elapsed_ms: u64) -> (r: bool)
        ensures
            r == (elapsed_ms >= self.max_wait_ms),
            r == (stability_step(self.last_len, self.max_wait_ms, elapsed_ms, Probe::Missing).0 == ReadyStep::TimedOut),
    {
        elapsed_ms >= self.max_wait_ms
    }

    /// Takes the result of a probe made `elapsed_ms` after waiting began, and
    /// says what to do next.
    pub fn observe(&mut self, elapsed_ms: u64, probe: Probe) -> (r: ReadyStep)
        ensures
            (r, final(self).last_len) == stability_step(old(self).last_len, old(self).max_wait_ms, elapsed_ms, probe),
            final(self).max_wait_ms == old(self).max_wait_ms,
    {
        if elapsed_ms >= self.max_wait_ms {
            return ReadyStep::TimedOut;
        }
        match probe {
            Probe::Missing => ReadyStep::Sleep(MISSING_RETRY_MS),
            Probe::Present { len, openable } => {
                let same = match self.last_len {
                    Some(prev) => prev == len,
                    None => false,
                };
                if same && openable {
                    ReadyStep::Ready
                } else {
                    self.last_len = Some(len);
                    ReadyStep::Sleep(POLL_INTERVAL_MS)
                }
            },
        }
    }
}

/// Whether a run of probes reports the file ready, starting from the last size
/// `last_len`; each probe comes with its elapsed time, and the run ends at the
/// first step that reports ready or timed out.
pub open spec fn run_reaches_ready(last_len: Option<u64>, max_wait_ms: u64, polls: Seq<(u64, Probe)>) -> bool
    decreases polls.len(),
{
    if polls.len() == 0 {
        false
    } else {
        let (step, next) = stability_step(last_len, max_wait_ms, polls[0].0, polls[0].1);
        step == ReadyStep::Ready || (step != ReadyStep::TimedOut && run_reaches_ready(
            next,
            max_wait_ms,
            polls.drop_first(),
        ))
    }
}

/// Whether every probe of a run finds the file with a size different from the
/// size seen just before it.
pub open spec fn sizes_keep_changing(last_len: Option<u64>, polls: Seq<(u64, Probe)>) -> bool
    decreases polls.len(),
{
    if polls.len() == 0 {
        true
    } else {
        match polls[0].1 {
            Probe::Missing => false,
            Probe::Present { len, openable: _ } => last_len != Some(len) && sizes_keep_changing(
                Some(len),
                polls.drop_first(),
            ),
        }
    }
}

/// A file whose size changes between every two consecutive probes is never
/// reported ready, whatever the time allowed.
pub proof fn lemma_changing_size_never_ready(last_len: Option<u64>, max_wait_ms: u64, polls: Seq<(u64, Probe)>)
    requires
        sizes_keep_changing(last_len, polls),
    ensures
        !run_reaches_ready(last_len, max_wait_ms, polls),
    decreases polls.len(),
{
    if polls.len() > 0 {
        let (step, next) = stability_step(last_len, max_wait_ms, polls[0].0, polls[0].1);
        if polls[0].0 < max_wait_ms {
            lemma_changing_size_never_ready(next, max_wait_ms, polls.drop_first());
        }
    }
}

/// A file that two probes within the time allowed find openable with the same
/// size is reported ready at the second probe: within two poll intervals of
/// the first.
pub proof fn lemma_stable_file_ready_at_second_probe(
    max_wait_ms: u64,
    e1: u64,
    e2: u64,
    len: u64,
)
    requires
        e1 < max_wait_ms,
        e2 < max_wait_ms,
    ensures
        ({
            let (s1, l1) = stability_step(None, max_wait_ms, e1, Probe::Present { len, openable: true });
            let (s2, _) = stability_step(l1, max_wait_ms, e2, Probe::Present { len, openable: true });
            s1 == ReadyStep::Sleep(POLL_INTERVAL_MS) && s2 == ReadyStep::Ready
        }),
{
}

} // verus!
