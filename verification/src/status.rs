use vstd::prelude::*;

verus! {

/// Intent and last observed reality for one tracked command, combined in a
/// single tagged value. "Enabled" means any variant other than `Disabled`.
#[derive(Clone, Copy, PartialEq, Eq, Structural, Debug)]
pub enum ProcessStatus {
    /// The process is not expected to run; no pid is attached.
    Disabled,
    /// The last observation confirmed a live process at this pid whose
    /// command line equals the record's command.
    Running(i32),
    /// A live process exists at this pid, but its command line differs from
    /// the record's command (pid reuse or drift).
    Invalid(i32),
    /// No live process exists at this pid any more.
    Stopped(i32),
}

impl Default for ProcessStatus {
    fn default() -> (r: Self)
        ensures
            r == ProcessStatus::Disabled,
    {
        ProcessStatus::Disabled
    }
}

impl ProcessStatus {
    /// The remembered pid, if the variant carries one.
    pub open spec fn spec_pid(self) -> Option<i32> {
        match self {
            ProcessStatus::Disabled => None,
            ProcessStatus::Running(p) => Some(p),
            ProcessStatus::Invalid(p) => Some(p),
            ProcessStatus::Stopped(p) => Some(p),
        }
    }

    /// Whether the record is meant to be kept running.
    pub open spec fn spec_enabled(self) -> bool {
        !(self is Disabled)
    }
}

} // verus!
