use vstd::prelude::*;

use crate::status::ProcessStatus;
use crate::table::EntryView;
use crate::table::ProcessTable;
use crate::table::bytes_eq;
use crate::table::find_by_cmd;
use crate::table::find_by_pid;
use crate::table::lemma_find_by_cmd_pid;
use crate::table::table_wf;

verus! {

/// One tracked unit: the desired command line, an optional display label, an
/// optional output-log path, and the current status.
///
/// Identity of a tracked unit is its `cmd` string: the command both spawns
/// the process and verifies its identity on every observation. `name` is
/// cosmetic only.
#[derive(Debug, Clone, PartialEq, Eq)]
pub struct ProcessConfig {
    pub name: Option<Vec<u8>>,
    pub cmd: Vec<u8>,
    pub status: ProcessStatus,
    pub output: Option<Vec<u8>>,
}

/// The mathematical value of a [`ProcessConfig`].
pub ghost struct RecordView {
    pub name: Option<Seq<u8>>,
    pub cmd: Seq<u8>,
    pub status: ProcessStatus,
    pub output: Option<Seq<u8>>,
}

impl RecordView {
    /// The same record with its status replaced: what every mutating
    /// operation of this library does to a record.
    pub open spec fn with_status(self, status: ProcessStatus) -> RecordView {
        RecordView { status, ..self }
    }
}

impl View for ProcessConfig {
    type V = RecordView;

    open spec fn view(&self) -> RecordView {
        RecordView {
            name: match self.name {
                Some(n) => Some(n@),
                None => None,
            },
            cmd: self.cmd@,
            status: self.status,
            output: match self.output {
                Some(o) => Some(o@),
                None => None,
            },
        }
    }
}

/// Why an operation failed. Every failure here is fatal to the caller's
/// run: the supervisor refuses to track a process it cannot trust.
#[derive(Clone, Copy, PartialEq, Eq, Structural, Debug)]
pub enum SuperviseError {
    /// The persisted state could not be decoded.
    MalformedState,
    /// Post-spawn verification saw an empty command line at the new pid:
    /// the spawn facade is broken.
    SpawnedEmptyCmd,
    /// Post-spawn verification saw a command line that differs from the
    /// record's command: the wrong command ran, or another process took the
    /// pid before verification.
    SpawnedWrongCmd,
    /// A process refused to die within the allowed number of termination
    /// attempts.
    TerminationFailed,
}

/// An action the caller must carry out: spawn `cmd` as a new detached
/// process with stdout/stderr redirected to `output` (no redirection
/// override if `output` is `None`), then report the new pid back through
/// [`ProcessConfig::confirm_spawn`] together with a fresh table snapshot.
pub struct SpawnRequest {
    pub cmd: Vec<u8>,
    pub output: Option<Vec<u8>>,
}

/// What [`ProcessConfig::kill`] asks of the caller: either nothing is left
/// to do, or a termination signal must be sent to the given pid and `kill`
/// called again with a fresh snapshot and one fewer attempt left.
#[derive(Clone, Copy, PartialEq, Eq, Structural, Debug)]
pub enum KillStep {
    Done,
    Terminate(i32),
}

/// How many termination attempts [`ProcessConfig::kill`] allows before it
/// gives up with [`SuperviseError::TerminationFailed`].
pub const KILL_ATTEMPTS: usize = 3;

/// The view of an optional byte string.
pub open spec fn opt_bytes(o: Option<Vec<u8>>) -> Option<Seq<u8>> {
    match o {
        Some(v) => Some(v@),
        None => None,
    }
}

/// Phase one of reconciliation: verify the remembered pid against the
/// table. Disabled records are never compared against the table; for the
/// rest, a missing pid means `Stopped`, a matching command line `Running`,
/// and a differing one `Invalid` (the pid was recycled or drifted).
pub open spec fn spec_check(r: RecordView, t: Seq<EntryView>) -> ProcessStatus {
    match r.status.spec_pid() {
        None => ProcessStatus::Disabled,
        Some(p) => match find_by_pid(t, p) {
            None => ProcessStatus::Stopped(p),
            Some(c) => if c == r.cmd {
                ProcessStatus::Running(p)
            } else {
                ProcessStatus::Invalid(p)
            },
        },
    }
}

/// Full reconciliation: phase one, then adoption. If an enabled record did
/// not come out `Running`, any live process whose command line equals the
/// record's command is adopted — the supervisor re-attaches to a matching
/// process started outside its control rather than spawning a duplicate.
pub open spec fn spec_reconcile(r: RecordView, t: Seq<EntryView>) -> ProcessStatus {
    let base = spec_check(r, t);
    if r.status.spec_enabled() && !(base is Running) {
        match find_by_cmd(t, r.cmd) {
            Some(q) => ProcessStatus::Running(q),
            None => base,
        }
    } else {
        base
    }
}

/// The output path a spawn for this record redirects to: the record's own
/// `output` if set, else the process-wide default handed in by the caller.
pub open spec fn spec_output_path(r: RecordView, default_output: Option<Seq<u8>>) -> Option<
    Seq<u8>,
> {
    if r.output is Some {
        r.output
    } else {
        default_output
    }
}

/// The status [`ProcessConfig::kill`] leaves behind: a reconciled `Stopped`
/// record is marked `Disabled` (the intended process is already gone);
/// everything else keeps its reconciled status.
pub open spec fn spec_kill_status(r: RecordView, t: Seq<EntryView>) -> ProcessStatus {
    let rc = spec_reconcile(r, t);
    if rc is Stopped {
        ProcessStatus::Disabled
    } else {
        rc
    }
}

/// The step [`ProcessConfig::kill`] returns: a reconciled `Running` record
/// needs a termination signal while attempts remain, and is a failure once
/// they are exhausted; anything else is already done, with nothing killed.
pub open spec fn spec_kill_step(
    r: RecordView,
    t: Seq<EntryView>,
    attempts_left: nat,
) -> Result<KillStep, SuperviseError> {
    match spec_reconcile(r, t) {
        ProcessStatus::Running(p) => if attempts_left > 0 {
            Ok(KillStep::Terminate(p))
        } else {
            Err(SuperviseError::TerminationFailed)
        },
        _ => Ok(KillStep::Done),
    }
}

/// The outcome of post-spawn verification: the fresh command line observed
/// at the new pid must be present and equal to the record's command; an
/// empty command line means the spawn facade is broken, a differing one
/// that the wrong command ran or the pid was immediately recycled.
pub open spec fn spec_confirm(r: RecordView, pid: i32, t: Seq<EntryView>) -> Result<
    (),
    SuperviseError,
> {
    match find_by_pid(t, pid) {
        None => Ok(()),
        Some(c) => if c.len() == 0 {
            Err(SuperviseError::SpawnedEmptyCmd)
        } else if c != r.cmd {
            Err(SuperviseError::SpawnedWrongCmd)
        } else {
            Ok(())
        },
    }
}

/// A fresh copy of a byte string.
pub fn copy_bytes(v: &Vec<u8>) -> (r: Vec<u8>)
    ensures
        r@ == v@,
{
    let mut r: Vec<u8> = Vec::new();
    let mut i: usize = 0;
    while i < v.len()
        invariant
            0 <= i <= v.len(),
            r@ == v@.subrange(0, i as int),
        decreases v.len() - i,
    {
        r.push(v[i]);
        assert(r@ =~= v@.subrange(0, i + 1));
        i = i + 1;
    }
    assert(r@ =~= v@);
    r
}

impl ProcessConfig {
    /// A new record for `cmd`, created disabled; callers bring it up with
    /// [`ProcessConfig::run`] before appending it to the registry.
    pub fn new(cmd: Vec<u8>, name: Option<Vec<u8>>, output: Option<Vec<u8>>) -> (r: Self)
        ensures
            r@ == (RecordView {
                name: opt_bytes(name),
                cmd: cmd@,
                status: ProcessStatus::Disabled,
                output: opt_bytes(output),
            }),
    {
        ProcessConfig { name, cmd, status: ProcessStatus::Disabled, output }
    }

    /// The remembered pid, if the current status carries one.
    pub fn get_pid(&self) -> (r: Option<i32>)
        ensures
            r == self.status.spec_pid(),
    {
        match self.status {
            ProcessStatus::Running(p) => Some(p),
            ProcessStatus::Invalid(p) => Some(p),
            ProcessStatus::Stopped(p) => Some(p),
            ProcessStatus::Disabled => None,
        }
    }

    /// Whether the last reconciliation confirmed a live matching process.
    pub fn is_running(&self) -> (r: bool)
        ensures
            r == (self.status is Running),
    {
        match self.status {
            ProcessStatus::Running(_) => true,
            _ => false,
        }
    }

    /// Whether the record is meant to be kept running at all.
    pub fn is_enabled(&self) -> (r: bool)
        ensures
            r == self.status.spec_enabled(),
    {
        match self.status {
            ProcessStatus::Disabled => false,
            _ => true,
        }
    }

    /// Phase one of reconciliation against the snapshot.
    fn check_status(&self, table: &ProcessTable) -> (r: ProcessStatus)
        ensures
            r == spec_check(self@, table@),
    {
        match self.get_pid() {
            None => ProcessStatus::Disabled,
            Some(pid) => match table.lookup_by_pid(pid) {
                None => ProcessStatus::Stopped(pid),
                Some(c) => if bytes_eq(c, &self.cmd) {
                    ProcessStatus::Running(pid)
                } else {
                    ProcessStatus::Invalid(pid)
                },
            },
        }
    }

    /// Reconcile this record against the snapshot: replace its status by
    /// what the table shows, adopting a matching live process if the
    /// remembered pid no longer serves.
    pub fn update(&mut self, table: &ProcessTable)
        ensures
            final(self)@ == old(self)@.with_status(spec_reconcile(old(self)@, table@)),
    {
        self.status = self.check_status(table);
        if self.is_enabled() && !self.is_running() {
            match table.lookup_by_cmd(&self.cmd) {
                Some(p) => {
                    self.status = ProcessStatus::Running(p);
                },
                None => {},
            }
        }
    }

    /// Move the record toward `Running`: reconcile, and if no live matching
    /// process was found (not even by adoption), hand back the spawn the
    /// caller must perform. An already-running record requests nothing.
    ///
    /// After the caller spawns, it must report the new pid through
    /// [`ProcessConfig::confirm_spawn`].
    pub fn run(&mut self, table: &ProcessTable, default_output: &Option<Vec<u8>>) -> (r: Option<
        SpawnRequest,
    >)
        ensures
            final(self)@ == old(self)@.with_status(spec_reconcile(old(self)@, table@)),
            (r is Some) == !(spec_reconcile(old(self)@, table@) is Running),
            r matches Some(req) ==> req.cmd@ == old(self)@.cmd && opt_bytes(req.output)
                == spec_output_path(old(self)@, opt_bytes(*default_output)),
    {
        self.update(table);
        if self.is_running() {
            None
        } else {
            let output = match &self.output {
                Some(o) => Some(copy_bytes(o)),
                None => match default_output {
                    Some(d) => Some(copy_bytes(d)),
                    None => None,
                },
            };
            Some(SpawnRequest { cmd: copy_bytes(&self.cmd), output })
        }
    }

    /// Record the pid of a spawn just performed for this record and verify
    /// it against a fresh snapshot. The status becomes `Running(pid)`
    /// either way; an error says the spawned process cannot be trusted and
    /// the whole run must stop.
    pub fn confirm_spawn(&mut self, pid: i32, table: &ProcessTable) -> (r: Result<
        (),
        SuperviseError,
    >)
        ensures
            final(self)@ == old(self)@.with_status(ProcessStatus::Running(pid)),
            r == spec_confirm(old(self)@, pid, table@),
    {
        self.status = ProcessStatus::Running(pid);
        match table.lookup_by_pid(pid) {
            None => Ok(()),
            Some(c) => if c.len() == 0 {
                Err(SuperviseError::SpawnedEmptyCmd)
            } else if !bytes_eq(c, &self.cmd) {
                Err(SuperviseError::SpawnedWrongCmd)
            } else {
                Ok(())
            },
        }
    }

    /// Move an enabled-but-unwanted record toward `Disabled`: reconcile,
    /// mark a reconciled `Stopped` record `Disabled`, and ask the caller to
    /// send a termination signal while a matching process is still alive.
    /// A reconciled `Disabled` or `Invalid` record is left untouched — the
    /// live process behind `Invalid` does not match this record's identity,
    /// so it must not be touched.
    ///
    /// On `Terminate(p)` the caller sends the signal and calls `kill` again
    /// with a fresh snapshot and `attempts_left - 1`; once attempts run out
    /// the record stays `Running` and the error surfaces.
    pub fn kill(&mut self, table: &ProcessTable, attempts_left: usize) -> (r: Result<
        KillStep,
        SuperviseError,
    >)
        ensures
            final(self)@ == old(self)@.with_status(spec_kill_status(old(self)@, table@)),
            r == spec_kill_step(old(self)@, table@, attempts_left as nat),
    {
        self.update(table);
        match self.status {
            ProcessStatus::Running(p) => {
                if attempts_left > 0 {
                    Ok(KillStep::Terminate(p))
                } else {
                    Err(SuperviseError::TerminationFailed)
                }
            },
            ProcessStatus::Stopped(_) => {
                self.status = ProcessStatus::Disabled;
                Ok(KillStep::Done)
            },
            _ => Ok(KillStep::Done),
        }
    }

    /// Enforce desired state without changing intent: an enabled record is
    /// run, a disabled one is left alone.
    pub fn fix(&mut self, table: &ProcessTable, default_output: &Option<Vec<u8>>) -> (r: Option<
        SpawnRequest,
    >)
        ensures
            old(self)@.status.spec_enabled() ==> final(self)@ == old(self)@.with_status(
                spec_reconcile(old(self)@, table@),
            ) && (r is Some) == !(spec_reconcile(old(self)@, table@) is Running),
            !old(self)@.status.spec_enabled() ==> *final(self) == *old(self) && r is None,
            r matches Some(req) ==> req.cmd@ == old(self)@.cmd && opt_bytes(req.output)
                == spec_output_path(old(self)@, opt_bytes(*default_output)),
    {
        if self.is_enabled() {
            self.run(table, default_output)
        } else {
            None
        }
    }
}

/// Law: reconciling a disabled record is a no-op — the result is `Disabled`
/// whatever the table holds, and the table is never consulted (the result
/// does not depend on it).
pub proof fn lemma_reconcile_disabled(r: RecordView, t: Seq<EntryView>)
    requires
        r.status is Disabled,
    ensures
        spec_reconcile(r, t) == ProcessStatus::Disabled,
{
}

/// Law: when the remembered pid's live command line equals the record's
/// command, reconciliation confirms `Running` at that same pid.
pub proof fn lemma_reconcile_confirms_running(r: RecordView, t: Seq<EntryView>, p: i32)
    requires
        r.status.spec_pid() == Some(p),
        find_by_pid(t, p) == Some(r.cmd),
    ensures
        spec_reconcile(r, t) == ProcessStatus::Running(p),
{
}

/// Law: adoption fires even when the remembered pid is gone — if some other
/// live process's command line equals the record's command, reconciliation
/// yields `Running` at that process's pid.
pub proof fn lemma_reconcile_adopts(r: RecordView, t: Seq<EntryView>, p: i32, q: i32)
    requires
        r.status.spec_pid() == Some(p),
        find_by_pid(t, p) is None,
        find_by_cmd(t, r.cmd) == Some(q),
    ensures
        spec_reconcile(r, t) == ProcessStatus::Running(q),
{
}

/// Law: a live process at the remembered pid whose command line differs,
/// with no other live process matching the command, reconciles to
/// `Invalid` at the remembered pid.
pub proof fn lemma_reconcile_invalid(r: RecordView, t: Seq<EntryView>, p: i32, c: Seq<u8>)
    requires
        r.status.spec_pid() == Some(p),
        find_by_pid(t, p) == Some(c),
        c != r.cmd,
        find_by_cmd(t, r.cmd) is None,
    ensures
        spec_reconcile(r, t) == ProcessStatus::Invalid(p),
{
}

/// Law: `run` is idempotent. On a record that reconciles to `Running`,
/// `run` requests no spawn and only rewrites the status to that reconciled
/// value; a second `run` against the same snapshot again requests no spawn
/// and leaves the status unchanged. Needs a table that lists each pid once,
/// as a real process table does.
pub proof fn lemma_run_idempotent(r: RecordView, t: Seq<EntryView>)
    requires
        table_wf(t),
        spec_reconcile(r, t) is Running,
    ensures
        spec_reconcile(r.with_status(spec_reconcile(r, t)), t) == spec_reconcile(r, t),
{
    let rc = spec_reconcile(r, t);
    let r2 = r.with_status(rc);
    if spec_check(r, t) is Running {
        assert(spec_check(r2, t) == spec_check(r, t));
    } else {
        lemma_find_by_cmd_pid(t, r.cmd);
    }
}

/// Law: `kill` on a record that reconciles to `Disabled` or `Invalid` is a
/// no-op — the status stays at the reconciled value and no termination is
/// requested. A record stored as `Disabled` always reconciles to
/// `Disabled`, so for those this holds unconditionally.
pub proof fn lemma_kill_noop(r: RecordView, t: Seq<EntryView>, attempts_left: nat)
    requires
        spec_reconcile(r, t) is Disabled || spec_reconcile(r, t) is Invalid,
    ensures
        spec_kill_status(r, t) == spec_reconcile(r, t),
        spec_kill_step(r, t, attempts_left) == Ok::<KillStep, SuperviseError>(KillStep::Done),
{
}

} // verus!
