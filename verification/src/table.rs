use vstd::prelude::*;

verus! {

/// One live process as observed in the OS process table: its pid and its
/// command line (command lines are kept as raw bytes, since the OS does not
/// guarantee any particular text encoding).
pub struct ProcessEntry {
    pub pid: i32,
    pub cmd: Vec<u8>,
}

/// The mathematical value of a [`ProcessEntry`].
pub ghost struct EntryView {
    pub pid: i32,
    pub cmd: Seq<u8>,
}

impl View for ProcessEntry {
    type V = EntryView;

    open spec fn view(&self) -> EntryView {
        EntryView { pid: self.pid, cmd: self.cmd@ }
    }
}

/// A snapshot of the live process table, in the (deterministic) order the OS
/// enumerated it. Callers observe the OS once and hand the snapshot in; every
/// decision in this library is a pure function of such a snapshot.
pub struct ProcessTable {
    pub entries: Vec<ProcessEntry>,
}

impl View for ProcessTable {
    type V = Seq<EntryView>;

    open spec fn view(&self) -> Seq<EntryView> {
        self.entries@.map(|i: int, e: ProcessEntry| e@)
    }
}

/// The command line of the first entry with the given pid, if any.
pub open spec fn find_by_pid(t: Seq<EntryView>, pid: i32) -> Option<Seq<u8>>
    decreases t.len(),
{
    if t.len() == 0 {
        None
    } else if t[0].pid == pid {
        Some(t[0].cmd)
    } else {
        find_by_pid(t.drop_first(), pid)
    }
}

/// The pid of the first entry whose command line equals `cmd`, if any.
pub open spec fn find_by_cmd(t: Seq<EntryView>, cmd: Seq<u8>) -> Option<i32>
    decreases t.len(),
{
    if t.len() == 0 {
        None
    } else if t[0].cmd == cmd {
        Some(t[0].pid)
    } else {
        find_by_cmd(t.drop_first(), cmd)
    }
}

/// A well-formed snapshot lists each pid at most once, as a real process
/// table does.
pub open spec fn table_wf(t: Seq<EntryView>) -> bool {
    forall|i: int, j: int| 0 <= i < j < t.len() ==> t[i].pid != t[j].pid
}

/// Byte-wise equality of two byte vectors.
pub fn bytes_eq(a: &Vec<u8>, b: &Vec<u8>) -> (r: bool)
    ensures
        r <==> a@ == b@,
{
    if a.len() != b.len() {
        assert(a@ != b@);
        return false;
    }
    let mut i: usize = 0;
    while i < a.len()
        invariant
            0 <= i <= a.len(),
            a.len() == b.len(),
            forall|k: int| 0 <= k < i ==> a@[k] == b@[k],
        decreases a.len() - i,
    {
        if a[i] != b[i] {
            assert(a@ != b@);
            return false;
        }
        i = i + 1;
    }
    assert(a@ =~= b@);
    true
}

proof fn lemma_find_by_pid_none(t: Seq<EntryView>, pid: i32)
    requires
        forall|k: int| 0 <= k < t.len() ==> t[k].pid != pid,
    ensures
        find_by_pid(t, pid) is None,
    decreases t.len(),
{
    if t.len() > 0 {
        assert(forall|k: int|
            0 <= k < t.drop_first().len() ==> t.drop_first()[k] == t[k + 1]);
        lemma_find_by_pid_none(t.drop_first(), pid);
    }
}

proof fn lemma_find_by_cmd_none(t: Seq<EntryView>, cmd: Seq<u8>)
    requires
        forall|k: int| 0 <= k < t.len() ==> t[k].cmd != cmd,
    ensures
        find_by_cmd(t, cmd) is None,
    decreases t.len(),
{
    if t.len() > 0 {
        assert(forall|k: int|
            0 <= k < t.drop_first().len() ==> t.drop_first()[k] == t[k + 1]);
        lemma_find_by_cmd_none(t.drop_first(), cmd);
    }
}

proof fn lemma_find_by_pid_step(t: Seq<EntryView>, pid: i32, i: int)
    requires
        0 <= i < t.len(),
        forall|k: int| 0 <= k < i ==> t[k].pid != pid,
    ensures
        find_by_pid(t, pid) == find_by_pid(t.skip(i), pid),
    decreases i,
{
    if i > 0 {
        lemma_find_by_pid_step(t, pid, i - 1);
        assert(t.skip(i - 1).drop_first() =~= t.skip(i));
        assert(t.skip(i - 1)[0] == t[i - 1]);
    } else {
        assert(t.skip(0) =~= t);
    }
}

proof fn lemma_find_by_cmd_step(t: Seq<EntryView>, cmd: Seq<u8>, i: int)
    requires
        0 <= i < t.len(),
        forall|k: int| 0 <= k < i ==> t[k].cmd != cmd,
    ensures
        find_by_cmd(t, cmd) == find_by_cmd(t.skip(i), cmd),
    decreases i,
{
    if i > 0 {
        lemma_find_by_cmd_step(t, cmd, i - 1);
        assert(t.skip(i - 1).drop_first() =~= t.skip(i));
        assert(t.skip(i - 1)[0] == t[i - 1]);
    } else {
        assert(t.skip(0) =~= t);
    }
}

impl ProcessTable {
    /// The command line of the first live process at `pid`, if one exists.
    pub fn lookup_by_pid(&self, pid: i32) -> (r: Option<&Vec<u8>>)
        ensures
            match r {
                Some(c) => find_by_pid(self@, pid) == Some(c@),
                None => find_by_pid(self@, pid) is None,
            },
    {
        let n = self.entries.len();
        let mut i: usize = 0;
        while i < n
            invariant
                0 <= i <= n,
                n == self.entries.len(),
                forall|k: int| 0 <= k < i ==> self@[k].pid != pid,
            decreases n - i,
        {
            if self.entries[i].pid == pid {
                proof {
                    if i > 0 {
                        lemma_find_by_pid_step(self@, pid, i as int);
                    } else {
                        assert(self@.skip(0) =~= self@);
                    }
                    assert(self@.skip(i as int)[0] == self@[i as int]);
                }
                return Some(&self.entries[i].cmd);
            }
            i = i + 1;
        }
        proof {
            lemma_find_by_pid_none(self@, pid);
        }
        None
    }

    /// The first live process whose command line equals `cmd`, if one
    /// exists, as `(pid, command line)`.
    pub fn lookup_by_cmd(&self, cmd: &Vec<u8>) -> (r: Option<i32>)
        ensures
            r == find_by_cmd(self@, cmd@),
    {
        let n = self.entries.len();
        let mut i: usize = 0;
        while i < n
            invariant
                0 <= i <= n,
                n == self.entries.len(),
                forall|k: int| 0 <= k < i ==> self@[k].cmd != cmd@,
            decreases n - i,
        {
            if bytes_eq(&self.entries[i].cmd, cmd) {
                proof {
                    if i > 0 {
                        lemma_find_by_cmd_step(self@, cmd@, i as int);
                    } else {
                        assert(self@.skip(0) =~= self@);
                    }
                    assert(self@.skip(i as int)[0] == self@[i as int]);
                }
                return Some(self.entries[i].pid);
            }
            i = i + 1;
        }
        proof {
            lemma_find_by_cmd_none(self@, cmd@);
        }
        None
    }
}

/// If some entry carries `cmd`, adoption by command finds a pid that is
/// really paired with `cmd` in the table; under a well-formed table the
/// first entry with that pid is that very entry.
pub proof fn lemma_find_by_cmd_pid(t: Seq<EntryView>, cmd: Seq<u8>)
    requires
        table_wf(t),
        find_by_cmd(t, cmd) is Some,
    ensures
        find_by_pid(t, find_by_cmd(t, cmd)->0) == Some(cmd),
    decreases t.len(),
{
    if t.len() > 0 {
        if t[0].cmd == cmd {
        } else {
            assert(table_wf(t.drop_first())) by {
                assert(forall|i: int, j: int|
                    0 <= i < j < t.drop_first().len() ==> t.drop_first()[i] == t[i + 1]
                        && t.drop_first()[j] == t[j + 1]);
            }
            lemma_find_by_cmd_pid(t.drop_first(), cmd);
            let q = find_by_cmd(t.drop_first(), cmd)->0;
            assert(exists|i: int|
                0 <= i < t.drop_first().len() && t.drop_first()[i].pid == q) by {
                lemma_find_by_pid_some_exists(t.drop_first(), q);
            }
            let i = choose|i: int|
                0 <= i < t.drop_first().len() && t.drop_first()[i].pid == q;
            assert(t.drop_first()[i] == t[i + 1]);
            assert(t[0].pid != q);
        }
    }
}

/// A successful pid lookup means some entry carries that pid.
pub proof fn lemma_find_by_pid_some_exists(t: Seq<EntryView>, pid: i32)
    requires
        find_by_pid(t, pid) is Some,
    ensures
        exists|i: int| 0 <= i < t.len() && #[trigger] t[i].pid == pid,
    decreases t.len(),
{
    if t.len() > 0 {
        if t[0].pid == pid {
        } else {
            lemma_find_by_pid_some_exists(t.drop_first(), pid);
            let i = choose|i: int|
                0 <= i < t.drop_first().len() && #[trigger] t.drop_first()[i].pid == pid;
            assert(t[i + 1].pid == pid);
        }
    }
}

} // verus!
