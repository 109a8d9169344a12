//! The snapshot data model: one record per live process, and a snapshot
//! holding the records in the order the operating system returned them.

use vstd::prelude::*;

verus! {

/// Scheduling state of a process at snapshot time.
#[derive(Clone, Copy, Debug, PartialEq, Eq, Structural)]
pub enum ProcessStatus {
    Running,
    Sleeping,
    Stopped,
    Other,
}

/// One live process as enumerated by the operating system.
///
/// CPU load is carried in hundredths of a percent (`1250` means `12.50 %`)
/// so that sums and comparisons are exact; it may exceed `10000` on
/// multi-core machines.
#[derive(Clone, Debug, PartialEq)]
pub struct ProcessRecord {
    pub pid: u32,
    /// Parent process id; `None` when the process has no resolvable parent.
    pub parent_pid: Option<u32>,
    pub name: String,
    pub memory_bytes: u64,
    pub cpu_centi_percent: u64,
    pub status: ProcessStatus,
}

/// A complete enumeration of live processes at one point in time,
/// in the order the operating system returned them.
#[derive(Clone, Debug, PartialEq)]
pub struct Snapshot {
    pub records: Vec<ProcessRecord>,
}

impl Snapshot {
    /// Whether some record of the snapshot carries the given pid.
    pub open spec fn spec_contains_pid(self, pid: u32) -> bool {
        exists|i: int| 0 <= i < self.records@.len() && self.records@[i].pid == pid
    }

    /// The index of the first record with the given pid, if any.
    pub open spec fn spec_first_index_of(self, pid: u32) -> int {
        choose|i: int|
            0 <= i < self.records@.len() && self.records@[i].pid == pid && forall|j: int|
                0 <= j < i ==> self.records@[j].pid != pid
    }

    pub fn new(records: Vec<ProcessRecord>) -> (s: Snapshot)
        ensures
            s.records == records,
    {
        Snapshot { records }
    }

    pub fn len(&self) -> (n: usize)
        ensures
            n == self.records@.len(),
    {
        self.records.len()
    }

    /// Looks a pid up in the snapshot; returns the first record carrying it,
    /// in operating-system order.
    pub fn lookup(&self, pid: u32) -> (r: Option<&ProcessRecord>)
        ensures
            match r {
                Some(rec) => {
                    &&& self.spec_contains_pid(pid)
                    &&& exists|i: int|
                        {
                            &&& 0 <= i < self.records@.len()
                            &&& self.records@[i] == *rec
                            &&& self.records@[i].pid == pid
                            &&& forall|j: int| 0 <= j < i ==> self.records@[j].pid != pid
                        }
                },
                None => !self.spec_contains_pid(pid),
            },
    {
        let n = self.records.len();
        let mut i: usize = 0;
        while i < n
            invariant
                n == self.records@.len(),
                0 <= i <= n,
                forall|j: int| 0 <= j < i ==> self.records@[j].pid != pid,
            decreases n - i,
        {
            if self.records[i].pid == pid {
                return Some(&self.records[i]);
            }
            i = i + 1;
        }
        None
    }

    /// Whether the snapshot holds a record with the given pid.
    pub fn contains_pid(&self, pid: u32) -> (r: bool)
        ensures
            r == self.spec_contains_pid(pid),
    {
        self.lookup(pid).is_some()
    }
}

/// How many records of a sequence prefix carry the given status.
pub open spec fn count_status(records: Seq<ProcessRecord>, status: ProcessStatus) -> int
    decreases records.len(),
{
    if records.len() == 0 {
        0
    } else {
        count_status(records.drop_last(), status) + if records.last().status == status {
            1int
        } else {
            0int
        }
    }
}

/// Counts of records by scheduling state; `Other` records are not counted.
#[derive(Clone, Copy, Debug, PartialEq, Eq, Structural)]
pub struct StatusCounts {
    pub running: usize,
    pub sleeping: usize,
    pub stopped: usize,
}

impl StatusCounts {
    /// Total of the three counted states.
    pub open spec fn spec_total(self) -> int {
        self.running + self.sleeping + self.stopped
    }
}

/// Tallies how many records are running, sleeping, and stopped.
pub fn count_statuses(records: &Vec<ProcessRecord>) -> (c: StatusCounts)
    ensures
        c.running == count_status(records@, ProcessStatus::Running),
        c.sleeping == count_status(records@, ProcessStatus::Sleeping),
        c.stopped == count_status(records@, ProcessStatus::Stopped),
{
    let n = records.len();
    let mut running: usize = 0;
    let mut sleeping: usize = 0;
    let mut stopped: usize = 0;
    let mut i: usize = 0;
    while i < n
        invariant
            n == records@.len(),
            0 <= i <= n,
            running == count_status(records@.take(i as int), ProcessStatus::Running),
            sleeping == count_status(records@.take(i as int), ProcessStatus::Sleeping),
            stopped == count_status(records@.take(i as int), ProcessStatus::Stopped),
            running <= i && sleeping <= i && stopped <= i,
        decreases n - i,
    {
        proof {
            assert(records@.take(i + 1).drop_last() =~= records@.take(i as int));
            assert(records@.take(i + 1).last() == records@[i as int]);
        }
        match records[i].status {
            ProcessStatus::Running => {
                running = running + 1;
            },
            ProcessStatus::Sleeping => {
                sleeping = sleeping + 1;
            },
            ProcessStatus::Stopped => {
                stopped = stopped + 1;
            },
            ProcessStatus::Other => {
            },
        }
        i = i + 1;
    }
    proof {
        assert(records@.take(n as int) =~= records@);
    }
    StatusCounts { running, sleeping, stopped }
}

} // verus!
