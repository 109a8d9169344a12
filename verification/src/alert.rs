//! Threshold alerting: scan the raw records in operating-system order and
//! report the first one whose CPU or memory use exceeds a configured bound.

use vstd::prelude::*;

use crate::record::ProcessRecord;

verus! {

/// Alerting bounds. CPU is in hundredths of a percent, memory in bytes.
#[derive(Clone, Copy, Debug, PartialEq, Eq, Structural)]
pub struct AlertThresholds {
    pub cpu_centi_percent: u64,
    pub memory_bytes: u64,
}

impl AlertThresholds {
    pub fn new(cpu_centi_percent: u64, memory_bytes: u64) -> (t: AlertThresholds)
        ensures
            t.cpu_centi_percent == cpu_centi_percent,
            t.memory_bytes == memory_bytes,
    {
        AlertThresholds { cpu_centi_percent, memory_bytes }
    }
}

impl Default for AlertThresholds {
    /// The reference bounds: 90 % CPU and 2 GiB of memory.
    fn default() -> (t: AlertThresholds)
        ensures
            t.cpu_centi_percent == 9000,
            t.memory_bytes == 0x8000_0000,
    {
        AlertThresholds { cpu_centi_percent: 9000, memory_bytes: 0x8000_0000 }
    }
}

/// The first threshold violation of one evaluation pass.
#[derive(Clone, Debug, PartialEq)]
pub struct AlertEvent {
    pub pid: u32,
    pub name: String,
    pub cpu_centi_percent: u64,
    pub memory_bytes: u64,
}

/// Whether a record violates the bounds: CPU strictly above the CPU bound,
/// or memory strictly above the memory bound.
pub open spec fn exceeds(r: ProcessRecord, t: AlertThresholds) -> bool {
    r.cpu_centi_percent > t.cpu_centi_percent || r.memory_bytes > t.memory_bytes
}

/// The alert a record gives rise to.
pub open spec fn event_of(r: ProcessRecord) -> AlertEvent {
    AlertEvent {
        pid: r.pid,
        name: r.name,
        cpu_centi_percent: r.cpu_centi_percent,
        memory_bytes: r.memory_bytes,
    }
}

/// Scans the records in order and returns the alert of the first record
/// that violates the bounds; `None` when no record does. Later violations
/// are never reported before earlier ones.
pub fn check(records: &Vec<ProcessRecord>, thresholds: &AlertThresholds) -> (r: Option<AlertEvent>)
    ensures
        match r {
            Some(e) => exists|i: int|
                {
                    &&& 0 <= i < records@.len()
                    &&& exceeds(#[trigger] records@[i], *thresholds)
                    &&& e == event_of(records@[i])
                    &&& forall|j: int| 0 <= j < i ==> !exceeds(#[trigger] records@[j], *thresholds)
                },
            None => forall|i: int|
                0 <= i < records@.len() ==> !exceeds(#[trigger] records@[i], *thresholds),
        },
{
    let n = records.len();
    let mut i: usize = 0;
    while i < n
        invariant
            n == records@.len(),
            0 <= i <= n,
            forall|j: int| 0 <= j < i ==> !exceeds(#[trigger] records@[j], *thresholds),
        decreases n - i,
    {
        let r = &records[i];
        if r.cpu_centi_percent > thresholds.cpu_centi_percent || r.memory_bytes
            > thresholds.memory_bytes {
            return Some(
                AlertEvent {
                    pid: r.pid,
                    name: r.name.clone(),
                    cpu_centi_percent: r.cpu_centi_percent,
                    memory_bytes: r.memory_bytes,
                },
            );
        }
        i = i + 1;
    }
    None
}

} // verus!
