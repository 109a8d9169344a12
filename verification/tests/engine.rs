use procmon::aggregate::{aggregate, status_label, NameAggregate};
use procmon::alert::{check, AlertThresholds};
use procmon::record::{count_statuses, ProcessRecord, ProcessStatus, Snapshot};
use procmon::sort::{sort, SortKey};
use procmon::text::contains_ci;
use procmon::tree::build_tree;

fn rec(
    pid: u32,
    parent: Option<u32>,
    name: &str,
    memory_bytes: u64,
    cpu_centi_percent: u64,
    status: ProcessStatus,
) -> ProcessRecord {
    ProcessRecord {
        pid,
        parent_pid: parent,
        name: name.to_string(),
        memory_bytes,
        cpu_centi_percent,
        status,
    }
}

fn agg(
    name: &str,
    total_memory_bytes: u64,
    total_cpu_centi_percent: u64,
    representative_pid: u32,
    representative_status: ProcessStatus,
) -> NameAggregate {
    NameAggregate {
        name: name.to_string(),
        total_memory_bytes,
        total_cpu_centi_percent,
        representative_pid,
        representative_status,
    }
}

#[test]
fn aggregate_merges_same_name_and_locks_representative() {
    // Two records of one name: sums add up, representative stays the first.
    let records = vec![
        rec(1, None, "a", 100, 1000, ProcessStatus::Running),
        rec(2, None, "a", 50, 500, ProcessStatus::Sleeping),
    ];
    let out = aggregate(&records, None);
    assert_eq!(out.len(), 1);
    assert_eq!(out[0], agg("a", 150, 1500, 1, ProcessStatus::Running));
}

#[test]
fn aggregate_excludes_zero_memory_records() {
    let records = vec![
        rec(7, None, "ghost", 0, 9999, ProcessStatus::Running),
        rec(8, None, "real", 10, 100, ProcessStatus::Sleeping),
    ];
    let out = aggregate(&records, None);
    assert_eq!(out.len(), 1);
    assert_eq!(out[0].name, "real");
    for row in &out {
        assert_ne!(row.representative_pid, 7);
    }
}

#[test]
fn aggregate_zero_memory_never_counts_toward_sums() {
    let records = vec![
        rec(1, None, "a", 100, 1000, ProcessStatus::Running),
        rec(2, None, "a", 0, 400, ProcessStatus::Running),
        rec(3, None, "a", 11, 30, ProcessStatus::Running),
    ];
    let out = aggregate(&records, None);
    assert_eq!(out.len(), 1);
    assert_eq!(out[0].total_memory_bytes, 111);
    assert_eq!(out[0].total_cpu_centi_percent, 1030);
}

#[test]
fn aggregate_empty_input_gives_empty_output() {
    let records: Vec<ProcessRecord> = vec![];
    let out = aggregate(&records, None);
    assert!(out.is_empty());
}

#[test]
fn aggregate_keeps_first_seen_order_of_names() {
    let records = vec![
        rec(5, None, "b", 10, 0, ProcessStatus::Running),
        rec(6, None, "a", 20, 0, ProcessStatus::Running),
        rec(7, None, "b", 30, 0, ProcessStatus::Running),
    ];
    let out = aggregate(&records, None);
    assert_eq!(out.len(), 2);
    assert_eq!(out[0].name, "b");
    assert_eq!(out[0].total_memory_bytes, 40);
    assert_eq!(out[1].name, "a");
}

#[test]
fn aggregate_status_filter_is_case_insensitive_substring() {
    let records = vec![
        rec(1, None, "a", 10, 0, ProcessStatus::Running),
        rec(2, None, "b", 10, 0, ProcessStatus::Sleeping),
        rec(3, None, "c", 10, 0, ProcessStatus::Stopped),
    ];
    let out = aggregate(&records, Some("sleep"));
    assert_eq!(out.len(), 1);
    assert_eq!(out[0].name, "b");

    let out = aggregate(&records, Some("SLEEP"));
    assert_eq!(out.len(), 1);
    assert_eq!(out[0].name, "b");

    let out = aggregate(&records, Some("uN"));
    assert_eq!(out.len(), 1);
    assert_eq!(out[0].name, "a");

    let out = aggregate(&records, Some("zombie"));
    assert!(out.is_empty());
}

#[test]
fn aggregate_filter_applies_before_grouping() {
    // The same name in two statuses: only the filtered-in record counts.
    let records = vec![
        rec(1, None, "a", 100, 10, ProcessStatus::Running),
        rec(2, None, "a", 50, 5, ProcessStatus::Sleeping),
    ];
    let out = aggregate(&records, Some("sleep"));
    assert_eq!(out.len(), 1);
    assert_eq!(out[0], agg("a", 50, 5, 2, ProcessStatus::Sleeping));
}

#[test]
fn status_labels() {
    assert_eq!(status_label(ProcessStatus::Running), "Running");
    assert_eq!(status_label(ProcessStatus::Sleeping), "Sleeping");
    assert_eq!(status_label(ProcessStatus::Stopped), "Stopped");
    assert_eq!(status_label(ProcessStatus::Other), "Other");
}

#[test]
fn contains_ci_finds_substrings_in_any_case() {
    assert!(contains_ci("Sleeping", "EEP"));
    assert!(contains_ci("Sleeping", ""));
    assert!(contains_ci("RUNNING", "running"));
    assert!(!contains_ci("Running", "stop"));
    assert!(!contains_ci("", "x"));
}

#[test]
fn sort_by_memory_descending_by_default() {
    let rows = vec![
        agg("small", 10, 0, 3, ProcessStatus::Running),
        agg("big", 300, 0, 1, ProcessStatus::Running),
        agg("mid", 200, 0, 2, ProcessStatus::Running),
    ];
    let out = sort(rows, SortKey::Memory, false);
    let names: Vec<&str> = out.iter().map(|a| a.name.as_str()).collect();
    assert_eq!(names, vec!["big", "mid", "small"]);
}

#[test]
fn sort_by_cpu_ascending() {
    let rows = vec![
        agg("hot", 0, 900, 1, ProcessStatus::Running),
        agg("cold", 0, 10, 2, ProcessStatus::Running),
        agg("warm", 0, 500, 3, ProcessStatus::Running),
    ];
    let out = sort(rows, SortKey::Cpu, true);
    let names: Vec<&str> = out.iter().map(|a| a.name.as_str()).collect();
    assert_eq!(names, vec!["cold", "warm", "hot"]);
}

#[test]
fn sort_flip_reverses_without_ties() {
    let rows = vec![
        agg("a", 5, 0, 1, ProcessStatus::Running),
        agg("b", 50, 0, 2, ProcessStatus::Running),
        agg("c", 500, 0, 3, ProcessStatus::Running),
        agg("d", 5000, 0, 4, ProcessStatus::Running),
    ];
    let desc = sort(rows.clone(), SortKey::Memory, false);
    let asc = sort(rows, SortKey::Memory, true);
    let mut reversed = desc.clone();
    reversed.reverse();
    assert_eq!(asc, reversed);
}

#[test]
fn sort_ties_break_by_pid_ascending_whatever_the_flag() {
    let rows = vec![
        agg("x", 100, 0, 9, ProcessStatus::Running),
        agg("y", 100, 0, 2, ProcessStatus::Running),
        agg("z", 100, 0, 5, ProcessStatus::Running),
    ];
    let desc = sort(rows.clone(), SortKey::Memory, false);
    let pids: Vec<u32> = desc.iter().map(|a| a.representative_pid).collect();
    assert_eq!(pids, vec![2, 5, 9]);

    let asc = sort(rows, SortKey::Memory, true);
    let pids: Vec<u32> = asc.iter().map(|a| a.representative_pid).collect();
    assert_eq!(pids, vec![2, 5, 9]);
}

#[test]
fn check_reports_cpu_violation_with_reference_thresholds() {
    // 90 % CPU and 2 GB of memory; one record at 95 % CPU.
    let thresholds = AlertThresholds::new(9000, 2_000_000_000);
    let records = vec![
        rec(1, None, "calm", 1_000, 100, ProcessStatus::Running),
        rec(2, None, "spinner", 2_000, 9500, ProcessStatus::Running),
    ];
    let alert = check(&records, &thresholds).expect("alert expected");
    assert_eq!(alert.pid, 2);
    assert_eq!(alert.name, "spinner");
    assert_eq!(alert.cpu_centi_percent, 9500);
    assert_eq!(alert.memory_bytes, 2_000);
}

#[test]
fn check_returns_none_when_no_record_exceeds() {
    let thresholds = AlertThresholds::new(9000, 2_000_000_000);
    let records = vec![
        rec(1, None, "calm", 1_000, 100, ProcessStatus::Running),
        rec(2, None, "quiet", 2_000, 8999, ProcessStatus::Running),
    ];
    assert!(check(&records, &thresholds).is_none());
}

#[test]
fn check_reports_the_first_violation_in_input_order() {
    let thresholds = AlertThresholds::new(1000, 1_000_000);
    let records = vec![
        rec(1, None, "fine", 10, 10, ProcessStatus::Running),
        rec(2, None, "first", 10, 5000, ProcessStatus::Running),
        rec(3, None, "second", 2_000_000, 10, ProcessStatus::Running),
    ];
    let alert = check(&records, &thresholds).expect("alert expected");
    assert_eq!(alert.pid, 2);
}

#[test]
fn check_memory_violation_alone_is_enough() {
    let thresholds = AlertThresholds::new(9000, 1_000);
    let records = vec![rec(4, None, "fat", 2_000, 0, ProcessStatus::Sleeping)];
    let alert = check(&records, &thresholds).expect("alert expected");
    assert_eq!(alert.pid, 4);
    assert_eq!(alert.memory_bytes, 2_000);
}

#[test]
fn check_thresholds_are_strict_bounds() {
    // Exactly at a bound is no violation.
    let thresholds = AlertThresholds::new(9000, 1_000);
    let records = vec![rec(1, None, "edge", 1_000, 9000, ProcessStatus::Running)];
    assert!(check(&records, &thresholds).is_none());
}

#[test]
fn default_thresholds_are_90_percent_and_2_gib() {
    let t = AlertThresholds::default();
    assert_eq!(t.cpu_centi_percent, 9000);
    assert_eq!(t.memory_bytes, 2 * 1024 * 1024 * 1024);
}

#[test]
fn build_tree_files_children_under_parents_in_order() {
    let records = vec![
        rec(1, None, "init", 10, 0, ProcessStatus::Running),
        rec(2, Some(1), "svc", 10, 0, ProcessStatus::Running),
        rec(3, Some(1), "shell", 10, 0, ProcessStatus::Running),
        rec(4, Some(2), "worker", 10, 0, ProcessStatus::Running),
    ];
    let tree = build_tree(&records);
    assert_eq!(tree.children_of(0).expect("root bucket"), &vec![1]);
    assert_eq!(tree.children_of(1).expect("bucket 1"), &vec![2, 3]);
    assert_eq!(tree.children_of(2).expect("bucket 2"), &vec![4]);
    assert!(tree.children_of(3).is_none());
}

#[test]
fn build_tree_each_pid_appears_in_exactly_one_list() {
    let records = vec![
        rec(1, None, "a", 10, 0, ProcessStatus::Running),
        rec(2, Some(1), "b", 10, 0, ProcessStatus::Running),
        rec(3, Some(99), "c", 10, 0, ProcessStatus::Running),
        rec(4, None, "d", 10, 0, ProcessStatus::Running),
    ];
    let tree = build_tree(&records);
    for r in &records {
        let mut appearances = 0;
        for bucket in &tree.buckets {
            appearances += bucket.children.iter().filter(|&&p| p == r.pid).count();
        }
        assert_eq!(appearances, 1, "pid {} filed once", r.pid);
    }
    // Parentless records are under key 0; a named but absent parent keeps
    // its own bucket, as the snapshot reported it.
    assert_eq!(tree.children_of(0).expect("root bucket"), &vec![1, 4]);
    assert_eq!(tree.children_of(99).expect("bucket 99"), &vec![3]);
}

#[test]
fn build_tree_of_empty_snapshot_has_no_buckets() {
    let records: Vec<ProcessRecord> = vec![];
    let tree = build_tree(&records);
    assert!(tree.buckets.is_empty());
    assert!(tree.children_of(0).is_none());
}

#[test]
fn count_statuses_tallies_and_ignores_other() {
    let records = vec![
        rec(1, None, "a", 1, 0, ProcessStatus::Running),
        rec(2, None, "b", 1, 0, ProcessStatus::Sleeping),
        rec(3, None, "c", 1, 0, ProcessStatus::Sleeping),
        rec(4, None, "d", 1, 0, ProcessStatus::Stopped),
        rec(5, None, "e", 1, 0, ProcessStatus::Other),
    ];
    let c = count_statuses(&records);
    assert_eq!(c.running, 1);
    assert_eq!(c.sleeping, 2);
    assert_eq!(c.stopped, 1);
}

#[test]
fn snapshot_lookup_finds_first_match_and_misses_cleanly() {
    let snapshot = Snapshot::new(vec![
        rec(10, None, "a", 1, 0, ProcessStatus::Running),
        rec(20, None, "b", 2, 0, ProcessStatus::Sleeping),
    ]);
    assert_eq!(snapshot.len(), 2);
    let found = snapshot.lookup(20).expect("pid 20 present");
    assert_eq!(found.name, "b");
    assert!(snapshot.lookup(30).is_none());
    assert!(snapshot.contains_pid(10));
    assert!(!snapshot.contains_pid(30));
}
