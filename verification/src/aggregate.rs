//! Grouping of snapshot records by process name: one summary row per
//! distinct name, carrying exact memory and CPU sums and the first-seen
//! (representative) pid and status.

use vstd::prelude::*;

use crate::record::{ProcessRecord, ProcessStatus};
use crate::text::{contains_ci, contains_seq, lower_seq};

verus! {

/// One summary row per process name.
///
/// The representative fields are locked to the first qualifying record seen
/// for the name and never change when later records are folded in.
#[derive(Clone, Debug, PartialEq)]
pub struct NameAggregate {
    pub name: String,
    pub total_memory_bytes: u64,
    pub total_cpu_centi_percent: u64,
    pub representative_pid: u32,
    pub representative_status: ProcessStatus,
}

/// The display label of a scheduling state.
pub open spec fn status_label_chars(s: ProcessStatus) -> Seq<char> {
    match s {
        ProcessStatus::Running => "Running"@,
        ProcessStatus::Sleeping => "Sleeping"@,
        ProcessStatus::Stopped => "Stopped"@,
        ProcessStatus::Other => "Other"@,
    }
}

/// The display label of a scheduling state.
pub fn status_label(s: ProcessStatus) -> (r: &'static str)
    ensures
        r@ == status_label_chars(s),
{
    match s {
        ProcessStatus::Running => "Running",
        ProcessStatus::Sleeping => "Sleeping",
        ProcessStatus::Stopped => "Stopped",
        ProcessStatus::Other => "Other",
    }
}

/// Whether a record takes part in an aggregation pass: records with no
/// resident memory are dropped, and when a filter is given the status label
/// must contain it, ASCII case-insensitively.
pub open spec fn included(r: ProcessRecord, filter: Option<Seq<char>>) -> bool {
    &&& r.memory_bytes > 0
    &&& match filter {
        Some(f) => contains_seq(lower_seq(status_label_chars(r.status)), lower_seq(f)),
        None => true,
    }
}

/// Whether some row of `aggs` carries the given name.
pub open spec fn has_name(aggs: Seq<NameAggregate>, name: Seq<char>) -> bool {
    exists|i: int| 0 <= i < aggs.len() && aggs[i].name@ == name
}

/// The index of the row of `aggs` carrying the given name; meaningful only
/// when names are distinct and `has_name` holds.
pub open spec fn index_of_name(aggs: Seq<NameAggregate>, name: Seq<char>) -> int {
    choose|i: int| 0 <= i < aggs.len() && aggs[i].name@ == name
}

/// A fresh summary row seeded from one record.
pub open spec fn new_aggregate(r: ProcessRecord) -> NameAggregate {
    NameAggregate {
        name: r.name,
        total_memory_bytes: r.memory_bytes,
        total_cpu_centi_percent: r.cpu_centi_percent,
        representative_pid: r.pid,
        representative_status: r.status,
    }
}

/// A summary row with one more record folded into its sums; the
/// representative fields stay as they are.
pub open spec fn fold_record(a: NameAggregate, r: ProcessRecord) -> NameAggregate {
    NameAggregate {
        name: a.name,
        total_memory_bytes: (a.total_memory_bytes + r.memory_bytes) as u64,
        total_cpu_centi_percent: (a.total_cpu_centi_percent + r.cpu_centi_percent) as u64,
        representative_pid: a.representative_pid,
        representative_status: a.representative_status,
    }
}

/// One aggregation step: fold the record `r` into the rows `aggs`.
pub open spec fn agg_step(
    aggs: Seq<NameAggregate>,
    r: ProcessRecord,
    filter: Option<Seq<char>>,
) -> Seq<NameAggregate> {
    if !included(r, filter) {
        aggs
    } else if has_name(aggs, r.name@) {
        let i = index_of_name(aggs, r.name@);
        aggs.update(i, fold_record(aggs[i], r))
    } else {
        aggs.push(new_aggregate(r))
    }
}

/// The aggregation of a record sequence, processed in order.
pub open spec fn aggregate_spec(
    records: Seq<ProcessRecord>,
    filter: Option<Seq<char>>,
) -> Seq<NameAggregate>
    decreases records.len(),
{
    if records.len() == 0 {
        Seq::empty()
    } else {
        agg_step(aggregate_spec(records.drop_last(), filter), records.last(), filter)
    }
}

/// Sum of `memory_bytes` over a record sequence.
pub open spec fn sum_memory(records: Seq<ProcessRecord>) -> int
    decreases records.len(),
{
    if records.len() == 0 {
        0
    } else {
        sum_memory(records.drop_last()) + records.last().memory_bytes
    }
}

/// Sum of `cpu_centi_percent` over a record sequence.
pub open spec fn sum_cpu(records: Seq<ProcessRecord>) -> int
    decreases records.len(),
{
    if records.len() == 0 {
        0
    } else {
        sum_cpu(records.drop_last()) + records.last().cpu_centi_percent
    }
}

/// The view of an optional filter string.
pub open spec fn filter_view(filter: Option<&str>) -> Option<Seq<char>> {
    match filter {
        Some(f) => Some(f@),
        None => None,
    }
}

/// Prefix sums never exceed the sum over the whole sequence.
proof fn lemma_sum_take_le(records: Seq<ProcessRecord>, i: int)
    requires
        0 <= i <= records.len(),
    ensures
        sum_memory(records.take(i)) <= sum_memory(records),
        sum_cpu(records.take(i)) <= sum_cpu(records),
    decreases records.len() - i,
{
    if i == records.len() {
        assert(records.take(i) =~= records);
    } else {
        assert(records.take(i + 1).drop_last() =~= records.take(i));
        assert(records.take(i + 1).last() == records[i]);
        lemma_sum_take_le(records, i + 1);
    }
}

/// The rows of an aggregation have pairwise distinct names.
pub open spec fn names_distinct(aggs: Seq<NameAggregate>) -> bool {
    forall|i: int, j: int| 0 <= i < j < aggs.len() ==> aggs[i].name@ != aggs[j].name@
}

/// Every total in an aggregation of a prefix is bounded by that prefix's sum.
spec fn totals_bounded(aggs: Seq<NameAggregate>, mem_bound: int, cpu_bound: int) -> bool {
    forall|i: int|
        0 <= i < aggs.len() ==> (#[trigger] aggs[i]).total_memory_bytes <= mem_bound
            && aggs[i].total_cpu_centi_percent <= cpu_bound
}

/// Sums of unsigned fields are non-negative.
proof fn lemma_sum_nonneg(records: Seq<ProcessRecord>)
    ensures
        sum_memory(records) >= 0,
        sum_cpu(records) >= 0,
    decreases records.len(),
{
    if records.len() > 0 {
        lemma_sum_nonneg(records.drop_last());
    }
}

/// Aggregation keeps names distinct and totals bounded by the input's sums,
/// as long as those sums fit the machine word.
proof fn lemma_aggregate_invariants(records: Seq<ProcessRecord>, filter: Option<Seq<char>>)
    requires
        sum_memory(records) <= u64::MAX,
        sum_cpu(records) <= u64::MAX,
    ensures
        names_distinct(aggregate_spec(records, filter)),
        totals_bounded(aggregate_spec(records, filter), sum_memory(records), sum_cpu(records)),
    decreases records.len(),
{
    if records.len() > 0 {
        let prev = aggregate_spec(records.drop_last(), filter);
        let r = records.last();
        lemma_sum_nonneg(records.drop_last());
        lemma_aggregate_invariants(records.drop_last(), filter);
        if included(r, filter) && has_name(prev, r.name@) {
            let i = index_of_name(prev, r.name@);
            assert(0 <= i < prev.len() && prev[i].name@ == r.name@);
            assert(prev[i].total_memory_bytes + r.memory_bytes <= sum_memory(records));
            assert(prev[i].total_cpu_centi_percent + r.cpu_centi_percent <= sum_cpu(records));
        }
    }
}

/// Sum of `memory_bytes` over the qualifying records carrying one name.
pub open spec fn sum_memory_of_name(
    records: Seq<ProcessRecord>,
    filter: Option<Seq<char>>,
    name: Seq<char>,
) -> int
    decreases records.len(),
{
    if records.len() == 0 {
        0
    } else {
        sum_memory_of_name(records.drop_last(), filter, name) + if included(
            records.last(),
            filter,
        ) && records.last().name@ == name {
            records.last().memory_bytes as int
        } else {
            0
        }
    }
}

/// Sum of `cpu_centi_percent` over the qualifying records carrying one name.
pub open spec fn sum_cpu_of_name(
    records: Seq<ProcessRecord>,
    filter: Option<Seq<char>>,
    name: Seq<char>,
) -> int
    decreases records.len(),
{
    if records.len() == 0 {
        0
    } else {
        sum_cpu_of_name(records.drop_last(), filter, name) + if included(records.last(), filter)
            && records.last().name@ == name {
            records.last().cpu_centi_percent as int
        } else {
            0
        }
    }
}

/// A name no qualifying record carries sums to zero.
proof fn lemma_sum_of_name_zero(
    records: Seq<ProcessRecord>,
    filter: Option<Seq<char>>,
    name: Seq<char>,
)
    requires
        forall|i: int|
            0 <= i < records.len() ==> !(included(#[trigger] records[i], filter)
                && records[i].name@ == name),
    ensures
        sum_memory_of_name(records, filter, name) == 0,
        sum_cpu_of_name(records, filter, name) == 0,
    decreases records.len(),
{
    if records.len() > 0 {
        assert(records.drop_last() =~= records.take(records.len() - 1));
        lemma_sum_of_name_zero(records.drop_last(), filter, name);
    }
}

/// Whether some qualifying record of `records` supplied `row`'s
/// representative pid and status, under the row's own name.
pub open spec fn row_has_included_witness(
    records: Seq<ProcessRecord>,
    filter: Option<Seq<char>>,
    row: NameAggregate,
) -> bool {
    exists|i: int|
        {
            &&& 0 <= i < records.len()
            &&& included(#[trigger] records[i], filter)
            &&& records[i].pid == row.representative_pid
            &&& records[i].status == row.representative_status
            &&& records[i].name@ == row.name@
        }
}

/// Every summary row's representative pid and status come from a qualifying
/// record of the row's own name. In particular no record with
/// `memory_bytes == 0` is ever the representative.
pub proof fn lemma_representative_is_included(
    records: Seq<ProcessRecord>,
    filter: Option<Seq<char>>,
)
    ensures
        forall|k: int|
            0 <= k < aggregate_spec(records, filter).len() ==> row_has_included_witness(
                records,
                filter,
                #[trigger] aggregate_spec(records, filter)[k],
            ),
    decreases records.len(),
{
    if records.len() > 0 {
        let out = aggregate_spec(records, filter);
        let prev = aggregate_spec(records.drop_last(), filter);
        let r = records.last();
        lemma_representative_is_included(records.drop_last(), filter);
        assert forall|k: int| 0 <= k < out.len() implies row_has_included_witness(
            records,
            filter,
            #[trigger] out[k],
        ) by {
            if k < prev.len() {
                assert(row_has_included_witness(records.drop_last(), filter, prev[k]));
                let i = choose|i: int|
                    {
                        &&& 0 <= i < records.drop_last().len()
                        &&& included(#[trigger] records.drop_last()[i], filter)
                        &&& records.drop_last()[i].pid == prev[k].representative_pid
                        &&& records.drop_last()[i].status == prev[k].representative_status
                        &&& records.drop_last()[i].name@ == prev[k].name@
                    };
                assert(records.drop_last()[i] == records[i]);
                assert(out[k].representative_pid == prev[k].representative_pid
                    && out[k].representative_status == prev[k].representative_status && out[k].name@
                    == prev[k].name@);
            } else {
                assert(included(r, filter) && out[k] == new_aggregate(r));
                assert(records[records.len() - 1] == r);
            }
        }
    }
}

/// For every name a qualifying record carries, the aggregation has exactly
/// one row of that name, and its totals are the exact sums of
/// `memory_bytes` and `cpu_centi_percent` over the qualifying records of
/// that name.
pub proof fn lemma_aggregate_totals_exact(
    records: Seq<ProcessRecord>,
    filter: Option<Seq<char>>,
)
    requires
        sum_memory(records) <= u64::MAX,
        sum_cpu(records) <= u64::MAX,
    ensures
        forall|i: int|
            0 <= i < records.len() && included(#[trigger] records[i], filter) ==> has_name(
                aggregate_spec(records, filter),
                records[i].name@,
            ),
        forall|k: int|
            0 <= k < aggregate_spec(records, filter).len() ==> (#[trigger] aggregate_spec(
                records,
                filter,
            )[k]).total_memory_bytes == sum_memory_of_name(
                records,
                filter,
                aggregate_spec(records, filter)[k].name@,
            ),
        forall|k: int|
            0 <= k < aggregate_spec(records, filter).len() ==> (#[trigger] aggregate_spec(
                records,
                filter,
            )[k]).total_cpu_centi_percent == sum_cpu_of_name(
                records,
                filter,
                aggregate_spec(records, filter)[k].name@,
            ),
    decreases records.len(),
{
    if records.len() > 0 {
        let out = aggregate_spec(records, filter);
        let prev = aggregate_spec(records.drop_last(), filter);
        let r = records.last();
        lemma_sum_nonneg(records.drop_last());
        lemma_aggregate_totals_exact(records.drop_last(), filter);
        lemma_aggregate_invariants(records.drop_last(), filter);
        assert(forall|i: int|
            0 <= i < records.len() - 1 ==> records.drop_last()[i] == #[trigger] records[i]);
        if included(r, filter) {
            if has_name(prev, r.name@) {
                let i0 = index_of_name(prev, r.name@);
                assert(0 <= i0 < prev.len() && prev[i0].name@ == r.name@);
                assert forall|k: int| 0 <= k < out.len() implies
                    (#[trigger] out[k]).total_memory_bytes == sum_memory_of_name(
                    records,
                    filter,
                    out[k].name@,
                ) && out[k].total_cpu_centi_percent == sum_cpu_of_name(
                    records,
                    filter,
                    out[k].name@,
                ) by {
                    if k == i0 {
                        assert(prev[i0].total_memory_bytes + r.memory_bytes <= u64::MAX);
                        assert(prev[i0].total_cpu_centi_percent + r.cpu_centi_percent
                            <= u64::MAX);
                    } else {
                        assert(out[k] == prev[k]);
                        assert(out[k].name@ != r.name@);
                    }
                }
            } else {
                lemma_sum_of_name_zero(records.drop_last(), filter, r.name@);
                assert forall|k: int| 0 <= k < out.len() implies
                    (#[trigger] out[k]).total_memory_bytes == sum_memory_of_name(
                    records,
                    filter,
                    out[k].name@,
                ) && out[k].total_cpu_centi_percent == sum_cpu_of_name(
                    records,
                    filter,
                    out[k].name@,
                ) by {
                    if k < prev.len() {
                        assert(out[k] == prev[k]);
                        assert(!has_name(prev, r.name@));
                        assert(out[k].name@ != r.name@);
                    } else {
                        assert(out[k] == new_aggregate(r));
                    }
                }
            }
        }
        assert forall|i: int|
            0 <= i < records.len() && included(#[trigger] records[i], filter) implies has_name(
            out,
            records[i].name@,
        ) by {
            if i < records.len() - 1 {
                assert(included(records.drop_last()[i], filter));
                assert(has_name(prev, records[i].name@));
                let j = choose|j: int| 0 <= j < prev.len() && prev[j].name@ == records[i].name@;
                if included(r, filter) {
                    if has_name(prev, r.name@) {
                        assert(out[j].name@ == prev[j].name@);
                    } else {
                        assert(out[j] == prev[j]);
                    }
                } else {
                    assert(out == prev);
                }
                assert(0 <= j < out.len() && out[j].name@ == records[i].name@);
            } else {
                assert(records[i] == r);
                if has_name(prev, r.name@) {
                    let i0 = index_of_name(prev, r.name@);
                    assert(0 <= i0 < out.len() && out[i0].name@ == r.name@);
                } else {
                    assert(out[prev.len() as int].name@ == r.name@);
                }
            }
        }
    }
}

/// Groups the records by name, in first-seen order, skipping records that
/// the filter excludes.
///
/// The two `requires` bounds only rule out machine overflow of the running
/// sums; they hold of any real process table.
pub fn aggregate(records: &Vec<ProcessRecord>, filter: Option<&str>) -> (aggs: Vec<
    NameAggregate,
>)
    requires
        sum_memory(records@) <= u64::MAX,
        sum_cpu(records@) <= u64::MAX,
    ensures
        aggs@ == aggregate_spec(records@, filter_view(filter)),
        names_distinct(aggs@),
{
    let ghost gfilter = filter_view(filter);
    let n = records.len();
    let mut aggs: Vec<NameAggregate> = Vec::new();
    let mut i: usize = 0;
    proof {
        assert(records@.take(0int) =~= Seq::<ProcessRecord>::empty());
    }
    while i < n
        invariant
            n == records@.len(),
            0 <= i <= n,
            sum_memory(records@) <= u64::MAX,
            sum_cpu(records@) <= u64::MAX,
            aggs@ == aggregate_spec(records@.take(i as int), gfilter),
            gfilter == filter_view(filter),
        decreases n - i,
    {
        let ghost prev = aggs@;
        let ghost prefix = records@.take(i as int);
        proof {
            lemma_sum_take_le(records@, i as int);
            lemma_aggregate_invariants(prefix, gfilter);
            assert(records@.take(i + 1).drop_last() =~= prefix);
            assert(records@.take(i + 1).last() == records@[i as int]);
        }
        let r = &records[i];
        let passes = r.memory_bytes > 0 && (match filter {
            Some(f) => contains_ci(status_label(r.status), f),
            None => true,
        });
        if passes {
            let mut k: usize = 0;
            let len = aggs.len();
            let mut found = false;
            while !found && k < len
                invariant
                    len == aggs@.len(),
                    0 <= k <= len,
                    found ==> k < len && aggs@[k as int].name@ == r.name@,
                    !found ==> forall|m: int| 0 <= m < k ==> aggs@[m].name@ != r.name@,
                decreases len - k + if found {
                    0int
                } else {
                    1int
                },
            {
                if aggs[k].name == r.name {
                    found = true;
                } else {
                    k = k + 1;
                }
            }
            if found {
                proof {
                    assert(has_name(prev, r.name@));
                    let i0 = index_of_name(prev, r.name@);
                    assert(0 <= i0 < prev.len() && prev[i0].name@ == r.name@);
                    assert(i0 == k as int);
                    lemma_sum_take_le(records@, i + 1);
                    assert(sum_memory(records@.take(i + 1)) == sum_memory(prefix)
                        + records@[i as int].memory_bytes);
                    assert(sum_cpu(records@.take(i + 1)) == sum_cpu(prefix)
                        + records@[i as int].cpu_centi_percent);
                }
                let new_mem = aggs[k].total_memory_bytes + r.memory_bytes;
                let new_cpu = aggs[k].total_cpu_centi_percent + r.cpu_centi_percent;
                aggs[k].total_memory_bytes = new_mem;
                aggs[k].total_cpu_centi_percent = new_cpu;
                proof {
                    assert(aggs@ =~= agg_step(prev, records@[i as int], gfilter));
                }
            } else {
                proof {
                    assert(!has_name(prev, r.name@));
                }
                aggs.push(
                    NameAggregate {
                        name: r.name.clone(),
                        total_memory_bytes: r.memory_bytes,
                        total_cpu_centi_percent: r.cpu_centi_percent,
                        representative_pid: r.pid,
                        representative_status: r.status,
                    },
                );
                proof {
                    assert(aggs@ =~= agg_step(prev, records@[i as int], gfilter));
                }
            }
        } else {
            proof {
                assert(!included(records@[i as int], gfilter));
            }
        }
        proof {
            assert(aggregate_spec(records@.take(i + 1), gfilter) == agg_step(
                prev,
                records@[i as int],
                gfilter,
            ));
        }
        i = i + 1;
    }
    proof {
        assert(records@.take(n as int) =~= records@);
        lemma_aggregate_invariants(records@, gfilter);
    }
    aggs
}

} // verus!
