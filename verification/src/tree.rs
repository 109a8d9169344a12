//! The parent/child index for hierarchical display: each record's pid is
//! appended to the bucket of its parent pid, or to the root bucket 0 when
//! it has no resolvable parent. Order within a bucket is the order the
//! operating system returned the records in.

use vstd::prelude::*;

use crate::record::ProcessRecord;

verus! {

/// One parent pid together with its children, in snapshot order.
#[derive(Clone, Debug, PartialEq)]
pub struct TreeBucket {
    pub parent_pid: u32,
    pub children: Vec<u32>,
}

/// A parent-to-children index over one snapshot.
#[derive(Clone, Debug, PartialEq)]
pub struct ProcessTree {
    pub buckets: Vec<TreeBucket>,
}

/// The bucket a record files under: its parent pid, or 0 at the root.
pub open spec fn parent_key(r: ProcessRecord) -> u32 {
    match r.parent_pid {
        Some(p) => p,
        None => 0,
    }
}

/// The pids of the records filing under one key, in order.
pub open spec fn pids_with_key(records: Seq<ProcessRecord>, key: u32) -> Seq<u32>
    decreases records.len(),
{
    if records.len() == 0 {
        Seq::empty()
    } else {
        let prefix = pids_with_key(records.drop_last(), key);
        if parent_key(records.last()) == key {
            prefix.push(records.last().pid)
        } else {
            prefix
        }
    }
}

/// Whether some bucket carries the given key.
pub open spec fn has_key(buckets: Seq<TreeBucket>, key: u32) -> bool {
    exists|k: int| 0 <= k < buckets.len() && buckets[k].parent_pid == key
}

/// The full characterization of a tree over its snapshot: bucket keys are
/// pairwise distinct, every record's key has a bucket, every bucket's key
/// belongs to some record, and each bucket holds exactly the pids filing
/// under its key, in order.
pub open spec fn tree_indexes(buckets: Seq<TreeBucket>, records: Seq<ProcessRecord>) -> bool {
    &&& forall|k1: int, k2: int|
        0 <= k1 < k2 < buckets.len() ==> buckets[k1].parent_pid != buckets[k2].parent_pid
    &&& forall|i: int|
        0 <= i < records.len() ==> has_key(buckets, parent_key(#[trigger] records[i]))
    &&& forall|k: int|
        0 <= k < buckets.len() ==> exists|i: int|
            0 <= i < records.len() && parent_key(#[trigger] records[i]) == (
            #[trigger] buckets[k]).parent_pid
    &&& forall|k: int|
        0 <= k < buckets.len() ==> (#[trigger] buckets[k]).children@ == pids_with_key(
            records,
            buckets[k].parent_pid,
        )
}

impl ProcessTree {
    /// The children filed under one key, in snapshot order; `None` when no
    /// record filed under it.
    pub fn children_of(&self, key: u32) -> (r: Option<&Vec<u32>>)
        ensures
            match r {
                Some(c) => exists|k: int|
                    0 <= k < self.buckets@.len() && (#[trigger] self.buckets@[k]).parent_pid == key
                        && c == &self.buckets@[k].children,
                None => !has_key(self.buckets@, key),
            },
    {
        let n = self.buckets.len();
        let mut k: usize = 0;
        while k < n
            invariant
                n == self.buckets@.len(),
                0 <= k <= n,
                forall|m: int| 0 <= m < k ==> (#[trigger] self.buckets@[m]).parent_pid != key,
            decreases n - k,
        {
            if self.buckets[k].parent_pid == key {
                return Some(&self.buckets[k].children);
            }
            k = k + 1;
        }
        None
    }
}

/// Builds the parent/child index of a snapshot: each record's pid is filed
/// under its parent pid, or under 0 when it has none, keeping snapshot
/// order within each bucket.
pub fn build_tree(records: &Vec<ProcessRecord>) -> (tree: ProcessTree)
    ensures
        tree_indexes(tree.buckets@, records@),
{
    let n = records.len();
    let mut buckets: Vec<TreeBucket> = Vec::new();
    let mut i: usize = 0;
    proof {
        assert(records@.take(0int) =~= Seq::<ProcessRecord>::empty());
    }
    while i < n
        invariant
            n == records@.len(),
            0 <= i <= n,
            tree_indexes(buckets@, records@.take(i as int)),
        decreases n - i,
    {
        let ghost prev = buckets@;
        let ghost prefix = records@.take(i as int);
        proof {
            assert(records@.take(i + 1).drop_last() =~= prefix);
            assert(records@.take(i + 1).last() == records@[i as int]);
        }
        let r = &records[i];
        let key = match r.parent_pid {
            Some(p) => p,
            None => 0,
        };
        let len = buckets.len();
        let mut k: usize = 0;
        let mut found = false;
        while !found && k < len
            invariant
                len == buckets@.len(),
                0 <= k <= len,
                found ==> k < len && buckets@[k as int].parent_pid == key,
                !found ==> forall|m: int|
                    0 <= m < k ==> (#[trigger] buckets@[m]).parent_pid != key,
            decreases len - k + if found {
                0int
            } else {
                1int
            },
        {
            if buckets[k].parent_pid == key {
                found = true;
            } else {
                k = k + 1;
            }
        }
        if found {
            let mut bucket = buckets.remove(k);
            bucket.children.push(r.pid);
            let ghost gb = bucket;
            buckets.insert(k, bucket);
            proof {
                assert(buckets@ =~= prev.update(k as int, gb));
                assert(gb.parent_pid == key);
                assert(gb.children@ == prev[k as int].children@.push(records@[i as int].pid));
            }
        } else {
            let mut children: Vec<u32> = Vec::new();
            children.push(r.pid);
            buckets.push(TreeBucket { parent_pid: key, children });
        }
        proof {
            let cur = buckets@;
            let full = records@.take(i + 1);
            assert(parent_key(records@[i as int]) == key);
            assert(full.drop_last() == prefix);
            if found {
                assert(forall|m: int|
                    0 <= m < cur.len() ==> (#[trigger] cur[m]).parent_pid == prev[m].parent_pid);
                assert forall|m: int| 0 <= m < cur.len() implies (#[trigger] cur[m]).children@
                    == pids_with_key(full, cur[m].parent_pid) by {
                    let q = cur[m].parent_pid;
                    if m == k as int {
                        assert(q == key);
                        assert(pids_with_key(full, q) == pids_with_key(prefix, q).push(
                            records@[i as int].pid,
                        ));
                        assert(prev[m].children@ == pids_with_key(prefix, q));
                    } else {
                        assert(cur[m] == prev[m]);
                        assert(q != key);
                        assert(pids_with_key(full, q) == pids_with_key(prefix, q));
                    }
                }
                assert forall|ii: int| 0 <= ii < full.len() implies has_key(
                    cur,
                    parent_key(#[trigger] full[ii]),
                ) by {
                    if ii < i {
                        assert(full[ii] == prefix[ii]);
                        assert(has_key(prev, parent_key(prefix[ii])));
                        let m = choose|m: int|
                            0 <= m < prev.len() && prev[m].parent_pid == parent_key(prefix[ii]);
                        assert(cur[m].parent_pid == parent_key(full[ii]));
                    } else {
                        assert(full[ii] == records@[i as int]);
                        assert(cur[k as int].parent_pid == key);
                    }
                }
                assert forall|m: int| 0 <= m < cur.len() implies exists|ii: int|
                    0 <= ii < full.len() && parent_key(#[trigger] full[ii]) == (
                    #[trigger] cur[m]).parent_pid by {
                    let ii = choose|ii: int|
                        0 <= ii < prefix.len() && parent_key(#[trigger] prefix[ii])
                            == prev[m].parent_pid;
                    assert(full[ii] == prefix[ii]);
                }
            } else {
                assert(cur == prev.push(cur.last()));
                assert(cur.last().parent_pid == key);
                assert(cur.last().children@ =~= Seq::<u32>::empty().push(records@[i as int].pid));
                assert(forall|m: int| 0 <= m < prev.len() ==> cur[m] == prev[m]);
                assert forall|m: int| 0 <= m < cur.len() implies (#[trigger] cur[m]).children@
                    == pids_with_key(full, cur[m].parent_pid) by {
                    let q = cur[m].parent_pid;
                    if m < prev.len() {
                        assert(cur[m] == prev[m]);
                        assert(q != key);
                        assert(pids_with_key(full, q) == pids_with_key(prefix, q));
                    } else {
                        assert(q == key);
                        assert(!has_key(prev, key));
                        lemma_pids_with_key_absent(prefix, key, prev);
                        assert(pids_with_key(prefix, key) =~= Seq::<u32>::empty());
                        assert(pids_with_key(full, q) == pids_with_key(prefix, q).push(
                            records@[i as int].pid,
                        ));
                    }
                }
                assert forall|ii: int| 0 <= ii < full.len() implies has_key(
                    cur,
                    parent_key(#[trigger] full[ii]),
                ) by {
                    if ii < i {
                        assert(full[ii] == prefix[ii]);
                        assert(has_key(prev, parent_key(prefix[ii])));
                        let m = choose|m: int|
                            0 <= m < prev.len() && prev[m].parent_pid == parent_key(prefix[ii]);
                        assert(cur[m].parent_pid == parent_key(full[ii]));
                    } else {
                        assert(full[ii] == records@[i as int]);
                        assert(cur[cur.len() - 1].parent_pid == key);
                    }
                }
                assert forall|m: int| 0 <= m < cur.len() implies exists|ii: int|
                    0 <= ii < full.len() && parent_key(#[trigger] full[ii]) == (
                    #[trigger] cur[m]).parent_pid by {
                    if m < prev.len() {
                        let ii = choose|ii: int|
                            0 <= ii < prefix.len() && parent_key(#[trigger] prefix[ii])
                                == prev[m].parent_pid;
                        assert(full[ii] == prefix[ii]);
                    } else {
                        assert(parent_key(full[i as int]) == cur[m].parent_pid);
                    }
                }
            }
        }
        i = i + 1;
    }
    proof {
        assert(records@.take(n as int) =~= records@);
    }
    ProcessTree { buckets }
}

/// How many entries of a pid list equal `pid`.
pub open spec fn count_pid(s: Seq<u32>, pid: u32) -> int
    decreases s.len(),
{
    if s.len() == 0 {
        0
    } else {
        count_pid(s.drop_last(), pid) + if s.last() == pid {
            1int
        } else {
            0int
        }
    }
}

/// Pids are pairwise distinct, as the process table guarantees within one
/// snapshot.
pub open spec fn pids_distinct(records: Seq<ProcessRecord>) -> bool {
    forall|i: int, j: int| 0 <= i < j < records.len() ==> records[i].pid != records[j].pid
}

/// Counting after a push splits off the pushed element.
proof fn lemma_count_pid_push(s: Seq<u32>, x: u32, pid: u32)
    ensures
        count_pid(s.push(x), pid) == count_pid(s, pid) + if x == pid {
            1int
        } else {
            0int
        },
{
    assert(s.push(x).drop_last() =~= s);
    assert(s.push(x).last() == x);
}

/// Under distinct pids, the list of one key holds a record's pid once when
/// the key is the record's own, and not at all otherwise.
proof fn lemma_count_pids_with_key(records: Seq<ProcessRecord>, q: u32, pid: u32, ix: int)
    requires
        pids_distinct(records),
        0 <= ix < records.len(),
        records[ix].pid == pid,
    ensures
        count_pid(pids_with_key(records, q), pid) == if parent_key(records[ix]) == q {
            1int
        } else {
            0int
        },
    decreases records.len(),
{
    let prev = records.drop_last();
    let r = records.last();
    assert(forall|i: int| 0 <= i < records.len() - 1 ==> prev[i] == #[trigger] records[i]);
    if ix == records.len() - 1 {
        lemma_count_pid_of_absent(prev, q, pid);
        if parent_key(r) == q {
            lemma_count_pid_push(pids_with_key(prev, q), r.pid, pid);
        }
    } else {
        lemma_count_pids_with_key(prev, q, pid, ix);
        assert(r.pid != pid);
        if parent_key(r) == q {
            lemma_count_pid_push(pids_with_key(prev, q), r.pid, pid);
        }
    }
}

/// A pid no record carries is counted nowhere.
proof fn lemma_count_pid_of_absent(records: Seq<ProcessRecord>, q: u32, pid: u32)
    requires
        forall|i: int| 0 <= i < records.len() ==> (#[trigger] records[i]).pid != pid,
    ensures
        count_pid(pids_with_key(records, q), pid) == 0,
    decreases records.len(),
{
    if records.len() > 0 {
        let prev = records.drop_last();
        assert(forall|i: int| 0 <= i < records.len() - 1 ==> prev[i] == #[trigger] records[i]);
        lemma_count_pid_of_absent(prev, q, pid);
        if parent_key(records.last()) == q {
            lemma_count_pid_push(pids_with_key(prev, q), records.last().pid, pid);
        }
    }
}

/// Every pid of the snapshot is filed exactly once: once in the bucket of
/// its own parent key — key 0 when it has no resolvable parent — and in no
/// other bucket.
pub proof fn lemma_each_pid_filed_once(
    buckets: Seq<TreeBucket>,
    records: Seq<ProcessRecord>,
    ix: int,
)
    requires
        tree_indexes(buckets, records),
        pids_distinct(records),
        0 <= ix < records.len(),
    ensures
        has_key(buckets, parent_key(records[ix])),
        forall|k: int|
            0 <= k < buckets.len() ==> count_pid(
                (#[trigger] buckets[k]).children@,
                records[ix].pid,
            ) == if buckets[k].parent_pid == parent_key(records[ix]) {
                1int
            } else {
                0int
            },
{
    assert(has_key(buckets, parent_key(records[ix])));
    assert forall|k: int| 0 <= k < buckets.len() implies count_pid(
        (#[trigger] buckets[k]).children@,
        records[ix].pid,
    ) == if buckets[k].parent_pid == parent_key(records[ix]) {
        1int
    } else {
        0int
    } by {
        assert(buckets[k].children@ == pids_with_key(records, buckets[k].parent_pid));
        lemma_count_pids_with_key(records, buckets[k].parent_pid, records[ix].pid, ix);
    }
}

/// A key no bucket carries files no pids, as long as every record's key
/// has a bucket.
proof fn lemma_pids_with_key_absent(
    records: Seq<ProcessRecord>,
    key: u32,
    buckets: Seq<TreeBucket>,
)
    requires
        forall|i: int|
            0 <= i < records.len() ==> has_key(buckets, parent_key(#[trigger] records[i])),
        !has_key(buckets, key),
    ensures
        pids_with_key(records, key).len() == 0,
    decreases records.len(),
{
    if records.len() > 0 {
        assert(forall|i: int|
            0 <= i < records.len() - 1 ==> records.drop_last()[i] == #[trigger] records[i]);
        lemma_pids_with_key_absent(records.drop_last(), key, buckets);
        assert(parent_key(records.last()) != key);
    }
}

} // verus!
