//! Display ordering of summary rows: by total memory or total CPU,
//! descending by default or ascending on request, with equal key values
//! always falling back to the representative pid, ascending.

use vstd::prelude::*;
use vstd::seq_lib::group_to_multiset_ensures;

use crate::aggregate::NameAggregate;

verus! {

broadcast use {group_to_multiset_ensures, vstd::multiset::group_multiset_axioms};


/// The sortable columns.
#[derive(Clone, Copy, Debug, PartialEq, Eq, Structural)]
pub enum SortKey {
    Memory,
    Cpu,
}

/// The primary comparison value of a row under the chosen key.
pub open spec fn key_value(key: SortKey, a: NameAggregate) -> int {
    match key {
        SortKey::Memory => a.total_memory_bytes as int,
        SortKey::Cpu => a.total_cpu_centi_percent as int,
    }
}

/// The display order. With `ascending` false the larger key value comes
/// first; with it true the smaller does. Rows whose key values are equal
/// order by representative pid, ascending, whatever the flag says.
pub open spec fn row_le(key: SortKey, ascending: bool, a: NameAggregate, b: NameAggregate) -> bool {
    if key_value(key, a) == key_value(key, b) {
        a.representative_pid <= b.representative_pid
    } else if ascending {
        key_value(key, a) < key_value(key, b)
    } else {
        key_value(key, a) > key_value(key, b)
    }
}

/// Pairwise sortedness under the display order.
pub open spec fn sorted_rows(key: SortKey, ascending: bool, s: Seq<NameAggregate>) -> bool {
    forall|i: int, j: int| 0 <= i < j < s.len() ==> row_le(key, ascending, s[i], s[j])
}

/// Any two rows compare one way or the other.
pub proof fn lemma_row_le_total(key: SortKey, ascending: bool, a: NameAggregate, b: NameAggregate)
    ensures
        row_le(key, ascending, a, b) || row_le(key, ascending, b, a),
{
}

/// The display order is transitive.
pub proof fn lemma_row_le_trans(
    key: SortKey,
    ascending: bool,
    a: NameAggregate,
    b: NameAggregate,
    c: NameAggregate,
)
    requires
        row_le(key, ascending, a, b),
        row_le(key, ascending, b, c),
    ensures
        row_le(key, ascending, a, c),
{
}

/// The display order comparison.
fn row_le_exec(key: SortKey, ascending: bool, a: &NameAggregate, b: &NameAggregate) -> (r: bool)
    ensures
        r == row_le(key, ascending, *a, *b),
{
    let ka = match key {
        SortKey::Memory => a.total_memory_bytes,
        SortKey::Cpu => a.total_cpu_centi_percent,
    };
    let kb = match key {
        SortKey::Memory => b.total_memory_bytes,
        SortKey::Cpu => b.total_cpu_centi_percent,
    };
    if ka == kb {
        a.representative_pid <= b.representative_pid
    } else if ascending {
        ka < kb
    } else {
        ka > kb
    }
}

/// Inserting an element anywhere in a sequence adds it to the multiset.
proof fn lemma_to_multiset_insert(s: Seq<NameAggregate>, pos: int, x: NameAggregate)
    requires
        0 <= pos <= s.len(),
    ensures
        s.insert(pos, x).to_multiset() =~= s.to_multiset().insert(x),
{
    broadcast use group_to_multiset_ensures;

    let t = s.insert(pos, x);
    assert(t.remove(pos) =~= s);
    assert(t[pos] == x);
    assert(t.to_multiset().remove(x) =~= s.to_multiset());
    assert(t.to_multiset().contains(x));
    assert forall|y: NameAggregate|
        t.to_multiset().count(y) == s.to_multiset().insert(x).count(y) by {
        if y == x {
            assert(t.to_multiset().count(x) > 0);
            assert(t.to_multiset().remove(x).count(x) == t.to_multiset().count(x) - 1);
        } else {
            assert(t.to_multiset().remove(x).count(y) == t.to_multiset().count(y));
        }
    }
}

/// Sorts the rows for display: by the chosen key, descending unless
/// `ascending`, with equal key values ordered by representative pid. The
/// result is a permutation of the input.
pub fn sort(aggs: Vec<NameAggregate>, key: SortKey, ascending: bool) -> (out: Vec<NameAggregate>)
    ensures
        sorted_rows(key, ascending, out@),
        out@.to_multiset() == aggs@.to_multiset(),
        out@.len() == aggs@.len(),
{
    broadcast use group_to_multiset_ensures;

    let ghost orig = aggs@;
    let mut v = aggs;
    let mut i: usize = 1;
    while i < v.len()
        invariant
            i >= 1,
            v@.len() == orig.len(),
            v@.to_multiset() == orig.to_multiset(),
            forall|p: int, q: int|
                0 <= p < q < i && q < v@.len() ==> row_le(key, ascending, v@[p], v@[q]),
        decreases orig.len() - i,
    {
        let ghost before = v@;
        let x = v.remove(i);
        let ghost w = v@;
        proof {
            assert(w =~= before.remove(i as int));
            assert(before.remove(i as int).to_multiset() =~= before.to_multiset().remove(
                before[i as int],
            ));
            assert(w.to_multiset() =~= before.to_multiset().remove(x));
            assert(forall|k: int| 0 <= k < i ==> w[k] == before[k]);
        }
        let mut pos: usize = 0;
        while pos < i && row_le_exec(key, ascending, &v[pos], &x)
            invariant
                0 <= pos <= i,
                i < orig.len(),
                v@ == w,
                w.len() == orig.len() - 1,
                forall|k: int| 0 <= k < pos ==> row_le(key, ascending, w[k], x),
            decreases i - pos,
        {
            pos = pos + 1;
        }
        proof {
            if pos < i {
                lemma_row_le_total(key, ascending, w[pos as int], x);
                assert(row_le(key, ascending, x, w[pos as int]));
            }
        }
        v.insert(pos, x);
        proof {
            assert(v@ == w.insert(pos as int, x));
            lemma_to_multiset_insert(w, pos as int, x);
            assert(before.to_multiset().contains(x)) by {
                assert(before[i as int] == x);
                assert(before.contains(x));
                assert(before.to_multiset().count(x) > 0);
            }
            assert(v@.to_multiset() =~= before.to_multiset());
            assert forall|p: int, q: int|
                0 <= p < q < i + 1 && q < v@.len() implies row_le(key, ascending, v@[p], v@[q]) by {
                let a = v@[p];
                let b = v@[q];
                if p < pos && q < pos {
                    assert(a == w[p] && b == w[q]);
                } else if p < pos && q == pos {
                    assert(a == w[p] && b == x);
                } else if p < pos && q > pos {
                    assert(a == w[p] && b == w[q - 1]);
                    if q - 1 != p {
                        assert(row_le(key, ascending, w[p], w[q - 1]));
                    } else {
                        assert(row_le(key, ascending, w[p], x));
                        assert(row_le(key, ascending, x, w[q - 1]));
                        lemma_row_le_trans(key, ascending, w[p], x, w[q - 1]);
                    }
                } else if p == pos {
                    assert(a == x && b == w[q - 1]);
                    if pos < i {
                        assert(row_le(key, ascending, x, w[pos as int]));
                        if q - 1 == pos {
                        } else {
                            assert(row_le(key, ascending, w[pos as int], w[q - 1]));
                            lemma_row_le_trans(key, ascending, x, w[pos as int], w[q - 1]);
                        }
                    }
                } else {
                    assert(a == w[p - 1] && b == w[q - 1]);
                }
            }
        }
        i = i + 1;
    }
    proof {
        if orig.len() == 0 {
            assert(v@ =~= orig);
        }
    }
    v
}

/// No two rows of a sequence share a key value.
pub open spec fn no_key_ties(key: SortKey, s: Seq<NameAggregate>) -> bool {
    forall|i: int, j: int|
        0 <= i < j < s.len() ==> key_value(key, s[i]) != key_value(key, s[j])
}

/// Two sorted sequences over the same rows are the same sequence, as long
/// as the order tells all the rows apart.
proof fn lemma_sorted_unique(
    key: SortKey,
    ascending: bool,
    s1: Seq<NameAggregate>,
    s2: Seq<NameAggregate>,
)
    requires
        sorted_rows(key, ascending, s1),
        sorted_rows(key, ascending, s2),
        s1.to_multiset() == s2.to_multiset(),
        forall|a: NameAggregate, b: NameAggregate|
            s1.to_multiset().contains(a) && s1.to_multiset().contains(b) && #[trigger] row_le(
                key,
                ascending,
                a,
                b,
            ) && #[trigger] row_le(key, ascending, b, a) ==> a == b,
    ensures
        s1 == s2,
    decreases s1.len(),
{
    broadcast use group_to_multiset_ensures;

    assert(s1.to_multiset().len() == s1.len());
    assert(s2.to_multiset().len() == s2.len());
    if s1.len() == 0 {
        assert(s2.len() == s1.len());
        assert(s1 =~= s2);
    } else {
        assert(s2.len() == s1.len());
        assert(s1.contains(s1[0]));
        assert(s1.to_multiset().count(s1[0]) > 0);
        assert(s2.to_multiset().count(s1[0]) > 0);
        assert(s2.contains(s1[0]));
        let j = choose|j: int| 0 <= j < s2.len() && s2[j] == s1[0];
        assert(s2.contains(s2[0]));
        assert(s2.to_multiset().count(s2[0]) > 0);
        assert(s1.to_multiset().count(s2[0]) > 0);
        assert(s1.contains(s2[0]));
        let k = choose|k: int| 0 <= k < s1.len() && s1[k] == s2[0];
        assert(row_le(key, ascending, s2[0], s1[0])) by {
            if j > 0 {
                assert(row_le(key, ascending, s2[0], s2[j]));
            } else {
                lemma_row_le_total(key, ascending, s2[0], s1[0]);
            }
        }
        assert(row_le(key, ascending, s1[0], s2[0])) by {
            if k > 0 {
                assert(row_le(key, ascending, s1[0], s1[k]));
            } else {
                lemma_row_le_total(key, ascending, s1[0], s2[0]);
            }
        }
        assert(s1.to_multiset().contains(s2[0]));
        assert(s1[0] == s2[0]);
        let t1 = s1.drop_first();
        let t2 = s2.drop_first();
        assert(t1 =~= s1.remove(0));
        assert(t2 =~= s2.remove(0));
        assert(t1.to_multiset() =~= s1.to_multiset().remove(s1[0]));
        assert(t2.to_multiset() =~= s2.to_multiset().remove(s2[0]));
        assert(t1.to_multiset() == t2.to_multiset());
        assert(sorted_rows(key, ascending, t1)) by {
            assert(forall|i: int, j: int|
                0 <= i < j < t1.len() ==> t1[i] == s1[i + 1] && t1[j] == s1[j + 1]);
        }
        assert(sorted_rows(key, ascending, t2)) by {
            assert(forall|i: int, j: int|
                0 <= i < j < t2.len() ==> t2[i] == s2[i + 1] && t2[j] == s2[j + 1]);
        }
        assert forall|a: NameAggregate, b: NameAggregate|
            t1.to_multiset().contains(a) && t1.to_multiset().contains(b) && #[trigger] row_le(
                key,
                ascending,
                a,
                b,
            ) && #[trigger] row_le(key, ascending, b, a) implies a == b by {
            assert(s1.to_multiset().contains(a) && s1.to_multiset().contains(b)) by {
                assert(t1.to_multiset().count(a) > 0);
                assert(t1.to_multiset().count(b) > 0);
                assert(s1.to_multiset().count(a) >= t1.to_multiset().count(a) - if a == s1[0] {
                    1int
                } else {
                    0int
                } + if a == s1[0] {
                    1int
                } else {
                    0int
                });
            }
        }
        lemma_sorted_unique(key, ascending, t1, t2);
        assert(s1 =~= s2) by {
            assert(forall|i: int| 1 <= i < s1.len() ==> s1[i] == t1[i - 1] && s2[i] == t2[i - 1]);
        }
    }
}

/// Flipping `ascending` exactly reverses the sorted sequence whenever no
/// two rows share a key value: a sequence sorted one way and a sequence
/// sorted the other way over the same rows are mirror images.
pub proof fn lemma_flip_reverses(
    key: SortKey,
    s_desc: Seq<NameAggregate>,
    s_asc: Seq<NameAggregate>,
)
    requires
        sorted_rows(key, false, s_desc),
        sorted_rows(key, true, s_asc),
        s_desc.to_multiset() == s_asc.to_multiset(),
        no_key_ties(key, s_desc),
    ensures
        s_asc == s_desc.reverse(),
{
    broadcast use group_to_multiset_ensures;

    let r = s_desc.reverse();
    let n = s_desc.len();
    assert(sorted_rows(key, true, r)) by {
        assert forall|i: int, j: int| 0 <= i < j < r.len() implies row_le(key, true, r[i], r[j]) by {
            let p = n - 1 - j;
            let q = n - 1 - i;
            assert(r[i] == s_desc[q] && r[j] == s_desc[p]);
            assert(row_le(key, false, s_desc[p], s_desc[q]));
            assert(key_value(key, s_desc[p]) != key_value(key, s_desc[q]));
        }
    }
    s_desc.lemma_reverse_to_multiset();
    assert forall|a: NameAggregate, b: NameAggregate|
        r.to_multiset().contains(a) && r.to_multiset().contains(b) && #[trigger] row_le(
            key,
            true,
            a,
            b,
        ) && #[trigger] row_le(key, true, b, a) implies a == b by {
        assert(r.to_multiset().count(a) > 0);
        assert(r.to_multiset().count(b) > 0);
        assert(r.contains(a));
        assert(r.contains(b));
        let ia = choose|ia: int| 0 <= ia < r.len() && r[ia] == a;
        let ib = choose|ib: int| 0 <= ib < r.len() && r[ib] == b;
        assert(r[ia] == s_desc[n - 1 - ia] && r[ib] == s_desc[n - 1 - ib]);
        if ia != ib {
            assert(key_value(key, a) != key_value(key, b));
        }
    }
    lemma_sorted_unique(key, true, r, s_asc);
}

/// In any sequence sorted under the display order, rows with equal key
/// values stand in ascending order of representative pid, whatever the key
/// and whatever the flag.
pub proof fn lemma_ties_order_by_pid(key: SortKey, ascending: bool, s: Seq<NameAggregate>)
    requires
        sorted_rows(key, ascending, s),
    ensures
        forall|i: int, j: int|
            0 <= i < j < s.len() && key_value(key, #[trigger] s[i]) == key_value(
                key,
                #[trigger] s[j],
            ) ==> s[i].representative_pid <= s[j].representative_pid,
{
    assert forall|i: int, j: int|
        0 <= i < j < s.len() && key_value(key, #[trigger] s[i]) == key_value(
            key,
            #[trigger] s[j],
        ) implies s[i].representative_pid <= s[j].representative_pid by {
        assert(row_le(key, ascending, s[i], s[j]));
    }
}

} // verus!
