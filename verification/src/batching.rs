//! Splitting the staged changes into runs of consecutive slots, each of which is
//! written to the GPU buffer with a single copy.
use crate::terrain::Change;
use vstd::prelude::*;

verus! {

/// `runs` splits positions `0..n` of `changes` into maximal blocks in which each
/// slot is one more than the previous one. A run is `(first position, length)`.
#[verifier::opaque]
pub open spec fn is_run_split(changes: Seq<Change>, runs: Seq<(usize, usize)>) -> bool {
    let n = changes.len();
    &&& n == 0 ==> runs.len() == 0
    &&& n > 0 ==> runs.len() >= 1 && runs[0].0 == 0 && runs.last().0 + runs.last().1 == n
    &&& forall|k: int| 0 <= k < runs.len() ==> #[trigger] runs[k].1 >= 1
    &&& forall|k: int| 0 <= k < runs.len() - 1 ==> #[trigger] runs[k + 1].0 == runs[k].0 + runs[k].1
    &&& forall|k: int, p: int|
        #![trigger runs[k], changes[p]]
        0 <= k < runs.len() && runs[k].0 <= p && p + 1 < runs[k].0 + runs[k].1 ==> changes[p + 1].0
            == changes[p].0 + 1
    &&& forall|k: int| 1 <= k < runs.len() ==> changes[#[trigger] runs[k].0 as int].0 != changes[runs[k].0 - 1].0 + 1
}

/// Splits the (slot-sorted) staged changes into runs of consecutive slots.
pub fn split_runs(changes: &Vec<Change>) -> (runs: Vec<(usize, usize)>)
    requires
        forall|p: int| 0 <= p < changes.len() - 1 ==> #[trigger] changes[p].0 < usize::MAX,
    ensures
        is_run_split(changes@, runs@),
{
    let mut runs: Vec<(usize, usize)> = Vec::new();
    let n = changes.len();
    if n == 0 {
        proof {
            reveal(is_run_split);
        }
        return runs;
    }
    let mut start: usize = 0;
    let mut last: usize = changes[0].0;
    for i in 1..n
        invariant
            n == changes.len(),
            forall|p: int| 0 <= p < changes.len() - 1 ==> #[trigger] changes[p].0 < usize::MAX,
            start < i,
            last == changes[i - 1].0,
            forall|p: int| start <= p && p + 1 < i ==> #[trigger] changes[p + 1].0 == #[trigger] changes[p].0 + 1,
            runs.len() == 0 ==> start == 0,
            runs.len() > 0 ==> runs@[0].0 == 0 && runs@.last().0 + runs@.last().1 == start,
            start > 0 ==> changes[start as int].0 != changes[start - 1].0 + 1,
            forall|k: int| 0 <= k < runs.len() ==> #[trigger] runs[k].1 >= 1,
            forall|k: int| 0 <= k < runs.len() - 1 ==> #[trigger] runs[k + 1].0 == runs[k].0 + runs[k].1,
            forall|k: int, p: int|
                #![trigger runs[k], changes[p]]
                0 <= k < runs.len() && runs[k].0 <= p && p + 1 < runs[k].0 + runs[k].1 ==> changes[p
                    + 1].0 == changes[p].0 + 1,
            forall|k: int| 1 <= k < runs.len() ==> changes[#[trigger] runs[k].0 as int].0 != changes[runs[k].0 - 1].0 + 1,
    {
        let slot = changes[i].0;
        if slot == last + 1 {
            last = last + 1;
        } else {
            let ghost prev = runs@;
            runs.push((start, i - start));
            assert forall|k: int| 1 <= k < runs.len() implies changes[#[trigger] runs[k].0 as int].0
                != changes[runs[k].0 - 1].0 + 1 by {
                if k < runs.len() - 1 {
                    assert(runs[k] == prev[k]);
                }
            }
            start = i;
            last = slot;
        }
    }
    let ghost prev = runs@;
    runs.push((start, n - start));
    assert forall|k: int| 1 <= k < runs.len() implies changes[#[trigger] runs[k].0 as int].0
        != changes[runs[k].0 - 1].0 + 1 by {
        if k < runs.len() - 1 {
            assert(runs[k] == prev[k]);
        }
    }
    proof {
        reveal(is_run_split);
    }
    runs
}


proof fn lemma_runs_end_within(changes: Seq<Change>, runs: Seq<(usize, usize)>, k: int)
    requires
        is_run_split(changes, runs),
        0 <= k < runs.len(),
    ensures
        runs[k].0 + runs[k].1 <= changes.len(),
    decreases runs.len() - k,
{
    reveal(is_run_split);
    if k < runs.len() - 1 {
        lemma_runs_end_within(changes, runs, k + 1);
        assert(runs[k + 1].1 >= 1);
    }
}

proof fn lemma_run_lengths_agree(changes: Seq<Change>, a: Seq<(usize, usize)>, b: Seq<(usize, usize)>, k: int)
    requires
        is_run_split(changes, a),
        is_run_split(changes, b),
        0 <= k < a.len(),
        k < b.len(),
        a[k].0 == b[k].0,
    ensures
        a[k].1 == b[k].1,
{
    lemma_runs_end_within(changes, a, k);
    lemma_runs_end_within(changes, b, k);
    reveal(is_run_split);
    let s = a[k].0 as int;
    if a[k].1 < b[k].1 {
        let e = s + a[k].1;
        assert(k < a.len() - 1);
        assert(a[k + 1].0 == e);
        let p = e - 1;
        assert(changes[p + 1].0 == changes[p].0 + 1);
    } else if b[k].1 < a[k].1 {
        let e = s + b[k].1;
        assert(k < b.len() - 1);
        assert(b[k + 1].0 == e);
        let p = e - 1;
        assert(changes[p + 1].0 == changes[p].0 + 1);
    }
}

proof fn lemma_run_next_start(changes: Seq<Change>, runs: Seq<(usize, usize)>, k: int)
    requires
        is_run_split(changes, runs),
        changes.len() > 0,
        0 <= k < runs.len(),
    ensures
        runs[0].0 == 0,
        runs[k].1 >= 1,
        k < runs.len() - 1 ==> runs[k + 1].0 == runs[k].0 + runs[k].1,
        k == runs.len() - 1 ==> runs[k].0 + runs[k].1 == changes.len(),
{
    reveal(is_run_split);
}

proof fn lemma_runs_count(changes: Seq<Change>, runs: Seq<(usize, usize)>)
    requires
        is_run_split(changes, runs),
    ensures
        changes.len() == 0 <==> runs.len() == 0,
{
    reveal(is_run_split);
}

proof fn lemma_runs_agree_up_to(changes: Seq<Change>, a: Seq<(usize, usize)>, b: Seq<(usize, usize)>, k: int)
    requires
        is_run_split(changes, a),
        is_run_split(changes, b),
        changes.len() > 0,
        0 <= k < a.len(),
        k < b.len(),
    ensures
        forall|j: int| 0 <= j <= k ==> a[j] == b[j],
    decreases k,
{
    if k > 0 {
        lemma_runs_agree_up_to(changes, a, b, k - 1);
        assert(a[k - 1] == b[k - 1]);
        lemma_run_next_start(changes, a, k - 1);
        lemma_run_next_start(changes, b, k - 1);
    } else {
        lemma_run_next_start(changes, a, 0);
        lemma_run_next_start(changes, b, 0);
    }
    lemma_run_lengths_agree(changes, a, b, k);
}

/// The split into runs is determined by the changes: any two splits that meet the
/// contract of `split_runs` are the same.
pub proof fn lemma_run_split_unique(changes: Seq<Change>, a: Seq<(usize, usize)>, b: Seq<(usize, usize)>)
    requires
        is_run_split(changes, a),
        is_run_split(changes, b),
    ensures
        a == b,
{
    lemma_runs_count(changes, a);
    lemma_runs_count(changes, b);
    if changes.len() == 0 {
        assert(a =~= b);
    } else {
        let m = if a.len() < b.len() { a.len() } else { b.len() };
        lemma_runs_agree_up_to(changes, a, b, m - 1);
        if a.len() < b.len() {
            let l = a.len() - 1;
            assert(a[l] == b[l]);
            lemma_run_next_start(changes, a, l);
            lemma_run_next_start(changes, b, l);
            lemma_run_next_start(changes, b, l + 1);
            lemma_runs_end_within(changes, b, l + 1);
        } else if b.len() < a.len() {
            let l = b.len() - 1;
            assert(a[l] == b[l]);
            lemma_run_next_start(changes, b, l);
            lemma_run_next_start(changes, a, l);
            lemma_run_next_start(changes, a, l + 1);
            lemma_runs_end_within(changes, a, l + 1);
        }
        assert(a =~= b);
    }
}

} // verus!
