//! Runs of neighbouring numbers.
use vstd::prelude::*;

verus! {

/// Whether one of the runs holds the number.
pub open spec fn runs_cover(runs: Seq<(int, int)>, number: int) -> bool {
    exists|i: int| 0 <= i < runs.len() && (#[trigger] runs[i]).0 <= number <= runs[i].1
}

/// Whether the runs hold something, ascend, and leave a gap between each two.
pub open spec fn runs_apart(runs: Seq<(int, int)>) -> bool {
    &&& forall|i: int| 0 <= i < runs.len() ==> (#[trigger] runs[i]).0 <= runs[i].1
    &&& forall|i: int, j: int|
        0 <= i < j < runs.len() ==> (#[trigger] runs[i]).1 + 1 < (#[trigger] runs[j]).0
}

/// Runs that leave gaps and hold the same numbers are the same runs.
pub proof fn law_runs_determined(a: Seq<(int, int)>, b: Seq<(int, int)>)
    requires
        runs_apart(a),
        runs_apart(b),
        forall|number: int| #[trigger] runs_cover(a, number) <==> runs_cover(b, number),
    ensures
        a == b,
    decreases a.len(),
{
    if a.len() == 0 {
        if b.len() > 0 {
            assert(runs_cover(b, b[0].0));
            assert(runs_cover(a, b[0].0));
        }
        assert(a =~= b);
    } else {
        let x = a.last();
        assert(runs_cover(a, x.1)) by {
            assert(a[a.len() - 1] == x);
        }
        assert(runs_cover(b, x.1));
        let y = b.last();
        assert(runs_cover(b, y.1)) by {
            assert(b[b.len() - 1] == y);
        }
        assert(runs_cover(a, y.1));
        lemma_last_is_highest(a, y.1);
        lemma_last_is_highest(b, x.1);
        if x.0 < y.0 {
            assert(runs_cover(a, y.0 - 1)) by {
                assert(a[a.len() - 1] == x);
            }
            lemma_beside_run(b, b.len() - 1);
            assert(false);
        }
        if y.0 < x.0 {
            assert(runs_cover(b, x.0 - 1)) by {
                assert(b[b.len() - 1] == y);
            }
            lemma_beside_run(a, a.len() - 1);
            assert(false);
        }
        let a1 = a.drop_last();
        let b1 = b.drop_last();
        assert forall|number: int| #[trigger] runs_cover(a1, number) <==> runs_cover(
            b1,
            number,
        ) by {
            lemma_drop_last_cover(a, number);
            lemma_drop_last_cover(b, number);
        }
        law_runs_determined(a1, b1);
        assert(a =~= a1.push(x));
        assert(b =~= b1.push(y));
    }
}

proof fn lemma_last_is_highest(runs: Seq<(int, int)>, number: int)
    requires
        runs_apart(runs),
        runs_cover(runs, number),
    ensures
        runs.len() > 0,
        number <= runs.last().1,
{
    let i = choose|i: int| 0 <= i < runs.len() && (#[trigger] runs[i]).0 <= number <= runs[i].1;
    if i < runs.len() - 1 {
        assert(runs[i].1 + 1 < runs[runs.len() - 1].0);
    }
}

/// No run holds the numbers right before and right after a run.
pub proof fn lemma_beside_run(runs: Seq<(int, int)>, k: int)
    requires
        runs_apart(runs),
        0 <= k < runs.len(),
    ensures
        !runs_cover(runs, runs[k].0 - 1),
        !runs_cover(runs, runs[k].1 + 1),
{
    if runs_cover(runs, runs[k].0 - 1) {
        let i = choose|i: int|
            0 <= i < runs.len() && (#[trigger] runs[i]).0 <= runs[k].0 - 1 <= runs[i].1;
        if i < k {
            assert(runs[i].1 + 1 < runs[k].0);
        } else if i > k {
            assert(runs[k].1 + 1 < runs[i].0);
        }
    }
    if runs_cover(runs, runs[k].1 + 1) {
        let i = choose|i: int|
            0 <= i < runs.len() && (#[trigger] runs[i]).0 <= runs[k].1 + 1 <= runs[i].1;
        if i < k {
            assert(runs[i].1 + 1 < runs[k].0);
        } else if i > k {
            assert(runs[k].1 + 1 < runs[i].0);
        }
    }
}

proof fn lemma_drop_last_cover(runs: Seq<(int, int)>, number: int)
    requires
        runs_apart(runs),
        runs.len() > 0,
    ensures
        runs_cover(runs.drop_last(), number) <==> runs_cover(runs, number) && !(runs.last().0
            <= number <= runs.last().1),
{
    let front = runs.drop_last();
    if runs_cover(front, number) {
        let i = choose|i: int|
            0 <= i < front.len() && (#[trigger] front[i]).0 <= number <= front[i].1;
        assert(runs[i] == front[i]);
        assert(runs[i].1 + 1 < runs[runs.len() - 1].0);
    }
    if runs_cover(runs, number) && !(runs.last().0 <= number <= runs.last().1) {
        let i = choose|i: int| 0 <= i < runs.len() && (#[trigger] runs[i]).0 <= number <= runs[i].1;
        assert(front[i] == runs[i]);
    }
}

} // verus!
