use vstd::prelude::*;

verus! {

/// The first row of job `i` when `n_jobs` jobs share an image `height` rows
/// high.
pub open spec fn row_begin(height: int, i: int, n_jobs: int) -> int {
    height * i / n_jobs
}

/// The rows of job `i` when `n_jobs` jobs share an image `height` rows high:
/// from `height * i / n_jobs` up to (not including)
/// `height * (i + 1) / n_jobs`.
pub fn job_rows(height: usize, i: usize, n_jobs: usize) -> (r: (usize, usize))
    requires
        i < n_jobs,
        height * (i + 1) <= usize::MAX,
    ensures
        r.0 == row_begin(height as int, i as int, n_jobs as int),
        r.1 == row_begin(height as int, i + 1, n_jobs as int),
        r.0 <= r.1 <= height,
{
    proof {
        lemma_rows_ordered(height as int, i as int, n_jobs as int);
        assert(height * i <= height * (i + 1)) by (nonlinear_arith);
    }
    let first = height * i / n_jobs;
    let past_last = height * (i + 1) / n_jobs;
    (first, past_last)
}

/// Each job starts where the previous one stopped, the first at row 0 and
/// the last ending at the last row: the jobs' rows tile the image.
pub proof fn lemma_rows_ordered(height: int, i: int, n_jobs: int)
    requires
        0 <= height,
        0 <= i < n_jobs,
    ensures
        row_begin(height, 0, n_jobs) == 0,
        row_begin(height, n_jobs, n_jobs) == height,
        0 <= row_begin(height, i, n_jobs) <= row_begin(height, i + 1, n_jobs) <= height,
{
    assert(height * 0 == 0);
    assert(height * i <= height * (i + 1) <= height * n_jobs) by (nonlinear_arith)
        requires
            0 <= height,
            0 <= i < n_jobs,
    ;
    assert(0 <= height * i) by (nonlinear_arith)
        requires
            0 <= height,
            0 <= i,
    ;
    vstd::arithmetic::div_mod::lemma_div_is_ordered(height * i, height * (i + 1), n_jobs);
    vstd::arithmetic::div_mod::lemma_div_is_ordered(height * (i + 1), height * n_jobs, n_jobs);
    vstd::arithmetic::div_mod::lemma_div_is_ordered(0, height * i, n_jobs);
    assert(height * n_jobs == n_jobs * height) by (nonlinear_arith);
    vstd::arithmetic::div_mod::lemma_div_multiples_vanish(height, n_jobs);
}

} // verus!
