//! The arithmetic behind the rendered listing: completed-task counts, the
//! truncated percentage, and how many cells of a fixed-width progress bar
//! are filled. The ratio is completed over total, taken as 0 for a project
//! without tasks.

use vstd::prelude::*;

use crate::model::{Task, TaskV};

verus! {

/// How many tasks of `ts` are completed.
pub open spec fn spec_completed_count(ts: Seq<TaskV>) -> int
    decreases ts.len(),
{
    if ts.len() == 0 {
        0
    } else {
        spec_completed_count(ts.drop_last()) + if ts.last().completed {
            1int
        } else {
            0int
        }
    }
}

/// The integer percentage of the progress ratio, truncated toward zero.
pub open spec fn spec_percent(completed: int, total: int) -> int {
    if total == 0 {
        0
    } else {
        completed * 100 / total
    }
}

/// How many of `width` bar cells are filled: the ratio scaled to the width
/// and rounded to the nearest cell (half rounds up).
pub open spec fn spec_bar_filled(completed: int, total: int, width: int) -> int {
    if total == 0 {
        0
    } else {
        (2 * completed * width + total) / (2 * total)
    }
}

/// Count the completed tasks of a project.
pub fn completed_count(tasks: &Vec<Task>) -> (n: usize)
    ensures
        n == spec_completed_count(tasks@.map_values(|t: Task| t@)),
        n <= tasks@.len(),
{
    let ghost ts = tasks@.map_values(|t: Task| t@);
    let mut n: usize = 0;
    let mut i: usize = 0;
    while i < tasks.len()
        invariant
            i <= tasks.len(),
            ts == tasks@.map_values(|t: Task| t@),
            n == spec_completed_count(ts.take(i as int)),
            n <= i,
        decreases tasks.len() - i,
    {
        proof {
            assert(ts.take(i + 1).drop_last() =~= ts.take(i as int));
            assert(ts.take(i + 1).last() == ts[i as int]);
        }
        if tasks[i].completed {
            n += 1;
        }
        i += 1;
    }
    proof {
        assert(ts.take(tasks@.len() as int) =~= ts);
    }
    n
}

/// The truncated percentage of completed over total.
pub fn progress_percent(completed: usize, total: usize) -> (p: u8)
    requires
        completed <= total,
    ensures
        p == spec_percent(completed as int, total as int),
        p <= 100,
{
    if total == 0 {
        0
    } else {
        let c = completed as u128;
        let t = total as u128;
        proof {
            let ci = c as int;
            let ti = t as int;
            assert(ci * 100 / ti <= 100 && ci * 100 / ti >= 0) by (nonlinear_arith)
                requires
                    0 <= ci <= ti && ti > 0,
            ;
        }
        (c * 100 / t) as u8
    }
}

/// How many cells of a `width`-cell bar are filled.
pub fn bar_filled_cells(completed: usize, total: usize, width: u32) -> (f: usize)
    requires
        completed <= total,
    ensures
        f == spec_bar_filled(completed as int, total as int, width as int),
        f <= width,
{
    if total == 0 {
        0
    } else {
        let c = completed as u128;
        let t = total as u128;
        let w = width as u128;
        proof {
            let ci = c as int;
            let ti = t as int;
            let wi = w as int;
            assert(2 * ci * wi + ti < 0x1000_0000_0000_0000_0000_0000_0000) by (nonlinear_arith)
                requires
                    0 <= ci < 0x1_0000_0000_0000_0000 && 0 <= wi < 0x1_0000_0000 && 0 <= ti
                        < 0x1_0000_0000_0000_0000,
            ;
            assert(0 <= (2 * ci * wi + ti) / (2 * ti) <= wi) by (nonlinear_arith)
                requires
                    0 <= ci <= ti && ti > 0 && wi >= 0,
            ;
        }
        ((2 * c * w + t) / (2 * t)) as usize
    }
}

} // verus!
