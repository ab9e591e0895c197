//! What holds of the scored view whatever the log: one row for each text, the
//! same view from the same inputs, and a row for a command just appended.

use vstd::prelude::*;
use crate::command::Command;
use crate::history::appended;
use crate::retrieval::{handed_out, is_hit, is_selection, left_out, outranks, same_row};
use crate::rebuild::factors_bounded;
use crate::scoring::{
    group_oldest, group_sum, grouped, in_group, is_rep, is_scored, is_view_of, log_wf, newest_run,
    oldest_run, reps, run_time, view_wf, Context, Feature,
};
use crate::text::contains;

verus! {

/// Each of the first `n` rows ran between the earliest and the latest time
/// among them.
pub proof fn lemma_run_bounds(log: Seq<Command>, n: int, k: int)
    requires
        0 <= k < n <= log.len(),
    ensures
        oldest_run(log, n) <= run_time(log, k) <= newest_run(log, n),
    decreases n,
{
    if n > 1 && k < n - 1 {
        lemma_run_bounds(log, n - 1, k);
    }
}

/// The earliest time of a group lies between the earliest and the latest
/// time of the whole log.
pub proof fn lemma_group_oldest_bounds(log: Seq<Command>, ctx: Context, i: int, n: int)
    requires
        0 <= i < log.len(),
        0 <= n <= log.len(),
    ensures
        oldest_run(log, log.len() as int) <= group_oldest(log, ctx, i, n) <= newest_run(log, log.len() as int),
    decreases n,
{
    if n <= 0 {
        lemma_run_bounds(log, log.len() as int, i);
    } else {
        lemma_group_oldest_bounds(log, ctx, i, n - 1);
        lemma_run_bounds(log, log.len() as int, n - 1);
    }
}

/// A group has no more successes than rows.
pub proof fn lemma_successes_bounded(log: Seq<Command>, ctx: Context, i: int, n: int)
    ensures
        group_sum(log, ctx, i, n, Feature::Successes) <= group_sum(log, ctx, i, n, Feature::Occurrences),
    decreases n,
{
    if n > 0 {
        lemma_successes_bounded(log, ctx, i, n - 1);
    }
}

/// In a scored row the age and the share of successes lie between 0 and 1,
/// and the recent failure is 0 or 1.
pub proof fn law_factors_bounded(v: Command, log: Seq<Command>, ctx: Context, i: int)
    requires
        0 <= i < log.len(),
        is_scored(v, log, ctx, i),
    ensures
        factors_bounded(v),
{
    lemma_group_oldest_bounds(log, ctx, i, log.len() as int);
    lemma_successes_bounded(log, ctx, i, log.len() as int);
}

/// Every entry of `reps(log, ctx, n)` is the latest row of a group at index
/// `n` or later, and the entries fall strictly.
pub proof fn lemma_reps_sound(log: Seq<Command>, ctx: Context, n: int)
    requires
        0 <= n,
    ensures
        forall|k: int| 0 <= k < reps(log, ctx, n).len() ==> n <= #[trigger] reps(log, ctx, n)[k] < log.len()
            && is_rep(log, ctx, reps(log, ctx, n)[k]),
        forall|a: int, b: int| 0 <= a < b < reps(log, ctx, n).len()
            ==> #[trigger] reps(log, ctx, n)[a] > #[trigger] reps(log, ctx, n)[b],
    decreases log.len() - n,
{
    if n < log.len() {
        lemma_reps_sound(log, ctx, n + 1);
        let rest = reps(log, ctx, n + 1);
        let all = reps(log, ctx, n);
        assert(all == if is_rep(log, ctx, n) { rest.push(n) } else { rest });
        assert forall|k: int| 0 <= k < all.len() implies n <= #[trigger] all[k] < log.len() && is_rep(
            log,
            ctx,
            all[k],
        ) by {
            if k < rest.len() {
                assert(all[k] == rest[k]);
            }
        }
        assert forall|a: int, b: int| 0 <= a < b < all.len() implies #[trigger] all[a] > #[trigger] all[b] by {
            assert(all[a] == rest[a]);
            if b < rest.len() {
                assert(all[b] == rest[b]);
            }
        }
    }
}

/// The latest row of a group stands in `reps(log, ctx, n)` when it lies at
/// index `n` or later.
pub proof fn lemma_reps_complete(log: Seq<Command>, ctx: Context, n: int, i: int)
    requires
        0 <= n <= i < log.len(),
        is_rep(log, ctx, i),
    ensures
        reps(log, ctx, n).contains(i),
    decreases i - n,
{
    if n == i {
        let r = reps(log, ctx, n + 1).push(i);
        assert(r[r.len() - 1] == i);
    } else {
        lemma_reps_complete(log, ctx, n + 1, i);
        let rest = reps(log, ctx, n + 1);
        let w = choose|w: int| 0 <= w < rest.len() && rest[w] == i;
        assert(reps(log, ctx, n)[w] == i);
    }
}

/// A row that takes part has a latest row of its group, at its own index or later.
pub proof fn lemma_group_has_rep(log: Seq<Command>, ctx: Context, j: int) -> (i: int)
    requires
        grouped(log, ctx, j),
    ensures
        j <= i < log.len(),
        is_rep(log, ctx, i),
        log[i].cmd@ == log[j].cmd@,
    decreases log.len() - j,
{
    if is_rep(log, ctx, j) {
        j
    } else {
        let next = choose|x: int| j < x < log.len() && in_group(log, ctx, j, x);
        lemma_group_has_rep(log, ctx, next)
    }
}

/// Each text that occurs among the rows that take part has exactly one row
/// in the view: row `j` of the log has one, and no two rows of the view
/// share a text. Each row of the view stands for a row that takes part.
pub proof fn law_one_row_per_text(view: Seq<Command>, log: Seq<Command>, ctx: Context, j: int)
    requires
        log_wf(log),
        is_view_of(view, log, ctx),
        grouped(log, ctx, j),
    ensures
        exists|k: int| 0 <= k < view.len() && (#[trigger] view[k]).cmd@ == log[j].cmd@,
        forall|a: int, b: int| 0 <= a < view.len() && 0 <= b < view.len()
            && (#[trigger] view[a]).cmd@ == (#[trigger] view[b]).cmd@ ==> a == b,
        forall|k: int| 0 <= k < view.len() ==> exists|i: int| grouped(log, ctx, i)
            && log[i].cmd@ == (#[trigger] view[k]).cmd@,
{
    let all = reps(log, ctx, 1);
    lemma_reps_sound(log, ctx, 1);
    let i = lemma_group_has_rep(log, ctx, j);
    lemma_reps_complete(log, ctx, 1, i);
    let w = choose|w: int| 0 <= w < all.len() && all[w] == i;
    assert(is_scored(view[w], log, ctx, all[w]));
    assert(view[w].cmd@ == log[j].cmd@);
    assert forall|a: int, b: int| 0 <= a < view.len() && 0 <= b < view.len()
        && (#[trigger] view[a]).cmd@ == (#[trigger] view[b]).cmd@ implies a == b by {
        assert(is_scored(view[a], log, ctx, all[a]));
        assert(is_scored(view[b], log, ctx, all[b]));
        if a < b {
            assert(all[a] > all[b]);
            assert(in_group(log, ctx, all[b], all[a]));
        } else if b < a {
            assert(all[b] > all[a]);
            assert(in_group(log, ctx, all[a], all[b]));
        }
    }
    assert forall|k: int| 0 <= k < view.len() implies exists|i: int| grouped(log, ctx, i)
        && log[i].cmd@ == (#[trigger] view[k]).cmd@ by {
        assert(is_scored(view[k], log, ctx, all[k]));
        assert(grouped(log, ctx, all[k]) && log[all[k]].cmd@ == view[k].cmd@);
    }
}

/// Rebuilding is a function of its inputs: two views of the same log in the
/// same context have the same rows, record by record and factor by factor.
pub proof fn law_rebuild_deterministic(v1: Seq<Command>, v2: Seq<Command>, log: Seq<Command>, ctx: Context)
    requires
        is_view_of(v1, log, ctx),
        is_view_of(v2, log, ctx),
    ensures
        v1.len() == v2.len(),
        forall|k: int| 0 <= k < v1.len() ==> same_row(#[trigger] v1[k], v2[k]),
{
    assert forall|k: int| 0 <= k < v1.len() implies same_row(#[trigger] v1[k], v2[k]) by {
        let i = reps(log, ctx, 1)[k];
        assert(is_scored(v1[k], log, ctx, i));
        assert(is_scored(v2[k], log, ctx, i));
    }
}

/// A command appended to a log that was not empty, with a time inside the
/// window, has a row in the view that is built next.
pub proof fn law_appended_has_row(
    before: Seq<Command>,
    after: Seq<Command>,
    view: Seq<Command>,
    ctx: Context,
    cmd: Seq<char>,
    cmd_tpl: Seq<char>,
    session_id: Seq<char>,
    dir: Seq<char>,
    when_run: i64,
    exit_code: i32,
)
    requires
        log_wf(after),
        before.len() > 0,
        appended(before, after, cmd, cmd_tpl, session_id, dir, when_run, exit_code),
        ctx.start < when_run < ctx.end,
        is_view_of(view, after, ctx),
    ensures
        exists|k: int| 0 <= k < view.len() && (#[trigger] view[k]).cmd@ == cmd,
{
    let j = after.len() - 1;
    assert(run_time(after, j) == when_run);
    assert(grouped(after, ctx, j));
    law_one_row_per_text(view, after, ctx, j);
}

/// The row of the view that a row of a selection is.
pub proof fn lemma_hit_row(r: Seq<Command>, view: Seq<Command>, s: Seq<char>, limit: int, k: int) -> (m: int)
    requires
        is_selection(r, view, s, limit),
        0 <= k < r.len(),
    ensures
        0 <= m < view.len(),
        same_row(r[k], view[m]),
        contains(view[m].cmd@, s),
{
    assert(is_hit(r[k], view, s));
    choose|m: int| 0 <= m < view.len() && same_row(r[k], #[trigger] view[m]) && contains(view[m].cmd@, s)
}

/// Two rows of a view with the same id are one row.
pub proof fn lemma_same_id_same_row(view: Seq<Command>, a: int, b: int)
    requires
        view_wf(view),
        0 <= a < view.len(),
        0 <= b < view.len(),
        view[a].id == view[b].id,
    ensures
        a == b,
{
    if a < b {
        assert(view[a].id > view[b].id);
    } else if b < a {
        assert(view[b].id > view[a].id);
    }
}

/// Where two selections agree before place `k`, the row of the first at
/// place `k` does not come before that of the second.
pub proof fn lemma_no_gap(
    ra: Seq<Command>,
    rb: Seq<Command>,
    view: Seq<Command>,
    s: Seq<char>,
    limit: int,
    k: int,
)
    requires
        view_wf(view),
        is_selection(ra, view, s, limit),
        is_selection(rb, view, s, limit),
        0 <= k < ra.len(),
        k < rb.len(),
        forall|j: int| 0 <= j < k ==> same_row(#[trigger] ra[j], rb[j]),
    ensures
        !outranks(ra[k], rb[k]),
{
    if outranks(ra[k], rb[k]) {
        let m = lemma_hit_row(ra, view, s, limit, k);
        assert(handed_out(rb, view[m]) || left_out(rb, limit, view[m]));
        if handed_out(rb, view[m]) {
            let j = choose|j: int| 0 <= j < rb.len() && (#[trigger] rb[j]).id == view[m].id;
            let mj = lemma_hit_row(rb, view, s, limit, j);
            lemma_same_id_same_row(view, m, mj);
            assert(rb[j].rank == ra[k].rank && rb[j].id == ra[k].id);
            if j < k {
                assert(same_row(ra[j], rb[j]));
                assert(outranks(ra[j], ra[k]));
            } else if j > k {
                assert(outranks(rb[k], rb[j]));
            }
            assert(false);
        } else {
            let e = rb.len() - 1;
            assert(rb.last() == rb[e]);
            if k < e {
                assert(outranks(rb[k], rb[e]));
            }
            assert(false);
        }
    }
}

/// Two selections have the same row at each place that both have.
pub proof fn lemma_selections_agree(
    r1: Seq<Command>,
    r2: Seq<Command>,
    view: Seq<Command>,
    s: Seq<char>,
    limit: int,
    k: int,
)
    requires
        view_wf(view),
        is_selection(r1, view, s, limit),
        is_selection(r2, view, s, limit),
        0 <= k < r1.len(),
        k < r2.len(),
    ensures
        same_row(r1[k], r2[k]),
    decreases k,
{
    assert forall|j: int| 0 <= j < k implies same_row(#[trigger] r1[j], r2[j]) by {
        lemma_selections_agree(r1, r2, view, s, limit, j);
    }
    assert forall|j: int| 0 <= j < k implies same_row(#[trigger] r2[j], r1[j]) by {
        assert(same_row(r1[j], r2[j]));
    }
    lemma_no_gap(r1, r2, view, s, limit, k);
    lemma_no_gap(r2, r1, view, s, limit, k);
    let m1 = lemma_hit_row(r1, view, s, limit, k);
    let m2 = lemma_hit_row(r2, view, s, limit, k);
    lemma_same_id_same_row(view, m1, m2);
}

/// Where two selections agree at each place that both have, the second is
/// not the longer one.
pub proof fn lemma_not_longer(ra: Seq<Command>, rb: Seq<Command>, view: Seq<Command>, s: Seq<char>, limit: int)
    requires
        view_wf(view),
        is_selection(ra, view, s, limit),
        is_selection(rb, view, s, limit),
        forall|j: int| 0 <= j < ra.len() && j < rb.len() ==> same_row(#[trigger] ra[j], rb[j]),
    ensures
        rb.len() <= ra.len(),
{
    if ra.len() < rb.len() {
        let n = ra.len() as int;
        let m = lemma_hit_row(rb, view, s, limit, n);
        assert(handed_out(ra, view[m]) || left_out(ra, limit, view[m]));
        if handed_out(ra, view[m]) {
            let j = choose|j: int| 0 <= j < ra.len() && (#[trigger] ra[j]).id == view[m].id;
            assert(same_row(ra[j], rb[j]));
            let mj = lemma_hit_row(rb, view, s, limit, j);
            lemma_same_id_same_row(view, m, mj);
            assert(outranks(rb[j], rb[n]));
            assert(false);
        }
    }
}

/// A query has one answer: two selections of the same view, for the same
/// text and limit, are the same rows in the same order.
pub proof fn law_selection_unique(
    r1: Seq<Command>,
    r2: Seq<Command>,
    view: Seq<Command>,
    s: Seq<char>,
    limit: int,
)
    requires
        view_wf(view),
        is_selection(r1, view, s, limit),
        is_selection(r2, view, s, limit),
    ensures
        r1.len() == r2.len(),
        forall|k: int| 0 <= k < r1.len() ==> same_row(#[trigger] r1[k], r2[k]),
{
    assert forall|j: int| 0 <= j < r1.len() && j < r2.len() implies same_row(#[trigger] r1[j], r2[j]) by {
        lemma_selections_agree(r1, r2, view, s, limit, j);
    }
    assert forall|j: int| 0 <= j < r2.len() && j < r1.len() implies same_row(#[trigger] r2[j], r1[j]) by {
        assert(same_row(r1[j], r2[j]));
    }
    lemma_not_longer(r1, r2, view, s, limit);
    lemma_not_longer(r2, r1, view, s, limit);
}

} // verus!
