//! What the scored view is: the groups of the log, the factors of each group
//! and the recent templates they are measured against.

use vstd::prelude::*;
use crate::command::Command;

verus! {

/// What a rebuild of the scored view depends on besides the log: the current
/// directory, the three most recent templates (the newest first), the open
/// time window and the present time.
pub struct Context {
    pub dir: Seq<char>,
    pub t0: Seq<char>,
    pub t1: Seq<char>,
    pub t2: Seq<char>,
    pub start: int,
    pub end: int,
    pub now: int,
}

/// The counts that are summed over the rows of a group.
pub enum Feature {
    Occurrences,
    Successes,
    RecentFailures,
    DirMatches,
    Overlap,
    ImmediateOverlap,
}

/// Ids grow strictly along the log.
pub open spec fn ids_increase(log: Seq<Command>) -> bool {
    forall|a: int, b: int| 0 <= a < b < log.len() ==> (#[trigger] log[a]).id < (#[trigger] log[b]).id
}

/// Every row of the log has its time and its exit code.
pub open spec fn rows_complete(log: Seq<Command>) -> bool {
    forall|i: int| 0 <= i < log.len() ==> (#[trigger] log[i]).when_run.is_some() && log[i].exit_code.is_some()
}

/// A well-formed log.
pub open spec fn log_wf(log: Seq<Command>) -> bool {
    ids_increase(log) && rows_complete(log)
}

/// Ids fall strictly along the view, so no row stands in it twice.
pub open spec fn view_wf(view: Seq<Command>) -> bool {
    forall|a: int, b: int| 0 <= a < b < view.len() ==> (#[trigger] view[a]).id > (#[trigger] view[b]).id
}

/// The time at which row `j` ran.
pub open spec fn run_time(log: Seq<Command>, j: int) -> int {
    log[j].when_run.unwrap() as int
}

/// The exit code of row `j`.
pub open spec fn exit_of(log: Seq<Command>, j: int) -> int {
    log[j].exit_code.unwrap() as int
}

/// Row `j` takes part in the view: it is not the earliest row of the log and
/// it ran inside the time window.
pub open spec fn grouped(log: Seq<Command>, ctx: Context, j: int) -> bool {
    1 <= j < log.len() && ctx.start < run_time(log, j) < ctx.end
}

/// Row `j` belongs to the group of row `i`: it takes part and has the same text.
pub open spec fn in_group(log: Seq<Command>, ctx: Context, i: int, j: int) -> bool {
    grouped(log, ctx, j) && log[j].cmd@ == log[i].cmd@
}

/// Row `i` is the latest of its group, the one that stands for it in the view.
pub open spec fn is_rep(log: Seq<Command>, ctx: Context, i: int) -> bool {
    grouped(log, ctx, i) && forall|j: int| i < j < log.len() ==> !#[trigger] in_group(log, ctx, i, j)
}

/// The latest rows of the groups that lie at index `n` or later, the newest first.
pub open spec fn reps(log: Seq<Command>, ctx: Context, n: int) -> Seq<int>
    decreases log.len() - n,
{
    if n >= log.len() {
        Seq::empty()
    } else if is_rep(log, ctx, n) {
        reps(log, ctx, n + 1).push(n)
    } else {
        reps(log, ctx, n + 1)
    }
}

/// Row `k` has template `t` and an id among the three just below that of row `j`.
pub open spec fn near_with_template(log: Seq<Command>, j: int, k: int, t: Seq<char>) -> bool {
    0 <= k < log.len() && log[j].id - 3 <= log[k].id < log[j].id && log[k].cmd_tpl@ == t
}

/// Some row just before row `j` has template `t`.
pub open spec fn seen_template(log: Seq<Command>, j: int, t: Seq<char>) -> bool {
    exists|k: int| near_with_template(log, j, k, t)
}

/// How many different recent templates occur just before row `j`.
pub open spec fn row_overlap(log: Seq<Command>, ctx: Context, j: int) -> nat {
    let a: nat = if seen_template(log, j, ctx.t0) { 1 } else { 0 };
    let b: nat = if ctx.t1 != ctx.t0 && seen_template(log, j, ctx.t1) { 1 } else { 0 };
    let c: nat = if ctx.t2 != ctx.t0 && ctx.t2 != ctx.t1 && seen_template(log, j, ctx.t2) { 1 } else { 0 };
    a + b + c
}

/// Row `k` has template `t` and the id just below that of row `j`.
pub open spec fn precedes_with_template(log: Seq<Command>, j: int, k: int, t: Seq<char>) -> bool {
    0 <= k < log.len() && log[k].id == log[j].id - 1 && log[k].cmd_tpl@ == t
}

/// The row just before row `j` has template `t`.
pub open spec fn follows_template(log: Seq<Command>, j: int, t: Seq<char>) -> bool {
    exists|k: int| precedes_with_template(log, j, k, t)
}

/// Row `j` ran in directory `dir`.
pub open spec fn ran_in(log: Seq<Command>, j: int, dir: Seq<char>) -> bool {
    log[j].dir.is_some() && log[j].dir.unwrap()@ == dir
}

/// Row `j` failed with exit code 1 less than two minutes before `now`.
pub open spec fn failed_lately(log: Seq<Command>, j: int, now: int) -> bool {
    exit_of(log, j) == 1 && now - run_time(log, j) < 120
}

/// What row `j` adds to the count `f` of its group.
pub open spec fn row_value(log: Seq<Command>, ctx: Context, j: int, f: Feature) -> nat {
    match f {
        Feature::Occurrences => 1,
        Feature::Successes => if exit_of(log, j) == 0 { 1 } else { 0 },
        Feature::RecentFailures => if failed_lately(log, j, ctx.now) { 1 } else { 0 },
        Feature::DirMatches => if ran_in(log, j, ctx.dir) { 1 } else { 0 },
        Feature::Overlap => row_overlap(log, ctx, j),
        Feature::ImmediateOverlap => if follows_template(log, j, ctx.t0) { 1 } else { 0 },
    }
}

/// The count `f` over the rows of the group of row `i` that lie before index `n`.
pub open spec fn group_sum(log: Seq<Command>, ctx: Context, i: int, n: int, f: Feature) -> nat
    decreases n,
{
    if n <= 0 {
        0
    } else if in_group(log, ctx, i, n - 1) {
        group_sum(log, ctx, i, n - 1, f) + row_value(log, ctx, n - 1, f)
    } else {
        group_sum(log, ctx, i, n - 1, f)
    }
}

/// The earliest time at which a row of the group of row `i` ran, among row `i`
/// and the rows before index `n`.
pub open spec fn group_oldest(log: Seq<Command>, ctx: Context, i: int, n: int) -> int
    decreases n,
{
    if n <= 0 {
        run_time(log, i)
    } else {
        let rest = group_oldest(log, ctx, i, n - 1);
        if in_group(log, ctx, i, n - 1) && run_time(log, n - 1) < rest {
            run_time(log, n - 1)
        } else {
            rest
        }
    }
}

/// The earliest time among the first `n` rows of the whole log.
pub open spec fn oldest_run(log: Seq<Command>, n: int) -> int
    decreases n,
{
    if n <= 0 || log.len() == 0 {
        0
    } else if n == 1 {
        run_time(log, 0)
    } else {
        let rest = oldest_run(log, n - 1);
        if run_time(log, n - 1) < rest { run_time(log, n - 1) } else { rest }
    }
}

/// The latest time among the first `n` rows of the whole log.
pub open spec fn newest_run(log: Seq<Command>, n: int) -> int
    decreases n,
{
    if n <= 0 || log.len() == 0 {
        0
    } else if n == 1 {
        run_time(log, 0)
    } else {
        let rest = newest_run(log, n - 1);
        if run_time(log, n - 1) > rest { run_time(log, n - 1) } else { rest }
    }
}

/// The span of time that the whole log covers; an hour where it covers none.
pub open spec fn spread(log: Seq<Command>) -> int {
    let d = newest_run(log, log.len() as int) - oldest_run(log, log.len() as int);
    if d == 0 { 3600 } else { d }
}

/// How many of the first `n` rows of the whole log have the text `cmd`.
pub open spec fn occurrences_of(log: Seq<Command>, cmd: Seq<char>, n: int) -> nat
    decreases n,
{
    if n <= 0 {
        0
    } else if log[n - 1].cmd@ == cmd {
        occurrences_of(log, cmd, n - 1) + 1
    } else {
        occurrences_of(log, cmd, n - 1)
    }
}

/// The largest number of rows of the whole log that share one text, the text
/// being that of one of the first `n` rows.
pub open spec fn max_occurrences(log: Seq<Command>, n: int) -> nat
    decreases n,
{
    if n <= 0 {
        0
    } else {
        let rest = max_occurrences(log, n - 1);
        let here = occurrences_of(log, log[n - 1].cmd@, log.len() as int);
        if here > rest { here } else { rest }
    }
}

/// `v` is the scored row of the group whose latest row is row `i`: that row's
/// record, no rank yet, and the seven factors as exact fractions.
pub open spec fn is_scored(v: Command, log: Seq<Command>, ctx: Context, i: int) -> bool {
    let n = log.len() as int;
    let most = max_occurrences(log, n) as int;
    &&& v.same_record(log[i])
    &&& v.rank == 0
    &&& v.age_factor.is(newest_run(log, n) - group_oldest(log, ctx, i, n), spread(log))
    &&& v.exit_factor.is(
        group_sum(log, ctx, i, n, Feature::Successes) as int,
        group_sum(log, ctx, i, n, Feature::Occurrences) as int,
    )
    &&& v.recent_failure_factor.is(
        if group_sum(log, ctx, i, n, Feature::RecentFailures) > 0 { 1 } else { 0 },
        1,
    )
    &&& v.dir_factor.is(group_sum(log, ctx, i, n, Feature::DirMatches) as int, most)
    &&& v.overlap_factor.is(group_sum(log, ctx, i, n, Feature::Overlap) as int, 3 * most)
    &&& v.immediate_overlap_factor.is(group_sum(log, ctx, i, n, Feature::ImmediateOverlap) as int, most)
    &&& v.occurrences_factor.is(group_sum(log, ctx, i, n, Feature::Occurrences) as int, most)
}

/// `view` is the scored view of `log` in the context `ctx`: one scored row for
/// each group, the group with the newest row first.
pub open spec fn is_view_of(view: Seq<Command>, log: Seq<Command>, ctx: Context) -> bool {
    &&& view.len() == reps(log, ctx, 1).len()
    &&& forall|k: int| 0 <= k < view.len() ==> is_scored(#[trigger] view[k], log, ctx, reps(log, ctx, 1)[k])
}

/// Row `c` belongs to the session asked for; with no session, every row does.
pub open spec fn in_session(c: Command, session: Option<Seq<char>>) -> bool {
    session.is_none() || c.session_id@ == session.unwrap()
}

/// The rows of a session that lie at index `n` or later, the newest first.
pub open spec fn session_rows(log: Seq<Command>, session: Option<Seq<char>>, n: int) -> Seq<int>
    decreases log.len() - n,
{
    if n >= log.len() {
        Seq::empty()
    } else if in_session(log[n], session) {
        session_rows(log, session, n + 1).push(n)
    } else {
        session_rows(log, session, n + 1)
    }
}

/// The most recent rows of a session, the newest first: `offset` rows are
/// passed over, then at most `num` follow, or all of them where `num` is negative.
pub open spec fn recent(log: Seq<Command>, session: Option<Seq<char>>, num: int, offset: int) -> Seq<int> {
    let rows = session_rows(log, session, 0);
    let rest = if offset >= rows.len() { Seq::empty() } else { rows.skip(offset) };
    if num < 0 || num >= rest.len() { rest } else { rest.take(num) }
}

/// Slot `k` of the recent templates: the last three templates of the session
/// or, where the session has fewer, of the whole log; empty where that is too short.
pub open spec fn window_slot(log: Seq<Command>, session: Option<Seq<char>>, k: int) -> Seq<char> {
    let own = recent(log, session, 3, 0);
    let base = if own.len() >= 3 { own } else { recent(log, None, 3, 0) };
    if 0 <= k < base.len() { log[base[k]].cmd_tpl@ } else { Seq::empty() }
}

/// The context of a rebuild, from what the caller gives.
pub open spec fn context(
    log: Seq<Command>,
    dir: Seq<char>,
    session: Option<Seq<char>>,
    start_time: Option<i64>,
    end_time: Option<i64>,
    now: i64,
) -> Context {
    Context {
        dir,
        t0: window_slot(log, session, 0),
        t1: window_slot(log, session, 1),
        t2: window_slot(log, session, 2),
        start: if start_time.is_some() { start_time.unwrap() as int } else { 0 },
        end: if end_time.is_some() { end_time.unwrap() as int } else { now as int },
        now: now as int,
    }
}

/// The session that an optional session id names.
pub open spec fn session_of(session_id: Option<String>) -> Option<Seq<char>> {
    match session_id {
        Some(s) => Some(s@),
        None => None,
    }
}

} // verus!
