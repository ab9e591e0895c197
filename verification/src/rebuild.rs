//! Rebuilding the scored view from the log.

use vstd::prelude::*;
use crate::command::Command;
use crate::command::Ratio;
use crate::history::History;
use crate::scoring::{
    context, failed_lately, follows_template, group_oldest, group_sum, grouped, in_group,
    is_rep, is_scored, is_view_of, log_wf, max_occurrences, near_with_template, newest_run,
    occurrences_of, oldest_run, precedes_with_template, ran_in, reps, row_overlap, run_time,
    seen_template, session_of, view_wf, window_slot, Context, Feature,
};

verus! {

/// The three factors that are bounded whatever the log holds: the age and the
/// share of successes lie between 0 and 1, the recent failure is 0 or 1.
pub open spec fn factors_bounded(v: Command) -> bool {
    v.age_factor.in_unit() && v.exit_factor.in_unit() && v.recent_failure_factor.is_flag()
}

/// The exec values are those of the context.
pub open spec fn context_holds(
    ctx: Context,
    dir: Seq<char>,
    t0: Seq<char>,
    t1: Seq<char>,
    t2: Seq<char>,
    start: i64,
    end: i64,
    now: i64,
) -> bool {
    ctx == (Context { dir, t0, t1, t2, start: start as int, end: end as int, now: now as int })
}

impl History {
    /// The earliest and the latest time in the whole log.
    fn run_bounds(&self) -> (r: (i64, i64))
        requires
            log_wf(self.log@),
        ensures
            r.0 == oldest_run(self.log@, self.log@.len() as int),
            r.1 == newest_run(self.log@, self.log@.len() as int),
            forall|k: int| 0 <= k < self.log@.len() ==> r.0 <= #[trigger] run_time(self.log@, k) <= r.1,
    {
        let n: usize = self.log.len();
        if n == 0 {
            return (0, 0);
        }
        let mut lo: i64 = self.log[0].when_run.unwrap();
        let mut hi: i64 = lo;
        let mut k: usize = 1;
        while k < n
            invariant
                1 <= k <= n,
                n == self.log@.len(),
                log_wf(self.log@),
                lo == oldest_run(self.log@, k as int),
                hi == newest_run(self.log@, k as int),
                forall|m: int| 0 <= m < k ==> lo <= #[trigger] run_time(self.log@, m) <= hi,
            decreases n - k,
        {
            let t: i64 = self.log[k].when_run.unwrap();
            if t < lo {
                lo = t;
            }
            if t > hi {
                hi = t;
            }
            k += 1;
        }
        (lo, hi)
    }

    /// How many rows of the whole log have the text of row `i`.
    fn count_text(&self, i: usize) -> (r: usize)
        requires
            i < self.log@.len(),
        ensures
            r == occurrences_of(self.log@, self.log@[i as int].cmd@, self.log@.len() as int),
            r >= 1,
    {
        let mut count: usize = 0;
        let mut j: usize = 0;
        while j < self.log.len()
            invariant
                j <= self.log@.len(),
                i < self.log@.len(),
                count <= j,
                j > i ==> count >= 1,
                count == occurrences_of(self.log@, self.log@[i as int].cmd@, j as int),
            decreases self.log@.len() - j,
        {
            if self.log[j].cmd == self.log[i].cmd {
                count += 1;
            }
            j += 1;
        }
        count
    }

    /// The largest number of rows of the whole log that share one text.
    fn most_occurrences(&self) -> (r: usize)
        ensures
            r == max_occurrences(self.log@, self.log@.len() as int),
            self.log@.len() > 0 ==> r >= 1,
    {
        let mut best: usize = 0;
        let mut i: usize = 0;
        while i < self.log.len()
            invariant
                i <= self.log@.len(),
                best == max_occurrences(self.log@, i as int),
                i > 0 ==> best >= 1,
            decreases self.log@.len() - i,
        {
            let here: usize = self.count_text(i);
            if here > best {
                best = here;
            }
            i += 1;
        }
        best
    }

    /// Whether some row just before row `j` has template `t`.
    fn seen_before(&self, j: usize, t: &String) -> (r: bool)
        requires
            log_wf(self.log@),
            j < self.log@.len(),
        ensures
            r == seen_template(self.log@, j as int, t@),
    {
        let lo: i128 = self.log[j].id as i128 - 3;
        let mut k: usize = j;
        let mut found: bool = false;
        let mut go: bool = true;
        while go
            invariant
                log_wf(self.log@),
                k <= j < self.log@.len(),
                lo == self.log@[j as int].id - 3,
                forall|m: int| k <= m < j ==> self.log@[m].id >= lo,
                found == exists|m: int| k <= m < j && near_with_template(self.log@, j as int, m, t@),
                !go ==> k == 0 || self.log@[k - 1].id < lo,
            decreases k + (if go { 1int } else { 0int }),
        {
            if k == 0 || (self.log[k - 1].id as i128) < lo {
                go = false;
            } else {
                k -= 1;
                if self.log[k].cmd_tpl == *t {
                    found = true;
                    assert(near_with_template(self.log@, j as int, k as int, t@));
                }
            }
        }
        proof {
            assert forall|m: int| near_with_template(self.log@, j as int, m, t@) implies k <= m < j by {
                if m >= j {
                    assert(m == j || self.log@[j as int].id < self.log@[m].id);
                }
                if m < k {
                    assert(m == k - 1 || self.log@[m].id < self.log@[k - 1].id);
                }
            }
        }
        found
    }

    /// Whether the row just before row `j` by id has template `t`.
    fn follows(&self, j: usize, t: &String) -> (r: bool)
        requires
            log_wf(self.log@),
            j < self.log@.len(),
        ensures
            r == follows_template(self.log@, j as int, t@),
    {
        if j == 0 {
            proof {
                assert forall|m: int| !precedes_with_template(self.log@, j as int, m, t@) by {
                    if 0 < m < self.log@.len() {
                        assert(self.log@[0].id < self.log@[m].id);
                    }
                }
            }
            return false;
        }
        let r = (self.log[j - 1].id as i128) == (self.log[j].id as i128) - 1 && self.log[j - 1].cmd_tpl == *t;
        proof {
            if r {
                assert(precedes_with_template(self.log@, j as int, j - 1, t@));
            } else {
                assert forall|m: int| !precedes_with_template(self.log@, j as int, m, t@) by {
                    if 0 <= m < self.log@.len() && m != j - 1 {
                        if m < j - 1 {
                            assert(self.log@[m].id < self.log@[j - 1].id);
                            assert(self.log@[j - 1].id < self.log@[j as int].id);
                        } else if m > j {
                            assert(self.log@[j as int].id < self.log@[m].id);
                        }
                    }
                }
            }
        }
        r
    }

    /// Whether row `j` takes part in the view.
    fn takes_part(&self, j: usize, start: i64, end: i64, Ghost(ctx): Ghost<Context>) -> (r: bool)
        requires
            log_wf(self.log@),
            j < self.log@.len(),
            ctx.start == start,
            ctx.end == end,
        ensures
            r == grouped(self.log@, ctx, j as int),
    {
        let t: i64 = self.log[j].when_run.unwrap();
        j >= 1 && start < t && t < end
    }

    /// Whether no later row belongs to the group of row `i`.
    fn is_latest(&self, i: usize, start: i64, end: i64, Ghost(ctx): Ghost<Context>) -> (r: bool)
        requires
            log_wf(self.log@),
            i < self.log@.len(),
            ctx.start == start,
            ctx.end == end,
        ensures
            r == forall|j: int| i < j < self.log@.len() ==> !#[trigger] in_group(self.log@, ctx, i as int, j),
    {
        let n: usize = self.log.len();
        let mut j: usize = i + 1;
        while j < self.log.len()
            invariant
                log_wf(self.log@),
                i < j <= self.log@.len(),
                ctx.start == start,
                ctx.end == end,
                forall|m: int| i < m < j ==> !#[trigger] in_group(self.log@, ctx, i as int, m),
            decreases self.log@.len() - j,
        {
            if self.takes_part(j, start, end, Ghost(ctx)) && self.log[j].cmd == self.log[i].cmd {
                assert(in_group(self.log@, ctx, i as int, j as int));
                return false;
            }
            j += 1;
        }
        true
    }

    /// The scored row of the group whose latest row is row `i`.
    fn score_group(
        &self,
        i: usize,
        dir: &String,
        t0: &String,
        t1: &String,
        t2: &String,
        start: i64,
        end: i64,
        now: i64,
        oldest: i64,
        newest: i64,
        most: usize,
        Ghost(ctx): Ghost<Context>,
    ) -> (v: Command)
        requires
            log_wf(self.log@),
            i < self.log@.len(),
            grouped(self.log@, ctx, i as int),
            context_holds(ctx, dir@, t0@, t1@, t2@, start, end, now),
            oldest == oldest_run(self.log@, self.log@.len() as int),
            newest == newest_run(self.log@, self.log@.len() as int),
            forall|k: int| 0 <= k < self.log@.len() ==> oldest <= #[trigger] run_time(self.log@, k) <= newest,
            most == max_occurrences(self.log@, self.log@.len() as int),
            most >= 1,
        ensures
            is_scored(v, self.log@, ctx, i as int),
            factors_bounded(v),
    {
        let ghost log = self.log@;
        let ghost gi = i as int;
        let mut count: u128 = 0;
        let mut good: u128 = 0;
        let mut failed: u128 = 0;
        let mut here: u128 = 0;
        let mut near: u128 = 0;
        let mut next: u128 = 0;
        let mut first: i64 = self.log[i].when_run.unwrap();
        assert(oldest <= run_time(log, gi) <= newest);
        let mut j: usize = 0;
        while j < self.log.len()
            invariant
                log == self.log@,
                gi == i as int,
                log_wf(log),
                i < log.len(),
                j <= log.len(),
                grouped(log, ctx, gi),
                context_holds(ctx, dir@, t0@, t1@, t2@, start, end, now),
                forall|k: int| 0 <= k < log.len() ==> oldest <= #[trigger] run_time(log, k) <= newest,
                count == group_sum(log, ctx, gi, j as int, Feature::Occurrences),
                good == group_sum(log, ctx, gi, j as int, Feature::Successes),
                failed == group_sum(log, ctx, gi, j as int, Feature::RecentFailures),
                here == group_sum(log, ctx, gi, j as int, Feature::DirMatches),
                near == group_sum(log, ctx, gi, j as int, Feature::Overlap),
                next == group_sum(log, ctx, gi, j as int, Feature::ImmediateOverlap),
                first == group_oldest(log, ctx, gi, j as int),
                oldest <= first <= newest,
                count <= j,
                good <= count,
                failed <= j,
                here <= j,
                near <= 3 * j,
                next <= j,
                j > i ==> count >= 1,
            decreases log.len() - j,
        {
            let row = &self.log[j];
            let member = self.takes_part(j, start, end, Ghost(ctx)) && row.cmd == self.log[i].cmd;
            assert(member == in_group(log, ctx, gi, j as int));
            if member {
                let t: i64 = row.when_run.unwrap();
                let code: i32 = row.exit_code.unwrap();
                assert(oldest <= run_time(log, j as int) <= newest);
                count += 1;
                if code == 0 {
                    good += 1;
                }
                if code == 1 && (now as i128) - (t as i128) < 120 {
                    assert(failed_lately(log, j as int, ctx.now));
                    failed += 1;
                }
                let in_dir = match &row.dir {
                    Some(d) => *d == *dir,
                    None => false,
                };
                assert(in_dir == ran_in(log, j as int, ctx.dir));
                if in_dir {
                    here += 1;
                }
                let mut around: u128 = 0;
                if self.seen_before(j, t0) {
                    around += 1;
                }
                if !(*t1 == *t0) && self.seen_before(j, t1) {
                    around += 1;
                }
                if !(*t2 == *t0) && !(*t2 == *t1) && self.seen_before(j, t2) {
                    around += 1;
                }
                assert(around == row_overlap(log, ctx, j as int));
                near += around;
                if self.follows(j, t0) {
                    next += 1;
                }
                if t < first {
                    first = t;
                }
            }
            j += 1;
        }
        let span: i128 = (newest as i128) - (oldest as i128);
        let den: u128 = if span == 0 { 3600 } else { span as u128 };
        let mut v = self.log[i].record_of();
        v.age_factor = Ratio { num: ((newest as i128) - (first as i128)) as u128, den };
        v.exit_factor = Ratio { num: good, den: count };
        v.recent_failure_factor = Ratio { num: if failed > 0 { 1 } else { 0 }, den: 1 };
        v.dir_factor = Ratio { num: here, den: most as u128 };
        v.overlap_factor = Ratio { num: near, den: 3 * (most as u128) };
        v.immediate_overlap_factor = Ratio { num: next, den: most as u128 };
        v.occurrences_factor = Ratio { num: count, den: most as u128 };
        v
    }

    /// The three most recent templates: those of the session or, where it has
    /// fewer than three, of the whole log, filled up with empty texts.
    pub fn template_window(&self, session_id: &Option<String>) -> (w: Vec<String>)
        requires
            self.wf(),
        ensures
            w@.len() == 3,
            forall|k: int| 0 <= k < 3 ==> (#[trigger] w@[k])@ == window_slot(self.log@, session_of(*session_id), k),
    {
        let mut w = self.last_command_templates(session_id, 3, 0);
        if w.len() < 3 {
            let all: Option<String> = None;
            w = self.last_command_templates(&all, 3, 0);
            while w.len() < 3
                invariant
                    w@.len() <= 3,
                    forall|k: int| 0 <= k < w@.len() ==> (#[trigger] w@[k])@ == window_slot(self.log@, session_of(*session_id), k),
                    forall|k: int| w@.len() <= k < 3 ==> window_slot(self.log@, session_of(*session_id), k) == Seq::<char>::empty(),
                decreases 3 - w@.len(),
            {
                w.push(String::new());
            }
        }
        w
    }

    /// Builds the scored view anew from the log: one row for each text that
    /// occurs among the rows that ran inside the open time window (from 0 and
    /// up to `now` where no bound is given), the earliest row of the log left
    /// out. The groups come newest first, each with its factors and no rank.
    pub fn build_cache_table(
        &mut self,
        dir: &String,
        session_id: &Option<String>,
        start_time: Option<i64>,
        end_time: Option<i64>,
        now: i64,
    )
        requires
            old(self).wf(),
        ensures
            final(self).wf(),
            final(self).log@ == old(self).log@,
            is_view_of(
                final(self).view@,
                old(self).log@,
                context(old(self).log@, dir@, session_of(*session_id), start_time, end_time, now),
            ),
            forall|k: int| 0 <= k < final(self).view@.len() ==> factors_bounded(#[trigger] final(self).view@[k]),
    {
        let window = self.template_window(session_id);
        let start: i64 = match start_time {
            Some(t) => t,
            None => 0,
        };
        let end: i64 = match end_time {
            Some(t) => t,
            None => now,
        };
        let ghost log = self.log@;
        let ghost ctx = context(log, dir@, session_of(*session_id), start_time, end_time, now);
        let (oldest, newest) = self.run_bounds();
        let most: usize = self.most_occurrences();
        let mut view: Vec<Command> = Vec::new();
        let ghost mut picked: Seq<int> = Seq::empty();
        let mut n: usize = self.log.len();
        while n > 1
            invariant
                log == self.log@,
                self.wf(),
                n <= log.len(),
                log.len() > 0 ==> n >= 1,
                window@.len() == 3,
                context_holds(ctx, dir@, window@[0]@, window@[1]@, window@[2]@, start, end, now),
                oldest == oldest_run(log, log.len() as int),
                newest == newest_run(log, log.len() as int),
                forall|k: int| 0 <= k < log.len() ==> oldest <= #[trigger] run_time(log, k) <= newest,
                most == max_occurrences(log, log.len() as int),
                log.len() > 0 ==> most >= 1,
                picked == reps(log, ctx, n as int),
                view@.len() == picked.len(),
                forall|k: int| 0 <= k < picked.len() ==> n <= #[trigger] picked[k] < log.len(),
                forall|k: int| 0 <= k < view@.len() ==> is_scored(#[trigger] view@[k], log, ctx, picked[k]),
                forall|k: int| 0 <= k < view@.len() ==> factors_bounded(#[trigger] view@[k]),
                view_wf(view@),
            decreases n,
        {
            n -= 1;
            if self.takes_part(n, start, end, Ghost(ctx)) && self.is_latest(n, start, end, Ghost(ctx)) {
                assert(is_rep(log, ctx, n as int));
                let row = self.score_group(
                    n,
                    dir,
                    &window[0],
                    &window[1],
                    &window[2],
                    start,
                    end,
                    now,
                    oldest,
                    newest,
                    most,
                    Ghost(ctx),
                );
                proof {
                    assert forall|a: int| 0 <= a < view@.len() implies (#[trigger] view@[a]).id > row.id by {
                        assert(n < picked[a] < log.len());
                        assert(is_scored(view@[a], log, ctx, picked[a]));
                        assert(log[n as int].id < log[picked[a]].id);
                    }
                    picked = picked.push(n as int);
                }
                view.push(row);
            } else {
                assert(!is_rep(log, ctx, n as int));
            }
        }
        proof {
            assert(picked == reps(log, ctx, 1));
        }
        self.view = view;
    }
}

} // verus!
