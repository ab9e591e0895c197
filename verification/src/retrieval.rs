//! Ranking the scored view and querying it by a piece of text.

use vstd::prelude::*;
use crate::command::Command;
use crate::history::History;
use crate::text::{chars_of, contains, contains_chars};

verus! {

/// `a` comes before `b` in a result: it has the larger rank or, with the same
/// rank, the larger id.
pub open spec fn outranks(a: Command, b: Command) -> bool {
    a.rank > b.rank || (a.rank == b.rank && a.id > b.id)
}

/// How many rows a query hands out at most: ten where no number is given.
pub open spec fn limit_of(num: Option<u16>) -> int {
    match num {
        Some(n) => n as int,
        None => 10,
    }
}

/// `r` is the same row as `v`, record and score.
pub open spec fn same_row(r: Command, v: Command) -> bool {
    r.same_record(v) && r.same_score(v)
}

/// Row `r` is a row of the view whose text holds `s`.
pub open spec fn is_hit(r: Command, view: Seq<Command>, s: Seq<char>) -> bool {
    exists|m: int| 0 <= m < view.len() && same_row(r, #[trigger] view[m]) && contains(view[m].cmd@, s)
}

/// Row `v` of the view is handed out in `r`.
pub open spec fn handed_out(r: Seq<Command>, v: Command) -> bool {
    exists|k: int| 0 <= k < r.len() && (#[trigger] r[k]).id == v.id
}

/// The result `r` is full and row `v` comes after all of it.
pub open spec fn left_out(r: Seq<Command>, limit: int, v: Command) -> bool {
    r.len() == limit && (limit == 0 || outranks(r.last(), v))
}

/// `r` is what a query for `s` hands out of `view`: the best `limit` rows
/// whose text holds `s`, or all of them where there are fewer, the best first.
pub open spec fn is_selection(r: Seq<Command>, view: Seq<Command>, s: Seq<char>, limit: int) -> bool {
    &&& r.len() <= limit
    &&& forall|k: int| 0 <= k < r.len() ==> is_hit(#[trigger] r[k], view, s)
    &&& forall|a: int, b: int| 0 <= a < b < r.len() ==> outranks(#[trigger] r[a], #[trigger] r[b])
    &&& forall|m: int| 0 <= m < view.len() && contains((#[trigger] view[m]).cmd@, s)
            ==> handed_out(r, view[m]) || left_out(r, limit, view[m])
}

/// `after` is `before` with the ranks given, row by row, and nothing else changed.
pub open spec fn ranked(before: Seq<Command>, after: Seq<Command>, ranks: Seq<i64>) -> bool {
    &&& after.len() == before.len()
    &&& forall|k: int| 0 <= k < after.len() ==> (#[trigger] after[k]).same_record(before[k])
            && after[k].same_factors(before[k]) && after[k].rank == ranks[k]
}

/// Whether `a` comes before `b` in a result.
pub fn comes_before(a: &Command, b: &Command) -> (r: bool)
    ensures
        r == outranks(*a, *b),
{
    a.rank > b.rank || (a.rank == b.rank && a.id > b.id)
}

impl History {
    /// Gives each row of the view its rank, in the order of the view: for row
    /// `k` an integer that stands for the weighted sum of its factors, ordered
    /// as those sums are. Nothing is changed where the number of ranks is not
    /// that of the rows.
    pub fn set_ranks(&mut self, ranks: &Vec<i64>) -> (done: bool)
        requires
            old(self).wf(),
        ensures
            final(self).wf(),
            final(self).log@ == old(self).log@,
            done == (ranks@.len() == old(self).view@.len()),
            !done ==> final(self).view@ == old(self).view@,
            done ==> ranked(old(self).view@, final(self).view@, ranks@),
    {
        if ranks.len() != self.view.len() {
            return false;
        }
        let mut view: Vec<Command> = Vec::new();
        let mut k: usize = 0;
        while k < self.view.len()
            invariant
                k <= self.view@.len(),
                ranks@.len() == self.view@.len(),
                view@.len() == k,
                forall|m: int| 0 <= m < k ==> (#[trigger] view@[m]).same_record(self.view@[m])
                    && view@[m].same_factors(self.view@[m]) && view@[m].rank == ranks@[m],
            decreases self.view@.len() - k,
        {
            let mut row = self.view[k].clone();
            row.rank = ranks[k];
            view.push(row);
            k += 1;
        }
        proof {
            assert forall|a: int, b: int| 0 <= a < b < view@.len() implies (#[trigger] view@[a]).id > (#[trigger] view@[b]).id by {
                assert(self.view@[a].id > self.view@[b].id);
            }
        }
        self.view = view;
        true
    }

    /// The rows of the view whose text holds `cmd`, the best first: at most
    /// `num` of them, or ten where no number is given.
    pub fn find_matches(&self, cmd: &String, num: Option<u16>) -> (r: Vec<Command>)
        requires
            self.wf(),
        ensures
            is_selection(r@, self.view@, cmd@, limit_of(num)),
            r@.len() <= limit_of(num),
            forall|k: int| 0 <= k < r@.len() ==> contains((#[trigger] r@[k]).cmd@, cmd@),
            forall|a: int, b: int| 0 <= a < b < r@.len() ==> (#[trigger] r@[a]).rank >= (#[trigger] r@[b]).rank,
    {
        let limit: usize = match num {
            Some(n) => n as usize,
            None => 10,
        };
        let ghost view = self.view@;
        let ghost s = cmd@;
        let pattern = chars_of(cmd.as_str());
        let mut hits: Vec<bool> = Vec::new();
        let mut i: usize = 0;
        while i < self.view.len()
            invariant
                i <= self.view@.len(),
                hits@.len() == i,
                pattern@ == cmd@,
                forall|m: int| 0 <= m < i ==> #[trigger] hits@[m] == contains(self.view@[m].cmd@, cmd@),
            decreases self.view@.len() - i,
        {
            let text = chars_of(self.view[i].cmd.as_str());
            hits.push(contains_chars(&text, &pattern));
            i += 1;
        }
        let mut out: Vec<Command> = Vec::new();
        let ghost mut picks: Seq<int> = Seq::empty();
        let mut last: usize = 0;
        let mut open: bool = true;
        while open && out.len() < limit
            invariant
                view == self.view@,
                s == cmd@,
                self.wf(),
                hits@.len() == view.len(),
                forall|m: int| 0 <= m < view.len() ==> #[trigger] hits@[m] == contains(view[m].cmd@, s),
                out@.len() <= limit,
                picks.len() == out@.len(),
                forall|k: int| 0 <= k < out@.len() ==> 0 <= #[trigger] picks[k] < view.len() && hits@[picks[k]]
                    && same_row(out@[k], view[picks[k]]),
                forall|a: int, b: int| 0 <= a < b < out@.len() ==> outranks(#[trigger] out@[a], #[trigger] out@[b]),
                out@.len() > 0 ==> last == picks.last(),
                forall|m: int| 0 <= m < view.len() && #[trigger] hits@[m] && out@.len() > 0
                    && !outranks(view[last as int], view[m]) ==> picks.contains(m),
                !open ==> forall|m: int| 0 <= m < view.len() && #[trigger] hits@[m] ==> picks.contains(m),
            decreases (limit - out@.len()) + (if open { 1int } else { 0int }),
        {
            let started: bool = out.len() > 0;
            let mut best: Option<usize> = None;
            let mut m: usize = 0;
            while m < self.view.len()
                invariant
                    view == self.view@,
                    self.wf(),
                    m <= view.len(),
                    hits@.len() == view.len(),
                    started ==> last < view.len(),
                    best.is_some() ==> best.unwrap() < m && hits@[best.unwrap() as int]
                        && (started ==> outranks(view[last as int], view[best.unwrap() as int])),
                    forall|x: int| 0 <= x < m && #[trigger] hits@[x] && (started ==> outranks(view[last as int], view[x]))
                        ==> best.is_some() && (x == best.unwrap() || outranks(view[best.unwrap() as int], view[x])),
                decreases view.len() - m,
            {
                if hits[m] && (!started || comes_before(&self.view[last], &self.view[m])) {
                    match best {
                        None => {
                            best = Some(m);
                        },
                        Some(b) => {
                            assert(view[b as int].id > view[m as int].id);
                            if comes_before(&self.view[m], &self.view[b]) {
                                best = Some(m);
                            }
                        },
                    }
                }
                m += 1;
            }
            match best {
                None => {
                    open = false;
                },
                Some(b) => {
                    let row = self.view[b].clone();
                    proof {
                        assert forall|a: int| 0 <= a < out@.len() implies outranks(#[trigger] out@[a], row) by {
                            let e = out@.len() - 1;
                            assert(same_row(out@[e], view[picks[e]]));
                            assert(a == e || outranks(out@[a], out@[e]));
                        }
                        assert forall|x: int| 0 <= x < view.len() && #[trigger] hits@[x]
                            && !outranks(view[b as int], view[x]) implies picks.push(b as int).contains(x) by {
                            if x == b {
                                assert(picks.push(b as int)[picks.len() as int] == x);
                            } else {
                                assert(picks.contains(x));
                                let w = choose|w: int| 0 <= w < picks.len() && picks[w] == x;
                                assert(picks.push(b as int)[w] == x);
                            }
                        }
                        picks = picks.push(b as int);
                    }
                    out.push(row);
                    last = b;
                },
            }
        }
        proof {
            assert forall|k: int| 0 <= k < out@.len() implies is_hit(#[trigger] out@[k], view, s) && contains(
                out@[k].cmd@,
                s,
            ) by {
                let m = picks[k];
                assert(same_row(out@[k], view[m]) && contains(view[m].cmd@, s));
            }
            assert forall|m: int| 0 <= m < view.len() && contains((#[trigger] view[m]).cmd@, s) implies handed_out(
                out@,
                view[m],
            ) || left_out(out@, limit as int, view[m]) by {
                assert(hits@[m]);
                if picks.contains(m) {
                    let w = choose|w: int| 0 <= w < picks.len() && picks[w] == m;
                    assert(same_row(out@[w], view[m]));
                    assert(out@[w].id == view[m].id);
                } else if limit > 0 {
                    let e = out@.len() - 1;
                    assert(same_row(out@[e], view[picks[e]]));
                }
            }
        }
        out
    }
}

} // verus!
