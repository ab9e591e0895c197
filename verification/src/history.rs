//! The command log with its scored view, and the operations on both.

use vstd::prelude::*;
use crate::command::Command;
use crate::command::Ratio;
use crate::scoring::{ids_increase, in_session, log_wf, recent, session_of, session_rows, view_wf};
use crate::text::{chars_of, has_prefix, starts_with_chars};

verus! {

/// Why a command was not appended to the log.
#[derive(Debug, Clone, Copy, PartialEq, Eq, Structural)]
pub enum AppendError {
    /// The command has no time: every row of the log has one.
    MissingTime,
    /// The command has no exit code: every row of the log has one.
    MissingExitCode,
    /// The newest row holds the largest id there is.
    LogFull,
}

/// The command log, oldest row first, and the scored view built from it.
#[derive(Debug)]
pub struct History {
    pub log: Vec<Command>,
    pub view: Vec<Command>,
}

/// The text is one of the commands that are never recorded.
pub open spec fn is_ignored(cmd: Seq<char>) -> bool {
    ||| cmd == "pwd"@
    ||| cmd == "ls"@
    ||| cmd == "cd"@
    ||| cmd == "cd .."@
    ||| cmd == "clear"@
    ||| cmd == "history"@
    ||| cmd == "mcfly search"@
}

/// A command is recorded unless it is empty, marks a suggestion taken, begins
/// with a space, is one of the ignored commands or repeats the newest row.
pub open spec fn should_record(log: Seq<Command>, cmd: Seq<char>) -> bool {
    &&& cmd.len() > 0
    &&& !has_prefix(cmd, "#mcfly:"@)
    &&& !has_prefix(cmd, " "@)
    &&& !is_ignored(cmd)
    &&& !(log.len() > 0 && log.last().cmd@ == cmd)
}

/// Whether the text is one of the commands that are never recorded.
pub fn is_ignored_command(cmd: &str) -> (r: bool)
    ensures
        r == is_ignored(cmd@),
{
    let c = cmd.to_owned();
    c == "pwd".to_owned() || c == "ls".to_owned() || c == "cd".to_owned() || c == "cd ..".to_owned()
        || c == "clear".to_owned() || c == "history".to_owned() || c == "mcfly search".to_owned()
}

impl History {
    /// Both the log and the view are well formed.
    pub open spec fn wf(&self) -> bool {
        log_wf(self.log@) && view_wf(self.view@)
    }

    /// A history over the rows given, oldest first, with an empty view; none
    /// where a row lacks its time or exit code or the ids do not grow.
    pub fn load(rows: Vec<Command>) -> (r: Option<History>)
        ensures
            r.is_some() == log_wf(rows@),
            r.is_some() ==> r.unwrap().log@ == rows@ && r.unwrap().view@.len() == 0 && r.unwrap().wf(),
    {
        let mut i: usize = 0;
        while i < rows.len()
            invariant
                i <= rows.len(),
                forall|a: int| 0 <= a < i ==> (#[trigger] rows@[a]).when_run.is_some() && rows@[a].exit_code.is_some(),
                forall|a: int| 0 < a < i ==> rows@[a - 1].id < (#[trigger] rows@[a]).id,
            decreases rows.len() - i,
        {
            if rows[i].when_run.is_none() || rows[i].exit_code.is_none() {
                return None;
            }
            if i > 0 && rows[i - 1].id >= rows[i].id {
                proof {
                    assert(rows@[i - 1].id >= rows@[i as int].id);
                }
                return None;
            }
            i += 1;
        }
        proof {
            lemma_steps_increase(rows@);
        }
        Some(History { log: rows, view: Vec::new() })
    }

    /// The history that a first import makes of a shell history: one row for
    /// each line, given with its template, that is not an ignored command, in
    /// the order of the lines.
    pub fn from_bash_history(lines: &Vec<(String, String)>, epoch: i64) -> (r: History)
        requires
            lines@.len() <= i64::MAX,
        ensures
            r.wf(),
            r.view@.len() == 0,
            r.log@.len() == kept_lines(lines@, lines@.len() as int).len(),
            forall|k: int| 0 <= k < r.log@.len() ==> is_imported(
                #[trigger] r.log@[k],
                k,
                lines@[kept_lines(lines@, lines@.len() as int)[k]],
                epoch,
            ),
    {
        let mut log: Vec<Command> = Vec::new();
        let mut n: usize = 0;
        while n < lines.len()
            invariant
                n <= lines@.len() <= i64::MAX,
                log@.len() <= n,
                log@.len() == kept_lines(lines@, n as int).len(),
                forall|k: int| 0 <= k < log@.len() ==> is_imported(
                    #[trigger] log@[k],
                    k,
                    lines@[kept_lines(lines@, n as int)[k]],
                    epoch,
                ),
            decreases lines@.len() - n,
        {
            if !is_ignored_command(lines[n].0.as_str()) {
                let mut row = Command::default();
                row.id = (log.len() + 1) as i64;
                row.cmd = lines[n].0.clone();
                row.cmd_tpl = lines[n].1.clone();
                row.session_id = "IMPORTED".to_owned();
                row.when_run = Some(epoch);
                row.exit_code = Some(0);
                log.push(row);
            }
            n += 1;
        }
        let r = History { log, view: Vec::new() };
        proof {
            assert forall|a: int, b: int| 0 <= a < b < r.log@.len() implies (#[trigger] r.log@[a]).id < (#[trigger] r.log@[b]).id by {}
        }
        r
    }

    /// Whether a command that was just run is to be recorded.
    pub fn should_add(&self, command: &String) -> (r: bool)
        ensures
            r == should_record(self.log@, command@),
    {
        let text = chars_of(command.as_str());
        if text.len() == 0 {
            return false;
        }
        let mark = chars_of("#mcfly:");
        if starts_with_chars(&text, &mark) {
            return false;
        }
        let space = chars_of(" ");
        if starts_with_chars(&text, &space) {
            return false;
        }
        if is_ignored_command(command.as_str()) {
            return false;
        }
        let n: usize = self.log.len();
        if n == 0 {
            return true;
        }
        !(self.log[n - 1].cmd == *command)
    }

    /// Appends a command that has just run, under the id that follows the
    /// newest row's (1 in an empty log). The view is left as it is.
    pub fn add(
        &mut self,
        command: &String,
        cmd_tpl: &String,
        session_id: &String,
        dir: &String,
        when_run: &Option<i64>,
        exit_code: &Option<i32>,
    ) -> (r: Result<(), AppendError>)
        requires
            old(self).wf(),
        ensures
            final(self).wf(),
            final(self).view@ == old(self).view@,
            r == append_outcome(old(self).log@, *when_run, *exit_code),
            r.is_err() ==> final(self).log@ == old(self).log@,
            r.is_ok() ==> appended(old(self).log@, final(self).log@, command@, cmd_tpl@, session_id@, dir@, when_run.unwrap(), exit_code.unwrap()),
    {
        if when_run.is_none() {
            return Err(AppendError::MissingTime);
        }
        if exit_code.is_none() {
            return Err(AppendError::MissingExitCode);
        }
        let n: usize = self.log.len();
        let mut id: i64 = 1;
        if n > 0 {
            let last: i64 = self.log[n - 1].id;
            if last == i64::MAX {
                return Err(AppendError::LogFull);
            }
            id = last + 1;
        }
        let row = Command {
            id,
            cmd: command.clone(),
            cmd_tpl: cmd_tpl.clone(),
            session_id: session_id.clone(),
            rank: 0,
            when_run: *when_run,
            exit_code: *exit_code,
            dir: Some(dir.clone()),
            age_factor: Ratio::zero(),
            exit_factor: Ratio::zero(),
            recent_failure_factor: Ratio::zero(),
            dir_factor: Ratio::zero(),
            overlap_factor: Ratio::zero(),
            immediate_overlap_factor: Ratio::zero(),
            occurrences_factor: Ratio::zero(),
        };
        self.log.push(row);
        proof {
            assert(self.log@.subrange(0, n as int) =~= old(self).log@);
        }
        Ok(())
    }

    /// The most recent rows of a session, or of the whole log where none is
    /// named, the newest first: `offset` rows are passed over, then at most
    /// `num` follow, or all of them where `num` is negative.
    pub fn commands(&self, session_id: &Option<String>, num: i16, offset: u16) -> (r: Vec<Command>)
        requires
            self.wf(),
        ensures
            r@.len() == recent(self.log@, session_of(*session_id), num as int, offset as int).len(),
            forall|k: int| 0 <= k < r@.len() ==> is_copy_of(
                #[trigger] r@[k],
                self.log@[recent(self.log@, session_of(*session_id), num as int, offset as int)[k]],
            ),
            forall|k: int| 0 <= k < r@.len() ==> 0 <= #[trigger] recent(self.log@, session_of(*session_id), num as int, offset as int)[k] < self.log@.len(),
    {
        let ghost s = session_of(*session_id);
        let mut out: Vec<Command> = Vec::new();
        let mut seen: usize = 0;
        let mut n: usize = self.log.len();
        while n > 0
            invariant
                n <= self.log.len(),
                seen == session_rows(self.log@, s, n as int).len(),
                seen <= self.log.len() - n,
                s == session_of(*session_id),
                out@.len() == shown(seen as int, num as int, offset as int),
                forall|k: int| 0 <= k < session_rows(self.log@, s, n as int).len() ==> n <= #[trigger] session_rows(self.log@, s, n as int)[k] < self.log@.len(),
                forall|k: int| 0 <= k < out@.len() ==> is_copy_of(
                    #[trigger] out@[k],
                    self.log@[session_rows(self.log@, s, n as int)[offset + k]],
                ),
            decreases n,
        {
            n -= 1;
            let row = &self.log[n];
            let wanted = match session_id {
                Some(sid) => row.session_id == *sid,
                None => true,
            };
            assert(wanted == in_session(self.log@[n as int], s));
            if wanted {
                if seen >= offset as usize && (num < 0 || out.len() < num as usize) {
                    out.push(row.record_of());
                }
                seen += 1;
            }
        }
        proof {
            let rows = session_rows(self.log@, s, 0);
            let sel = recent(self.log@, s, num as int, offset as int);
            assert(sel.len() == out@.len());
            assert forall|k: int| 0 <= k < out@.len() implies sel[k] == rows[offset + k] by {}
        }
        out
    }

    /// The newest row of a session, or of the whole log where none is named.
    pub fn last_command(&self, session_id: &Option<String>) -> (r: Option<Command>)
        requires
            self.wf(),
        ensures
            r.is_some() == (recent(self.log@, session_of(*session_id), 1, 0).len() > 0),
            r.is_some() ==> is_copy_of(r.unwrap(), self.log@[recent(self.log@, session_of(*session_id), 1, 0)[0]]),
    {
        let mut rows = self.commands(session_id, 1, 0);
        rows.pop()
    }

    /// The templates of the most recent rows, chosen as by `commands`.
    pub fn last_command_templates(&self, session_id: &Option<String>, num: i16, offset: u16) -> (r: Vec<String>)
        requires
            self.wf(),
        ensures
            r@.len() == recent(self.log@, session_of(*session_id), num as int, offset as int).len(),
            forall|k: int| 0 <= k < r@.len() ==> (#[trigger] r@[k])@
                == self.log@[recent(self.log@, session_of(*session_id), num as int, offset as int)[k]].cmd_tpl@,
    {
        let rows = self.commands(session_id, num, offset);
        let mut out: Vec<String> = Vec::new();
        let mut k: usize = 0;
        while k < rows.len()
            invariant
                k <= rows.len(),
                out@.len() == k,
                forall|m: int| 0 <= m < k ==> (#[trigger] out@[m])@ == rows@[m].cmd_tpl@,
            decreases rows.len() - k,
        {
            out.push(rows[k].cmd_tpl.clone());
            k += 1;
        }
        out
    }
}

/// The places, among the first `n` lines of a shell history, of the lines
/// that an import keeps: those that are not ignored commands.
pub open spec fn kept_lines(lines: Seq<(String, String)>, n: int) -> Seq<int>
    decreases n,
{
    if n <= 0 {
        Seq::empty()
    } else if is_ignored(lines[n - 1].0@) {
        kept_lines(lines, n - 1)
    } else {
        kept_lines(lines, n - 1).push(n - 1)
    }
}

/// Row `row` is what an import makes of a line and its template, as the
/// row of place `k`: ids count from 1, the session is `IMPORTED`, the time is
/// that of the import, the exit code is 0 and there is no directory.
pub open spec fn is_imported(row: Command, k: int, line: (String, String), epoch: i64) -> bool {
    &&& row.id == k + 1
    &&& row.cmd@ == line.0@
    &&& row.cmd_tpl@ == line.1@
    &&& row.session_id@ == "IMPORTED"@
    &&& row.when_run == Some(epoch)
    &&& row.exit_code == Some(0i32)
    &&& row.dir.is_none()
    &&& row.unscored()
}

/// `r` holds what the log stores of `c`, with no factor computed.
pub open spec fn is_copy_of(r: Command, c: Command) -> bool {
    r.same_record(c) && r.unscored()
}

/// How many rows are handed out once `seen` rows of the session were met.
pub open spec fn shown(seen: int, num: int, offset: int) -> int {
    if seen <= offset {
        0
    } else if num < 0 || seen - offset <= num {
        seen - offset
    } else {
        num
    }
}

/// Whether a command with this time and exit code is appended to `log`, and
/// if not, why: the time is looked at first, then the exit code, then the ids.
pub open spec fn append_outcome(log: Seq<Command>, when_run: Option<i64>, exit_code: Option<i32>) -> Result<
    (),
    AppendError,
> {
    if when_run.is_none() {
        Err(AppendError::MissingTime)
    } else if exit_code.is_none() {
        Err(AppendError::MissingExitCode)
    } else if log.len() > 0 && log.last().id == i64::MAX {
        Err(AppendError::LogFull)
    } else {
        Ok(())
    }
}

/// `after` is `before` with one more row at its end: the command given, under
/// the id that follows.
pub open spec fn appended(
    before: Seq<Command>,
    after: Seq<Command>,
    cmd: Seq<char>,
    cmd_tpl: Seq<char>,
    session_id: Seq<char>,
    dir: Seq<char>,
    when_run: i64,
    exit_code: i32,
) -> bool {
    let row = after.last();
    &&& after.len() == before.len() + 1
    &&& after.subrange(0, before.len() as int) == before
    &&& row.id == (if before.len() == 0 { 1 } else { before.last().id + 1 })
    &&& row.cmd@ == cmd
    &&& row.cmd_tpl@ == cmd_tpl
    &&& row.session_id@ == session_id
    &&& row.when_run == Some(when_run)
    &&& row.exit_code == Some(exit_code)
    &&& row.dir.is_some() && row.dir.unwrap()@ == dir
    &&& row.unscored()
}

/// Ids that grow from each row to the next grow along the whole log.
pub proof fn lemma_steps_increase(log: Seq<Command>)
    requires
        forall|a: int| 0 < a < log.len() ==> log[a - 1].id < (#[trigger] log[a]).id,
    ensures
        ids_increase(log),
    decreases log.len(),
{
    if log.len() > 1 {
        let front = log.drop_last();
        assert forall|a: int| 0 < a < front.len() implies front[a - 1].id < (#[trigger] front[a]).id by {
            assert(front[a] == log[a]);
            assert(front[a - 1] == log[a - 1]);
        }
        lemma_steps_increase(front);
        assert forall|a: int, b: int| 0 <= a < b < log.len() implies (#[trigger] log[a]).id < (#[trigger] log[b]).id by {
            let last = log.len() - 1;
            if b < last {
                assert(front[a] == log[a] && front[b] == log[b]);
            } else if a < last - 1 {
                assert(front[a] == log[a] && front[last - 1] == log[last - 1]);
                assert(log[last - 1].id < log[last].id);
            } else {
                assert(log[last - 1].id < log[last].id);
            }
        }
    }
}

} // verus!
