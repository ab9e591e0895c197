//! One command of the log, and the same command as a row of the scored view.

use vstd::prelude::*;

verus! {

/// An exact fraction `num / den`: the value of one factor of a scored row.
#[derive(Clone, Copy, Debug, PartialEq, Eq, Structural)]
pub struct Ratio {
    pub num: u128,
    pub den: u128,
}

impl Ratio {
    /// The fraction is `num / den`, with a positive denominator.
    pub open spec fn is(self, num: int, den: int) -> bool {
        self.num == num && self.den == den && den > 0
    }

    /// The fraction lies between 0 and 1, both included.
    pub open spec fn in_unit(self) -> bool {
        self.den > 0 && self.num <= self.den
    }

    /// The fraction is exactly 0 or exactly 1.
    pub open spec fn is_flag(self) -> bool {
        self.den == 1 && (self.num == 0 || self.num == 1)
    }

    /// The fraction 0.
    pub fn zero() -> (r: Ratio)
        ensures
            r.is(0, 1),
    {
        Ratio { num: 0, den: 1 }
    }
}

/// A command of the log. In the scored view the same record also carries the
/// factors computed for the group of its command text, and the rank by which
/// a query orders the rows: the larger, the better. A rank is 0 until one is
/// set.
#[derive(Debug, PartialEq, Eq)]
pub struct Command {
    pub id: i64,
    pub cmd: String,
    pub cmd_tpl: String,
    pub session_id: String,
    pub rank: i64,
    pub when_run: Option<i64>,
    pub exit_code: Option<i32>,
    pub dir: Option<String>,
    pub age_factor: Ratio,
    pub exit_factor: Ratio,
    pub recent_failure_factor: Ratio,
    pub dir_factor: Ratio,
    pub overlap_factor: Ratio,
    pub immediate_overlap_factor: Ratio,
    pub occurrences_factor: Ratio,
}

impl Command {
    /// What the log stores of a command is the same in both.
    pub open spec fn same_record(self, other: Command) -> bool {
        &&& self.id == other.id
        &&& self.cmd@ == other.cmd@
        &&& self.cmd_tpl@ == other.cmd_tpl@
        &&& self.session_id@ == other.session_id@
        &&& self.when_run == other.when_run
        &&& self.exit_code == other.exit_code
        &&& self.dir.is_some() == other.dir.is_some()
        &&& self.dir.is_some() ==> self.dir.unwrap()@ == other.dir.unwrap()@
    }

    /// No factor has been computed and no rank given.
    pub open spec fn unscored(self) -> bool {
        &&& self.rank == 0
        &&& self.age_factor.is(0, 1)
        &&& self.exit_factor.is(0, 1)
        &&& self.recent_failure_factor.is(0, 1)
        &&& self.dir_factor.is(0, 1)
        &&& self.overlap_factor.is(0, 1)
        &&& self.immediate_overlap_factor.is(0, 1)
        &&& self.occurrences_factor.is(0, 1)
    }

    /// The factors and the rank are the same in both.
    pub open spec fn same_score(self, other: Command) -> bool {
        self.rank == other.rank && self.same_factors(other)
    }

    /// The seven factors are the same in both.
    pub open spec fn same_factors(self, other: Command) -> bool {
        &&& self.age_factor == other.age_factor
        &&& self.exit_factor == other.exit_factor
        &&& self.recent_failure_factor == other.recent_failure_factor
        &&& self.dir_factor == other.dir_factor
        &&& self.overlap_factor == other.overlap_factor
        &&& self.immediate_overlap_factor == other.immediate_overlap_factor
        &&& self.occurrences_factor == other.occurrences_factor
    }

    /// The stored part of a command, with no factor computed.
    pub fn record_of(&self) -> (r: Command)
        ensures
            r.same_record(*self),
            r.unscored(),
    {
        let dir = match &self.dir {
            Some(d) => Some(d.clone()),
            None => None,
        };
        Command {
            id: self.id,
            cmd: self.cmd.clone(),
            cmd_tpl: self.cmd_tpl.clone(),
            session_id: self.session_id.clone(),
            rank: 0,
            when_run: self.when_run,
            exit_code: self.exit_code,
            dir,
            age_factor: Ratio::zero(),
            exit_factor: Ratio::zero(),
            recent_failure_factor: Ratio::zero(),
            dir_factor: Ratio::zero(),
            overlap_factor: Ratio::zero(),
            immediate_overlap_factor: Ratio::zero(),
            occurrences_factor: Ratio::zero(),
        }
    }

    /// The command text, as the command is shown.
    pub fn to_string(&self) -> (r: String)
        ensures
            r@ == self.cmd@,
    {
        self.cmd.clone()
    }
}

impl Clone for Command {
    fn clone(&self) -> (r: Command)
        ensures
            r.same_record(*self),
            r.same_score(*self),
    {
        let mut r = self.record_of();
        r.rank = self.rank;
        r.age_factor = self.age_factor;
        r.exit_factor = self.exit_factor;
        r.recent_failure_factor = self.recent_failure_factor;
        r.dir_factor = self.dir_factor;
        r.overlap_factor = self.overlap_factor;
        r.immediate_overlap_factor = self.immediate_overlap_factor;
        r.occurrences_factor = self.occurrences_factor;
        r
    }
}

impl From<Command> for String {
    fn from(command: Command) -> (r: String) {
        command.cmd
    }
}

impl vstd::std_specs::convert::FromSpecImpl<Command> for String {
    open spec fn obeys_from_spec() -> bool {
        true
    }

    open spec fn from_spec(command: Command) -> String {
        command.cmd
    }
}

impl Default for Command {
    fn default() -> (r: Command)
        ensures
            r.id == 0,
            r.cmd@.len() == 0,
            r.cmd_tpl@.len() == 0,
            r.session_id@.len() == 0,
            r.when_run.is_none(),
            r.exit_code.is_none(),
            r.dir.is_none(),
            r.unscored(),
    {
        Command {
            id: 0,
            cmd: String::new(),
            cmd_tpl: String::new(),
            session_id: String::new(),
            rank: 0,
            when_run: None,
            exit_code: None,
            dir: None,
            age_factor: Ratio::zero(),
            exit_factor: Ratio::zero(),
            recent_failure_factor: Ratio::zero(),
            dir_factor: Ratio::zero(),
            overlap_factor: Ratio::zero(),
            immediate_overlap_factor: Ratio::zero(),
            occurrences_factor: Ratio::zero(),
        }
    }
}

} // verus!
