//! Keeping count of the images that have been worked through.

use crate::text::{decimal, push_decimal};
use vstd::prelude::*;

verus! {

/// How many images there are, and how many have gone well and gone wrong. The counters have 64
/// bits and start over behind the last.
pub struct Progress {
    pub total: u64,
    completed: u64,
    failed: u64,
}

/// How far the work has come.
pub struct ProgressModel {
    pub total: u64,
    pub completed: u64,
    pub failed: u64,
}

impl View for Progress {
    type V = ProgressModel;

    closed spec fn view(&self) -> ProgressModel {
        ProgressModel { total: self.total, completed: self.completed, failed: self.failed }
    }
}

impl ProgressModel {
    /// How far the work has come once one more image has gone well, or wrong.
    pub open spec fn counting(self, ok: bool) -> ProgressModel {
        if ok {
            ProgressModel { completed: self.completed.wrapping_add(1), ..self }
        } else {
            ProgressModel { failed: self.failed.wrapping_add(1), ..self }
        }
    }

    /// How many images have been worked through.
    pub open spec fn number(self) -> u64 {
        self.completed.wrapping_add(self.failed)
    }

    /// The front of a report: how many images have been worked through, and of how many.
    pub open spec fn position(self) -> Seq<char> {
        "["@ + decimal(self.number() as nat) + "/"@ + decimal(self.total as nat) + "] "@
    }
}

impl Progress {
    /// Begins to count, with `total` images to work through.
    pub fn new(total: u64) -> (r: Progress)
        ensures
            r@ == (ProgressModel { total, completed: 0, failed: 0 }),
    {
        Progress { total, completed: 0, failed: 0 }
    }

    /// The front of a report.
    fn position(&self) -> (r: String)
        ensures
            r@ == self@.position(),
    {
        let mut line: String = String::from_str("[");
        push_decimal(&mut line, self.completed.wrapping_add(self.failed));
        line.append("/");
        push_decimal(&mut line, self.total);
        line.append("] ");
        line
    }

    /// Counts an image that has gone well and gives the line that reports it.
    pub fn report_ok(&mut self, name: &str, detail: &str) -> (line: String)
        ensures
            final(self)@ == old(self)@.counting(true),
            line@ == final(self)@.position() + "OK  "@ + name@ + " "@ + detail@,
    {
        self.completed = self.completed.wrapping_add(1);
        let mut line: String = self.position();
        line.append("OK  ");
        line.append(name);
        line.append(" ");
        line.append(detail);
        line
    }

    /// Counts an image that has gone wrong and gives the line that reports it.
    pub fn report_err(&mut self, name: &str, err: &str) -> (line: String)
        ensures
            final(self)@ == old(self)@.counting(false),
            line@ == final(self)@.position() + "ERR "@ + name@ + " -- "@ + err@,
    {
        self.failed = self.failed.wrapping_add(1);
        let mut line: String = self.position();
        line.append("ERR ");
        line.append(name);
        line.append(" -- ");
        line.append(err);
        line
    }

    /// How many images have gone well, and how many wrong.
    pub fn summary(&self) -> (r: (u64, u64))
        ensures
            r == (self@.completed, self@.failed),
    {
        (self.completed, self.failed)
    }

    /// The line that sums up the work.
    pub fn closing_line(&self) -> (line: String)
        ensures
            line@ == "Done: "@ + decimal(self@.completed as nat) + " succeeded, "@ + decimal(
                self@.failed as nat,
            ) + " failed"@,
    {
        let mut line: String = String::from_str("Done: ");
        push_decimal(&mut line, self.completed);
        line.append(" succeeded, ");
        push_decimal(&mut line, self.failed);
        line.append(" failed");
        line
    }

    /// The exit code of the work: a failure where nothing has gone well.
    pub fn exit_code(&self) -> (r: u8)
        ensures
            r == if self@.completed == 0 {
                1u8
            } else {
                0u8
            },
    {
        if self.completed == 0 {
            1
        } else {
            0
        }
    }
}

// ---------------------------------------------------------------------------------------------
// Laws
// ---------------------------------------------------------------------------------------------

/// How far the work has come after images that have gone well or wrong, in this order.
pub open spec fn after_reports(total: u64, outcomes: Seq<bool>) -> ProgressModel
    decreases outcomes.len(),
{
    if outcomes.len() == 0 {
        ProgressModel { total, completed: 0, failed: 0 }
    } else {
        after_reports(total, outcomes.drop_last()).counting(outcomes.last())
    }
}

/// How often `ok` occurs among outcomes.
pub open spec fn times(outcomes: Seq<bool>, ok: bool) -> nat
    decreases outcomes.len(),
{
    if outcomes.len() == 0 {
        0
    } else {
        times(outcomes.drop_last(), ok) + if outcomes.last() == ok {
            1nat
        } else {
            0nat
        }
    }
}

/// The counters tell how many images have gone well and how many wrong, and the reports are
/// numbered from one on, whatever the outcomes. With every image reported, the last report has the
/// number of images.
pub proof fn law_every_image_is_counted(total: u64, outcomes: Seq<bool>)
    requires
        outcomes.len() <= u64::MAX,
    ensures
        after_reports(total, outcomes).total == total,
        after_reports(total, outcomes).completed == times(outcomes, true),
        after_reports(total, outcomes).failed == times(outcomes, false),
        after_reports(total, outcomes).number() == outcomes.len(),
    decreases outcomes.len(),
{
    if outcomes.len() > 0 {
        law_every_image_is_counted(total, outcomes.drop_last());
        lemma_times(outcomes);
    }
}

proof fn lemma_times(outcomes: Seq<bool>)
    ensures
        times(outcomes, true) + times(outcomes, false) == outcomes.len(),
    decreases outcomes.len(),
{
    if outcomes.len() > 0 {
        lemma_times(outcomes.drop_last());
    }
}

} // verus!
