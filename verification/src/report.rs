//! What came of a command, target by target.

use crate::executor::{
    entry_views, mode_of, Entry, EntryView, Executor, ExecutorView, Mode, Outcome,
};
use vstd::prelude::*;

verus! {

/// What came of every target served, in the order of the targets.
#[derive(Debug)]
pub struct Report {
    pub mode: Mode,
    pub entries: Vec<Entry>,
}

/// The mathematical content of a [`Report`].
pub ghost struct ReportView {
    pub mode: Mode,
    pub entries: Seq<EntryView>,
}

impl View for Report {
    type V = ReportView;

    open spec fn view(&self) -> ReportView {
        ReportView { mode: self.mode, entries: entry_views(self.entries@) }
    }
}

/// The report on an executor: one entry per target served so far, each
/// with the name of its target and what came of it.
pub open spec fn report_of(state: ExecutorView) -> ReportView {
    ReportView { mode: mode_of(state.targets.len()), entries: state.entries }
}

/// How many of the entries are failures.
pub open spec fn failure_count(entries: Seq<EntryView>) -> nat
    decreases entries.len(),
{
    if entries.len() == 0 {
        0
    } else {
        failure_count(entries.drop_last()) + if entries.last().outcome is Failed {
            1nat
        } else {
            0nat
        }
    }
}

/// There are no more failures than entries, and none exactly when no
/// entry is a failure.
pub proof fn lemma_failure_count(entries: Seq<EntryView>)
    ensures
        failure_count(entries) <= entries.len(),
        failure_count(entries) == 0 <==> forall|i: int|
            0 <= i < entries.len() ==> !((#[trigger] entries[i]).outcome is Failed),
    decreases entries.len(),
{
    if entries.len() > 0 {
        let head = entries.drop_last();
        lemma_failure_count(head);
        if failure_count(entries) == 0 {
            assert forall|i: int| 0 <= i < entries.len() implies !((
            #[trigger] entries[i]).outcome is Failed) by {
                if i < head.len() {
                    assert(entries[i] == head[i]);
                }
            }
        } else if !(entries.last().outcome is Failed) {
            let i = choose|i: int| 0 <= i < head.len() && (#[trigger] head[i]).outcome is Failed;
            assert(entries[i] == head[i]);
        }
    }
}

/// When exactly one target failed, the report counts exactly one
/// failure, and the entry that holds it carries the name of that target.
pub proof fn lemma_single_failure(state: ExecutorView, k: int)
    requires
        state.well_formed(),
        0 <= k < state.entries.len(),
        forall|i: int|
            0 <= i < state.entries.len() ==> ((#[trigger] state.entries[i]).outcome is Failed
                <==> i == k),
    ensures
        failure_count(report_of(state).entries) == 1,
        report_of(state).entries[k].outcome is Failed,
        report_of(state).entries[k].name == state.targets[k].name,
        report_of(state).entries.len() == state.entries.len(),
{
    lemma_count_one(report_of(state).entries, k);
}

/// A list in which exactly the entry at `k` is a failure counts one
/// failure.
proof fn lemma_count_one(entries: Seq<EntryView>, k: int)
    requires
        0 <= k < entries.len(),
        forall|i: int|
            0 <= i < entries.len() ==> ((#[trigger] entries[i]).outcome is Failed <==> i == k),
    ensures
        failure_count(entries) == 1,
    decreases entries.len(),
{
    let head = entries.drop_last();
    if k == entries.len() - 1 {
        assert forall|i: int| 0 <= i < head.len() implies !((#[trigger] head[i]).outcome
            is Failed) by {
            assert(head[i] == entries[i]);
        }
        lemma_failure_count(head);
    } else {
        assert forall|i: int| 0 <= i < head.len() implies ((#[trigger] head[i]).outcome
            is Failed <==> i == k) by {
            assert(head[i] == entries[i]);
        }
        lemma_count_one(head, k);
    }
}

impl Executor {
    /// The report on what has been done so far.
    pub fn report(&self) -> (report: Report)
        ensures
            report@ == report_of(self@),
    {
        let served = self.entries();
        let mut entries: Vec<Entry> = Vec::new();
        let mut i: usize = 0;
        while i < served.len()
            invariant
                i <= served.len(),
                entry_views(entries@) == entry_views(served@).take(i as int),
            decreases served.len() - i,
        {
            let ghost before = entry_views(entries@);
            entries.push(served[i].clone());
            assert(entry_views(entries@) =~= before.push(entries@.last()@));
            i += 1;
            assert(before.push(served@[i - 1]@) =~= entry_views(served@).take(i as int));
        }
        assert(entry_views(served@).take(served.len() as int) =~= entry_views(served@));
        Report { mode: self.mode(), entries }
    }
}

impl Report {
    /// How many targets failed.
    pub fn failures(&self) -> (count: usize)
        ensures
            count == failure_count(self@.entries),
    {
        let mut count: usize = 0;
        let mut i: usize = 0;
        proof {
            assert(self@.entries.take(0) =~= Seq::<EntryView>::empty());
        }
        while i < self.entries.len()
            invariant
                i <= self.entries.len(),
                count <= i,
                count == failure_count(self@.entries.take(i as int)),
            decreases self.entries.len() - i,
        {
            proof {
                assert(self@.entries.take(i + 1).drop_last() =~= self@.entries.take(i as int));
                assert(self@.entries.take(i + 1).last() == self.entries@[i as int]@);
            }
            match self.entries[i].outcome {
                Outcome::Failed(_) => {
                    count += 1;
                },
                _ => {},
            }
            i += 1;
        }
        assert(self@.entries.take(self.entries.len() as int) =~= self@.entries);
        count
    }

    /// Whether no target failed.
    pub fn succeeded(&self) -> (clean: bool)
        ensures
            clean <==> forall|i: int|
                0 <= i < self@.entries.len() ==> !((#[trigger] self@.entries[i]).outcome
                    is Failed),
    {
        proof {
            lemma_failure_count(self@.entries);
        }
        self.failures() == 0
    }
}

/// A line of output as it is shown for `name`: as it is when one target
/// is served, and headed by the name and a colon when there are several.
pub open spec fn attributed(mode: Mode, name: Seq<char>, line: Seq<char>) -> Seq<char> {
    match mode {
        Mode::Single => line,
        Mode::Multi => name + ": "@ + line,
    }
}

/// Heads a line of output by the name of its target where several
/// targets are served.
pub fn attribute(mode: Mode, name: &str, line: &str) -> (shown: String)
    ensures
        shown@ == attributed(mode, name@, line@),
{
    match mode {
        Mode::Single => line.to_owned(),
        Mode::Multi => {
            let mut shown = name.to_owned();
            shown.append(": ");
            shown.append(line);
            shown
        },
    }
}

} // verus!
