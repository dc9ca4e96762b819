//! Applying one operation to every resolved target.
//!
//! Talking to a light is the caller's business. The executor says which
//! call to make next, the caller makes it and reports the reply, and the
//! executor records what came of each target. A target that fails is
//! recorded as failed and the executor goes on with the next one.

use crate::error::DeviceError;
use crate::light::{first_light, reported, Light, Operation};
use crate::target::{views, Target, TargetView};
use vstd::prelude::*;

verus! {

/// One call to a light.
#[derive(Clone, Copy, Debug, PartialEq, Eq, Structural)]
pub enum Action {
    /// Ask the light for its state.
    Read,
    /// Put the light in this state.
    Write(Light),
}

/// What came back from a call to a light.
#[derive(Debug)]
pub enum Reply {
    /// The lights that the status document lists.
    Status(Vec<Light>),
    /// The light accepted the state it was sent.
    Written,
    /// The call failed.
    Failed(DeviceError),
}

/// The mathematical content of a [`Reply`].
pub ghost enum ReplyView {
    Status(Seq<Light>),
    Written,
    Failed(DeviceError),
}

impl View for Reply {
    type V = ReplyView;

    open spec fn view(&self) -> ReplyView {
        match self {
            Reply::Status(lights) => ReplyView::Status(lights@),
            Reply::Written => ReplyView::Written,
            Reply::Failed(e) => ReplyView::Failed(*e),
        }
    }
}

/// What came of one target.
#[derive(Clone, Copy, Debug, PartialEq, Eq, Structural)]
pub enum Outcome {
    /// The light was put in this state.
    Applied(Light),
    /// The light reported this state; nothing was changed.
    Reported(Light),
    /// The target failed, for this reason.
    Failed(DeviceError),
}

/// What came of one target, with the name of that target.
#[derive(Debug)]
pub struct Entry {
    pub name: String,
    pub outcome: Outcome,
}

/// The mathematical content of an [`Entry`].
pub ghost struct EntryView {
    pub name: Seq<char>,
    pub outcome: Outcome,
}

impl View for Entry {
    type V = EntryView;

    open spec fn view(&self) -> EntryView {
        EntryView { name: self.name@, outcome: self.outcome }
    }
}

impl Clone for Entry {
    fn clone(&self) -> (copy: Self)
        ensures
            copy@ == self@,
    {
        Entry { name: self.name.clone(), outcome: self.outcome }
    }
}

/// The contents of a list of entries, in order.
pub open spec fn entry_views(entries: Seq<Entry>) -> Seq<EntryView> {
    entries.map_values(|e: Entry| e@)
}

/// Whether the executor serves one target or several; output is
/// attributed to targets by name only where there are several.
#[derive(Clone, Copy, Debug, PartialEq, Eq, Structural)]
pub enum Mode {
    Single,
    Multi,
}

/// The mode for a given number of targets.
pub open spec fn mode_of(targets: nat) -> Mode {
    if targets == 1 {
        Mode::Single
    } else {
        Mode::Multi
    }
}

/// The next call to make, and the target to make it to.
#[derive(Debug)]
pub struct Command {
    pub index: usize,
    pub target: Target,
    pub action: Action,
}

/// The mathematical content of an [`Executor`].
pub ghost struct ExecutorView {
    /// The operation that is being applied.
    pub operation: Operation,
    /// The targets, in the order in which they are served.
    pub targets: Seq<TargetView>,
    /// What came of the targets served so far, in the same order, each
    /// with the name of its target.
    pub entries: Seq<EntryView>,
    /// The state to write to the current target, once it has been read.
    pub pending: Option<Light>,
}

impl ExecutorView {
    /// The state before any call: nothing served, nothing pending.
    pub open spec fn initial(operation: Operation, targets: Seq<TargetView>) -> ExecutorView {
        ExecutorView { operation, targets, entries: Seq::empty(), pending: None }
    }

    /// There is at most one entry per target, the entry at each position
    /// carries the name of the target at that position, and a state waits
    /// to be written only for a target that is not served yet and an
    /// operation that reads before it writes.
    pub open spec fn well_formed(self) -> bool {
        &&& self.entries.len() <= self.targets.len()
        &&& forall|i: int|
            0 <= i < self.entries.len() ==> (#[trigger] self.entries[i]).name
                == self.targets[i].name
        &&& self.pending is Some ==> {
            &&& self.entries.len() < self.targets.len()
            &&& self.operation.reads()
            &&& self.operation.changes()
        }
    }

    /// Whether every target has been served.
    pub open spec fn finished(self) -> bool {
        self.entries.len() >= self.targets.len()
    }

    /// The position of the target that is served next.
    pub open spec fn position(self) -> int {
        self.entries.len() as int
    }

    /// What came of the targets served so far, in their order.
    pub open spec fn outcomes(self) -> Seq<Outcome> {
        self.entries.map_values(|e: EntryView| e.outcome)
    }

    /// The call to make next to the current target.
    pub open spec fn action(self) -> Action {
        match self.pending {
            Some(wanted) => Action::Write(wanted),
            None => match self.operation.absolute() {
                Some(wanted) => Action::Write(wanted),
                None => Action::Read,
            },
        }
    }

    /// The state once the current target is done with `outcome`.
    pub open spec fn complete(self, outcome: Outcome) -> ExecutorView {
        ExecutorView {
            entries: self.entries.push(
                EntryView { name: self.targets[self.position()].name, outcome },
            ),
            pending: None,
            ..self
        }
    }

    /// The state after `reply` came back from the call that
    /// [`ExecutorView::action`] names. A failed call fails the current
    /// target, and so does a reply of the wrong kind. A status document
    /// that lists no light fails it too. Once every target is served,
    /// replies change nothing.
    pub open spec fn step(self, reply: ReplyView) -> ExecutorView {
        if self.finished() {
            self
        } else {
            match (self.action(), reply) {
                (_, ReplyView::Failed(e)) => self.complete(Outcome::Failed(e)),
                (Action::Read, ReplyView::Status(lights)) => match reported(lights) {
                    Err(e) => self.complete(Outcome::Failed(e)),
                    Ok(current) => if self.operation.changes() {
                        ExecutorView { pending: Some(self.operation.desired(current)), ..self }
                    } else {
                        self.complete(Outcome::Reported(current))
                    },
                },
                (Action::Write(wanted), ReplyView::Written) => self.complete(
                    Outcome::Applied(wanted),
                ),
                (Action::Read, ReplyView::Written) => self.complete(
                    Outcome::Failed(DeviceError::MalformedResponse),
                ),
                (Action::Write(_), ReplyView::Status(_)) => self.complete(
                    Outcome::Failed(DeviceError::MalformedResponse),
                ),
            }
        }
    }

    /// The state after a sequence of replies, each answering the call
    /// that was due when it came.
    pub open spec fn run(self, replies: Seq<ReplyView>) -> ExecutorView
        decreases replies.len(),
    {
        if replies.len() == 0 {
            self
        } else {
            self.run(replies.drop_last()).step(replies.last())
        }
    }
}

/// What comes of one target, given the reply to its first call and, for
/// an operation that reads and then writes, the reply to its second.
pub open spec fn served(operation: Operation, first: ReplyView, second: ReplyView) -> Outcome {
    match (operation.absolute(), first) {
        (_, ReplyView::Failed(e)) => Outcome::Failed(e),
        (Some(wanted), ReplyView::Written) => Outcome::Applied(wanted),
        (Some(_), ReplyView::Status(_)) => Outcome::Failed(DeviceError::MalformedResponse),
        (None, ReplyView::Written) => Outcome::Failed(DeviceError::MalformedResponse),
        (None, ReplyView::Status(lights)) => match reported(lights) {
            Err(e) => Outcome::Failed(e),
            Ok(current) => if !operation.changes() {
                Outcome::Reported(current)
            } else {
                match second {
                    ReplyView::Written => Outcome::Applied(operation.desired(current)),
                    ReplyView::Failed(e) => Outcome::Failed(e),
                    ReplyView::Status(_) => Outcome::Failed(DeviceError::MalformedResponse),
                }
            },
        },
    }
}

/// Whether `entries` begins with all of `earlier`.
pub open spec fn extends(entries: Seq<EntryView>, earlier: Seq<EntryView>) -> bool {
    earlier.len() <= entries.len() && entries.take(earlier.len() as int) == earlier
}

/// One reply never touches the operation, the targets or the entries
/// recorded so far. It either completes the current target, adding one
/// entry under the name of that target, or, when it reports the state
/// that a change starts from, leaves the target current with the state to
/// write.
pub proof fn lemma_step(state: ExecutorView, reply: ReplyView)
    requires
        state.well_formed(),
    ensures
        state.step(reply).well_formed(),
        state.step(reply).operation == state.operation,
        state.step(reply).targets == state.targets,
        extends(state.step(reply).entries, state.entries),
        state.step(reply).entries.len() <= state.entries.len() + 1,
        state.step(reply).entries.len() == state.entries.len() && !state.finished() ==> {
            &&& state.action() == Action::Read
            &&& reply is Status
            &&& state.step(reply).action() is Write
        },
{
    let next = state.step(reply);
    assert(next.entries.take(state.entries.len() as int) =~= state.entries);
    assert forall|i: int| 0 <= i < next.entries.len() implies (#[trigger] next.entries[i]).name
        == next.targets[i].name by {
        if i < state.entries.len() {
            assert(next.entries[i] == state.entries[i]);
        }
    }
}

/// A call that fails is recorded as the failure of the current target
/// and of no other, under the name of that target, and the executor turns
/// to the next target: the targets that remain are still served.
pub proof fn lemma_failure_continues(state: ExecutorView, error: DeviceError)
    requires
        state.well_formed(),
        !state.finished(),
    ensures
        state.step(ReplyView::Failed(error)).entries == state.entries.push(
            EntryView {
                name: state.targets[state.position()].name,
                outcome: Outcome::Failed(error),
            },
        ),
        state.step(ReplyView::Failed(error)).position() == state.position() + 1,
        state.step(ReplyView::Failed(error)).pending is None,
        state.step(ReplyView::Failed(error)).targets == state.targets,
        state.position() + 1 < state.targets.len() ==> !state.step(
            ReplyView::Failed(error),
        ).finished(),
{
}

/// What comes of a target depends on the replies to its own calls and
/// on nothing else: not on the targets before it, nor on what came of
/// them. One or two replies complete a target, and its entry carries its
/// own name.
pub proof fn lemma_target_outcome(state: ExecutorView, first: ReplyView, second: ReplyView)
    requires
        state.well_formed(),
        !state.finished(),
        state.pending is None,
    ensures
        ({
            let done = EntryView {
                name: state.targets[state.position()].name,
                outcome: served(state.operation, first, second),
            };
            if state.step(first).position() == state.position() {
                state.step(first).step(second).entries == state.entries.push(done)
            } else {
                state.step(first).entries == state.entries.push(done)
            }
        }),
{
}

/// A status query only ever reads: it never asks for a write, and what
/// it records for a target is the state that the target reported or the
/// reason why it failed.
pub proof fn lemma_status_only_reads(state: ExecutorView, reply: ReplyView)
    requires
        state.well_formed(),
        state.operation is Status,
        !state.finished(),
    ensures
        state.action() == Action::Read,
        state.step(reply).pending is None,
        state.step(reply).entries.len() == state.entries.len() + 1,
        !(state.step(reply).entries.last().outcome is Applied),
        reply matches ReplyView::Status(lights) ==> lights.len() > 0 ==> state.step(
            reply,
        ).entries.last().outcome == Outcome::Reported(lights[0]),
{
}

/// An operation that changes a light from its current state takes two
/// calls per target: it reads the state, and then it writes the state
/// that the operation asks for, given the state that was read.
pub proof fn lemma_read_then_write(state: ExecutorView, lights: Seq<Light>)
    requires
        state.well_formed(),
        state.operation.changes(),
        state.operation.reads(),
        state.pending is None,
        !state.finished(),
        lights.len() > 0,
    ensures
        state.action() == Action::Read,
        state.step(ReplyView::Status(lights)).action() == Action::Write(
            state.operation.desired(lights[0]),
        ),
        state.step(ReplyView::Status(lights)).position() == state.position(),
        state.step(ReplyView::Status(lights)).step(ReplyView::Written).entries
            == state.entries.push(
            EntryView {
                name: state.targets[state.position()].name,
                outcome: Outcome::Applied(state.operation.desired(lights[0])),
            },
        ),
{
}

/// Whatever replies come, the executor stays consistent, keeps its
/// operation and targets, and only ever adds to the entries it holds.
pub proof fn lemma_run(state: ExecutorView, replies: Seq<ReplyView>)
    requires
        state.well_formed(),
    ensures
        state.run(replies).well_formed(),
        state.run(replies).operation == state.operation,
        state.run(replies).targets == state.targets,
        extends(state.run(replies).entries, state.entries),
        state.run(replies).entries.len() <= state.entries.len() + replies.len(),
    decreases replies.len(),
{
    if replies.len() > 0 {
        let before = state.run(replies.drop_last());
        lemma_run(state, replies.drop_last());
        lemma_step(before, replies.last());
        let after = before.step(replies.last());
        assert(after.entries.take(state.entries.len() as int) =~= before.entries.take(
            state.entries.len() as int,
        )) by {
            assert(after.entries.take(before.entries.len() as int) == before.entries);
        }
    } else {
        assert(state.entries.take(state.entries.len() as int) =~= state.entries);
    }
}

/// Applies one operation to a list of targets, one call at a time.
#[derive(Debug)]
pub struct Executor {
    operation: Operation,
    targets: Vec<Target>,
    entries: Vec<Entry>,
    pending: Option<Light>,
}

impl View for Executor {
    type V = ExecutorView;

    closed spec fn view(&self) -> ExecutorView {
        ExecutorView {
            operation: self.operation,
            targets: views(self.targets@),
            entries: entry_views(self.entries@),
            pending: self.pending,
        }
    }
}

impl Executor {
    /// Whether the state of the executor is consistent.
    pub open spec fn well_formed(&self) -> bool {
        self@.well_formed()
    }

    /// An executor that is about to apply `operation` to `targets`, in
    /// their order.
    pub fn new(operation: Operation, targets: Vec<Target>) -> (executor: Executor)
        ensures
            executor@ == ExecutorView::initial(operation, views(targets@)),
            executor.well_formed(),
    {
        let executor = Executor { operation, targets, entries: Vec::new(), pending: None };
        assert(executor@.entries =~= Seq::<EntryView>::empty());
        executor
    }

    /// Whether one target is served or several.
    pub fn mode(&self) -> (mode: Mode)
        ensures
            mode == mode_of(self@.targets.len()),
    {
        if self.targets.len() == 1 {
            Mode::Single
        } else {
            Mode::Multi
        }
    }

    /// Whether every target has been served.
    pub fn is_finished(&self) -> (finished: bool)
        ensures
            finished == self@.finished(),
    {
        self.entries.len() >= self.targets.len()
    }

    /// The call to make next and the target to make it to, or nothing
    /// once every target has been served.
    pub fn next(&self) -> (command: Option<Command>)
        ensures
            match command {
                Some(c) => {
                    &&& !self@.finished()
                    &&& c.index == self@.position()
                    &&& c.target@ == self@.targets[self@.position()]
                    &&& c.action == self@.action()
                },
                None => self@.finished(),
            },
    {
        let index = self.entries.len();
        if index >= self.targets.len() {
            return None;
        }
        let action = match self.pending {
            Some(wanted) => Action::Write(wanted),
            None => match self.operation.fixed() {
                Some(wanted) => Action::Write(wanted),
                None => Action::Read,
            },
        };
        Some(Command { index, target: self.targets[index].clone(), action })
    }

    /// Takes in the reply to the call that [`Executor::next`] named.
    pub fn handle(&mut self, reply: Reply)
        ensures
            final(self)@ == old(self)@.step(reply@),
            old(self).well_formed() ==> final(self).well_formed(),
    {
        proof {
            if self.well_formed() {
                lemma_step(self@, reply@);
            }
        }
        if self.entries.len() >= self.targets.len() {
            return;
        }
        let fixed = self.operation.fixed();
        match reply {
            Reply::Failed(e) => {
                self.finish_target(Outcome::Failed(e));
            },
            Reply::Status(lights) => {
                if self.pending.is_some() || fixed.is_some() {
                    self.finish_target(Outcome::Failed(DeviceError::MalformedResponse));
                } else {
                    match first_light(&lights) {
                        Err(e) => {
                            self.finish_target(Outcome::Failed(e));
                        },
                        Ok(current) => {
                            if self.operation.is_change() {
                                self.pending = Some(self.operation.apply(current));
                            } else {
                                self.finish_target(Outcome::Reported(current));
                            }
                        },
                    }
                }
            },
            Reply::Written => {
                match (self.pending, fixed) {
                    (Some(wanted), _) => {
                        self.finish_target(Outcome::Applied(wanted));
                    },
                    (None, Some(wanted)) => {
                        self.finish_target(Outcome::Applied(wanted));
                    },
                    (None, None) => {
                        self.finish_target(Outcome::Failed(DeviceError::MalformedResponse));
                    },
                }
            },
        }
    }

    /// Records the outcome of the current target and turns to the next.
    fn finish_target(&mut self, outcome: Outcome)
        requires
            !old(self)@.finished(),
        ensures
            final(self)@ == old(self)@.complete(outcome),
    {
        let name = self.targets[self.entries.len()].name.clone();
        let ghost before = self.entries@;
        self.entries.push(Entry { name, outcome });
        self.pending = None;
        assert(entry_views(self.entries@) =~= entry_views(before).push(self.entries@.last()@));
    }

    /// What came of the targets served so far, in the order of the
    /// targets.
    pub fn entries(&self) -> (entries: &Vec<Entry>)
        ensures
            entry_views(entries@) == self@.entries,
    {
        &self.entries
    }

    /// The targets, in the order in which they are served.
    pub fn targets(&self) -> (targets: &Vec<Target>)
        ensures
            views(targets@) == self@.targets,
    {
        &self.targets
    }
}

} // verus!
